//! Byte-level string order and hashing.
//!
//! Strings are compared and hashed through their UTF-8 bytes.  The
//! byte-lexicographic order equals Rust's own `Ord` on `str`, and for valid
//! UTF-8 it also equals code-point order.  Hashing is 64-bit FNV-1a, a fixed
//! algorithm so that the schema hash is stable across processes.

use vstd::prelude::*;
use vstd::string::StringSliceAdditionalSpecFns;

verus! {

/// Strict byte-lexicographic order on byte strings.
pub open spec fn bytes_lt(a: Seq<u8>, b: Seq<u8>) -> bool
    decreases a.len(),
{
    if b.len() == 0 {
        false
    } else if a.len() == 0 {
        true
    } else if a[0] != b[0] {
        a[0] < b[0]
    } else {
        bytes_lt(a.drop_first(), b.drop_first())
    }
}

/// Non-strict byte-lexicographic order.
pub open spec fn bytes_le(a: Seq<u8>, b: Seq<u8>) -> bool {
    !bytes_lt(b, a)
}

/// The byte order is total: on any two byte strings, equality or one of the
/// two strict orders holds.
pub proof fn lemma_bytes_order_total(a: Seq<u8>, b: Seq<u8>)
    ensures
        a == b || bytes_lt(a, b) || bytes_lt(b, a),
    decreases a.len(),
{
    if a.len() == 0 && b.len() == 0 {
        assert(a =~= b);
    } else if a.len() != 0 && b.len() != 0 && a[0] == b[0] {
        lemma_bytes_order_total(a.drop_first(), b.drop_first());
        if a.drop_first() == b.drop_first() {
            assert(a.drop_first().len() == a.len() - 1);
            assert(b.drop_first().len() == b.len() - 1);
            assert(a.len() == b.len());
            assert forall|j: int| 0 <= j < a.len() implies a[j] == b[j] by {
                if j > 0 {
                    assert(a[j] == a.drop_first()[j - 1]);
                    assert(b[j] == b.drop_first()[j - 1]);
                }
            }
            assert(a =~= b);
        }
    }
}

/// The strict byte order is asymmetric.
pub proof fn lemma_bytes_lt_asym(a: Seq<u8>, b: Seq<u8>)
    requires
        bytes_lt(a, b),
    ensures
        !bytes_lt(b, a),
    decreases a.len(),
{
    if a.len() != 0 && b.len() != 0 && a[0] == b[0] {
        lemma_bytes_lt_asym(a.drop_first(), b.drop_first());
    }
}

/// The non-strict byte order is transitive.
pub proof fn lemma_bytes_le_trans(a: Seq<u8>, b: Seq<u8>, c: Seq<u8>)
    requires
        bytes_le(a, b),
        bytes_le(b, c),
    ensures
        bytes_le(a, c),
    decreases a.len(),
{
    if c.len() != 0 && a.len() != 0 {
        if b.len() == 0 {
            assert(bytes_lt(b, a));
        } else {
            if a[0] == b[0] && b[0] == c[0] {
                lemma_bytes_le_trans(a.drop_first(), b.drop_first(), c.drop_first());
            }
        }
    }
}

/// Dropping a shared first byte does not change the order.
proof fn lemma_bytes_lt_common_prefix(a: Seq<u8>, b: Seq<u8>, i: int)
    requires
        0 <= i <= a.len(),
        0 <= i <= b.len(),
        forall|j: int| 0 <= j < i ==> a[j] == b[j],
    ensures
        bytes_lt(a, b) == bytes_lt(a.skip(i), b.skip(i)),
    decreases i,
{
    if i > 0 {
        if a.len() != 0 && b.len() != 0 {
            assert(a[0] == b[0]);
            lemma_bytes_lt_common_prefix(a.drop_first(), b.drop_first(), i - 1);
            assert(a.drop_first().skip(i - 1) =~= a.skip(i));
            assert(b.drop_first().skip(i - 1) =~= b.skip(i));
        }
    } else {
        assert(a.skip(0) =~= a);
        assert(b.skip(0) =~= b);
    }
}

/// Compares two byte slices in strict lexicographic order.
pub fn slice_bytes_lt(a: &[u8], b: &[u8]) -> (r: bool)
    ensures
        r == bytes_lt(a@, b@),
{
    let n: usize = if a.len() < b.len() {
        a.len()
    } else {
        b.len()
    };
    let mut i: usize = 0;
    while i < n
        invariant
            0 <= i <= n,
            n <= a@.len(),
            n <= b@.len(),
            n == if a@.len() < b@.len() {
                a@.len()
            } else {
                b@.len()
            },
            forall|j: int| 0 <= j < i ==> a@[j] == b@[j],
        decreases n - i,
    {
        if a[i] < b[i] {
            proof {
                lemma_bytes_lt_common_prefix(a@, b@, i as int);
            }
            return true;
        }
        if a[i] > b[i] {
            proof {
                lemma_bytes_lt_common_prefix(a@, b@, i as int);
            }
            return false;
        }
        i = i + 1;
    }
    proof {
        lemma_bytes_lt_common_prefix(a@, b@, n as int);
    }
    a.len() < b.len()
}

/// UTF-8 bytes of a string, the sequence the exec `str::as_bytes` yields.
pub open spec fn string_bytes(chars: Seq<char>) -> Seq<u8> {
    vstd::utf8::encode_utf8(chars)
}

/// Strict byte order on two strings.
pub fn string_lt(a: &String, b: &String) -> (r: bool)
    ensures
        r == bytes_lt(string_bytes(a@), string_bytes(b@)),
{
    slice_bytes_lt(a.as_str().as_bytes(), b.as_str().as_bytes())
}

/// FNV-1a offset basis.
pub const FNV_OFFSET: u64 = 0xcbf2_9ce4_8422_2325;

/// FNV-1a prime.
pub const FNV_PRIME: u64 = 0x0000_0100_0000_01b3;

/// Product of two words reduced modulo 2^64, as `wrapping_mul` computes it.
pub open spec fn mul_wrap(a: u64, b: u64) -> u64 {
    ((a as int * b as int) % 0x1_0000_0000_0000_0000) as u64
}

/// One FNV-1a step: mix one byte into the running hash.
pub open spec fn fnv_byte(h: u64, byte: u8) -> u64 {
    mul_wrap(h ^ (byte as u64), FNV_PRIME)
}

/// FNV-1a over a byte string, continuing from hash state `h`.
pub open spec fn fnv_bytes(h: u64, bytes: Seq<u8>) -> u64
    decreases bytes.len(),
{
    if bytes.len() == 0 {
        h
    } else {
        fnv_bytes(fnv_byte(h, bytes[0]), bytes.drop_first())
    }
}

/// Mixes a whole 64-bit word into the hash, low byte first.
pub open spec fn fnv_u64(h: u64, x: u64) -> u64 {
    fnv_byte(
        fnv_byte(
            fnv_byte(
                fnv_byte(
                    fnv_byte(
                        fnv_byte(fnv_byte(fnv_byte(h, x as u8), (x >> 8) as u8), (x >> 16) as u8),
                        (x >> 24) as u8,
                    ),
                    (x >> 32) as u8,
                ),
                (x >> 40) as u8,
            ),
            (x >> 48) as u8,
        ),
        (x >> 56) as u8,
    )
}

/// Folds one byte into a running FNV-1a hash.
pub fn hash_byte(h: u64, byte: u8) -> (r: u64)
    ensures
        r == fnv_byte(h, byte),
{
    (h ^ (byte as u64)).wrapping_mul(FNV_PRIME)
}

/// Folds a byte slice into a running FNV-1a hash.
pub fn hash_bytes(h: u64, bytes: &[u8]) -> (r: u64)
    ensures
        r == fnv_bytes(h, bytes@),
{
    let mut acc = h;
    let mut i: usize = 0;
    proof {
        lemma_fnv_bytes_take(h, bytes@, 0);
        assert(bytes@.take(0) =~= Seq::<u8>::empty());
    }
    while i < bytes.len()
        invariant
            0 <= i <= bytes@.len(),
            acc == fnv_bytes(h, bytes@.take(i as int)),
        decreases bytes@.len() - i,
    {
        proof {
            lemma_fnv_bytes_step(h, bytes@, i as int);
        }
        acc = hash_byte(acc, bytes[i]);
        i = i + 1;
    }
    proof {
        assert(bytes@.take(bytes@.len() as int) =~= bytes@);
    }
    acc
}

/// Folds a string's UTF-8 bytes into a running FNV-1a hash.
pub fn hash_str(h: u64, s: &String) -> (r: u64)
    ensures
        r == fnv_bytes(h, string_bytes(s@)),
{
    hash_bytes(h, s.as_str().as_bytes())
}

/// Folds a 64-bit word into a running FNV-1a hash, low byte first.
pub fn hash_u64(h: u64, x: u64) -> (r: u64)
    ensures
        r == fnv_u64(h, x),
{
    let mut acc = hash_byte(h, (x & 0xff) as u8);
    acc = hash_byte(acc, ((x >> 8) & 0xff) as u8);
    acc = hash_byte(acc, ((x >> 16) & 0xff) as u8);
    acc = hash_byte(acc, ((x >> 24) & 0xff) as u8);
    acc = hash_byte(acc, ((x >> 32) & 0xff) as u8);
    acc = hash_byte(acc, ((x >> 40) & 0xff) as u8);
    acc = hash_byte(acc, ((x >> 48) & 0xff) as u8);
    acc = hash_byte(acc, ((x >> 56) & 0xff) as u8);
    proof {
        assert((x & 0xff) as u8 == x as u8) by (bit_vector);
        assert(((x >> 8) & 0xff) as u8 == (x >> 8) as u8) by (bit_vector);
        assert(((x >> 16) & 0xff) as u8 == (x >> 16) as u8) by (bit_vector);
        assert(((x >> 24) & 0xff) as u8 == (x >> 24) as u8) by (bit_vector);
        assert(((x >> 32) & 0xff) as u8 == (x >> 32) as u8) by (bit_vector);
        assert(((x >> 40) & 0xff) as u8 == (x >> 40) as u8) by (bit_vector);
        assert(((x >> 48) & 0xff) as u8 == (x >> 48) as u8) by (bit_vector);
        assert(((x >> 56) & 0xff) as u8 == (x >> 56) as u8) by (bit_vector);
    }
    acc
}

/// Taking no bytes leaves the hash unchanged; used to seed loop invariants.
proof fn lemma_fnv_bytes_take(h: u64, bytes: Seq<u8>, i: int)
    requires
        0 <= i <= bytes.len(),
    ensures
        i == 0 ==> fnv_bytes(h, bytes.take(i)) == h,
{
    if i == 0 {
        assert(bytes.take(0) =~= Seq::<u8>::empty());
    }
}

/// Extending the hashed prefix by one byte folds exactly that byte in.
proof fn lemma_fnv_bytes_step(h: u64, bytes: Seq<u8>, i: int)
    requires
        0 <= i < bytes.len(),
    ensures
        fnv_bytes(h, bytes.take(i + 1)) == fnv_byte(fnv_bytes(h, bytes.take(i)), bytes[i]),
    decreases i,
{
    lemma_fnv_snoc(h, bytes.take(i), bytes[i]);
    assert(bytes.take(i).push(bytes[i]) =~= bytes.take(i + 1));
}

/// Hashing a string then one more byte equals hashing the pushed string.
proof fn lemma_fnv_snoc(h: u64, bytes: Seq<u8>, b: u8)
    ensures
        fnv_bytes(h, bytes.push(b)) == fnv_byte(fnv_bytes(h, bytes), b),
    decreases bytes.len(),
{
    if bytes.len() == 0 {
        assert(bytes.push(b)[0] == b);
        assert(bytes.push(b).drop_first() =~= Seq::<u8>::empty());
        assert(fnv_bytes(fnv_byte(h, b), Seq::<u8>::empty()) == fnv_byte(h, b));
        assert(fnv_bytes(h, bytes) == h);
    } else {
        lemma_fnv_snoc(fnv_byte(h, bytes[0]), bytes.drop_first(), b);
        assert(bytes.push(b)[0] == bytes[0]);
        assert(bytes.push(b).drop_first() =~= bytes.drop_first().push(b));
        assert(fnv_bytes(h, bytes.push(b)) == fnv_bytes(
            fnv_byte(h, bytes[0]),
            bytes.drop_first().push(b),
        ));
        assert(fnv_bytes(h, bytes) == fnv_bytes(fnv_byte(h, bytes[0]), bytes.drop_first()));
    }
}

} // verus!
