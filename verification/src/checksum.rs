//! The 64-bit FNV-1a checksum that tells transfers apart.

use vstd::prelude::*;

verus! {

/// The FNV-1a hash of a byte string: starting from the offset basis, each byte
/// is mixed in and the result multiplied by the FNV prime, modulo 2^64.
pub open spec fn fnv1a(bytes: Seq<u8>) -> u64
    decreases bytes.len(),
{
    if bytes.len() == 0 {
        0xcbf29ce484222325
    } else {
        (fnv1a(bytes.drop_last()) ^ (bytes.last() as u64)).wrapping_mul(0x100000001b3)
    }
}

/// The hash of nothing is the offset basis, and each further byte is mixed into the
/// lowest byte of the hash before a multiplication by the FNV prime modulo 2^64.
pub proof fn law_checksum_takes_in_each_byte(bytes: Seq<u8>, next: u8)
    ensures
        fnv1a(Seq::empty()) == 14_695_981_039_346_656_037,
        fnv1a(bytes.push(next)) as int == ((fnv1a(bytes) ^ (next as u64)) as int
            * 1_099_511_628_211) % 0x1_0000_0000_0000_0000,
{
    assert(bytes.push(next).drop_last() =~= bytes);
}

/// Multiplying by the FNV prime loses nothing: its inverse modulo 2^64 undoes it.
proof fn lemma_prime_is_invertible(a: u64, b: u64)
    requires
        a.wrapping_mul(0x100000001b3) == b.wrapping_mul(0x100000001b3),
    ensures
        a == b,
{
    let m = 0x1_0000_0000_0000_0000int;
    let p = 0x100000001b3int;
    let q = 0xce965057aff6957bint;
    let (x, y) = (a as int, b as int);
    assert((x * p) % m == (y * p) % m);
    vstd::arithmetic::div_mod::lemma_mul_mod_noop_left(x * p, q, m);
    vstd::arithmetic::div_mod::lemma_mul_mod_noop_left(y * p, q, m);
    vstd::arithmetic::div_mod::lemma_mul_mod_noop_right(x, p * q, m);
    vstd::arithmetic::div_mod::lemma_mul_mod_noop_right(y, p * q, m);
    assert((x * p) * q == x * (p * q)) by (nonlinear_arith);
    assert((y * p) * q == y * (p * q)) by (nonlinear_arith);
    assert((p * q) % m == 1);
    assert(x * 1 == x && y * 1 == y);
    assert(x % m == x && y % m == y);
}

/// Two strings of one hash that go on differently, or two strings of different
/// hashes that go on alike, have different hashes in the end.
proof fn lemma_step_loses_nothing(a: u64, b: u64, x: u8, y: u8)
    requires
        (a == b) != (x == y),
    ensures
        (a ^ (x as u64)).wrapping_mul(0x100000001b3) != (b ^ (y as u64)).wrapping_mul(
            0x100000001b3,
        ),
{
    assert((a == b) != (x == y) ==> (a ^ (x as u64)) != (b ^ (y as u64))) by (bit_vector);
    if (a ^ (x as u64)).wrapping_mul(0x100000001b3) == (b ^ (y as u64)).wrapping_mul(
        0x100000001b3,
    ) {
        lemma_prime_is_invertible(a ^ (x as u64), b ^ (y as u64));
    }
}

/// The last byte tells strings apart.
pub proof fn law_checksum_tells_last_bytes_apart(bytes: Seq<u8>, a: u8, b: u8)
    requires
        a != b,
    ensures
        fnv1a(bytes.push(a)) != fnv1a(bytes.push(b)),
{
    assert(bytes.push(a).drop_last() =~= bytes);
    assert(bytes.push(b).drop_last() =~= bytes);
    lemma_step_loses_nothing(fnv1a(bytes), fnv1a(bytes), a, b);
}

/// What follows neither separates strings of one hash nor joins strings of
/// different hashes.
pub proof fn law_checksum_goes_on_from_the_hash(a: Seq<u8>, b: Seq<u8>, more: Seq<u8>)
    ensures
        fnv1a(a + more) == fnv1a(b + more) <==> fnv1a(a) == fnv1a(b),
    decreases more.len(),
{
    if more.len() == 0 {
        assert(a + more =~= a);
        assert(b + more =~= b);
    } else {
        let rest = more.drop_last();
        law_checksum_goes_on_from_the_hash(a, b, rest);
        assert((a + more).drop_last() =~= a + rest);
        assert((b + more).drop_last() =~= b + rest);
        if fnv1a(a) != fnv1a(b) {
            lemma_step_loses_nothing(fnv1a(a + rest), fnv1a(b + rest), more.last(), more.last());
        }
    }
}

/// Every byte counts: two strings that differ in one byte only, wherever it stands,
/// have different hashes. So two files of one name that differ in one byte are
/// different transfers.
pub proof fn law_checksum_tells_single_bytes_apart(bytes: Seq<u8>, at: int, other: u8)
    requires
        0 <= at < bytes.len(),
        bytes[at] != other,
    ensures
        fnv1a(bytes.update(at, other)) != fnv1a(bytes),
{
    let before = bytes.take(at);
    let more = bytes.skip(at + 1);
    assert(bytes =~= before.push(bytes[at]) + more);
    assert(bytes.update(at, other) =~= before.push(other) + more);
    law_checksum_tells_last_bytes_apart(before, bytes[at], other);
    law_checksum_goes_on_from_the_hash(before.push(other), before.push(bytes[at]), more);
}

fn fold_bytes(start: u64, bytes: &[u8], Ghost(before): Ghost<Seq<u8>>) -> (hash: u64)
    requires
        start == fnv1a(before),
    ensures
        hash == fnv1a(before + bytes@),
{
    let mut hash: u64 = start;
    let mut i: usize = 0;
    assert(before + bytes@.take(0) =~= before);
    while i < bytes.len()
        invariant
            i <= bytes@.len(),
            hash == fnv1a(before + bytes@.take(i as int)),
        decreases bytes@.len() - i,
    {
        hash = (hash ^ (bytes[i] as u64)).wrapping_mul(0x100000001b3);
        assert((before + bytes@.take(i + 1)).drop_last() =~= before + bytes@.take(i as int));
        i = i + 1;
    }
    assert(bytes@.take(bytes@.len() as int) =~= bytes@);
    hash
}

/// The checksum of a transfer: of the file name followed by the file.
pub fn checksum(bytes: &[u8], filename: &[u8]) -> (hash: u64)
    ensures
        hash == fnv1a(filename@ + bytes@),
{
    let named: u64 = fold_bytes(0xcbf29ce484222325, filename, Ghost(Seq::empty()));
    assert(Seq::<u8>::empty() + filename@ =~= filename@);
    fold_bytes(named, bytes, Ghost(filename@))
}

} // verus!
