//! Big-endian numbers, byte-wise exclusive or, and the cutting of a byte
//! string into chunks of equal length.

use vstd::prelude::*;

verus! {

/// The two big-endian bytes of `value` modulo 2^16.
pub open spec fn be16(value: nat) -> Seq<u8> {
    seq![(value / 0x100 % 0x100) as u8, (value % 0x100) as u8]
}

/// The four big-endian bytes of `value` modulo 2^32.
pub open spec fn be32(value: nat) -> Seq<u8> {
    seq![
        (value / 0x100_0000 % 0x100) as u8,
        (value / 0x1_0000 % 0x100) as u8,
        (value / 0x100 % 0x100) as u8,
        (value % 0x100) as u8,
    ]
}

/// The eight big-endian bytes of a number of at most 64 bits.
pub open spec fn be64(value: nat) -> Seq<u8> {
    be32(value / 0x1_0000_0000) + be32(value % 0x1_0000_0000)
}

/// The big-endian number in two bytes from `offset` on.
pub open spec fn u16_at(source: Seq<u8>, offset: int) -> nat {
    (source[offset] * 0x100 + source[offset + 1]) as nat
}

/// The big-endian number in four bytes from `offset` on.
pub open spec fn u32_at(source: Seq<u8>, offset: int) -> nat {
    (source[offset] * 0x100_0000 + source[offset + 1] * 0x1_0000 + source[offset + 2] * 0x100
        + source[offset + 3]) as nat
}

/// The big-endian number in eight bytes from `offset` on.
pub open spec fn u64_at(source: Seq<u8>, offset: int) -> nat {
    u32_at(source, offset) * 0x1_0000_0000 + u32_at(source, offset + 4)
}

/// Two bytes written at `offset` are read back from there.
pub proof fn lemma_be16_read(source: Seq<u8>, offset: int, value: nat)
    requires
        0 <= offset,
        offset + 2 <= source.len(),
        source.subrange(offset, offset + 2) == be16(value),
        value < 0x1_0000,
    ensures
        u16_at(source, offset) == value,
{
    let part = source.subrange(offset, offset + 2);
    assert(part[0] == source[offset] && part[1] == source[offset + 1]);
}

/// Four bytes written at `offset` are read back from there.
pub proof fn lemma_be32_read(source: Seq<u8>, offset: int, value: nat)
    requires
        0 <= offset,
        offset + 4 <= source.len(),
        source.subrange(offset, offset + 4) == be32(value),
        value < 0x1_0000_0000,
    ensures
        u32_at(source, offset) == value,
{
    let part = source.subrange(offset, offset + 4);
    assert(part[0] == source[offset] && part[1] == source[offset + 1] && part[2] == source[offset
        + 2] && part[3] == source[offset + 3]);
}

/// Eight bytes written at `offset` are read back from there.
pub proof fn lemma_be64_read(source: Seq<u8>, offset: int, value: nat)
    requires
        0 <= offset,
        offset + 8 <= source.len(),
        source.subrange(offset, offset + 8) == be64(value),
        value < 0x1_0000_0000_0000_0000,
    ensures
        u64_at(source, offset) == value,
{
    let high = value / 0x1_0000_0000;
    let low = value % 0x1_0000_0000;
    let whole = source.subrange(offset, offset + 8);
    assert(source.subrange(offset, offset + 4) =~= be32(high)) by {
        assert(whole.subrange(0, 4) =~= be32(high));
        assert(whole.subrange(0, 4) =~= source.subrange(offset, offset + 4));
    }
    assert(source.subrange(offset + 4, offset + 8) =~= be32(low)) by {
        assert(whole.subrange(4, 8) =~= be32(low));
        assert(whole.subrange(4, 8) =~= source.subrange(offset + 4, offset + 8));
    }
    lemma_be32_read(source, offset, high);
    lemma_be32_read(source, offset + 4, low);
}

/// Appends two big-endian bytes; a value of more than 16 bits loses its upper
/// bits.
pub fn push_u16(target: &mut Vec<u8>, value: usize)
    ensures
        final(target)@ == old(target)@ + be16(value as nat),
{
    target.push((value / 0x100 % 0x100) as u8);
    target.push((value % 0x100) as u8);
    assert(target@ =~= old(target)@ + be16(value as nat));
}

/// Appends four big-endian bytes; a value of more than 32 bits loses its upper
/// bits.
pub fn push_u32(target: &mut Vec<u8>, value: usize)
    ensures
        final(target)@ == old(target)@ + be32(value as nat),
{
    target.push((value / 0x100_0000 % 0x100) as u8);
    target.push((value / 0x1_0000 % 0x100) as u8);
    target.push((value / 0x100 % 0x100) as u8);
    target.push((value % 0x100) as u8);
    assert(target@ =~= old(target)@ + be32(value as nat));
}

/// Appends eight big-endian bytes.
pub fn push_u64(target: &mut Vec<u8>, value: u64)
    ensures
        final(target)@ == old(target)@ + be64(value as nat),
{
    push_u32(target, (value / 0x1_0000_0000) as usize);
    push_u32(target, (value % 0x1_0000_0000) as usize);
    assert(target@ =~= old(target)@ + be64(value as nat));
}

/// The number in two bytes from `offset` on, if the source is long enough.
pub fn read_u16(source: &[u8], offset: usize) -> (value: Option<usize>)
    requires
        offset + 2 <= usize::MAX,
    ensures
        value is Some <==> offset + 2 <= source@.len(),
        value matches Some(v) ==> v == u16_at(source@, offset as int),
{
    if offset + 2 > source.len() {
        return None;
    }
    Some(source[offset] as usize * 0x100 + source[offset + 1] as usize)
}

/// The number in four bytes from `offset` on, if the source is long enough.
pub fn read_u32(source: &[u8], offset: usize) -> (value: Option<usize>)
    requires
        offset + 4 <= usize::MAX,
    ensures
        value is Some <==> offset + 4 <= source@.len(),
        value matches Some(v) ==> v == u32_at(source@, offset as int),
{
    if offset + 4 > source.len() {
        return None;
    }
    Some(
        source[offset] as usize * 0x100_0000 + source[offset + 1] as usize * 0x1_0000
            + source[offset + 2] as usize * 0x100 + source[offset + 3] as usize,
    )
}

/// The number in eight bytes from `offset` on, if the source is long enough.
pub fn read_u64(source: &[u8], offset: usize) -> (value: Option<u64>)
    requires
        offset + 8 <= usize::MAX,
    ensures
        value is Some <==> offset + 8 <= source@.len(),
        value matches Some(v) ==> v == u64_at(source@, offset as int),
{
    if offset + 8 > source.len() {
        return None;
    }
    match (read_u32(source, offset), read_u32(source, offset + 4)) {
        (Some(high), Some(low)) => Some(high as u64 * 0x1_0000_0000 + low as u64),
        _ => None,
    }
}

/// Whether two byte strings are equal.
pub fn bytes_equal(left: &[u8], right: &[u8]) -> (equal: bool)
    ensures
        equal == (left@ == right@),
{
    if left.len() != right.len() {
        return false;
    }
    let mut i: usize = 0;
    while i < left.len()
        invariant
            i <= left@.len() == right@.len(),
            forall|j: int| 0 <= j < i ==> left@[j] == right@[j],
        decreases left@.len() - i,
    {
        if left[i] != right[i] {
            return false;
        }
        i = i + 1;
    }
    assert(left@ =~= right@);
    true
}

/// A copy of the bytes from `start` up to `end`.
pub fn copy_range(source: &[u8], start: usize, end: usize) -> (copy: Vec<u8>)
    requires
        start <= end <= source@.len(),
    ensures
        copy@ == source@.subrange(start as int, end as int),
{
    vstd::slice::slice_to_vec(vstd::slice::slice_subrange(source, start, end))
}

/// `count` zero bytes.
pub open spec fn zeros(count: nat) -> Seq<u8> {
    Seq::new(count, |i: int| 0u8)
}

/// `bytes` followed by zeros, cut or filled to `length`.
pub open spec fn padded(bytes: Seq<u8>, length: nat) -> Seq<u8> {
    Seq::new(
        length,
        |i: int|
            if i < bytes.len() {
                bytes[i]
            } else {
                0u8
            },
    )
}

/// A copy of `bytes`, filled with zeros to `length`.
pub fn pad(bytes: &[u8], length: usize) -> (filled: Vec<u8>)
    requires
        bytes@.len() <= length,
    ensures
        filled@ == padded(bytes@, length as nat),
{
    let mut filled: Vec<u8> = vstd::slice::slice_to_vec(bytes);
    while filled.len() < length
        invariant
            bytes@.len() <= filled@.len() <= length,
            filled@ =~= padded(bytes@, filled@.len()),
        decreases length - filled@.len(),
    {
        filled.push(0);
    }
    filled
}

/// The byte-wise exclusive or of two byte strings, as long as the first;
/// where the second is shorter the first is kept.
pub open spec fn xor_bytes(left: Seq<u8>, right: Seq<u8>) -> Seq<u8> {
    Seq::new(
        left.len(),
        |i: int|
            if i < right.len() {
                left[i] ^ right[i]
            } else {
                left[i]
            },
    )
}

/// Mixes `source` into `target`.
pub fn xor_into(target: &mut Vec<u8>, source: &[u8])
    ensures
        final(target)@ == xor_bytes(old(target)@, source@),
{
    let mut i: usize = 0;
    while i < target.len() && i < source.len()
        invariant
            i <= source@.len(),
            i <= target@.len() == old(target)@.len(),
            forall|j: int|
                #![trigger target@[j]]
                0 <= j < target@.len() ==> target@[j] == (if j < i {
                    old(target)@[j] ^ source@[j]
                } else {
                    old(target)@[j]
                }),
        decreases target@.len() - i,
    {
        let mixed: u8 = target[i] ^ source[i];
        target.set(i, mixed);
        i = i + 1;
    }
    assert(target@ =~= xor_bytes(old(target)@, source@));
}

/// Mixing in the same bytes twice changes nothing.
pub proof fn lemma_xor_twice(a: Seq<u8>, b: Seq<u8>)
    ensures
        xor_bytes(xor_bytes(a, b), b) == a,
{
    assert forall|i: int| 0 <= i < a.len() implies xor_bytes(xor_bytes(a, b), b)[i] == a[i] by {
        if i < b.len() {
            let x = a[i];
            let y = b[i];
            assert((x ^ y) ^ y == x) by (bit_vector);
        }
    }
    assert(xor_bytes(xor_bytes(a, b), b) =~= a);
}

/// The order in which bytes are mixed in does not matter.
pub proof fn lemma_xor_swap(a: Seq<u8>, b: Seq<u8>, c: Seq<u8>)
    ensures
        xor_bytes(xor_bytes(a, b), c) == xor_bytes(xor_bytes(a, c), b),
{
    assert forall|i: int| 0 <= i < a.len() implies xor_bytes(xor_bytes(a, b), c)[i] == xor_bytes(
        xor_bytes(a, c),
        b,
    )[i] by {
        if i < b.len() && i < c.len() {
            let x = a[i];
            let y = b[i];
            let z = c[i];
            assert((x ^ y) ^ z == (x ^ z) ^ y) by (bit_vector);
        }
    }
    assert(xor_bytes(xor_bytes(a, b), c) =~= xor_bytes(xor_bytes(a, c), b));
}

/// Mixing is associative on byte strings of one length.
pub proof fn lemma_xor_assoc(a: Seq<u8>, b: Seq<u8>, c: Seq<u8>)
    requires
        a.len() == b.len() == c.len(),
    ensures
        xor_bytes(xor_bytes(a, b), c) == xor_bytes(a, xor_bytes(b, c)),
{
    assert forall|i: int| 0 <= i < a.len() implies xor_bytes(xor_bytes(a, b), c)[i] == xor_bytes(
        a,
        xor_bytes(b, c),
    )[i] by {
        let x = a[i];
        let y = b[i];
        let z = c[i];
        assert((x ^ y) ^ z == x ^ (y ^ z)) by (bit_vector);
    }
    assert(xor_bytes(xor_bytes(a, b), c) =~= xor_bytes(a, xor_bytes(b, c)));
}

/// Mixing is symmetric on byte strings of one length.
pub proof fn lemma_xor_comm(a: Seq<u8>, b: Seq<u8>)
    requires
        a.len() == b.len(),
    ensures
        xor_bytes(a, b) == xor_bytes(b, a),
{
    assert forall|i: int| 0 <= i < a.len() implies xor_bytes(a, b)[i] == xor_bytes(b, a)[i] by {
        let x = a[i];
        let y = b[i];
        assert(x ^ y == y ^ x) by (bit_vector);
    }
    assert(xor_bytes(a, b) =~= xor_bytes(b, a));
}

/// Zeros mix in without effect, on either side.
pub proof fn lemma_xor_zeros(a: Seq<u8>)
    ensures
        xor_bytes(a, zeros(a.len())) == a,
        xor_bytes(zeros(a.len()), a) == a,
{
    assert forall|i: int| 0 <= i < a.len() implies xor_bytes(a, zeros(a.len()))[i] == a[i]
        && xor_bytes(zeros(a.len()), a)[i] == a[i] by {
        let x = a[i];
        assert(x ^ 0u8 == x && 0u8 ^ x == x) by (bit_vector);
    }
    assert(xor_bytes(a, zeros(a.len())) =~= a);
    assert(xor_bytes(zeros(a.len()), a) =~= a);
}

} // verus!
