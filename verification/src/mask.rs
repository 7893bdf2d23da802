//! The pseudo-random masks that say which source chunks a repair symbol mixes.
//!
//! The generator is a 32-bit xorshift. A mask takes one low bit of the
//! generator for each source chunk of the window, and is drawn again as long
//! as no bit is set. That the drawing ends rests on a property of the generator
//! that is proved here: 32 consecutive low bits determine the state they come
//! from, so they cannot all be zero unless the state is.

use vstd::prelude::*;

verus! {

/// One step of the generator.
pub open spec fn xorshift(state: u32) -> u32 {
    let a = state ^ (state << 13);
    let b = a ^ (a >> 17);
    b ^ (b << 5)
}

/// The state after `n` steps.
pub open spec fn iterate(state: u32, n: nat) -> u32
    decreases n,
{
    if n == 0 {
        state
    } else {
        xorshift(iterate(state, (n - 1) as nat))
    }
}

/// The mask of one round of drawing: bit `b` is set exactly if step `b + 1`
/// leaves an odd state.
pub open spec fn round_mask(state: u32, width: nat) -> u32
    decreases width,
{
    if width == 0 {
        0
    } else {
        let bit = (width - 1) as nat;
        let rest = round_mask(state, bit);
        if iterate(state, width) & 1 == 1 {
            rest | (1u32 << (bit as u32))
        } else {
            rest
        }
    }
}

/// The mask of the first round, of `rounds` at most, that sets any bit.
pub open spec fn first_mask(state: u32, width: nat, rounds: nat) -> u32
    decreases rounds,
{
    if rounds == 0 {
        0
    } else if round_mask(state, width) != 0 {
        round_mask(state, width)
    } else {
        first_mask(iterate(state, width), width, (rounds - 1) as nat)
    }
}

/// The state from which the mask of a repair symbol is drawn.
pub open spec fn mask_state(seed: u32, repair_index: u32) -> u32 {
    let mixed = seed.wrapping_add(repair_index.wrapping_mul(0x9e37_79b9));
    if mixed == 0 {
        1
    } else {
        mixed
    }
}

/// The mask of repair symbol `repair_index` of a window of `width` chunks.
/// One of the first 32 rounds always sets a bit.
pub open spec fn repair_mask(seed: u32, width: nat, repair_index: u32) -> u32 {
    first_mask(mask_state(seed, repair_index), width, 32)
}

/// A mask that selects at least one of `width` chunks and nothing else.
pub open spec fn usable_mask(mask: u32, width: nat) -> bool {
    &&& mask != 0
    &&& width < 32 ==> mask >> (width as u32) == 0
}

/// `weight` where `state` is odd, and zero where it is even.
spec fn weigh(state: u32, weight: u32) -> u32 {
    if state & 1 == 1 {
        weight
    } else {
        0
    }
}

/// What the low bit after step `k` adds to the state that is rebuilt.
spec fn weight(k: nat) -> u32 {
    if k == 1 {
        0x2ffd289c
    } else if k == 2 {
        0x10008ba6
    } else if k == 3 {
        0x2f7877a0
    } else if k == 4 {
        0x520b939c
    } else if k == 5 {
        0xc869ea80
    } else if k == 6 {
        0x9715455f
    } else if k == 7 {
        0x7ec2eed8
    } else if k == 8 {
        0x750f963c
    } else if k == 9 {
        0x49eb9c81
    } else if k == 10 {
        0x19b86f60
    } else if k == 11 {
        0x323fe43c
    } else if k == 12 {
        0x1dc2f27a
    } else if k == 13 {
        0xfe23d75e
    } else if k == 14 {
        0x92ac2f3b
    } else if k == 15 {
        0x00957e1b
    } else if k == 16 {
        0x345a8e58
    } else if k == 17 {
        0x534ca697
    } else if k == 18 {
        0xe74d8ed7
    } else if k == 19 {
        0xa1eabec5
    } else if k == 20 {
        0x86321d43
    } else if k == 21 {
        0x39053bf5
    } else if k == 22 {
        0xd86ebb3a
    } else if k == 23 {
        0x4cb1cece
    } else if k == 24 {
        0xdf76aa14
    } else if k == 25 {
        0xd3272334
    } else if k == 26 {
        0xa53a257e
    } else if k == 27 {
        0xc0d89b64
    } else if k == 28 {
        0x360de2ce
    } else if k == 29 {
        0xf1c783d0
    } else if k == 30 {
        0x7457fc38
    } else if k == 31 {
        0x196fad5a
    } else if k == 32 {
        0xd733508b
    } else {
        0
    }
}

/// The sum of the weights of the odd states among the first `n` steps.
spec fn gathered(x: u32, n: nat) -> u32
    decreases n,
{
    if n == 0 {
        0
    } else {
        gathered(x, (n - 1) as nat) ^ weigh(iterate(x, n), weight(n))
    }
}

/// `gathered(x0, 32)`, written out.
spec fn rebuilt(x0: u32) -> u32 {
    let x1 = xorshift(x0);
    let x2 = xorshift(x1);
    let x3 = xorshift(x2);
    let x4 = xorshift(x3);
    let x5 = xorshift(x4);
    let x6 = xorshift(x5);
    let x7 = xorshift(x6);
    let x8 = xorshift(x7);
    let x9 = xorshift(x8);
    let x10 = xorshift(x9);
    let x11 = xorshift(x10);
    let x12 = xorshift(x11);
    let x13 = xorshift(x12);
    let x14 = xorshift(x13);
    let x15 = xorshift(x14);
    let x16 = xorshift(x15);
    let x17 = xorshift(x16);
    let x18 = xorshift(x17);
    let x19 = xorshift(x18);
    let x20 = xorshift(x19);
    let x21 = xorshift(x20);
    let x22 = xorshift(x21);
    let x23 = xorshift(x22);
    let x24 = xorshift(x23);
    let x25 = xorshift(x24);
    let x26 = xorshift(x25);
    let x27 = xorshift(x26);
    let x28 = xorshift(x27);
    let x29 = xorshift(x28);
    let x30 = xorshift(x29);
    let x31 = xorshift(x30);
    let x32 = xorshift(x31);
    0
        ^ weigh(x1, 0x2ffd289c)
        ^ weigh(x2, 0x10008ba6)
        ^ weigh(x3, 0x2f7877a0)
        ^ weigh(x4, 0x520b939c)
        ^ weigh(x5, 0xc869ea80)
        ^ weigh(x6, 0x9715455f)
        ^ weigh(x7, 0x7ec2eed8)
        ^ weigh(x8, 0x750f963c)
        ^ weigh(x9, 0x49eb9c81)
        ^ weigh(x10, 0x19b86f60)
        ^ weigh(x11, 0x323fe43c)
        ^ weigh(x12, 0x1dc2f27a)
        ^ weigh(x13, 0xfe23d75e)
        ^ weigh(x14, 0x92ac2f3b)
        ^ weigh(x15, 0x00957e1b)
        ^ weigh(x16, 0x345a8e58)
        ^ weigh(x17, 0x534ca697)
        ^ weigh(x18, 0xe74d8ed7)
        ^ weigh(x19, 0xa1eabec5)
        ^ weigh(x20, 0x86321d43)
        ^ weigh(x21, 0x39053bf5)
        ^ weigh(x22, 0xd86ebb3a)
        ^ weigh(x23, 0x4cb1cece)
        ^ weigh(x24, 0xdf76aa14)
        ^ weigh(x25, 0xd3272334)
        ^ weigh(x26, 0xa53a257e)
        ^ weigh(x27, 0xc0d89b64)
        ^ weigh(x28, 0x360de2ce)
        ^ weigh(x29, 0xf1c783d0)
        ^ weigh(x30, 0x7457fc38)
        ^ weigh(x31, 0x196fad5a)
        ^ weigh(x32, 0xd733508b)
}

proof fn lemma_rebuilt_is_gathered(x: u32)
    ensures
        rebuilt(x) == gathered(x, 32),
{
    reveal_with_fuel(gathered, 33);
    reveal_with_fuel(iterate, 33);
}

/// Each single bit is rebuilt from the low bits that follow it.
proof fn lemma_rebuilt_units()
    ensures
        rebuilt(0x00000001u32) == 0x00000001u32,
        rebuilt(0x00000002u32) == 0x00000002u32,
        rebuilt(0x00000004u32) == 0x00000004u32,
        rebuilt(0x00000008u32) == 0x00000008u32,
        rebuilt(0x00000010u32) == 0x00000010u32,
        rebuilt(0x00000020u32) == 0x00000020u32,
        rebuilt(0x00000040u32) == 0x00000040u32,
        rebuilt(0x00000080u32) == 0x00000080u32,
        rebuilt(0x00000100u32) == 0x00000100u32,
        rebuilt(0x00000200u32) == 0x00000200u32,
        rebuilt(0x00000400u32) == 0x00000400u32,
        rebuilt(0x00000800u32) == 0x00000800u32,
        rebuilt(0x00001000u32) == 0x00001000u32,
        rebuilt(0x00002000u32) == 0x00002000u32,
        rebuilt(0x00004000u32) == 0x00004000u32,
        rebuilt(0x00008000u32) == 0x00008000u32,
        rebuilt(0x00010000u32) == 0x00010000u32,
        rebuilt(0x00020000u32) == 0x00020000u32,
        rebuilt(0x00040000u32) == 0x00040000u32,
        rebuilt(0x00080000u32) == 0x00080000u32,
        rebuilt(0x00100000u32) == 0x00100000u32,
        rebuilt(0x00200000u32) == 0x00200000u32,
        rebuilt(0x00400000u32) == 0x00400000u32,
        rebuilt(0x00800000u32) == 0x00800000u32,
        rebuilt(0x01000000u32) == 0x01000000u32,
        rebuilt(0x02000000u32) == 0x02000000u32,
        rebuilt(0x04000000u32) == 0x04000000u32,
        rebuilt(0x08000000u32) == 0x08000000u32,
        rebuilt(0x10000000u32) == 0x10000000u32,
        rebuilt(0x20000000u32) == 0x20000000u32,
        rebuilt(0x40000000u32) == 0x40000000u32,
        rebuilt(0x80000000u32) == 0x80000000u32,
{
    assert(rebuilt(0x00000001u32) == 0x00000001u32
        && rebuilt(0x00000002u32) == 0x00000002u32
        && rebuilt(0x00000004u32) == 0x00000004u32
        && rebuilt(0x00000008u32) == 0x00000008u32
        && rebuilt(0x00000010u32) == 0x00000010u32
        && rebuilt(0x00000020u32) == 0x00000020u32
        && rebuilt(0x00000040u32) == 0x00000040u32
        && rebuilt(0x00000080u32) == 0x00000080u32
        && rebuilt(0x00000100u32) == 0x00000100u32
        && rebuilt(0x00000200u32) == 0x00000200u32
        && rebuilt(0x00000400u32) == 0x00000400u32
        && rebuilt(0x00000800u32) == 0x00000800u32
        && rebuilt(0x00001000u32) == 0x00001000u32
        && rebuilt(0x00002000u32) == 0x00002000u32
        && rebuilt(0x00004000u32) == 0x00004000u32
        && rebuilt(0x00008000u32) == 0x00008000u32
        && rebuilt(0x00010000u32) == 0x00010000u32
        && rebuilt(0x00020000u32) == 0x00020000u32
        && rebuilt(0x00040000u32) == 0x00040000u32
        && rebuilt(0x00080000u32) == 0x00080000u32
        && rebuilt(0x00100000u32) == 0x00100000u32
        && rebuilt(0x00200000u32) == 0x00200000u32
        && rebuilt(0x00400000u32) == 0x00400000u32
        && rebuilt(0x00800000u32) == 0x00800000u32
        && rebuilt(0x01000000u32) == 0x01000000u32
        && rebuilt(0x02000000u32) == 0x02000000u32
        && rebuilt(0x04000000u32) == 0x04000000u32
        && rebuilt(0x08000000u32) == 0x08000000u32
        && rebuilt(0x10000000u32) == 0x10000000u32
        && rebuilt(0x20000000u32) == 0x20000000u32
        && rebuilt(0x40000000u32) == 0x40000000u32
        && rebuilt(0x80000000u32) == 0x80000000u32) by (bit_vector);
}

proof fn lemma_iterate_linear(a: u32, b: u32, n: nat)
    ensures
        iterate(a ^ b, n) == iterate(a, n) ^ iterate(b, n),
    decreases n,
{
    if n > 0 {
        lemma_iterate_linear(a, b, (n - 1) as nat);
        let p = iterate(a, (n - 1) as nat);
        let q = iterate(b, (n - 1) as nat);
        assert(xorshift(p ^ q) == xorshift(p) ^ xorshift(q)) by (bit_vector);
    }
}

proof fn lemma_gathered_linear(a: u32, b: u32, n: nat)
    ensures
        gathered(a ^ b, n) == gathered(a, n) ^ gathered(b, n),
    decreases n,
{
    if n == 0 {
        assert(0u32 ^ 0u32 == 0u32) by (bit_vector);
    } else {
        lemma_gathered_linear(a, b, (n - 1) as nat);
        lemma_iterate_linear(a, b, n);
        let p = gathered(a, (n - 1) as nat);
        let q = gathered(b, (n - 1) as nat);
        let s = iterate(a, n);
        let t = iterate(b, n);
        let w = weight(n);
        assert((p ^ q) ^ weigh(s ^ t, w) == (p ^ weigh(s, w)) ^ (q ^ weigh(t, w))) by (bit_vector);
    }
}

/// A state whose bits from `n` on are clear is rebuilt from its low bits.
proof fn lemma_gathered_restores(x: u32, n: u32)
    requires
        n <= 32,
        n < 32 ==> x >> n == 0,
    ensures
        gathered(x, 32) == x,
    decreases n,
{
    if n == 0 {
        assert(x >> 0u32 == x) by (bit_vector);
        lemma_rebuilt_is_gathered(0);
        lemma_gathered_linear(0, 0, 32);
        assert(0u32 ^ 0u32 == 0u32) by (bit_vector);
        let g = gathered(0, 32);
        assert(g == g ^ g ==> g == 0) by (bit_vector);
    } else {
        let bit = (n - 1) as u32;
        if x >> bit == 0 {
            lemma_gathered_restores(x, bit);
        } else {
            let unit = 1u32 << bit;
            let rest = x ^ unit;
            assert(n <= 32 && n > 0 && bit == n - 1 && (n < 32 ==> x >> n == 0) && x >> bit != 0
                && unit == 1u32 << bit && rest == x ^ unit ==> rest >> bit == 0 && x == rest
                ^ unit) by (bit_vector);
            lemma_gathered_restores(rest, bit);
            lemma_rebuilt_units();
            lemma_rebuilt_is_gathered(unit);
            assert(bit < 32 && unit == 1u32 << bit ==> (unit == 0x00000001
                || unit == 0x00000002 || unit == 0x00000004 || unit == 0x00000008
                || unit == 0x00000010 || unit == 0x00000020 || unit == 0x00000040
                || unit == 0x00000080 || unit == 0x00000100 || unit == 0x00000200
                || unit == 0x00000400 || unit == 0x00000800 || unit == 0x00001000
                || unit == 0x00002000 || unit == 0x00004000 || unit == 0x00008000
                || unit == 0x00010000 || unit == 0x00020000 || unit == 0x00040000
                || unit == 0x00080000 || unit == 0x00100000 || unit == 0x00200000
                || unit == 0x00400000 || unit == 0x00800000 || unit == 0x01000000
                || unit == 0x02000000 || unit == 0x04000000 || unit == 0x08000000
                || unit == 0x10000000 || unit == 0x20000000 || unit == 0x40000000
                || unit == 0x80000000)) by (bit_vector);
            lemma_gathered_linear(rest, unit, 32);
        }
    }
}

/// Of the 32 states that follow a state other than zero, one at least is odd.
pub proof fn lemma_odd_within_32(x: u32)
    requires
        x != 0,
    ensures
        exists|k: nat| 1 <= k <= 32 && #[trigger] iterate(x, k) & 1 == 1,
{
    if forall|k: nat| 1 <= k <= 32 ==> #[trigger] iterate(x, k) & 1 != 1 {
        lemma_nothing_gathered(x, 32);
        lemma_gathered_restores(x, 32);
    }
}

proof fn lemma_nothing_gathered(x: u32, n: nat)
    requires
        n <= 32,
        forall|k: nat| 1 <= k <= 32 ==> #[trigger] iterate(x, k) & 1 != 1,
    ensures
        gathered(x, n) == 0,
    decreases n,
{
    if n > 0 {
        lemma_nothing_gathered(x, (n - 1) as nat);
        assert(0u32 ^ 0u32 == 0u32) by (bit_vector);
    }
}

pub proof fn lemma_iterate_sum(x: u32, m: nat, n: nat)
    ensures
        iterate(iterate(x, m), n) == iterate(x, m + n),
    decreases n,
{
    if n > 0 {
        lemma_iterate_sum(x, m, (n - 1) as nat);
    }
}

/// One step of the generator: the new state is stored and returned.
pub fn next_fountain_random(seed: &mut u32) -> (value: u32)
    ensures
        *final(seed) == xorshift(*old(seed)),
        value == *final(seed),
{
    let a: u32 = *seed ^ (*seed << 13);
    let b: u32 = a ^ (a >> 17);
    *seed = b ^ (b << 5);
    *seed
}

/// A round sets no bit beyond the width, and no bit at all exactly if every step
/// leaves an even state.
proof fn lemma_round_mask(state: u32, width: nat)
    requires
        width <= 32,
    ensures
        width < 32 ==> round_mask(state, width) >> (width as u32) == 0,
        round_mask(state, width) == 0 <==> forall|k: nat|
            1 <= k <= width ==> #[trigger] iterate(state, k) & 1 != 1,
    decreases width,
{
    if width == 0 {
        assert(0u32 >> 0u32 == 0u32) by (bit_vector);
    } else {
        let before = round_mask(state, (width - 1) as nat);
        let b = (width - 1) as u32;
        lemma_round_mask(state, (width - 1) as nat);
        assert(b < 32 && before >> b == 0 ==> (before | (1u32 << b)) != 0 && (b < 31 ==> (before | (
        1u32 << b)) >> ((b + 1) as u32) == 0)) by (bit_vector);
        assert(b < 31 && before >> b == 0 ==> before >> ((b + 1) as u32) == 0) by (bit_vector);
        assert(iterate(state, width) & 1 == 1 ==> round_mask(state, width) != 0);
    }
}

/// After `drawn` steps that all left an even state, a round that sets a bit comes
/// before step 32 is past.
proof fn lemma_first_mask(start: u32, drawn: nat, width: nat, rounds: nat)
    requires
        start != 0,
        1 <= width <= 32,
        drawn + rounds >= 32,
        forall|k: nat| 1 <= k <= drawn ==> #[trigger] iterate(start, k) & 1 != 1,
    ensures
        usable_mask(first_mask(iterate(start, drawn), width, rounds), width),
    decreases rounds,
{
    lemma_odd_within_32(start);
    if rounds > 0 {
        let state = iterate(start, drawn);
        lemma_round_mask(state, width);
        if round_mask(state, width) == 0 {
            lemma_iterate_sum(start, drawn, width);
            assert forall|k: nat| 1 <= k <= drawn + width implies #[trigger] iterate(start, k) & 1
                != 1 by {
                if k > drawn {
                    lemma_iterate_sum(start, drawn, (k - drawn) as nat);
                    assert(iterate(state, (k - drawn) as nat) & 1 != 1);
                }
            }
            lemma_first_mask(start, drawn + width, width, (rounds - 1) as nat);
        }
    }
}

/// Every repair symbol mixes at least one chunk of its window, and nothing else.
pub proof fn law_repair_masks_are_usable(seed: u32, width: nat, repair_index: u32)
    requires
        1 <= width <= 32,
    ensures
        usable_mask(repair_mask(seed, width, repair_index), width),
{
    lemma_first_mask(mask_state(seed, repair_index), 0, width, 32);
}

/// The generator is the 32-bit xorshift by 13, 17 and 5, applied again and again.
pub proof fn law_generator_steps(state: u32, n: nat)
    ensures
        iterate(state, 0) == state,
        iterate(state, n + 1) == ({
            let x = iterate(state, n);
            let y = x ^ (x << 13);
            let z = y ^ (y >> 17);
            z ^ (z << 5)
        }),
{
}

/// The generator starts from the seed, moved on by 0x9e3779b9 for each repair symbol,
/// modulo 2^32, and from one in place of zero.
pub proof fn law_generator_starts(seed: u32, repair_index: u32)
    ensures
        ({
            let moved = (seed + repair_index * 0x9e37_79b9) % 0x1_0000_0000;
            mask_state(seed, repair_index) == (if moved == 0 {
                1
            } else {
                moved
            })
        }),
{
    let step = (repair_index * 0x9e37_79b9) % 0x1_0000_0000;
    assert((seed + step) % 0x1_0000_0000 == (seed + repair_index * 0x9e37_79b9)
        % 0x1_0000_0000) by {
        vstd::arithmetic::div_mod::lemma_add_mod_noop_right(
            seed as int,
            repair_index * 0x9e37_79b9,
            0x1_0000_0000,
        );
    }
}

/// A mask takes the low bits of consecutive states, the first for the first chunk. A
/// round in which all are zero is passed over, and the next begins where it ended.
pub proof fn law_masks_are_drawn_in_rounds(seed: u32, width: nat, repair_index: u32)
    requires
        1 <= width <= 32,
    ensures
        exists|skipped: nat| #[trigger]
            drawn_after(
                mask_state(seed, repair_index),
                repair_mask(seed, width, repair_index),
                width,
                skipped,
            ),
{
    law_repair_masks_are_usable(seed, width, repair_index);
    lemma_drawn(mask_state(seed, repair_index), width, 0, 32);
}

/// Whether a mask is the first that is not zero, after `skipped` rounds of zeros.
pub open spec fn drawn_after(start: u32, mask: u32, width: nat, skipped: nat) -> bool {
    &&& forall|k: nat| 1 <= k <= skipped * width ==> #[trigger] iterate(start, k) & 1 == 0
    &&& forall|b: nat|
        #![trigger iterate(start, skipped * width + b + 1)]
        b < width ==> ((mask >> (b as u32)) & 1 == iterate(start, skipped * width + b + 1) & 1)
    &&& width < 32 ==> mask >> (width as u32) == 0
    &&& mask != 0
}

proof fn lemma_drawn(start: u32, width: nat, skipped: nat, rounds: nat)
    requires
        1 <= width <= 32,
        forall|k: nat| 1 <= k <= skipped * width ==> #[trigger] iterate(start, k) & 1 == 0,
        usable_mask(first_mask(iterate(start, skipped * width), width, rounds), width),
    ensures
        exists|s: nat| #[trigger]
            drawn_after(
                start,
                first_mask(iterate(start, skipped * width), width, rounds),
                width,
                s,
            ),
    decreases rounds,
{
    let done = skipped * width;
    let state = iterate(start, done);
    let mask = first_mask(state, width, rounds);
    lemma_round_mask(state, width);
    if rounds > 0 {
        if round_mask(state, width) != 0 {
            assert forall|b: nat| #![trigger iterate(start, done + b + 1)] b < width implies (mask
                >> (b as u32)) & 1 == iterate(start, done + b + 1) & 1 by {
                lemma_round_bits(state, width, b);
                lemma_iterate_sum(start, done, b + 1);
            }
            assert(drawn_after(start, mask, width, skipped));
        } else {
            lemma_iterate_sum(start, done, width);
            assert((skipped + 1) * width == done + width) by (nonlinear_arith)
                requires
                    done == skipped * width,
            ;
            assert forall|k: nat| 1 <= k <= done + width implies #[trigger] iterate(start, k) & 1
                == 0 by {
                if k > done {
                    lemma_iterate_sum(start, done, (k - done) as nat);
                    let x = iterate(state, (k - done) as nat);
                    assert(x & 1 != 1);
                    assert(x & 1 == 0 || x & 1 == 1) by (bit_vector);
                }
            }
            lemma_drawn(start, width, skipped + 1, (rounds - 1) as nat);
        }
    }
}

/// The bits of a round are the low bits of its states.
proof fn lemma_round_bits(state: u32, width: nat, b: nat)
    requires
        b < width <= 32,
    ensures
        (round_mask(state, width) >> (b as u32)) & 1 == iterate(state, b + 1) & 1,
    decreases width,
{
    let last = (width - 1) as nat;
    let rest = round_mask(state, last);
    let x = iterate(state, width);
    let (k, l) = (b as u32, last as u32);
    lemma_round_mask(state, last);
    assert(l < 32 && rest >> l == 0 ==> (rest >> l) & 1 == 0 && ((rest | (1u32 << l)) >> l) & 1
        == 1 && (x & 1 == 0 || x & 1 == 1)) by (bit_vector);
    assert(k < l && l < 32 ==> ((rest | (1u32 << l)) >> k) & 1 == (rest >> k) & 1) by (bit_vector);
    if b < last {
        lemma_round_bits(state, last, b);
    }
}

/// The mask of a repair symbol. Equations are dense on purpose: a window has
/// at most 32 chunks, so a few of them recover several losses.
pub fn fountain_mask(seed: u32, width: usize, repair_index: usize) -> (mask: u32)
    requires
        1 <= width <= 32,
    ensures
        mask == repair_mask(seed, width as nat, repair_index as u32),
        usable_mask(mask, width as nat),
{
    let mixed: u32 = seed.wrapping_add((repair_index as u32).wrapping_mul(0x9e37_79b9));
    let start: u32 = if mixed == 0 {
        1
    } else {
        mixed
    };
    let mut state: u32 = start;
    let mut mask: u32 = 0;
    let ghost mut drawn: nat = 0;
    let ghost mut rounds: nat = 32;
    while mask == 0
        invariant
            1 <= width <= 32,
            start != 0,
            mask == 0 ==> state == iterate(start, drawn),
            mask == 0 ==> forall|k: nat| 1 <= k <= drawn ==> #[trigger] iterate(start, k) & 1 != 1,
            mask == 0 ==> drawn + rounds >= 32,
            mask == 0 ==> first_mask(start, width as nat, 32) == first_mask(
                state,
                width as nat,
                rounds,
            ),
            mask != 0 ==> mask == first_mask(start, width as nat, 32),
            mask != 0 ==> usable_mask(mask, width as nat),
        decreases (if mask == 0 { 33 - drawn } else { 0 }),
    {
        proof {
            lemma_odd_within_32(start);
        }
        let ghost from: u32 = state;
        let mut bit: usize = 0;
        while bit < width
            invariant
                bit <= width <= 32,
                state == iterate(from, bit as nat),
                mask == round_mask(from, bit as nat),
            decreases width - bit,
        {
            if next_fountain_random(&mut state) & 1 == 1 {
                mask = mask | (1u32 << (bit as u32));
            }
            bit = bit + 1;
        }
        proof {
            lemma_round_mask(from, width as nat);
            if mask == 0 {
                lemma_iterate_sum(start, drawn, width as nat);
                assert forall|k: nat| 1 <= k <= drawn + width implies #[trigger] iterate(start, k)
                    & 1 != 1 by {
                    if k > drawn {
                        lemma_iterate_sum(start, drawn, (k - drawn) as nat);
                        assert(iterate(from, (k - drawn) as nat) & 1 != 1);
                    }
                }
                drawn = drawn + width as nat;
                rounds = (rounds - 1) as nat;
            }
        }
    }
    mask
}

} // verus!
