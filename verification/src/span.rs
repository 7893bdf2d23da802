//! What a window of the fountain transport can say: the sums of the equations
//! that it keeps, and what one more equation adds to them.

use crate::bytes::{
    lemma_xor_assoc, lemma_xor_comm, lemma_xor_swap, lemma_xor_twice, lemma_xor_zeros, zeros,
};
use crate::solving::{lemma_settled_form, sized};
use crate::window::{
    combined, echelon, has_bit, lemma_bit_of_sum, settled, EquationView, WindowView,
};
use vstd::prelude::*;

verus! {

/// The equation that says nothing.
pub open spec fn nothing(length: nat) -> EquationView {
    EquationView { mask: 0, payload: zeros(length) }
}

/// Whether an equation is kept at a pivot and picked.
pub open spec fn taken(basis: Seq<Option<EquationView>>, pick: Seq<bool>, pivot: int) -> bool {
    pick[pivot] && basis[pivot] is Some
}

/// The sum of the equations picked among those kept at the first `count` pivots.
pub open spec fn picked(
    basis: Seq<Option<EquationView>>,
    pick: Seq<bool>,
    count: nat,
    length: nat,
) -> EquationView
    decreases count,
{
    if count == 0 {
        nothing(length)
    } else {
        let before = picked(basis, pick, (count - 1) as nat, length);
        if taken(basis, pick, count - 1) {
            combined(before, basis[count - 1]->0)
        } else {
            before
        }
    }
}

/// Whether an equation is a sum of kept equations.
pub open spec fn spanned(
    basis: Seq<Option<EquationView>>,
    equation: EquationView,
    length: nat,
) -> bool {
    exists|pick: Seq<bool>|
        pick.len() == basis.len() && #[trigger] picked(basis, pick, basis.len(), length) == equation
}

/// Whether a mask is a sum of masks of kept equations.
pub open spec fn mask_spanned(basis: Seq<Option<EquationView>>, mask: u32, length: nat) -> bool {
    exists|sum: EquationView| #[trigger] spanned(basis, sum, length) && sum.mask == mask
}

/// Whether a mask selects none but the first `width` chunks.
pub open spec fn within(mask: u32, width: nat) -> bool {
    forall|bit: nat| width <= bit < 32 ==> !#[trigger] has_bit(mask, bit)
}

/// Whether the equations that a window keeps speak of its own chunks only.
pub open spec fn contained(basis: Seq<Option<EquationView>>) -> bool {
    forall|p: int|
        0 <= p < basis.len() && (#[trigger] basis[p]) is Some ==> within(
            basis[p]->0.mask,
            basis.len(),
        )
}

/// Whether the payloads of the kept equations have one length.
spec fn even(basis: Seq<Option<EquationView>>, length: nat) -> bool {
    forall|p: int|
        0 <= p < basis.len() && (#[trigger] basis[p]) is Some ==> basis[p]->0.payload.len()
            == length
}

// ---------------------------------------------------------------------------
// Sums of equations

proof fn lemma_sum_assoc(a: EquationView, b: EquationView, c: EquationView)
    requires
        a.payload.len() == b.payload.len() == c.payload.len(),
    ensures
        combined(combined(a, b), c) == combined(a, combined(b, c)),
{
    lemma_xor_assoc(a.payload, b.payload, c.payload);
    let (x, y, z) = (a.mask, b.mask, c.mask);
    assert((x ^ y) ^ z == x ^ (y ^ z)) by (bit_vector);
}

proof fn lemma_sum_comm(a: EquationView, b: EquationView)
    requires
        a.payload.len() == b.payload.len(),
    ensures
        combined(a, b) == combined(b, a),
{
    lemma_xor_comm(a.payload, b.payload);
    let (x, y) = (a.mask, b.mask);
    assert(x ^ y == y ^ x) by (bit_vector);
}

proof fn lemma_sum_swap(a: EquationView, b: EquationView, c: EquationView)
    ensures
        combined(combined(a, b), c) == combined(combined(a, c), b),
{
    lemma_xor_swap(a.payload, b.payload, c.payload);
    let (x, y, z) = (a.mask, b.mask, c.mask);
    assert((x ^ y) ^ z == (x ^ z) ^ y) by (bit_vector);
}

proof fn lemma_sum_twice(a: EquationView, b: EquationView)
    ensures
        combined(combined(a, b), b) == a,
{
    lemma_xor_twice(a.payload, b.payload);
    let (x, y) = (a.mask, b.mask);
    assert((x ^ y) ^ y == x) by (bit_vector);
}

proof fn lemma_sum_nothing(a: EquationView)
    ensures
        combined(a, nothing(a.payload.len())) == a,
        combined(nothing(a.payload.len()), a) == a,
{
    lemma_xor_zeros(a.payload);
    let x = a.mask;
    assert(x ^ 0u32 == x && 0u32 ^ x == x) by (bit_vector);
}

proof fn lemma_picked_length(
    basis: Seq<Option<EquationView>>,
    pick: Seq<bool>,
    count: nat,
    length: nat,
)
    ensures
        picked(basis, pick, count, length).payload.len() == length,
    decreases count,
{
    if count > 0 {
        lemma_picked_length(basis, pick, (count - 1) as nat, length);
    }
}

proof fn lemma_spanned_length(
    basis: Seq<Option<EquationView>>,
    equation: EquationView,
    length: nat,
)
    requires
        spanned(basis, equation, length),
    ensures
        equation.payload.len() == length,
{
    let pick = choose|pick: Seq<bool>|
        pick.len() == basis.len() && #[trigger] picked(basis, pick, basis.len(), length)
            == equation;
    lemma_picked_length(basis, pick, basis.len(), length);
}

/// Two picks that differ only where nothing is kept give the same sum.
proof fn lemma_picked_same(
    basis: Seq<Option<EquationView>>,
    pick: Seq<bool>,
    other: Seq<bool>,
    count: nat,
    length: nat,
)
    requires
        forall|p: int| 0 <= p < count ==> #[trigger] taken(basis, pick, p) == taken(basis, other, p),
    ensures
        picked(basis, pick, count, length) == picked(basis, other, count, length),
    decreases count,
{
    if count > 0 {
        lemma_picked_same(basis, pick, other, (count - 1) as nat, length);
        assert(taken(basis, pick, count - 1) == taken(basis, other, count - 1));
    }
}

/// The sum of two picks picks what one of them picks and the other does not.
proof fn lemma_picked_sum(
    basis: Seq<Option<EquationView>>,
    a: Seq<bool>,
    b: Seq<bool>,
    count: nat,
    length: nat,
)
    requires
        count <= basis.len() == a.len() == b.len(),
        even(basis, length),
    ensures
        picked(basis, Seq::new(basis.len(), |i: int| a[i] != b[i]), count, length) == combined(
            picked(basis, a, count, length),
            picked(basis, b, count, length),
        ),
    decreases count,
{
    let both = Seq::new(basis.len(), |i: int| a[i] != b[i]);
    if count == 0 {
        lemma_sum_nothing(nothing(length));
    } else {
        let at = (count - 1) as nat;
        lemma_picked_sum(basis, a, b, at, length);
        lemma_picked_length(basis, a, at, length);
        lemma_picked_length(basis, b, at, length);
        let x = picked(basis, a, at, length);
        let y = picked(basis, b, at, length);
        assert(both[at as int] == (a[at as int] != b[at as int]));
        if let Some(kept) = basis[at as int] {
            assert(basis[at as int] is Some);
            if a[at as int] && b[at as int] {
                lemma_sum_comm(y, kept);
                lemma_sum_assoc(combined(x, kept), kept, y);
                lemma_sum_twice(x, kept);
            } else if a[at as int] {
                lemma_sum_swap(x, kept, y);
            } else if b[at as int] {
                lemma_sum_assoc(x, y, kept);
            }
        }
    }
}

/// Sums of sums of kept equations are sums of kept equations.
proof fn lemma_spanned_sum(
    basis: Seq<Option<EquationView>>,
    a: EquationView,
    b: EquationView,
    length: nat,
)
    requires
        even(basis, length),
        spanned(basis, a, length),
        spanned(basis, b, length),
    ensures
        spanned(basis, combined(a, b), length),
{
    let n = basis.len();
    let s = choose|pick: Seq<bool>|
        pick.len() == n && #[trigger] picked(basis, pick, n, length) == a;
    let t = choose|pick: Seq<bool>|
        pick.len() == n && #[trigger] picked(basis, pick, n, length) == b;
    lemma_picked_sum(basis, s, t, n, length);
}

proof fn lemma_picked_single(
    basis: Seq<Option<EquationView>>,
    at: nat,
    count: nat,
    length: nat,
)
    requires
        count <= basis.len(),
        at < basis.len(),
        basis[at as int] is Some,
        basis[at as int]->0.payload.len() == length,
    ensures
        picked(basis, Seq::new(basis.len(), |i: int| i == at), count, length) == (if at < count {
            basis[at as int]->0
        } else {
            nothing(length)
        }),
    decreases count,
{
    if count > 0 {
        lemma_picked_single(basis, at, (count - 1) as nat, length);
        lemma_sum_nothing(basis[at as int]->0);
    }
}

/// A kept equation is a sum of kept equations, and so is the sum of none.
proof fn lemma_spanned_basic(basis: Seq<Option<EquationView>>, length: nat)
    requires
        even(basis, length),
    ensures
        spanned(basis, nothing(length), length),
        forall|p: int|
            0 <= p < basis.len() && (#[trigger] basis[p]) is Some ==> spanned(
                basis,
                basis[p]->0,
                length,
            ),
{
    let none = Seq::new(basis.len(), |i: int| false);
    lemma_picked_none(basis, none, basis.len(), length);
    assert forall|p: int| 0 <= p < basis.len() && (#[trigger] basis[p]) is Some implies spanned(
        basis,
        basis[p]->0,
        length,
    ) by {
        lemma_picked_single(basis, p as nat, basis.len(), length);
    }
}

proof fn lemma_picked_none(
    basis: Seq<Option<EquationView>>,
    pick: Seq<bool>,
    count: nat,
    length: nat,
)
    requires
        forall|p: int| 0 <= p < count ==> !#[trigger] taken(basis, pick, p),
    ensures
        picked(basis, pick, count, length) == nothing(length),
    decreases count,
{
    if count > 0 {
        lemma_picked_none(basis, pick, (count - 1) as nat, length);
        assert(!taken(basis, pick, count - 1));
    }
}

// ---------------------------------------------------------------------------
// Settling

/// An equation settles as its sum with kept equations; where it does not settle,
/// its sum with kept equations selects no chunk of the window.
proof fn lemma_settled_sum(
    basis: Seq<Option<EquationView>>,
    equation: EquationView,
    pivot: nat,
    length: nat,
) -> (sum: EquationView)
    requires
        echelon(basis),
        even(basis, length),
        equation.payload.len() == length,
        pivot <= basis.len(),
        forall|q: nat| q < pivot ==> !#[trigger] has_bit(equation.mask, q),
    ensures
        spanned(basis, sum, length),
        settled(basis, equation, pivot) matches Some((at, form)) ==> form == combined(
            equation,
            sum,
        ),
        settled(basis, equation, pivot) is None ==> forall|q: nat|
            q < basis.len() ==> !#[trigger] has_bit(combined(equation, sum).mask, q),
    decreases basis.len() - pivot,
{
    lemma_spanned_basic(basis, length);
    lemma_sum_nothing(equation);
    if pivot >= basis.len() {
        nothing(length)
    } else if !has_bit(equation.mask, pivot) {
        lemma_settled_sum(basis, equation, pivot + 1, length)
    } else {
        match basis[pivot as int] {
            None => nothing(length),
            Some(kept) => {
                assert(basis[pivot as int] is Some);
                let next = combined(equation, kept);
                assert forall|q: nat| q < pivot + 1 implies !#[trigger] has_bit(next.mask, q) by {
                    lemma_bit_of_sum(equation.mask, kept.mask, q);
                }
                let rest = lemma_settled_sum(basis, next, pivot + 1, length);
                lemma_spanned_length(basis, rest, length);
                lemma_sum_assoc(equation, kept, rest);
                lemma_spanned_sum(basis, kept, rest, length);
                combined(kept, rest)
            },
        }
    }
}

/// The first pivot from `from` on whose equation is taken, or the number of
/// pivots.
proof fn lemma_first_taken(
    basis: Seq<Option<EquationView>>,
    pick: Seq<bool>,
    from: nat,
) -> (first: nat)
    requires
        from <= basis.len(),
        forall|p: int| 0 <= p < from ==> !#[trigger] taken(basis, pick, p),
    ensures
        first <= basis.len(),
        first < basis.len() ==> taken(basis, pick, first as int),
        forall|p: int| 0 <= p < first ==> !#[trigger] taken(basis, pick, p),
    decreases basis.len() - from,
{
    if from == basis.len() || taken(basis, pick, from as int) {
        from
    } else {
        lemma_first_taken(basis, pick, from + 1)
    }
}

/// The lowest chunk that a sum of kept equations selects is the first pivot taken.
proof fn lemma_picked_lowest(
    basis: Seq<Option<EquationView>>,
    pick: Seq<bool>,
    first: nat,
    count: nat,
    length: nat,
)
    requires
        echelon(basis),
        first < count <= basis.len(),
        taken(basis, pick, first as int),
        forall|p: int| 0 <= p < first ==> !#[trigger] taken(basis, pick, p),
    ensures
        has_bit(picked(basis, pick, count, length).mask, first),
        forall|q: nat|
            q < first ==> !#[trigger] has_bit(picked(basis, pick, count, length).mask, q),
    decreases count,
{
    let at = (count - 1) as nat;
    let before = picked(basis, pick, at, length);
    if first < at {
        lemma_picked_lowest(basis, pick, first, at, length);
    } else {
        lemma_picked_none(basis, pick, at, length);
    }
    if taken(basis, pick, at as int) {
        let kept = basis[at as int]->0;
        assert(basis[at as int] is Some);
        let sum = combined(before, kept);
        lemma_bit_of_sum(before.mask, kept.mask, first);
        assert forall|q: nat| q < first implies !#[trigger] has_bit(sum.mask, q) by {
            lemma_bit_of_sum(before.mask, kept.mask, q);
            if first == at {
                lemma_nothing_selected(q);
            }
        }
        if first == at {
            lemma_nothing_selected(first);
        }
    }
}

proof fn lemma_nothing_selected(bit: nat)
    ensures
        !has_bit(0u32, bit),
{
    let unit = 1u32 << (bit as u32);
    assert(0u32 & unit == 0) by (bit_vector);
}

/// A mask that selects none of the first `count` chunks is a multiple of the power
/// of two of that exponent.
proof fn lemma_low_bits(mask: u32, count: u32)
    requires
        count <= 32,
        forall|bit: nat| bit < count ==> !#[trigger] has_bit(mask, bit),
    ensures
        mask as u64 & (((1u64 << count) - 1) as u64) == 0,
    decreases count,
{
    if count == 0 {
        assert(mask as u64 & (((1u64 << 0u32) - 1) as u64) == 0) by (bit_vector);
    } else {
        let k = (count - 1) as u32;
        lemma_low_bits(mask, k);
        assert(!has_bit(mask, k as nat));
        assert(mask as u64 & (((1u64 << count) - 1) as u64) == 0) by (bit_vector)
            requires
                count <= 32,
                count == k + 1,
                mask as u64 & (((1u64 << k) - 1) as u64) == 0,
                mask & (1u32 << k) == 0,
        ;
    }
}

/// A mask that selects no chunk is 0.
proof fn lemma_selects_nothing(mask: u32)
    requires
        forall|bit: nat| bit < 32 ==> !#[trigger] has_bit(mask, bit),
    ensures
        mask == 0,
{
    lemma_low_bits(mask, 32);
    assert(mask == 0) by (bit_vector)
        requires
            mask as u64 & (((1u64 << 32u32) - 1) as u64) == 0,
    ;
}

proof fn lemma_picked_within(
    basis: Seq<Option<EquationView>>,
    pick: Seq<bool>,
    count: nat,
    length: nat,
)
    requires
        contained(basis),
        count <= basis.len(),
    ensures
        within(picked(basis, pick, count, length).mask, basis.len()),
    decreases count,
{
    if count > 0 {
        let at = (count - 1) as nat;
        lemma_picked_within(basis, pick, at, length);
        let before = picked(basis, pick, at, length);
        if taken(basis, pick, at as int) {
            let kept = basis[at as int]->0;
            assert(basis[at as int] is Some);
            assert forall|bit: nat| basis.len() <= bit < 32 implies !#[trigger] has_bit(
                combined(before, kept).mask,
                bit,
            ) by {
                lemma_bit_of_sum(before.mask, kept.mask, bit);
            }
        }
    } else {
        assert forall|bit: nat| basis.len() <= bit < 32 implies !#[trigger] has_bit(0u32, bit) by {
            lemma_nothing_selected(bit);
        }
    }
}

/// An equation settles exactly where its mask is no sum of kept masks.
proof fn lemma_settles_when_new(
    basis: Seq<Option<EquationView>>,
    equation: EquationView,
    length: nat,
)
    requires
        echelon(basis),
        even(basis, length),
        contained(basis),
        within(equation.mask, basis.len()),
        equation.payload.len() == length,
    ensures
        settled(basis, equation, 0) is Some <==> !mask_spanned(basis, equation.mask, length),
{
    let n = basis.len();
    let sum = lemma_settled_sum(basis, equation, 0, length);
    lemma_settled_form(basis, equation, 0);
    if let Some((at, form)) = settled(basis, equation, 0) {
        if mask_spanned(basis, equation.mask, length) {
            let own = choose|own: EquationView| #[trigger]
                spanned(basis, own, length) && own.mask == equation.mask;
            lemma_spanned_sum(basis, own, sum, length);
            let total = combined(own, sum);
            assert(total.mask == form.mask);
            let pick = choose|pick: Seq<bool>|
                pick.len() == n && #[trigger] picked(basis, pick, n, length) == total;
            let first = lemma_first_taken(basis, pick, 0);
            if first == n {
                lemma_picked_none(basis, pick, n, length);
                lemma_nothing_selected(at);
            } else {
                lemma_picked_lowest(basis, pick, first, n, length);
                assert(first == at);
            }
            assert(false);
        }
    } else {
        let pick = choose|pick: Seq<bool>|
            pick.len() == n && #[trigger] picked(basis, pick, n, length) == sum;
        lemma_picked_within(basis, pick, n, length);
        let (x, y) = (equation.mask, sum.mask);
        assert forall|bit: nat| bit < 32 implies !#[trigger] has_bit(x ^ y, bit) by {
            lemma_bit_of_sum(x, y, bit);
            if bit < n {
                assert(!has_bit(combined(equation, sum).mask, bit));
            }
        }
        lemma_selects_nothing(x ^ y);
        assert(x == y) by (bit_vector)
            requires
                x ^ y == 0,
        ;
    }
}

/// What can be picked once an equation is kept at a free pivot.
proof fn lemma_picked_more(
    basis: Seq<Option<EquationView>>,
    at: nat,
    form: EquationView,
    pick: Seq<bool>,
    count: nat,
    length: nat,
)
    requires
        count <= basis.len(),
        at < basis.len(),
        basis[at as int] is None,
    ensures
        picked(basis.update(at as int, Some(form)), pick, count, length) == (if at < count
            && pick[at as int] {
            combined(picked(basis, pick, count, length), form)
        } else {
            picked(basis, pick, count, length)
        }),
    decreases count,
{
    if count > 0 {
        let last = (count - 1) as nat;
        lemma_picked_more(basis, at, form, pick, last, length);
        if at < last && pick[at as int] && taken(basis, pick, last as int) {
            lemma_sum_swap(
                picked(basis, pick, last, length),
                form,
                basis[last as int]->0,
            );
        }
    }
}

/// Keeping the sum of an equation and kept equations at a free pivot adds that
/// equation to the span, and no more.
proof fn lemma_span_grows(
    basis: Seq<Option<EquationView>>,
    equation: EquationView,
    sum: EquationView,
    at: nat,
    e: EquationView,
    length: nat,
)
    requires
        even(basis, length),
        equation.payload.len() == length,
        spanned(basis, sum, length),
        at < basis.len(),
        basis[at as int] is None,
    ensures
        spanned(basis.update(at as int, Some(combined(equation, sum))), e, length) <==> spanned(
            basis,
            e,
            length,
        ) || spanned(basis, combined(e, equation), length),
{
    let n = basis.len();
    let form = combined(equation, sum);
    let after = basis.update(at as int, Some(form));
    lemma_spanned_length(basis, sum, length);
    if spanned(after, e, length) {
        let pick = choose|pick: Seq<bool>|
            pick.len() == n && #[trigger] picked(after, pick, n, length) == e;
        lemma_picked_more(basis, at, form, pick, n, length);
        if pick[at as int] {
            // (x + (equation + sum)) + equation = x + sum
            let x = picked(basis, pick, n, length);
            lemma_picked_length(basis, pick, n, length);
            lemma_sum_comm(equation, sum);
            lemma_sum_assoc(x, sum, equation);
            lemma_sum_twice(combined(x, sum), equation);
            assert(spanned(basis, x, length));
            lemma_spanned_sum(basis, x, sum, length);
        }
    }
    if spanned(basis, e, length) {
        let pick = choose|pick: Seq<bool>|
            pick.len() == n && #[trigger] picked(basis, pick, n, length) == e;
        let without = pick.update(at as int, false);
        lemma_picked_same(basis, pick, without, n, length);
        lemma_picked_more(basis, at, form, without, n, length);
    }
    if spanned(basis, combined(e, equation), length) {
        // ((e + equation) + sum) + (equation + sum) = e
        let y = combined(e, equation);
        lemma_spanned_length(basis, y, length);
        lemma_spanned_sum(basis, y, sum, length);
        let x = combined(y, sum);
        lemma_sum_assoc(e, equation, sum);
        lemma_sum_twice(e, form);
        let pick = choose|pick: Seq<bool>|
            pick.len() == n && #[trigger] picked(basis, pick, n, length) == x;
        let with = pick.update(at as int, true);
        lemma_picked_same(basis, pick, with, n, length);
        lemma_picked_more(basis, at, form, with, n, length);
    }
}

/// What one more equation does to a window. It brings something new exactly where
/// its mask is no sum of kept masks. Then one free pivot is filled, with an equation
/// that selects that chunk and none below, and the sums of what is kept are those
/// from before and those that the new equation makes with them. Otherwise nothing
/// changes. No chunk changes in either case.
pub proof fn law_added_equation_extends_the_span(
    window: WindowView,
    equation: EquationView,
    length: nat,
)
    requires
        window.wf(),
        sized(window, length),
        contained(window.basis),
        within(equation.mask, window.basis.len()),
        equation.payload.len() == length,
    ensures
        settled(window.basis, equation, 0) is Some <==> !mask_spanned(
            window.basis,
            equation.mask,
            length,
        ),
        settled(window.basis, equation, 0) is None ==> window.added(equation) == window,
        settled(window.basis, equation, 0) matches Some((at, form)) ==> {
            &&& at < window.basis.len()
            &&& window.basis[at as int] is None
            &&& window.added(equation).basis == window.basis.update(at as int, Some(form))
            &&& has_bit(form.mask, at)
            &&& forall|q: nat| q < at ==> !#[trigger] has_bit(form.mask, q)
            &&& forall|e: EquationView| #[trigger]
                spanned(window.added(equation).basis, e, length) <==> spanned(
                    window.basis,
                    e,
                    length,
                ) || spanned(window.basis, combined(e, equation), length)
        },
        window.added(equation).chunks == window.chunks,
        contained(window.added(equation).basis),
{
    let basis = window.basis;
    lemma_settles_when_new(basis, equation, length);
    lemma_settled_form(basis, equation, 0);
    let sum = lemma_settled_sum(basis, equation, 0, length);
    if let Some((at, form)) = settled(basis, equation, 0) {
        let after = window.added(equation).basis;
        assert forall|e: EquationView| #[trigger] spanned(after, e, length) <==> spanned(
            basis,
            e,
            length,
        ) || spanned(basis, combined(e, equation), length) by {
            lemma_span_grows(basis, equation, sum, at, e, length);
        }
        let n = basis.len();
        let pick = choose|pick: Seq<bool>|
            pick.len() == n && #[trigger] picked(basis, pick, n, length) == sum;
        lemma_picked_within(basis, pick, n, length);
        assert forall|bit: nat| n <= bit < 32 implies !#[trigger] has_bit(form.mask, bit) by {
            lemma_bit_of_sum(equation.mask, sum.mask, bit);
        }
        assert forall|p: int| 0 <= p < after.len() && (#[trigger] after[p]) is Some implies within(
            after[p]->0.mask,
            after.len(),
        ) by {
            if p != at {
                assert(after[p] == basis[p]);
            }
        }
    }
}

} // verus!
