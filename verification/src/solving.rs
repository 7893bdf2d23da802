//! Why the windows of the fountain transport work: what they solve is what was
//! sent, and they solve everything once the masks leave nothing open.

use crate::bytes::{
    lemma_xor_assoc, lemma_xor_comm, lemma_xor_twice, lemma_xor_zeros, xor_bytes, zeros,
};
use crate::window::{
    combined, echelon, has_bit, lemma_bit_of_sum, resolvable, settled, substituted, EquationView,
    WindowView,
};
use vstd::prelude::*;

verus! {

/// The exclusive or of the source chunks from `low` up to `high` that a mask
/// selects, each of `length` bytes.
pub open spec fn mixed(source: Seq<Seq<u8>>, mask: u32, low: nat, high: nat, length: nat) -> Seq<u8>
    decreases high,
{
    if high <= low {
        zeros(length)
    } else {
        let bit = (high - 1) as nat;
        let before = mixed(source, mask, low, bit, length);
        if has_bit(mask, bit) {
            xor_bytes(before, source[bit as int])
        } else {
            before
        }
    }
}

/// Chunks of one length, no more than a mask has bits.
pub open spec fn uniform(source: Seq<Seq<u8>>, length: nat) -> bool {
    &&& source.len() <= 32
    &&& forall|i: int| 0 <= i < source.len() ==> (#[trigger] source[i]).len() == length
}

/// Whether an equation is true of the source chunks.
pub open spec fn holds(equation: EquationView, source: Seq<Seq<u8>>, length: nat) -> bool {
    equation.payload == mixed(source, equation.mask, 0, source.len(), length)
}

/// Whether a window says nothing that is false of the source chunks.
pub open spec fn sound(window: WindowView, source: Seq<Seq<u8>>, length: nat) -> bool {
    &&& window.wf()
    &&& window.basis.len() == source.len()
    &&& uniform(source, length)
    &&& forall|p: int|
        0 <= p < source.len() && (#[trigger] window.basis[p]) is Some ==> holds(
            window.basis[p]->0,
            source,
            length,
        )
    &&& forall|i: int|
        0 <= i < source.len() && (#[trigger] window.chunks[i]) is Some ==> window.chunks[i]
            == Some(source[i])
}

/// Whether the number of positions that a mask selects and `pattern` marks, among
/// the first `count`, is odd.
pub open spec fn odd_overlap(mask: u32, pattern: Seq<bool>, count: nat) -> bool
    decreases count,
{
    if count == 0 {
        false
    } else {
        let bit = (count - 1) as nat;
        odd_overlap(mask, pattern, bit) != (has_bit(mask, bit) && pattern[bit as int])
    }
}

/// Whether a pattern overlaps evenly with every mask of a set.
pub open spec fn even_with_all(masks: Set<u32>, pattern: Seq<bool>) -> bool {
    forall|mask: u32|
        #[trigger] masks.contains(mask) ==> !odd_overlap(mask, pattern, pattern.len())
}

/// Whether masks over `width` chunks leave nothing open: two different sources
/// never agree on all their mixes. Over the field of two elements that says
/// that only the pattern that marks nothing overlaps evenly with every mask.
pub open spec fn determined(masks: Set<u32>, width: nat) -> bool {
    forall|pattern: Seq<bool>|
        pattern.len() == width && #[trigger] even_with_all(masks, pattern) ==> forall|i: int|
            0 <= i < width ==> !#[trigger] pattern[i]
}

/// The masks of the equations that a window keeps.
pub open spec fn kept_masks(basis: Seq<Option<EquationView>>) -> Set<u32> {
    Set::new(
        |mask: u32|
            exists|p: int|
                0 <= p < basis.len() && (#[trigger] basis[p]) is Some && basis[p]->0.mask == mask,
    )
}

/// Whether what a window keeps says all that `masks` say.
pub open spec fn covers(window: WindowView, masks: Set<u32>) -> bool {
    forall|pattern: Seq<bool>|
        pattern.len() == window.basis.len() && #[trigger] even_with_all(
            kept_masks(window.basis),
            pattern,
        ) ==> even_with_all(masks, pattern)
}

/// Whether what a window keeps says no more than `masks` say.
pub open spec fn follows(window: WindowView, masks: Set<u32>) -> bool {
    forall|pattern: Seq<bool>|
        pattern.len() == window.basis.len() && #[trigger] even_with_all(
            masks,
            pattern,
        ) ==> even_with_all(kept_masks(window.basis), pattern)
}

/// Whether a window keeps an equation for each chunk that it knows.
pub open spec fn grounded(window: WindowView) -> bool {
    forall|i: int|
        0 <= i < window.chunks.len() && (#[trigger] window.chunks[i]) is Some
            ==> window.basis[i] is Some
}

// ---------------------------------------------------------------------------
// Mixing

pub proof fn lemma_mixed_length(
    source: Seq<Seq<u8>>,
    mask: u32,
    low: nat,
    high: nat,
    length: nat,
)
    ensures
        mixed(source, mask, low, high, length).len() == length,
    decreases high,
{
    if high > low {
        lemma_mixed_length(source, mask, low, (high - 1) as nat, length);
    }
}

/// The mix of a sum of masks is the sum of the mixes.
proof fn lemma_mixed_sum(source: Seq<Seq<u8>>, a: u32, b: u32, high: nat, length: nat)
    requires
        uniform(source, length),
        high <= source.len(),
    ensures
        mixed(source, a ^ b, 0, high, length) == xor_bytes(
            mixed(source, a, 0, high, length),
            mixed(source, b, 0, high, length),
        ),
    decreases high,
{
    if high == 0 {
        lemma_xor_zeros(zeros(length));
    } else {
        let bit = (high - 1) as nat;
        lemma_mixed_sum(source, a, b, bit, length);
        lemma_bit_of_sum(a, b, bit);
        let x = mixed(source, a, 0, bit, length);
        let y = mixed(source, b, 0, bit, length);
        let s = source[bit as int];
        lemma_mixed_length(source, a, 0, bit, length);
        lemma_mixed_length(source, b, 0, bit, length);
        if has_bit(a, bit) && has_bit(b, bit) {
            // (x + s) + (y + s) = x + y
            lemma_xor_comm(y, s);
            lemma_xor_assoc(xor_bytes(x, s), s, y);
            lemma_xor_twice(x, s);
        } else if has_bit(a, bit) {
            // (x + s) + y = (x + y) + s
            lemma_xor_assoc(x, s, y);
            lemma_xor_comm(s, y);
            lemma_xor_assoc(x, y, s);
        } else if has_bit(b, bit) {
            lemma_xor_assoc(x, y, s);
        }
    }
}

/// A mix over chunks below which nothing is selected starts there.
proof fn lemma_mixed_skip(source: Seq<Seq<u8>>, mask: u32, pivot: nat, high: nat, length: nat)
    requires
        uniform(source, length),
        pivot < high <= source.len(),
        has_bit(mask, pivot),
        forall|q: nat| q < pivot ==> !#[trigger] has_bit(mask, q),
    ensures
        mixed(source, mask, 0, high, length) == xor_bytes(
            source[pivot as int],
            mixed(source, mask, pivot + 1, high, length),
        ),
    decreases high,
{
    let bit = (high - 1) as nat;
    if high == pivot + 1 {
        lemma_mixed_nothing(source, mask, pivot, length);
        lemma_xor_zeros(source[pivot as int]);
    } else {
        lemma_mixed_skip(source, mask, pivot, bit, length);
        if has_bit(mask, bit) {
            lemma_mixed_length(source, mask, pivot + 1, bit, length);
            lemma_xor_assoc(
                source[pivot as int],
                mixed(source, mask, pivot + 1, bit, length),
                source[bit as int],
            );
        }
    }
}

proof fn lemma_mixed_nothing(source: Seq<Seq<u8>>, mask: u32, high: nat, length: nat)
    requires
        forall|q: nat| q < high ==> !#[trigger] has_bit(mask, q),
    ensures
        mixed(source, mask, 0, high, length) == zeros(length),
    decreases high,
{
    if high > 0 {
        lemma_mixed_nothing(source, mask, (high - 1) as nat, length);
        assert(!has_bit(mask, (high - 1) as nat));
    }
}

/// Substituting known chunks mixes the source chunks in.
proof fn lemma_substituted(
    payload: Seq<u8>,
    mask: u32,
    chunks: Seq<Option<Seq<u8>>>,
    source: Seq<Seq<u8>>,
    low: nat,
    high: nat,
    length: nat,
)
    requires
        uniform(source, length),
        payload.len() == length,
        high <= source.len() == chunks.len(),
        forall|i: int|
            low <= i < high && has_bit(mask, i as nat) ==> #[trigger] chunks[i] == Some(source[i]),
    ensures
        substituted(payload, mask, chunks, low, high) == xor_bytes(
            payload,
            mixed(source, mask, low, high, length),
        ),
    decreases high,
{
    if high <= low {
        lemma_xor_zeros(payload);
    } else {
        let bit = (high - 1) as nat;
        lemma_substituted(payload, mask, chunks, source, low, bit, length);
        if has_bit(mask, bit) {
            assert(chunks[bit as int] == Some(source[bit as int]));
            lemma_mixed_length(source, mask, low, bit, length);
            lemma_xor_assoc(payload, mixed(source, mask, low, bit, length), source[bit as int]);
        }
    }
}

// ---------------------------------------------------------------------------
// Soundness

proof fn lemma_settled(
    basis: Seq<Option<EquationView>>,
    equation: EquationView,
    pivot: nat,
    source: Seq<Seq<u8>>,
    length: nat,
)
    requires
        uniform(source, length),
        basis.len() == source.len(),
        holds(equation, source, length),
        forall|p: int|
            0 <= p < basis.len() && (#[trigger] basis[p]) is Some ==> holds(
                basis[p]->0,
                source,
                length,
            ),
    ensures
        settled(basis, equation, pivot) matches Some((at, form)) ==> holds(form, source, length),
    decreases basis.len() - pivot,
{
    if pivot >= basis.len() {
    } else if !has_bit(equation.mask, pivot) {
        lemma_settled(basis, equation, pivot + 1, source, length);
    } else if let Some(kept) = basis[pivot as int] {
        assert(basis[pivot as int] is Some);
        lemma_mixed_sum(source, equation.mask, kept.mask, source.len(), length);
        lemma_settled(basis, combined(equation, kept), pivot + 1, source, length);
    }
}

/// Where an equation settles: at a free pivot, which it selects, with nothing
/// selected below.
pub proof fn lemma_settled_form(basis: Seq<Option<EquationView>>, equation: EquationView, pivot: nat)
    requires
        echelon(basis),
        pivot <= basis.len(),
        forall|q: nat| q < pivot ==> !#[trigger] has_bit(equation.mask, q),
    ensures
        settled(basis, equation, pivot) matches Some((at, form)) ==> {
            &&& at < basis.len()
            &&& basis[at as int] is None
            &&& has_bit(form.mask, at)
            &&& forall|q: nat| q < at ==> !#[trigger] has_bit(form.mask, q)
        },
    decreases basis.len() - pivot,
{
    if pivot >= basis.len() {
    } else if !has_bit(equation.mask, pivot) {
        assert forall|q: nat| q < pivot + 1 implies !#[trigger] has_bit(equation.mask, q) by {}
        lemma_settled_form(basis, equation, pivot + 1);
    } else if let Some(kept) = basis[pivot as int] {
        assert(basis[pivot as int] is Some);
        let next = combined(equation, kept);
        assert forall|q: nat| q < pivot + 1 implies !#[trigger] has_bit(next.mask, q) by {
            lemma_bit_of_sum(equation.mask, kept.mask, q);
        }
        lemma_settled_form(basis, next, pivot + 1);
    }
}

/// A window stays well-formed when an equation is added.
pub proof fn lemma_added_wf(window: WindowView, equation: EquationView)
    requires
        window.wf(),
    ensures
        window.added(equation).wf(),
        window.added(equation).basis.len() == window.basis.len(),
{
    lemma_settled_form(window.basis, equation, 0);
}

/// A true equation keeps a window sound.
pub proof fn lemma_added_sound(
    window: WindowView,
    equation: EquationView,
    source: Seq<Seq<u8>>,
    length: nat,
)
    requires
        sound(window, source, length),
        holds(equation, source, length),
    ensures
        sound(window.added(equation), source, length),
{
    lemma_added_wf(window, equation);
    lemma_settled_form(window.basis, equation, 0);
    lemma_settled(window.basis, equation, 0, source, length);
    let after = window.added(equation);
    if let Some((at, form)) = settled(window.basis, equation, 0) {
        assert forall|p: int|
            0 <= p < source.len() && (#[trigger] after.basis[p]) is Some implies holds(
            after.basis[p]->0,
            source,
            length,
        ) by {
            if p != at {
                assert(after.basis[p] == window.basis[p]);
            }
        }
    }
}

proof fn lemma_solved_sound(
    window: WindowView,
    pivot: nat,
    source: Seq<Seq<u8>>,
    length: nat,
)
    requires
        sound(window, source, length),
        pivot <= source.len(),
    ensures
        window.solved_from(pivot).len() == source.len(),
        forall|i: int|
            0 <= i < source.len() && (#[trigger] window.solved_from(pivot)[i]) is Some
                ==> window.solved_from(pivot)[i] == Some(source[i]),
        forall|i: int|
            0 <= i < source.len() && window.chunks[i] is Some ==> (
            #[trigger] window.solved_from(pivot)[i]) is Some,
    decreases source.len() - pivot,
{
    if pivot < source.len() {
        lemma_solved_sound(window, pivot + 1, source, length);
        let later = window.solved_from(pivot + 1);
        if let Some(equation) = window.basis[pivot as int] {
            assert(window.basis[pivot as int] is Some);
            if later[pivot as int] is None && resolvable(equation.mask, later, pivot) {
                let n = source.len();
                let rest = mixed(source, equation.mask, pivot + 1, n, length);
                lemma_mixed_length(source, equation.mask, 0, n, length);
                lemma_mixed_length(source, equation.mask, pivot + 1, n, length);
                assert forall|i: int|
                    pivot + 1 <= i < n && has_bit(equation.mask, i as nat) implies #[trigger] later[i]
                    == Some(source[i]) by {
                    assert(later[i] is Some);
                }
                lemma_substituted(
                    equation.payload,
                    equation.mask,
                    later,
                    source,
                    pivot + 1,
                    n,
                    length,
                );
                lemma_mixed_skip(source, equation.mask, pivot, n, length);
                lemma_xor_twice(source[pivot as int], rest);
            }
        }
    }
}

/// What back substitution solves is what was sent, and nothing known is lost.
pub proof fn law_solved_chunks_are_the_source(
    window: WindowView,
    source: Seq<Seq<u8>>,
    length: nat,
)
    requires
        sound(window, source, length),
    ensures
        sound(window.solved(), source, length),
        forall|i: int|
            0 <= i < source.len() && window.chunks[i] is Some ==> (
            #[trigger] window.solved().chunks[i]) is Some,
{
    lemma_solved_sound(window, 0, source, length);
}

/// A single chunk is the mix of its own mask.
pub proof fn lemma_mixed_unit(source: Seq<Seq<u8>>, at: nat, length: nat)
    requires
        uniform(source, length),
        at < source.len(),
    ensures
        mixed(source, 1u32 << (at as u32), 0, source.len(), length) == source[at as int],
{
    let unit = 1u32 << (at as u32);
    let n = source.len();
    assert forall|q: nat| q < at implies !#[trigger] has_bit(unit, q) by {
        lemma_unit_bits(at, q);
    }
    lemma_unit_bits(at, at);
    lemma_mixed_skip(source, unit, at, n, length);
    lemma_mixed_unit_rest(source, at, n, length);
    lemma_xor_zeros(source[at as int]);
}

proof fn lemma_mixed_unit_rest(source: Seq<Seq<u8>>, at: nat, high: nat, length: nat)
    requires
        uniform(source, length),
        at < high <= source.len(),
    ensures
        mixed(source, 1u32 << (at as u32), at + 1, high, length) == zeros(length),
    decreases high,
{
    if high > at + 1 {
        lemma_mixed_unit_rest(source, at, (high - 1) as nat, length);
        lemma_unit_bits(at, (high - 1) as nat);
    }
}

/// A window that knows nothing says nothing false.
pub proof fn lemma_empty_sound(source: Seq<Seq<u8>>, length: nat)
    requires
        uniform(source, length),
    ensures
        sound(WindowView::empty(source.len()), source, length),
{
}

/// Whether all payloads of a window have one length.
pub open spec fn sized(window: WindowView, length: nat) -> bool {
    &&& forall|p: int|
        0 <= p < window.basis.len() && (#[trigger] window.basis[p]) is Some
            ==> window.basis[p]->0.payload.len() == length
    &&& forall|i: int|
        0 <= i < window.chunks.len() && (#[trigger] window.chunks[i]) is Some
            ==> window.chunks[i]->0.len() == length
}

proof fn lemma_settled_sized(basis: Seq<Option<EquationView>>, equation: EquationView, pivot: nat)
    ensures
        settled(basis, equation, pivot) matches Some((at, form)) ==> form.payload.len()
            == equation.payload.len(),
    decreases basis.len() - pivot,
{
    if pivot >= basis.len() {
    } else if !has_bit(equation.mask, pivot) {
        lemma_settled_sized(basis, equation, pivot + 1);
    } else if let Some(kept) = basis[pivot as int] {
        lemma_settled_sized(basis, combined(equation, kept), pivot + 1);
    }
}

proof fn lemma_substituted_length(
    payload: Seq<u8>,
    mask: u32,
    chunks: Seq<Option<Seq<u8>>>,
    low: nat,
    high: nat,
)
    ensures
        substituted(payload, mask, chunks, low, high).len() == payload.len(),
    decreases high,
{
    if high > low {
        lemma_substituted_length(payload, mask, chunks, low, (high - 1) as nat);
    }
}

/// Adding an equation keeps the length of the payloads.
pub proof fn lemma_added_sized(window: WindowView, equation: EquationView, length: nat)
    requires
        window.wf(),
        sized(window, length),
        equation.payload.len() == length,
    ensures
        sized(window.added(equation), length),
{
    lemma_settled_form(window.basis, equation, 0);
    lemma_settled_sized(window.basis, equation, 0);
    let after = window.added(equation);
    if let Some((at, form)) = settled(window.basis, equation, 0) {
        assert forall|p: int|
            0 <= p < after.basis.len() && (#[trigger] after.basis[p])
                is Some implies after.basis[p]->0.payload.len() == length by {
            if p != at {
                assert(after.basis[p] == window.basis[p]);
            }
        }
    }
}

proof fn lemma_solved_from_sized(window: WindowView, pivot: nat, length: nat)
    requires
        window.wf(),
        sized(window, length),
    ensures
        window.solved_from(pivot).len() == window.chunks.len(),
        forall|i: int|
            0 <= i < window.chunks.len() && (#[trigger] window.solved_from(pivot)[i]) is Some
                ==> window.solved_from(pivot)[i]->0.len() == length,
    decreases window.chunks.len() - pivot,
{
    if pivot < window.chunks.len() {
        lemma_solved_from_sized(window, pivot + 1, length);
        let later = window.solved_from(pivot + 1);
        if let Some(equation) = window.basis[pivot as int] {
            assert(window.basis[pivot as int] is Some);
            lemma_substituted_length(
                equation.payload,
                equation.mask,
                later,
                pivot + 1,
                window.chunks.len(),
            );
        }
    }
}

/// Back substitution keeps the window well-formed and the length of the
/// payloads.
pub proof fn lemma_solved_sized(window: WindowView, length: nat)
    requires
        window.wf(),
        sized(window, length),
    ensures
        window.solved().wf(),
        sized(window.solved(), length),
{
    lemma_solved_from_sized(window, 0, length);
}

proof fn lemma_solved_from_keeps(window: WindowView, pivot: nat)
    requires
        window.wf(),
    ensures
        window.solved_from(pivot).len() == window.chunks.len(),
        forall|i: int|
            0 <= i < window.chunks.len() && window.chunks[i] is Some ==> (
            #[trigger] window.solved_from(pivot)[i]) == window.chunks[i],
    decreases window.chunks.len() - pivot,
{
    if pivot < window.chunks.len() {
        lemma_solved_from_keeps(window, pivot + 1);
    }
}

/// Back substitution forgets and changes no chunk.
pub proof fn lemma_solved_keeps(window: WindowView)
    requires
        window.wf(),
    ensures
        window.solved().chunks.len() == window.chunks.len(),
        forall|i: int|
            0 <= i < window.chunks.len() && window.chunks[i] is Some ==> (
            #[trigger] window.solved().chunks[i]) == window.chunks[i],
{
    lemma_solved_from_keeps(window, 0);
}

// ---------------------------------------------------------------------------
// Completeness

proof fn lemma_full_solved(window: WindowView, pivot: nat)
    requires
        window.wf(),
        pivot <= window.chunks.len(),
        forall|p: int| 0 <= p < window.basis.len() ==> (#[trigger] window.basis[p]) is Some,
    ensures
        window.solved_from(pivot).len() == window.chunks.len(),
        forall|i: int|
            pivot <= i < window.chunks.len() ==> (#[trigger] window.solved_from(pivot)[i]) is Some,
    decreases window.chunks.len() - pivot,
{
    if pivot < window.chunks.len() {
        lemma_full_solved(window, pivot + 1);
        let later = window.solved_from(pivot + 1);
        assert(window.basis[pivot as int] is Some);
        assert(resolvable(window.basis[pivot as int]->0.mask, later, pivot));
    }
}

/// With an equation at every pivot, back substitution solves every chunk.
pub proof fn law_full_basis_solves_all(window: WindowView)
    requires
        window.wf(),
        forall|p: int| 0 <= p < window.basis.len() ==> (#[trigger] window.basis[p]) is Some,
    ensures
        forall|i: int|
            0 <= i < window.chunks.len() ==> (#[trigger] window.solved().chunks[i]) is Some,
{
    lemma_full_solved(window, 0);
}

proof fn lemma_overlap_sum(a: u32, b: u32, pattern: Seq<bool>, count: nat)
    requires
        count <= 32,
    ensures
        odd_overlap(a ^ b, pattern, count) == (odd_overlap(a, pattern, count) != odd_overlap(
            b,
            pattern,
            count,
        )),
    decreases count,
{
    if count > 0 {
        lemma_overlap_sum(a, b, pattern, (count - 1) as nat);
        lemma_bit_of_sum(a, b, (count - 1) as nat);
    }
}

/// With a pattern that overlaps evenly with what is kept, an equation overlaps as
/// the form in which it settles does, and evenly if it does not settle.
proof fn lemma_settled_overlap(
    basis: Seq<Option<EquationView>>,
    equation: EquationView,
    pivot: nat,
    pattern: Seq<bool>,
)
    requires
        echelon(basis),
        pattern.len() == basis.len(),
        pivot <= basis.len(),
        forall|q: nat| q < pivot ==> !#[trigger] has_bit(equation.mask, q),
        forall|p: int|
            0 <= p < basis.len() && (#[trigger] basis[p]) is Some ==> !odd_overlap(
                basis[p]->0.mask,
                pattern,
                basis.len(),
            ),
    ensures
        odd_overlap(equation.mask, pattern, basis.len()) == (match settled(
            basis,
            equation,
            pivot,
        ) {
            Some((at, form)) => odd_overlap(form.mask, pattern, basis.len()),
            None => false,
        }),
    decreases basis.len() - pivot,
{
    if pivot >= basis.len() {
        lemma_no_overlap(equation.mask, pattern, basis.len());
    } else if !has_bit(equation.mask, pivot) {
        assert forall|q: nat| q < pivot + 1 implies !#[trigger] has_bit(equation.mask, q) by {}
        lemma_settled_overlap(basis, equation, pivot + 1, pattern);
    } else if let Some(kept) = basis[pivot as int] {
        assert(basis[pivot as int] is Some);
        let next = combined(equation, kept);
        assert forall|q: nat| q < pivot + 1 implies !#[trigger] has_bit(next.mask, q) by {
            lemma_bit_of_sum(equation.mask, kept.mask, q);
        }
        lemma_settled_overlap(basis, next, pivot + 1, pattern);
        lemma_overlap_sum(equation.mask, kept.mask, pattern, basis.len());
    }
}

proof fn lemma_no_overlap(mask: u32, pattern: Seq<bool>, count: nat)
    requires
        forall|q: nat| q < count ==> !#[trigger] has_bit(mask, q),
    ensures
        !odd_overlap(mask, pattern, count),
    decreases count,
{
    if count > 0 {
        lemma_no_overlap(mask, pattern, (count - 1) as nat);
        assert(!has_bit(mask, (count - 1) as nat));
    }
}

/// A window covers each mask that was added.
pub proof fn lemma_added_covers(window: WindowView, masks: Set<u32>, equation: EquationView)
    requires
        window.wf(),
        covers(window, masks),
    ensures
        covers(window.added(equation), masks.insert(equation.mask)),
{
    lemma_added_wf(window, equation);
    let after = window.added(equation);
    let n = window.basis.len();
    lemma_settled_form(window.basis, equation, 0);
    assert forall|pattern: Seq<bool>|
        pattern.len() == n && #[trigger] even_with_all(
            kept_masks(after.basis),
            pattern,
        ) implies even_with_all(masks.insert(equation.mask), pattern) by {
        assert forall|p: int|
            0 <= p < n && (#[trigger] after.basis[p]) is Some implies !odd_overlap(
            after.basis[p]->0.mask,
            pattern,
            n,
        ) by {
            assert(kept_masks(after.basis).contains(after.basis[p]->0.mask));
        }
        assert forall|p: int| 0 <= p < n && (#[trigger] window.basis[p]) is Some implies !odd_overlap(
            window.basis[p]->0.mask,
            pattern,
            n,
        ) by {
            assert(after.basis[p] == window.basis[p]);
        }
        assert(even_with_all(kept_masks(window.basis), pattern));
        if let Some((at, form)) = settled(window.basis, equation, 0) {
            assert(after.basis[at as int] == Some(form));
        }
        lemma_settled_overlap(window.basis, equation, 0, pattern);
    }
}

/// A pattern that overlaps evenly with every equation kept at a pivot from
/// `from` on and that marks the free pivot `free`.
spec fn witness(basis: Seq<Option<EquationView>>, free: nat, from: nat) -> Seq<bool>
    decreases free - from,
{
    if from >= free {
        Seq::new(basis.len(), |i: int| i == free)
    } else {
        let above = witness(basis, free, from + 1);
        match basis[from as int] {
            None => above,
            Some(equation) => above.update(
                from as int,
                odd_overlap(equation.mask, above, basis.len()),
            ),
        }
    }
}

proof fn lemma_overlap_update(
    mask: u32,
    pattern: Seq<bool>,
    at: nat,
    value: bool,
    count: nat,
)
    requires
        at < pattern.len(),
        count <= pattern.len(),
        !pattern[at as int],
    ensures
        odd_overlap(mask, pattern.update(at as int, value), count) == (odd_overlap(
            mask,
            pattern,
            count,
        ) != (at < count && has_bit(mask, at) && value)),
    decreases count,
{
    if count > 0 {
        lemma_overlap_update(mask, pattern, at, value, (count - 1) as nat);
    }
}

proof fn lemma_overlap_unit(mask: u32, pattern: Seq<bool>, at: nat, count: nat)
    requires
        count <= pattern.len(),
        forall|i: int| 0 <= i < pattern.len() ==> #[trigger] pattern[i] == (i == at),
    ensures
        odd_overlap(mask, pattern, count) == (at < count && has_bit(mask, at)),
    decreases count,
{
    if count > 0 {
        lemma_overlap_unit(mask, pattern, at, (count - 1) as nat);
    }
}

proof fn lemma_witness(window: WindowView, free: nat, from: nat)
    requires
        window.wf(),
        free < window.basis.len(),
        window.basis[free as int] is None,
        from <= free,
    ensures
        witness(window.basis, free, from).len() == window.basis.len(),
        witness(window.basis, free, from)[free as int],
        forall|i: int| 0 <= i < from ==> !#[trigger] witness(window.basis, free, from)[i],
        forall|p: int|
            from <= p < window.basis.len() && (#[trigger] window.basis[p]) is Some ==> !odd_overlap(
                window.basis[p]->0.mask,
                witness(window.basis, free, from),
                window.basis.len(),
            ),
    decreases free - from,
{
    let basis = window.basis;
    let n = basis.len();
    let pattern = witness(basis, free, from);
    if from >= free {
        assert forall|p: int| from <= p < n && (#[trigger] basis[p]) is Some implies !odd_overlap(
            basis[p]->0.mask,
            pattern,
            n,
        ) by {
            assert(p != free);
            lemma_overlap_unit(basis[p]->0.mask, pattern, free, n);
        }
    } else {
        lemma_witness(window, free, from + 1);
        let above = witness(basis, free, from + 1);
        if let Some(equation) = basis[from as int] {
            let value = odd_overlap(equation.mask, above, n);
            assert forall|p: int| from <= p < n && (#[trigger] basis[p]) is Some implies !odd_overlap(
                basis[p]->0.mask,
                pattern,
                n,
            ) by {
                lemma_overlap_update(basis[p]->0.mask, above, from, value, n);
            }
        }
    }
}

/// Once the masks that were added leave nothing open, the window has an
/// equation at every pivot.
pub proof fn law_determined_masks_fill_the_basis(window: WindowView, masks: Set<u32>)
    requires
        window.wf(),
        covers(window, masks),
        determined(masks, window.basis.len()),
    ensures
        forall|p: int| 0 <= p < window.basis.len() ==> (#[trigger] window.basis[p]) is Some,
{
    assert forall|p: int| 0 <= p < window.basis.len() implies (#[trigger] window.basis[p]) is Some by {
        if window.basis[p] is None {
            lemma_witness(window, p as nat, 0);
            let pattern = witness(window.basis, p as nat, 0);
            assert(even_with_all(kept_masks(window.basis), pattern));
            assert(even_with_all(masks, pattern));
            assert(!pattern[p]);
        }
    }
}

/// A pattern that marks nothing from `from` on has no overlap there.
proof fn lemma_overlap_low(mask: u32, pattern: Seq<bool>, at: nat, count: nat)
    requires
        at < count <= pattern.len(),
        has_bit(mask, at),
        pattern[at as int],
        forall|q: nat| q < at ==> !#[trigger] has_bit(mask, q),
        forall|i: int| at < i < pattern.len() ==> !#[trigger] pattern[i],
    ensures
        odd_overlap(mask, pattern, count),
    decreases count,
{
    if count == at + 1 {
        lemma_no_overlap(mask, pattern, at);
    } else {
        lemma_overlap_low(mask, pattern, at, (count - 1) as nat);
    }
}

proof fn lemma_witness_high(basis: Seq<Option<EquationView>>, free: nat, from: nat)
    requires
        from <= free < basis.len(),
    ensures
        witness(basis, free, from).len() == basis.len(),
        forall|i: int| free < i < basis.len() ==> !#[trigger] witness(basis, free, from)[i],
    decreases free - from,
{
    if from < free {
        lemma_witness_high(basis, free, from + 1);
    }
}

/// An equation whose mask is covered by what a window keeps, such as one that
/// came before, changes nothing.
pub proof fn law_covered_equation_changes_nothing(
    window: WindowView,
    masks: Set<u32>,
    equation: EquationView,
)
    requires
        window.wf(),
        covers(window, masks),
        masks.contains(equation.mask),
    ensures
        window.added(equation) == window,
{
    let n = window.basis.len();
    if let Some((at, form)) = settled(window.basis, equation, 0) {
        lemma_settled_form(window.basis, equation, 0);
        lemma_witness(window, at, 0);
        lemma_witness_high(window.basis, at, 0);
        let pattern = witness(window.basis, at, 0);
        assert(even_with_all(kept_masks(window.basis), pattern));
        assert(even_with_all(masks, pattern));
        lemma_settled_overlap(window.basis, equation, 0, pattern);
        lemma_overlap_low(form.mask, pattern, at, n);
    }
}

/// A window keeps nothing that does not follow from the masks that were added.
pub proof fn lemma_added_follows(window: WindowView, masks: Set<u32>, equation: EquationView)
    requires
        window.wf(),
        follows(window, masks),
    ensures
        follows(window.added(equation), masks.insert(equation.mask)),
{
    lemma_added_wf(window, equation);
    lemma_settled_form(window.basis, equation, 0);
    let after = window.added(equation);
    let more = masks.insert(equation.mask);
    let n = window.basis.len();
    assert forall|pattern: Seq<bool>|
        pattern.len() == n && #[trigger] even_with_all(more, pattern) implies even_with_all(
        kept_masks(after.basis),
        pattern,
    ) by {
        assert forall|mask: u32| #[trigger] masks.contains(mask) implies !odd_overlap(
            mask,
            pattern,
            pattern.len(),
        ) by {
            assert(more.contains(mask));
        }
        assert(even_with_all(masks, pattern));
        assert(more.contains(equation.mask));
        assert forall|p: int| 0 <= p < n && (#[trigger] window.basis[p]) is Some implies !odd_overlap(
            window.basis[p]->0.mask,
            pattern,
            n,
        ) by {
            assert(kept_masks(window.basis).contains(window.basis[p]->0.mask));
        }
        lemma_settled_overlap(window.basis, equation, 0, pattern);
        assert forall|mask: u32| #[trigger] kept_masks(after.basis).contains(
            mask,
        ) implies !odd_overlap(mask, pattern, pattern.len()) by {
            let p = choose|p: int|
                0 <= p < n && (#[trigger] after.basis[p]) is Some && after.basis[p]->0.mask == mask;
            if let Some((at, form)) = settled(window.basis, equation, 0) {
                if p != at {
                    assert(window.basis[p] == after.basis[p]);
                }
            } else {
                assert(window.basis[p] == after.basis[p]);
            }
        }
    }
}

proof fn lemma_full_leaves_nothing(window: WindowView, pattern: Seq<bool>, from: nat)
    requires
        window.wf(),
        pattern.len() == window.basis.len(),
        from <= pattern.len(),
        even_with_all(kept_masks(window.basis), pattern),
        forall|p: int| 0 <= p < window.basis.len() ==> (#[trigger] window.basis[p]) is Some,
    ensures
        forall|i: int| from <= i < pattern.len() ==> !#[trigger] pattern[i],
    decreases pattern.len() - from,
{
    if from < pattern.len() {
        lemma_full_leaves_nothing(window, pattern, from + 1);
        let kept = window.basis[from as int]->0;
        assert(window.basis[from as int] is Some);
        assert(kept_masks(window.basis).contains(kept.mask));
        if pattern[from as int] {
            lemma_overlap_low(kept.mask, pattern, from, pattern.len());
        }
    }
}

/// With an equation at every pivot, the masks that were added leave nothing open.
pub proof fn law_full_basis_means_determined(window: WindowView, masks: Set<u32>)
    requires
        window.wf(),
        follows(window, masks),
        forall|p: int| 0 <= p < window.basis.len() ==> (#[trigger] window.basis[p]) is Some,
    ensures
        determined(masks, window.basis.len()),
{
    assert forall|pattern: Seq<bool>|
        pattern.len() == window.basis.len() && #[trigger] even_with_all(
            masks,
            pattern,
        ) implies forall|i: int| 0 <= i < window.basis.len() ==> !#[trigger] pattern[i] by {
        lemma_full_leaves_nothing(window, pattern, 0);
    }
}

proof fn lemma_solved_from_grounded(window: WindowView, pivot: nat)
    requires
        window.wf(),
        grounded(window),
    ensures
        window.solved_from(pivot).len() == window.chunks.len(),
        forall|i: int|
            0 <= i < window.chunks.len() && (#[trigger] window.solved_from(pivot)[i]) is Some
                ==> window.basis[i] is Some,
    decreases window.chunks.len() - pivot,
{
    if pivot < window.chunks.len() {
        lemma_solved_from_grounded(window, pivot + 1);
    }
}

/// Adding an equation takes none away.
pub proof fn lemma_added_grounded(window: WindowView, equation: EquationView)
    requires
        window.wf(),
        grounded(window),
    ensures
        grounded(window.added(equation)),
{
    lemma_added_wf(window, equation);
    lemma_settled_form(window.basis, equation, 0);
    let grown = window.added(equation);
    assert forall|i: int| 0 <= i < grown.chunks.len() && (#[trigger] grown.chunks[i])
        is Some implies grown.basis[i] is Some by {
        assert(window.chunks[i] is Some);
    }
}

/// A chunk is solved only where there is an equation.
pub proof fn lemma_solved_grounded(window: WindowView)
    requires
        window.wf(),
        grounded(window),
    ensures
        grounded(window.solved()),
{
    lemma_solved_from_grounded(window, 0);
}

proof fn lemma_unit_settles_from(
    basis: Seq<Option<EquationView>>,
    equation: EquationView,
    at: nat,
    pivot: nat,
)
    requires
        pivot <= at < basis.len() <= 32,
        basis[at as int] is None,
        equation.mask == 1u32 << (at as u32),
    ensures
        settled(basis, equation, pivot) == Some((at, equation)),
    decreases at - pivot,
{
    lemma_unit_bits(at, pivot);
    if pivot < at {
        lemma_unit_settles_from(basis, equation, at, pivot + 1);
    }
}

/// After the mask of a single chunk was added there is an equation for that
/// chunk.
pub proof fn lemma_unit_settles(window: WindowView, equation: EquationView, at: nat)
    requires
        window.wf(),
        at < window.basis.len(),
        equation.mask == 1u32 << (at as u32),
    ensures
        window.added(equation).basis[at as int] is Some,
{
    lemma_settled_form(window.basis, equation, 0);
    if window.basis[at as int] is None {
        lemma_unit_settles_from(window.basis, equation, at, 0);
    }
}

/// Solving from one pivot down to another changes only what lies between.
proof fn lemma_solved_from_stable(window: WindowView, low: nat, high: nat)
    requires
        window.wf(),
        low <= high <= window.chunks.len(),
    ensures
        window.solved_from(low).len() == window.chunks.len(),
        forall|i: int|
            high <= i < window.chunks.len() ==> #[trigger] window.solved_from(low)[i]
                == window.solved_from(high)[i],
    decreases high - low,
{
    if low < high {
        lemma_solved_from_stable(window, low + 1, high);
    }
    lemma_solved_from_length(window, low);
}

proof fn lemma_solved_from_length(window: WindowView, pivot: nat)
    ensures
        window.solved_from(pivot).len() == window.chunks.len(),
    decreases window.chunks.len() - pivot,
{
    if pivot < window.chunks.len() {
        lemma_solved_from_length(window, pivot + 1);
    }
}

proof fn lemma_solved_again(window: WindowView, pivot: nat)
    requires
        window.wf(),
        pivot <= window.chunks.len(),
    ensures
        window.solved().solved_from(pivot) == window.solved().chunks,
    decreases window.chunks.len() - pivot,
{
    let done = window.solved();
    lemma_solved_from_length(window, 0);
    if pivot < window.chunks.len() {
        lemma_solved_again(window, pivot + 1);
        if let Some(equation) = window.basis[pivot as int] {
            if done.chunks[pivot as int] is None && resolvable(equation.mask, done.chunks, pivot) {
                let later = window.solved_from(pivot + 1);
                lemma_solved_from_length(window, pivot + 1);
                lemma_solved_from_stable(window, 0, pivot);
                lemma_solved_from_stable(window, 0, pivot + 1);
                lemma_solved_from_stable(window, pivot, pivot + 1);
                assert forall|bit: int|
                    pivot < bit < later.len() && has_bit(equation.mask, bit as nat) implies (
                #[trigger] later[bit]) is Some by {
                    assert(done.chunks[bit] == later[bit]);
                }
                assert(resolvable(equation.mask, later, pivot));
                assert(done.chunks[pivot as int] == window.solved_from(pivot)[pivot as int]);
                assert(later[pivot as int] is None ==> window.solved_from(pivot)[pivot as int]
                    is Some);
            }
        }
    }
}

/// Solving a second time finds nothing more.
pub proof fn law_solving_once_is_enough(window: WindowView)
    requires
        window.wf(),
    ensures
        window.solved().solved() == window.solved(),
{
    lemma_solved_again(window, 0);
}

/// The exclusive or of the bytes at place `at` of the chunks, from `low` up to `high`,
/// whose bits are set in a mask.
pub open spec fn selected_byte(
    chunks: Seq<Option<Seq<u8>>>,
    mask: u32,
    low: nat,
    high: nat,
    at: int,
) -> u8
    decreases high,
{
    if high <= low {
        0
    } else {
        let bit = (high - 1) as nat;
        let before = selected_byte(chunks, mask, low, bit, at);
        if (mask >> (bit as u32)) & 1 == 1 {
            before ^ chunks[bit as int]->0[at]
        } else {
            before
        }
    }
}

/// A mask selects the chunks whose bits are set, the first chunk by the lowest bit.
pub proof fn law_masks_select_by_their_bits(mask: u32, bit: nat)
    requires
        bit < 32,
    ensures
        has_bit(mask, bit) <==> (mask >> (bit as u32)) & 1 == 1,
{
    let b = bit as u32;
    assert(b < 32 ==> (mask & (1u32 << b) != 0 <==> (mask >> b) & 1 == 1)) by (bit_vector);
}

/// A chunk that arrives as it is becomes known; one that is known already stays, and so
/// do all others and the equations.
pub proof fn law_arrived_chunk_is_known(window: WindowView, local: nat, chunk: Seq<u8>)
    requires
        local < window.chunks.len(),
    ensures
        window.learned(local, chunk).basis == window.basis,
        window.learned(local, chunk).chunks.len() == window.chunks.len(),
        window.learned(local, chunk).chunks[local as int] == (if window.chunks[local as int]
            is Some {
            window.chunks[local as int]
        } else {
            Some(chunk)
        }),
        forall|i: int|
            0 <= i < window.chunks.len() && i != local ==> #[trigger] window.learned(
                local,
                chunk,
            ).chunks[i] == window.chunks[i],
{
}

proof fn lemma_solved_from_below(window: WindowView, pivot: nat)
    requires
        window.wf(),
    ensures
        window.solved_from(pivot).len() == window.chunks.len(),
        forall|i: int|
            0 <= i < pivot && i < window.chunks.len() ==> #[trigger] window.solved_from(pivot)[i]
                == window.chunks[i],
    decreases window.chunks.len() - pivot,
{
    if pivot < window.chunks.len() {
        lemma_solved_from_below(window, pivot + 1);
    }
}

proof fn lemma_substituted_byte(
    payload: Seq<u8>,
    mask: u32,
    chunks: Seq<Option<Seq<u8>>>,
    low: nat,
    high: nat,
    at: int,
)
    requires
        high <= chunks.len() <= 32,
        0 <= at < payload.len(),
        forall|i: int|
            low <= i < high && has_bit(mask, i as nat) ==> (#[trigger] chunks[i]) is Some
                && chunks[i]->0.len() == payload.len(),
    ensures
        substituted(payload, mask, chunks, low, high).len() == payload.len(),
        substituted(payload, mask, chunks, low, high)[at] == payload[at] ^ selected_byte(
            chunks,
            mask,
            low,
            high,
            at,
        ),
    decreases high,
{
    let p = payload[at];
    if high <= low {
        assert(p ^ 0u8 == p) by (bit_vector);
    } else {
        let bit = (high - 1) as nat;
        lemma_substituted_byte(payload, mask, chunks, low, bit, at);
        law_masks_select_by_their_bits(mask, bit);
        if has_bit(mask, bit) {
            let c = selected_byte(chunks, mask, low, bit, at);
            let x = chunks[bit as int]->0[at];
            assert((p ^ c) ^ x == p ^ (c ^ x)) by (bit_vector);
        }
    }
}

proof fn lemma_selected_byte_agrees(
    a: Seq<Option<Seq<u8>>>,
    b: Seq<Option<Seq<u8>>>,
    mask: u32,
    low: nat,
    high: nat,
    at: int,
)
    requires
        forall|i: int| low <= i < high ==> #[trigger] a[i] == b[i],
    ensures
        selected_byte(a, mask, low, high, at) == selected_byte(b, mask, low, high, at),
    decreases high,
{
    if high > low {
        lemma_selected_byte_agrees(a, b, mask, low, (high - 1) as nat, at);
    }
}

/// Where nothing below a pivot is selected, the pivot adds itself to what is above it.
proof fn lemma_selected_byte_pivot(
    chunks: Seq<Option<Seq<u8>>>,
    mask: u32,
    pivot: nat,
    high: nat,
    at: int,
)
    requires
        pivot < high <= chunks.len() <= 32,
        has_bit(mask, pivot),
        forall|q: nat| q < pivot ==> !#[trigger] has_bit(mask, q),
    ensures
        selected_byte(chunks, mask, 0, high, at) == selected_byte(
            chunks,
            mask,
            pivot + 1,
            high,
            at,
        ) ^ chunks[pivot as int]->0[at],
    decreases high,
{
    let bit = (high - 1) as nat;
    law_masks_select_by_their_bits(mask, bit);
    let x = chunks[pivot as int]->0[at];
    if bit == pivot {
        lemma_selected_byte_nothing(chunks, mask, pivot, at);
    } else {
        lemma_selected_byte_pivot(chunks, mask, pivot, bit, at);
        let c = selected_byte(chunks, mask, pivot + 1, bit, at);
        let y = chunks[bit as int]->0[at];
        assert((c ^ x) ^ y == (c ^ y) ^ x) by (bit_vector);
    }
}

proof fn lemma_selected_byte_nothing(
    chunks: Seq<Option<Seq<u8>>>,
    mask: u32,
    high: nat,
    at: int,
)
    requires
        high <= 32,
        forall|q: nat| q < high ==> !#[trigger] has_bit(mask, q),
    ensures
        selected_byte(chunks, mask, 0, high, at) == 0,
    decreases high,
{
    if high > 0 {
        lemma_selected_byte_nothing(chunks, mask, (high - 1) as nat, at);
        law_masks_select_by_their_bits(mask, (high - 1) as nat);
        assert(!has_bit(mask, (high - 1) as nat));
    }
}

/// Whether an equation selects, above its pivot, only chunks that are known.
pub open spec fn known_above(mask: u32, chunks: Seq<Option<Seq<u8>>>, pivot: int) -> bool {
    forall|bit: int|
        pivot < bit < chunks.len() && (mask >> (bit as u32)) & 1 == 1 ==> (#[trigger] chunks[bit])
            is Some
}

/// Whether the bytes at one place of the chunks that an equation selects add up to its
/// payload.
pub open spec fn satisfied(equation: EquationView, chunks: Seq<Option<Seq<u8>>>, at: int) -> bool {
    selected_byte(chunks, equation.mask, 0, chunks.len(), at) == equation.payload[at]
}

/// Solving goes as far as back substitution can: a chunk becomes known exactly if its
/// equation selects, above it, only chunks that are known in the end; and what it
/// becomes satisfies its equation, so that the bytes of the selected chunks add up to
/// the payload. Known chunks stay as they are, and so do the equations.
pub proof fn law_solving_goes_as_far_as_it_can(window: WindowView, length: nat)
    requires
        window.wf(),
        sized(window, length),
    ensures
        ({
            let after = window.solved().chunks;
            &&& window.solved().basis == window.basis
            &&& after.len() == window.chunks.len()
            &&& forall|p: int|
                0 <= p < after.len() && window.chunks[p] is Some ==> #[trigger] after[p]
                    == window.chunks[p]
            &&& forall|p: int|
                0 <= p < after.len() && window.chunks[p] is None ==> ((#[trigger] after[p]) is Some
                    <==> window.basis[p] is Some && known_above(
                    window.basis[p]->0.mask,
                    after,
                    p,
                ))
            &&& forall|p: int, at: int|
                0 <= p < after.len() && window.chunks[p] is None && after[p] is Some && 0 <= at
                    < length ==> #[trigger] satisfied(window.basis[p]->0, after, at)
        }),
{
    let after = window.solved().chunks;
    let n = window.chunks.len();
    lemma_solved_keeps(window);
    lemma_solved_from_sized(window, 0, length);
    assert forall|p: int| 0 <= p < n && window.chunks[p] is None implies ((#[trigger] after[p])
        is Some <==> window.basis[p] is Some && known_above(
        window.basis[p]->0.mask,
        after,
        p,
    )) by {
        lemma_solved_at(window, p as nat);
    }
    assert forall|p: int, at: int|
        0 <= p < n && window.chunks[p] is None && after[p] is Some && 0 <= at
            < length implies #[trigger] satisfied(window.basis[p]->0, after, at) by {
        lemma_solved_at(window, p as nat);
        let equation = window.basis[p]->0;
        let pivot = p as nat;
        let later = window.solved_from(pivot + 1);
        lemma_solved_from_stable(window, 0, pivot + 1);
        lemma_solved_from_sized(window, pivot + 1, length);
        assert forall|i: int| pivot + 1 <= i < n && has_bit(equation.mask, i as nat) implies (
        #[trigger] later[i]) is Some && later[i]->0.len() == equation.payload.len() by {
            law_masks_select_by_their_bits(equation.mask, i as nat);
            assert(after[i] == later[i]);
            assert(window.basis[p] is Some);
        }
        assert(window.basis[p] is Some);
        lemma_substituted_byte(equation.payload, equation.mask, later, pivot + 1, n, at);
        assert forall|i: int| pivot + 1 <= i < n implies #[trigger] later[i] == after[i] by {
            assert(after[i] == later[i]);
        }
        lemma_selected_byte_agrees(later, after, equation.mask, pivot + 1, n, at);
        lemma_selected_byte_pivot(after, equation.mask, pivot, n, at);
        let c = selected_byte(after, equation.mask, pivot + 1, n, at);
        let x = equation.payload[at];
        assert(c ^ (x ^ c) == x) by (bit_vector);
    }
}

/// What back substitution makes of one chunk.
proof fn lemma_solved_at(window: WindowView, pivot: nat)
    requires
        window.wf(),
        pivot < window.chunks.len(),
        window.chunks[pivot as int] is None,
    ensures
        ({
            let after = window.solved().chunks;
            let later = window.solved_from(pivot + 1);
            let equation = window.basis[pivot as int];
            &&& after[pivot as int] is Some <==> equation is Some && known_above(
                equation->0.mask,
                after,
                pivot as int,
            )
            &&& after[pivot as int] is Some ==> after[pivot as int] == Some(
                substituted(
                    equation->0.payload,
                    equation->0.mask,
                    later,
                    pivot + 1,
                    window.chunks.len(),
                ),
            )
        }),
{
    let after = window.solved().chunks;
    let later = window.solved_from(pivot + 1);
    lemma_solved_from_below(window, pivot + 1);
    lemma_solved_from_stable(window, 0, pivot);
    lemma_solved_from_stable(window, 0, pivot + 1);
    assert(later[pivot as int] is None);
    assert(after[pivot as int] == window.solved_from(pivot)[pivot as int]);
    if let Some(equation) = window.basis[pivot as int] {
        assert(resolvable(equation.mask, later, pivot) <==> known_above(
            equation.mask,
            after,
            pivot as int,
        )) by {
            assert forall|bit: int| pivot < bit < after.len() implies (has_bit(
                equation.mask,
                bit as nat,
            ) <==> (equation.mask >> (bit as u32)) & 1 == 1) && #[trigger] after[bit]
                == later[bit] by {
                law_masks_select_by_their_bits(equation.mask, bit as nat);
            }
            if resolvable(equation.mask, later, pivot) {
                assert forall|bit: int|
                    pivot < bit < after.len() && (equation.mask >> (bit as u32)) & 1
                        == 1 implies (#[trigger] after[bit]) is Some by {
                    assert(later[bit] is Some);
                }
            }
            if known_above(equation.mask, after, pivot as int) {
                assert forall|bit: int|
                    pivot < bit < later.len() && has_bit(equation.mask, bit as nat) implies (
                #[trigger] later[bit]) is Some by {
                    assert(after[bit] is Some);
                }
            }
        }
    }
}

/// The masks of single chunks, one for each, leave nothing open.
pub proof fn law_single_masks_determine(masks: Set<u32>, width: nat)
    requires
        width <= 32,
        forall|i: nat| i < width ==> #[trigger] masks.contains(1u32 << (i as u32)),
    ensures
        determined(masks, width),
{
    assert forall|pattern: Seq<bool>|
        pattern.len() == width && #[trigger] even_with_all(masks, pattern) implies forall|i: int|
        0 <= i < width ==> !#[trigger] pattern[i] by {
        assert forall|i: int| 0 <= i < width implies !#[trigger] pattern[i] by {
            let unit = 1u32 << (i as nat as u32);
            assert(masks.contains(unit));
            lemma_unit_overlap(i as nat, pattern, width);
        }
    }
}

/// A single-chunk mask selects that chunk only.
pub proof fn lemma_unit_bits(at: nat, bit: nat)
    requires
        at < 32,
        bit < 32,
    ensures
        has_bit(1u32 << (at as u32), bit) == (at == bit),
{
    let a = at as u32;
    let b = bit as u32;
    assert(a < 32 && b < 32 ==> (((1u32 << a) & (1u32 << b)) != 0) == (a == b)) by (bit_vector);
}

proof fn lemma_unit_overlap(at: nat, pattern: Seq<bool>, count: nat)
    requires
        at < 32,
        count <= 32,
        count <= pattern.len(),
    ensures
        odd_overlap(1u32 << (at as u32), pattern, count) == (at < count && pattern[at as int]),
    decreases count,
{
    if count > 0 {
        lemma_unit_overlap(at, pattern, (count - 1) as nat);
        lemma_unit_bits(at, (count - 1) as nat);
    }
}

} // verus!
