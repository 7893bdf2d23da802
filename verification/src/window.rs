//! One window of the fountain transport: equations over at most 32 source
//! chunks, kept in echelon form, and the chunks that are solved so far.

use crate::bytes::{xor_bytes, xor_into};
use vstd::prelude::*;

verus! {

/// Whether a mask selects chunk `bit` of its window.
pub open spec fn has_bit(mask: u32, bit: nat) -> bool {
    mask & (1u32 << (bit as u32)) != 0
}

/// An equation: the exclusive or of the chunks that the mask selects is the
/// payload.
pub struct EquationView {
    pub mask: u32,
    pub payload: Seq<u8>,
}

/// The sum of two equations.
pub open spec fn combined(a: EquationView, b: EquationView) -> EquationView {
    EquationView { mask: a.mask ^ b.mask, payload: xor_bytes(a.payload, b.payload) }
}

/// A window: one equation at most for each pivot, and the chunks known.
#[verifier::ext_equal]
pub struct WindowView {
    pub basis: Seq<Option<EquationView>>,
    pub chunks: Seq<Option<Seq<u8>>>,
}

/// Echelon form, over no more chunks than a mask has bits: the equation at a
/// pivot selects that chunk and none below.
pub open spec fn echelon(basis: Seq<Option<EquationView>>) -> bool {
    &&& basis.len() <= 32
    &&& forall|p: int|
        0 <= p < basis.len() && (#[trigger] basis[p]) is Some ==> {
            &&& has_bit(basis[p]->0.mask, p as nat)
            &&& forall|q: nat| q < p ==> !#[trigger] has_bit(basis[p]->0.mask, q)
        }
}

/// Where an equation comes to rest, and in what form: from `pivot` on, each bit
/// that it has in common with a pivot is cleared by adding the equation kept
/// there, until a bit has no equation yet. `None` if no bit is left: the
/// equation follows from those that are kept.
pub open spec fn settled(
    basis: Seq<Option<EquationView>>,
    equation: EquationView,
    pivot: nat,
) -> Option<(nat, EquationView)>
    decreases basis.len() - pivot,
{
    if pivot >= basis.len() {
        None
    } else if !has_bit(equation.mask, pivot) {
        settled(basis, equation, pivot + 1)
    } else {
        match basis[pivot as int] {
            None => Some((pivot, equation)),
            Some(kept) => settled(basis, combined(equation, kept), pivot + 1),
        }
    }
}

/// A payload with the known chunks from `low` up to `high` that the mask selects
/// mixed in.
pub open spec fn substituted(
    payload: Seq<u8>,
    mask: u32,
    chunks: Seq<Option<Seq<u8>>>,
    low: nat,
    high: nat,
) -> Seq<u8>
    decreases high,
{
    if high <= low {
        payload
    } else {
        let bit = (high - 1) as nat;
        let before = substituted(payload, mask, chunks, low, bit);
        if has_bit(mask, bit) {
            xor_bytes(before, chunks[bit as int]->0)
        } else {
            before
        }
    }
}

/// Whether every chunk above `pivot` that the mask selects is known.
pub open spec fn resolvable(mask: u32, chunks: Seq<Option<Seq<u8>>>, pivot: nat) -> bool {
    forall|bit: int|
        pivot < bit < chunks.len() && has_bit(mask, bit as nat) ==> (#[trigger] chunks[bit]) is Some
}

/// How many chunks are known.
pub open spec fn known(chunks: Seq<Option<Seq<u8>>>) -> nat
    decreases chunks.len(),
{
    if chunks.len() == 0 {
        0
    } else {
        known(chunks.drop_last()) + (if chunks.last() is Some {
            1nat
        } else {
            0nat
        })
    }
}

impl WindowView {
    /// A window of `width` chunks of which nothing is known.
    pub open spec fn empty(width: nat) -> WindowView {
        WindowView {
            basis: Seq::new(width, |i: int| None),
            chunks: Seq::new(width, |i: int| None),
        }
    }

    /// The window with one more equation.
    pub open spec fn added(self, equation: EquationView) -> WindowView {
        match settled(self.basis, equation, 0) {
            None => self,
            Some((pivot, form)) => WindowView {
                basis: self.basis.update(pivot as int, Some(form)),
                chunks: self.chunks,
            },
        }
    }

    /// The window after a chunk arrived as it is. A chunk that is known already
    /// stays.
    pub open spec fn learned(self, local: nat, chunk: Seq<u8>) -> WindowView {
        if self.chunks[local as int] is None {
            WindowView { chunks: self.chunks.update(local as int, Some(chunk)), ..self }
        } else {
            self
        }
    }

    /// The chunks after back substitution from the highest pivot down to
    /// `pivot`: an unknown chunk becomes known where its equation selects, above
    /// it, only chunks that are known.
    pub open spec fn solved_from(self, pivot: nat) -> Seq<Option<Seq<u8>>>
        decreases self.chunks.len() - pivot,
    {
        if pivot >= self.chunks.len() {
            self.chunks
        } else {
            let later = self.solved_from(pivot + 1);
            match self.basis[pivot as int] {
                None => later,
                Some(equation) => if later[pivot as int] is None && resolvable(
                    equation.mask,
                    later,
                    pivot,
                ) {
                    later.update(
                        pivot as int,
                        Some(
                            substituted(
                                equation.payload,
                                equation.mask,
                                later,
                                pivot + 1,
                                self.chunks.len(),
                            ),
                        ),
                    )
                } else {
                    later
                },
            }
        }
    }

    /// The window after back substitution.
    pub open spec fn solved(self) -> WindowView {
        WindowView { basis: self.basis, chunks: self.solved_from(0) }
    }

    /// A chunk for each pivot, and the equations in echelon form.
    pub open spec fn wf(self) -> bool {
        self.chunks.len() == self.basis.len() && echelon(self.basis)
    }
}

// ---------------------------------------------------------------------------
// Executable windows

/// An equation over the chunks of a window.
#[derive(Debug)]
pub struct FountainEquation {
    pub mask: u32,
    pub payload: Vec<u8>,
}

impl View for FountainEquation {
    type V = EquationView;

    open spec fn view(&self) -> EquationView {
        EquationView { mask: self.mask, payload: self.payload@ }
    }
}

/// The equations and the known chunks of one window.
#[derive(Debug)]
pub struct FountainWindow {
    pub width: usize,
    pub basis: Vec<Option<FountainEquation>>,
    pub chunks: Vec<Option<Vec<u8>>>,
}

pub open spec fn equation_views(list: Seq<Option<FountainEquation>>) -> Seq<Option<EquationView>> {
    Seq::new(
        list.len(),
        |i: int|
            match list[i] {
                None => None,
                Some(equation) => Some(equation@),
            },
    )
}

pub open spec fn chunk_views(list: Seq<Option<Vec<u8>>>) -> Seq<Option<Seq<u8>>> {
    Seq::new(
        list.len(),
        |i: int|
            match list[i] {
                None => None,
                Some(chunk) => Some(chunk@),
            },
    )
}

impl View for FountainWindow {
    type V = WindowView;

    open spec fn view(&self) -> WindowView {
        WindowView { basis: equation_views(self.basis@), chunks: chunk_views(self.chunks@) }
    }
}

/// Whether a mask selects a chunk.
pub fn selects(mask: u32, bit: usize) -> (yes: bool)
    requires
        bit < 32,
    ensures
        yes == has_bit(mask, bit as nat),
{
    mask & (1u32 << (bit as u32)) != 0
}

proof fn lemma_known_update(chunks: Seq<Option<Seq<u8>>>, i: int, value: Option<Seq<u8>>)
    requires
        0 <= i < chunks.len(),
        chunks[i] is None,
        value is Some,
    ensures
        known(chunks.update(i, value)) == known(chunks) + 1,
    decreases chunks.len(),
{
    let changed = chunks.update(i, value);
    if i == chunks.len() - 1 {
        assert(changed.drop_last() =~= chunks.drop_last());
    } else {
        assert(changed.drop_last() =~= chunks.drop_last().update(i, value));
        lemma_known_update(chunks.drop_last(), i, value);
    }
}

/// Counting what is known counts each chunk once.
pub proof fn law_known_chunks_are_counted(chunks: Seq<Option<Seq<u8>>>, more: Option<Seq<u8>>)
    ensures
        known(Seq::empty()) == 0,
        known(chunks.push(more)) == known(chunks) + (if more is Some {
            1nat
        } else {
            0nat
        }),
{
    assert(chunks.push(more).drop_last() =~= chunks);
}

impl FountainWindow {
    pub open spec fn wf(&self) -> bool {
        &&& self.basis@.len() == self.width
        &&& self@.wf()
    }

    /// A window of `width` unknown chunks.
    pub fn new(width: usize) -> (window: FountainWindow)
        requires
            width <= 32,
        ensures
            window.wf(),
            window.width == width,
            window@ == WindowView::empty(width as nat),
    {
        let mut basis: Vec<Option<FountainEquation>> = Vec::new();
        let mut chunks: Vec<Option<Vec<u8>>> = Vec::new();
        let mut i: usize = 0;
        while i < width
            invariant
                i <= width,
                basis@.len() == i,
                chunks@.len() == i,
                forall|j: int| 0 <= j < i ==> #[trigger] basis@[j] is None,
                forall|j: int| 0 <= j < i ==> #[trigger] chunks@[j] is None,
            decreases width - i,
        {
            basis.push(None);
            chunks.push(None);
            i = i + 1;
        }
        let window = FountainWindow { width, basis, chunks };
        assert(window@ =~= WindowView::empty(width as nat));
        window
    }

    /// Adds an equation, and says whether it brings anything new.
    pub fn add_equation(&mut self, equation: FountainEquation) -> (fresh: bool)
        requires
            old(self).wf(),
        ensures
            final(self).wf(),
            final(self).width == old(self).width,
            final(self)@ == old(self)@.added(equation@),
            fresh == (settled(old(self)@.basis, equation@, 0) is Some),
    {
        let mut mask: u32 = equation.mask;
        let mut payload: Vec<u8> = equation.payload;
        let mut pivot: usize = 0;
        let ghost basis = self@.basis;
        assert(equation@ == EquationView { mask, payload: payload@ });
        while pivot < self.width
            invariant
                pivot <= self.width,
                *self == *old(self),
                self.wf(),
                basis == self@.basis,
                forall|q: nat| q < pivot ==> !#[trigger] has_bit(mask, q),
                settled(basis, equation@, 0) == settled(
                    basis,
                    EquationView { mask, payload: payload@ },
                    pivot as nat,
                ),
            decreases self.width - pivot,
        {
            if selects(mask, pivot) {
                match &self.basis[pivot] {
                    None => {
                        let form = FountainEquation { mask, payload };
                        assert(basis[pivot as int] is None);
                        assert(settled(basis, equation@, 0) == Some((pivot as nat, form@)));
                        self.basis[pivot] = Some(form);
                        assert(self@.basis =~= basis.update(pivot as int, Some(form@)));
                        assert(self@ =~= old(self)@.added(equation@));
                        return true;
                    },
                    Some(kept) => {
                        let ghost before = mask;
                        assert(basis[pivot as int] == Some(kept@));
                        mask = mask ^ kept.mask;
                        xor_into(&mut payload, kept.payload.as_slice());
                        proof {
                            assert forall|q: nat| q < pivot + 1 implies !#[trigger] has_bit(
                                mask,
                                q,
                            ) by {
                                lemma_bit_of_sum(before, kept.mask, q);
                            }
                        }
                    },
                }
            }
            pivot = pivot + 1;
        }
        false
    }

    /// Takes in a chunk that arrived as it is.
    pub fn learn(&mut self, local: usize, chunk: Vec<u8>)
        requires
            old(self).wf(),
            local < old(self).width,
        ensures
            final(self).wf(),
            final(self).width == old(self).width,
            final(self)@ == old(self)@.learned(local as nat, chunk@),
    {
        let ghost before = self@;
        let ghost value = chunk@;
        if self.chunks[local].is_none() {
            self.chunks[local] = Some(chunk);
            assert(self@.chunks =~= before.chunks.update(local as int, Some(value)));
            assert(self@ =~= before.learned(local as nat, value));
        }
    }

    /// Solves what back substitution can solve, and counts what it solved.
    pub fn solve(&mut self) -> (count: usize)
        requires
            old(self).wf(),
        ensures
            final(self).wf(),
            final(self).width == old(self).width,
            final(self)@ == old(self)@.solved(),
            count == known(final(self)@.chunks) - known(old(self)@.chunks),
    {
        let mut count: usize = 0;
        let mut pivot: usize = self.width;
        let ghost start = self@;
        while pivot > 0
            invariant
                pivot <= self.width <= 32,
                self.wf(),
                self.width == old(self).width,
                start == old(self)@,
                start.wf(),
                start.chunks.len() == self.width,
                self@.basis == start.basis,
                self@.chunks == start.solved_from(pivot as nat),
                count <= self.width - pivot,
                count == known(self@.chunks) - known(start.chunks),
            decreases pivot,
        {
            pivot = pivot - 1;
            let ghost later = self@.chunks;
            let found: Option<Vec<u8>> = match &self.basis[pivot] {
                None => None,
                Some(equation) => {
                    assert(start.basis[pivot as int] == Some(equation@));
                    self.back_substitute(equation, pivot)
                },
            };
            assert(self@.chunks[pivot as int] is Some <==> self.chunks@[pivot as int] is Some);
            if let Some(payload) = found {
                if self.chunks[pivot].is_none() {
                    let ghost value = payload@;
                    self.chunks[pivot] = Some(payload);
                    count = count + 1;
                    assert(self@.chunks =~= later.update(pivot as int, Some(value)));
                    proof {
                        lemma_known_update(later, pivot as int, Some(value));
                    }
                }
            }
            assert(self@.chunks =~= start.solved_from(pivot as nat));
        }
        count
    }

    /// The value that an equation gives its pivot, if the chunks above it that it
    /// selects are known.
    fn back_substitute(&self, equation: &FountainEquation, pivot: usize) -> (value: Option<Vec<u8>>)
        requires
            self.wf(),
            pivot < self.width,
        ensures
            value is Some <==> resolvable(equation.mask, self@.chunks, pivot as nat),
            value matches Some(v) ==> v@ == substituted(
                equation.payload@,
                equation.mask,
                self@.chunks,
                (pivot + 1) as nat,
                self.width as nat,
            ),
    {
        let mut payload: Vec<u8> = vstd::slice::slice_to_vec(equation.payload.as_slice());
        let mut bit: usize = pivot + 1;
        while bit < self.width
            invariant
                self.wf(),
                pivot < bit <= self.width <= 32,
                payload@ == substituted(
                    equation.payload@,
                    equation.mask,
                    self@.chunks,
                    (pivot + 1) as nat,
                    bit as nat,
                ),
                forall|b: int|
                    pivot < b < bit && has_bit(equation.mask, b as nat) ==> (
                    #[trigger] self@.chunks[b]) is Some,
            decreases self.width - bit,
        {
            if selects(equation.mask, bit) {
                match &self.chunks[bit] {
                    None => {
                        assert(self@.chunks[bit as int] is None);
                        return None;
                    },
                    Some(chunk) => {
                        assert(self@.chunks[bit as int] == Some(chunk@));
                        xor_into(&mut payload, chunk.as_slice());
                    },
                }
            }
            bit = bit + 1;
        }
        Some(payload)
    }

    /// Whether a chunk is known.
    pub fn is_known(&self, local: usize) -> (yes: bool)
        requires
            self.wf(),
        ensures
            yes == (local < self.width && self@.chunks[local as int] is Some),
    {
        local < self.chunks.len() && self.chunks[local].is_some()
    }
}

/// The bits of a sum of masks.
pub proof fn lemma_bit_of_sum(a: u32, b: u32, bit: nat)
    requires
        bit < 32,
    ensures
        has_bit(a ^ b, bit) == (has_bit(a, bit) != has_bit(b, bit)),
{
    let k = bit as u32;
    assert(k < 32 ==> (((a ^ b) & (1u32 << k)) != 0) == ((a & (1u32 << k) != 0) != (b & (1u32 << k)
        != 0))) by (bit_vector);
}

} // verus!
