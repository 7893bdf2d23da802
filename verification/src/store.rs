//! Packets kept by their index, and how many there are.

use crate::transfer::joined;
use std::collections::HashMap;
use vstd::prelude::*;

verus! {

/// The bytes kept under each index.
pub open spec fn byte_views(map: Map<usize, Vec<u8>>) -> Map<usize, Seq<u8>> {
    map.map_values(|v: Vec<u8>| v@)
}

/// The text kept under each index.
pub open spec fn text_views(map: Map<usize, String>) -> Map<usize, Seq<char>> {
    map.map_values(|v: String| v@)
}

/// The bytes of each packet of a list.
pub open spec fn packet_views(list: Seq<Vec<u8>>) -> Seq<Seq<u8>> {
    list.map_values(|packet: Vec<u8>| packet@)
}

/// What is kept under the first `count` indices, in order.
pub open spec fn in_order<A>(map: Map<usize, Seq<A>>, count: nat) -> Seq<Seq<A>> {
    Seq::new(count, |i: int| map[i as usize])
}

/// The bytes of a file that may have been handed out.
pub open spec fn file_view(file: Option<Vec<u8>>) -> Option<Seq<u8>> {
    match file {
        Some(bytes) => Some(bytes@),
        None => None,
    }
}

/// How many entries are set.
pub open spec fn count_set(list: Seq<bool>) -> nat
    decreases list.len(),
{
    if list.len() == 0 {
        0
    } else {
        count_set(list.drop_last()) + (if list.last() {
            1nat
        } else {
            0nat
        })
    }
}

/// Which of the first `count` indices occur.
pub open spec fn present(keys: Set<usize>, count: nat) -> Seq<bool> {
    Seq::new(count, |i: int| keys.contains(i as usize))
}

/// Whether all of the first `count` indices occur.
pub open spec fn all_present(keys: Set<usize>, count: nat) -> bool {
    forall|i: usize| i < count ==> #[trigger] keys.contains(i)
}

/// Ones for what is there and zeros for what is missing.
pub open spec fn flags(list: Seq<bool>) -> Seq<u8> {
    list.map_values(
        |there: bool|
            if there {
                1u8
            } else {
                0u8
            },
    )
}

/// Only finitely many indices lie below a bound.
pub proof fn lemma_bounded_finite(keys: Set<usize>, count: nat)
    requires
        count <= usize::MAX,
        forall|k: usize| #[trigger] keys.contains(k) ==> k < count,
    ensures
        keys.finite(),
    decreases count,
{
    if count == 0 {
        assert(keys =~= Set::empty());
    } else {
        let last = (count - 1) as usize;
        let rest = keys.remove(last);
        lemma_bounded_finite(rest, (count - 1) as nat);
        assert(keys.contains(last) ==> keys =~= rest.insert(last));
        assert(!keys.contains(last) ==> keys =~= rest);
    }
}

/// No more than `count` indices lie below `count`, and if there are that many,
/// none is missing.
pub proof fn lemma_count(keys: Set<usize>, count: nat)
    requires
        keys.finite(),
        count <= usize::MAX,
        forall|k: usize| #[trigger] keys.contains(k) ==> k < count,
    ensures
        keys.len() <= count,
        keys.len() == count <==> all_present(keys, count),
    decreases count,
{
    if count == 0 {
        assert(keys =~= Set::empty());
    } else {
        let last = (count - 1) as usize;
        let rest = keys.remove(last);
        lemma_count(rest, (count - 1) as nat);
        if keys.len() == count {
            assert(keys.contains(last));
            assert forall|i: usize| i < count implies #[trigger] keys.contains(i) by {
                assert(i != last ==> rest.contains(i));
            }
        }
        if all_present(keys, count) {
            assert(keys.contains(last));
            assert forall|i: usize| i < count - 1 implies #[trigger] rest.contains(i) by {
                assert(keys.contains(i));
            }
        }
    }
}

/// Joining one more entry appends it.
pub proof fn lemma_in_order<A>(map: Map<usize, Seq<A>>, count: nat)
    ensures
        joined(in_order(map, count + 1)) == joined(in_order(map, count)) + map[count as usize],
{
    assert(in_order(map, count + 1).drop_last() =~= in_order(map, count));
}

/// The packet map has as many ones as there are packets, which is what the
/// progress shows.
pub proof fn law_progress_counts_the_map(keys: Set<usize>, count: nat)
    requires
        keys.finite(),
        count <= usize::MAX,
        forall|k: usize| #[trigger] keys.contains(k) ==> k < count,
    ensures
        count_set(present(keys, count)) == keys.len(),
    decreases count,
{
    if count == 0 {
        assert(keys =~= Set::empty());
    } else {
        let last = (count - 1) as usize;
        let rest = keys.remove(last);
        law_progress_counts_the_map(rest, (count - 1) as nat);
        assert(present(keys, count).drop_last() =~= present(rest, (count - 1) as nat));
    }
}

/// The map has a one where something is there and a zero where it is missing, in order.
pub proof fn law_map_shows_ones_and_zeros(list: Seq<bool>)
    ensures
        flags(list).len() == list.len(),
        forall|i: int|
            0 <= i < list.len() ==> #[trigger] flags(list)[i] == (if list[i] {
                1u8
            } else {
                0u8
            }),
{
}

/// What is shown as present are the indices that occur, and all are present exactly if
/// no index is missing.
pub proof fn law_presence_follows_the_keys(keys: Set<usize>, count: nat)
    requires
        count <= usize::MAX,
    ensures
        present(keys, count).len() == count,
        forall|i: usize| i < count ==> #[trigger] present(keys, count)[i as int] == keys.contains(i),
        all_present(keys, count) <==> !present(keys, count).contains(false),
{
    let list = present(keys, count);
    if all_present(keys, count) {
        if list.contains(false) {
            let k = choose|k: int| 0 <= k < list.len() && list[k] == false;
            assert(keys.contains(k as usize));
        }
    } else {
        let i = choose|i: usize| i < count && !(#[trigger] keys.contains(i));
        assert(list[i as int] == false);
    }
}

/// Counting what is set counts each entry once: one more entry adds one if it is set and
/// nothing otherwise.
pub proof fn law_entries_are_counted(list: Seq<bool>, more: bool)
    ensures
        count_set(Seq::empty()) == 0,
        count_set(list.push(more)) == count_set(list) + (if more {
            1nat
        } else {
            0nat
        }),
{
    assert(list.push(more).drop_last() =~= list);
}

/// What is kept comes in the order of the indices.
pub proof fn law_order_is_that_of_the_indices<A>(map: Map<usize, Seq<A>>, count: nat, i: usize)
    requires
        i < count,
    ensures
        in_order(map, count).len() == count,
        in_order(map, count)[i as int] == map[i],
{
}

/// Where more is set, the count is no smaller, and larger if `at` is new.
pub proof fn lemma_count_more(before: Seq<bool>, after: Seq<bool>, at: int)
    requires
        before.len() == after.len(),
        0 <= at < before.len(),
        after[at],
        forall|i: int| 0 <= i < before.len() && #[trigger] before[i] ==> after[i],
    ensures
        count_set(after) >= count_set(before) + (if before[at] {
            0nat
        } else {
            1nat
        }),
    decreases before.len(),
{
    let b = before.drop_last();
    let a = after.drop_last();
    assert forall|i: int| 0 <= i < b.len() && #[trigger] b[i] implies a[i] by {
        assert(before[i]);
    }
    if at < b.len() {
        lemma_count_more(b, a, at);
        assert(before.last() ==> after.last()) by {
            assert(before[before.len() - 1] ==> after[before.len() - 1]);
        }
    } else {
        lemma_count_no_less(b, a);
    }
}

proof fn lemma_count_no_less(before: Seq<bool>, after: Seq<bool>)
    requires
        before.len() == after.len(),
        forall|i: int| 0 <= i < before.len() && #[trigger] before[i] ==> after[i],
    ensures
        count_set(after) >= count_set(before),
    decreases before.len(),
{
    if before.len() > 0 {
        let b = before.drop_last();
        let a = after.drop_last();
        assert forall|i: int| 0 <= i < b.len() && #[trigger] b[i] implies a[i] by {
            assert(before[i]);
        }
        lemma_count_no_less(b, a);
        assert(before[before.len() - 1] ==> after[before.len() - 1]);
    }
}

/// Which of the first `count` indices a map holds.
pub fn presence<V>(map: &HashMap<usize, V>, count: usize) -> (list: Vec<bool>)
    ensures
        list@ == present(map@.dom(), count as nat),
{
    broadcast use vstd::std_specs::hash::group_hash_axioms;

    let mut list: Vec<bool> = Vec::new();
    let mut i: usize = 0;
    while i < count
        invariant
            i <= count,
            list@ == present(map@.dom(), i as nat),
        decreases count - i,
    {
        list.push(map.contains_key(&i));
        i = i + 1;
        assert(list@ =~= present(map@.dom(), i as nat));
    }
    list
}

/// Ones for what is there and zeros for what is missing.
pub fn flag_bytes(list: &Vec<bool>) -> (bytes: Vec<u8>)
    ensures
        bytes@ == flags(list@),
{
    let mut bytes: Vec<u8> = Vec::new();
    let mut i: usize = 0;
    while i < list.len()
        invariant
            i <= list@.len(),
            bytes@ == flags(list@.take(i as int)),
        decreases list@.len() - i,
    {
        bytes.push(
            if list[i] {
                1
            } else {
                0
            },
        );
        i = i + 1;
        assert(bytes@ =~= flags(list@.take(i as int)));
    }
    assert(list@.take(list@.len() as int) =~= list@);
    bytes
}

} // verus!
