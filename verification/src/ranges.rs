//! Missing packets, listed as ranges such as `0-3,8,10-12`.

use crate::chars::{checksum_text, decimal, hex, push_decimal};
use crate::notation::{
    is_decimal, is_digit, is_hex, law_checksum_notation, law_decimal_notation, lemma_parts_next,
    lemma_parts_single, parts, read_decimal, read_hex,
};
use vstd::prelude::*;

verus! {

/// The first position at or after `from` that is present, or the length.
pub open spec fn gap_end(present: Seq<bool>, from: nat) -> nat
    decreases present.len() - from,
{
    if from >= present.len() || present[from as int] {
        from
    } else {
        gap_end(present, from + 1)
    }
}

/// The gaps at or after `from`, each as its first and its last position.
pub open spec fn gaps(present: Seq<bool>, from: nat) -> Seq<(nat, nat)>
    decreases present.len() - from,
{
    if from >= present.len() {
        Seq::empty()
    } else if present[from as int] {
        gaps(present, from + 1)
    } else {
        let end = gap_end(present, from);
        proof {
            lemma_gap_end(present, from);
        }
        seq![(from, (end - 1) as nat)] + gaps(present, end)
    }
}

/// One gap: a single position, or two positions joined by a hyphen.
pub open spec fn gap_text(gap: (nat, nat)) -> Seq<char> {
    if gap.0 == gap.1 {
        decimal(gap.0)
    } else {
        decimal(gap.0).push('-') + decimal(gap.1)
    }
}

/// Each gap after a comma.
pub open spec fn more_gaps_text(list: Seq<(nat, nat)>) -> Seq<char>
    decreases list.len(),
{
    if list.len() == 0 {
        Seq::empty()
    } else {
        seq![','] + gap_text(list[0]) + more_gaps_text(list.drop_first())
    }
}

/// Gaps separated by commas.
pub open spec fn gaps_text(list: Seq<(nat, nat)>) -> Seq<char> {
    if list.len() == 0 {
        Seq::empty()
    } else {
        gap_text(list[0]) + more_gaps_text(list.drop_first())
    }
}

/// The list of missing positions.
pub open spec fn missing_text(present: Seq<bool>) -> Seq<char> {
    gaps_text(gaps(present, 0))
}

/// The request that asks a sender for the missing packets of a transfer.
pub open spec fn request_text(checksum: u64, present: Seq<bool>) -> Seq<char> {
    "REQUEST|"@ + hex(checksum as nat, 16) + seq!['|'] + missing_text(present)
}

/// Whether a position lies in one of the gaps.
pub open spec fn in_gaps(list: Seq<(nat, nat)>, position: nat) -> bool {
    exists|k: int|
        0 <= k < list.len() && (#[trigger] list[k]).0 <= position <= list[k].1
}

/// A gap ends where the next present position is, and not before it begins.
pub proof fn lemma_gap_end(present: Seq<bool>, from: nat)
    requires
        from <= present.len(),
    ensures
        from <= gap_end(present, from) <= present.len(),
        forall|i: int| from <= i < gap_end(present, from) ==> !#[trigger] present[i],
        gap_end(present, from) < present.len() ==> present[gap_end(present, from) as int],
    decreases present.len() - from,
{
    if from < present.len() && !present[from as int] {
        lemma_gap_end(present, from + 1);
    }
}

proof fn lemma_gaps(present: Seq<bool>, from: nat)
    requires
        from <= present.len(),
    ensures
        forall|i: nat|
            in_gaps(gaps(present, from), i) <==> (from <= i < present.len()
                && !#[trigger] present[i as int]),
        forall|k: int|
            0 <= k < gaps(present, from).len() ==> from <= (#[trigger] gaps(present, from)[k]).0
                <= gaps(present, from)[k].1 < present.len(),
        forall|k: int|
            #![trigger gaps(present, from)[k]]
            0 <= k < gaps(present, from).len() - 1 ==> gaps(present, from)[k].1 + 1 < gaps(
                present,
                from,
            )[k + 1].0,
    decreases present.len() - from,
{
    let list = gaps(present, from);
    if from >= present.len() {
    } else if present[from as int] {
        lemma_gaps(present, from + 1);
    } else {
        lemma_gap_end(present, from);
        let end = gap_end(present, from);
        assert(end > from);
        lemma_gaps(present, end);
        let rest = gaps(present, end);
        assert(list == seq![(from, (end - 1) as nat)] + rest);
        assert forall|i: nat|
            in_gaps(list, i) <==> (from <= i < present.len() && !#[trigger] present[i as int]) by {
            if in_gaps(list, i) {
                let k = choose|k: int|
                    0 <= k < list.len() && (#[trigger] list[k]).0 <= i <= list[k].1;
                if k > 0 {
                    assert(list[k] == rest[k - 1]);
                    assert(in_gaps(rest, i));
                }
            } else if from <= i < present.len() && !present[i as int] {
                if i < end {
                    assert(list[0].0 <= i <= list[0].1);
                } else {
                    assert(in_gaps(rest, i));
                    let k = choose|k: int|
                        0 <= k < rest.len() && (#[trigger] rest[k]).0 <= i <= rest[k].1;
                    assert(list[k + 1] == rest[k]);
                }
            }
        }
        assert forall|k: int| 0 <= k < list.len() implies from <= (#[trigger] list[k]).0
            <= list[k].1 < present.len() by {
            if k > 0 {
                assert(list[k] == rest[k - 1]);
            }
        }
        assert forall|k: int| #![trigger list[k]] 0 <= k < list.len() - 1 implies list[k].1 + 1
            < list[k + 1].0 by {
            assert(list[k + 1] == rest[k]);
            if k > 0 {
                assert(list[k] == rest[k - 1]);
                assert(rest[k - 1].1 + 1 < rest[k - 1 + 1].0);
            } else {
                let first = rest[0].0;
                assert(in_gaps(rest, first));
                assert(!present[first as int]);
                assert(present[end as int]);
            }
        }
    }
}

/// The ranges of a request list every missing position and no other. They come
/// in increasing order, and a present position lies between any two.
pub proof fn law_ranges_list_what_is_missing(present: Seq<bool>)
    ensures
        forall|i: nat|
            in_gaps(gaps(present, 0), i) <==> (i < present.len()
                && !#[trigger] present[i as int]),
        forall|k: int|
            0 <= k < gaps(present, 0).len() ==> (#[trigger] gaps(present, 0)[k]).0 <= gaps(
                present,
                0,
            )[k].1 < present.len(),
        forall|k: int|
            #![trigger gaps(present, 0)[k]]
            0 <= k < gaps(present, 0).len() - 1 ==> gaps(present, 0)[k].1 + 1 < gaps(
                present,
                0,
            )[k + 1].0,
{
    lemma_gaps(present, 0);
}

/// Nothing is listed exactly if nothing is missing.
pub proof fn law_no_ranges_when_complete(present: Seq<bool>)
    ensures
        missing_text(present).len() == 0 <==> forall|i: int|
            0 <= i < present.len() ==> #[trigger] present[i],
{
    lemma_gaps(present, 0);
    let list = gaps(present, 0);
    if list.len() > 0 {
        crate::chars::lemma_decimal_read(list[0].0, list[0].0);
        assert(missing_text(present).len() > 0);
        let first = list[0].0;
        assert(in_gaps(list, first));
        assert(!present[first as int]);
    } else {
        assert forall|i: int| 0 <= i < present.len() implies #[trigger] present[i] by {
            if !present[i] {
                assert(present[(i as nat) as int] == present[i]);
                assert(in_gaps(list, i as nat));
            }
        }
    }
}

// ---------------------------------------------------------------------------
// Reading the list

/// The first and the last position that an item of the list names: the number before
/// its hyphen and the number after it, or the one number that it holds.
pub open spec fn read_item(item: Seq<char>) -> (int, int) {
    (read_decimal(parts(item, '-')[0]), read_decimal(parts(item, '-').last()))
}

/// The items of a list, that is what stands between its commas; an empty list has
/// none.
pub open spec fn items(text: Seq<char>) -> Seq<Seq<char>> {
    if text.len() == 0 {
        Seq::empty()
    } else {
        parts(text, ',')
    }
}

/// Whether a position is named by an item of a list.
pub open spec fn names(text: Seq<char>, position: int) -> bool {
    exists|k: int|
        0 <= k < items(text).len() && read_item(#[trigger] items(text)[k]).0 <= position
            <= read_item(items(text)[k]).1
}

/// Whether an item is well written: one number, or a smaller and a larger one with a
/// hyphen between them.
pub open spec fn well_written(item: Seq<char>) -> bool {
    let numbers = parts(item, '-');
    &&& forall|k: int| 0 <= k < numbers.len() ==> is_decimal(#[trigger] numbers[k])
    &&& numbers.len() == 1 || (numbers.len() == 2 && read_item(item).0 < read_item(item).1)
}

proof fn lemma_decimal_is_plain(value: nat)
    ensures
        is_decimal(decimal(value)),
        read_decimal(decimal(value)) == value,
        !decimal(value).contains('-'),
        !decimal(value).contains(','),
{
    law_decimal_notation(value);
    let text = decimal(value);
    assert forall|c: char| c == '-' || c == ',' implies !text.contains(c) by {
        if text.contains(c) {
            let k = choose|k: int| 0 <= k < text.len() && text[k] == c;
            assert(is_digit(text[k]));
        }
    }
}

/// An item reads as the gap that it was written for.
proof fn lemma_gap_read(gap: (nat, nat))
    requires
        gap.0 <= gap.1,
    ensures
        well_written(gap_text(gap)),
        read_item(gap_text(gap)) == (gap.0 as int, gap.1 as int),
        gap_text(gap).len() > 0,
        !gap_text(gap).contains(','),
{
    lemma_decimal_is_plain(gap.0);
    lemma_decimal_is_plain(gap.1);
    let (a, b) = (decimal(gap.0), decimal(gap.1));
    let text = gap_text(gap);
    if gap.0 == gap.1 {
        lemma_parts_single(a, '-');
    } else {
        assert(text =~= a + seq!['-'] + b);
        lemma_parts_single(a, '-');
        lemma_parts_next(a, b, '-');
        assert(parts(text, '-') =~= seq![a, b]);
        if text.contains(',') {
            let k = choose|k: int| 0 <= k < text.len() && text[k] == ',';
            if k < a.len() {
                assert(a[k] == ',');
            } else if k > a.len() {
                assert(b[k - a.len() - 1] == ',');
            }
        }
    }
}

/// Further gaps add further items.
proof fn lemma_more_items(text: Seq<char>, list: Seq<(nat, nat)>)
    requires
        forall|k: int| 0 <= k < list.len() ==> (#[trigger] list[k]).0 <= list[k].1,
    ensures
        parts(text + more_gaps_text(list), ',') == parts(text, ',') + list.map_values(
            |gap: (nat, nat)| gap_text(gap),
        ),
    decreases list.len(),
{
    let written = list.map_values(|gap: (nat, nat)| gap_text(gap));
    if list.len() == 0 {
        assert(text + more_gaps_text(list) =~= text);
        assert(parts(text, ',') + written =~= parts(text, ','));
    } else {
        let first = gap_text(list[0]);
        let rest = list.drop_first();
        lemma_gap_read(list[0]);
        assert forall|k: int| 0 <= k < rest.len() implies (#[trigger] rest[k]).0 <= rest[k].1 by {
            assert(rest[k] == list[k + 1]);
        }
        lemma_parts_next(text, first, ',');
        lemma_more_items(text + seq![','] + first, rest);
        assert(text + more_gaps_text(list) =~= text + seq![','] + first + more_gaps_text(rest));
        assert(parts(text, ',').push(first) + rest.map_values(|gap: (nat, nat)| gap_text(gap))
            =~= parts(text, ',') + written);
    }
}

/// The items of the list are the gaps, in order.
proof fn lemma_items(list: Seq<(nat, nat)>)
    requires
        forall|k: int| 0 <= k < list.len() ==> (#[trigger] list[k]).0 <= list[k].1,
    ensures
        items(gaps_text(list)) == list.map_values(|gap: (nat, nat)| gap_text(gap)),
{
    let written = list.map_values(|gap: (nat, nat)| gap_text(gap));
    if list.len() == 0 {
        assert(written =~= Seq::<Seq<char>>::empty());
    } else {
        let first = gap_text(list[0]);
        let rest = list.drop_first();
        lemma_gap_read(list[0]);
        assert forall|k: int| 0 <= k < rest.len() implies (#[trigger] rest[k]).0 <= rest[k].1 by {
            assert(rest[k] == list[k + 1]);
        }
        lemma_parts_single(first, ',');
        lemma_more_items(first, rest);
        assert(seq![first] + rest.map_values(|gap: (nat, nat)| gap_text(gap)) =~= written);
    }
}

/// The list can be read back: split at the commas and at the hyphens it names exactly
/// the missing positions. It is as short as can be: each item reaches as far as
/// positions are missing, items come in increasing order, and each is well written.
pub proof fn law_list_names_what_is_missing(present: Seq<bool>)
    ensures
        forall|position: int|
            #![trigger names(missing_text(present), position)]
            names(missing_text(present), position) <==> 0 <= position < present.len()
                && !present[position],
        forall|k: int|
            #![trigger items(missing_text(present))[k]]
            0 <= k < items(missing_text(present)).len() ==> {
                let item = items(missing_text(present))[k];
                let (first, last) = read_item(item);
                &&& well_written(item)
                &&& 0 <= first <= last < present.len()
                &&& first > 0 ==> present[first - 1]
                &&& last + 1 < present.len() ==> present[last + 1]
                &&& k > 0 ==> read_item(items(missing_text(present))[k - 1]).1 < first
            },
{
    lemma_gaps(present, 0);
    let list = gaps(present, 0);
    let text = missing_text(present);
    lemma_items(list);
    let written = items(text);
    assert forall|k: int| 0 <= k < list.len() implies read_item(#[trigger] written[k]) == (
        list[k].0 as int,
        list[k].1 as int,
    ) && well_written(written[k]) by {
        lemma_gap_read(list[k]);
    }
    assert forall|position: int| #[trigger] names(text, position) <==> 0 <= position
        < present.len() && !present[position] by {
        if names(text, position) {
            let k = choose|k: int|
                0 <= k < written.len() && read_item(#[trigger] written[k]).0 <= position
                    <= read_item(written[k]).1;
            assert(list[k].0 <= position <= list[k].1);
            assert(in_gaps(list, position as nat));
            assert(!present[(position as nat) as int]);
        } else if 0 <= position < present.len() && !present[position] {
            assert(!present[(position as nat) as int]);
            assert(in_gaps(list, position as nat));
            let k = choose|k: int|
                0 <= k < list.len() && (#[trigger] list[k]).0 <= position <= list[k].1;
            assert(read_item(written[k]).0 <= position <= read_item(written[k]).1);
        }
    }
    assert forall|k: int| #![trigger written[k]] 0 <= k < written.len() implies {
        let (first, last) = read_item(written[k]);
        &&& well_written(written[k])
        &&& 0 <= first <= last < present.len()
        &&& first > 0 ==> present[first - 1]
        &&& last + 1 < present.len() ==> present[last + 1]
        &&& k > 0 ==> read_item(written[k - 1]).1 < first
    } by {
        let (first, last) = list[k];
        assert(read_item(written[k]) == (first as int, last as int));
        if k > 0 {
            assert(read_item(written[k - 1]) == (list[k - 1].0 as int, list[k - 1].1 as int));
            assert(list[k - 1].1 + 1 < list[k - 1 + 1].0);
        }
        if first > 0 && !present[first - 1] {
            lemma_gap_bounds(present, k, (first - 1) as nat);
        }
        if last + 1 < present.len() && !present[(last + 1) as int] {
            lemma_gap_bounds(present, k, last + 1);
        }
    }
}

/// A missing position just before or just after a gap would belong to it.
proof fn lemma_gap_bounds(present: Seq<bool>, k: int, position: nat)
    requires
        0 <= k < gaps(present, 0).len(),
        position < present.len(),
        position + 1 == gaps(present, 0)[k].0 || position == gaps(present, 0)[k].1 + 1,
    ensures
        present[position as int],
{
    lemma_gaps(present, 0);
    let list = gaps(present, 0);
    if !present[position as int] {
        assert(in_gaps(list, position));
        let j = choose|j: int| 0 <= j < list.len() && (#[trigger] list[j]).0 <= position
            <= list[j].1;
        if j < k {
            lemma_gaps_apart(present, j, k);
        } else if j > k {
            lemma_gaps_apart(present, k, j);
        }
    }
}

proof fn lemma_gaps_apart(present: Seq<bool>, j: int, k: int)
    requires
        0 <= j < k < gaps(present, 0).len(),
    ensures
        gaps(present, 0)[j].1 + 1 < gaps(present, 0)[k].0,
    decreases k - j,
{
    lemma_gaps(present, 0);
    let list = gaps(present, 0);
    assert(list[k - 1].1 + 1 < list[k - 1 + 1].0);
    if j < k - 1 {
        lemma_gaps_apart(present, j, k - 1);
        assert(list[k - 1].0 <= list[k - 1].1);
    }
}

/// A request is the word, the checksum in sixteen hexadecimal digits, and the list of
/// what is missing, separated by bars.
pub proof fn law_request_can_be_read(checksum: u64, present: Seq<bool>)
    ensures
        ({
            let text = request_text(checksum, present);
            let sum = text.subrange(8, 24);
            &&& text.len() >= 25
            &&& text.take(8) == seq!['R', 'E', 'Q', 'U', 'E', 'S', 'T', '|']
            &&& is_hex(sum)
            &&& read_hex(sum) == checksum
            &&& text[24] == '|'
            &&& text.skip(25) == missing_text(present)
        }),
{
    reveal_strlit("REQUEST|");
    law_checksum_notation(checksum);
    let text = request_text(checksum, present);
    assert(text.take(8) =~= seq!['R', 'E', 'Q', 'U', 'E', 'S', 'T', '|']);
    assert(text.subrange(8, 24) =~= hex(checksum as nat, 16));
    assert(text.skip(25) =~= missing_text(present));
}

/// Lists the missing positions.
pub fn missing_list(present: &Vec<bool>) -> (text: String)
    ensures
        text@ == missing_text(present@),
{
    let mut text: String = String::new();
    let mut any: bool = false;
    let mut index: usize = 0;
    while index < present.len()
        invariant
            index <= present@.len(),
            !any ==> text@.len() == 0 && gaps(present@, 0) == gaps(present@, index as nat),
            any ==> missing_text(present@) == text@ + more_gaps_text(gaps(present@, index as nat)),
        decreases present@.len() - index,
    {
        if present[index] {
            index = index + 1;
            continue;
        }
        let start: usize = index;
        let ghost before = text@;
        while index < present.len() && !present[index]
            invariant
                start <= index <= present@.len(),
                start < present@.len(),
                !present@[start as int],
                gap_end(present@, start as nat) == gap_end(present@, index as nat),
            decreases present@.len() - index,
        {
            index = index + 1;
        }
        proof {
            lemma_gap_end(present@, start as nat);
            lemma_gap_end(present@, (start + 1) as nat);
        }
        assert(gap_end(present@, start as nat) == index);
        assert(index > start);
        let end: usize = index - 1;
        let ghost list = gaps(present@, start as nat);
        assert(list == seq![(start as nat, end as nat)] + gaps(present@, index as nat));
        assert(list.drop_first() =~= gaps(present@, index as nat));
        if any {
            text.append(",");
            proof {
                reveal_strlit(",");
            }
            assert(text@ =~= before + seq![',']);
        }
        let ghost separated = text@;
        push_decimal(&mut text, start);
        if start != end {
            text.append("-");
            proof {
                reveal_strlit("-");
            }
            push_decimal(&mut text, end);
            assert(text@ =~= separated + gap_text((start as nat, end as nat)));
        }
        assert(text@ =~= separated + gap_text((start as nat, end as nat)));
        proof {
            if any {
                assert(more_gaps_text(list) =~= seq![','] + gap_text(list[0]) + more_gaps_text(
                    list.drop_first(),
                ));
                assert(missing_text(present@) =~= text@ + more_gaps_text(
                    gaps(present@, index as nat),
                ));
            } else {
                assert(missing_text(present@) =~= text@ + more_gaps_text(
                    gaps(present@, index as nat),
                ));
            }
        }
        any = true;
    }
    assert(text@ =~= missing_text(present@));
    text
}

/// Writes the request for the missing packets of a transfer.
pub fn request_packet(checksum: u64, present: &Vec<bool>) -> (text: String)
    ensures
        text@ == request_text(checksum, present@),
{
    let mut text: String = "REQUEST|".to_owned();
    text.append(checksum_text(checksum).as_str());
    text.append("|");
    proof {
        reveal_strlit("|");
    }
    text.append(missing_list(present).as_str());
    assert(text@ =~= request_text(checksum, present@));
    text
}

} // verus!
