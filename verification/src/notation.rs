//! How numbers and lists are written in text, said in terms of reading them: what a
//! reader gets who knows nothing but the usual notation.

use crate::chars::{
    decimal, digit_value, digits_value, fields, fields_from, hex, hex_bytes, is_control, next_bar,
    number, valid_filename, without_plus,
};
use vstd::prelude::*;
use vstd::utf8::*;

verus! {

/// The decimal digits.
pub open spec fn is_digit(c: char) -> bool {
    '0' <= c && c <= '9'
}

/// The hexadecimal digits in lower case.
pub open spec fn is_hex_digit(c: char) -> bool {
    is_digit(c) || ('a' <= c && c <= 'f')
}

/// The characters from the space to the tilde, and those from the no-break space on.
pub open spec fn is_plain(c: char) -> bool {
    (' ' <= c && c <= '~') || '\u{a0}' <= c
}

/// The number that decimal digits stand for.
pub open spec fn read_decimal(text: Seq<char>) -> int
    decreases text.len(),
{
    if text.len() == 0 {
        0
    } else {
        read_decimal(text.drop_last()) * 10 + (text.last() as u32 - '0' as u32)
    }
}

/// What follows the plus sign that a text may begin with.
pub open spec fn after_plus(text: Seq<char>) -> Seq<char> {
    if text.len() > 0 && text[0] == '+' {
        text.skip(1)
    } else {
        text
    }
}

/// Whether every character is a decimal digit.
pub open spec fn all_digits(text: Seq<char>) -> bool {
    forall|i: int| 0 <= i < text.len() ==> is_digit(#[trigger] text[i])
}

/// Whether a text is a number in the usual decimal notation: digits, and no zero in
/// front of others.
pub open spec fn is_decimal(text: Seq<char>) -> bool {
    &&& text.len() > 0
    &&& text.len() > 1 ==> text[0] != '0'
    &&& all_digits(text)
}

/// The number that hexadecimal digits in lower case stand for.
pub open spec fn read_hex(text: Seq<char>) -> int
    decreases text.len(),
{
    if text.len() == 0 {
        0
    } else {
        read_hex(text.drop_last()) * 16 + (if text.last() <= '9' {
            text.last() as u32 - '0' as u32
        } else {
            text.last() as u32 - 'a' as u32 + 10
        })
    }
}

/// Whether a text consists of hexadecimal digits in lower case.
pub open spec fn is_hex(text: Seq<char>) -> bool {
    forall|i: int|
        0 <= i < text.len() ==> is_hex_digit(#[trigger] text[i])
}

/// What stands between the marks of a text.
pub open spec fn parts(text: Seq<char>, mark: char) -> Seq<Seq<char>>
    decreases text.len(),
{
    if text.len() == 0 {
        seq![Seq::empty()]
    } else {
        let before = parts(text.drop_last(), mark);
        if text.last() == mark {
            before.push(Seq::empty())
        } else {
            before.drop_last().push(before.last().push(text.last()))
        }
    }
}

/// There is always a part, and a mark begins a new one.
pub proof fn lemma_parts_mark(text: Seq<char>, mark: char)
    ensures
        parts(text, mark).len() > 0,
        parts(text.push(mark), mark) == parts(text, mark).push(Seq::empty()),
    decreases text.len(),
{
    assert(text.push(mark).drop_last() =~= text);
    if text.len() > 0 {
        lemma_parts_mark(text.drop_last(), mark);
    }
}

/// A text without a mark goes on with the last part.
pub proof fn lemma_parts_plain(text: Seq<char>, more: Seq<char>, mark: char)
    requires
        !more.contains(mark),
    ensures
        parts(text + more, mark) == parts(text, mark).drop_last().push(
            parts(text, mark).last() + more,
        ),
    decreases more.len(),
{
    lemma_parts_mark(text, mark);
    let list = parts(text, mark);
    if more.len() == 0 {
        assert(text + more =~= text);
        assert(list.last() + more =~= list.last());
        assert(list.drop_last().push(list.last()) =~= list);
    } else {
        let rest = more.drop_last();
        assert(!rest.contains(mark)) by {
            if rest.contains(mark) {
                let k = choose|k: int| 0 <= k < rest.len() && rest[k] == mark;
                assert(more[k] == mark);
            }
        }
        lemma_parts_plain(text, rest, mark);
        assert((text + more).drop_last() =~= text + rest);
        assert(more.last() == more[more.len() - 1]);
        assert(more.contains(more.last()));
        let before = parts(text + rest, mark);
        assert(before.drop_last() =~= list.drop_last());
        assert(before.last() == list.last() + rest);
        assert((list.last() + rest).push(more.last()) =~= list.last() + more);
    }
}

/// A mark, and a text without one after it, add a part.
pub proof fn lemma_parts_next(text: Seq<char>, more: Seq<char>, mark: char)
    requires
        !more.contains(mark),
    ensures
        parts(text + seq![mark] + more, mark) == parts(text, mark).push(more),
{
    lemma_parts_mark(text, mark);
    lemma_parts_plain(text.push(mark), more, mark);
    assert(text + seq![mark] + more =~= text.push(mark) + more);
    let list = parts(text, mark);
    assert(list.push(Seq::empty()).drop_last() =~= list);
    assert(Seq::<char>::empty() + more =~= more);
}

/// A text without a mark is one part.
pub proof fn lemma_parts_single(text: Seq<char>, mark: char)
    requires
        !text.contains(mark),
    ensures
        parts(text, mark) == seq![text],
{
    lemma_parts_plain(Seq::empty(), text, mark);
    assert(Seq::<char>::empty() + text =~= text);
    assert(parts(Seq::empty(), mark).drop_last().push(text) =~= seq![text]);
}

// ---------------------------------------------------------------------------
// Numbers

/// A number is written in decimal as anyone would write it.
pub proof fn law_decimal_notation(value: nat)
    ensures
        is_decimal(decimal(value)),
        read_decimal(decimal(value)) == value,
        value > 0 ==> decimal(value)[0] != '0',
    decreases value,
{
    reveal_with_fuel(read_decimal, 2);
    if value < 10 {
        assert(decimal(value).drop_last() =~= Seq::<char>::empty());
    } else {
        law_decimal_notation(value / 10);
        let head = decimal(value / 10);
        assert(decimal(value).drop_last() =~= head);
        assert(decimal(value)[0] == head[0]);
        assert forall|i: int| 0 <= i < decimal(value).len() implies is_digit(
            #[trigger] decimal(value)[i],
        ) by {
            if i < head.len() {
                assert(decimal(value)[i] == head[i]);
            }
        }
    }
}

/// A number is written in hexadecimal with as many digits as asked for, in lower
/// case, zeros in front; of a number with more digits the last ones are written.
pub proof fn law_hex_notation(value: nat, digits: nat)
    ensures
        hex(value, digits).len() == digits,
        is_hex(hex(value, digits)),
        value < vstd::arithmetic::power::pow(16, digits) ==> read_hex(hex(value, digits)) == value,
    decreases digits,
{
    reveal(vstd::arithmetic::power::pow);
    if digits > 0 {
        let rest = (digits - 1) as nat;
        law_hex_notation(value / 16, rest);
        let head = hex(value / 16, rest);
        assert(hex(value, digits).drop_last() =~= head);
        assert forall|i: int| 0 <= i < digits implies is_hex_digit(#[trigger] hex(value, digits)[i]) by {
            if i < head.len() {
                assert(hex(value, digits)[i] == head[i]);
            }
        }
    }
}

/// A checksum is written with sixteen hexadecimal digits.
pub proof fn law_checksum_notation(value: u64)
    ensures
        hex(value as nat, 16).len() == 16,
        is_hex(hex(value as nat, 16)),
        read_hex(hex(value as nat, 16)) == value,
{
    assert(vstd::arithmetic::power::pow(16, 16) == 0x1_0000_0000_0000_0000) by {
        reveal_with_fuel(vstd::arithmetic::power::pow, 17);
    }
    law_hex_notation(value as nat, 16);
}

/// A digest is written with two hexadecimal digits for each byte, in order.
pub proof fn law_digest_notation(bytes: Seq<u8>)
    ensures
        hex_bytes(bytes).len() == 2 * bytes.len(),
        forall|i: int|
            0 <= i < bytes.len() ==> is_hex(#[trigger] hex_bytes(bytes).subrange(2 * i, 2 * i + 2))
                && read_hex(hex_bytes(bytes).subrange(2 * i, 2 * i + 2)) == bytes[i],
    decreases bytes.len(),
{
    if bytes.len() > 0 {
        let rest = bytes.drop_last();
        let head = hex_bytes(rest);
        let pair = hex(bytes.last() as nat, 2);
        law_digest_notation(rest);
        law_hex_notation(bytes.last() as nat, 2);
        assert(vstd::arithmetic::power::pow(16, 2) == 256) by {
            reveal_with_fuel(vstd::arithmetic::power::pow, 3);
        }
        let all = hex_bytes(bytes);
        assert(all == head + pair);
        assert forall|i: int| 0 <= i < bytes.len() implies is_hex(
            #[trigger] all.subrange(2 * i, 2 * i + 2),
        ) && read_hex(all.subrange(2 * i, 2 * i + 2)) == bytes[i] by {
            if i < rest.len() {
                assert(all.subrange(2 * i, 2 * i + 2) =~= head.subrange(2 * i, 2 * i + 2));
            } else {
                assert(all.subrange(2 * i, 2 * i + 2) =~= pair);
            }
        }
    }
}

proof fn lemma_digit(c: char)
    ensures
        digit_value(c) < 10 <==> is_digit(c),
        digit_value(c) < 16 <==> is_hex_digit(c) || ('A' <= c && c <= 'F'),
{
}

proof fn lemma_decimal_value(text: Seq<char>)
    requires
        all_digits(text),
    ensures
        digits_value(text, 10) == read_decimal(text),
    decreases text.len(),
{
    if text.len() > 0 {
        let rest = text.drop_last();
        assert forall|i: int| 0 <= i < rest.len() implies is_digit(#[trigger] rest[i]) by {
            assert(rest[i] == text[i]);
        }
        lemma_decimal_value(rest);
        assert(is_digit(text[text.len() - 1]));
    }
}

proof fn lemma_hex_value(text: Seq<char>)
    requires
        is_hex(text),
    ensures
        digits_value(text, 16) == read_hex(text),
    decreases text.len(),
{
    if text.len() > 0 {
        let rest = text.drop_last();
        assert forall|i: int| 0 <= i < rest.len() implies is_hex_digit(#[trigger] rest[i]) by {
            assert(rest[i] == text[i]);
        }
        lemma_hex_value(rest);
        assert(is_hex_digit(text[text.len() - 1]));
    }
}

/// A count is read from decimal digits, with a plus sign in front or none, zeros in
/// front or none, and from nothing else, as long as it is within the bound.
pub proof fn law_counts_are_read(text: Seq<char>, max: nat)
    ensures
        ({
            let digits = after_plus(text);
            &&& number(text, 10, max) is Some <==> digits.len() > 0 && all_digits(digits)
                && read_decimal(digits) <= max
            &&& number(text, 10, max) matches Some(value) ==> value == read_decimal(digits)
        }),
{
    let digits = without_plus(text);
    assert(after_plus(text) =~= digits);
    if all_digits(digits) {
        lemma_decimal_value(digits);
    }
    assert forall|i: int| 0 <= i < digits.len() implies (digit_value(#[trigger] digits[i]) < 10
        <==> is_digit(digits[i])) by {
        lemma_digit(digits[i]);
    }
    if number(text, 10, max) is Some {
        assert forall|i: int| 0 <= i < digits.len() implies is_digit(#[trigger] digits[i]) by {
            assert(digit_value(digits[i]) < 10);
        }
    }
}

/// A checksum in lower case is read as the number that it stands for, and in upper
/// case as the same number. What holds anything but hexadecimal digits, after a plus
/// sign or none, is not read.
pub proof fn law_checksums_are_read(text: Seq<char>, max: nat)
    ensures
        is_hex(text) && text.len() > 0 ==> (number(text, 16, max) is Some <==> read_hex(text)
            <= max),
        is_hex(text) ==> (number(text, 16, max) matches Some(value) ==> value == read_hex(text)),
        number(text, 16, max) is Some ==> {
            let digits = after_plus(text);
            &&& digits.len() > 0
            &&& forall|i: int|
                0 <= i < digits.len() ==> (is_hex_digit(#[trigger] digits[i]) || ('A' <= digits[i]
                    && digits[i] <= 'F'))
        },
        forall|c: char|
            'A' <= c && c <= 'F' ==> #[trigger] digit_value(c) == digit_value((c as u32 + 32) as char),
        text.len() > 0 && text[0] != '+' ==> number(seq!['+'] + text, 16, max) == number(
            text,
            16,
            max,
        ),
{
    let digits = without_plus(text);
    assert(after_plus(text) =~= digits);
    if is_hex(text) {
        lemma_hex_value(text);
        if text.len() > 0 {
            assert(text[0] != '+') by {
                assert(is_hex_digit(text[0]));
            }
        }
        assert forall|i: int| 0 <= i < text.len() implies digit_value(#[trigger] text[i]) < 16 by {
            assert(is_hex_digit(text[i]));
        }
    }
    if number(text, 16, max) is Some {
        assert forall|i: int| 0 <= i < digits.len() implies (is_hex_digit(#[trigger] digits[i])
            || ('A' <= digits[i] && digits[i] <= 'F')) by {
            lemma_digit(digits[i]);
            assert(digit_value(digits[i]) < 16);
        }
    }
    if text.len() > 0 && text[0] != '+' {
        let signed = seq!['+'] + text;
        assert(without_plus(signed) =~= text);
    }
}

// ---------------------------------------------------------------------------
// Names and fields

/// A file name may be sent if it is there, has at most 255 bytes in UTF-8, and holds
/// no character below the space, no delete, and none of the thirty-two after it.
pub proof fn law_names_that_may_be_sent(name: Seq<char>)
    ensures
        valid_filename(name) <==> {
            &&& name.len() > 0
            &&& encode_utf8(name).len() <= 255
            &&& forall|i: int|
                0 <= i < name.len() ==> is_plain(#[trigger] name[i])
        },
{
    assert forall|i: int| 0 <= i < name.len() implies (!is_control(#[trigger] name[i])
        <==> is_plain(name[i])) by {
        lemma_plain(name[i]);
    }
}

proof fn lemma_plain(c: char)
    ensures
        !is_control(c) <==> is_plain(c),
{
}

/// Fields separated by bars.
pub open spec fn with_bars(list: Seq<Seq<char>>) -> Seq<char>
    decreases list.len(),
{
    if list.len() == 0 {
        Seq::empty()
    } else if list.len() == 1 {
        list[0]
    } else {
        list[0] + seq!['|'] + with_bars(list.drop_first())
    }
}

proof fn lemma_next_bar(text: Seq<char>, from: int)
    requires
        0 <= from <= text.len(),
    ensures
        from <= next_bar(text, from) <= text.len(),
        next_bar(text, from) < text.len() ==> text[next_bar(text, from)] == '|',
        forall|i: int| from <= i < next_bar(text, from) ==> #[trigger] text[i] != '|',
    decreases text.len() - from,
{
    if from < text.len() && text[from] != '|' {
        lemma_next_bar(text, from + 1);
    }
}

proof fn lemma_fields_from(text: Seq<char>, from: int, limit: nat)
    requires
        0 <= from <= text.len(),
        limit >= 1,
    ensures
        ({
            let list = fields_from(text, from, limit);
            &&& 1 <= list.len() <= limit
            &&& with_bars(list) == text.skip(from)
            &&& forall|k: int| 0 <= k < list.len() - 1 ==> !(#[trigger] list[k]).contains('|')
            &&& list.len() < limit ==> !list.last().contains('|')
        }),
    decreases limit,
{
    let bar = next_bar(text, from);
    lemma_next_bar(text, from);
    let list = fields_from(text, from, limit);
    if limit <= 1 || bar >= text.len() {
        assert(list =~= seq![text.subrange(from, text.len() as int)]);
        assert(text.subrange(from, text.len() as int) =~= text.skip(from));
        if list.len() < limit && list.last().contains('|') {
            let k = choose|k: int| 0 <= k < list.last().len() && list.last()[k] == '|';
            assert(text[from + k] == '|');
        }
    } else {
        let rest = fields_from(text, bar + 1, (limit - 1) as nat);
        lemma_fields_from(text, bar + 1, (limit - 1) as nat);
        let first = text.subrange(from, bar);
        assert(list == seq![first] + rest);
        assert(list.drop_first() =~= rest);
        assert(first + seq!['|'] + text.skip(bar + 1) =~= text.skip(from));
        assert(list.last() == rest.last());
        assert forall|k: int| 0 <= k < list.len() - 1 implies !(#[trigger] list[k]).contains(
            '|',
        ) by {
            if k == 0 {
                if first.contains('|') {
                    let j = choose|j: int| 0 <= j < first.len() && first[j] == '|';
                    assert(text[from + j] == '|');
                }
            } else {
                assert(list[k] == rest[k - 1]);
            }
        }
    }
}

/// The fields of a text, put together with bars, are the text. No field holds a bar
/// but the last, and that only where the limit is reached.
pub proof fn law_fields_split_at_bars(text: Seq<char>, limit: nat)
    requires
        limit >= 1,
    ensures
        1 <= fields(text, limit).len() <= limit,
        with_bars(fields(text, limit)) == text,
        forall|k: int|
            0 <= k < fields(text, limit).len() - 1 ==> !(#[trigger] fields(text, limit)[k]).contains(
                '|',
            ),
        fields(text, limit).len() < limit ==> !fields(text, limit).last().contains('|'),
{
    lemma_fields_from(text, 0, limit);
    assert(text.skip(0) =~= text);
}

} // verus!
