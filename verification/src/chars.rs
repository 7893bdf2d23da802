//! Text: file names, fields separated by bars, and numbers in decimal and
//! hexadecimal notation.

use vstd::prelude::*;
use vstd::utf8::*;

verus! {

/// The longest file name that a header may carry, in bytes.
pub const MAX_FILENAME_BYTES: usize = 255;

/// The Unicode control characters: the two blocks U+0000 to U+001F and U+007F
/// to U+009F.
pub open spec fn is_control(c: char) -> bool {
    c as u32 <= 0x1f || 0x7f <= c as u32 <= 0x9f
}

/// What every protocol asks of a file name: it is there, it is not too long,
/// and it holds no control character.
pub open spec fn valid_filename(name: Seq<char>) -> bool {
    &&& name.len() > 0
    &&& encode_utf8(name).len() <= MAX_FILENAME_BYTES
    &&& forall|i: int| 0 <= i < name.len() ==> !is_control(#[trigger] name[i])
}

/// The characters of a string.
pub fn to_chars(text: &str) -> (chars: Vec<char>)
    ensures
        chars@ == text@,
{
    let mut chars: Vec<char> = Vec::new();
    for c in iter: text.chars()
        invariant
            chars@ == text@.take(iter.index() as int),
            iter.seq() == text@,
    {
        chars.push(c);
        assert(chars@ =~= text@.take(iter.index() + 1));
    }
    assert(text@.take(text@.len() as int) =~= text@);
    chars
}

/// The length of a string in bytes.
pub fn byte_length(text: &str) -> (length: usize)
    ensures
        length == encode_utf8(text@).len(),
{
    text.as_bytes().len()
}

/// Whether a file name may be sent and accepted.
pub fn filename_is_valid(name: &str) -> (valid: bool)
    ensures
        valid == valid_filename(name@),
{
    let chars: Vec<char> = to_chars(name);
    if chars.len() == 0 || byte_length(name) > MAX_FILENAME_BYTES {
        return false;
    }
    let mut i: usize = 0;
    while i < chars.len()
        invariant
            i <= chars@.len(),
            chars@ == name@,
            forall|j: int| 0 <= j < i ==> !is_control(#[trigger] chars@[j]),
        decreases chars@.len() - i,
    {
        let code: u32 = chars[i] as u32;
        if code <= 0x1f || (0x7f <= code && code <= 0x9f) {
            assert(is_control(name@[i as int]));
            return false;
        }
        i = i + 1;
    }
    true
}

/// Whether a string holds the character.
pub fn contains_char(text: &str, wanted: char) -> (found: bool)
    ensures
        found == text@.contains(wanted),
{
    let chars: Vec<char> = to_chars(text);
    let mut i: usize = 0;
    while i < chars.len()
        invariant
            i <= chars@.len(),
            chars@ == text@,
            forall|j: int| 0 <= j < i ==> chars@[j] != wanted,
        decreases chars@.len() - i,
    {
        if chars[i] == wanted {
            return true;
        }
        i = i + 1;
    }
    false
}

/// Whether two strings hold the same characters.
pub fn same_text(left: &str, right: &str) -> (same: bool)
    ensures
        same == (left@ == right@),
{
    let a: Vec<char> = to_chars(left);
    let b: Vec<char> = to_chars(right);
    if a.len() != b.len() {
        return false;
    }
    let mut i: usize = 0;
    while i < a.len()
        invariant
            i <= a@.len() == b@.len(),
            a@ == left@,
            b@ == right@,
            forall|j: int| 0 <= j < i ==> a@[j] == b@[j],
        decreases a@.len() - i,
    {
        if a[i] != b[i] {
            return false;
        }
        i = i + 1;
    }
    assert(left@ =~= right@);
    true
}

/// Whether a string begins with another.
pub fn begins_with(text: &str, prefix: &str) -> (begins: bool)
    ensures
        begins == prefix@.is_prefix_of(text@),
{
    let a: Vec<char> = to_chars(text);
    let b: Vec<char> = to_chars(prefix);
    if a.len() < b.len() {
        return false;
    }
    let mut i: usize = 0;
    while i < b.len()
        invariant
            i <= b@.len() <= a@.len(),
            a@ == text@,
            b@ == prefix@,
            forall|j: int| 0 <= j < i ==> a@[j] == b@[j],
        decreases b@.len() - i,
    {
        if a[i] != b[i] {
            return false;
        }
        i = i + 1;
    }
    assert(prefix@ =~= text@.subrange(0, prefix@.len() as int));
    true
}

// ---------------------------------------------------------------------------
// Fields

/// The position of the first bar at or after `from`, or the length of the
/// text.
pub open spec fn next_bar(text: Seq<char>, from: int) -> int
    decreases text.len() - from,
{
    if from >= text.len() || text[from] == '|' {
        from
    } else {
        next_bar(text, from + 1)
    }
}

/// The fields of the text from `from` on: what stands between bars, in at most
/// `limit` pieces, the last of which keeps any bars left over.
pub open spec fn fields_from(text: Seq<char>, from: int, limit: nat) -> Seq<Seq<char>>
    decreases limit,
{
    let bar = next_bar(text, from);
    if limit <= 1 || bar >= text.len() {
        seq![text.subrange(from, text.len() as int)]
    } else {
        seq![text.subrange(from, bar)] + fields_from(text, bar + 1, (limit - 1) as nat)
    }
}

/// The fields of a text, in at most `limit` pieces.
pub open spec fn fields(text: Seq<char>, limit: nat) -> Seq<Seq<char>> {
    fields_from(text, 0, limit)
}

/// The text from its first character after `from` that belongs to a field
/// without a bar, up to the bar that ends it.
pub proof fn lemma_next_bar(text: Seq<char>, from: int, end: int)
    requires
        0 <= from <= end <= text.len(),
        forall|i: int| from <= i < end ==> text[i] != '|',
        end < text.len() ==> text[end] == '|',
    ensures
        next_bar(text, from) == end,
    decreases end - from,
{
    if from < end {
        lemma_next_bar(text, from + 1, end);
    }
}

proof fn lemma_next_bar_bounds(text: Seq<char>, from: int)
    requires
        0 <= from <= text.len(),
    ensures
        from <= next_bar(text, from) <= text.len(),
        next_bar(text, from) < text.len() ==> text[next_bar(text, from)] == '|',
    decreases text.len() - from,
{
    if from < text.len() && text[from] != '|' {
        lemma_next_bar_bounds(text, from + 1);
    }
}

/// The views of a list of strings.
pub open spec fn views(list: Seq<String>) -> Seq<Seq<char>> {
    Seq::new(list.len(), |i: int| list[i]@)
}

/// Splits a text at its bars into at most `limit` fields.
pub fn split_fields(text: &str, limit: usize) -> (list: Vec<String>)
    requires
        limit >= 1,
    ensures
        views(list@) == fields(text@, limit as nat),
{
    let chars: Vec<char> = to_chars(text);
    let mut list: Vec<String> = Vec::new();
    let mut from: usize = 0;
    let mut at: usize = 0;
    while at < chars.len() && list.len() + 1 < limit
        invariant
            chars@ == text@,
            from <= at <= chars@.len(),
            list@.len() + 1 <= limit,
            next_bar(text@, from as int) == next_bar(text@, at as int),
            fields(text@, limit as nat) == views(list@) + fields_from(
                text@,
                from as int,
                (limit - list@.len()) as nat,
            ),
        decreases chars@.len() - at,
    {
        if chars[at] == '|' {
            let ghost before = list@;
            list.push(text.substring_char(from, at).to_owned());
            from = at + 1;
            assert(views(list@) =~= views(before).push(list@.last()@));
            assert(fields(text@, limit as nat) =~= views(list@) + fields_from(
                text@,
                from as int,
                (limit - list@.len()) as nat,
            ));
        }
        at = at + 1;
    }
    let ghost before = list@;
    proof {
        lemma_next_bar_bounds(text@, from as int);
        if at < chars@.len() {
            assert(limit - list@.len() == 1);
        }
        assert(fields_from(text@, from as int, (limit - list@.len()) as nat) == seq![
            text@.subrange(from as int, text@.len() as int),
        ]);
    }
    list.push(text.substring_char(from, chars.len()).to_owned());
    assert(views(list@) =~= views(before).push(list@.last()@));
    assert(views(list@) =~= fields(text@, limit as nat));
    list
}

// ---------------------------------------------------------------------------
// Numbers

/// The digit for a value below 16, in lower case.
pub open spec fn digit_char(value: nat) -> char {
    if value < 10 {
        (0x30 + value) as char
    } else {
        (0x57 + value) as char
    }
}

/// The value of a digit of either case, or 16 for anything else.
pub open spec fn digit_value(c: char) -> nat {
    let code = c as u32;
    if 0x30 <= code <= 0x39 {
        (code - 0x30) as nat
    } else if 0x61 <= code <= 0x66 {
        (code - 0x57) as nat
    } else if 0x41 <= code <= 0x46 {
        (code - 0x37) as nat
    } else {
        16
    }
}

/// A number in decimal notation, without leading zeros.
pub open spec fn decimal(value: nat) -> Seq<char>
    decreases value,
{
    if value < 10 {
        seq![digit_char(value)]
    } else {
        decimal(value / 10).push(digit_char(value % 10))
    }
}

/// The last `digits` hexadecimal digits of a number.
pub open spec fn hex(value: nat, digits: nat) -> Seq<char>
    decreases digits,
{
    if digits == 0 {
        Seq::empty()
    } else {
        hex(value / 16, (digits - 1) as nat).push(digit_char(value % 16))
    }
}

/// Each byte as two hexadecimal digits.
pub open spec fn hex_bytes(bytes: Seq<u8>) -> Seq<char>
    decreases bytes.len(),
{
    if bytes.len() == 0 {
        Seq::empty()
    } else {
        hex_bytes(bytes.drop_last()) + hex(bytes.last() as nat, 2)
    }
}

/// The number that a row of digits stands for.
pub open spec fn digits_value(digits: Seq<char>, radix: nat) -> nat
    decreases digits.len(),
{
    if digits.len() == 0 {
        0
    } else {
        digits_value(digits.drop_last(), radix) * radix + digit_value(digits.last())
    }
}

/// The text without the plus sign that may stand before a number.
pub open spec fn without_plus(text: Seq<char>) -> Seq<char> {
    if text.len() > 0 && text[0] == '+' {
        text.subrange(1, text.len() as int)
    } else {
        text
    }
}

/// The number that a text stands for: a plus sign or none, then digits of the
/// radix and nothing else, at least one, with a value of at most `max`.
pub open spec fn number(text: Seq<char>, radix: nat, max: nat) -> Option<nat> {
    let digits = without_plus(text);
    if digits.len() > 0 && (forall|i: int|
        0 <= i < digits.len() ==> digit_value(#[trigger] digits[i]) < radix) && digits_value(
        digits,
        radix,
    ) <= max {
        Some(digits_value(digits, radix))
    } else {
        None
    }
}

proof fn lemma_digits_value_prefix(digits: Seq<char>, radix: nat, n: int)
    requires
        0 <= n <= digits.len(),
        radix >= 1,
    ensures
        digits_value(digits.take(n), radix) <= digits_value(digits, radix),
    decreases digits.len() - n,
{
    if n == digits.len() {
        assert(digits.take(n) =~= digits);
    } else {
        lemma_digits_value_prefix(digits, radix, n + 1);
        let longer = digits.take(n + 1);
        assert(longer.drop_last() =~= digits.take(n));
        let v = digits_value(digits.take(n), radix);
        assert(v <= v * radix) by (nonlinear_arith)
            requires
                radix >= 1,
        ;
    }
}

/// Reads a number of at most `max`.
pub fn parse_number(text: &str, radix: u64, max: u64) -> (value: Option<u64>)
    requires
        2 <= radix <= 16,
    ensures
        value is Some <==> number(text@, radix as nat, max as nat) is Some,
        value matches Some(v) ==> number(text@, radix as nat, max as nat) == Some(v as nat),
{
    let chars: Vec<char> = to_chars(text);
    let start: usize = if chars.len() > 0 && chars[0] == '+' {
        1
    } else {
        0
    };
    let ghost digits = without_plus(text@);
    assert(digits =~= text@.subrange(start as int, text@.len() as int));
    if start == chars.len() {
        return None;
    }
    let mut at: usize = start;
    let mut value: u64 = 0;
    while at < chars.len()
        invariant
            2 <= radix <= 16,
            chars@ == text@,
            start <= at <= chars@.len(),
            digits == text@.subrange(start as int, text@.len() as int),
            digits == without_plus(text@),
            value <= max,
            value == digits_value(digits.take(at - start), radix as nat),
            forall|i: int| 0 <= i < at - start ==> digit_value(#[trigger] digits[i]) < radix,
        decreases chars@.len() - at,
    {
        let code: u32 = chars[at] as u32;
        let digit: u64 = if 0x30 <= code && code <= 0x39 {
            (code - 0x30) as u64
        } else if 0x61 <= code && code <= 0x66 {
            (code - 0x57) as u64
        } else if 0x41 <= code && code <= 0x46 {
            (code - 0x37) as u64
        } else {
            16
        };
        assert(digits[at - start] == chars@[at as int]);
        assert(digit == digit_value(digits[at - start]));
        if digit >= radix {
            return None;
        }
        let ghost longer = digits.take(at + 1 - start);
        assert(longer.drop_last() =~= digits.take(at - start));
        assert(digits_value(longer, radix as nat) == value * radix + digit);
        proof {
            lemma_digits_value_prefix(digits, radix as nat, at + 1 - start);
        }
        match value.checked_mul(radix) {
            None => {
                return None;
            },
            Some(shifted) => match shifted.checked_add(digit) {
                None => {
                    return None;
                },
                Some(sum) => {
                    if sum > max {
                        return None;
                    }
                    value = sum;
                },
            },
        }
        at = at + 1;
    }
    assert(digits.take(digits.len() as int) =~= digits);
    Some(value)
}

/// Reads a count in decimal notation.
pub fn parse_count(text: &str) -> (value: Option<usize>)
    ensures
        value is Some <==> number(text@, 10, usize::MAX as nat) is Some,
        value matches Some(v) ==> number(text@, 10, usize::MAX as nat) == Some(v as nat),
{
    match parse_number(text, 10, usize::MAX as u64) {
        None => None,
        Some(value) => Some(value as usize),
    }
}

/// Reads a transfer checksum in hexadecimal notation.
pub fn parse_checksum(value: &str) -> (checksum: Option<u64>)
    ensures
        checksum is Some <==> number(value@, 16, u64::MAX as nat) is Some,
        checksum matches Some(c) ==> number(value@, 16, u64::MAX as nat) == Some(c as nat),
{
    parse_number(value, 16, u64::MAX)
}

fn push_digit(out: &mut String, value: usize)
    requires
        value < 16,
    ensures
        final(out)@ == old(out)@.push(digit_char(value as nat)),
{
    let digits = "0123456789abcdef";
    proof {
        reveal_strlit("0123456789abcdef");
    }
    out.append(digits.substring_ascii(value, value + 1));
    assert(digits@[value as int] == digit_char(value as nat));
    assert(out@ =~= old(out)@.push(digit_char(value as nat)));
}

/// Appends a number in decimal notation.
pub fn push_decimal(out: &mut String, value: usize)
    ensures
        final(out)@ == old(out)@ + decimal(value as nat),
    decreases value,
{
    if value >= 10 {
        push_decimal(out, value / 10);
    }
    push_digit(out, value % 10);
    assert(out@ =~= old(out)@ + decimal(value as nat));
}

/// Appends the last `digits` hexadecimal digits of a number.
pub fn push_hex(out: &mut String, value: u64, digits: usize)
    ensures
        final(out)@ == old(out)@ + hex(value as nat, digits as nat),
    decreases digits,
{
    if digits > 0 {
        push_hex(out, value / 16, digits - 1);
        push_digit(out, (value % 16) as usize);
    }
    assert(out@ =~= old(out)@ + hex(value as nat, digits as nat));
}

/// A checksum as sixteen hexadecimal digits.
pub fn checksum_text(checksum: u64) -> (text: String)
    ensures
        text@ == hex(checksum as nat, 16),
{
    let mut text: String = String::new();
    push_hex(&mut text, checksum, 16);
    assert(text@ =~= hex(checksum as nat, 16));
    text
}

/// Bytes as pairs of hexadecimal digits.
pub fn bytes_hex(bytes: &[u8]) -> (text: String)
    ensures
        text@ == hex_bytes(bytes@),
{
    let mut text: String = String::new();
    let mut i: usize = 0;
    assert(bytes@.take(0) =~= Seq::<u8>::empty());
    while i < bytes.len()
        invariant
            i <= bytes@.len(),
            text@ == hex_bytes(bytes@.take(i as int)),
        decreases bytes@.len() - i,
    {
        push_hex(&mut text, bytes[i] as u64, 2);
        assert(bytes@.take(i + 1).drop_last() =~= bytes@.take(i as int));
        i = i + 1;
    }
    assert(bytes@.take(bytes@.len() as int) =~= bytes@);
    text
}

// ---------------------------------------------------------------------------
// Numbers that are written are read back

proof fn lemma_digit_char(value: nat)
    requires
        value < 16,
    ensures
        digit_value(digit_char(value)) == value,
        digit_char(value) != '|',
        digit_char(value) != '+',
{
}

proof fn lemma_decimal_digits(value: nat)
    ensures
        decimal(value).len() > 0,
        forall|i: int|
            0 <= i < decimal(value).len() ==> digit_value(#[trigger] decimal(value)[i]) < 10
                && decimal(value)[i] != '|' && decimal(value)[i] != '+',
        digits_value(decimal(value), 10) == value,
    decreases value,
{
    reveal_with_fuel(digits_value, 2);
    if value < 10 {
        lemma_digit_char(value);
        assert(decimal(value).drop_last() =~= Seq::<char>::empty());
    } else {
        lemma_digit_char(value % 10);
        lemma_decimal_digits(value / 10);
        assert(decimal(value).drop_last() =~= decimal(value / 10));
    }
}

proof fn lemma_hex_digits(value: nat, digits: nat, bound: nat)
    requires
        bound == vstd::arithmetic::power::pow(16, digits),
        value < bound,
    ensures
        hex(value, digits).len() == digits,
        forall|i: int|
            0 <= i < digits ==> digit_value(#[trigger] hex(value, digits)[i]) < 16 && hex(
                value,
                digits,
            )[i] != '|' && hex(value, digits)[i] != '+',
        digits_value(hex(value, digits), 16) == value,
    decreases digits,
{
    reveal(vstd::arithmetic::power::pow);
    if digits > 0 {
        lemma_digit_char(value % 16);
        lemma_hex_digits(value / 16, (digits - 1) as nat, (bound / 16) as nat);
        assert(hex(value, digits).drop_last() =~= hex(value / 16, (digits - 1) as nat));
    }
}

/// A number written in decimal is read back as itself, and holds no bar.
pub proof fn lemma_decimal_read(value: nat, max: nat)
    requires
        value <= max,
    ensures
        number(decimal(value), 10, max) == Some(value),
        decimal(value).len() > 0,
        !decimal(value).contains('|'),
{
    lemma_decimal_digits(value);
    assert(decimal(value)[0] != '+');
}

/// A checksum written in hexadecimal is read back as itself, and holds no bar.
pub proof fn lemma_checksum_read(value: u64)
    ensures
        number(hex(value as nat, 16), 16, u64::MAX as nat) == Some(value as nat),
        hex(value as nat, 16).len() == 16,
        !hex(value as nat, 16).contains('|'),
{
    assert(vstd::arithmetic::power::pow(16, 16) == 0x1_0000_0000_0000_0000) by {
        reveal_with_fuel(vstd::arithmetic::power::pow, 17);
    }
    lemma_hex_digits(value as nat, 16, 0x1_0000_0000_0000_0000);
    assert(hex(value as nat, 16)[0] != '+');
}

} // verus!
