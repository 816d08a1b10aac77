//! Text as sequences of characters: fields between separators, surrounding
//! white space, and decimal numbers.

use vstd::prelude::*;

verus! {

/// The fields of `text` between the occurrences of `sep`. A text without
/// `sep` is one field, and so is the empty text.
pub open spec fn split(text: Seq<char>, sep: char) -> Seq<Seq<char>>
    decreases text.len(),
{
    if text.len() == 0 {
        seq![Seq::empty()]
    } else {
        let fields = split(text.drop_last(), sep);
        if text.last() == sep {
            fields.push(Seq::empty())
        } else {
            fields.drop_last().push(fields.last().push(text.last()))
        }
    }
}

/// Whether `c` is white space: one of the characters that Unicode marks
/// `White_Space`.
pub open spec fn is_space(c: char) -> bool {
    let n = c as int;
    ||| 0x09 <= n <= 0x0d
    ||| n == 0x20
    ||| n == 0x85
    ||| n == 0xa0
    ||| n == 0x1680
    ||| 0x2000 <= n <= 0x200a
    ||| n == 0x2028
    ||| n == 0x2029
    ||| n == 0x202f
    ||| n == 0x205f
    ||| n == 0x3000
}

/// `text` without the white space at its start.
pub open spec fn trim_start(text: Seq<char>) -> Seq<char>
    decreases text.len(),
{
    if text.len() > 0 && is_space(text.first()) {
        trim_start(text.drop_first())
    } else {
        text
    }
}

/// `text` without the white space at its end.
pub open spec fn trim_end(text: Seq<char>) -> Seq<char>
    decreases text.len(),
{
    if text.len() > 0 && is_space(text.last()) {
        trim_end(text.drop_last())
    } else {
        text
    }
}

/// `text` without the white space at its start and at its end.
pub open spec fn trim(text: Seq<char>) -> Seq<char> {
    trim_end(trim_start(text))
}

/// Whether `c` is one of the digits `0` to `9`.
pub open spec fn is_digit(c: char) -> bool {
    0x30 <= c as int <= 0x39
}

/// Whether `text` holds digits only.
pub open spec fn all_digits(text: Seq<char>) -> bool {
    forall|i: int| 0 <= i < text.len() ==> is_digit(#[trigger] text[i])
}

/// The number that the digits of `text` write in base ten.
pub open spec fn digits_value(text: Seq<char>) -> nat
    decreases text.len(),
{
    if text.len() == 0 {
        0
    } else {
        10 * digits_value(text.drop_last()) + (text.last() as int - 0x30) as nat
    }
}

/// The digits of a number text: the text without a `+` at its start.
pub open spec fn unsigned_part(text: Seq<char>) -> Seq<char> {
    if text.len() > 0 && text.first() == '+' {
        text.drop_first()
    } else {
        text
    }
}

/// The number at most `max` that `text` writes, if it writes one: one or
/// more digits, with or without a `+` before them.
pub open spec fn number_of_text(text: Seq<char>, max: nat) -> Option<nat> {
    let digits = unsigned_part(text);
    if digits.len() > 0 && all_digits(digits) && digits_value(digits) <= max {
        Some(digits_value(digits))
    } else {
        None
    }
}

/// The digits of `n` in base ten, without leading zeros.
pub open spec fn decimal(n: nat) -> Seq<char>
    decreases n,
{
    if n < 10 {
        seq![(0x30 + n) as char]
    } else {
        decimal(n / 10).push((0x30 + n % 10) as char)
    }
}

/// The texts that the vectors of `fields` hold.
pub open spec fn field_views(fields: Seq<Vec<char>>) -> Seq<Seq<char>> {
    fields.map_values(|field: Vec<char>| field@)
}

/// `String::push` appends one character.
pub assume_specification[ String::push ](text: &mut String, c: char)
    ensures
        final(text)@ == old(text)@.push(c),
;

/// The characters of `text` as a vector.
pub(crate) fn chars_of(text: &str) -> (r: Vec<char>)
    ensures
        r@ == text@,
{
    let mut r: Vec<char> = Vec::new();
    for c in it: text.chars()
        invariant
            r@ == it.seq().take(it.index()),
            it.seq() == text@,
    {
        r.push(c);
    }
    r
}

/// The text made of the characters of `chars`.
pub(crate) fn string_of(chars: &Vec<char>) -> (r: String)
    ensures
        r@ == chars@,
{
    let mut r = String::new();
    let mut i: usize = 0;
    while i < chars.len()
        invariant
            i <= chars.len(),
            r@ == chars@.take(i as int),
        decreases chars.len() - i,
    {
        r.push(chars[i]);
        i = i + 1;
        assert(r@ =~= chars@.take(i as int));
    }
    assert(chars@.take(i as int) =~= chars@);
    r
}

/// Splits `text` into its fields between the occurrences of `sep`.
pub(crate) fn split_chars(text: &Vec<char>, sep: char) -> (r: Vec<Vec<char>>)
    ensures
        field_views(r@) == split(text@, sep),
{
    let mut fields: Vec<Vec<char>> = Vec::new();
    let mut current: Vec<char> = Vec::new();
    let mut i: usize = 0;
    assert(field_views(fields@).push(current@) =~= split(text@.take(0), sep));
    while i < text.len()
        invariant
            i <= text.len(),
            field_views(fields@).push(current@) == split(text@.take(i as int), sep),
        decreases text.len() - i,
    {
        let c = text[i];
        let ghost before = field_views(fields@).push(current@);
        proof {
            assert(text@.take(i + 1).drop_last() =~= text@.take(i as int));
            assert(text@.take(i + 1).last() == c);
        }
        if c == sep {
            fields.push(current);
            current = Vec::new();
            assert(field_views(fields@).push(current@) =~= before.push(Seq::empty()));
        } else {
            current.push(c);
            assert(field_views(fields@).push(current@) =~= before.drop_last().push(
                before.last().push(c),
            ));
        }
        i = i + 1;
    }
    assert(text@.take(i as int) =~= text@);
    let ghost before = field_views(fields@).push(current@);
    fields.push(current);
    assert(field_views(fields@) =~= before);
    fields
}

/// Whether `c` is white space.
pub(crate) fn char_is_space(c: char) -> (r: bool)
    ensures
        r == is_space(c),
{
    let n = c as u32;
    (0x09 <= n && n <= 0x0d) || n == 0x20 || n == 0x85 || n == 0xa0 || n == 0x1680 || (0x2000 <= n
        && n <= 0x200a) || n == 0x2028 || n == 0x2029 || n == 0x202f || n == 0x205f || n == 0x3000
}

/// Takes the white space off both ends of `text`.
pub(crate) fn trim_chars(text: &Vec<char>) -> (r: Vec<char>)
    ensures
        r@ == trim(text@),
{
    let mut start: usize = 0;
    assert(text@.skip(0) =~= text@);
    while start < text.len() && char_is_space(text[start])
        invariant
            start <= text.len(),
            trim_start(text@) == trim_start(text@.skip(start as int)),
        decreases text.len() - start,
    {
        proof {
            assert(text@.skip(start as int).drop_first() =~= text@.skip(start + 1));
        }
        start = start + 1;
    }
    let mut end: usize = text.len();
    assert(text@.subrange(start as int, end as int) =~= text@.skip(start as int));
    while end > start && char_is_space(text[end - 1])
        invariant
            start <= end <= text.len(),
            trim(text@) == trim_end(text@.subrange(start as int, end as int)),
        decreases end - start,
    {
        proof {
            assert(text@.subrange(start as int, end as int).drop_last() =~= text@.subrange(
                start as int,
                end - 1,
            ));
        }
        end = end - 1;
    }
    let mut r: Vec<char> = Vec::new();
    let mut i: usize = start;
    while i < end
        invariant
            start <= i <= end <= text.len(),
            r@ == text@.subrange(start as int, i as int),
        decreases end - i,
    {
        r.push(text[i]);
        i = i + 1;
        assert(r@ =~= text@.subrange(start as int, i as int));
    }
    r
}

/// The value of `c` as a digit of base ten, if it is one.
pub(crate) fn digit_of(c: char) -> (r: Option<u8>)
    ensures
        r matches Some(digit) ==> is_digit(c) && digit == c as int - 0x30,
        r is None ==> !is_digit(c),
{
    let n = c as u32;
    if 0x30 <= n && n <= 0x39 {
        Some((n - 0x30) as u8)
    } else {
        None
    }
}

/// A prefix of a text of digits writes a number that is no larger.
pub proof fn lemma_digits_value_prefix(text: Seq<char>, n: int)
    requires
        0 <= n <= text.len(),
        all_digits(text),
    ensures
        digits_value(text.take(n)) <= digits_value(text),
    decreases text.len(),
{
    if n < text.len() {
        assert(text.drop_last().take(n) =~= text.take(n));
        lemma_digits_value_prefix(text.drop_last(), n);
    } else {
        assert(text.take(n) =~= text);
    }
}

/// A text without `sep` is a single field.
pub proof fn lemma_split_plain(text: Seq<char>, sep: char)
    requires
        !text.contains(sep),
    ensures
        split(text, sep) == seq![text],
    decreases text.len(),
{
    if text.len() == 0 {
        assert(text =~= Seq::empty());
    } else {
        let front = text.drop_last();
        assert(text[text.len() - 1] != sep);
        assert forall|i: int| 0 <= i < front.len() implies front[i] != sep by {
            assert(text[i] == front[i]);
        }
        lemma_split_plain(front, sep);
        assert(front.push(text.last()) =~= text);
        assert(seq![front].drop_last().push(front.push(text.last())) =~= seq![text]);
    }
}

/// After a separator, a text without `sep` is one more field.
pub proof fn lemma_split_last_field(head: Seq<char>, field: Seq<char>, sep: char)
    requires
        !field.contains(sep),
    ensures
        split(head + seq![sep] + field, sep) == split(head, sep).push(field),
    decreases field.len(),
{
    let text = head + seq![sep] + field;
    if field.len() == 0 {
        assert(text.drop_last() =~= head);
        assert(field =~= Seq::empty());
    } else {
        let front = field.drop_last();
        assert(field[field.len() - 1] != sep);
        assert forall|i: int| 0 <= i < front.len() implies front[i] != sep by {
            assert(field[i] == front[i]);
        }
        lemma_split_last_field(head, front, sep);
        assert(text.drop_last() =~= head + seq![sep] + front);
        assert(text.last() == field.last());
        assert(front.push(field.last()) =~= field);
        assert(split(head, sep).push(front).drop_last().push(front.push(field.last())) =~= split(
            head,
            sep,
        ).push(field));
    }
}

/// The digits written for a number are digits, at least one, and write
/// that number.
pub proof fn lemma_decimal_digits(n: nat)
    ensures
        decimal(n).len() > 0,
        all_digits(decimal(n)),
        digits_value(decimal(n)) == n,
    decreases n,
{
    if n < 10 {
        assert(decimal(n).drop_last() =~= Seq::empty());
        assert(digits_value(Seq::<char>::empty()) == 0);
        assert(decimal(n).last() as int == 0x30 + n);
    } else {
        lemma_decimal_digits(n / 10);
        assert(decimal(n).drop_last() =~= decimal(n / 10));
        assert(decimal(n).last() as int == 0x30 + n % 10);
    }
}

/// The digits written for a number are read back as that number.
pub proof fn lemma_decimal_round_trip(n: nat, max: nat)
    requires
        n <= max,
    ensures
        number_of_text(decimal(n), max) == Some(n),
{
    lemma_decimal_digits(n);
    assert(is_digit(decimal(n)[0]));
}

/// Reads the number that `text` writes in base ten, if it is a number and
/// at most `max`.
pub(crate) fn parse_number(text: &Vec<char>, max: u32) -> (r: Option<u32>)
    ensures
        r matches Some(n) ==> number_of_text(text@, max as nat) == Some(n as nat),
        r is None ==> number_of_text(text@, max as nat) is None,
{
    let start: usize = if text.len() > 0 && text[0] == '+' {
        1
    } else {
        0
    };
    let ghost digits = unsigned_part(text@);
    assert(digits =~= text@.skip(start as int));
    if start == text.len() {
        return None;
    }
    let mut value: u64 = 0;
    let mut i: usize = start;
    assert(digits.take(0) =~= Seq::empty());
    while i < text.len()
        invariant
            start <= i <= text.len(),
            digits == unsigned_part(text@),
            digits == text@.skip(start as int),
            all_digits(digits.take(i - start)),
            value == digits_value(digits.take(i - start)),
            value <= max,
        decreases text.len() - i,
    {
        let c = text[i];
        let digit = match digit_of(c) {
            Some(digit) => digit,
            None => {
                assert(!is_digit(digits[i - start]));
                return None;
            },
        };
        proof {
            let longer = digits.take(i - start + 1);
            assert(longer.drop_last() =~= digits.take(i - start));
            assert(longer.last() == c);
            assert forall|k: int| 0 <= k < longer.len() implies is_digit(#[trigger] longer[k]) by {
                if k < i - start {
                    assert(longer[k] == digits.take(i - start)[k]);
                }
            }
        }
        let next = value * 10 + digit as u64;
        if next > max as u64 {
            proof {
                if all_digits(digits) {
                    lemma_digits_value_prefix(digits, i - start + 1);
                }
            }
            return None;
        }
        value = next;
        i = i + 1;
    }
    assert(digits.take(i - start) =~= digits);
    Some(value as u32)
}

/// Appends the digits of `n` in base ten to `out`.
pub(crate) fn push_decimal(out: &mut Vec<char>, n: u32)
    ensures
        final(out)@ == old(out)@ + decimal(n as nat),
    decreases n,
{
    if n >= 10 {
        push_decimal(out, n / 10);
    }
    out.push((0x30u8 + (n % 10) as u8) as char);
    assert(final(out)@ =~= old(out)@ + decimal(n as nat));
}

} // verus!
