//! Texts as sequences of characters: taking them apart at a character,
//! trimming them, and reading decimal numbers from them.

use vstd::prelude::*;
use vstd::std_specs::iter::IteratorSpec;
use vstd::string::StrSliceExecFns;

verus! {

/// A blank, a tab or the end of a line.
pub open spec fn is_space(c: char) -> bool {
    c == ' ' || c == '\t' || c == '\r' || c == '\n'
}

/// The first index from `from` on at which no space stands; the length of
/// the text when there is none.
pub open spec fn spaces_end(text: Seq<char>, from: int) -> int
    decreases text.len() - from,
{
    if 0 <= from < text.len() && is_space(text[from]) {
        spaces_end(text, from + 1)
    } else {
        from
    }
}

/// The length of the text without the spaces at its end.
pub open spec fn trimmed_length(text: Seq<char>, n: int) -> int
    decreases n,
{
    if 0 < n <= text.len() && is_space(text[n - 1]) {
        trimmed_length(text, n - 1)
    } else {
        n
    }
}

/// The text without the spaces at its start and at its end.
pub open spec fn trimmed(text: Seq<char>) -> Seq<char> {
    let start = spaces_end(text, 0);
    let end = trimmed_length(text, text.len() as int);
    if start < end {
        text.subrange(start, end)
    } else {
        Seq::empty()
    }
}

/// The first `n` characters of a text taken apart at every `separator`.
/// There is always a last piece, which is empty when the text ends with the
/// separator or is empty.
pub open spec fn split_by(text: Seq<char>, separator: char, n: int) -> Seq<Seq<char>>
    decreases n,
{
    if n <= 0 {
        seq![Seq::empty()]
    } else {
        let had = split_by(text, separator, n - 1);
        if text[n - 1] == separator {
            had.push(Seq::empty())
        } else {
            had.update(had.len() - 1, had.last().push(text[n - 1]))
        }
    }
}

/// The pieces of a text between its separators.
pub open spec fn pieces(text: Seq<char>, separator: char) -> Seq<Seq<char>> {
    split_by(text, separator, text.len() as int)
}

/// The vectors hold these texts, in this order.
pub open spec fn holds_texts(held: Seq<Vec<char>>, model: Seq<Seq<char>>) -> bool {
    &&& held.len() == model.len()
    &&& forall|i: int| 0 <= i < held.len() ==> (#[trigger] held[i])@ == model[i]
}

/// The spaces at the start of a text end within the text.
pub proof fn lemma_spaces_end_bounds(text: Seq<char>, from: int)
    requires
        0 <= from <= text.len(),
    ensures
        from <= spaces_end(text, from) <= text.len(),
        spaces_end(text, from) < text.len() ==> !is_space(text[spaces_end(text, from)]),
    decreases text.len() - from,
{
    if from < text.len() && is_space(text[from]) {
        lemma_spaces_end_bounds(text, from + 1);
    }
}

/// There is at least one piece, and there are no more pieces than
/// characters and one.
pub proof fn lemma_split_by_bounds(text: Seq<char>, separator: char, n: int)
    requires
        0 <= n,
    ensures
        1 <= split_by(text, separator, n).len() <= n + 1,
    decreases n,
{
    if n > 0 {
        lemma_split_by_bounds(text, separator, n - 1);
    }
}

/// The characters of a text.
pub fn chars_of(text: &str) -> (chars: Vec<char>)
    ensures
        chars@ == text@,
{
    broadcast use vstd::string::group_string_axioms;

    let mut chars: Vec<char> = Vec::new();
    let mut iter = text.chars();
    let ghost count = text@.len();
    loop
        invariant
            count == text@.len(),
            chars@.len() <= count,
            chars@ == text@.take(chars@.len() as int),
            iter.remaining() == text@.skip(chars@.len() as int),
            iter.obeys_prophetic_iter_laws(),
        decreases count - chars@.len(),
    {
        let ghost had = chars@;
        match iter.next() {
            Some(c) => {
                assert(c == text@[had.len() as int]);
                chars.push(c);
                proof {
                    assert(chars@ =~= text@.take(chars@.len() as int));
                    assert(iter.remaining() =~= text@.skip(chars@.len() as int));
                }
            },
            None => {
                proof {
                    assert(text@.skip(had.len() as int).len() == 0);
                    assert(chars@ =~= text@);
                }
                return chars;
            },
        }
    }
}

/// Whether the characters are those of a text.
pub fn matches_text(chars: &[char], text: &str) -> (same: bool)
    ensures
        same == (chars@ == text@),
{
    let count = text.unicode_len();
    if chars.len() != count {
        return false;
    }
    let mut i: usize = 0;
    while i < count
        invariant
            0 <= i <= count == text@.len() == chars@.len(),
            chars@.take(i as int) == text@.take(i as int),
        decreases count - i,
    {
        if chars[i] != text.get_char(i) {
            proof {
                assert(chars@[i as int] != text@[i as int]);
            }
            return false;
        }
        proof {
            assert(chars@.take(i as int + 1) =~= chars@.take(i as int).push(chars@[i as int]));
            assert(text@.take(i as int + 1) =~= text@.take(i as int).push(text@[i as int]));
        }
        i += 1;
    }
    proof {
        assert(chars@.take(count as int) =~= chars@);
        assert(text@.take(count as int) =~= text@);
    }
    true
}

/// Whether a character is a space.
pub fn is_space_char(c: char) -> (space: bool)
    ensures
        space == is_space(c),
{
    c == ' ' || c == '\t' || c == '\r' || c == '\n'
}

/// A text without the spaces at its start and at its end.
pub fn trim_chars(chars: &[char]) -> (kept: Vec<char>)
    ensures
        kept@ == trimmed(chars@),
{
    let mut start: usize = 0;
    while start < chars.len() && is_space_char(chars[start])
        invariant
            0 <= start <= chars.len(),
            spaces_end(chars@, start as int) == spaces_end(chars@, 0),
        decreases chars.len() - start,
    {
        start += 1;
    }
    let mut end: usize = chars.len();
    while end > 0 && is_space_char(chars[end - 1])
        invariant
            0 <= end <= chars.len(),
            trimmed_length(chars@, end as int) == trimmed_length(chars@, chars@.len() as int),
        decreases end,
    {
        end -= 1;
    }
    let mut kept: Vec<char> = Vec::new();
    if start < end {
        let mut i: usize = start;
        while i < end
            invariant
                start <= i <= end <= chars.len(),
                kept@ == chars@.subrange(start as int, i as int),
            decreases end - i,
        {
            kept.push(chars[i]);
            proof {
                assert(kept@ =~= chars@.subrange(start as int, i as int + 1));
            }
            i += 1;
        }
    }
    kept
}

/// Takes a text apart at every `separator`.
pub fn split_chars(chars: &[char], separator: char) -> (parts: Vec<Vec<char>>)
    ensures
        holds_texts(parts@, pieces(chars@, separator)),
{
    let mut parts: Vec<Vec<char>> = Vec::new();
    let mut current: Vec<char> = Vec::new();
    let mut i: usize = 0;
    while i < chars.len()
        invariant
            0 <= i <= chars.len(),
            split_by(chars@, separator, i as int).len() == parts@.len() + 1,
            current@ == split_by(chars@, separator, i as int).last(),
            forall|k: int|
                0 <= k < parts@.len() ==> (#[trigger] parts@[k])@ == split_by(
                    chars@,
                    separator,
                    i as int,
                )[k],
        decreases chars.len() - i,
    {
        let ghost had = split_by(chars@, separator, i as int);
        let ghost done = parts@;
        let c = chars[i];
        if c == separator {
            parts.push(current);
            current = Vec::new();
            proof {
                let next = split_by(chars@, separator, i as int + 1);
                assert(next == had.push(Seq::empty()));
                assert forall|k: int| 0 <= k < parts@.len() implies (#[trigger] parts@[k])@
                    == next[k] by {
                    if k < done.len() {
                        assert(parts@[k] == done[k]);
                        assert(next[k] == had[k]);
                    }
                }
            }
        } else {
            current.push(c);
            proof {
                let next = split_by(chars@, separator, i as int + 1);
                assert(next == had.update(had.len() - 1, had.last().push(c)));
                assert forall|k: int| 0 <= k < parts@.len() implies (#[trigger] parts@[k])@
                    == next[k] by {
                    assert(next[k] == had[k]);
                }
            }
        }
        i += 1;
    }
    let ghost all = pieces(chars@, separator);
    let ghost done = parts@;
    parts.push(current);
    proof {
        assert forall|k: int| 0 <= k < parts@.len() implies (#[trigger] parts@[k])@ == all[k] by {
            if k < done.len() {
                assert(parts@[k] == done[k]);
            }
        }
    }
    parts
}

/// The digit that a character stands for, if it stands for one.
pub open spec fn digit_of(c: char) -> Option<int> {
    if c == '0' {
        Some(0)
    } else if c == '1' {
        Some(1)
    } else if c == '2' {
        Some(2)
    } else if c == '3' {
        Some(3)
    } else if c == '4' {
        Some(4)
    } else if c == '5' {
        Some(5)
    } else if c == '6' {
        Some(6)
    } else if c == '7' {
        Some(7)
    } else if c == '8' {
        Some(8)
    } else if c == '9' {
        Some(9)
    } else {
        None
    }
}

/// The first index from `from` on at which no digit stands; the length of
/// the text when there is none.
pub open spec fn digits_end(text: Seq<char>, from: int) -> int
    decreases text.len() - from,
{
    if 0 <= from < text.len() && digit_of(text[from]) is Some {
        digits_end(text, from + 1)
    } else {
        from
    }
}

/// The number that the digits from `from` up to `to` write.
pub open spec fn digits_value(text: Seq<char>, from: int, to: int) -> int
    decreases to - from,
{
    if to <= from {
        0
    } else {
        digits_value(text, from, to - 1) * 10 + match digit_of(text[to - 1]) {
            Some(digit) => digit,
            None => 0,
        }
    }
}

/// Ten to the power of `n`.
pub open spec fn pow10(n: int) -> int
    decreases n,
{
    if n <= 0 {
        1
    } else {
        10 * pow10(n - 1)
    }
}

/// What the digits from `from` up to `to`, standing after a decimal point,
/// are worth in units of ten to the power of minus `places`: digits beyond
/// that many places are dropped.
pub open spec fn fraction_value(text: Seq<char>, from: int, to: int, places: int) -> int {
    if to - from >= places {
        digits_value(text, from, from + places)
    } else {
        digits_value(text, from, to) * pow10(places - (to - from))
    }
}

/// Where the parts of a decimal number stand in a text: whether a minus sign
/// stands in front, and from where up to where the digits before and after
/// the point stand.
pub struct DecimalShape {
    pub negative: bool,
    pub whole_start: int,
    pub whole_end: int,
    pub part_start: int,
    pub part_end: int,
}

/// The shape of the decimal number that a text writes, if it writes one. A
/// number may have spaces around it and a sign in front; it has digits, a
/// point and digits, and at least one digit in all.
pub open spec fn decimal_shape(text: Seq<char>) -> Option<DecimalShape> {
    let start = spaces_end(text, 0);
    let signed = start < text.len() && (text[start] == '-' || text[start] == '+');
    let negative = start < text.len() && text[start] == '-';
    let whole_start = if signed {
        start + 1
    } else {
        start
    };
    let whole_end = digits_end(text, whole_start);
    let pointed = whole_end < text.len() && text[whole_end] == '.';
    let part_start = if pointed {
        whole_end + 1
    } else {
        whole_end
    };
    let part_end = if pointed {
        digits_end(text, part_start)
    } else {
        part_start
    };
    if (whole_end - whole_start) + (part_end - part_start) == 0 {
        None
    } else if spaces_end(text, part_end) != text.len() {
        None
    } else {
        Some(DecimalShape { negative, whole_start, whole_end, part_start, part_end })
    }
}

/// The size of a number of a given shape in units of ten to the power of
/// minus `places`; digits beyond the places are dropped.
pub open spec fn shape_size(text: Seq<char>, shape: DecimalShape, places: int) -> int {
    digits_value(text, shape.whole_start, shape.whole_end) * pow10(places) + fraction_value(
        text,
        shape.part_start,
        shape.part_end,
        places,
    )
}

/// The number that a text writes in decimal, in units of ten to the power of
/// minus `places`, if it writes one.
pub open spec fn decimal_value(text: Seq<char>, places: int) -> Option<int> {
    match decimal_shape(text) {
        Some(shape) => Some(
            if shape.negative {
                -shape_size(text, shape, places)
            } else {
                shape_size(text, shape, places)
            },
        ),
        None => None,
    }
}

/// The number that a text writes, if it writes one that fits in 64 bits.
pub open spec fn decimal_i64(text: Seq<char>, places: int) -> Option<i64> {
    match decimal_value(text, places) {
        Some(value) => if i64::MIN <= value <= i64::MAX {
            Some(value as i64)
        } else {
            None
        },
        None => None,
    }
}

/// The digits of a text end within the text, and up to there digits stand.
pub proof fn lemma_digits_end_bounds(text: Seq<char>, from: int)
    requires
        0 <= from <= text.len(),
    ensures
        from <= digits_end(text, from) <= text.len(),
        forall|i: int| from <= i < digits_end(text, from) ==> digit_of(#[trigger] text[i]) is Some,
        digits_end(text, from) < text.len() ==> digit_of(text[digits_end(text, from)]) is None,
    decreases text.len() - from,
{
    if from < text.len() && digit_of(text[from]) is Some {
        lemma_digits_end_bounds(text, from + 1);
    }
}

/// Powers of ten are positive and grow with the exponent.
pub proof fn lemma_pow10_grows(a: int, b: int)
    requires
        0 <= a <= b,
    ensures
        1 <= pow10(a) <= pow10(b),
    decreases b,
{
    if a < b {
        lemma_pow10_grows(a, b - 1);
    } else if a > 0 {
        lemma_pow10_grows(a - 1, a - 1);
    }
}

/// Ten to the power of eighteen.
pub proof fn lemma_pow10_18()
    ensures
        pow10(18) == 1_000_000_000_000_000_000,
{
    reveal_with_fuel(pow10, 20);
}

/// A number written with digits is not negative, is less than ten to the
/// power of the number of its digits, and does not shrink when digits are
/// added.
pub proof fn lemma_digits_value_bounds(text: Seq<char>, from: int, to: int)
    requires
        from <= to,
    ensures
        0 <= digits_value(text, from, to) < pow10(to - from),
        forall|more: int|
            to <= more ==> digits_value(text, from, to) <= #[trigger] digits_value(text, from, more),
    decreases to - from,
{
    if from < to {
        lemma_digits_value_bounds(text, from, to - 1);
    }
    assert forall|more: int| to <= more implies digits_value(text, from, to)
        <= #[trigger] digits_value(text, from, more) by {
        lemma_digits_value_grows(text, from, to, more);
    }
}

/// A number written with digits does not shrink when digits are added.
proof fn lemma_digits_value_grows(text: Seq<char>, from: int, to: int, more: int)
    requires
        from <= to <= more,
    ensures
        0 <= digits_value(text, from, to) <= digits_value(text, from, more),
    decreases more - from,
{
    if from < to {
        lemma_digits_value_grows(text, from, to - 1, to - 1);
    }
    if to < more {
        lemma_digits_value_grows(text, from, to, more - 1);
    }
}

/// The digit that a character stands for.
pub fn digit_value(c: char) -> (digit: Option<u8>)
    ensures
        digit is Some == digit_of(c) is Some,
        digit matches Some(d) ==> digit_of(c) == Some(d as int) && d <= 9,
{
    match c {
        '0' => Some(0),
        '1' => Some(1),
        '2' => Some(2),
        '3' => Some(3),
        '4' => Some(4),
        '5' => Some(5),
        '6' => Some(6),
        '7' => Some(7),
        '8' => Some(8),
        '9' => Some(9),
        _ => None,
    }
}

/// The first index from `from` on at which no space stands.
fn skip_spaces(chars: &[char], from: usize) -> (end: usize)
    requires
        from <= chars@.len(),
    ensures
        end == spaces_end(chars@, from as int),
        from <= end <= chars@.len(),
{
    let mut end: usize = from;
    while end < chars.len() && is_space_char(chars[end])
        invariant
            from <= end <= chars.len(),
            spaces_end(chars@, end as int) == spaces_end(chars@, from as int),
        decreases chars.len() - end,
    {
        end += 1;
    }
    end
}

/// The first index from `from` on at which no digit stands.
fn skip_digits(chars: &[char], from: usize) -> (end: usize)
    requires
        from <= chars@.len(),
    ensures
        end == digits_end(chars@, from as int),
        from <= end <= chars@.len(),
{
    let mut end: usize = from;
    while end < chars.len() && digit_value(chars[end]).is_some()
        invariant
            from <= end <= chars.len(),
            digits_end(chars@, end as int) == digits_end(chars@, from as int),
        decreases chars.len() - end,
    {
        end += 1;
    }
    end
}

/// The greatest number that is read in full: a greater one does not fit in
/// 64 bits.
pub const READ_LIMIT: u128 = 10_000_000_000_000_000_000;

/// Reads the number that the digits from `from` up to `to` write, as long
/// as it is no more than the limit.
fn read_digits(chars: &[char], from: usize, to: usize) -> (value: Option<u128>)
    requires
        from <= to <= chars@.len(),
    ensures
        value matches Some(v) ==> v == digits_value(chars@, from as int, to as int) && v
            <= READ_LIMIT,
        value is None ==> digits_value(chars@, from as int, to as int) > READ_LIMIT,
{
    let mut value: u128 = 0;
    let mut i: usize = from;
    while i < to
        invariant
            from <= i <= to <= chars.len(),
            value == digits_value(chars@, from as int, i as int),
            value <= READ_LIMIT,
        decreases to - i,
    {
        let digit: u128 = match digit_value(chars[i]) {
            Some(d) => d as u128,
            None => 0,
        };
        value = value * 10 + digit;
        i += 1;
        if value > READ_LIMIT {
            proof {
                lemma_digits_value_grows(chars@, from as int, i as int, to as int);
            }
            return None;
        }
    }
    Some(value)
}

/// Ten to the power of `n`.
fn power_of_ten(n: u32) -> (power: u128)
    requires
        n <= 18,
    ensures
        power == pow10(n as int),
        1 <= power <= 1_000_000_000_000_000_000,
{
    let mut power: u128 = 1;
    let mut k: u32 = 0;
    while k < n
        invariant
            0 <= k <= n <= 18,
            power == pow10(k as int),
            1 <= power <= 1_000_000_000_000_000_000,
        decreases n - k,
    {
        proof {
            lemma_pow10_grows(k as int + 1, 18);
            lemma_pow10_18();
        }
        power = power * 10;
        k += 1;
    }
    power
}

/// Where the parts of a decimal number stand, found.
struct FoundShape {
    negative: bool,
    whole_start: usize,
    whole_end: usize,
    part_start: usize,
    part_end: usize,
}

impl FoundShape {
    spec fn view(self) -> DecimalShape {
        DecimalShape {
            negative: self.negative,
            whole_start: self.whole_start as int,
            whole_end: self.whole_end as int,
            part_start: self.part_start as int,
            part_end: self.part_end as int,
        }
    }
}

/// Finds the shape of the decimal number that a text writes.
fn find_shape(chars: &[char]) -> (found: Option<FoundShape>)
    ensures
        found is Some == decimal_shape(chars@) is Some,
        found matches Some(shape) ==> decimal_shape(chars@) == Some(shape@)
            && shape.whole_start <= shape.whole_end <= chars@.len() && shape.part_start
            <= shape.part_end <= chars@.len(),
{
    let count = chars.len();
    let start = skip_spaces(chars, 0);
    let negative = start < count && chars[start] == '-';
    let signed = start < count && (chars[start] == '-' || chars[start] == '+');
    let whole_start = if signed {
        start + 1
    } else {
        start
    };
    let whole_end = skip_digits(chars, whole_start);
    let pointed = whole_end < count && chars[whole_end] == '.';
    let part_start = if pointed {
        whole_end + 1
    } else {
        whole_end
    };
    let part_end = if pointed {
        skip_digits(chars, part_start)
    } else {
        part_start
    };
    if (whole_end - whole_start) + (part_end - part_start) == 0 {
        return None;
    }
    if skip_spaces(chars, part_end) != count {
        return None;
    }
    Some(FoundShape { negative, whole_start, whole_end, part_start, part_end })
}

/// What stands after the point is worth less than one.
pub proof fn lemma_fraction_value_bounds(text: Seq<char>, from: int, to: int, places: int)
    requires
        from <= to,
        0 <= places,
    ensures
        0 <= fraction_value(text, from, to, places) < pow10(places),
{
    if to - from >= places {
        lemma_digits_value_bounds(text, from, from + places);
    } else {
        let short = to - from;
        let digits = digits_value(text, from, to);
        let padding = pow10(places - short);
        lemma_digits_value_bounds(text, from, to);
        lemma_pow10_product(short, places - short);
        lemma_pow10_grows(places - short, places - short);
        assert(0 <= digits * padding < pow10(short) * padding) by (nonlinear_arith)
            requires
                0 <= digits < pow10(short),
                padding >= 1,
        ;
    }
}

/// Reads what stands after the point of a number, in units of ten to the
/// power of minus `places`.
fn read_fraction(chars: &[char], from: usize, to: usize, places: u32) -> (part: u128)
    requires
        from <= to <= chars@.len(),
        places <= 18,
    ensures
        part == fraction_value(chars@, from as int, to as int, places as int),
        part < pow10(places as int),
        part < 1_000_000_000_000_000_000,
{
    let taken: usize = if to - from >= places as usize {
        places as usize
    } else {
        to - from
    };
    proof {
        lemma_fraction_value_bounds(chars@, from as int, to as int, places as int);
        lemma_digits_value_bounds(chars@, from as int, from as int + taken);
        lemma_pow10_grows(taken as int, 18);
        lemma_pow10_grows(places as int, 18);
        lemma_pow10_18();
    }
    let digits: u128 = match read_digits(chars, from, from + taken) {
        Some(digits) => digits,
        None => 0,
    };
    let padding = power_of_ten(places - taken as u32);
    proof {
        assert(digits * padding <= 1_000_000_000_000_000_000 * 1_000_000_000_000_000_000)
            by (nonlinear_arith)
            requires
                0 <= digits <= 1_000_000_000_000_000_000,
                0 <= padding <= 1_000_000_000_000_000_000,
        ;
        if taken == places {
            assert(padding == 1);
            assert(digits * padding == digits) by (nonlinear_arith)
                requires
                    padding == 1,
            ;
        }
    }
    digits * padding
}

/// Reads a decimal number in units of ten to the power of minus `places`.
/// There is no number when the text does not write one or when the number
/// does not fit in 64 bits.
pub fn parse_decimal(chars: &[char], places: u32) -> (number: Option<i64>)
    requires
        places <= 18,
    ensures
        number == decimal_i64(chars@, places as int),
{
    let shape = match find_shape(chars) {
        Some(shape) => shape,
        None => {
            return None;
        },
    };
    let scale = power_of_ten(places);
    let part = read_fraction(chars, shape.part_start, shape.part_end, places);
    let ghost whole_value = digits_value(chars@, shape.whole_start as int, shape.whole_end as int);
    let whole = match read_digits(chars, shape.whole_start, shape.whole_end) {
        Some(whole) => whole,
        None => {
            proof {
                let size = shape_size(chars@, shape@, places as int);
                assert(size == whole_value * scale + part);
                assert(whole_value * scale + part > READ_LIMIT) by (nonlinear_arith)
                    requires
                        whole_value > READ_LIMIT,
                        scale >= 1,
                        part >= 0,
                ;
                assert(decimal_value(chars@, places as int) == Some(
                    if shape.negative {
                        -size
                    } else {
                        size
                    },
                ));
            }
            return None;
        },
    };
    proof {
        assert(whole * scale <= READ_LIMIT * 1_000_000_000_000_000_000) by (nonlinear_arith)
            requires
                0 <= whole <= READ_LIMIT,
                0 <= scale <= 1_000_000_000_000_000_000,
        ;
    }
    let size: u128 = whole * scale + part;
    assert(size == shape_size(chars@, shape@, places as int));
    if shape.negative {
        if size > 0x8000_0000_0000_0000 {
            None
        } else {
            Some((-(size as i128)) as i64)
        }
    } else {
        if size > 0x7fff_ffff_ffff_ffff {
            None
        } else {
            Some(size as i64)
        }
    }
}

/// The product of two powers of ten is the power of the sum of the
/// exponents.
pub proof fn lemma_pow10_product(a: int, b: int)
    requires
        0 <= a,
        0 <= b,
    ensures
        pow10(a) * pow10(b) == pow10(a + b),
    decreases a,
{
    if a > 0 {
        lemma_pow10_product(a - 1, b);
        assert(10 * pow10(a - 1) * pow10(b) == 10 * (pow10(a - 1) * pow10(b)))
            by (nonlinear_arith);
    }
}

/// The index of the first `letter` in a text from `from` on; the length of
/// the text when there is none.
pub open spec fn first_index(text: Seq<char>, letter: char, from: int) -> int
    decreases text.len() - from,
{
    if from < 0 || from >= text.len() || text[from] == letter {
        from
    } else {
        first_index(text, letter, from + 1)
    }
}

/// The first index of a letter lies within the text or at its end, and no
/// earlier character is the letter.
pub proof fn lemma_first_index_bounds(text: Seq<char>, letter: char, from: int)
    requires
        0 <= from <= text.len(),
    ensures
        from <= first_index(text, letter, from) <= text.len(),
        first_index(text, letter, from) < text.len() ==> text[first_index(text, letter, from)]
            == letter,
        forall|i: int| from <= i < first_index(text, letter, from) ==> text[i] != letter,
    decreases text.len() - from,
{
    if from < text.len() && text[from] != letter {
        lemma_first_index_bounds(text, letter, from + 1);
    }
}

/// Appends one character to a text.
///
/// Calls `String::push` of the standard library, which appends the given
/// `char` to the end of the string.
#[verifier::external_body]
pub(crate) fn push_char(text: &mut String, c: char)
    ensures
        final(text)@ == old(text)@.push(c),
{
    text.push(c);
}

/// The text of a run of characters.
pub fn string_of(chars: &[char]) -> (text: String)
    ensures
        text@ == chars@,
{
    let mut text = String::new();
    let mut i: usize = 0;
    while i < chars.len()
        invariant
            0 <= i <= chars.len(),
            text@ == chars@.take(i as int),
        decreases chars.len() - i,
    {
        push_char(&mut text, chars[i]);
        proof {
            assert(text@ =~= chars@.take(i as int + 1));
        }
        i += 1;
    }
    proof {
        assert(chars@.take(i as int) =~= chars@);
    }
    text
}

/// The characters from `from` up to `to`.
pub fn copy_range(chars: &[char], from: usize, to: usize) -> (part: Vec<char>)
    requires
        from <= to <= chars@.len(),
    ensures
        part@ == chars@.subrange(from as int, to as int),
{
    let mut part: Vec<char> = Vec::new();
    let mut i: usize = from;
    while i < to
        invariant
            from <= i <= to <= chars.len(),
            part@ == chars@.subrange(from as int, i as int),
        decreases to - i,
    {
        part.push(chars[i]);
        proof {
            assert(part@ =~= chars@.subrange(from as int, i as int + 1));
        }
        i += 1;
    }
    part
}

/// The index of the first `letter` of a text; the length of the text when
/// there is none.
pub fn find_letter(chars: &[char], letter: char) -> (index: usize)
    ensures
        index == first_index(chars@, letter, 0),
        index <= chars@.len(),
{
    let mut index: usize = 0;
    while index < chars.len() && chars[index] != letter
        invariant
            0 <= index <= chars.len(),
            first_index(chars@, letter, index as int) == first_index(chars@, letter, 0),
        decreases chars.len() - index,
    {
        index += 1;
    }
    index
}

} // verus!
