//! Text as sequences of characters: words, numbers in decimal, white space.

use vstd::prelude::*;

verus! {

/// The characters of a string, in their order.
pub fn to_chars(s: &str) -> (chars: Vec<char>)
    ensures
        chars@ == s@,
{
    broadcast use vstd::string::group_string_axioms;

    let mut chars: Vec<char> = Vec::new();
    for c in it: s.chars()
        invariant
            it.seq() == s@,
            chars@ == it.seq().subrange(0, it.index() as int),
    {
        chars.push(c);
    }
    chars
}

/// `String::push`: the character is added at the end of the string.
#[verifier::external_body]
fn push_char(s: &mut String, c: char)
    ensures
        final(s)@ == old(s)@.push(c),
{
    s.push(c)
}

/// The string made of the characters, in their order.
pub fn to_string(chars: &Vec<char>) -> (s: String)
    ensures
        s@ == chars@,
{
    let mut s: String = String::new();
    let mut i: usize = 0;
    while i < chars.len()
        invariant
            i <= chars@.len(),
            s@ == chars@.subrange(0, i as int),
        decreases chars@.len() - i,
    {
        push_char(&mut s, chars[i]);
        i += 1;
    }
    s
}

/// Whether the text is the given word.
pub fn is_word(text: &Vec<char>, word: &str) -> (same: bool)
    ensures
        same == (text@ == word@),
{
    let other: Vec<char> = to_chars(word);
    if text.len() != other.len() {
        return false;
    }
    let mut i: usize = 0;
    while i < text.len()
        invariant
            i <= text@.len(),
            other@ == word@,
            text@.len() == other@.len(),
            forall|j: int| 0 <= j < i ==> text@[j] == other@[j],
        decreases text@.len() - i,
    {
        if text[i] != other[i] {
            return false;
        }
        i += 1;
    }
    assert(text@ =~= other@);
    true
}

/// Adds the characters of a word at the end of a text.
pub fn push_word(out: &mut Vec<char>, word: &str)
    ensures
        final(out)@ == old(out)@ + word@,
{
    let other: Vec<char> = to_chars(word);
    push_all(out, &other);
}

/// Adds the characters of another text at the end of a text.
pub fn push_all(out: &mut Vec<char>, more: &Vec<char>)
    ensures
        final(out)@ == old(out)@ + more@,
{
    let mut i: usize = 0;
    while i < more.len()
        invariant
            i <= more@.len(),
            out@ == old(out)@ + more@.subrange(0, i as int),
        decreases more@.len() - i,
    {
        out.push(more[i]);
        i += 1;
    }
}

/// The part of a text between two places.
pub fn slice(text: &Vec<char>, from: usize, to: usize) -> (part: Vec<char>)
    requires
        from <= to <= text@.len(),
    ensures
        part@ == text@.subrange(from as int, to as int),
{
    let mut part: Vec<char> = Vec::new();
    let mut i: usize = from;
    while i < to
        invariant
            from <= i <= to,
            to <= text@.len(),
            part@ == text@.subrange(from as int, i as int),
        decreases to - i,
    {
        part.push(text[i]);
        i += 1;
    }
    part
}

/// The character of a decimal digit.
pub open spec fn spec_digit(d: int) -> char {
    if d == 0 {
        '0'
    } else if d == 1 {
        '1'
    } else if d == 2 {
        '2'
    } else if d == 3 {
        '3'
    } else if d == 4 {
        '4'
    } else if d == 5 {
        '5'
    } else if d == 6 {
        '6'
    } else if d == 7 {
        '7'
    } else if d == 8 {
        '8'
    } else {
        '9'
    }
}

/// The value of a character that is a decimal digit.
pub open spec fn spec_digit_value(c: char) -> Option<int> {
    if c == '0' {
        Some(0)
    } else if c == '1' {
        Some(1)
    } else if c == '2' {
        Some(2)
    } else if c == '3' {
        Some(3)
    } else if c == '4' {
        Some(4)
    } else if c == '5' {
        Some(5)
    } else if c == '6' {
        Some(6)
    } else if c == '7' {
        Some(7)
    } else if c == '8' {
        Some(8)
    } else if c == '9' {
        Some(9)
    } else {
        None
    }
}

pub fn digit(d: usize) -> (c: char)
    requires
        d < 10,
    ensures
        c == spec_digit(d as int),
        spec_digit_value(c) == Some(d as int),
{
    if d == 0 {
        '0'
    } else if d == 1 {
        '1'
    } else if d == 2 {
        '2'
    } else if d == 3 {
        '3'
    } else if d == 4 {
        '4'
    } else if d == 5 {
        '5'
    } else if d == 6 {
        '6'
    } else if d == 7 {
        '7'
    } else if d == 8 {
        '8'
    } else {
        '9'
    }
}

pub fn digit_value(c: char) -> (d: Option<u8>)
    ensures
        match d {
            Some(v) => spec_digit_value(c) == Some(v as int) && v < 10,
            None => spec_digit_value(c) is None,
        },
{
    if c == '0' {
        Some(0)
    } else if c == '1' {
        Some(1)
    } else if c == '2' {
        Some(2)
    } else if c == '3' {
        Some(3)
    } else if c == '4' {
        Some(4)
    } else if c == '5' {
        Some(5)
    } else if c == '6' {
        Some(6)
    } else if c == '7' {
        Some(7)
    } else if c == '8' {
        Some(8)
    } else if c == '9' {
        Some(9)
    } else {
        None
    }
}

/// A number written in decimal, without leading zeros.
pub open spec fn decimal(n: nat) -> Seq<char>
    decreases n,
{
    if n < 10 {
        seq![spec_digit(n as int)]
    } else {
        decimal(n / 10).push(spec_digit((n % 10) as int))
    }
}

/// Writes a number in decimal at the end of a text.
pub fn push_decimal_wide(out: &mut Vec<char>, n: u128)
    ensures
        final(out)@ == old(out)@ + decimal(n as nat),
    decreases n,
{
    if n >= 10 {
        push_decimal_wide(out, n / 10);
    }
    out.push(digit((n % 10) as usize));
}

/// Writes a number in decimal at the end of a text.
pub fn push_decimal(out: &mut Vec<char>, n: usize)
    ensures
        final(out)@ == old(out)@ + decimal(n as nat),
{
    push_decimal_wide(out, n as u128);
}

/// The small letter of a capital letter of the alphabet from A to Z, and
/// every other character as it is.
pub open spec fn spec_lower(c: char) -> char {
    if 'A' <= c <= 'Z' {
        ((c as u32) + 32) as char
    } else {
        c
    }
}

pub fn lower(c: char) -> (l: char)
    ensures
        l == spec_lower(c),
{
    if 'A' <= c && c <= 'Z' {
        let u: u8 = c as u8;
        (u + 32) as char
    } else {
        c
    }
}

/// A text with its capital letters from A to Z made small.
pub open spec fn lowered(s: Seq<char>) -> Seq<char> {
    Seq::new(s.len(), |i: int| spec_lower(s[i]))
}

pub fn lower_text(text: &Vec<char>) -> (out: Vec<char>)
    ensures
        out@ == lowered(text@),
{
    let mut out: Vec<char> = Vec::new();
    let mut i: usize = 0;
    while i < text.len()
        invariant
            i <= text@.len(),
            out@.len() == i,
            forall|j: int| 0 <= j < i ==> out@[j] == spec_lower(text@[j]),
        decreases text@.len() - i,
    {
        out.push(lower(text[i]));
        i += 1;
    }
    out
}

/// Every character is a decimal digit.
pub open spec fn all_digits(s: Seq<char>) -> bool {
    forall|i: int| 0 <= i < s.len() ==> spec_digit_value(#[trigger] s[i]) is Some
}

/// The number that a sequence of decimal digits writes; 0 for no digit.
pub open spec fn value_of(s: Seq<char>) -> nat
    decreases s.len(),
{
    if s.len() == 0 {
        0
    } else {
        match spec_digit_value(s.last()) {
            Some(d) => (value_of(s.drop_last()) * 10 + d) as nat,
            None => 0,
        }
    }
}

/// The number below 256 that a text writes: an optional plus sign, then one
/// decimal digit at least and nothing else.
pub open spec fn spec_parse_u8(s: Seq<char>) -> Option<u8> {
    let digits = if s.len() > 0 && s[0] == '+' {
        s.subrange(1, s.len() as int)
    } else {
        s
    };
    if digits.len() > 0 && all_digits(digits) && value_of(digits) <= 255 {
        Some(value_of(digits) as u8)
    } else {
        None
    }
}

/// The value of a longer sequence of digits is no smaller.
pub proof fn lemma_value_grows(s: Seq<char>, n: int)
    requires
        0 <= n <= s.len(),
        all_digits(s),
    ensures
        value_of(s.subrange(0, n)) <= value_of(s),
    decreases s.len() - n,
{
    if n < s.len() {
        lemma_value_grows(s, n + 1);
        let longer = s.subrange(0, n + 1);
        assert(longer.drop_last() =~= s.subrange(0, n));
    } else {
        assert(s.subrange(0, n) =~= s);
    }
}

pub fn parse_u8(text: &Vec<char>) -> (n: Option<u8>)
    ensures
        n == spec_parse_u8(text@),
{
    let from: usize = if text.len() > 0 && text[0] == '+' {
        1
    } else {
        0
    };
    let ghost digits = text@.subrange(from as int, text@.len() as int);
    if from >= text.len() {
        return None;
    }
    let mut value: u16 = 0;
    let mut i: usize = from;
    while i < text.len()
        invariant
            from <= i <= text@.len(),
            from == if text@.len() > 0 && text@[0] == '+' {
                1usize
            } else {
                0usize
            },
            from == 0 ==> digits == text@,
            digits == text@.subrange(from as int, text@.len() as int),
            all_digits(digits.subrange(0, i - from)),
            value == value_of(digits.subrange(0, i - from)),
            value <= 255,
        decreases text@.len() - i,
    {
        let ghost before = digits.subrange(0, i - from);
        let ghost now = digits.subrange(0, i - from + 1);
        proof {
            assert(now.drop_last() =~= before);
            assert(now.last() == text@[i as int]);
        }
        match digit_value(text[i]) {
            None => {
                return None;
            },
            Some(d) => {
                let next: u16 = value * 10 + (d as u16);
                proof {
                    assert forall|j: int| 0 <= j < now.len() implies spec_digit_value(
                        #[trigger] now[j],
                    ) is Some by {}
                }
                if next > 255 {
                    proof {
                        if all_digits(digits) {
                            lemma_value_grows(digits, i - from + 1);
                        }
                    }
                    return None;
                }
                value = next;
            },
        }
        i += 1;
    }
    proof {
        assert(digits.subrange(0, i - from) =~= digits);
    }
    Some(value as u8)
}

/// The characters that count as white space.
pub open spec fn spec_is_white(c: char) -> bool {
    let u = c as u32;
    ||| 9 <= u <= 13
    ||| u == 0x20
    ||| u == 0x85
    ||| u == 0xA0
    ||| u == 0x1680
    ||| 0x2000 <= u <= 0x200A
    ||| u == 0x2028
    ||| u == 0x2029
    ||| u == 0x202F
    ||| u == 0x205F
    ||| u == 0x3000
}

pub fn is_white(c: char) -> (white: bool)
    ensures
        white == spec_is_white(c),
{
    let u: u32 = c as u32;
    (9 <= u && u <= 13) || u == 0x20 || u == 0x85 || u == 0xA0 || u == 0x1680 || (0x2000 <= u && u
        <= 0x200A) || u == 0x2028 || u == 0x2029 || u == 0x202F || u == 0x205F || u == 0x3000
}

/// The place of the first character that is not white space, the length of
/// the text where there is none.
pub open spec fn first_black(s: Seq<char>, from: int) -> int
    decreases s.len() - from,
{
    if from >= s.len() {
        s.len() as int
    } else if !spec_is_white(s[from]) {
        from
    } else {
        first_black(s, from + 1)
    }
}

/// The place after the last character that is not white space, looking
/// backwards from `to` and not further than `from`.
pub open spec fn last_black(s: Seq<char>, from: int, to: int) -> int
    decreases to,
{
    if to <= from || to <= 0 {
        from
    } else if !spec_is_white(s[to - 1]) {
        to
    } else {
        last_black(s, from, to - 1)
    }
}

/// The text without the white space at its two ends.
pub open spec fn trimmed(s: Seq<char>) -> Seq<char> {
    let from = first_black(s, 0);
    let to = last_black(s, from, s.len() as int);
    s.subrange(from, to)
}

/// What `first_black` gives lies within the text, at or after `from`.
pub proof fn lemma_first_black(s: Seq<char>, from: int)
    requires
        0 <= from <= s.len(),
    ensures
        from <= first_black(s, from) <= s.len(),
    decreases s.len() - from,
{
    if from < s.len() && spec_is_white(s[from]) {
        lemma_first_black(s, from + 1);
    }
}

/// What `last_black` gives lies between `from` and `to`.
pub proof fn lemma_last_black(s: Seq<char>, from: int, to: int)
    requires
        0 <= from <= to <= s.len(),
    ensures
        from <= last_black(s, from, to) <= to,
    decreases to,
{
    if to > from && to > 0 && spec_is_white(s[to - 1]) {
        lemma_last_black(s, from, to - 1);
    }
}

/// Takes the white space off the two ends of a text.
pub fn trim(text: &Vec<char>) -> (out: Vec<char>)
    ensures
        out@ == trimmed(text@),
{
    let mut from: usize = 0;
    while from < text.len() && is_white(text[from])
        invariant
            from <= text@.len(),
            first_black(text@, 0) == first_black(text@, from as int),
        decreases text@.len() - from,
    {
        from += 1;
    }
    let mut to: usize = text.len();
    while to > from && is_white(text[to - 1])
        invariant
            from <= to <= text@.len(),
            last_black(text@, from as int, text@.len() as int) == last_black(
                text@,
                from as int,
                to as int,
            ),
        decreases to,
    {
        to -= 1;
    }
    slice(text, from, to)
}

/// As many spaces as asked for.
pub open spec fn spaces(n: int) -> Seq<char> {
    Seq::new(
        if n > 0 {
            n as nat
        } else {
            0
        },
        |i: int| ' ',
    )
}

/// A text with spaces after it up to the given width.
pub open spec fn pad_right(s: Seq<char>, width: int) -> Seq<char> {
    s + spaces(width - s.len())
}

/// A text with spaces before it up to the given width.
pub open spec fn pad_left(s: Seq<char>, width: int) -> Seq<char> {
    spaces(width - s.len()) + s
}

/// Adds spaces at the end of a text.
pub fn push_spaces(out: &mut Vec<char>, n: usize)
    ensures
        final(out)@ == old(out)@ + spaces(n as int),
{
    let mut i: usize = 0;
    while i < n
        invariant
            i <= n,
            out@ == old(out)@ + spaces(i as int),
        decreases n - i,
    {
        out.push(' ');
        i += 1;
    }
}

/// Writes a number in decimal at the end of a text, with spaces before it
/// up to the given width where `left` is false, and after it where it is true.
pub fn push_padded(out: &mut Vec<char>, n: usize, width: usize, left: bool)
    ensures
        final(out)@ == old(out)@ + if left {
            pad_right(decimal(n as nat), width as int)
        } else {
            pad_left(decimal(n as nat), width as int)
        },
{
    let mut number: Vec<char> = Vec::new();
    push_decimal(&mut number, n);
    let fill: usize = if number.len() < width {
        width - number.len()
    } else {
        0
    };
    if left {
        push_all(out, &number);
        push_spaces(out, fill);
    } else {
        push_spaces(out, fill);
        push_all(out, &number);
    }
}

/// The place of the first `c` at or after `from`, the length of the text
/// where there is none.
pub open spec fn spec_find(s: Seq<char>, c: char, from: int) -> int
    decreases s.len() - from,
{
    if from >= s.len() {
        s.len() as int
    } else if s[from] == c {
        from
    } else {
        spec_find(s, c, from + 1)
    }
}

/// What `spec_find` gives lies within the text, at or after `from`.
pub proof fn lemma_find(s: Seq<char>, c: char, from: int)
    requires
        0 <= from <= s.len(),
    ensures
        from <= spec_find(s, c, from) <= s.len(),
    decreases s.len() - from,
{
    if from < s.len() && s[from] != c {
        lemma_find(s, c, from + 1);
    }
}

pub fn find(text: &Vec<char>, c: char, from: usize) -> (at: usize)
    requires
        from <= text@.len(),
    ensures
        at == spec_find(text@, c, from as int),
        from <= at <= text@.len(),
{
    let mut at: usize = from;
    while at < text.len() && text[at] != c
        invariant
            from <= at <= text@.len(),
            spec_find(text@, c, from as int) == spec_find(text@, c, at as int),
        decreases text@.len() - at,
    {
        at += 1;
    }
    at
}

/// The number up to `max` that a text of decimal digits writes: one digit
/// at least and nothing else.
pub open spec fn spec_parse_bounded(s: Seq<char>, max: u32) -> Option<u32> {
    if s.len() > 0 && all_digits(s) && value_of(s) <= max {
        Some(value_of(s) as u32)
    } else {
        None
    }
}

pub fn parse_bounded(text: &Vec<char>, max: u32) -> (n: Option<u32>)
    ensures
        n == spec_parse_bounded(text@, max),
{
    if text.len() == 0 {
        return None;
    }
    let mut value: u64 = 0;
    let mut i: usize = 0;
    while i < text.len()
        invariant
            i <= text@.len(),
            all_digits(text@.subrange(0, i as int)),
            value == value_of(text@.subrange(0, i as int)),
            value <= max,
        decreases text@.len() - i,
    {
        let ghost before = text@.subrange(0, i as int);
        let ghost now = text@.subrange(0, i + 1);
        proof {
            assert(now.drop_last() =~= before);
        }
        match digit_value(text[i]) {
            None => {
                return None;
            },
            Some(d) => {
                let next: u64 = value * 10 + (d as u64);
                proof {
                    assert forall|j: int| 0 <= j < now.len() implies spec_digit_value(
                        #[trigger] now[j],
                    ) is Some by {}
                }
                if next > max as u64 {
                    proof {
                        if all_digits(text@) {
                            lemma_value_grows(text@, i + 1);
                        }
                    }
                    return None;
                }
                value = next;
            },
        }
        i += 1;
    }
    proof {
        assert(text@.subrange(0, i as int) =~= text@);
    }
    Some(value as u32)
}

/// Whether every character of a text is a decimal digit.
pub fn only_digits(text: &Vec<char>) -> (b: bool)
    ensures
        b == all_digits(text@),
{
    let mut i: usize = 0;
    while i < text.len()
        invariant
            i <= text@.len(),
            forall|j: int| 0 <= j < i ==> spec_digit_value(#[trigger] text@[j]) is Some,
        decreases text@.len() - i,
    {
        if digit_value(text[i]).is_none() {
            return false;
        }
        i += 1;
    }
    true
}

} // verus!
