//! Text helpers shared by the parsers and formatters: strings as sequences of
//! characters, decimal and hexadecimal numbers, splitting.
use vstd::prelude::*;
use vstd::string::*;

verus! {

/// `String::push` appends the character.
pub assume_specification[ String::push ](text: &mut String, c: char)
    ensures
        final(text)@ == old(text)@.push(c),
;

/// Whether two strings hold the same characters.
pub fn same_text(a: &str, b: &str) -> (same: bool)
    ensures
        same == (a@ == b@),
{
    let left: String = a.to_owned();
    let right: String = b.to_owned();
    left == right
}

/// The characters of a string.
pub fn chars_of(text: &str) -> (chars: Vec<char>)
    ensures
        chars@ == text@,
{
    let mut chars: Vec<char> = Vec::new();
    for c in iter: text.chars()
        invariant
            chars@ == iter.seq().take(iter.index() as int),
            iter.seq() == text@,
    {
        chars.push(c);
    }
    chars
}

/// The string of the characters from `start` up to `end`.
pub fn text_between(chars: &Vec<char>, start: usize, end: usize) -> (text: String)
    requires
        start <= end <= chars.len(),
    ensures
        text@ == chars@.subrange(start as int, end as int),
{
    let mut text: String = String::new();
    let mut i: usize = start;
    while i < end
        invariant
            start <= i <= end <= chars.len(),
            text@ == chars@.subrange(start as int, i as int),
        decreases end - i,
    {
        text.push(chars[i]);
        proof {
            assert(chars@.subrange(start as int, i + 1) =~= chars@.subrange(
                start as int,
                i as int,
            ).push(chars@[i as int]));
        }
        i += 1;
    }
    text
}

/// The character of a decimal digit.
pub open spec fn digit_char(d: int) -> char {
    (48 + d) as char
}

/// A number in decimal, without leading zeros.
pub open spec fn decimal(n: nat) -> Seq<char>
    decreases n,
{
    if n < 10 {
        seq![digit_char(n as int)]
    } else {
        decimal(n / 10).push(digit_char((n % 10) as int))
    }
}

fn digit(d: u64) -> (c: char)
    requires
        d < 10,
    ensures
        c == digit_char(d as int),
{
    (48u8 + d as u8) as char
}

/// Appends a number in decimal.
pub fn push_decimal(text: &mut String, n: u64)
    ensures
        final(text)@ == old(text)@ + decimal(n as nat),
    decreases n,
{
    if n >= 10 {
        push_decimal(text, n / 10);
    }
    text.push(digit(n % 10));
    proof {
        assert(final(text)@ =~= old(text)@ + decimal(n as nat));
    }
}

/// Appends a string.
pub fn push_text(text: &mut String, part: &str)
    ensures
        final(text)@ == old(text)@ + part@,
{
    text.append(part);
}

/// The string of some characters.
pub fn text_of(chars: &[char]) -> (text: String)
    ensures
        text@ == chars@,
{
    let mut text: String = String::new();
    let mut i: usize = 0;
    while i < chars.len()
        invariant
            i <= chars.len(),
            text@ == chars@.take(i as int),
        decreases chars.len() - i,
    {
        text.push(chars[i]);
        proof {
            assert(chars@.take(i + 1) =~= chars@.take(i as int).push(chars@[i as int]));
        }
        i += 1;
    }
    proof {
        assert(chars@.take(i as int) =~= chars@);
    }
    text
}

/// The pieces of a text between the separators.
pub open spec fn pieces(text: Seq<char>, separator: char) -> Seq<Seq<char>>
    decreases text.len(),
{
    if text.len() == 0 {
        seq![Seq::empty()]
    } else {
        let before = pieces(text.drop_last(), separator);
        if text.last() == separator {
            before.push(Seq::empty())
        } else {
            before.drop_last().push(before.last().push(text.last()))
        }
    }
}

pub proof fn lemma_pieces_not_empty(text: Seq<char>, separator: char)
    ensures
        pieces(text, separator).len() > 0,
    decreases text.len(),
{
    if text.len() > 0 {
        lemma_pieces_not_empty(text.drop_last(), separator);
    }
}

/// A text without the separator is its only piece.
pub proof fn lemma_one_piece(text: Seq<char>, separator: char)
    requires
        !text.contains(separator),
    ensures
        pieces(text, separator) == seq![text],
    decreases text.len(),
{
    if text.len() > 0 {
        let before = text.drop_last();
        assert(!before.contains(separator)) by {
            if before.contains(separator) {
                let i = choose|i: int| 0 <= i < before.len() && before[i] == separator;
                assert(text[i] == separator);
            }
        }
        assert(text.last() != separator) by {
            assert(text[text.len() - 1] == text.last());
        }
        lemma_one_piece(before, separator);
        assert(before.push(text.last()) =~= text);
        assert(pieces(text, separator) =~= seq![text]);
    } else {
        assert(text =~= Seq::<char>::empty());
    }
}

/// The pieces on both sides of a separator follow each other.
pub proof fn lemma_pieces_join(left: Seq<char>, separator: char, right: Seq<char>)
    ensures
        pieces(left.push(separator) + right, separator) == pieces(left, separator) + pieces(
            right,
            separator,
        ),
    decreases right.len(),
{
    let whole = left.push(separator) + right;
    if right.len() == 0 {
        assert(whole =~= left.push(separator));
        assert(whole.drop_last() =~= left);
        assert(pieces(whole, separator) =~= pieces(left, separator) + pieces(right, separator));
    } else {
        assert(whole.drop_last() =~= left.push(separator) + right.drop_last());
        assert(whole.last() == right.last());
        lemma_pieces_join(left, separator, right.drop_last());
        lemma_pieces_not_empty(right.drop_last(), separator);
        assert(pieces(whole, separator) =~= pieces(left, separator) + pieces(right, separator));
    }
}

/// No piece holds a separator.
pub proof fn lemma_pieces_hold_no_separator(text: Seq<char>, separator: char, i: int)
    requires
        0 <= i < pieces(text, separator).len(),
    ensures
        !pieces(text, separator)[i].contains(separator),
    decreases text.len(),
{
    if text.len() > 0 {
        lemma_pieces_not_empty(text.drop_last(), separator);
        let before = pieces(text.drop_last(), separator);
        if i < before.len() {
            lemma_pieces_hold_no_separator(text.drop_last(), separator, i);
        }
        if text.last() != separator && i == before.len() - 1 {
            let piece = before.last().push(text.last());
            assert(pieces(text, separator)[i] == piece);
            if piece.contains(separator) {
                let k = choose|k: int| 0 <= k < piece.len() && piece[k] == separator;
                assert(k < before.last().len());
                assert(before.last()[k] == separator);
            }
        }
    }
}

/// The characters that the strings hold.
pub open spec fn char_views(parts: Seq<Vec<char>>) -> Seq<Seq<char>> {
    parts.map_values(|p: Vec<char>| p@)
}

/// Splits some characters at each separator.
pub fn split_chars(chars: &[char], separator: char) -> (parts: Vec<Vec<char>>)
    ensures
        char_views(parts@) == pieces(chars@, separator),
{
    let mut parts: Vec<Vec<char>> = Vec::new();
    let mut current: Vec<char> = Vec::new();
    let mut i: usize = 0;
    proof {
        assert(chars@.take(0) =~= Seq::<char>::empty());
        assert(char_views(parts@).push(current@) =~= pieces(chars@.take(0), separator));
    }
    while i < chars.len()
        invariant
            i <= chars.len(),
            char_views(parts@).push(current@) == pieces(chars@.take(i as int), separator),
        decreases chars.len() - i,
    {
        let c: char = chars[i];
        let ghost done = parts@;
        let ghost open = current@;
        proof {
            assert(chars@.take(i + 1).drop_last() =~= chars@.take(i as int));
            assert(chars@.take(i + 1).last() == c);
            let before = char_views(done).push(open);
            assert(before.drop_last() =~= char_views(done));
        }
        if c == separator {
            parts.push(current);
            current = Vec::new();
            proof {
                assert(char_views(parts@) =~= char_views(done).push(open));
            }
        } else {
            current.push(c);
        }
        i += 1;
    }
    let ghost done = parts@;
    let ghost open = current@;
    parts.push(current);
    proof {
        assert(chars@.take(i as int) =~= chars@);
        assert(char_views(parts@) =~= char_views(done).push(open));
    }
    parts
}

/// Whether some characters start with a prefix.
pub open spec fn starts_with(text: Seq<char>, prefix: Seq<char>) -> bool {
    prefix.len() <= text.len() && text.take(prefix.len() as int) == prefix
}

/// What follows the prefix, where the text starts with it.
pub fn strip_prefix(chars: &[char], prefix: &str) -> (rest: Option<Vec<char>>)
    ensures
        match rest {
            Some(r) => starts_with(chars@, prefix@) && r@ == chars@.skip(prefix@.len() as int),
            None => !starts_with(chars@, prefix@),
        },
{
    let expected: Vec<char> = chars_of(prefix);
    if chars.len() < expected.len() {
        return None;
    }
    let mut i: usize = 0;
    while i < expected.len()
        invariant
            i <= expected.len() <= chars.len(),
            expected@ == prefix@,
            chars@.take(i as int) == prefix@.take(i as int),
        decreases expected.len() - i,
    {
        if chars[i] != expected[i] {
            proof {
                assert(chars@.take(expected@.len() as int)[i as int] == chars@[i as int]);
            }
            return None;
        }
        proof {
            assert(chars@.take(i + 1) =~= chars@.take(i as int).push(chars@[i as int]));
            assert(prefix@.take(i + 1) =~= prefix@.take(i as int).push(prefix@[i as int]));
        }
        i += 1;
    }
    proof {
        assert(prefix@.take(i as int) =~= prefix@);
    }
    let mut rest: Vec<char> = Vec::new();
    while i < chars.len()
        invariant
            prefix@.len() <= i <= chars.len(),
            rest@ == chars@.subrange(prefix@.len() as int, i as int),
        decreases chars.len() - i,
    {
        rest.push(chars[i]);
        proof {
            assert(chars@.subrange(prefix@.len() as int, i + 1) =~= chars@.subrange(
                prefix@.len() as int,
                i as int,
            ).push(chars@[i as int]));
        }
        i += 1;
    }
    proof {
        assert(rest@ =~= chars@.skip(prefix@.len() as int));
    }
    Some(rest)
}

/// Where the character first occurs.
pub fn find_char(chars: &[char], c: char) -> (index: Option<usize>)
    ensures
        match index {
            Some(i) => {
                &&& i < chars@.len()
                &&& chars@[i as int] == c
                &&& !chars@.take(i as int).contains(c)
            },
            None => !chars@.contains(c),
        },
{
    let mut i: usize = 0;
    while i < chars.len()
        invariant
            i <= chars.len(),
            forall|k: int| 0 <= k < i ==> chars@[k] != c,
        decreases chars.len() - i,
    {
        if chars[i] == c {
            return Some(i);
        }
        i += 1;
    }
    None
}

/// The value of a digit in bases up to sixteen, and nothing for other
/// characters.
pub open spec fn digit_value(c: char) -> Option<int> {
    if '0' <= c && c <= '9' {
        Some(c as int - 48)
    } else if 'a' <= c && c <= 'f' {
        Some(c as int - 97 + 10)
    } else if 'A' <= c && c <= 'F' {
        Some(c as int - 65 + 10)
    } else {
        None
    }
}

/// Whether the character is a digit of the base.
pub open spec fn is_digit(c: char, base: int) -> bool {
    digit_value(c) matches Some(d) && d < base
}

/// The number that the digits write in the base.
pub open spec fn number_value(digits: Seq<char>, base: int) -> int
    decreases digits.len(),
{
    if digits.len() == 0 {
        0
    } else {
        number_value(digits.drop_last(), base) * base + digit_value(digits.last())->0
    }
}

/// The digits of a number: without the plus sign that may lead them.
pub open spec fn digits_of(text: Seq<char>) -> Seq<char> {
    if text.len() > 0 && text[0] == '+' {
        text.skip(1)
    } else {
        text
    }
}

/// The number that a text writes: one or more digits, a plus sign before them
/// or none, and no more than `max`.
pub open spec fn parsed(text: Seq<char>, base: int, max: int) -> Option<int> {
    let digits = digits_of(text);
    if digits.len() > 0 && (forall|i: int| 0 <= i < digits.len() ==> is_digit(digits[i], base))
        && number_value(digits, base) <= max {
        Some(number_value(digits, base))
    } else {
        None
    }
}

fn digit_number(c: char) -> (value: Option<u64>)
    ensures
        match value {
            Some(v) => digit_value(c) == Some(v as int),
            None => digit_value(c) is None,
        },
{
    if '0' <= c && c <= '9' {
        Some(c as u64 - 48)
    } else if 'a' <= c && c <= 'f' {
        Some(c as u64 - 97 + 10)
    } else if 'A' <= c && c <= 'F' {
        Some(c as u64 - 65 + 10)
    } else {
        None
    }
}

proof fn lemma_number_grows(digits: Seq<char>, base: int, i: int)
    requires
        1 <= base,
        0 <= i <= digits.len(),
        forall|k: int| 0 <= k < digits.len() ==> is_digit(#[trigger] digits[k], base),
    ensures
        0 <= number_value(digits.take(i), base) <= number_value(digits, base),
    decreases digits.len(),
{
    if digits.len() == 0 {
        assert(digits.take(i) =~= digits);
    } else {
        let shorter = digits.drop_last();
        let last = digits[digits.len() - 1];
        assert(is_digit(last, base));
        if i == digits.len() {
            assert(digits.take(i) =~= digits);
            lemma_number_grows(shorter, base, i - 1);
            assert(number_value(shorter, base) * base >= 0) by (nonlinear_arith)
                requires
                    number_value(shorter, base) >= 0,
                    base >= 1,
            ;
        } else {
            assert(shorter.take(i) =~= digits.take(i));
            lemma_number_grows(shorter, base, i);
            assert(number_value(shorter, base) * base >= number_value(shorter, base))
                by (nonlinear_arith)
                requires
                    number_value(shorter, base) >= 0,
                    base >= 1,
            ;
        }
    }
}

/// Reads a number in the base.
pub fn parse_number(chars: &[char], base: u64, max: u64) -> (number: Option<u64>)
    requires
        2 <= base <= 16,
    ensures
        match number {
            Some(n) => parsed(chars@, base as int, max as int) == Some(n as int),
            None => parsed(chars@, base as int, max as int) is None,
        },
{
    let ghost digits = digits_of(chars@);
    let mut i: usize = if chars.len() > 0 && chars[0] == '+' { 1 } else { 0 };
    let ghost skipped = i as int;
    if i == chars.len() {
        assert(digits.len() == 0);
        return None;
    }
    let mut number: u64 = 0;
    proof {
        assert(digits.take(0) =~= Seq::<char>::empty());
    }
    while i < chars.len()
        invariant
            digits == digits_of(chars@),
            0 <= skipped <= 1,
            digits.len() == chars.len() - skipped,
            forall|k: int| 0 <= k < digits.len() ==> digits[k] == chars@[k + skipped],
            skipped <= i <= chars.len(),
            2 <= base <= 16,
            number == number_value(digits.take(i - skipped), base as int),
            number <= max,
            forall|k: int| 0 <= k < i - skipped ==> is_digit(#[trigger] digits[k], base as int),
        decreases chars.len() - i,
    {
        let at: Ghost<int> = Ghost(i - skipped);
        proof {
            assert(digits[at@] == chars@[i as int]);
            assert(digits.take(at@ + 1).drop_last() =~= digits.take(at@));
        }
        let value: u64 = match digit_number(chars[i]) {
            Some(value) => value,
            None => {
                assert(!is_digit(digits[at@], base as int));
                return None;
            },
        };
        if value >= base {
            assert(!is_digit(digits[at@], base as int));
            return None;
        }
        let ghost next = number_value(digits.take(at@ + 1), base as int);
        proof {
            assert(next == number * base + value);
            if forall|k: int| 0 <= k < digits.len() ==> is_digit(#[trigger] digits[k], base as int) {
                lemma_number_grows(digits, base as int, at@ + 1);
            }
        }
        let scaled: u64 = match number.checked_mul(base) {
            Some(scaled) => scaled,
            None => {
                return None;
            },
        };
        number = match scaled.checked_add(value) {
            Some(sum) => sum,
            None => {
                return None;
            },
        };
        if number > max {
            return None;
        }
        i += 1;
    }
    proof {
        assert(digits.take(i - skipped) =~= digits);
    }
    Some(number)
}

/// Whether the character has the Unicode property `White_Space`.
pub open spec fn is_white(c: char) -> bool {
    let n = c as u32;
    ||| 0x9 <= n <= 0xd
    ||| n == 0x20
    ||| n == 0x85
    ||| n == 0xa0
    ||| n == 0x1680
    ||| 0x2000 <= n <= 0x200a
    ||| n == 0x2028
    ||| n == 0x2029
    ||| n == 0x202f
    ||| n == 0x205f
    ||| n == 0x3000
}

/// `char::is_whitespace` tells the characters with the Unicode property
/// `White_Space` from the others.
pub assume_specification[ char::is_whitespace ](c: char) -> (white: bool)
    ensures
        white == is_white(c),
;

/// The text without the white space at its end.
pub open spec fn trimmed_end(text: Seq<char>) -> Seq<char>
    decreases text.len(),
{
    if text.len() > 0 && is_white(text.last()) {
        trimmed_end(text.drop_last())
    } else {
        text
    }
}

/// The text without the white space at its start.
pub open spec fn trimmed_start(text: Seq<char>) -> Seq<char>
    decreases text.len(),
{
    if text.len() > 0 && is_white(text[0]) {
        trimmed_start(text.skip(1))
    } else {
        text
    }
}

/// The text without the white space around it.
pub open spec fn trimmed(text: Seq<char>) -> Seq<char> {
    trimmed_end(trimmed_start(text))
}

/// Removes the white space around some characters.
pub fn trim(chars: &[char]) -> (inner: Vec<char>)
    ensures
        inner@ == trimmed(chars@),
{
    let mut start: usize = 0;
    proof {
        assert(chars@.skip(0) =~= chars@);
    }
    while start < chars.len() && chars[start].is_whitespace()
        invariant
            start <= chars.len(),
            trimmed_start(chars@.skip(start as int)) == trimmed_start(chars@),
        decreases chars.len() - start,
    {
        proof {
            assert(chars@.skip(start as int).skip(1) =~= chars@.skip(start + 1));
        }
        start += 1;
    }
    let ghost rest = trimmed_start(chars@);
    proof {
        assert(rest == chars@.skip(start as int));
    }
    let mut end: usize = chars.len();
    proof {
        assert(chars@.subrange(start as int, end as int) =~= rest);
    }
    while end > start && chars[end - 1].is_whitespace()
        invariant
            start <= end <= chars.len(),
            trimmed_end(chars@.subrange(start as int, end as int)) == trimmed_end(rest),
        decreases end,
    {
        proof {
            assert(chars@.subrange(start as int, end as int).drop_last() =~= chars@.subrange(
                start as int,
                end - 1,
            ));
        }
        end -= 1;
    }
    let mut inner: Vec<char> = Vec::new();
    let mut i: usize = start;
    while i < end
        invariant
            start <= i <= end <= chars.len(),
            inner@ == chars@.subrange(start as int, i as int),
        decreases end - i,
    {
        inner.push(chars[i]);
        proof {
            assert(chars@.subrange(start as int, i + 1) =~= chars@.subrange(
                start as int,
                i as int,
            ).push(chars@[i as int]));
        }
        i += 1;
    }
    inner
}

/// Whether the needle stands in the text at `i`.
pub open spec fn occurs_at(text: Seq<char>, needle: Seq<char>, i: int) -> bool {
    &&& 0 <= i
    &&& i + needle.len() <= text.len()
    &&& text.subrange(i, i + needle.len()) == needle
}

fn occurs(chars: &[char], needle: &[char], at: usize) -> (found: bool)
    requires
        at <= chars@.len(),
    ensures
        found == occurs_at(chars@, needle@, at as int),
{
    if needle.len() > chars.len() - at {
        return false;
    }
    let mut i: usize = 0;
    while i < needle.len()
        invariant
            at + needle.len() <= chars.len(),
            i <= needle.len(),
            forall|k: int| 0 <= k < i ==> chars@[at + k] == needle@[k],
        decreases needle.len() - i,
    {
        if chars[at + i] != needle[i] {
            proof {
                assert(chars@.subrange(at as int, at + needle@.len())[i as int] == chars@[at + i]);
            }
            return false;
        }
        i += 1;
    }
    proof {
        assert(chars@.subrange(at as int, at + needle@.len()) =~= needle@);
    }
    true
}

/// Where the needle first stands in some characters.
pub fn find_text(chars: &[char], needle: &str) -> (index: Option<usize>)
    ensures
        match index {
            Some(i) => {
                &&& occurs_at(chars@, needle@, i as int)
                &&& forall|k: int| 0 <= k < i ==> !occurs_at(chars@, needle@, k)
            },
            None => forall|k: int| !occurs_at(chars@, needle@, k),
        },
{
    let wanted: Vec<char> = chars_of(needle);
    let mut i: usize = 0;
    while i < chars.len()
        invariant
            wanted@ == needle@,
            i <= chars.len(),
            forall|k: int| 0 <= k < i ==> !occurs_at(chars@, needle@, k),
        decreases chars.len() - i,
    {
        if occurs(chars, wanted.as_slice(), i) {
            return Some(i);
        }
        i += 1;
    }
    if occurs(chars, wanted.as_slice(), i) {
        return Some(i);
    }
    None
}

/// A letter in lower case, and any other character as it is.
pub open spec fn ascii_lower(c: char) -> char {
    if 'A' <= c && c <= 'Z' {
        ((c as int + 32) as u8) as char
    } else {
        c
    }
}

fn lower(c: char) -> (low: char)
    ensures
        low == ascii_lower(c),
{
    if 'A' <= c && c <= 'Z' {
        (c as u8 + 32) as char
    } else {
        c
    }
}

/// Whether two texts are the same but for the case of ASCII letters.
pub open spec fn same_ignoring_case(a: Seq<char>, b: Seq<char>) -> bool {
    &&& a.len() == b.len()
    &&& forall|i: int| 0 <= i < a.len() ==> ascii_lower(a[i]) == ascii_lower(b[i])
}

/// Compares two texts without regard to the case of ASCII letters.
pub fn equals_ignoring_case(a: &str, b: &str) -> (same: bool)
    ensures
        same == same_ignoring_case(a@, b@),
{
    let left: Vec<char> = chars_of(a);
    let right: Vec<char> = chars_of(b);
    if left.len() != right.len() {
        return false;
    }
    let mut i: usize = 0;
    while i < left.len()
        invariant
            left@ == a@,
            right@ == b@,
            left.len() == right.len(),
            i <= left.len(),
            forall|k: int| 0 <= k < i ==> ascii_lower(a@[k]) == ascii_lower(b@[k]),
        decreases left.len() - i,
    {
        if lower(left[i]) != lower(right[i]) {
            assert(ascii_lower(a@[i as int]) != ascii_lower(b@[i as int]));
            return false;
        }
        i += 1;
    }
    true
}

/// Where the needle first stands in the text at or after `i`.
pub open spec fn find_from(text: Seq<char>, needle: Seq<char>, i: int) -> Option<int>
    decreases text.len() + 1 - i,
{
    if i > text.len() {
        None
    } else if occurs_at(text, needle, i) {
        Some(i)
    } else {
        find_from(text, needle, i + 1)
    }
}

/// The first place of a needle is the one before which it does not stand.
pub proof fn lemma_find_from(text: Seq<char>, needle: Seq<char>, from: int, i: int)
    requires
        0 <= from <= i,
        occurs_at(text, needle, i),
        forall|k: int| from <= k < i ==> !occurs_at(text, needle, k),
    ensures
        find_from(text, needle, from) == Some(i),
    decreases i - from,
{
    if from < i {
        lemma_find_from(text, needle, from + 1, i);
    }
}

/// A needle that stands nowhere is not found.
pub proof fn lemma_find_none(text: Seq<char>, needle: Seq<char>, from: int)
    requires
        forall|k: int| !occurs_at(text, needle, k),
    ensures
        find_from(text, needle, from) is None,
    decreases text.len() + 1 - from,
{
    if from <= text.len() {
        lemma_find_none(text, needle, from + 1);
    }
}

/// A needle stands in a text where the text holds its characters one by one.
pub proof fn law_needles_stand_letter_by_letter(text: Seq<char>, needle: Seq<char>, i: int)
    ensures
        occurs_at(text, needle, i) <==> {
            &&& 0 <= i
            &&& i + needle.len() <= text.len()
            &&& forall|k: int| 0 <= k < needle.len() ==> text[i + k] == #[trigger] needle[k]
        },
{
    if 0 <= i && i + needle.len() <= text.len() {
        let part = text.subrange(i, i + needle.len());
        if part == needle {
            assert forall|k: int| 0 <= k < needle.len() implies text[i + k]
                == #[trigger] needle[k] by {
                assert(part[k] == text[i + k]);
            }
        } else if forall|k: int| 0 <= k < needle.len() ==> text[i + k] == #[trigger] needle[k] {
            assert forall|k: int| 0 <= k < needle.len() implies part[k] == needle[k] by {
                assert(text[i + k] == needle[k]);
            }
            assert(part =~= needle);
        }
    }
}

/// What is found is the first place from `from` on, and nothing is found only
/// where the needle stands nowhere from there on.
pub proof fn law_the_first_place_is_found(text: Seq<char>, needle: Seq<char>, from: int)
    requires
        0 <= from,
    ensures
        match find_from(text, needle, from) {
            Some(i) => {
                &&& from <= i
                &&& i + needle.len() <= text.len()
                &&& text.subrange(i, i + needle.len()) == needle
                &&& forall|k: int|
                    from <= k < i ==> #[trigger] text.subrange(k, k + needle.len()) != needle
            },
            None => forall|k: int|
                from <= k && k + needle.len() <= text.len() ==> #[trigger] text.subrange(
                    k,
                    k + needle.len(),
                ) != needle,
        },
    decreases text.len() + 1 - from,
{
    if from <= text.len() && !occurs_at(text, needle, from) {
        law_the_first_place_is_found(text, needle, from + 1);
    }
}

/// A text starts with a prefix exactly if it is the prefix and something behind it.
pub proof fn law_prefixes_lead(text: Seq<char>, prefix: Seq<char>, rest: Seq<char>)
    ensures
        starts_with(prefix + rest, prefix),
        (prefix + rest).skip(prefix.len() as int) == rest,
        starts_with(text, prefix) ==> text == prefix + text.skip(prefix.len() as int),
{
    assert((prefix + rest).take(prefix.len() as int) =~= prefix);
    assert((prefix + rest).skip(prefix.len() as int) =~= rest);
    if starts_with(text, prefix) {
        assert(text =~= text.take(prefix.len() as int) + text.skip(prefix.len() as int));
    }
}

/// The digits of both cases count from zero up to fifteen, and nothing else is a
/// digit.
pub proof fn law_digits_count(c: char)
    ensures
        digit_value(c) == (match c {
            '0' => Some(0int),
            '1' => Some(1),
            '2' => Some(2),
            '3' => Some(3),
            '4' => Some(4),
            '5' => Some(5),
            '6' => Some(6),
            '7' => Some(7),
            '8' => Some(8),
            '9' => Some(9),
            'a' | 'A' => Some(10),
            'b' | 'B' => Some(11),
            'c' | 'C' => Some(12),
            'd' | 'D' => Some(13),
            'e' | 'E' => Some(14),
            'f' | 'F' => Some(15),
            _ => None,
        }),
{
}

/// A single digit is a number.
pub proof fn law_a_digit_is_a_number(c: char, base: int, max: int)
    requires
        2 <= base <= 16,
    ensures
        parsed(seq![c], base, max) == match digit_value(c) {
            Some(d) => if d < base && d <= max {
                Some(d)
            } else {
                None
            },
            None => None,
        },
        parsed(Seq::empty(), base, max) is None,
{
    let text = seq![c];
    if c != '+' {
        assert(digits_of(text) == text);
        assert(text.drop_last() =~= Seq::<char>::empty());
        assert(number_value(text.drop_last(), base) == 0);
        assert(text.last() == c);
        assert(text[0] == c);
        assert(0 * base == 0);
    } else {
        assert(digits_of(text).len() == 0);
    }
}

/// A further digit counts a number `base` times and adds itself; anything else
/// behind a number leaves no number.
pub proof fn law_digits_extend_a_number(text: Seq<char>, c: char, base: int, max: int)
    requires
        2 <= base <= 16,
        digits_of(text).len() > 0,
    ensures
        parsed(text.push(c), base, max) is Some ==> {
            &&& parsed(text, base, max) is Some
            &&& is_digit(c, base)
            &&& parsed(text.push(c), base, max)->0 == parsed(text, base, max)->0 * base
                + digit_value(c)->0
            &&& parsed(text.push(c), base, max)->0 <= max
        },
        parsed(text, base, max) matches Some(n) && is_digit(c, base) && n * base + digit_value(
            c,
        )->0 <= max ==> parsed(text.push(c), base, max) is Some,
{
    let digits = digits_of(text);
    let longer = digits_of(text.push(c));
    assert(text.push(c)[0] == text[0]);
    assert(longer =~= digits.push(c));
    assert(longer.drop_last() =~= digits);
    assert(longer.last() == c);
    if parsed(text.push(c), base, max) is Some {
        assert forall|k: int| 0 <= k < digits.len() implies is_digit(
            #[trigger] digits[k],
            base,
        ) by {
            assert(is_digit(longer[k], base));
        }
        assert(is_digit(longer[digits.len() as int], base));
        lemma_number_grows(longer, base, digits.len() as int);
        assert(longer.take(digits.len() as int) =~= digits);
    }
    if parsed(text, base, max) is Some && is_digit(c, base) {
        assert forall|k: int| 0 <= k < longer.len() implies is_digit(
            #[trigger] longer[k],
            base,
        ) by {
            if k < digits.len() {
                assert(is_digit(digits[k], base));
            }
        }
    }
}

/// A plus sign before a number changes nothing, and a second one is none.
pub proof fn law_one_plus_sign_may_lead(text: Seq<char>, base: int, max: int)
    requires
        2 <= base <= 16,
    ensures
        text.len() == 0 || text[0] != '+' ==> parsed(seq!['+'] + text, base, max) == parsed(
            text,
            base,
            max,
        ),
        text.len() > 0 && text[0] == '+' ==> parsed(seq!['+'] + text, base, max) is None,
{
    let signed = seq!['+'] + text;
    assert(signed.skip(1) =~= text);
    assert(digits_of(signed) == text);
    if text.len() > 0 && text[0] == '+' {
        assert(!is_digit(text[0], base));
    }
}

proof fn lemma_decimal_digits(n: nat)
    ensures
        decimal(n).len() > 0,
        forall|i: int| 0 <= i < decimal(n).len() ==> '0' <= #[trigger] decimal(n)[i] <= '9',
        number_value(decimal(n), 10) == n,
        n > 0 ==> decimal(n)[0] != '0',
    decreases n,
{
    let text = decimal(n);
    if n < 10 {
        assert(text.drop_last() =~= Seq::<char>::empty());
        assert(number_value(text.drop_last(), 10) == 0);
    } else {
        let shorter = decimal(n / 10);
        lemma_decimal_digits(n / 10);
        assert(text.drop_last() =~= shorter);
        assert(text[0] == shorter[0]);
        assert forall|i: int| 0 <= i < text.len() implies '0' <= #[trigger] text[i] <= '9' by {
            if i < shorter.len() {
                assert(text[i] == shorter[i]);
            }
        }
    }
}

/// A number in decimal reads back as itself, is digits only, and has no zero
/// before it.
pub proof fn law_decimals_read_back(n: nat, max: int)
    ensures
        n <= max ==> parsed(decimal(n), 10, max) == Some(n as int),
        n > max ==> parsed(decimal(n), 10, max) is None,
        decimal(n).len() > 0,
        forall|i: int| 0 <= i < decimal(n).len() ==> '0' <= #[trigger] decimal(n)[i] <= '9',
        decimal(n)[0] == '0' ==> decimal(n) == seq!['0'],
{
    lemma_decimal_digits(n);
    let text = decimal(n);
    assert(digits_of(text) == text);
    assert forall|i: int| 0 <= i < text.len() implies is_digit(#[trigger] text[i], 10) by {
        assert('0' <= text[i] <= '9');
    }
    if n == 0 {
        assert(text =~= seq!['0']);
    }
}

/// The pieces with a separator between each two.
pub open spec fn separated(parts: Seq<Seq<char>>, separator: char) -> Seq<char>
    decreases parts.len(),
{
    if parts.len() == 0 {
        Seq::empty()
    } else if parts.len() == 1 {
        parts[0]
    } else {
        separated(parts.drop_last(), separator).push(separator) + parts.last()
    }
}

/// Splitting loses nothing: the pieces with the separator between them are the
/// text, and none of them holds a separator.
pub proof fn law_pieces_join_back(text: Seq<char>, separator: char)
    ensures
        pieces(text, separator).len() > 0,
        separated(pieces(text, separator), separator) == text,
        forall|i: int|
            0 <= i < pieces(text, separator).len() ==> !(#[trigger] pieces(
                text,
                separator,
            )[i]).contains(separator),
    decreases text.len(),
{
    let parts = pieces(text, separator);
    lemma_pieces_not_empty(text, separator);
    assert forall|i: int| 0 <= i < parts.len() implies !(#[trigger] parts[i]).contains(
        separator,
    ) by {
        lemma_pieces_hold_no_separator(text, separator, i);
    }
    if text.len() == 0 {
        assert(separated(parts, separator) =~= text);
    } else {
        let shorter = text.drop_last();
        let before = pieces(shorter, separator);
        law_pieces_join_back(shorter, separator);
        lemma_pieces_not_empty(shorter, separator);
        assert(shorter.push(text.last()) =~= text);
        if text.last() == separator {
            assert(parts.drop_last() =~= before);
            assert(separated(parts, separator) =~= text);
        } else {
            assert(parts.drop_last() =~= before.drop_last());
            assert(parts.last() == before.last().push(text.last()));
            assert(separated(parts, separator) =~= separated(before, separator).push(text.last()));
        }
    }
}

proof fn lemma_trimmed_end(text: Seq<char>)
    ensures
        trimmed_end(text).len() <= text.len(),
        trimmed_end(text) == text.take(trimmed_end(text).len() as int),
        forall|i: int| trimmed_end(text).len() <= i < text.len() ==> is_white(#[trigger] text[i]),
        trimmed_end(text).len() > 0 ==> !is_white(trimmed_end(text).last()),
    decreases text.len(),
{
    if text.len() > 0 && is_white(text.last()) {
        let shorter = text.drop_last();
        lemma_trimmed_end(shorter);
        assert(shorter.take(trimmed_end(text).len() as int) =~= text.take(
            trimmed_end(text).len() as int,
        ));
        assert forall|i: int| trimmed_end(text).len() <= i < text.len() implies is_white(
            #[trigger] text[i],
        ) by {
            if i < shorter.len() {
                assert(shorter[i] == text[i]);
            }
        }
    } else {
        assert(text.take(text.len() as int) =~= text);
    }
}

proof fn lemma_trimmed_start(text: Seq<char>)
    ensures
        trimmed_start(text).len() <= text.len(),
        trimmed_start(text) == text.skip(text.len() - trimmed_start(text).len()),
        forall|i: int|
            0 <= i < text.len() - trimmed_start(text).len() ==> is_white(#[trigger] text[i]),
        trimmed_start(text).len() > 0 ==> !is_white(trimmed_start(text)[0]),
    decreases text.len(),
{
    if text.len() > 0 && is_white(text[0]) {
        let shorter = text.skip(1);
        lemma_trimmed_start(shorter);
        let cut = text.len() - trimmed_start(text).len();
        assert(shorter.skip(cut - 1) =~= text.skip(cut));
        assert forall|i: int| 0 <= i < cut implies is_white(#[trigger] text[i]) by {
            if i > 0 {
                assert(shorter[i - 1] == text[i]);
            }
        }
    } else {
        assert(text.skip(0) =~= text);
    }
}

/// Trimming takes the white space around a text away, all of it and nothing else.
pub proof fn law_trimming_takes_white_space(text: Seq<char>)
    ensures
        exists|start: int, end: int| #[trigger] is_inner(text, start, end) && trimmed(text)
            == text.subrange(start, end),
{
    let front = trimmed_start(text);
    let inner = trimmed(text);
    lemma_trimmed_start(text);
    lemma_trimmed_end(front);
    let start = text.len() - front.len();
    let end = start + inner.len();
    assert(inner =~= text.subrange(start, end));
    assert forall|i: int| end <= i < text.len() implies is_white(#[trigger] text[i]) by {
        assert(front[i - start] == text[i]);
    }
    if start < end {
        assert(text[start] == front[0]);
        assert(text[end - 1] == inner.last());
        assert(inner.last() == front.take(inner.len() as int).last());
    }
    assert(is_inner(text, start, end));
}

/// Whether a text is white space outside of these bounds, and starts and ends with
/// none within them.
pub open spec fn is_inner(text: Seq<char>, start: int, end: int) -> bool {
    &&& 0 <= start <= end <= text.len()
    &&& forall|i: int| 0 <= i < start ==> is_white(#[trigger] text[i])
    &&& forall|i: int| end <= i < text.len() ==> is_white(#[trigger] text[i])
    &&& start < end ==> !is_white(text[start]) && !is_white(text[end - 1])
}

/// Two texts are the same but for case exactly if they are as long, and differ
/// only in letters of which one is the capital of the other.
pub proof fn law_case_is_all_that_is_ignored(a: Seq<char>, b: Seq<char>)
    ensures
        same_ignoring_case(a, b) <==> {
            &&& a.len() == b.len()
            &&& forall|i: int|
                0 <= i < a.len() ==> #[trigger] a[i] == b[i] || is_capital_of(a[i], b[i])
                    || is_capital_of(b[i], a[i])
        },
{
    if a.len() == b.len() {
        if same_ignoring_case(a, b) {
            assert forall|i: int| 0 <= i < a.len() implies #[trigger] a[i] == b[i]
                || is_capital_of(a[i], b[i]) || is_capital_of(b[i], a[i]) by {
                assert(ascii_lower(a[i]) == ascii_lower(b[i]));
            }
        }
        if forall|i: int|
            0 <= i < a.len() ==> #[trigger] a[i] == b[i] || is_capital_of(a[i], b[i])
                || is_capital_of(b[i], a[i]) {
            assert forall|i: int| 0 <= i < a.len() implies ascii_lower(#[trigger] a[i])
                == ascii_lower(b[i]) by {
                assert(a[i] == b[i] || is_capital_of(a[i], b[i]) || is_capital_of(b[i], a[i]));
            }
        }
    }
}

/// Whether the one is an ASCII capital, and the other its small letter.
pub open spec fn is_capital_of(capital: char, small: char) -> bool {
    'A' <= capital <= 'Z' && small as int == capital as int + 32
}

} // verus!
