//! Small operations on text, character by character.

use vstd::prelude::*;
use vstd::utf8::{decode_utf8, valid_utf8};

verus! {

/// The error that `String::from_utf8` returns.
#[verifier::external_type_specification]
#[verifier::external_body]
pub struct ExFromUtf8Error(std::string::FromUtf8Error);

/// `String::push` of the standard library: the character is added at the end.
pub assume_specification[ String::push ](s: &mut String, ch: char)
    ensures
        final(s)@ == old(s)@.push(ch),
;

/// `String::from_utf8` of the standard library: the bytes are turned into
/// a string exactly if they are valid UTF-8, and the string then holds the
/// characters that they encode.
pub assume_specification[ String::from_utf8 ](vec: Vec<u8>) -> (r: Result<
    String,
    std::string::FromUtf8Error,
>)
    ensures
        r is Ok <==> valid_utf8(vec@),
        r matches Ok(s) ==> s@ == decode_utf8(vec@),
;

/// The characters of a string.
pub fn to_chars(s: &str) -> (r: Vec<char>)
    ensures
        r@ == s@,
{
    let n = s.unicode_len();
    let mut out: Vec<char> = Vec::new();
    let mut i: usize = 0;
    while i < n
        invariant
            i <= n,
            n == s@.len(),
            out@ == s@.take(i as int),
        decreases n - i,
    {
        out.push(s.get_char(i));
        assert(out@ =~= s@.take(i + 1));
        i += 1;
    }
    assert(s@.take(n as int) =~= s@);
    out
}

/// The string of the characters from `from` up to `to`.
pub(crate) fn string_of(chars: &Vec<char>, from: usize, to: usize) -> (r: String)
    requires
        from <= to <= chars@.len(),
    ensures
        r@ == chars@.subrange(from as int, to as int),
{
    let mut out = String::new();
    let mut i: usize = from;
    assert(out@ =~= chars@.subrange(from as int, from as int));
    while i < to
        invariant
            from <= i <= to,
            to <= chars@.len(),
            out@ == chars@.subrange(from as int, i as int),
        decreases to - i,
    {
        out.push(chars[i]);
        assert(out@ =~= chars@.subrange(from as int, i + 1));
        i += 1;
    }
    out
}

/// Whether `text` begins with `prefix`.
pub fn starts_with(text: &str, prefix: &str) -> (r: bool)
    ensures
        r == prefix@.is_prefix_of(text@),
{
    let n = prefix.unicode_len();
    if text.unicode_len() < n {
        return false;
    }
    let mut i: usize = 0;
    while i < n
        invariant
            i <= n,
            n == prefix@.len(),
            n <= text@.len(),
            forall|j: int| 0 <= j < i ==> text@[j] == prefix@[j],
        decreases n - i,
    {
        if text.get_char(i) != prefix.get_char(i) {
            assert(text@.subrange(0, n as int)[i as int] != prefix@[i as int]);
            return false;
        }
        i += 1;
    }
    assert(prefix@ =~= text@.subrange(0, n as int));
    true
}

/// The text without the prefix, if it begins with the prefix; else the text.
pub open spec fn strip_prefix(text: Seq<char>, prefix: Seq<char>) -> Seq<char> {
    if prefix.is_prefix_of(text) {
        text.skip(prefix.len() as int)
    } else {
        text
    }
}

/// The text without the prefix, if it begins with the prefix; else the text.
pub fn without_prefix<'a>(text: &'a str, prefix: &str) -> (r: &'a str)
    ensures
        r@ == strip_prefix(text@, prefix@),
{
    if starts_with(text, prefix) {
        let r = text.substring_char(prefix.unicode_len(), text.unicode_len());
        assert(r@ =~= text@.skip(prefix@.len() as int));
        r
    } else {
        text
    }
}

/// Whether the character is white space.
pub open spec fn is_whitespace(c: char) -> bool {
    let code = c as u32;
    ||| 0x09 <= code <= 0x0d
    ||| code == 0x20
    ||| code == 0x85
    ||| code == 0xa0
    ||| code == 0x1680
    ||| 0x2000 <= code <= 0x200a
    ||| code == 0x2028
    ||| code == 0x2029
    ||| code == 0x202f
    ||| code == 0x205f
    ||| code == 0x3000
}

/// Whether the character is white space.
pub fn check_whitespace(c: char) -> (r: bool)
    ensures
        r == is_whitespace(c),
{
    let code: u32 = c as u32;
    (0x09 <= code && code <= 0x0d) || code == 0x20 || code == 0x85 || code == 0xa0 || code == 0x1680
        || (0x2000 <= code && code <= 0x200a) || code == 0x2028 || code == 0x2029 || code == 0x202f
        || code == 0x205f || code == 0x3000
}

/// The number of white space characters at the start.
pub open spec fn leading_whitespace(text: Seq<char>) -> int
    decreases text.len(),
{
    if text.len() > 0 && is_whitespace(text[0]) {
        1 + leading_whitespace(text.drop_first())
    } else {
        0
    }
}

/// The number of white space characters at the end.
pub open spec fn trailing_whitespace(text: Seq<char>) -> int
    decreases text.len(),
{
    if text.len() > 0 && is_whitespace(text.last()) {
        1 + trailing_whitespace(text.drop_last())
    } else {
        0
    }
}

/// The text without the white space at its start and at its end.
pub open spec fn trimmed(text: Seq<char>) -> Seq<char> {
    if leading_whitespace(text) >= text.len() {
        Seq::empty()
    } else {
        text.subrange(leading_whitespace(text), text.len() - trailing_whitespace(text))
    }
}

proof fn lemma_leading(text: Seq<char>, i: int)
    requires
        0 <= i <= text.len(),
        forall|j: int| 0 <= j < i ==> is_whitespace(text[j]),
        i < text.len() ==> !is_whitespace(text[i]),
    ensures
        leading_whitespace(text) == i,
    decreases text.len(),
{
    if i > 0 {
        let rest = text.drop_first();
        assert forall|j: int| 0 <= j < i - 1 implies is_whitespace(rest[j]) by {
            assert(rest[j] == text[j + 1]);
        }
        lemma_leading(rest, i - 1);
    }
}

proof fn lemma_trailing(text: Seq<char>, k: int)
    requires
        0 <= k <= text.len(),
        forall|j: int| text.len() - k <= j < text.len() ==> is_whitespace(text[j]),
        k < text.len() ==> !is_whitespace(text[text.len() - k - 1]),
    ensures
        trailing_whitespace(text) == k,
    decreases text.len(),
{
    if k > 0 {
        let rest = text.drop_last();
        lemma_trailing(rest, k - 1);
    }
}

/// Where the text begins and ends once the white space at both ends is
/// left out.
pub(crate) fn trim_range(chars: &Vec<char>) -> (r: (usize, usize))
    ensures
        r.0 <= r.1 <= chars@.len(),
        chars@.subrange(r.0 as int, r.1 as int) == trimmed(chars@),
{
    let n = chars.len();
    let mut start: usize = 0;
    while start < n && check_whitespace(chars[start])
        invariant
            start <= n,
            n == chars@.len(),
            forall|j: int| 0 <= j < start ==> is_whitespace(chars@[j]),
        decreases n - start,
    {
        start += 1;
    }
    proof {
        lemma_leading(chars@, start as int);
    }
    if start == n {
        assert(chars@.subrange(n as int, n as int) =~= Seq::<char>::empty());
        return (n, n);
    }
    let mut end: usize = n;
    while end > start + 1 && check_whitespace(chars[end - 1])
        invariant
            start < end <= n,
            n == chars@.len(),
            !is_whitespace(chars@[start as int]),
            forall|j: int| end <= j < n ==> is_whitespace(chars@[j]),
        decreases end,
    {
        end -= 1;
    }
    proof {
        lemma_trailing(chars@, n - end);
    }
    (start, end)
}

/// The pieces of `cur` followed by `text`, cut at each occurrence of one of
/// the two separators, where `cur` is the part of the current piece that
/// has been read.
pub open spec fn split_from(text: Seq<char>, cur: Seq<char>, a: char, b: char) -> Seq<Seq<char>>
    decreases text.len(),
{
    if text.len() == 0 {
        seq![cur]
    } else if text[0] == a || text[0] == b {
        seq![cur] + split_from(text.drop_first(), seq![], a, b)
    } else {
        split_from(text.drop_first(), cur.push(text[0]), a, b)
    }
}

/// The pieces of the text between the separators `a` and `b`; between two
/// separators that follow each other stands an empty piece.
pub open spec fn split_on(text: Seq<char>, a: char, b: char) -> Seq<Seq<char>> {
    split_from(text, seq![], a, b)
}

/// The values of a run of pieces.
pub open spec fn pieces_view(pieces: Seq<Vec<char>>) -> Seq<Seq<char>> {
    Seq::new(pieces.len(), |i: int| pieces[i]@)
}

/// The pieces of the characters from `from` up to `to`.
pub(crate) fn split_chars(chars: &Vec<char>, from: usize, to: usize, a: char, b: char) -> (r: Vec<
    Vec<char>,
>)
    requires
        from <= to <= chars@.len(),
    ensures
        pieces_view(r@) == split_on(chars@.subrange(from as int, to as int), a, b),
{
    let ghost text = chars@.subrange(from as int, to as int);
    let mut pieces: Vec<Vec<char>> = Vec::new();
    let mut cur: Vec<char> = Vec::new();
    let mut i: usize = from;
    assert(text.skip(0) =~= text);
    assert(pieces_view(pieces@) + split_from(text, cur@, a, b) =~= split_on(text, a, b));
    while i < to
        invariant
            from <= i <= to,
            to <= chars@.len(),
            text == chars@.subrange(from as int, to as int),
            pieces_view(pieces@) + split_from(text.skip(i - from), cur@, a, b) == split_on(text, a, b),
        decreases to - i,
    {
        let ghost rest = text.skip(i - from);
        let ghost before = pieces_view(pieces@);
        let ghost old_cur = cur@;
        assert(rest[0] == chars@[i as int]);
        assert(rest.drop_first() =~= text.skip(i + 1 - from));
        let c = chars[i];
        if c == a || c == b {
            pieces.push(cur);
            assert(pieces_view(pieces@) =~= before.push(old_cur));
            cur = Vec::new();
            assert(cur@ =~= Seq::<char>::empty());
            assert(pieces_view(pieces@) + split_from(rest.drop_first(), cur@, a, b) =~= before + (
            seq![old_cur] + split_from(rest.drop_first(), seq![], a, b)));
        } else {
            cur.push(c);
        }
        i += 1;
    }
    let ghost before = pieces_view(pieces@);
    let ghost last = cur@;
    assert(text.skip(to - from).len() == 0);
    pieces.push(cur);
    assert(pieces_view(pieces@) =~= before + seq![last]);
    pieces
}

/// The value of a decimal digit.
pub open spec fn digit_value(c: char) -> int {
    c as u32 - 0x30
}

/// Whether the character is a decimal digit.
pub open spec fn is_digit(c: char) -> bool {
    0x30 <= c as u32 <= 0x39
}

/// Whether all characters are decimal digits.
pub open spec fn all_digits(text: Seq<char>) -> bool {
    forall|i: int| 0 <= i < text.len() ==> is_digit(#[trigger] text[i])
}

/// The number that the digits write.
pub open spec fn digits_value(text: Seq<char>) -> int
    decreases text.len(),
{
    if text.len() == 0 {
        0
    } else {
        digits_value(text.drop_last()) * 10 + digit_value(text.last())
    }
}

/// The number that the text writes: an optional sign and at least one
/// decimal digit; nothing if the text is not of this form or the number
/// does not fit the range of an `isize`.
pub open spec fn parsed_isize(text: Seq<char>) -> Option<int> {
    let negative = text.len() > 0 && text[0] == '-';
    let signed = text.len() > 0 && (text[0] == '-' || text[0] == '+');
    let digits = if signed {
        text.drop_first()
    } else {
        text
    };
    let value = if negative {
        -digits_value(digits)
    } else {
        digits_value(digits)
    };
    if digits.len() == 0 || !all_digits(digits) || value < isize::MIN || value > isize::MAX {
        None
    } else {
        Some(value)
    }
}

/// More digits write no smaller number.
proof fn lemma_digits_grow(text: Seq<char>, k: int)
    requires
        all_digits(text),
        0 <= k <= text.len(),
    ensures
        0 <= digits_value(text.take(k)) <= digits_value(text),
    decreases text.len() - k,
{
    lemma_digits_nonnegative(text.take(k));
    if k < text.len() {
        lemma_digits_grow(text, k + 1);
        let next = text.take(k + 1);
        assert(next.drop_last() =~= text.take(k));
        assert(is_digit(text[k]));
        assert(next.last() == text[k]);
    } else {
        assert(text.take(k) =~= text);
    }
}

proof fn lemma_digits_nonnegative(text: Seq<char>)
    requires
        all_digits(text),
    ensures
        digits_value(text) >= 0,
    decreases text.len(),
{
    if text.len() > 0 {
        assert(is_digit(text[text.len() - 1]));
        assert(all_digits(text.drop_last())) by {
            assert forall|i: int| 0 <= i < text.drop_last().len() implies is_digit(
                #[trigger] text.drop_last()[i],
            ) by {
                assert(text.drop_last()[i] == text[i]);
            }
        }
        lemma_digits_nonnegative(text.drop_last());
    }
}

/// Reads a number as `str::parse::<isize>` reads it.
pub(crate) fn parse_isize(text: &Vec<char>) -> (r: Option<isize>)
    ensures
        match r {
            Some(v) => parsed_isize(text@) == Some(v as int),
            None => parsed_isize(text@) is None,
        },
{
    let n = text.len();
    let negative = n > 0 && text[0] == '-';
    let signed = n > 0 && (text[0] == '-' || text[0] == '+');
    let start: usize = if signed {
        1
    } else {
        0
    };
    let ghost digits = text@.skip(start as int);
    proof {
        if signed {
            assert(digits =~= text@.drop_first());
        } else {
            assert(digits =~= text@);
        }
    }
    if start == n {
        return None;
    }
    let mut acc: i128 = 0;
    let mut i: usize = start;
    assert(digits.take(0) =~= Seq::<char>::empty());
    while i < n
        invariant
            start <= i <= n,
            n == text@.len(),
            digits == text@.skip(start as int),
            digits == if signed {
                text@.drop_first()
            } else {
                text@
            },
            signed == (text@.len() > 0 && (text@[0] == '-' || text@[0] == '+')),
            negative == (text@.len() > 0 && text@[0] == '-'),
            digits.len() > 0,
            all_digits(digits.take(i - start)),
            acc == digits_value(digits.take(i - start)),
            0 <= acc <= isize::MAX + 1,
        decreases n - i,
    {
        let c = text[i];
        let code: u32 = c as u32;
        let ghost done = digits.take(i - start);
        let ghost next = digits.take(i + 1 - start);
        proof {
            assert(next.drop_last() =~= done);
            assert(next.last() == c);
            assert(digits[i - start] == c);
        }
        if code < 0x30 || code > 0x39 {
            assert(!is_digit(digits[i - start]));
            return None;
        }
        let d: i128 = (code - 0x30) as i128;
        let value: i128 = acc * 10 + d;
        assert(value == digits_value(next));
        proof {
            assert(all_digits(next)) by {
                assert forall|j: int| 0 <= j < next.len() implies is_digit(#[trigger] next[j]) by {
                    if j < done.len() {
                        assert(next[j] == done[j]);
                    }
                }
            }
        }
        if value > isize::MAX as i128 + 1 {
            proof {
                // The rest can only be rejected: it is no digit, or the
                // number grows further.
                if all_digits(digits) {
                    lemma_digits_grow(digits, i + 1 - start);
                }
            }
            return None;
        }
        acc = value;
        i += 1;
    }
    assert(digits.take(n - start) =~= digits);
    if negative {
        let value: i128 = -acc;
        Some(value as isize)
    } else {
        if acc > isize::MAX as i128 {
            None
        } else {
            Some(acc as isize)
        }
    }
}


/// The values of a run of strings.
pub open spec fn strings_view(strings: Seq<String>) -> Seq<Seq<char>> {
    Seq::new(strings.len(), |i: int| strings[i]@)
}

/// The text without the white space at its start and at its end, as
/// `str::trim` gives it.
pub fn trim(text: &str) -> (r: String)
    ensures
        r@ == trimmed(text@),
{
    let chars = to_chars(text);
    let (start, end) = trim_range(&chars);
    string_of(&chars, start, end)
}

/// The pieces of the text between the separators `a` and `b`, as
/// `str::split` gives them.
pub fn split(text: &str, a: char, b: char) -> (r: Vec<String>)
    ensures
        strings_view(r@) == split_on(text@, a, b),
{
    let chars = to_chars(text);
    assert(chars@.subrange(0, chars@.len() as int) =~= chars@);
    let pieces = split_chars(&chars, 0, chars.len(), a, b);
    let mut out: Vec<String> = Vec::new();
    let mut i: usize = 0;
    while i < pieces.len()
        invariant
            i <= pieces@.len(),
            out@.len() == i,
            forall|k: int| 0 <= k < i ==> (#[trigger] out@[k])@ == pieces@[k]@,
        decreases pieces@.len() - i,
    {
        let piece = &pieces[i];
        assert(piece@.subrange(0, piece@.len() as int) =~= piece@);
        out.push(string_of(piece, 0, piece.len()));
        i += 1;
    }
    assert(strings_view(out@) =~= pieces_view(pieces@));
    out
}

/// Reads a number as `str::parse::<isize>` reads it.
pub fn parse_number(text: &str) -> (r: Option<isize>)
    ensures
        match r {
            Some(v) => parsed_isize(text@) == Some(v as int),
            None => parsed_isize(text@) is None,
        },
{
    parse_isize(&to_chars(text))
}

} // verus!
