//! Number literals: which texts denote a decimal integer or a floating-point
//! number, and what integer a text denotes.
use vstd::prelude::*;
use vstd::slice::slice_subrange;
use vstd::string::*;
use vstd::utf8::is_ascii_chars;

verus! {

/// An ASCII decimal digit.
pub open spec fn is_digit(c: char) -> bool {
    '0' <= c && c <= '9'
}

/// The number that a decimal digit stands for.
pub open spec fn digit_of(c: char) -> int {
    c as int - '0' as int
}

/// Every character of `s` is a decimal digit.
pub open spec fn all_digits(s: Seq<char>) -> bool {
    forall|i: int| 0 <= i < s.len() ==> is_digit(#[trigger] s[i])
}

/// The number that a run of decimal digits denotes, the most significant digit first.
pub open spec fn digits_value(s: Seq<char>) -> int
    decreases s.len(),
{
    if s.len() == 0 {
        0
    } else {
        10 * digits_value(s.drop_last()) + digit_of(s.last())
    }
}

pub open spec fn is_sign(c: char) -> bool {
    c == '+' || c == '-'
}

/// `s` without its leading sign, if it has one.
pub open spec fn unsigned_part(s: Seq<char>) -> Seq<char> {
    if s.len() > 0 && is_sign(s[0]) {
        s.subrange(1, s.len() as int)
    } else {
        s
    }
}

/// The integer that `s` denotes: an optional sign, then one or more decimal
/// digits and nothing else. `None` for every other text.
pub open spec fn integer_literal(s: Seq<char>) -> Option<int> {
    let digits = unsigned_part(s);
    if digits.len() > 0 && all_digits(digits) {
        if s[0] == '-' {
            Some(-digits_value(digits))
        } else {
            Some(digits_value(digits))
        }
    } else {
        None
    }
}

/// The `isize` that `s` denotes, where it denotes an integer that fits in one.
pub open spec fn isize_literal(s: Seq<char>) -> Option<isize> {
    match integer_literal(s) {
        Some(v) => if isize::MIN <= v <= isize::MAX {
            Some(v as isize)
        } else {
            None
        },
        None => None,
    }
}

/// A run of digits is worth at least as much as each of its prefixes.
pub proof fn lemma_digits_value_grows(s: Seq<char>, k: int)
    requires
        all_digits(s),
        0 <= k <= s.len(),
    ensures
        0 <= digits_value(s.subrange(0, k)) <= digits_value(s),
    decreases s.len(),
{
    if k == s.len() {
        assert(s.subrange(0, k) =~= s);
        if s.len() > 0 {
            lemma_digits_value_grows(s.drop_last(), k - 1);
        }
    } else {
        lemma_digits_value_grows(s.drop_last(), k);
        assert(s.drop_last().subrange(0, k) =~= s.subrange(0, k));
    }
}

/// A text with a character outside ASCII denotes no integer.
proof fn lemma_integer_is_ascii(s: Seq<char>)
    requires
        integer_literal(s) is Some,
    ensures
        is_ascii_chars(s),
{
    let digits = unsigned_part(s);
    assert forall|i: int| 0 <= i < s.len() implies '\0' <= #[trigger] s[i] <= '\u{7f}' by {
        if digits.len() == s.len() {
            assert(is_digit(digits[i]));
        } else if i > 0 {
            assert(is_digit(digits[i - 1]));
        }
    }
}

/// Reads `s` as a decimal integer: an optional sign, then one or more digits.
/// `None` where `s` is no such text or the integer does not fit in an `isize`.
pub fn parse_isize(s: &str) -> (r: Option<isize>)
    ensures
        r == isize_literal(s@),
{
    if !s.is_ascii() {
        proof {
            if integer_literal(s@) is Some {
                lemma_integer_is_ascii(s@);
            }
        }
        return None;
    }
    let bytes = s.as_bytes();
    let n: usize = bytes.len();
    proof {
        is_ascii_spec_bytes(s);
    }
    if n == 0 {
        return None;
    }
    let negative = bytes[0] == 45u8;
    let start: usize = if bytes[0] == 45u8 || bytes[0] == 43u8 {
        1
    } else {
        0
    };
    if start == n {
        return None;
    }
    let ghost digits = unsigned_part(s@);
    assert(digits =~= s@.subrange(start as int, n as int));
    let limit: u128 = if negative {
        isize::MAX as u128 + 1
    } else {
        isize::MAX as u128
    };
    let mut acc: u128 = 0;
    let mut i: usize = start;
    while i < n
        invariant
            start <= i <= n,
            n == s@.len(),
            bytes@.len() == n,
            is_ascii_chars(s@),
            forall|k: int| 0 <= k < n ==> bytes@[k] == #[trigger] s@[k] as u8,
            digits == s@.subrange(start as int, n as int),
            digits == unsigned_part(s@),
            negative == (s@[0] == '-'),
            limit == if negative {
                isize::MAX + 1
            } else {
                isize::MAX as int
            },
            all_digits(digits.subrange(0, i - start)),
            acc == digits_value(digits.subrange(0, i - start)),
            acc <= limit,
        decreases n - i,
    {
        let b = bytes[i];
        assert(b == s@[i as int] as u8);
        assert(digits[i - start] == s@[i as int]);
        if b < 48u8 || b > 57u8 {
            assert(!is_digit(digits[i - start]));
            return None;
        }
        let ghost longer = digits.subrange(0, i - start + 1);
        assert(longer.drop_last() =~= digits.subrange(0, i - start));
        assert(longer.last() == s@[i as int]);
        assert(all_digits(longer)) by {
            assert forall|k: int| 0 <= k < longer.len() implies is_digit(#[trigger] longer[k]) by {
                if k < i - start {
                    assert(longer[k] == digits.subrange(0, i - start)[k]);
                }
            }
        }
        acc = acc * 10 + (b - 48u8) as u128;
        assert(acc == digits_value(longer));
        if acc > limit {
            proof {
                if all_digits(digits) {
                    lemma_digits_value_grows(digits, i - start + 1);
                }
            }
            return None;
        }
        i = i + 1;
    }
    assert(digits.subrange(0, i - start) =~= digits);
    if negative {
        if acc == limit {
            Some(isize::MIN)
        } else {
            Some(-(acc as isize))
        }
    } else {
        Some(acc as isize)
    }
}

/// Where the longest run of decimal digits that starts at `from` ends.
pub open spec fn digit_run(s: Seq<char>, from: int) -> int
    decreases s.len() - from,
{
    if 0 <= from < s.len() && is_digit(s[from]) {
        digit_run(s, from + 1)
    } else {
        from
    }
}

/// `c` is the lower-case ASCII letter `letter` or its upper-case form.
pub open spec fn same_letter(c: char, letter: char) -> bool {
    c == letter || c as int + 32 == letter as int
}

/// `s` is `word`, a word of lower-case ASCII letters, in any mix of cases.
pub open spec fn spells(s: Seq<char>, word: Seq<char>) -> bool {
    s.len() == word.len() && forall|i: int|
        0 <= i < s.len() ==> same_letter(#[trigger] s[i], word[i])
}

/// An exponent: the letter `e` in either case, an optional sign, one or more digits.
pub open spec fn is_exponent(s: Seq<char>) -> bool {
    s.len() > 0 && same_letter(s[0], 'e') && {
        let digits = unsigned_part(s.subrange(1, s.len() as int));
        digits.len() > 0 && all_digits(digits)
    }
}

/// A decimal number without a sign: digits, optionally a point and more
/// digits, with at least one digit before the exponent; then optionally an
/// exponent.
pub open spec fn is_decimal_number(s: Seq<char>) -> bool {
    let point = digit_run(s, 0);
    let end = if point < s.len() && s[point] == '.' {
        digit_run(s, point + 1)
    } else {
        point
    };
    let digit_count = if end > point {
        end - 1
    } else {
        end
    };
    digit_count > 0 && (end == s.len() || is_exponent(s.subrange(end, s.len() as int)))
}

/// `s` is a floating-point literal: an optional sign, then `inf`, `infinity`
/// or `nan` in any mix of cases, or a decimal number.
pub open spec fn float_literal(s: Seq<char>) -> bool {
    let body = unsigned_part(s);
    spells(body, "inf"@) || spells(body, "infinity"@) || spells(body, "nan"@) || is_decimal_number(
        body,
    )
}

/// The bytes are the characters of the ASCII text, one for one.
pub open spec fn spelled_by(bytes: Seq<u8>, text: Seq<char>) -> bool {
    &&& bytes.len() == text.len()
    &&& is_ascii_chars(text)
    &&& forall|k: int| 0 <= k < text.len() ==> bytes[k] == #[trigger] text[k] as u8
}

/// The digits run from `from` up to `digit_run`, which stands at the end of
/// the text or at a character that is no digit.
pub proof fn lemma_digit_run(s: Seq<char>, from: int)
    requires
        0 <= from <= s.len(),
    ensures
        from <= digit_run(s, from) <= s.len(),
        all_digits(s.subrange(from, digit_run(s, from))),
        digit_run(s, from) < s.len() ==> !is_digit(s[digit_run(s, from)]),
    decreases s.len() - from,
{
    if from < s.len() && is_digit(s[from]) {
        lemma_digit_run(s, from + 1);
        let end = digit_run(s, from);
        assert forall|i: int| 0 <= i < end - from implies is_digit(
            #[trigger] s.subrange(from, end)[i],
        ) by {
            if i > 0 {
                assert(s.subrange(from, end)[i] == s.subrange(from + 1, end)[i - 1]);
            }
        }
    }
}

fn skip_digits(bytes: &[u8], from: usize, Ghost(text): Ghost<Seq<char>>) -> (end: usize)
    requires
        spelled_by(bytes@, text),
        from <= bytes@.len(),
    ensures
        end == digit_run(text, from as int),
        from <= end <= bytes@.len(),
{
    let mut i: usize = from;
    while i < bytes.len() && 48u8 <= bytes[i] && bytes[i] <= 57u8
        invariant
            spelled_by(bytes@, text),
            from <= i <= bytes@.len(),
            digit_run(text, from as int) == digit_run(text, i as int),
        decreases bytes@.len() - i,
    {
        assert(bytes@[i as int] == text[i as int] as u8);
        i = i + 1;
    }
    proof {
        if i < bytes@.len() {
            assert(bytes@[i as int] == text[i as int] as u8);
        }
    }
    i
}

fn spells_word(bytes: &[u8], word: &str, Ghost(text): Ghost<Seq<char>>) -> (r: bool)
    requires
        spelled_by(bytes@, text),
        is_ascii_chars(word@),
    ensures
        r == spells(text, word@),
{
    let letters = word.as_bytes();
    proof {
        is_ascii_spec_bytes(word);
    }
    if bytes.len() != letters.len() {
        return false;
    }
    let mut i: usize = 0;
    while i < bytes.len()
        invariant
            spelled_by(bytes@, text),
            spelled_by(letters@, word@),
            bytes@.len() == letters@.len(),
            i <= bytes@.len(),
            forall|k: int| 0 <= k < i ==> same_letter(#[trigger] text[k], word@[k]),
        decreases bytes@.len() - i,
    {
        let b = bytes[i];
        let l = letters[i];
        assert(b == text[i as int] as u8);
        assert(l == word@[i as int] as u8);
        if !(b == l || (b < 128u8 && b + 32u8 == l)) {
            assert(!same_letter(text[i as int], word@[i as int]));
            return false;
        }
        i = i + 1;
    }
    true
}

/// The digits fill the text exactly when the run that starts at 0 ends at its end.
proof fn lemma_all_digits_run(s: Seq<char>)
    ensures
        all_digits(s) <==> digit_run(s, 0) == s.len(),
{
    lemma_digit_run(s, 0);
    let end = digit_run(s, 0);
    if end == s.len() {
        assert(s.subrange(0, end) =~= s);
    } else {
        assert(!is_digit(s[end]));
    }
}

/// The part of the bytes from `from` on, which spells that part of the text.
fn tail<'a>(bytes: &'a [u8], from: usize, Ghost(text): Ghost<Seq<char>>) -> (rest: &'a [u8])
    requires
        spelled_by(bytes@, text),
        from <= bytes@.len(),
    ensures
        spelled_by(rest@, text.subrange(from as int, text.len() as int)),
        rest@ == bytes@.subrange(from as int, bytes@.len() as int),
{
    let rest = slice_subrange(bytes, from, bytes.len());
    proof {
        let part = text.subrange(from as int, text.len() as int);
        assert forall|k: int| 0 <= k < part.len() implies '\0' <= #[trigger] part[k] <= '\u{7f}'
            && rest@[k] == part[k] as u8 by {
            assert(part[k] == text[from + k]);
        }
    }
    rest
}

/// The bytes without their leading sign, if they have one.
fn without_sign<'a>(bytes: &'a [u8], Ghost(text): Ghost<Seq<char>>) -> (rest: &'a [u8])
    requires
        spelled_by(bytes@, text),
    ensures
        spelled_by(rest@, unsigned_part(text)),
{
    if bytes.len() > 0 {
        assert(bytes@[0] == text[0] as u8);
        if bytes[0] == 43u8 || bytes[0] == 45u8 {
            return tail(bytes, 1, Ghost(text));
        }
    }
    bytes
}

fn exponent_at(bytes: &[u8], Ghost(text): Ghost<Seq<char>>) -> (r: bool)
    requires
        spelled_by(bytes@, text),
    ensures
        r == is_exponent(text),
{
    if bytes.len() == 0 {
        return false;
    }
    assert(bytes@[0] == text[0] as u8);
    if bytes[0] != 101u8 && bytes[0] != 69u8 {
        return false;
    }
    let ghost rest = text.subrange(1, text.len() as int);
    let digits = without_sign(tail(bytes, 1, Ghost(text)), Ghost(rest));
    let end = skip_digits(digits, 0, Ghost(unsigned_part(rest)));
    proof {
        lemma_all_digits_run(unsigned_part(rest));
    }
    digits.len() > 0 && end == digits.len()
}

fn decimal_number_at(bytes: &[u8], Ghost(text): Ghost<Seq<char>>) -> (r: bool)
    requires
        spelled_by(bytes@, text),
    ensures
        r == is_decimal_number(text),
{
    let point = skip_digits(bytes, 0, Ghost(text));
    let mut end: usize = point;
    let mut digit_count: usize = point;
    if point < bytes.len() {
        assert(bytes@[point as int] == text[point as int] as u8);
        if bytes[point] == 46u8 {
            end = skip_digits(bytes, point + 1, Ghost(text));
            digit_count = end - 1;
        }
    }
    if digit_count == 0 {
        return false;
    }
    if end == bytes.len() {
        return true;
    }
    exponent_at(tail(bytes, end, Ghost(text)), Ghost(text.subrange(end as int, text.len() as int)))
}

/// A floating-point literal holds ASCII characters only.
proof fn lemma_float_is_ascii(s: Seq<char>)
    requires
        float_literal(s),
    ensures
        is_ascii_chars(s),
{
    let body = unsigned_part(s);
    reveal_strlit("inf");
    reveal_strlit("infinity");
    reveal_strlit("nan");
    assert forall|i: int| 0 <= i < body.len() implies '\0' <= #[trigger] body[i] <= '\u{7f}' by {
        if spells(body, "inf"@) {
            assert(same_letter(body[i], "inf"@[i]));
        } else if spells(body, "infinity"@) {
            assert(same_letter(body[i], "infinity"@[i]));
        } else if spells(body, "nan"@) {
            assert(same_letter(body[i], "nan"@[i]));
        } else {
            let point = digit_run(body, 0);
            lemma_digit_run(body, 0);
            if i < point {
                assert(is_digit(body.subrange(0, point)[i]));
            } else if i > point {
                let end = digit_run(body, point + 1);
                if body[point] == '.' {
                    lemma_digit_run(body, point + 1);
                    if i < end {
                        assert(is_digit(body.subrange(point + 1, end)[i - point - 1]));
                    } else {
                        lemma_exponent_is_ascii(body.subrange(end, body.len() as int));
                        assert(body[i] == body.subrange(end, body.len() as int)[i - end]);
                    }
                } else {
                    lemma_exponent_is_ascii(body.subrange(point, body.len() as int));
                    assert(body[i] == body.subrange(point, body.len() as int)[i - point]);
                }
            } else if body[point] != '.' {
                lemma_exponent_is_ascii(body.subrange(point, body.len() as int));
                assert(body[i] == body.subrange(point, body.len() as int)[0]);
            }
        }
    }
    assert forall|i: int| 0 <= i < s.len() implies '\0' <= #[trigger] s[i] <= '\u{7f}' by {
        if body.len() == s.len() {
            assert(s[i] == body[i]);
        } else if i > 0 {
            assert(s[i] == body[i - 1]);
        }
    }
}

/// An exponent holds ASCII characters only.
proof fn lemma_exponent_is_ascii(s: Seq<char>)
    requires
        is_exponent(s),
    ensures
        is_ascii_chars(s),
{
    let rest = s.subrange(1, s.len() as int);
    let digits = unsigned_part(rest);
    assert forall|i: int| 0 <= i < s.len() implies '\0' <= #[trigger] s[i] <= '\u{7f}' by {
        if i > 0 {
            assert(s[i] == rest[i - 1]);
            if digits.len() == rest.len() {
                assert(is_digit(digits[i - 1]));
            } else if i > 1 {
                assert(is_digit(digits[i - 2]));
            }
        }
    }
}

/// Whether `s` is a floating-point literal.
pub fn is_float_literal(s: &str) -> (r: bool)
    ensures
        r == float_literal(s@),
{
    if !s.is_ascii() {
        proof {
            if float_literal(s@) {
                lemma_float_is_ascii(s@);
            }
        }
        return false;
    }
    let bytes = s.as_bytes();
    proof {
        is_ascii_spec_bytes(s);
        reveal_strlit("inf");
        reveal_strlit("infinity");
        reveal_strlit("nan");
    }
    let ghost body = unsigned_part(s@);
    let rest = without_sign(bytes, Ghost(s@));
    spells_word(rest, "inf", Ghost(body)) || spells_word(rest, "infinity", Ghost(body))
        || spells_word(rest, "nan", Ghost(body)) || decimal_number_at(rest, Ghost(body))
}

} // verus!
