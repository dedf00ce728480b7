//! Numbers as they are written in a dataset field.
//!
//! Identifiers are decimal integers; coordinates are decimal fractions that
//! the graph keeps as text.

use vstd::prelude::*;
use vstd::string::*;

verus! {

const PLUS: u8 = 43;

const MINUS: u8 = 45;

const POINT: u8 = 46;

const DIGIT_ZERO: u8 = 48;

const DIGIT_NINE: u8 = 57;

const SMALL_A: u8 = 97;

const SMALL_E: u8 = 101;

const SMALL_F: u8 = 102;

const SMALL_I: u8 = 105;

const SMALL_N: u8 = 110;

const SMALL_T: u8 = 116;

const SMALL_Y: u8 = 121;

/// `c` is one of the ten decimal digits.
pub open spec fn is_digit(c: char) -> bool {
    '0' <= c <= '9'
}

/// `c` is a plus or a minus sign.
pub open spec fn is_sign(c: char) -> bool {
    c == '+' || c == '-'
}

/// The number a decimal digit stands for.
pub open spec fn digit_value(c: char) -> int {
    c as int - '0' as int
}

/// Every character of `s` is a decimal digit. Holds of the empty text.
pub open spec fn all_digits(s: Seq<char>) -> bool {
    forall|i: int| 0 <= i < s.len() ==> is_digit(#[trigger] s[i])
}

/// The number that a run of decimal digits denotes, most significant digit first.
pub open spec fn decimal_value(s: Seq<char>) -> int
    decreases s.len(),
{
    if s.len() == 0 {
        0
    } else {
        decimal_value(s.drop_last()) * 10 + digit_value(s.last())
    }
}

/// `s` without its leading sign, if it has one.
pub open spec fn unsigned_part(s: Seq<char>) -> Seq<char> {
    if s.len() > 0 && is_sign(s[0]) {
        s.skip(1)
    } else {
        s
    }
}

/// `s` is an optional sign followed by at least one digit and nothing else.
pub open spec fn is_integer_text(s: Seq<char>) -> bool {
    unsigned_part(s).len() > 0 && all_digits(unsigned_part(s))
}

/// The integer that `s` denotes, where `is_integer_text(s)`.
pub open spec fn integer_value(s: Seq<char>) -> int {
    if s.len() > 0 && s[0] == '-' {
        -decimal_value(unsigned_part(s))
    } else {
        decimal_value(unsigned_part(s))
    }
}

/// The identifier that a field denotes: the value of a well-formed integer
/// that fits in 32 bits, and nothing for any other text.
pub open spec fn i32_of_text(s: Seq<char>) -> Option<i32> {
    if is_integer_text(s) && i32::MIN <= integer_value(s) <= i32::MAX {
        Some(integer_value(s) as i32)
    } else {
        None
    }
}

/// Reads a 32-bit integer written in decimal, with an optional sign.
///
/// No surrounding white space, digit separators or other alphabets are
/// accepted, and a value outside the 32-bit range is rejected.
pub fn parse_i32(s: &str) -> (r: Option<i32>)
    ensures
        r == i32_of_text(s@),
{
    if !s.is_ascii() {
        proof {
            lemma_non_ascii_is_no_integer(s@);
        }
        return None;
    }
    let bytes = s.as_bytes();
    let n: usize = bytes.len();
    proof {
        is_ascii_spec_bytes(s);
    }
    if n == 0 {
        return None;
    }
    let first: u8 = bytes[0];
    let negative: bool = first == MINUS;
    let start: usize = if first == PLUS || first == MINUS { 1 } else { 0 };
    assert(s@[0] == '-' <==> first == MINUS);
    assert(s@[0] == '+' <==> first == PLUS);
    let ghost body = unsigned_part(s@);
    assert(body == s@.skip(start as int));
    if start == n {
        return None;
    }
    // The magnitude, capped just above the largest one that can fit.
    let cap: i64 = 0x1_0000_0000;
    let mut acc: i64 = 0;
    let mut i: usize = start;
    while i < n
        invariant
            start <= i <= n,
            n == s@.len(),
            bytes@ == Seq::new(s@.len(), |k: int| s@[k] as u8),
            vstd::utf8::is_ascii_chars(s@),
            body == s@.skip(start as int),
            body == unsigned_part(s@),
            cap == 0x1_0000_0000,
            all_digits(body.take(i - start)),
            0 <= acc <= cap,
            acc == if decimal_value(body.take(i - start)) < cap {
                decimal_value(body.take(i - start))
            } else {
                cap as int
            },
        decreases n - i,
    {
        let b: u8 = bytes[i];
        assert(s@[i as int] == body[i - start]);
        if b < DIGIT_ZERO || b > DIGIT_NINE {
            assert(!is_digit(body[i - start]));
            return None;
        }
        let d: i64 = (b - DIGIT_ZERO) as i64;
        proof {
            let next = body.take(i - start + 1);
            assert(next.drop_last() =~= body.take(i - start));
            assert(next.last() == body[i - start]);
            assert(digit_value(next.last()) == d);
            assert(decimal_value(next) == decimal_value(body.take(i - start)) * 10 + d);
            assert forall|j: int| 0 <= j < next.len() implies is_digit(#[trigger] next[j]) by {
                if j < i - start {
                    assert(body.take(i - start)[j] == next[j]);
                }
            }
        }
        acc = if acc >= cap { cap } else {
            let grown: i64 = acc * 10 + d;
            if grown >= cap { cap } else { grown }
        };
        i = i + 1;
    }
    assert(body.take(n - start) =~= body);
    if negative {
        if acc > 0x8000_0000 {
            None
        } else {
            Some((0 - acc) as i32)
        }
    } else {
        if acc > 0x7fff_ffff {
            None
        } else {
            Some(acc as i32)
        }
    }
}

/// `c` is the letter `lower`, written small or capital. `lower` is a small
/// ASCII letter.
pub open spec fn is_letter(c: char, lower: char) -> bool {
    c == lower || c as int == lower as int - 32
}

/// `s` is `word`, letter by letter, in any mix of small and capital letters.
pub open spec fn spells(s: Seq<char>, word: Seq<char>) -> bool {
    s.len() == word.len() && forall|i: int|
        0 <= i < s.len() ==> is_letter(#[trigger] s[i], word[i])
}

/// `s` names one of the values that are no ordinary number: an infinity, or
/// "not a number".
pub open spec fn is_special_text(s: Seq<char>) -> bool {
    ||| spells(s, seq!['i', 'n', 'f'])
    ||| spells(s, seq!['n', 'a', 'n'])
    ||| spells(s, seq!['i', 'n', 'f', 'i', 'n', 'i', 't', 'y'])
}

/// `s` is a run of digits with at most one decimal point in it, before,
/// between or after the digits, and at least one digit.
pub open spec fn is_mantissa_text(s: Seq<char>) -> bool {
    &&& forall|i: int| 0 <= i < s.len() ==> is_digit(#[trigger] s[i]) || s[i] == '.'
    &&& forall|i: int, j: int|
        0 <= i < s.len() && 0 <= j < s.len() && #[trigger] s[i] == '.' && #[trigger] s[j] == '.'
            ==> i == j
    &&& exists|i: int| 0 <= i < s.len() && is_digit(#[trigger] s[i])
}

/// `s` is the letter `e`, small or capital, followed by an integer.
pub open spec fn is_exponent_text(s: Seq<char>) -> bool {
    s.len() > 0 && is_letter(s[0], 'e') && is_integer_text(s.skip(1))
}

/// `s` is a mantissa, alone or followed by an exponent.
pub open spec fn is_number_text(s: Seq<char>) -> bool {
    exists|k: int|
        0 < k <= s.len() && is_mantissa_text(#[trigger] s.take(k)) && (k == s.len()
            || is_exponent_text(s.skip(k)))
}

/// `s` is a real number in decimal notation: an optional sign, then either
/// a number with an optional fraction and exponent, or the name of a special
/// value. A coordinate field must have this form.
pub open spec fn is_real_text(s: Seq<char>) -> bool {
    is_special_text(unsigned_part(s)) || is_number_text(unsigned_part(s))
}

/// Tells whether a field is a real number in decimal notation.
///
/// Such a field is an optional sign followed by digits with an optional
/// decimal point and an optional exponent, or by the name of an infinity or
/// of "not a number"; no white space is accepted.
pub fn is_real(s: &str) -> (b: bool)
    ensures
        b == is_real_text(s@),
{
    if !s.is_ascii() {
        proof {
            lemma_non_ascii_is_no_real(s@);
        }
        return false;
    }
    let bytes = s.as_bytes();
    let n: usize = bytes.len();
    proof {
        is_ascii_spec_bytes(s);
    }
    let ghost text = s@;
    assert(spelled_by(text, bytes@));
    let start: usize = if n > 0 && (bytes[0] == PLUS || bytes[0] == MINUS) {
        1
    } else {
        0
    };
    assert(unsigned_part(text) == text.skip(start as int));
    is_special_from(bytes, start, Ghost(text)) || is_number_from(bytes, start, Ghost(text))
}

/// Whether the bytes from `from` on are a number: a mantissa, alone or with
/// an exponent.
fn is_number_from(bytes: &[u8], from: usize, Ghost(text): Ghost<Seq<char>>) -> (b: bool)
    requires
        spelled_by(text, bytes@),
        from <= bytes.len(),
    ensures
        b == is_number_text(text.skip(from as int)),
{
    let n: usize = bytes.len();
    // The mantissa: digits, then possibly a point and more digits.
    let whole_end: usize = digits_end(bytes, from, Ghost(text));
    let pointed: bool = whole_end < n && bytes[whole_end] == POINT;
    let mantissa_end: usize = if pointed {
        digits_end(bytes, whole_end + 1, Ghost(text))
    } else {
        whole_end
    };
    proof {
        lemma_mantissa_scan(text, from as int, whole_end as int, pointed, mantissa_end as int);
    }
    if whole_end == from && !(pointed && mantissa_end > whole_end + 1) {
        return false;
    }
    if mantissa_end == n {
        return true;
    }
    let mark: u8 = bytes[mantissa_end];
    if mark != SMALL_E && mark != SMALL_E - 32 {
        return false;
    }
    is_integer_from(bytes, mantissa_end + 1, Ghost(text))
}

/// What a scan of the mantissa finds. The scan starts at `from`, runs over
/// digits up to `w`, over a point at `w` if `pointed`, and over the digits
/// after it, and ends at `m`. If the text from `from` on is a number at all,
/// its mantissa is what the scan ran over.
proof fn lemma_mantissa_scan(text: Seq<char>, from: int, w: int, pointed: bool, m: int)
    requires
        0 <= from <= w <= m <= text.len(),
        forall|k: int| from <= k < w ==> is_digit(#[trigger] text[k]),
        pointed ==> w < m && text[w] == '.',
        !pointed ==> w == m,
        forall|k: int| w < k < m ==> is_digit(#[trigger] text[k]),
        m < text.len() ==> !is_digit(text[m]),
        !pointed && m < text.len() ==> text[m] != '.',
    ensures
        is_number_text(text.skip(from)) <==> (w > from || m > w + 1) && (m == text.len() || (
        is_letter(text[m], 'e') && is_integer_text(text.skip(m + 1)))),
{
    let body = text.skip(from);
    let has_digit = w > from || m > w + 1;
    let end = m - from;
    assert(forall|k: int| 0 <= k < body.len() ==> body[k] == text[from + k]);
    if end < body.len() {
        assert(body.skip(end)[0] == text[m]);
        assert(body.skip(end).skip(1) =~= text.skip(m + 1));
    } else {
        assert(body.take(end) =~= body);
    }
    if has_digit {
        let head = body.take(end);
        assert(forall|k: int| 0 <= k < end ==> head[k] == body[k]);
        if w > from {
            assert(is_digit(head[0]));
        } else {
            assert(is_digit(head[w + 1 - from]));
        }
        assert(is_mantissa_text(head));
    }
    assert forall|k: int|
        0 < k <= body.len() && is_mantissa_text(#[trigger] body.take(k)) && (k == body.len()
            || is_exponent_text(body.skip(k))) implies k == end && has_digit by {
        let head = body.take(k);
        assert(forall|j: int| 0 <= j < k ==> head[j] == body[j]);
        if k > end {
            // The character at the end of the scan is no digit, and no first
            // point either.
            assert(head[end] == text[m]);
            if pointed {
                assert(head[w - from] == '.');
            }
        } else if k < end {
            // What follows a shorter mantissa is a digit or a point, no `e`.
            assert(body.skip(k)[0] == body[k]);
        }
        let d = choose|d: int| 0 <= d < head.len() && is_digit(#[trigger] head[d]);
        assert(is_digit(body[d]));
    }
}

/// `bytes` holds the characters of `text`, one byte each.
spec fn spelled_by(text: Seq<char>, bytes: Seq<u8>) -> bool {
    &&& bytes.len() == text.len()
    &&& forall|k: int|
        0 <= k < text.len() ==> '\0' <= #[trigger] text[k] <= '\u{7f}' && bytes[k] == text[k] as u8
}

/// The end of the run of digits that starts at `from`.
fn digits_end(bytes: &[u8], from: usize, Ghost(text): Ghost<Seq<char>>) -> (to: usize)
    requires
        spelled_by(text, bytes@),
        from <= bytes.len(),
    ensures
        from <= to <= bytes.len(),
        forall|k: int| from <= k < to ==> is_digit(#[trigger] text[k]),
        to < bytes.len() ==> !is_digit(text[to as int]),
{
    let mut to: usize = from;
    while to < bytes.len() && DIGIT_ZERO <= bytes[to] && bytes[to] <= DIGIT_NINE
        invariant
            spelled_by(text, bytes@),
            from <= to <= bytes.len(),
            forall|k: int| from <= k < to ==> is_digit(#[trigger] text[k]),
        decreases bytes.len() - to,
    {
        to = to + 1;
    }
    to
}

/// Whether the bytes from `from` on are an integer.
fn is_integer_from(bytes: &[u8], from: usize, Ghost(text): Ghost<Seq<char>>) -> (b: bool)
    requires
        spelled_by(text, bytes@),
        from <= bytes.len(),
    ensures
        b == is_integer_text(text.skip(from as int)),
{
    let n: usize = bytes.len();
    let ghost tail = text.skip(from as int);
    let start: usize = if from < n && (bytes[from] == PLUS || bytes[from] == MINUS) {
        from + 1
    } else {
        from
    };
    assert(unsigned_part(tail) =~= text.skip(start as int));
    let to: usize = digits_end(bytes, start, Ghost(text));
    if to < n {
        assert(text.skip(start as int)[to - start] == text[to as int]);
    }
    start < n && to == n
}

/// Whether the bytes from `from` on spell `word`, which is made of small
/// ASCII letters, in any mix of small and capital letters.
fn spells_from(bytes: &[u8], from: usize, word: &[u8], Ghost(text): Ghost<Seq<char>>) -> (b:
    bool)
    requires
        spelled_by(text, bytes@),
        from <= bytes.len(),
        forall|k: int| 0 <= k < word.len() ==> 97 <= #[trigger] word[k] <= 122,
    ensures
        b == spells(text.skip(from as int), Seq::new(word@.len(), |k: int| word[k] as char)),
{
    let n: usize = bytes.len();
    let ghost tail = text.skip(from as int);
    let ghost letters = Seq::new(word@.len(), |k: int| word[k] as char);
    if n - from != word.len() {
        return false;
    }
    let mut i: usize = 0;
    while i < word.len()
        invariant
            spelled_by(text, bytes@),
            n == bytes.len(),
            from <= n,
            n - from == word.len(),
            i <= word.len(),
            tail == text.skip(from as int),
            letters == Seq::new(word@.len(), |k: int| word[k] as char),
            forall|k: int| 0 <= k < word.len() ==> 97 <= #[trigger] word[k] <= 122,
            forall|k: int| 0 <= k < i ==> is_letter(#[trigger] tail[k], letters[k]),
        decreases word.len() - i,
    {
        let b: u8 = bytes[from + i];
        let w: u8 = word[i];
        assert(tail[i as int] == text[from + i]);
        assert(letters[i as int] == w as char);
        if b != w && b != w - 32 {
            assert(!is_letter(tail[i as int], letters[i as int]));
            return false;
        }
        i = i + 1;
    }
    true
}

/// Whether the bytes from `from` on spell a special value.
fn is_special_from(bytes: &[u8], from: usize, Ghost(text): Ghost<Seq<char>>) -> (b: bool)
    requires
        spelled_by(text, bytes@),
        from <= bytes.len(),
    ensures
        b == is_special_text(text.skip(from as int)),
{
    let inf: [u8; 3] = [SMALL_I, SMALL_N, SMALL_F];
    let nan: [u8; 3] = [SMALL_N, SMALL_A, SMALL_N];
    let infinity: [u8; 8] = [
        SMALL_I,
        SMALL_N,
        SMALL_F,
        SMALL_I,
        SMALL_N,
        SMALL_I,
        SMALL_T,
        SMALL_Y,
    ];
    assert(Seq::new(inf@.len(), |k: int| inf[k] as char) =~= seq!['i', 'n', 'f']);
    assert(Seq::new(nan@.len(), |k: int| nan[k] as char) =~= seq!['n', 'a', 'n']);
    assert(Seq::new(infinity@.len(), |k: int| infinity[k] as char) =~= seq![
        'i',
        'n',
        'f',
        'i',
        'n',
        'i',
        't',
        'y',
    ]);
    spells_from(bytes, from, inf.as_slice(), Ghost(text)) || spells_from(
        bytes,
        from,
        nan.as_slice(),
        Ghost(text),
    ) || spells_from(bytes, from, infinity.as_slice(), Ghost(text))
}

/// A text with a character outside ASCII holds something that is neither a
/// sign nor a digit.
proof fn lemma_non_ascii_is_no_integer(s: Seq<char>)
    requires
        !vstd::utf8::is_ascii_chars(s),
    ensures
        !is_integer_text(s),
{
    let i = choose|i: int| 0 <= i < s.len() && !('\0' <= #[trigger] s[i] <= '\u{7f}');
    let body = unsigned_part(s);
    if body.len() > 0 {
        if s.len() > 0 && is_sign(s[0]) {
            assert(i >= 1);
            assert(body[i - 1] == s[i]);
            assert(!is_digit(body[i - 1]));
        } else {
            assert(!is_digit(body[i]));
        }
    }
}

/// A text with a character outside ASCII is no real number.
proof fn lemma_non_ascii_is_no_real(s: Seq<char>)
    requires
        !vstd::utf8::is_ascii_chars(s),
    ensures
        !is_real_text(s),
{
    let i = choose|i: int| 0 <= i < s.len() && !('\0' <= #[trigger] s[i] <= '\u{7f}');
    let body = unsigned_part(s);
    let at = if s.len() > 0 && is_sign(s[0]) {
        i - 1
    } else {
        i
    };
    assert(0 <= at < body.len() && body[at] == s[i]);
    assert(!spells(body, seq!['i', 'n', 'f'])) by {
        if spells(body, seq!['i', 'n', 'f']) {
            assert(is_letter(body[at], seq!['i', 'n', 'f'][at]));
        }
    }
    assert(!spells(body, seq!['n', 'a', 'n'])) by {
        if spells(body, seq!['n', 'a', 'n']) {
            assert(is_letter(body[at], seq!['n', 'a', 'n'][at]));
        }
    }
    assert(!spells(body, seq!['i', 'n', 'f', 'i', 'n', 'i', 't', 'y'])) by {
        if spells(body, seq!['i', 'n', 'f', 'i', 'n', 'i', 't', 'y']) {
            assert(is_letter(body[at], seq!['i', 'n', 'f', 'i', 'n', 'i', 't', 'y'][at]));
        }
    }
    assert forall|k: int| 0 < k <= body.len() && is_mantissa_text(#[trigger] body.take(k)) && (k
        == body.len() || is_exponent_text(body.skip(k))) implies false by {
        if at < k {
            assert(body.take(k)[at] == body[at]);
        } else if at == k {
            assert(body.skip(k)[0] == body[at]);
        } else {
            let tail = body.skip(k).skip(1);
            assert(tail[at - k - 1] == body[at]);
            if tail.len() > 0 && is_sign(tail[0]) {
                assert(unsigned_part(tail)[at - k - 2] == body[at]);
            }
        }
    }
}

} // verus!
