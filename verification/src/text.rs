//! Decimal digits: how a number is written, and what a run of digits denotes.

use vstd::prelude::*;
use vstd::string::is_ascii;
use vstd::string::is_ascii_spec_bytes;

verus! {

/// `String::push` appends one character to the string.
pub assume_specification[ String::push ](s: &mut String, ch: char)
    ensures
        final(s)@ == old(s)@.push(ch),
;

/// Whether the character is one of the ten decimal digits.
pub open spec fn is_digit(c: char) -> bool {
    '0' <= c <= '9'
}

/// Whether the text holds decimal digits only. The empty text does.
pub open spec fn all_digits(s: Seq<char>) -> bool {
    forall|i: int| 0 <= i < s.len() ==> is_digit(#[trigger] s[i])
}

/// The character that writes the digit `d`.
pub open spec fn digit_char(d: int) -> char
    recommends
        0 <= d <= 9,
{
    if d == 0 {
        '0'
    } else if d == 1 {
        '1'
    } else if d == 2 {
        '2'
    } else if d == 3 {
        '3'
    } else if d == 4 {
        '4'
    } else if d == 5 {
        '5'
    } else if d == 6 {
        '6'
    } else if d == 7 {
        '7'
    } else if d == 8 {
        '8'
    } else {
        '9'
    }
}

/// The digit that a digit character writes.
pub open spec fn digit_of(c: char) -> int
    recommends
        is_digit(c),
{
    c as int - '0' as int
}

/// A natural number written in decimal, without leading zeros; zero is written "0".
pub open spec fn decimal_digits(n: nat) -> Seq<char>
    decreases n,
{
    if n < 10 {
        seq![digit_char(n as int)]
    } else {
        decimal_digits(n / 10).push(digit_char((n % 10) as int))
    }
}

/// The number that a run of decimal digits denotes, read with the most significant
/// digit first. The empty run denotes zero.
pub open spec fn digits_value(s: Seq<char>) -> nat
    recommends
        all_digits(s),
    decreases s.len(),
{
    if s.len() == 0 {
        0
    } else {
        (digits_value(s.drop_last()) * 10 + digit_of(s.last())) as nat
    }
}

/// How many digits the text begins with.
pub open spec fn leading_digits(s: Seq<char>) -> nat
    decreases s.len(),
{
    if s.len() == 0 || !is_digit(s[0]) {
        0
    } else {
        1 + leading_digits(s.skip(1))
    }
}

/// The number that the text denotes where it is a non-empty run of digits that
/// denotes at most `max`, and nothing otherwise.
pub open spec fn number_of_text(s: Seq<char>, max: nat) -> Option<nat> {
    if s.len() > 0 && all_digits(s) && digits_value(s) <= max {
        Some(digits_value(s))
    } else {
        None
    }
}

/// The text as bytes, one for each character.
pub open spec fn bytes_of(s: Seq<char>) -> Seq<u8> {
    Seq::new(s.len(), |i: int| s[i] as u8)
}

/// A digit character writes the digit it is made from, and is a digit.
pub proof fn lemma_digit_char(d: int)
    requires
        0 <= d <= 9,
    ensures
        is_digit(digit_char(d)),
        digit_of(digit_char(d)) == d,
        digit_char(d) as int == d + 48,
{
}

/// A written number is a non-empty run of digits that denotes that number.
pub proof fn lemma_decimal_digits(n: nat)
    ensures
        decimal_digits(n).len() > 0,
        all_digits(decimal_digits(n)),
        digits_value(decimal_digits(n)) == n,
        n > 0 ==> decimal_digits(n)[0] != '0',
    decreases n,
{
    if n < 10 {
        lemma_digit_char(n as int);
        let s = decimal_digits(n);
        assert(s.drop_last() =~= Seq::<char>::empty());
        assert(digits_value(s.drop_last()) == 0);
    } else {
        lemma_decimal_digits(n / 10);
        lemma_digit_char((n % 10) as int);
        let head = decimal_digits(n / 10);
        let s = decimal_digits(n);
        assert(s.drop_last() =~= head);
        assert(s.last() == digit_char((n % 10) as int));
        assert(s[0] == head[0]);
    }
}

/// A run of digits denotes at least what any of its beginnings denotes.
pub proof fn lemma_digits_value_grows(s: Seq<char>, k: int)
    requires
        all_digits(s),
        0 <= k <= s.len(),
    ensures
        digits_value(s.take(k)) <= digits_value(s),
    decreases s.len() - k,
{
    if k == s.len() {
        assert(s.take(k) =~= s);
    } else {
        lemma_digits_value_grows(s, k + 1);
        assert(s.take(k + 1).drop_last() =~= s.take(k));
        assert(is_digit(s[k]));
        assert(s.take(k + 1).last() == s[k]);
    }
}

/// The characters of the text as bytes, where all of them are ASCII.
pub fn ascii_bytes(s: &str) -> (r: Option<&[u8]>)
    ensures
        match r {
            Some(bytes) => is_ascii(s) && bytes@ == bytes_of(s@),
            None => !is_ascii(s),
        },
{
    if s.is_ascii() {
        proof {
            is_ascii_spec_bytes(s);
        }
        let bytes = s.as_bytes();
        assert(bytes@ =~= bytes_of(s@));
        Some(bytes)
    } else {
        None
    }
}

/// Appends the character of one digit.
pub fn push_digit(out: &mut String, d: u8)
    requires
        d <= 9,
    ensures
        final(out)@ == old(out)@.push(digit_char(d as int)),
{
    proof {
        lemma_digit_char(d as int);
    }
    out.push((d + 48) as char);
}

/// Appends a number, written in decimal.
pub fn push_decimal(out: &mut String, n: u64)
    ensures
        final(out)@ == old(out)@ + decimal_digits(n as nat),
    decreases n,
{
    if n >= 10 {
        push_decimal(out, n / 10);
    }
    push_digit(out, (n % 10) as u8);
    proof {
        if n < 10 {
            assert(old(out)@.push(digit_char(n as int)) =~= old(out)@ + decimal_digits(n as nat));
        } else {
            assert((old(out)@ + decimal_digits((n / 10) as nat)).push(digit_char((n % 10) as int))
                =~= old(out)@ + decimal_digits(n as nat));
        }
    }
}

/// Reads a number from characters `from..to` of an ASCII text, given with its bytes:
/// they must be a non-empty run of digits that denotes at most `max`.
pub(crate) fn parse_number(text: &str, bytes: &[u8], from: usize, to: usize, max: u64) -> (r: Option<u64>)
    requires
        is_ascii(text),
        bytes@ == bytes_of(text@),
        from <= to <= bytes@.len(),
        max <= u64::MAX / 16,
    ensures
        r == match number_of_text(text@.subrange(from as int, to as int), max as nat) {
            Some(n) => Some(n as u64),
            None => None,
        },
{
    let ghost s = text@.subrange(from as int, to as int);
    if from == to {
        return None;
    }
    let mut i: usize = from;
    let mut value: u64 = 0;
    while i < to
        invariant
            is_ascii(text),
            bytes@ == bytes_of(text@),
            from <= i <= to <= bytes@.len(),
            s == text@.subrange(from as int, to as int),
            max <= u64::MAX / 16,
            all_digits(s.take(i - from)),
            value == digits_value(s.take(i - from)),
            value <= max,
        decreases to - i,
    {
        let b = bytes[i];
        assert('\0' <= text@[i as int] <= '\u{7f}');
        assert(b == text@[i as int] as u8);
        assert(s[i - from] == text@[i as int]);
        if b < 48 || b > 57 {
            assert(!is_digit(s[i - from]));
            return None;
        }
        let d = (b - 48) as u64;
        proof {
            assert(is_digit(s[i - from]));
            assert(s.take(i - from + 1).drop_last() =~= s.take(i - from));
            assert(s.take(i - from + 1).last() == s[i - from]);
            assert(digit_of(s[i - from]) == d);
            assert(all_digits(s.take(i - from + 1))) by {
                assert forall|j: int| 0 <= j < i - from + 1 implies is_digit(
                    #[trigger] s.take(i - from + 1)[j],
                ) by {
                    if j < i - from {
                        assert(s.take(i - from)[j] == s[j]);
                    }
                }
            }
        }
        let next = value * 10 + d;
        if next > max {
            proof {
                if all_digits(s) {
                    lemma_digits_value_grows(s, i - from + 1);
                }
            }
            return None;
        }
        value = next;
        i = i + 1;
    }
    proof {
        assert(s.take(to - from) =~= s);
    }
    Some(value)
}


/// Whether the character is a blank: a space or a tab.
pub open spec fn is_blank(c: char) -> bool {
    c == ' ' || c == '\t'
}

/// How many characters stand before the first `separator`: all of them where the
/// text has none.
pub open spec fn run_before(s: Seq<char>, separator: char) -> nat
    decreases s.len(),
{
    if s.len() == 0 || s[0] == separator {
        0
    } else {
        1 + run_before(s.skip(1), separator)
    }
}

/// The sections that the separators part the text into, in order. A text without
/// a separator is one section; between two separators side by side lies an empty one.
pub open spec fn split(s: Seq<char>, separator: char) -> Seq<Seq<char>>
    decreases s.len(),
{
    let first = run_before(s, separator) as int;
    if first >= s.len() {
        seq![s]
    } else {
        seq![s.take(first)] + split(s.skip(first + 1), separator)
    }
}

/// The text without the blanks it begins with.
pub open spec fn trim_start(s: Seq<char>) -> Seq<char>
    decreases s.len(),
{
    if s.len() > 0 && is_blank(s[0]) {
        trim_start(s.skip(1))
    } else {
        s
    }
}

/// The text without the blanks it ends with.
pub open spec fn trim_end(s: Seq<char>) -> Seq<char>
    decreases s.len(),
{
    if s.len() > 0 && is_blank(s.last()) {
        trim_end(s.drop_last())
    } else {
        s
    }
}

/// The text without the blanks around it.
pub open spec fn trim(s: Seq<char>) -> Seq<char> {
    trim_end(trim_start(s))
}

/// The parts of a text that a sequence of ranges picks out.
pub open spec fn sections(text: Seq<char>, ranges: Seq<(usize, usize)>) -> Seq<Seq<char>> {
    Seq::new(ranges.len(), |i: int| text.subrange(ranges[i].0 as int, ranges[i].1 as int))
}

/// A text whose first `count` characters are no separators, and which goes on with
/// a separator or ends there, has exactly that many before its first separator.
pub proof fn lemma_run_before_count(s: Seq<char>, separator: char, count: int)
    requires
        0 <= count <= s.len(),
        forall|i: int| 0 <= i < count ==> #[trigger] s[i] != separator,
        count < s.len() ==> s[count] == separator,
    ensures
        run_before(s, separator) == count,
    decreases count,
{
    if count > 0 {
        let tail = s.skip(1);
        assert forall|i: int| 0 <= i < count - 1 implies #[trigger] tail[i] != separator by {
            assert(tail[i] == s[i + 1]);
        }
        if count < s.len() {
            assert(tail[count - 1] == s[count]);
        }
        lemma_run_before_count(tail, separator, count - 1);
        assert(s[0] != separator);
    }
}

/// The ranges of the sections that `separator` parts characters `from..to` of an
/// ASCII text into, in order.
pub(crate) fn split_ranges(text: &str, bytes: &[u8], from: usize, to: usize, separator: u8) -> (ranges:
    Vec<(usize, usize)>)
    requires
        is_ascii(text),
        bytes@ == bytes_of(text@),
        from <= to <= bytes@.len(),
        separator < 128,
    ensures
        sections(text@, ranges@) == split(text@.subrange(from as int, to as int), separator as char),
        forall|i: int|
            0 <= i < ranges.len() ==> from <= (#[trigger] ranges[i]).0 <= ranges[i].1 <= to,
{
    let ghost whole = text@.subrange(from as int, to as int);
    let ghost mark = separator as char;
    let mut ranges: Vec<(usize, usize)> = Vec::new();
    let mut start: usize = from;
    let mut i: usize = from;
    assert(whole.skip(0) =~= whole);
    assert(sections(text@, ranges@) =~= Seq::<Seq<char>>::empty());
    loop
        invariant_except_break
            split(whole, mark) == sections(text@, ranges@) + split(whole.skip(start - from), mark),
        invariant
            is_ascii(text),
            bytes@ == bytes_of(text@),
            from <= start <= i <= to <= bytes@.len(),
            separator < 128,
            mark == separator as char,
            whole == text@.subrange(from as int, to as int),
            forall|k: int| start <= k < i ==> #[trigger] text@[k] != mark,
            forall|k: int|
                0 <= k < ranges.len() ==> from <= (#[trigger] ranges[k]).0 <= ranges[k].1 <= to,
        ensures
            sections(text@, ranges@) == split(whole, mark),
            forall|k: int|
                0 <= k < ranges.len() ==> from <= (#[trigger] ranges[k]).0 <= ranges[k].1 <= to,
        decreases to - i,
    {
        let ghost rest = whole.skip(start - from);
        let ghost done = ranges@;
        assert(forall|k: int| 0 <= k < to - start ==> #[trigger] rest[k] == text@[k + start]);
        if i == to {
            proof {
                lemma_run_before_count(rest, mark, to - start);
                assert(rest =~= text@.subrange(start as int, to as int));
            }
            ranges.push((start, to));
            proof {
                assert(sections(text@, ranges@) =~= sections(text@, done) + seq![rest]);
            }
            break ;
        }
        assert('\0' <= text@[i as int] <= '\u{7f}');
        assert(bytes@[i as int] == text@[i as int] as u8);
        if bytes[i] == separator {
            proof {
                assert(text@[i as int] == mark);
                assert(rest[i - start] == text@[i as int]);
                lemma_run_before_count(rest, mark, i - start);
                assert(rest.take(i - start) =~= text@.subrange(start as int, i as int));
                assert(rest.skip(i - start + 1) =~= whole.skip(i + 1 - from));
            }
            ranges.push((start, i));
            proof {
                assert(sections(text@, ranges@) =~= sections(text@, done) + seq![
                    rest.take(i - start),
                ]);
                assert(split(whole, mark) =~= sections(text@, ranges@) + split(
                    whole.skip(i + 1 - from),
                    mark,
                ));
            }
            start = i + 1;
        } else {
            assert(text@[i as int] != mark);
        }
        i = i + 1;
    }
    ranges
}

/// The range of characters `from..to` of an ASCII text without the blanks around it.
pub(crate) fn trim_range(text: &str, bytes: &[u8], from: usize, to: usize) -> (range: (usize, usize))
    requires
        is_ascii(text),
        bytes@ == bytes_of(text@),
        from <= to <= bytes@.len(),
    ensures
        from <= range.0 <= range.1 <= to,
        text@.subrange(range.0 as int, range.1 as int) == trim(
            text@.subrange(from as int, to as int),
        ),
{
    let mut a: usize = from;
    while a < to && (bytes[a] == 32 || bytes[a] == 9)
        invariant
            is_ascii(text),
            bytes@ == bytes_of(text@),
            from <= a <= to <= bytes@.len(),
            trim_start(text@.subrange(from as int, to as int)) == trim_start(
                text@.subrange(a as int, to as int),
            ),
        decreases to - a,
    {
        proof {
            let s = text@.subrange(a as int, to as int);
            assert('\0' <= text@[a as int] <= '\u{7f}');
            assert(bytes@[a as int] == text@[a as int] as u8);
            assert(s[0] == text@[a as int]);
            assert(is_blank(s[0]));
            assert(s.skip(1) =~= text@.subrange(a + 1, to as int));
        }
        a = a + 1;
    }
    proof {
        let s = text@.subrange(a as int, to as int);
        if a < to {
            assert('\0' <= text@[a as int] <= '\u{7f}');
            assert(bytes@[a as int] == text@[a as int] as u8);
            assert(s[0] == text@[a as int]);
            assert(!is_blank(s[0]));
        }
        assert(trim_start(s) == s);
    }
    let mut b: usize = to;
    while a < b && (bytes[b - 1] == 32 || bytes[b - 1] == 9)
        invariant
            is_ascii(text),
            bytes@ == bytes_of(text@),
            from <= a <= b <= to <= bytes@.len(),
            trim(text@.subrange(from as int, to as int)) == trim_end(
                text@.subrange(a as int, b as int),
            ),
        decreases b - a,
    {
        proof {
            let s = text@.subrange(a as int, b as int);
            assert('\0' <= text@[b - 1] <= '\u{7f}');
            assert(bytes@[b - 1] == text@[b - 1] as u8);
            assert(s.last() == text@[b - 1]);
            assert(is_blank(s.last()));
            assert(s.drop_last() =~= text@.subrange(a as int, b - 1));
        }
        b = b - 1;
    }
    proof {
        let s = text@.subrange(a as int, b as int);
        if a < b {
            assert('\0' <= text@[b - 1] <= '\u{7f}');
            assert(bytes@[b - 1] == text@[b - 1] as u8);
            assert(s.last() == text@[b - 1]);
            assert(!is_blank(s.last()));
        }
        assert(trim_end(s) == s);
    }
    (a, b)
}

/// Whether characters `from..to` of an ASCII text spell `word`.
pub(crate) fn section_is(text: &str, bytes: &[u8], from: usize, to: usize, word: &str) -> (r: bool)
    requires
        is_ascii(text),
        bytes@ == bytes_of(text@),
        from <= to <= bytes@.len(),
        is_ascii(word),
    ensures
        r == (text@.subrange(from as int, to as int) == word@),
{
    let letters = match ascii_bytes(word) {
        Some(letters) => letters,
        None => {
            return false;
        },
    };
    let ghost section = text@.subrange(from as int, to as int);
    if letters.len() != to - from {
        return false;
    }
    let mut i: usize = 0;
    while i < to - from
        invariant
            is_ascii(text),
            is_ascii(word),
            bytes@ == bytes_of(text@),
            letters@ == bytes_of(word@),
            from <= to <= bytes@.len(),
            letters@.len() == to - from,
            i <= to - from,
            section == text@.subrange(from as int, to as int),
            forall|k: int| 0 <= k < i ==> #[trigger] section[k] == word@[k],
        decreases to - from - i,
    {
        assert('\0' <= text@[from + i] <= '\u{7f}');
        assert('\0' <= word@[i as int] <= '\u{7f}');
        assert(bytes@[from + i] == text@[from + i] as u8);
        assert(letters@[i as int] == word@[i as int] as u8);
        assert(section[i as int] == text@[from + i]);
        if bytes[from + i] != letters[i] {
            assert(section[i as int] != word@[i as int]);
            return false;
        }
        i = i + 1;
    }
    assert(section =~= word@);
    true
}


/// The text without a plus sign that it begins with.
pub open spec fn without_plus(s: Seq<char>) -> Seq<char> {
    if s.len() > 0 && s[0] == '+' {
        s.skip(1)
    } else {
        s
    }
}

/// Reads a number that is at most `max` from a text: digits alone, or a plus sign
/// and digits. Any other text is refused, and so is a number above `max`.
pub fn parse_unsigned(text: &str, max: u64) -> (r: Option<u64>)
    requires
        max <= u64::MAX / 16,
    ensures
        r == match number_of_text(without_plus(text@), max as nat) {
            Some(n) => Some(n as u64),
            None => None,
        },
{
    match ascii_bytes(text) {
        Some(bytes) => {
            let from: usize = if bytes.len() > 0 && bytes[0] == 43 {
                1
            } else {
                0
            };
            proof {
                if bytes@.len() > 0 {
                    assert('\0' <= text@[0] <= '\u{7f}');
                    assert(bytes@[0] == text@[0] as u8);
                }
                assert(text@.subrange(from as int, text@.len() as int) =~= without_plus(text@));
            }
            parse_number(text, bytes, from, bytes.len(), max)
        },
        None => {
            proof {
                let digits = without_plus(text@);
                if digits.len() > 0 && all_digits(digits) {
                    assert forall|i: int| 0 <= i < text@.len() implies '\0' <= #[trigger] text@[i]
                        <= '\u{7f}' by {
                        if digits.len() == text@.len() {
                            assert(is_digit(digits[i]));
                        } else if i > 0 {
                            assert(digits[i - 1] == text@[i]);
                            assert(is_digit(digits[i - 1]));
                        }
                    }
                }
            }
            None
        },
    }
}


/// Ten to the power of `n`.
pub open spec fn pow10(n: nat) -> nat
    decreases n,
{
    if n == 0 {
        1
    } else {
        10 * pow10((n - 1) as nat)
    }
}

/// Powers of ten are positive.
pub proof fn lemma_pow10_positive(n: nat)
    ensures
        pow10(n) > 0,
    decreases n,
{
    if n > 0 {
        lemma_pow10_positive((n - 1) as nat);
    }
}

/// Powers of ten multiply as their exponents add.
pub proof fn lemma_pow10_add(a: nat, b: nat)
    ensures
        pow10(a + b) == pow10(a) * pow10(b),
    decreases a,
{
    if a == 0 {
        assert(pow10(a + b) == 1 * pow10(b));
    } else {
        lemma_pow10_add((a - 1) as nat, b);
        assert(pow10(a + b) == 10 * pow10((a - 1 + b) as nat));
        assert(10 * (pow10((a - 1) as nat) * pow10(b)) == (10 * pow10((a - 1) as nat)) * pow10(b))
            by (nonlinear_arith);
    }
}

/// The digits that a text begins with are digits, and what follows them is not one.
pub proof fn lemma_leading_digits(s: Seq<char>)
    ensures
        leading_digits(s) <= s.len(),
        forall|i: int| 0 <= i < leading_digits(s) ==> is_digit(#[trigger] s[i]),
        leading_digits(s) < s.len() ==> !is_digit(s[leading_digits(s) as int]),
    decreases s.len(),
{
    if s.len() == 0 || !is_digit(s[0]) {
    } else {
        let tail = s.skip(1);
        lemma_leading_digits(tail);
        assert forall|i: int| 0 <= i < leading_digits(s) implies is_digit(#[trigger] s[i]) by {
            if i > 0 {
                assert(tail[i - 1] == s[i]);
            }
        }
        if leading_digits(s) < s.len() {
            assert(tail[leading_digits(tail) as int] == s[leading_digits(s) as int]);
        }
    }
}

/// A text that begins with `count` digits, and goes on with something else or ends
/// there, begins with exactly that many digits.
pub proof fn lemma_leading_digits_count(s: Seq<char>, count: int)
    requires
        0 <= count <= s.len(),
        forall|i: int| 0 <= i < count ==> is_digit(#[trigger] s[i]),
        count < s.len() ==> !is_digit(s[count]),
    ensures
        leading_digits(s) == count,
    decreases count,
{
    if count > 0 {
        let tail = s.skip(1);
        assert forall|i: int| 0 <= i < count - 1 implies is_digit(#[trigger] tail[i]) by {
            assert(tail[i] == s[i + 1]);
        }
        if count < s.len() {
            assert(tail[count - 1] == s[count]);
        }
        lemma_leading_digits_count(tail, count - 1);
        assert(is_digit(s[0]));
    }
}

/// Digits read after other digits count for what they denote; the digits before
/// them count for ten times more with each digit that follows.
pub proof fn lemma_digits_value_concat(a: Seq<char>, b: Seq<char>)
    requires
        all_digits(a),
        all_digits(b),
    ensures
        all_digits(a + b),
        digits_value(a + b) == digits_value(a) * pow10(b.len()) + digits_value(b),
    decreases b.len(),
{
    assert(all_digits(a + b)) by {
        assert forall|i: int| 0 <= i < (a + b).len() implies is_digit(#[trigger] (a + b)[i]) by {
            if i < a.len() {
                assert((a + b)[i] == a[i]);
            } else {
                assert((a + b)[i] == b[i - a.len()]);
            }
        }
    }
    if b.len() == 0 {
        assert(a + b =~= a);
        assert(pow10(0) == 1);
        assert(digits_value(a) * 1 == digits_value(a)) by (nonlinear_arith);
    } else {
        let shorter = b.drop_last();
        assert(all_digits(shorter)) by {
            assert forall|i: int| 0 <= i < shorter.len() implies is_digit(#[trigger] shorter[i]) by {
                assert(shorter[i] == b[i]);
            }
        }
        lemma_digits_value_concat(a, shorter);
        assert((a + b).drop_last() =~= a + shorter);
        assert((a + b).last() == b.last());
        assert(is_digit(b.last()));
        assert(pow10(b.len()) == 10 * pow10(shorter.len()));
        let va = digits_value(a) as int;
        let p = pow10(shorter.len()) as int;
        assert((va * p + digits_value(shorter)) * 10 == va * (10 * p) + digits_value(shorter) * 10)
            by (nonlinear_arith);
    }
}



/// The text without the characters `c` that it begins with.
pub open spec fn without_leading(s: Seq<char>, c: char) -> Seq<char>
    decreases s.len(),
{
    if s.len() > 0 && s[0] == c {
        without_leading(s.skip(1), c)
    } else {
        s
    }
}

/// The text without the characters `c` that it ends with.
pub open spec fn without_trailing(s: Seq<char>, c: char) -> Seq<char>
    decreases s.len(),
{
    if s.len() > 0 && s.last() == c {
        without_trailing(s.drop_last(), c)
    } else {
        s
    }
}


/// What is left of a text without the characters `c` that it begins with is the
/// text from some place on; all before that place is `c`, and what is left does
/// not begin with `c`. The place is handed back.
pub proof fn lemma_without_leading(s: Seq<char>, c: char) -> (from: int)
    ensures
        0 <= from <= s.len(),
        without_leading(s, c) == s.skip(from),
        forall|i: int| 0 <= i < from ==> #[trigger] s[i] == c,
        from < s.len() ==> s[from] != c,
    decreases s.len(),
{
    if s.len() > 0 && s[0] == c {
        let tail = s.skip(1);
        let from = lemma_without_leading(tail, c);
        assert(tail.skip(from) =~= s.skip(from + 1));
        assert forall|i: int| 0 <= i < from + 1 implies #[trigger] s[i] == c by {
            if i > 0 {
                assert(tail[i - 1] == s[i]);
            }
        }
        if from + 1 < s.len() {
            assert(tail[from] == s[from + 1]);
        }
        from + 1
    } else {
        assert(s.skip(0) =~= s);
        0
    }
}

/// What is left of a text without the characters `c` that it ends with is the text
/// up to some place; all from that place on is `c`, and what is left does not end
/// with `c`. The place is handed back.
pub proof fn lemma_without_trailing(s: Seq<char>, c: char) -> (to: int)
    ensures
        0 <= to <= s.len(),
        without_trailing(s, c) == s.take(to),
        forall|i: int| to <= i < s.len() ==> #[trigger] s[i] == c,
        to > 0 ==> s[to - 1] != c,
    decreases s.len(),
{
    if s.len() > 0 && s.last() == c {
        let front = s.drop_last();
        let to = lemma_without_trailing(front, c);
        assert(front.take(to) =~= s.take(to));
        assert forall|i: int| to <= i < s.len() implies #[trigger] s[i] == c by {
            if i < s.len() - 1 {
                assert(front[i] == s[i]);
            }
        }
        if to > 0 {
            assert(front[to - 1] == s[to - 1]);
        }
        to
    } else {
        assert(s.take(s.len() as int) =~= s);
        s.len() as int
    }
}

/// A run of zeros denotes zero.
pub proof fn lemma_zeros_value(s: Seq<char>)
    requires
        forall|i: int| 0 <= i < s.len() ==> #[trigger] s[i] == '0',
    ensures
        all_digits(s),
        digits_value(s) == 0,
    decreases s.len(),
{
    if s.len() > 0 {
        let front = s.drop_last();
        assert forall|i: int| 0 <= i < front.len() implies #[trigger] front[i] == '0' by {
            assert(front[i] == s[i]);
        }
        lemma_zeros_value(front);
        assert(s.last() == s[s.len() - 1]);
    }
}

/// Zeros before a run of digits do not change what it denotes, and each zero after
/// it makes it ten times more.
pub proof fn lemma_zeros_around(s: Seq<char>, from: int, to: int)
    requires
        all_digits(s),
        0 <= from <= to <= s.len(),
        forall|i: int| 0 <= i < from ==> #[trigger] s[i] == '0',
        forall|i: int| to <= i < s.len() ==> #[trigger] s[i] == '0',
    ensures
        all_digits(s.subrange(from, to)),
        digits_value(s) == digits_value(s.subrange(from, to)) * pow10((s.len() - to) as nat),
{
    let before = s.take(from);
    let middle = s.subrange(from, to);
    let after = s.skip(to);
    assert(forall|i: int| 0 <= i < before.len() ==> #[trigger] before[i] == s[i]);
    assert(forall|i: int| 0 <= i < after.len() ==> #[trigger] after[i] == s[i + to]);
    assert forall|i: int| 0 <= i < middle.len() implies is_digit(#[trigger] middle[i]) by {
        assert(middle[i] == s[i + from]);
    }
    lemma_zeros_value(before);
    lemma_zeros_value(after);
    lemma_digits_value_concat(before, middle);
    lemma_digits_value_concat(before + middle, after);
    assert((before + middle) + after =~= s);
    assert(0 * pow10(middle.len()) == 0) by (nonlinear_arith);
}

/// A run of digits denotes less than ten to the power of its length, and at least
/// ten to the power of its length less one where it does not begin with a zero.
/// Its last digit is what it denotes modulo ten.
pub proof fn lemma_digits_value_bounds(s: Seq<char>)
    requires
        all_digits(s),
    ensures
        digits_value(s) < pow10(s.len()),
        s.len() > 0 && s[0] != '0' ==> digits_value(s) >= pow10((s.len() - 1) as nat),
        s.len() > 0 ==> digits_value(s) % 10 == digit_of(s.last()),
    decreases s.len(),
{
    if s.len() > 0 {
        let front = s.drop_last();
        assert forall|i: int| 0 <= i < front.len() implies is_digit(#[trigger] front[i]) by {
            assert(front[i] == s[i]);
        }
        lemma_digits_value_bounds(front);
        assert(is_digit(s.last()));
        assert(pow10(s.len()) == 10 * pow10(front.len()));
        if front.len() > 0 {
            assert(front[0] == s[0]);
            assert(pow10(front.len()) == 10 * pow10((front.len() - 1) as nat));
        } else {
            assert(s.last() == s[0]);
            assert(pow10(0) == 1);
        }
    } else {
        assert(pow10(0) == 1);
    }
}

} // verus!
