//! Reading the plain-text output of the revision-graph queries: one record
//! per line, fields separated by blanks, numbers in decimal.

use vstd::prelude::*;
use vstd::slice::slice_subrange;
use vstd::string::StringExecFns;

verus! {

/// The bytes that separate fields: space, tab, line feed, vertical tab, form
/// feed and carriage return.
pub open spec fn is_blank(b: u8) -> bool {
    b == 32 || 9 <= b <= 13
}

/// The index at which the run of blanks that begins at `from` ends.
pub open spec fn blanks_end(s: Seq<u8>, from: int) -> int
    decreases s.len() - from,
{
    if 0 <= from < s.len() && is_blank(s[from]) {
        blanks_end(s, from + 1)
    } else {
        from
    }
}

/// The index at which the run of bytes other than blanks that begins at
/// `from` ends.
pub open spec fn word_end(s: Seq<u8>, from: int) -> int
    decreases s.len() - from,
{
    if 0 <= from < s.len() && !is_blank(s[from]) {
        word_end(s, from + 1)
    } else {
        from
    }
}

/// The index at which the run of blanks that ends before `upto` begins.
pub open spec fn blanks_start(s: Seq<u8>, upto: int) -> int
    decreases upto,
{
    if 0 < upto <= s.len() && is_blank(s[upto - 1]) {
        blanks_start(s, upto - 1)
    } else {
        upto
    }
}

/// `blanks_end(s, from)` is the first index at or after `from` that holds no
/// blank, or the length of `s`.
pub proof fn lemma_blanks_end(s: Seq<u8>, from: int)
    requires
        0 <= from <= s.len(),
    ensures
        from <= blanks_end(s, from) <= s.len(),
        forall|k: int| from <= k < blanks_end(s, from) ==> is_blank(#[trigger] s[k]),
        blanks_end(s, from) < s.len() ==> !is_blank(s[blanks_end(s, from)]),
    decreases s.len() - from,
{
    if from < s.len() && is_blank(s[from]) {
        lemma_blanks_end(s, from + 1);
    }
}

/// `word_end(s, from)` is the first index at or after `from` that holds a
/// blank, or the length of `s`.
pub proof fn lemma_word_end(s: Seq<u8>, from: int)
    requires
        0 <= from <= s.len(),
    ensures
        from <= word_end(s, from) <= s.len(),
        forall|k: int| from <= k < word_end(s, from) ==> !is_blank(#[trigger] s[k]),
        word_end(s, from) < s.len() ==> is_blank(s[word_end(s, from)]),
        from < s.len() && !is_blank(s[from]) ==> from < word_end(s, from),
    decreases s.len() - from,
{
    if from < s.len() && !is_blank(s[from]) {
        lemma_word_end(s, from + 1);
    }
}

/// `blanks_start(s, upto)` is the least index from which everything before
/// `upto` is blank.
pub proof fn lemma_blanks_start(s: Seq<u8>, upto: int)
    requires
        0 <= upto <= s.len(),
    ensures
        0 <= blanks_start(s, upto) <= upto,
        forall|k: int| blanks_start(s, upto) <= k < upto ==> is_blank(#[trigger] s[k]),
        0 < blanks_start(s, upto) ==> !is_blank(s[blanks_start(s, upto) - 1]),
    decreases upto,
{
    if 0 < upto && is_blank(s[upto - 1]) {
        lemma_blanks_start(s, upto - 1);
    }
}

/// The fields of `s` that begin at or after `from`, in order: the maximal
/// runs of bytes other than blanks.
pub open spec fn fields_from(s: Seq<u8>, from: int) -> Seq<Seq<u8>>
    decreases s.len() - from,
{
    let start = blanks_end(s, from);
    if 0 <= from <= s.len() && start < s.len() {
        proof {
            lemma_blanks_end(s, from);
            lemma_word_end(s, start);
        }
        seq![s.subrange(start, word_end(s, start))] + fields_from(s, word_end(s, start))
    } else {
        Seq::empty()
    }
}

/// The fields of a line.
pub open spec fn fields_of(s: Seq<u8>) -> Seq<Seq<u8>> {
    fields_from(s, 0)
}

/// Whether a byte is a blank.
pub fn blank(b: u8) -> (r: bool)
    ensures
        r == is_blank(b),
{
    b == 32 || (9 <= b && b <= 13)
}

/// Skips the blanks that begin at `from`: gives the first index at or after
/// `from` that holds no blank, or the length of `s` where there is none.
pub fn skip_blanks(s: &[u8], from: usize) -> (at: usize)
    ensures
        at == blanks_end(s@, from as int),
        from <= at,
        from <= s@.len() ==> at <= s@.len(),
{
    let mut at: usize = from;
    while at < s.len() && blank(s[at])
        invariant
            from <= at,
            from <= s@.len() ==> at <= s@.len(),
            blanks_end(s@, from as int) == blanks_end(s@, at as int),
        decreases s@.len() - at,
    {
        at = at + 1;
    }
    at
}

/// Skips the bytes other than blanks that begin at `from`: gives the first
/// index at or after `from` that holds a blank, or the length of `s` where
/// there is none.
pub fn skip_word(s: &[u8], from: usize) -> (at: usize)
    ensures
        at == word_end(s@, from as int),
        from <= at,
        from <= s@.len() ==> at <= s@.len(),
{
    let mut at: usize = from;
    while at < s.len() && !blank(s[at])
        invariant
            from <= at,
            from <= s@.len() ==> at <= s@.len(),
            word_end(s@, from as int) == word_end(s@, at as int),
        decreases s@.len() - at,
    {
        at = at + 1;
    }
    at
}

/// The first `limit` fields of a line, or all of them where it has fewer.
pub fn leading_fields<'a>(line: &'a [u8], limit: usize) -> (found: Vec<&'a [u8]>)
    ensures
        found@.len() == if fields_of(line@).len() < limit {
            fields_of(line@).len()
        } else {
            limit as nat
        },
        forall|i: int| 0 <= i < found@.len() ==> (#[trigger] found@[i])@ == fields_of(line@)[i],
{
    let mut found: Vec<&'a [u8]> = Vec::new();
    let mut at: usize = 0;
    while found.len() < limit
        invariant
            at <= line@.len(),
            found@.len() <= limit,
            fields_of(line@).len() == found@.len() + fields_from(line@, at as int).len(),
            forall|i: int| 0 <= i < found@.len() ==> (#[trigger] found@[i])@ == fields_of(line@)[i],
            forall|i: int|
                0 <= i < fields_from(line@, at as int).len() ==> fields_of(line@)[found@.len() + i]
                    == #[trigger] fields_from(line@, at as int)[i],
        ensures
            found@.len() == limit || fields_from(line@, at as int).len() == 0,
        decreases limit - found@.len(),
    {
        let start = skip_blanks(line, at);
        if start >= line.len() {
            break;
        }
        let end = skip_word(line, start);
        proof {
            let rest = fields_from(line@, end as int);
            let here = fields_from(line@, at as int);
            assert(here[0] == line@.subrange(start as int, end as int));
            assert forall|i: int| 0 <= i < rest.len() implies fields_of(line@)[found@.len() + 1 + i]
                == #[trigger] rest[i] by {
                assert(here[i + 1] == rest[i]);
            }
        }
        found.push(slice_subrange(line, start, end));
        at = end;
    }
    found
}

/// Skips backwards the blanks that end before `upto`: gives the least index
/// from which everything before `upto` is blank.
pub fn skip_blanks_back(s: &[u8], upto: usize) -> (at: usize)
    ensures
        at == blanks_start(s@, upto as int),
        at <= upto,
{
    let mut at: usize = upto;
    while 0 < at && at <= s.len() && blank(s[at - 1])
        invariant
            at <= upto,
            blanks_start(s@, upto as int) == blanks_start(s@, at as int),
        decreases at,
    {
        at = at - 1;
    }
    at
}

/// A text without the blanks at its two ends.
pub open spec fn trimmed(s: Seq<u8>) -> Seq<u8> {
    if blanks_end(s, 0) >= s.len() {
        Seq::empty()
    } else {
        s.subrange(blanks_end(s, 0), blanks_start(s, s.len() as int))
    }
}

/// The part of `s` that is left when the blanks at its two ends are taken
/// away.
pub fn trim<'a>(s: &'a [u8]) -> (inner: &'a [u8])
    ensures
        inner@ == trimmed(s@),
{
    let start = skip_blanks(s, 0);
    if start >= s.len() {
        slice_subrange(s, 0, 0)
    } else {
        let end = skip_blanks_back(s, s.len());
        proof {
            lemma_blanks_end(s@, 0);
            lemma_blanks_start(s@, s@.len() as int);
        }
        slice_subrange(s, start, end)
    }
}

/// The index that follows the last line feed before `upto`, or 0 where there
/// is none.
pub open spec fn line_start(s: Seq<u8>, upto: int) -> int
    decreases upto,
{
    if 0 < upto <= s.len() && s[upto - 1] != 10 {
        line_start(s, upto - 1)
    } else {
        upto
    }
}

/// The last line of a text, without its line feed. A line feed at the very
/// end closes the last line and opens no further one; an empty text has an
/// empty last line.
pub open spec fn final_line(s: Seq<u8>) -> Seq<u8> {
    let end = if s.len() > 0 && s.last() == 10 {
        s.len() - 1
    } else {
        s.len() as int
    };
    s.subrange(line_start(s, end), end)
}

/// The last line of `s`.
pub fn last_line<'a>(s: &'a [u8]) -> (line: &'a [u8])
    ensures
        line@ == final_line(s@),
{
    let end: usize = if s.len() > 0 && s[s.len() - 1] == 10 {
        s.len() - 1
    } else {
        s.len()
    };
    let mut start: usize = end;
    while start > 0 && s[start - 1] != 10
        invariant
            start <= end <= s@.len(),
            line_start(s@, end as int) == line_start(s@, start as int),
        decreases start,
    {
        start = start - 1;
    }
    slice_subrange(s, start, end)
}

/// The bytes `0` to `9`.
pub open spec fn is_digit(b: u8) -> bool {
    48 <= b <= 57
}

/// Whether a text holds decimal digits and nothing else.
pub open spec fn all_digits(s: Seq<u8>) -> bool {
    forall|i: int| 0 <= i < s.len() ==> is_digit(#[trigger] s[i])
}

/// The number that a run of decimal digits denotes.
pub open spec fn digits_value(s: Seq<u8>) -> nat
    decreases s.len(),
{
    if s.len() == 0 {
        0
    } else {
        digits_value(s.drop_last()) * 10 + (s.last() - 48) as nat
    }
}

/// The number that a text of one or more digits denotes.
pub open spec fn natural_of_text(s: Seq<u8>) -> Option<nat> {
    if s.len() > 0 && all_digits(s) {
        Some(digits_value(s))
    } else {
        None
    }
}

/// The number that a text denotes which may begin with a plus sign.
pub open spec fn unsigned_of_text(s: Seq<u8>) -> Option<nat> {
    if s.len() > 0 && s[0] == 43 {
        natural_of_text(s.skip(1))
    } else {
        natural_of_text(s)
    }
}

/// The number that a text denotes which may begin with a plus or a minus
/// sign.
pub open spec fn signed_of_text(s: Seq<u8>) -> Option<int> {
    if s.len() > 0 && s[0] == 45 {
        match natural_of_text(s.skip(1)) {
            Some(magnitude) => Some(-(magnitude as int)),
            None => None,
        }
    } else {
        match unsigned_of_text(s) {
            Some(magnitude) => Some(magnitude as int),
            None => None,
        }
    }
}

/// What a text denotes as a `u64`: nothing where it is no number, has a
/// minus sign or is too large.
pub open spec fn u64_of_text(s: Seq<u8>) -> Option<u64> {
    match unsigned_of_text(s) {
        Some(value) => if value <= u64::MAX {
            Some(value as u64)
        } else {
            None
        },
        None => None,
    }
}

/// What a text denotes as an `i64`: nothing where it is no number or is out
/// of range.
pub open spec fn i64_of_text(s: Seq<u8>) -> Option<i64> {
    match signed_of_text(s) {
        Some(value) => if i64::MIN <= value <= i64::MAX {
            Some(value as i64)
        } else {
            None
        },
        None => None,
    }
}

/// A run of digits denotes at least what any of its beginnings denotes.
pub proof fn lemma_digits_value_grows(s: Seq<u8>, k: int)
    requires
        0 <= k <= s.len(),
    ensures
        digits_value(s.take(k)) <= digits_value(s),
    decreases s.len() - k,
{
    if k < s.len() {
        lemma_digits_value_grows(s.drop_last(), k);
        assert(s.drop_last().take(k) == s.take(k));
    } else {
        assert(s.take(k) == s);
    }
}

/// Reads the digits of `s` from `from` on.
fn parse_digits(s: &[u8], from: usize) -> (value: Option<u64>)
    requires
        from <= s@.len(),
    ensures
        value == match natural_of_text(s@.skip(from as int)) {
            Some(v) => if v <= u64::MAX {
                Some(v as u64)
            } else {
                None
            },
            None => None,
        },
{
    let ghost body = s@.skip(from as int);
    if from >= s.len() {
        return None;
    }
    let mut value: u64 = 0;
    let mut at: usize = from;
    while at < s.len()
        invariant
            from <= at <= s@.len(),
            body == s@.skip(from as int),
            all_digits(body.take(at - from)),
            value == digits_value(body.take(at - from)),
        decreases s@.len() - at,
    {
        let b = s[at];
        if !(48 <= b && b <= 57) {
            assert(!is_digit(body[at - from]));
            return None;
        }
        let ghost before = body.take(at - from);
        let ghost after = body.take(at + 1 - from);
        proof {
            assert(after.drop_last() == before);
            lemma_digits_value_grows(body, at + 1 - from);
        }
        let shifted = match value.checked_mul(10) {
            Some(v) => v,
            None => {
                return None;
            },
        };
        value = match shifted.checked_add((b - 48) as u64) {
            Some(v) => v,
            None => {
                return None;
            },
        };
        at = at + 1;
    }
    proof {
        assert(body.take(at - from) == body);
    }
    Some(value)
}

/// Reads a text as a `u64`, as `str::parse` does: an optional plus sign and
/// then digits only.
pub fn parse_u64(s: &[u8]) -> (value: Option<u64>)
    ensures
        value == u64_of_text(s@),
{
    if s.len() > 0 && s[0] == 43 {
        parse_digits(s, 1)
    } else {
        proof {
            assert(s@.skip(0) == s@);
        }
        parse_digits(s, 0)
    }
}

/// Reads a text as an `i64`, as `str::parse` does: an optional sign and then
/// digits only.
pub fn parse_i64(s: &[u8]) -> (value: Option<i64>)
    ensures
        value == i64_of_text(s@),
{
    if s.len() > 0 && s[0] == 45 {
        match parse_digits(s, 1) {
            Some(magnitude) => {
                if magnitude > 9_223_372_036_854_775_808 {
                    None
                } else if magnitude == 9_223_372_036_854_775_808 {
                    Some(i64::MIN)
                } else {
                    Some(-(magnitude as i64))
                }
            },
            None => None,
        }
    } else {
        match parse_u64(s) {
            Some(magnitude) => {
                if magnitude > 9_223_372_036_854_775_807 {
                    None
                } else {
                    Some(magnitude as i64)
                }
            },
            None => None,
        }
    }
}

/// The text whose characters have the codes that the bytes give.
pub open spec fn text_of(bytes: Seq<u8>) -> Seq<char> {
    Seq::new(bytes.len(), |i: int| bytes[i] as char)
}

/// Whether every byte is an ASCII character.
pub open spec fn is_ascii_bytes(bytes: Seq<u8>) -> bool {
    forall|i: int| 0 <= i < bytes.len() ==> #[trigger] bytes[i] < 128
}

/// Makes a `String` of ASCII bytes with `String::from_utf8`: one character
/// for each byte.
#[verifier::external_body]
pub(crate) fn ascii_string(bytes: &[u8]) -> (text: String)
    requires
        is_ascii_bytes(bytes@),
    ensures
        text@ == text_of(bytes@),
{
    String::from_utf8(bytes.to_vec()).unwrap_or_default()
}

/// Whether every byte of `bytes` is an ASCII character.
pub fn all_ascii(bytes: &[u8]) -> (r: bool)
    ensures
        r == is_ascii_bytes(bytes@),
{
    let mut i: usize = 0;
    while i < bytes.len()
        invariant
            i <= bytes@.len(),
            forall|k: int| 0 <= k < i ==> #[trigger] bytes@[k] < 128,
        decreases bytes@.len() - i,
    {
        if bytes[i] >= 128 {
            return false;
        }
        i = i + 1;
    }
    true
}

/// A number in decimal digits, without leading zeros.
pub open spec fn decimal_text(n: nat) -> Seq<u8>
    decreases n,
{
    if n < 10 {
        seq![(48 + n) as u8]
    } else {
        decimal_text(n / 10).push((48 + n % 10) as u8)
    }
}

/// Writing a number and reading it back gives the number.
pub proof fn lemma_decimal_round_trip(n: nat)
    ensures
        decimal_text(n).len() > 0,
        all_digits(decimal_text(n)),
        digits_value(decimal_text(n)) == n,
        natural_of_text(decimal_text(n)) == Some(n),
        is_ascii_bytes(decimal_text(n)),
    decreases n,
{
    if n < 10 {
        let text = decimal_text(n);
        assert(digits_value(text.drop_last()) == 0);
    } else {
        lemma_decimal_round_trip(n / 10);
        let head = decimal_text(n / 10);
        let text = head.push((48 + n % 10) as u8);
        assert(text.drop_last() =~= head);
    }
}

/// Writes `n` in decimal digits.
pub fn decimal(n: u64) -> (text: Vec<u8>)
    ensures
        text@ == decimal_text(n as nat),
{
    let mut backwards: Vec<u8> = Vec::new();
    let mut rest: u64 = n;
    while rest >= 10
        invariant
            decimal_text(n as nat) == decimal_text(rest as nat) + Seq::new(
                backwards@.len(),
                |i: int| backwards@[backwards@.len() - 1 - i],
            ),
        decreases rest,
    {
        let ghost before = backwards@;
        let digit: u8 = 48 + (rest % 10) as u8;
        backwards.push(digit);
        proof {
            let turned_before = Seq::new(before.len(), |i: int| before[before.len() - 1 - i]);
            let turned = Seq::new(backwards@.len(), |i: int| backwards@[backwards@.len() - 1 - i]);
            assert(turned =~= seq![digit] + turned_before);
            assert(decimal_text(rest as nat) == decimal_text((rest / 10) as nat).push(digit));
            assert(decimal_text(rest as nat) + turned_before =~= decimal_text((rest / 10) as nat)
                + turned);
        }
        rest = rest / 10;
    }
    let ghost before = backwards@;
    let last: u8 = 48 + rest as u8;
    backwards.push(last);
    proof {
        let turned_before = Seq::new(before.len(), |i: int| before[before.len() - 1 - i]);
        let turned = Seq::new(backwards@.len(), |i: int| backwards@[backwards@.len() - 1 - i]);
        assert(turned =~= seq![last] + turned_before);
        assert(decimal_text(rest as nat) =~= seq![last]);
    }
    let count = backwards.len();
    let mut text: Vec<u8> = Vec::new();
    let mut i: usize = 0;
    while i < count
        invariant
            count == backwards@.len(),
            i <= count,
            text@.len() == i,
            forall|k: int| 0 <= k < i ==> #[trigger] text@[k] == backwards@[count - 1 - k],
        decreases count - i,
    {
        text.push(backwards[count - 1 - i]);
        i = i + 1;
    }
    proof {
        assert(text@ =~= Seq::new(
            backwards@.len(),
            |i: int| backwards@[backwards@.len() - 1 - i],
        ));
    }
    text
}

/// Writes `n` in decimal digits, as a string.
pub fn decimal_string(n: u64) -> (text: String)
    ensures
        text@ == text_of(decimal_text(n as nat)),
{
    let digits = decimal(n);
    proof {
        lemma_decimal_round_trip(n as nat);
    }
    ascii_string(digits.as_slice())
}

/// A whole number in decimal digits, with a minus sign where it is below 0.
pub open spec fn signed_decimal_text(n: int) -> Seq<u8> {
    if n < 0 {
        seq![45u8] + decimal_text((-n) as nat)
    } else {
        decimal_text(n as nat)
    }
}

/// Writes `n` in decimal digits, with a minus sign where it is below 0, as a
/// string.
pub fn signed_decimal_string(n: i64) -> (text: String)
    ensures
        text@ == text_of(signed_decimal_text(n as int)),
{
    if n >= 0 {
        decimal_string(n as u64)
    } else {
        let magnitude: u64 = if n == i64::MIN {
            9_223_372_036_854_775_808
        } else {
            (-n) as u64
        };
        let mut text = "-".to_owned();
        text.append(decimal_string(magnitude).as_str());
        proof {
            reveal_strlit("-");
        }
        text
    }
}

} // verus!
