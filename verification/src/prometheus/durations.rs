//! Numbers where a query has a duration.
//!
//! A range, a step or an offset may be written as a number of seconds. The
//! parser makes a duration of it without asking whether one can hold that many,
//! so a query is looked through for such numbers before it is parsed.
//!
//! The text is read as the parser reads it, word by word, but only as far as is
//! needed to tell where a duration stands: `offset` is also the name of a metric
//! where an operand is expected, and a label in a `by (...)`.

use vstd::prelude::*;
use vstd::string::StringExecFns;
use crate::text::{
    ascii_lowered, chars_of, is_digit, push_chars, same_text, string_of, to_ascii_lower,
};

verus! {

/// The bits of the double 2^64: the lowest number of seconds that is more than a
/// duration holds.
pub const TOO_MANY_SECONDS: u64 = 0x43F0_0000_0000_0000;

/// Whether a duration holds so many seconds, given by the bits of a double: not
/// if they are negative, 2^64 or more, infinite or a NaN.
pub fn fits_duration(bits: u64) -> (r: bool)
    ensures
        r == (bits < TOO_MANY_SECONDS),
{
    bits < TOO_MANY_SECONDS
}

/// A run of characters of one kind.
#[derive(Debug, Clone, Copy, PartialEq, Eq, Structural)]
pub enum Run {
    /// Of a name or a keyword.
    Word,
    /// Of a duration's units.
    Units,
    Digits,
    HexDigits,
    /// Up to the end of a line.
    Line,
}

/// A letter of a name.
pub open spec fn is_alpha(c: char) -> bool {
    c == '_' || 'a' <= c <= 'z' || 'A' <= c <= 'Z'
}

/// Whether a character belongs to a run.
pub open spec fn in_run(run: Run, c: char) -> bool {
    match run {
        Run::Word => is_alpha(c) || is_digit(c) || c == ':',
        Run::Units => is_alpha(c) || is_digit(c),
        Run::Digits => is_digit(c),
        Run::HexDigits => is_digit(c) || 'a' <= c <= 'f' || 'A' <= c <= 'F',
        Run::Line => c != '\r' && c != '\n',
    }
}

/// Where a run that starts at `i` ends.
pub open spec fn run_end(s: Seq<char>, i: int, run: Run) -> int
    decreases s.len() - i,
{
    if 0 <= i < s.len() && in_run(run, s[i]) {
        run_end(s, i + 1, run)
    } else {
        i
    }
}

/// Where a quoted text ends whose characters start at `i`: after the next quote
/// that no backslash stands before.
pub open spec fn quote_end(s: Seq<char>, i: int, quote: char) -> int
    decreases s.len() - i,
{
    if i >= s.len() {
        s.len() as int
    } else if s[i] == '\\' && i + 1 < s.len() {
        quote_end(s, i + 2, quote)
    } else if s[i] == quote {
        i + 1
    } else {
        quote_end(s, i + 1, quote)
    }
}

/// Whether one of two characters stands at `i`.
pub open spec fn stands(s: Seq<char>, i: int, a: char, b: char) -> bool {
    i < s.len() && (s[i] == a || s[i] == b)
}

/// Where the digits of a number that starts at `i` begin, and what they are.
pub open spec fn number_start(s: Seq<char>, i: int) -> (int, Run) {
    if stands(s, i, '0', '0') && stands(s, i + 1, 'x', 'X') {
        (i + 2, Run::HexDigits)
    } else {
        (i, Run::Digits)
    }
}

/// Where the whole part and the fraction of a number end.
pub open spec fn fraction_end(s: Seq<char>, i: int) -> int {
    let (first, digits) = number_start(s, i);
    let whole = run_end(s, first, digits);
    if stands(s, whole, '.', '.') {
        run_end(s, whole + 1, digits)
    } else {
        whole
    }
}

/// Where a number that starts at `i` ends, its exponent included.
pub open spec fn number_end(s: Seq<char>, i: int) -> int {
    let mantissa = fraction_end(s, i);
    if stands(s, mantissa, 'e', 'E') {
        if stands(s, mantissa + 1, '+', '-') {
            run_end(s, mantissa + 2, Run::Digits)
        } else {
            run_end(s, mantissa + 1, Run::Digits)
        }
    } else {
        mantissa
    }
}

/// Whether what ends at `end` is a number: a letter or a point behind it would
/// make it something else, such as `5m`.
pub open spec fn ends_number(s: Seq<char>, end: int) -> bool {
    !(end < s.len() && (is_alpha(s[end]) || s[end] == '.'))
}

/// What is expected next in a query.
#[derive(Debug, Clone, Copy, PartialEq, Eq, Structural)]
pub enum Place {
    /// An operand.
    Operand,
    /// The labels of an operator's `on` or `group_left`, or an operand.
    Matching,
    /// An operator, or something more of an operand.
    Ended,
    /// The labels of a `by` or `without`.
    Grouping,
    /// An offset's duration, or its sign.
    Offset,
    /// An offset's duration.
    Signed,
    /// A label of an operator.
    MatchingLabel,
    /// A label of an aggregation.
    GroupingLabel,
    /// Something inside `[...]`.
    Brackets,
    /// Something inside `{...}`.
    Braces,
}

/// Whether a number is a duration here.
pub open spec fn takes_duration(place: Place) -> bool {
    place == Place::Offset || place == Place::Signed || place == Place::Brackets
}

/// What is expected after a number, a duration or a quoted text.
pub open spec fn after_literal(place: Place) -> Place {
    match place {
        Place::MatchingLabel | Place::GroupingLabel | Place::Brackets | Place::Braces => place,
        _ => Place::Ended,
    }
}

/// What is expected after a word, given in lower case.
pub open spec fn after_word(place: Place, w: Seq<char>) -> Place {
    match place {
        Place::Operand | Place::Matching => if w == "bool"@ {
            Place::Operand
        } else if w == "on"@ || w == "ignoring"@ || w == "group_left"@ || w == "group_right"@ {
            Place::Matching
        } else {
            Place::Ended
        },
        Place::Ended | Place::Grouping => if w == "and"@ || w == "or"@ || w == "unless"@
            || w == "atan2"@ {
            Place::Operand
        } else if w == "offset"@ {
            Place::Offset
        } else if w == "by"@ || w == "without"@ {
            Place::Grouping
        } else {
            Place::Ended
        },
        _ => after_literal(place),
    }
}

/// What is expected after any other character.
pub open spec fn after_symbol(place: Place, c: char) -> Place {
    match place {
        Place::Brackets => if c == ']' {
            Place::Ended
        } else {
            place
        },
        Place::Braces => if c == '}' {
            Place::Ended
        } else {
            place
        },
        Place::MatchingLabel => if c == ')' {
            Place::Operand
        } else {
            place
        },
        Place::GroupingLabel => if c == ')' {
            Place::Ended
        } else {
            place
        },
        _ => if c == '(' {
            if place == Place::Matching {
                Place::MatchingLabel
            } else if place == Place::Grouping {
                Place::GroupingLabel
            } else {
                Place::Operand
            }
        } else if c == ')' {
            Place::Ended
        } else if c == '[' {
            Place::Brackets
        } else if c == '{' {
            Place::Braces
        } else if (c == '+' || c == '-') && place == Place::Offset {
            Place::Signed
        } else {
            Place::Operand
        },
    }
}

/// A number that is written with a digit or a point first, and not in
/// hexadecimal.
pub open spec fn is_decimal(text: Seq<char>) -> bool {
    &&& text.len() > 0
    &&& is_digit(text[0]) || text[0] == '.'
    &&& forall|i: int| 0 <= i < text.len() ==> #[trigger] text[i] != 'x' && text[i] != 'X'
}

/// What `promql_parser::util::parse_str_radix` reads in a number's text: the bits
/// of the double, where it reads one.
pub uninterp spec fn promql_number(text: Seq<char>) -> Option<u64>;

/// Whether a number's text stands for more seconds than a duration holds. A
/// hexadecimal number never does: the parser reads it as a 64-bit integer.
pub open spec fn is_oversized(text: Seq<char>) -> bool {
    is_decimal(text) && match promql_number(text) {
        Some(bits) => bits >= TOO_MANY_SECONDS,
        None => false,
    }
}

/// What is read at one place of a query.
pub struct Step {
    /// Where to go on.
    pub next: int,
    pub place: Place,
    /// Whether a duration was read that is too long.
    pub oversized: bool,
}

/// A number, or a duration with its units, that starts at `i`.
pub open spec fn number_step(s: Seq<char>, i: int, place: Place) -> Step {
    let end = number_end(s, i);
    if ends_number(s, end) {
        Step {
            next: end,
            place: after_literal(place),
            oversized: takes_duration(place) && is_oversized(s.subrange(i, end)),
        }
    } else {
        Step { next: run_end(s, end, Run::Units), place: after_literal(place), oversized: false }
    }
}

/// A name or a keyword that starts at `i`.
pub open spec fn word_step(s: Seq<char>, i: int, place: Place) -> Step {
    let end = run_end(s, i, Run::Word);
    let w = ascii_lowered(s.subrange(i, end));
    Step {
        next: end,
        place: after_word(place, w),
        oversized: takes_duration(place) && (w == "inf"@ || w == "nan"@),
    }
}

/// Whether a number starts at `i`. Inside `[...]` it starts with a digit.
pub open spec fn starts_number(s: Seq<char>, i: int, place: Place) -> bool {
    is_digit(s[i]) || (s[i] == '.' && place != Place::Brackets && i + 1 < s.len() && is_digit(
        s[i + 1],
    ))
}

/// Whether a character is skipped between words.
pub open spec fn is_space(c: char) -> bool {
    c == ' ' || c == '\t' || c == '\n' || c == '\r' || c as u32 == 0xc
}

/// What is read at `i`.
#[verifier::opaque]
pub open spec fn step_at(s: Seq<char>, i: int, place: Place) -> Step {
    let c = s[i];
    let inside = place == Place::Brackets;
    if !inside && (c == '"' || c == '\'' || c == '`') {
        Step { next: quote_end(s, i + 1, c), place: after_literal(place), oversized: false }
    } else if !inside && c == '#' {
        Step { next: run_end(s, i, Run::Line), place, oversized: false }
    } else if place != Place::Braces && is_space(c) {
        Step { next: i + 1, place, oversized: false }
    } else if place != Place::Braces && starts_number(s, i, place) {
        number_step(s, i, place)
    } else if !inside && place != Place::Braces && (is_alpha(c) || c == ':') {
        word_step(s, i, place)
    } else {
        Step { next: i + 1, place: after_symbol(place, c), oversized: false }
    }
}

/// Reading goes forward and stays inside the text.
pub proof fn lemma_step_advances(s: Seq<char>, i: int, place: Place)
    requires
        0 <= i < s.len(),
    ensures
        i < step_at(s, i, place).next <= s.len(),
{
    reveal(step_at);
    lemma_number_advances(s, i);
    lemma_run_advances(s, i, Run::Line);
    lemma_run_advances(s, i, Run::Word);
    lemma_run_advances(s, number_end(s, i), Run::Units);
    lemma_quote_advances(s, i + 1, s[i]);
}

proof fn lemma_run_advances(s: Seq<char>, i: int, run: Run)
    requires
        0 <= i <= s.len(),
    ensures
        i <= run_end(s, i, run) <= s.len(),
        i < s.len() && in_run(run, s[i]) ==> i < run_end(s, i, run),
    decreases s.len() - i,
{
    if i < s.len() && in_run(run, s[i]) {
        lemma_run_advances(s, i + 1, run);
    }
}

proof fn lemma_quote_advances(s: Seq<char>, i: int, quote: char)
    requires
        0 <= i,
    ensures
        i <= s.len() ==> i <= quote_end(s, i, quote),
        quote_end(s, i, quote) <= s.len(),
    decreases s.len() - i,
{
    if i < s.len() {
        if s[i] == '\\' && i + 1 < s.len() {
            lemma_quote_advances(s, i + 2, quote);
        } else if s[i] != quote {
            lemma_quote_advances(s, i + 1, quote);
        }
    }
}

proof fn lemma_number_advances(s: Seq<char>, i: int)
    requires
        0 <= i < s.len(),
    ensures
        i <= number_end(s, i) <= s.len(),
        is_digit(s[i]) || s[i] == '.' ==> i < number_end(s, i),
{
    let (first, digits) = number_start(s, i);
    lemma_run_advances(s, first, digits);
    let whole = run_end(s, first, digits);
    if stands(s, whole, '.', '.') {
        lemma_run_advances(s, whole + 1, digits);
    }
    let mantissa = fraction_end(s, i);
    if stands(s, mantissa, 'e', 'E') {
        lemma_run_advances(s, mantissa + 1, Run::Digits);
        if stands(s, mantissa + 1, '+', '-') {
            lemma_run_advances(s, mantissa + 2, Run::Digits);
        }
    }
}

/// Whether a duration that is too long stands at `i` or behind it.
pub open spec fn oversized_from(s: Seq<char>, i: int, place: Place) -> bool
    decreases s.len() - i,
{
    if 0 <= i < s.len() {
        proof {
            lemma_step_advances(s, i, place);
        }
        let step = step_at(s, i, place);
        step.oversized || oversized_from(s, step.next, step.place)
    } else {
        false
    }
}

/// Whether a query holds a number where a duration stands, of more seconds than
/// a duration holds: as a range or a step in `[...]`, or behind `offset`.
pub open spec fn oversized_duration(query: Seq<char>) -> bool {
    oversized_from(query, 0, Place::Operand)
}

// ---------- short durations in place of long ones ----------

/// A number that any duration holds, in hexadecimal, and set apart from what
/// stands around it.
pub const SHORT: &'static str = " 0x1 ";

/// The text from `i` on with a short number for each duration that is too long.
pub open spec fn shortened_from(s: Seq<char>, i: int, place: Place) -> Seq<char>
    decreases s.len() - i,
{
    if 0 <= i < s.len() {
        proof {
            lemma_step_advances(s, i, place);
        }
        let step = step_at(s, i, place);
        let read = if step.oversized {
            SHORT@
        } else {
            s.subrange(i, step.next)
        };
        read + shortened_from(s, step.next, step.place)
    } else {
        Seq::empty()
    }
}

/// A query with a short number for each duration that is too long. It reads word
/// by word as before.
pub open spec fn shortened(query: Seq<char>) -> Seq<char> {
    shortened_from(query, 0, Place::Operand)
}

/// Whether two texts agree on the `n` characters from two places on, and on what
/// stands behind them.
spec fn agree(s: Seq<char>, i: int, t: Seq<char>, k: int, n: int) -> bool {
    forall|j: int|
        0 <= j <= n ==> (i + j < s.len()) == (k + j < t.len()) && (i + j < s.len() ==> #[trigger] s[i
            + j] == t[k + j])
}

proof fn lemma_agree_at(s: Seq<char>, i: int, t: Seq<char>, k: int, n: int, j: int)
    requires
        agree(s, i, t, k, n),
        0 <= j <= n,
    ensures
        (i + j < s.len()) == (k + j < t.len()),
        i + j < s.len() ==> s[i + j] == t[k + j],
        forall|a: char, b: char| #[trigger] stands(s, i + j, a, b) == stands(t, k + j, a, b),
{
    let c = s[i + j];
}

proof fn lemma_run_stops(s: Seq<char>, i: int, run: Run)
    requires
        0 <= i <= s.len(),
    ensures
        run_end(s, i, run) < s.len() ==> !in_run(run, s[run_end(s, i, run)]),
    decreases s.len() - i,
{
    if i < s.len() && in_run(run, s[i]) {
        lemma_run_stops(s, i + 1, run);
    }
}

/// A run ends at the same place in a text that has the same characters up to
/// there and then one that does not belong to it.
proof fn lemma_run_same(s: Seq<char>, i: int, t: Seq<char>, k: int, run: Run)
    requires
        0 <= i <= s.len(),
        0 <= k,
        ({
            let n = run_end(s, i, run) - i;
            &&& k + n <= t.len()
            &&& forall|j: int| 0 <= j < n ==> s[i + j] == #[trigger] t[k + j]
            &&& k + n < t.len() ==> !in_run(run, t[k + n])
        }),
    ensures
        run_end(t, k, run) - k == run_end(s, i, run) - i,
    decreases s.len() - i,
{
    lemma_run_advances(s, i, run);
    let n = run_end(s, i, run) - i;
    if i < s.len() && in_run(run, s[i]) {
        assert(run_end(s, i, run) == run_end(s, i + 1, run));
        lemma_run_advances(s, i + 1, run);
        assert(s[i + 0] == t[k + 0]);
        assert forall|j: int| 0 <= j < n - 1 implies s[i + 1 + j] == #[trigger] t[k + 1 + j] by {
            assert(s[i + (j + 1)] == t[k + (j + 1)]);
        }
        lemma_run_same(s, i + 1, t, k + 1, run);
    }
}

/// A run inside agreeing stretches ends at the same place in both.
proof fn lemma_run_agrees(
    s: Seq<char>,
    i: int,
    t: Seq<char>,
    k: int,
    n: int,
    from: int,
    run: Run,
)
    requires
        0 <= i,
        0 <= k <= t.len(),
        0 <= from <= n,
        i + from <= s.len(),
        agree(s, i, t, k, n),
        run_end(s, i + from, run) <= i + n,
    ensures
        run_end(t, k + from, run) - k == run_end(s, i + from, run) - i,
{
    lemma_run_advances(s, i + from, run);
    lemma_run_stops(s, i + from, run);
    let end = run_end(s, i + from, run) - i;
    lemma_agree_at(s, i, t, k, n, end);
    assert forall|j: int| 0 <= j < end - from implies s[i + from + j] == #[trigger] t[k + from
        + j] by {
        lemma_agree_at(s, i, t, k, n, from + j);
    }
    if end > 0 {
        lemma_agree_at(s, i, t, k, n, end - 1);
    } else {
        lemma_agree_at(s, i, t, k, n, 0);
    }
    lemma_run_same(s, i + from, t, k + from, run);
}

proof fn lemma_quote_agrees(
    s: Seq<char>,
    i: int,
    t: Seq<char>,
    k: int,
    n: int,
    from: int,
    quote: char,
)
    requires
        0 <= i,
        0 <= k <= t.len(),
        0 <= from <= n,
        i + from <= s.len(),
        agree(s, i, t, k, n),
        quote_end(s, i + from, quote) <= i + n,
    ensures
        quote_end(t, k + from, quote) - k == quote_end(s, i + from, quote) - i,
    decreases s.len() - i - from,
{
    lemma_agree_at(s, i, t, k, n, from);
    lemma_quote_advances(s, i + from, quote);
    if i + from >= s.len() {
        assert(i + from == s.len());
        if from > 0 {
            lemma_agree_at(s, i, t, k, n, from - 1);
        }
    } else {
        if from < n {
            lemma_agree_at(s, i, t, k, n, from + 1);
        }
        if s[i + from] == '\\' && i + from + 1 < s.len() {
            lemma_quote_advances(s, i + from + 2, quote);
            lemma_quote_agrees(s, i, t, k, n, from + 2, quote);
        } else if s[i + from] != quote {
            lemma_quote_advances(s, i + from + 1, quote);
            lemma_quote_agrees(s, i, t, k, n, from + 1, quote);
        }
    }
}

/// Behind a number's last digit stands no digit.
proof fn lemma_number_stops(s: Seq<char>, i: int)
    requires
        0 <= i < s.len(),
    ensures
        number_end(s, i) < s.len() ==> !is_digit(s[number_end(s, i)]),
{
    let (first, digits) = number_start(s, i);
    lemma_number_advances(s, i);
    lemma_run_advances(s, first, digits);
    lemma_run_stops(s, first, digits);
    let whole = run_end(s, first, digits);
    if stands(s, whole, '.', '.') {
        lemma_run_advances(s, whole + 1, digits);
        lemma_run_stops(s, whole + 1, digits);
    }
    let mantissa = fraction_end(s, i);
    if stands(s, mantissa, 'e', 'E') {
        lemma_run_advances(s, mantissa + 1, Run::Digits);
        lemma_run_stops(s, mantissa + 1, Run::Digits);
        if stands(s, mantissa + 1, '+', '-') {
            lemma_run_stops(s, mantissa + 2, Run::Digits);
        }
    }
}

proof fn lemma_number_agrees(s: Seq<char>, i: int, t: Seq<char>, k: int, n: int)
    requires
        0 <= i < s.len(),
        0 <= k <= t.len(),
        1 <= n,
        agree(s, i, t, k, n),
        number_end(s, i) <= i + n,
    ensures
        number_end(t, k) - k == number_end(s, i) - i,
{
    lemma_agree_at(s, i, t, k, n, 0);
    lemma_agree_at(s, i, t, k, n, 1);
    let (first, digits) = number_start(s, i);
    lemma_run_advances(s, first, digits);
    let whole = run_end(s, first, digits);
    let mantissa = fraction_end(s, i);
    let end = number_end(s, i);
    if stands(s, whole, '.', '.') {
        lemma_run_advances(s, whole + 1, digits);
    }
    if stands(s, mantissa, 'e', 'E') {
        lemma_run_advances(s, mantissa + 1, Run::Digits);
        if stands(s, mantissa + 1, '+', '-') {
            lemma_run_advances(s, mantissa + 2, Run::Digits);
        }
    }
    assert(first <= whole <= mantissa <= end);
    lemma_run_agrees(s, i, t, k, n, first - i, digits);
    lemma_agree_at(s, i, t, k, n, whole - i);
    if stands(s, whole, '.', '.') {
        lemma_run_agrees(s, i, t, k, n, whole + 1 - i, digits);
    }
    lemma_agree_at(s, i, t, k, n, mantissa - i);
    if stands(s, mantissa, 'e', 'E') {
        lemma_agree_at(s, i, t, k, n, mantissa + 1 - i);
        if stands(s, mantissa + 1, '+', '-') {
            lemma_run_agrees(s, i, t, k, n, mantissa + 2 - i, Run::Digits);
        } else {
            lemma_run_agrees(s, i, t, k, n, mantissa + 1 - i, Run::Digits);
        }
    }
}

/// What is read does not depend on more than the character behind it.
proof fn lemma_step_agrees(s: Seq<char>, i: int, t: Seq<char>, k: int, place: Place)
    requires
        0 <= i < s.len(),
        0 <= k <= t.len(),
        agree(s, i, t, k, step_at(s, i, place).next - i),
    ensures
        ({
            let a = step_at(s, i, place);
            let b = step_at(t, k, place);
            b.next - k == a.next - i && b.place == a.place && b.oversized == a.oversized
        }),
{
    reveal(step_at);
    let step = step_at(s, i, place);
    let n = step.next - i;
    lemma_step_advances(s, i, place);
    lemma_agree_at(s, i, t, k, n, 0);
    lemma_agree_at(s, i, t, k, n, 1);
    lemma_agree_at(s, i, t, k, n, n);
    lemma_agree_at(s, i, t, k, n, n - 1);
    let c = s[i];
    let inside = place == Place::Brackets;
    assert forall|m: int| 0 <= m <= n implies #[trigger] s.subrange(i, i + m) == t.subrange(
        k,
        k + m,
    ) by {
        assert forall|j: int| 0 <= j < m implies #[trigger] s.subrange(i, i + m)[j]
            == t.subrange(k, k + m)[j] by {
            lemma_agree_at(s, i, t, k, n, j);
        }
        assert(s.subrange(i, i + m) =~= t.subrange(k, k + m));
    }
    if !inside && (c == '"' || c == '\'' || c == '`') {
        lemma_quote_agrees(s, i, t, k, n, 1, c);
    } else if !inside && c == '#' {
        lemma_run_agrees(s, i, t, k, n, 0, Run::Line);
    } else if place != Place::Braces && is_space(c) {
    } else if place != Place::Braces && starts_number(s, i, place) {
        let end = number_end(s, i);
        lemma_number_advances(s, i);
        lemma_run_advances(s, end, Run::Units);
        lemma_number_agrees(s, i, t, k, n);
        lemma_agree_at(s, i, t, k, n, end - i);
        assert(s.subrange(i, i + (end - i)) == t.subrange(k, k + (end - i)));
        if !ends_number(s, end) {
            lemma_run_agrees(s, i, t, k, n, end - i, Run::Units);
        }
    } else if !inside && place != Place::Braces && (is_alpha(c) || c == ':') {
        lemma_run_agrees(s, i, t, k, n, 0, Run::Word);
        assert(s.subrange(i, i + n) == t.subrange(k, k + n));
    }
}

/// What is read stays the same where a space comes to stand behind it in place of
/// a duration that is too long.
proof fn lemma_step_before_duration(s: Seq<char>, i: int, t: Seq<char>, k: int, place: Place)
    requires
        0 <= i < s.len(),
        0 <= k,
        ({
            let step = step_at(s, i, place);
            let n = step.next - i;
            &&& step.next < s.len()
            &&& step_at(s, step.next, step.place).oversized
            &&& k + n < t.len()
            &&& t[k + n] == ' '
            &&& forall|j: int| 0 <= j < n ==> s[i + j] == #[trigger] t[k + j]
        }),
    ensures
        ({
            let a = step_at(s, i, place);
            let b = step_at(t, k, place);
            b.next - k == a.next - i && b.place == a.place && b.oversized == a.oversized
        }),
{
    reveal(step_at);
    let step = step_at(s, i, place);
    let n = step.next - i;
    lemma_step_advances(s, i, place);
    assert(s[i + 0] == t[k + 0]);
    let c = s[i];
    let d = s[step.next];
    let inside = place == Place::Brackets;
    assert(takes_duration(step.place));
    assert(is_digit(d) || d == '.' || is_alpha(d) || d == ':');
    if !inside && (c == '"' || c == '\'' || c == '`') {
        assert(false);
    } else if !inside && c == '#' {
        lemma_run_stops(s, i, Run::Line);
        assert(false);
    } else if place != Place::Braces && is_space(c) {
    } else if place != Place::Braces && starts_number(s, i, place) {
        assert(inside);
        assert(is_digit(d));
        let end = number_end(s, i);
        lemma_number_advances(s, i);
        lemma_number_stops(s, i);
        lemma_run_stops(s, end, Run::Units);
        assert(false);
    } else if !inside && place != Place::Braces && (is_alpha(c) || c == ':') {
        lemma_run_same(s, i, t, k, Run::Word);
        let a = s.subrange(i, i + n);
        let b = t.subrange(k, k + n);
        assert forall|j: int| 0 <= j < n implies #[trigger] a[j] == b[j] by {
            assert(s[i + j] == t[k + j]);
        }
        assert(a =~= b);
    } else {
        assert(t[k + 1] == ' ');
    }
}

/// A duration that is too long stands where one is expected, and is a literal.
proof fn lemma_oversized_step(s: Seq<char>, i: int, place: Place)
    requires
        0 <= i < s.len(),
        step_at(s, i, place).oversized,
    ensures
        takes_duration(place),
        step_at(s, i, place).place == after_literal(place),
{
    reveal(step_at);
}

/// The short number is read as one, and what is expected behind it is what was
/// expected behind the long one.
proof fn lemma_short_is_read(t: Seq<char>, k: int, place: Place)
    requires
        0 <= k,
        k + 5 <= t.len(),
        t.subrange(k, k + 5) == SHORT@,
        takes_duration(place),
    ensures
        oversized_from(t, k, place) == oversized_from(t, k + 5, after_literal(place)),
{
    reveal(step_at);
    reveal_strlit(" 0x1 ");
    let u = t.subrange(k, k + 5);
    assert(t[k] == u[0] && t[k + 1] == u[1] && t[k + 2] == u[2] && t[k + 3] == u[3] && t[k + 4]
        == u[4]);
    assert(step_at(t, k, place) == (Step { next: k + 1, place, oversized: false }));
    let after = after_literal(place);
    reveal_with_fuel(run_end, 3);
    assert(number_start(t, k + 1) == (k + 3, Run::HexDigits));
    assert(run_end(t, k + 3, Run::HexDigits) == k + 4);
    assert(fraction_end(t, k + 1) == k + 4);
    assert(number_end(t, k + 1) == k + 4);
    let text = t.subrange(k + 1, k + 4);
    assert(text[1] == 'x');
    assert(!is_decimal(text));
    assert(step_at(t, k + 1, place) == (Step { next: k + 4, place: after, oversized: false }));
    assert(step_at(t, k + 4, after) == (Step { next: k + 5, place: after, oversized: false }));
    assert(oversized_from(t, k, place) == oversized_from(t, k + 1, place));
    assert(oversized_from(t, k + 1, place) == oversized_from(t, k + 4, after));
    assert(oversized_from(t, k + 4, after) == oversized_from(t, k + 5, after));
}

proof fn lemma_shortened_from(s: Seq<char>, i: int, place: Place, head: Seq<char>)
    requires
        0 <= i <= s.len(),
    ensures
        !oversized_from(head + shortened_from(s, i, place), head.len() as int, place),
        i == s.len() <==> shortened_from(s, i, place).len() == 0,
        i < s.len() ==> shortened_from(s, i, place)[0] == if step_at(s, i, place).oversized {
            ' '
        } else {
            s[i]
        },
    decreases s.len() - i,
{
    let rest = shortened_from(s, i, place);
    let t = head + rest;
    let k = head.len() as int;
    if i < s.len() {
        reveal_strlit(" 0x1 ");
        lemma_step_advances(s, i, place);
        let step = step_at(s, i, place);
        let n = step.next - i;
        let read = if step.oversized {
            SHORT@
        } else {
            s.subrange(i, step.next)
        };
        let more = shortened_from(s, step.next, step.place);
        assert(rest == read + more);
        lemma_shortened_from(s, step.next, step.place, head + read);
        assert(t =~= (head + read) + more);
        if step.oversized {
            assert(t.subrange(k, k + 5) =~= SHORT@);
            lemma_oversized_step(s, i, place);
            lemma_short_is_read(t, k, place);
        } else {
            assert forall|j: int| 0 <= j < n implies s[i + j] == #[trigger] t[k + j] by {
                assert(read[j] == s[i + j]);
            }
            if step.next < s.len() && step_at(s, step.next, step.place).oversized {
                assert(t[k + n] == more[0]);
                lemma_step_before_duration(s, i, t, k, place);
            } else {
                if step.next < s.len() {
                    assert(t[k + n] == more[0]);
                }
                assert forall|j: int| 0 <= j <= n implies (i + j < s.len()) == (k + j < t.len())
                    && (i + j < s.len() ==> #[trigger] s[i + j] == t[k + j]) by {
                    if j < n {
                        assert(s[i + j] == t[k + j]);
                    }
                }
                lemma_step_agrees(s, i, t, k, place);
            }
        }
    }
}

/// In a shortened query no duration is too long.
pub proof fn law_shortened_durations_fit(query: Seq<char>)
    ensures
        !oversized_duration(shortened(query)),
{
    let none = Seq::<char>::empty();
    lemma_shortened_from(query, 0, Place::Operand, none);
    assert(none + shortened(query) =~= shortened(query));
}

// ---------- reading ----------

/// `promql_parser::util::parse_str_radix`: the bits of the double that a number's
/// text stands for, or none where it is no number. They depend on the text alone.
/// It panics on some texts that hold an `x`, which are left out, and a NaN, whose
/// bits are not fixed, is not written with a digit first.
#[verifier::external_body]
fn number_bits(text: &str) -> (r: Option<u64>)
    requires
        is_decimal(text@),
    ensures
        r == promql_number(text@),
{
    match promql_parser::util::parse_str_radix(text) {
        Ok(v) => Some(v.to_bits()),
        Err(_) => None,
    }
}

fn alpha(c: char) -> (r: bool)
    ensures
        r == is_alpha(c),
{
    c == '_' || ('a' <= c && c <= 'z') || ('A' <= c && c <= 'Z')
}

fn digit(c: char) -> (r: bool)
    ensures
        r == is_digit(c),
{
    '0' <= c && c <= '9'
}

fn belongs(run: Run, c: char) -> (r: bool)
    ensures
        r == in_run(run, c),
{
    match run {
        Run::Word => alpha(c) || digit(c) || c == ':',
        Run::Units => alpha(c) || digit(c),
        Run::Digits => digit(c),
        Run::HexDigits => digit(c) || ('a' <= c && c <= 'f') || ('A' <= c && c <= 'F'),
        Run::Line => c != '\r' && c != '\n',
    }
}

fn find_run_end(s: &Vec<char>, i: usize, run: Run) -> (r: usize)
    requires
        i <= s@.len(),
    ensures
        r == run_end(s@, i as int, run),
        i <= r <= s@.len(),
{
    let mut at: usize = i;
    while at < s.len() && belongs(run, s[at])
        invariant
            i <= at <= s@.len(),
            run_end(s@, i as int, run) == run_end(s@, at as int, run),
        decreases s@.len() - at,
    {
        at += 1;
    }
    at
}

fn find_quote_end(s: &Vec<char>, i: usize, quote: char) -> (r: usize)
    requires
        i <= s@.len(),
    ensures
        r == quote_end(s@, i as int, quote),
{
    let n: usize = s.len();
    let mut at: usize = i;
    while at < n
        invariant
            n == s@.len(),
            at <= s@.len(),
            quote_end(s@, i as int, quote) == quote_end(s@, at as int, quote),
        decreases s@.len() - at,
    {
        if s[at] == '\\' && at + 1 < n {
            at += 2;
        } else if s[at] == quote {
            return at + 1;
        } else {
            at += 1;
        }
    }
    at
}

fn stands_at(s: &Vec<char>, i: usize, a: char, b: char) -> (r: bool)
    ensures
        r == stands(s@, i as int, a, b),
{
    i < s.len() && (s[i] == a || s[i] == b)
}

fn find_number_end(s: &Vec<char>, i: usize) -> (r: usize)
    requires
        i < s@.len(),
    ensures
        r == number_end(s@, i as int),
        i <= r <= s@.len(),
{
    assert(s@.len() == s.len());
    let hex = stands_at(s, i, '0', '0') && stands_at(s, i + 1, 'x', 'X');
    let digits = if hex {
        Run::HexDigits
    } else {
        Run::Digits
    };
    let first: usize = if hex {
        i + 2
    } else {
        i
    };
    let whole: usize = find_run_end(s, first, digits);
    let mantissa: usize = if stands_at(s, whole, '.', '.') {
        find_run_end(s, whole + 1, digits)
    } else {
        whole
    };
    if stands_at(s, mantissa, 'e', 'E') {
        if stands_at(s, mantissa + 1, '+', '-') {
            find_run_end(s, mantissa + 2, Run::Digits)
        } else {
            find_run_end(s, mantissa + 1, Run::Digits)
        }
    } else {
        mantissa
    }
}

/// Whether the number `s[from..to]` stands for too many seconds.
fn oversized_number(s: &Vec<char>, from: usize, to: usize) -> (r: bool)
    requires
        from < to <= s@.len(),
        is_digit(s@[from as int]) || s@[from as int] == '.',
    ensures
        r == is_oversized(s@.subrange(from as int, to as int)),
{
    let ghost text = s@.subrange(from as int, to as int);
    let mut i: usize = from;
    while i < to
        invariant
            from <= i <= to <= s@.len(),
            text == s@.subrange(from as int, to as int),
            forall|j: int| 0 <= j < i - from ==> #[trigger] text[j] != 'x' && text[j] != 'X',
        decreases to - i,
    {
        if s[i] == 'x' || s[i] == 'X' {
            assert(text[i - from] == s@[i as int]);
            return false;
        }
        i += 1;
    }
    let t = string_of(s, from, to);
    match number_bits(t.as_str()) {
        Some(bits) => !fits_duration(bits),
        None => false,
    }
}

fn literal_done(place: Place) -> (r: Place)
    ensures
        r == after_literal(place),
{
    match place {
        Place::MatchingLabel | Place::GroupingLabel | Place::Brackets | Place::Braces => place,
        _ => Place::Ended,
    }
}

fn word_done(place: Place, w: &str) -> (r: Place)
    ensures
        r == after_word(place, w@),
{
    match place {
        Place::Operand | Place::Matching => if same_text(w, "bool") {
            Place::Operand
        } else if same_text(w, "on") || same_text(w, "ignoring") || same_text(w, "group_left")
            || same_text(w, "group_right") {
            Place::Matching
        } else {
            Place::Ended
        },
        Place::Ended | Place::Grouping => if same_text(w, "and") || same_text(w, "or")
            || same_text(w, "unless") || same_text(w, "atan2") {
            Place::Operand
        } else if same_text(w, "offset") {
            Place::Offset
        } else if same_text(w, "by") || same_text(w, "without") {
            Place::Grouping
        } else {
            Place::Ended
        },
        _ => literal_done(place),
    }
}

fn symbol_done(place: Place, c: char) -> (r: Place)
    ensures
        r == after_symbol(place, c),
{
    match place {
        Place::Brackets => if c == ']' {
            Place::Ended
        } else {
            place
        },
        Place::Braces => if c == '}' {
            Place::Ended
        } else {
            place
        },
        Place::MatchingLabel => if c == ')' {
            Place::Operand
        } else {
            place
        },
        Place::GroupingLabel => if c == ')' {
            Place::Ended
        } else {
            place
        },
        _ => if c == '(' {
            if place == Place::Matching {
                Place::MatchingLabel
            } else if place == Place::Grouping {
                Place::GroupingLabel
            } else {
                Place::Operand
            }
        } else if c == ')' {
            Place::Ended
        } else if c == '[' {
            Place::Brackets
        } else if c == '{' {
            Place::Braces
        } else if (c == '+' || c == '-') && place == Place::Offset {
            Place::Signed
        } else {
            Place::Operand
        },
    }
}

/// What is read at `i`: where to go on, what is expected there, and whether a
/// duration was read that is too long.
fn read_step(s: &Vec<char>, i: usize, place: Place) -> (r: (usize, Place, bool))
    requires
        i < s@.len(),
    ensures
        (Step { next: r.0 as int, place: r.1, oversized: r.2 }) == step_at(s@, i as int, place),
{
    proof {
        reveal(step_at);
    }
    let n: usize = s.len();
    let c: char = s[i];
    let inside = place == Place::Brackets;
    let braces = place == Place::Braces;
    let wanted = place == Place::Offset || place == Place::Signed || inside;
    if !inside && (c == '"' || c == '\'' || c == '`') {
        return (find_quote_end(s, i + 1, c), literal_done(place), false);
    }
    if !inside && c == '#' {
        return (find_run_end(s, i, Run::Line), place, false);
    }
    if !braces && (c == ' ' || c == '\t' || c == '\n' || c == '\r' || c as u32 == 0xc) {
        return (i + 1, place, false);
    }
    if !braces && (digit(c) || (c == '.' && !inside && i + 1 < n && digit(s[i + 1]))) {
        let end: usize = find_number_end(s, i);
        proof {
            lemma_number_advances(s@, i as int);
        }
        let number = !(end < n && (alpha(s[end]) || s[end] == '.'));
        if number {
            let oversized = wanted && oversized_number(s, i, end);
            return (end, literal_done(place), oversized);
        }
        return (find_run_end(s, end, Run::Units), literal_done(place), false);
    }
    if !inside && !braces && (alpha(c) || c == ':') {
        let end: usize = find_run_end(s, i, Run::Word);
        let w = to_ascii_lower(string_of(s, i, end).as_str());
        let oversized = wanted && (same_text(w.as_str(), "inf") || same_text(w.as_str(), "nan"));
        return (end, word_done(place, w.as_str()), oversized);
    }
    (i + 1, symbol_done(place, c), false)
}

/// Whether a query holds a number where a duration stands, of more seconds than
/// a duration holds.
pub fn has_oversized_duration(query: &str) -> (r: bool)
    ensures
        r == oversized_duration(query@),
{
    let s = chars_of(query);
    let mut i: usize = 0;
    let mut place = Place::Operand;
    while i < s.len()
        invariant
            s@ == query@,
            i <= s@.len(),
            oversized_duration(query@) == oversized_from(s@, i as int, place),
        decreases s@.len() - i,
    {
        let (next, expected, oversized) = read_step(&s, i, place);
        proof {
            lemma_step_advances(s@, i as int, place);
        }
        if oversized {
            return true;
        }
        i = next;
        place = expected;
    }
    false
}

/// A query with a short number for each duration that is too long.
pub fn shorten_durations(query: &str) -> (r: String)
    ensures
        r@ == shortened(query@),
        !oversized_duration(r@),
{
    let s = chars_of(query);
    let mut out = String::new();
    let mut i: usize = 0;
    let mut place = Place::Operand;
    assert(out@ + shortened(query@) =~= shortened(query@));
    while i < s.len()
        invariant
            s@ == query@,
            i <= s@.len(),
            shortened(query@) == out@ + shortened_from(s@, i as int, place),
        decreases s@.len() - i,
    {
        let ghost before = out@;
        let (next, expected, oversized) = read_step(&s, i, place);
        proof {
            lemma_step_advances(s@, i as int, place);
        }
        if oversized {
            out.append(SHORT);
        } else {
            push_chars(&mut out, &s, i, next);
        }
        proof {
            let more = shortened_from(s@, next as int, expected);
            let read = if oversized {
                SHORT@
            } else {
                s@.subrange(i as int, next as int)
            };
            assert(out@ =~= before + read);
            assert(before + (read + more) =~= out@ + more);
        }
        i = next;
        place = expected;
    }
    proof {
        assert(out@ =~= shortened(query@));
        law_shortened_durations_fit(query@);
    }
    out
}

} // verus!
