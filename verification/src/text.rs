//! Text: the small string operations the rest of the crate is built from.
//!
//! Text is modelled as a sequence of characters. Its order is the one the
//! standard library gives to strings: lexicographic over the UTF-8 bytes.

use vstd::prelude::*;
use vstd::string::StringExecFns;
use vstd::utf8::encode_utf8;
use vstd::utf8::encode_utf8_decode_utf8;

verus! {

/// `String::push` appends one character.
pub assume_specification[ String::push ](s: &mut String, c: char)
    ensures
        final(s)@ == old(s)@.push(c),
;

/// Whether a character has Unicode's White_Space property.
pub open spec fn is_white_space(c: char) -> bool {
    ||| 0x9 <= c as u32 <= 0xd
    ||| c as u32 == 0x20
    ||| c as u32 == 0x85
    ||| c as u32 == 0xa0
    ||| c as u32 == 0x1680
    ||| 0x2000 <= c as u32 <= 0x200a
    ||| c as u32 == 0x2028
    ||| c as u32 == 0x2029
    ||| c as u32 == 0x202f
    ||| c as u32 == 0x205f
    ||| c as u32 == 0x3000
}

/// `char::is_whitespace` tells whether a character has the White_Space property.
pub assume_specification[ char::is_whitespace ](c: char) -> (r: bool)
    ensures
        r == is_white_space(c),
;

/// Equality of two string slices (`<str as PartialEq>::eq`): they are equal
/// exactly when they hold the same characters.
#[verifier::external_body]
pub(crate) fn same_text(a: &str, b: &str) -> (r: bool)
    ensures
        r == (a@ == b@),
{
    a == b
}

/// The texts held by a sequence of strings.
pub open spec fn texts(s: Seq<String>) -> Seq<Seq<char>> {
    s.map_values(|t: String| t@)
}

// ---------- characters ----------

/// The characters of `s`, in order.
pub fn chars_of(s: &str) -> (r: Vec<char>)
    ensures
        r@ == s@,
{
    let mut r: Vec<char> = Vec::new();
    for c in it: s.chars()
        invariant
            r@ == s@.take(it.index() as int),
            it.seq() == s@,
    {
        r.push(c);
        assert(r@ =~= s@.take(it.index() as int + 1));
    }
    assert(s@.take(s@.len() as int) =~= s@);
    r
}

/// Append the characters `chars[from..to]` to `out`.
pub fn push_chars(out: &mut String, chars: &Vec<char>, from: usize, to: usize)
    requires
        from <= to <= chars@.len(),
    ensures
        final(out)@ == old(out)@ + chars@.subrange(from as int, to as int),
{
    let mut i: usize = from;
    while i < to
        invariant
            from <= i <= to <= chars@.len(),
            out@ == old(out)@ + chars@.subrange(from as int, i as int),
        decreases to - i,
    {
        out.push(chars[i]);
        i += 1;
        assert(chars@.subrange(from as int, i as int) =~= chars@.subrange(
            from as int,
            i as int - 1,
        ).push(chars@[i as int - 1]));
        assert(out@ =~= old(out)@ + chars@.subrange(from as int, i as int));
    }
}

/// The string made of `chars[from..to]`.
pub fn string_of(chars: &Vec<char>, from: usize, to: usize) -> (r: String)
    requires
        from <= to <= chars@.len(),
    ensures
        r@ == chars@.subrange(from as int, to as int),
{
    let mut r = String::new();
    push_chars(&mut r, chars, from, to);
    assert(r@ =~= chars@.subrange(from as int, to as int));
    r
}

/// The ASCII lower-case form of a character.
pub open spec fn ascii_lower(c: char) -> char {
    if 'A' <= c <= 'Z' {
        ((c as int) + 32) as char
    } else {
        c
    }
}

/// The ASCII lower-case form of a text.
pub open spec fn ascii_lowered(s: Seq<char>) -> Seq<char> {
    s.map_values(|c: char| ascii_lower(c))
}

fn lower_char(c: char) -> (r: char)
    ensures
        r == ascii_lower(c),
{
    if 'A' <= c && c <= 'Z' {
        ((c as u8) + 32) as char
    } else {
        c
    }
}

/// `s` with every ASCII upper-case letter in lower case.
pub fn to_ascii_lower(s: &str) -> (r: String)
    ensures
        r@ == ascii_lowered(s@),
{
    let chars = chars_of(s);
    let mut r = String::new();
    let mut i: usize = 0;
    while i < chars.len()
        invariant
            chars@ == s@,
            i <= chars@.len(),
            r@ == ascii_lowered(s@.take(i as int)),
        decreases chars@.len() - i,
    {
        r.push(lower_char(chars[i]));
        i += 1;
        assert(ascii_lowered(s@.take(i as int)) =~= ascii_lowered(s@.take(i as int - 1)).push(
            ascii_lower(s@[i as int - 1]),
        ));
    }
    assert(s@.take(i as int) =~= s@);
    r
}

// ---------- order ----------

/// Lexicographic order on byte sequences.
pub open spec fn bytes_before(a: Seq<u8>, b: Seq<u8>) -> bool
    decreases a.len(),
{
    if b.len() == 0 {
        false
    } else if a.len() == 0 {
        true
    } else if a[0] != b[0] {
        a[0] < b[0]
    } else {
        bytes_before(a.skip(1), b.skip(1))
    }
}

/// The order of strings: lexicographic over their UTF-8 bytes.
pub open spec fn text_before(a: Seq<char>, b: Seq<char>) -> bool {
    bytes_before(encode_utf8(a), encode_utf8(b))
}

proof fn lemma_bytes_irreflexive(a: Seq<u8>)
    ensures
        !bytes_before(a, a),
    decreases a.len(),
{
    if a.len() > 0 {
        lemma_bytes_irreflexive(a.skip(1));
    }
}

proof fn lemma_bytes_transitive(a: Seq<u8>, b: Seq<u8>, c: Seq<u8>)
    requires
        bytes_before(a, b),
        bytes_before(b, c),
    ensures
        bytes_before(a, c),
    decreases a.len(),
{
    if a.len() > 0 && a[0] == b[0] && b[0] == c[0] {
        lemma_bytes_transitive(a.skip(1), b.skip(1), c.skip(1));
    }
}

proof fn lemma_bytes_total(a: Seq<u8>, b: Seq<u8>)
    ensures
        a == b || bytes_before(a, b) || bytes_before(b, a),
    decreases a.len(),
{
    if a.len() > 0 && b.len() > 0 && a[0] == b[0] {
        lemma_bytes_total(a.skip(1), b.skip(1));
        if a.skip(1) == b.skip(1) {
            assert(a =~= seq![a[0]] + a.skip(1));
            assert(b =~= seq![b[0]] + b.skip(1));
        }
    } else if a.len() == 0 && b.len() == 0 {
        assert(a =~= b);
    }
}

/// No text comes before itself.
pub proof fn lemma_text_irreflexive(a: Seq<char>)
    ensures
        !text_before(a, a),
{
    lemma_bytes_irreflexive(encode_utf8(a));
}

/// The order of texts is transitive.
pub proof fn lemma_text_transitive(a: Seq<char>, b: Seq<char>, c: Seq<char>)
    requires
        text_before(a, b),
        text_before(b, c),
    ensures
        text_before(a, c),
{
    lemma_bytes_transitive(encode_utf8(a), encode_utf8(b), encode_utf8(c));
}

/// Of two different texts one comes before the other.
pub proof fn lemma_text_total(a: Seq<char>, b: Seq<char>)
    ensures
        a == b || text_before(a, b) || text_before(b, a),
{
    lemma_bytes_total(encode_utf8(a), encode_utf8(b));
    encode_utf8_decode_utf8(a);
    encode_utf8_decode_utf8(b);
}

proof fn lemma_bytes_common_prefix(a: Seq<u8>, b: Seq<u8>, n: int)
    requires
        0 <= n <= a.len(),
        n <= b.len(),
        a.take(n) == b.take(n),
    ensures
        bytes_before(a, b) == bytes_before(a.skip(n), b.skip(n)),
    decreases n,
{
    if n == 0 {
        assert(a.skip(0) =~= a);
        assert(b.skip(0) =~= b);
    } else {
        assert(a.take(n)[0] == a[0]);
        assert(b.take(n)[0] == b[0]);
        assert(a.skip(1).take(n - 1) =~= a.take(n).skip(1));
        assert(b.skip(1).take(n - 1) =~= b.take(n).skip(1));
        lemma_bytes_common_prefix(a.skip(1), b.skip(1), n - 1);
        assert(a.skip(1).skip(n - 1) =~= a.skip(n));
        assert(b.skip(1).skip(n - 1) =~= b.skip(n));
    }
}

/// Whether `a` comes before `b` in the order of strings.
pub fn text_precedes(a: &str, b: &str) -> (r: bool)
    ensures
        r == text_before(a@, b@),
{
    let x = a.as_bytes();
    let y = b.as_bytes();
    let mut i: usize = 0;
    while i < x.len() && i < y.len()
        invariant
            x@ == encode_utf8(a@),
            y@ == encode_utf8(b@),
            i <= x@.len(),
            i <= y@.len(),
            x@.take(i as int) == y@.take(i as int),
        decreases x@.len() - i,
    {
        proof {
            lemma_bytes_common_prefix(x@, y@, i as int);
        }
        if x[i] != y[i] {
            return x[i] < y[i];
        }
        i += 1;
        assert(x@.take(i as int) =~= x@.take(i as int - 1).push(x@[i as int - 1]));
        assert(y@.take(i as int) =~= y@.take(i as int - 1).push(y@[i as int - 1]));
    }
    proof {
        lemma_bytes_common_prefix(x@, y@, i as int);
    }
    i < y.len()
}

// ---------- numbers ----------

/// The character of a decimal digit.
pub open spec fn digit_char(d: int) -> char {
    (48 + d) as char
}

/// The decimal notation of a natural number, without leading zeros.
pub open spec fn decimal(n: nat) -> Seq<char>
    decreases n,
{
    if n < 10 {
        seq![digit_char(n as int)]
    } else {
        decimal(n / 10).push(digit_char((n % 10) as int))
    }
}

/// The decimal notation of an integer.
pub open spec fn signed_decimal(n: int) -> Seq<char> {
    if n < 0 {
        seq!['-'] + decimal((-n) as nat)
    } else {
        decimal(n as nat)
    }
}

/// Append the decimal notation of `n`.
pub fn push_decimal(out: &mut String, n: u64)
    ensures
        final(out)@ == old(out)@ + decimal(n as nat),
    decreases n,
{
    if n >= 10 {
        push_decimal(out, n / 10);
    }
    let ghost before = out@;
    let d: u8 = (n % 10) as u8;
    out.push((48 + d) as char);
    assert(out@ =~= old(out)@ + decimal(n as nat));
}

/// Append the decimal notation of a signed number.
pub fn push_signed(out: &mut String, n: i64)
    ensures
        final(out)@ == old(out)@ + signed_decimal(n as int),
{
    if n < 0 {
        out.push('-');
        let m: u64 = (-(n + 1)) as u64 + 1;
        push_decimal(out, m);
        assert(out@ =~= old(out)@ + signed_decimal(n as int));
    } else {
        push_decimal(out, n as u64);
    }
}

/// Whether a character is an ASCII digit.
pub open spec fn is_digit(c: char) -> bool {
    '0' <= c <= '9'
}

/// The number that a sequence of digits denotes.
pub open spec fn digits_value(s: Seq<char>) -> nat
    decreases s.len(),
{
    if s.len() == 0 {
        0
    } else {
        digits_value(s.drop_last()) * 10 + ((s.last() as int - 48) as nat)
    }
}

/// The digits of a number's text: an optional `+` is not one of them.
pub open spec fn unsigned_digits(s: Seq<char>) -> Seq<char> {
    if s.len() > 0 && s[0] == '+' {
        s.skip(1)
    } else {
        s
    }
}

/// What a text denotes as an unsigned 64-bit number, if anything: an optional
/// `+`, then one or more digits whose value fits.
pub open spec fn unsigned_value(s: Seq<char>) -> Option<u64> {
    let d = unsigned_digits(s);
    if d.len() > 0 && (forall|i: int| 0 <= i < d.len() ==> is_digit(#[trigger] d[i])) && digits_value(
        d,
    ) <= u64::MAX {
        Some(digits_value(d) as u64)
    } else {
        None
    }
}

proof fn lemma_digits_value_prefix(s: Seq<char>, n: int)
    requires
        0 <= n <= s.len(),
        forall|i: int| 0 <= i < s.len() ==> is_digit(#[trigger] s[i]),
    ensures
        digits_value(s.take(n)) <= digits_value(s),
    decreases s.len() - n,
{
    if n < s.len() {
        lemma_digits_value_prefix(s, n + 1);
        assert(s.take(n + 1).drop_last() =~= s.take(n));
        assert(is_digit(s[n]));
    } else {
        assert(s.take(n) =~= s);
    }
}

/// Read an unsigned 64-bit number.
pub fn parse_unsigned(s: &str) -> (r: Option<u64>)
    ensures
        r == unsigned_value(s@),
{
    let chars = chars_of(s);
    let mut i: usize = 0;
    if chars.len() > 0 && chars[0] == '+' {
        i = 1;
    }
    let start: usize = i;
    let ghost d = unsigned_digits(s@);
    assert(d =~= s@.skip(start as int));
    if i == chars.len() {
        return None;
    }
    let mut v: u64 = 0;
    while i < chars.len()
        invariant
            chars@ == s@,
            d == unsigned_digits(s@),
            d == s@.skip(start as int),
            d.len() > 0,
            start <= i <= chars@.len(),
            forall|j: int| 0 <= j < i - start ==> is_digit(#[trigger] d[j]),
            v == digits_value(d.take(i - start)),
        decreases chars@.len() - i,
    {
        let c = chars[i];
        assert(c == d[i - start]);
        if !('0' <= c && c <= '9') {
            return None;
        }
        let x: u64 = (c as u64) - 48;
        assert(d.take(i - start + 1).drop_last() =~= d.take(i - start));
        assert(digits_value(d.take(i - start + 1)) == v * 10 + x);
        let scaled: u64 = match v.checked_mul(10) {
            Some(m) => m,
            None => {
                proof {
                    if forall|j: int| 0 <= j < d.len() ==> is_digit(#[trigger] d[j]) {
                        lemma_digits_value_prefix(d, i - start + 1);
                    }
                }
                return None;
            },
        };
        v = match scaled.checked_add(x) {
            Some(m) => m,
            None => {
                proof {
                    if forall|j: int| 0 <= j < d.len() ==> is_digit(#[trigger] d[j]) {
                        lemma_digits_value_prefix(d, i - start + 1);
                    }
                }
                return None;
            },
        };
        i += 1;
    }
    assert(d.take(i - start) =~= d);
    Some(v)
}

/// The digits of a decimal notation denote the number they were made from.
pub proof fn lemma_decimal_value(n: nat)
    ensures
        decimal(n).len() > 0,
        digits_value(decimal(n)) == n,
        forall|i: int| 0 <= i < decimal(n).len() ==> is_digit(#[trigger] decimal(n)[i]),
    decreases n,
{
    if n < 10 {
        let s = decimal(n);
        assert(s.drop_last() =~= Seq::<char>::empty());
        assert(digits_value(s.drop_last()) == 0);
    } else {
        lemma_decimal_value(n / 10);
        let s = decimal(n);
        assert(s.drop_last() =~= decimal(n / 10));
    }
}

// ---------- joining and searching ----------

/// The parts one after another, with `sep` between them.
pub open spec fn joined(parts: Seq<Seq<char>>, sep: Seq<char>) -> Seq<char>
    decreases parts.len(),
{
    if parts.len() == 0 {
        Seq::empty()
    } else if parts.len() == 1 {
        parts[0]
    } else {
        joined(parts.drop_last(), sep) + sep + parts.last()
    }
}

/// Join `parts` with `sep` between them.
pub fn join(parts: &Vec<String>, sep: &str) -> (r: String)
    ensures
        r@ == joined(texts(parts@), sep@),
{
    let mut r = String::new();
    let mut i: usize = 0;
    while i < parts.len()
        invariant
            i <= parts@.len(),
            r@ == joined(texts(parts@).take(i as int), sep@),
        decreases parts@.len() - i,
    {
        let ghost before = r@;
        if i > 0 {
            r.append(sep);
        }
        r.append(parts[i].as_str());
        i += 1;
        proof {
            let t = texts(parts@).take(i as int);
            assert(t.drop_last() =~= texts(parts@).take(i as int - 1));
            assert(t.last() == parts@[i as int - 1]@);
            if i == 1 {
                assert(before =~= Seq::<char>::empty());
            }
            assert(r@ =~= joined(t, sep@));
        }
    }
    assert(texts(parts@).take(i as int) =~= texts(parts@));
    r
}

/// Whether `prefix` starts `s`.
pub open spec fn begins_with(s: Seq<char>, prefix: Seq<char>) -> bool {
    prefix.len() <= s.len() && s.take(prefix.len() as int) == prefix
}

/// Whether `part` occurs in `s`, at any place.
pub open spec fn occurs_in(part: Seq<char>, s: Seq<char>) -> bool {
    exists|i: int| 0 <= i <= s.len() - part.len() && #[trigger] s.subrange(i, i + part.len()) == part
}

fn matches_at(s: &Vec<char>, at: usize, part: &Vec<char>) -> (r: bool)
    requires
        at + part@.len() <= s@.len(),
    ensures
        r == (s@.subrange(at as int, at + part@.len()) == part@),
{
    let len: usize = s.len();
    let mut i: usize = 0;
    while i < part.len()
        invariant
            at + part@.len() <= len == s@.len(),
            i <= part@.len(),
            forall|j: int| 0 <= j < i ==> s@[at + j] == #[trigger] part@[j],
        decreases part@.len() - i,
    {
        if s[at + i] != part[i] {
            assert(s@.subrange(at as int, at + part@.len())[i as int] != part@[i as int]);
            return false;
        }
        i += 1;
    }
    assert(s@.subrange(at as int, at + part@.len()) =~= part@);
    true
}

/// Whether `prefix` starts `s`.
pub fn starts_with(s: &str, prefix: &str) -> (r: bool)
    ensures
        r == begins_with(s@, prefix@),
{
    let a = chars_of(s);
    let b = chars_of(prefix);
    if b.len() > a.len() {
        return false;
    }
    assert(s@.take(prefix@.len() as int) =~= s@.subrange(0, prefix@.len() as int));
    matches_at(&a, 0, &b)
}

/// Whether `part` occurs in `s`.
pub fn contains(s: &str, part: &str) -> (r: bool)
    ensures
        r == occurs_in(part@, s@),
{
    let a = chars_of(s);
    let b = chars_of(part);
    if b.len() > a.len() {
        return false;
    }
    let last: usize = a.len() - b.len();
    let mut i: usize = 0;
    while i <= last
        invariant
            a@ == s@,
            b@ == part@,
            last == a@.len() - b@.len(),
            i <= last + 1,
            forall|j: int| 0 <= j < i ==> #[trigger] s@.subrange(j, j + part@.len()) != part@,
        decreases last + 1 - i,
    {
        if matches_at(&a, i, &b) {
            assert(s@.subrange(i as int, i + part@.len()) == part@);
            return true;
        }
        if i == last {
            return false;
        }
        i += 1;
    }
    false
}

/// `s` without the white space at its start.
pub open spec fn trimmed_start(s: Seq<char>) -> Seq<char>
    decreases s.len(),
{
    if s.len() > 0 && is_white_space(s[0]) {
        trimmed_start(s.skip(1))
    } else {
        s
    }
}

/// `s` without the white space at its end.
pub open spec fn trimmed_end(s: Seq<char>) -> Seq<char>
    decreases s.len(),
{
    if s.len() > 0 && is_white_space(s.last()) {
        trimmed_end(s.drop_last())
    } else {
        s
    }
}

/// `s` without white space at either end.
pub open spec fn trimmed(s: Seq<char>) -> Seq<char> {
    trimmed_end(trimmed_start(s))
}

/// `s` without white space at either end.
pub fn trim(s: &str) -> (r: String)
    ensures
        r@ == trimmed(s@),
{
    let chars = chars_of(s);
    let mut from: usize = 0;
    assert(s@.skip(0) =~= s@);
    while from < chars.len() && chars[from].is_whitespace()
        invariant
            chars@ == s@,
            from <= chars@.len(),
            trimmed_start(s@) == trimmed_start(s@.skip(from as int)),
        decreases chars@.len() - from,
    {
        assert(s@.skip(from as int).skip(1) =~= s@.skip(from as int + 1));
        from += 1;
    }
    assert(trimmed_start(s@) == s@.skip(from as int));
    let ghost t = s@.skip(from as int);
    let mut to: usize = chars.len();
    assert(t =~= s@.subrange(from as int, to as int));
    while to > from && chars[to - 1].is_whitespace()
        invariant
            chars@ == s@,
            from <= to <= chars@.len(),
            t == s@.skip(from as int),
            trimmed_end(t) == trimmed_end(s@.subrange(from as int, to as int)),
        decreases to,
    {
        assert(s@.subrange(from as int, to as int).drop_last() =~= s@.subrange(
            from as int,
            to as int - 1,
        ));
        to -= 1;
    }
    string_of(&chars, from, to)
}

/// Whether a text is in a list.
pub fn holds_text(list: &Vec<String>, t: &str) -> (r: bool)
    ensures
        r == texts(list@).contains(t@),
{
    let mut i: usize = 0;
    while i < list.len()
        invariant
            i <= list@.len(),
            forall|j: int| 0 <= j < i ==> texts(list@)[j] != t@,
        decreases list@.len() - i,
    {
        if same_text(list[i].as_str(), t) {
            assert(texts(list@)[i as int] == t@);
            return true;
        }
        i += 1;
    }
    false
}

} // verus!
