//! Text operations on character sequences: trimming, line splitting, ASCII case
//! folding, decimal and hexadecimal numbers.
use vstd::prelude::*;
use crate::text::{is_space, is_space_char, push_char, chars_of, string_of_range};

verus! {

/// `s` without its leading white space.
pub open spec fn trim_start(s: Seq<char>) -> Seq<char>
    decreases s.len(),
{
    if s.len() > 0 && is_space(s[0]) {
        trim_start(s.drop_first())
    } else {
        s
    }
}

/// `s` without its trailing white space.
pub open spec fn trim_end(s: Seq<char>) -> Seq<char>
    decreases s.len(),
{
    if s.len() > 0 && is_space(s.last()) {
        trim_end(s.drop_last())
    } else {
        s
    }
}

/// `s` without leading and trailing white space (as `str::trim`).
pub open spec fn trim(s: Seq<char>) -> Seq<char> {
    trim_end(trim_start(s))
}

proof fn lemma_trim_start_step(cs: Seq<char>, from: int, a: int, to: int)
    requires
        0 <= from <= a <= to <= cs.len(),
        a == to || !is_space(cs[a]),
        forall|j: int| from <= j < a ==> is_space(#[trigger] cs[j]),
    ensures
        trim_start(cs.subrange(from, to)) == cs.subrange(a, to),
    decreases a - from,
{
    if from < a {
        assert(cs.subrange(from, to)[0] == cs[from]);
        assert(cs.subrange(from, to).drop_first() =~= cs.subrange(from + 1, to));
        lemma_trim_start_step(cs, from + 1, a, to);
    } else if a < to {
        assert(cs.subrange(from, to)[0] == cs[a]);
    }
}

proof fn lemma_trim_end_step(cs: Seq<char>, a: int, b: int, to: int)
    requires
        0 <= a <= b <= to <= cs.len(),
        b == a || !is_space(cs[b - 1]),
        forall|j: int| b <= j < to ==> is_space(#[trigger] cs[j]),
    ensures
        trim_end(cs.subrange(a, to)) == cs.subrange(a, b),
    decreases to - b,
{
    if b < to {
        assert(cs.subrange(a, to).last() == cs[to - 1]);
        assert(cs.subrange(a, to).drop_last() =~= cs.subrange(a, to - 1));
        lemma_trim_end_step(cs, a, b, to - 1);
    } else if a < b {
        assert(cs.subrange(a, to).last() == cs[b - 1]);
    }
}

/// The bounds of `cs[from..to]` with white space trimmed from both ends.
pub fn trim_range(cs: &Vec<char>, from: usize, to: usize) -> (r: (usize, usize))
    requires
        from <= to <= cs@.len(),
    ensures
        from <= r.0 <= r.1 <= to,
        cs@.subrange(r.0 as int, r.1 as int) == trim(cs@.subrange(from as int, to as int)),
{
    let mut a = from;
    while a < to && is_space_char(cs[a])
        invariant
            from <= a <= to <= cs@.len(),
            forall|j: int| from <= j < a ==> is_space(#[trigger] cs@[j]),
        decreases to - a,
    {
        a = a + 1;
    }
    proof {
        lemma_trim_start_step(cs@, from as int, a as int, to as int);
    }
    let mut b = to;
    while b > a && is_space_char(cs[b - 1])
        invariant
            a <= b <= to <= cs@.len(),
            forall|j: int| b <= j < to ==> is_space(#[trigger] cs@[j]),
        decreases b - a,
    {
        b = b - 1;
    }
    proof {
        lemma_trim_end_step(cs@, a as int, b as int, to as int);
    }
    (a, b)
}

/// `s` with leading and trailing white space removed.
pub fn trim_str(s: &str) -> (r: String)
    ensures
        r@ == trim(s@),
{
    let cs = chars_of(s);
    let (a, b) = trim_range(&cs, 0, cs.len());
    proof {
        assert(cs@.subrange(0, cs@.len() as int) =~= cs@);
    }
    string_of_range(&cs, a, b)
}

/// ASCII lower case of one character; other characters unchanged.
pub open spec fn ascii_lower(c: char) -> char {
    if 'A' <= c && c <= 'Z' {
        ((c as u32) + 32) as char
    } else {
        c
    }
}

/// Equality up to ASCII case (as `str::eq_ignore_ascii_case`).
pub open spec fn eq_ignore_ascii_case(a: Seq<char>, b: Seq<char>) -> bool {
    a.len() == b.len() && forall|i: int| 0 <= i < a.len() ==> ascii_lower(#[trigger] a[i])
        == ascii_lower(b[i])
}

/// The same up to ASCII letter case: the same length, and at each position the
/// same character, or an ASCII capital letter against its small letter.
pub open spec fn same_ignoring_ascii_case(a: Seq<char>, b: Seq<char>) -> bool {
    a.len() == b.len() && forall|i: int|
        0 <= i < a.len() ==> #[trigger] a[i] == b[i] || ('A' <= a[i] <= 'Z' && b[i] as u32 == a[i]
            as u32 + 32) || ('A' <= b[i] <= 'Z' && a[i] as u32 == b[i] as u32 + 32)
}

proof fn lemma_ascii_lower_same(x: char, y: char)
    ensures
        (ascii_lower(x) == ascii_lower(y)) <==> (x == y || ('A' <= x <= 'Z' && y as u32 == x as u32
            + 32) || ('A' <= y <= 'Z' && x as u32 == y as u32 + 32)),
{
    let lx = ascii_lower(x);
    let ly = ascii_lower(y);
    if 'A' <= x <= 'Z' {
        assert(lx as u32 == x as u32 + 32);
    } else {
        assert(lx == x);
    }
    if 'A' <= y <= 'Z' {
        assert(ly as u32 == y as u32 + 32);
    } else {
        assert(ly == y);
    }
    assert((lx == ly) <==> (lx as u32 == ly as u32));
    assert((x == y) <==> (x as u32 == y as u32));
}

/// `eq_ignore_ascii_case` is sameness up to ASCII letter case.
pub proof fn lemma_eq_ignore_ascii_case(a: Seq<char>, b: Seq<char>)
    ensures
        eq_ignore_ascii_case(a, b) <==> same_ignoring_ascii_case(a, b),
{
    assert forall|i: int| 0 <= i < a.len() && i < b.len() implies (ascii_lower(#[trigger] a[i])
        == ascii_lower(b[i])) <==> (a[i] == b[i] || ('A' <= a[i] <= 'Z' && b[i] as u32 == a[i]
        as u32 + 32) || ('A' <= b[i] <= 'Z' && a[i] as u32 == b[i] as u32 + 32)) by {
        lemma_ascii_lower_same(a[i], b[i]);
    }
}

fn ascii_lower_char(c: char) -> (r: char)
    ensures
        r == ascii_lower(c),
{
    if 'A' <= c && c <= 'Z' {
        let x: u32 = (c as u32) + 32;
        proof {
            assert(0x61 <= x <= 0x7A);
        }
        char_of_ascii(x)
    } else {
        c
    }
}

/// The character with ASCII code `x`.
fn char_of_ascii(x: u32) -> (c: char)
    requires
        x < 128,
    ensures
        c == x as char,
{
    let b: u8 = x as u8;
    b as char
}

/// Whether two strings are equal up to ASCII case.
pub fn str_eq_ignore_ascii_case(a: &str, b: &str) -> (r: bool)
    ensures
        r == eq_ignore_ascii_case(a@, b@),
{
    let x = chars_of(a);
    let y = chars_of(b);
    if x.len() != y.len() {
        return false;
    }
    let mut i: usize = 0;
    while i < x.len()
        invariant
            x@ == a@,
            y@ == b@,
            x@.len() == y@.len(),
            i <= x@.len(),
            forall|j: int| 0 <= j < i ==> ascii_lower(#[trigger] x@[j]) == ascii_lower(y@[j]),
        decreases x@.len() - i,
    {
        if ascii_lower_char(x[i]) != ascii_lower_char(y[i]) {
            return false;
        }
        i = i + 1;
    }
    true
}

/// The Unicode lower case of a string, as `str::to_lowercase` computes it.
pub uninterp spec fn lowercase(s: Seq<char>) -> Seq<char>;

/// Lower-cases a string.
///
/// Trusted: calls `str::to_lowercase`, whose result is the Unicode lower-case
/// mapping of each character (with the final-sigma rule), a function of the
/// input alone; the contract names that result `lowercase` and says nothing more.
#[verifier::external_body]
pub(crate) fn to_lowercase(s: &str) -> (r: String)
    ensures
        r@ == lowercase(s@),
{
    s.to_lowercase()
}

/// Whether a character is alphabetic or numeric in Unicode, as
/// `char::is_alphanumeric` answers.
pub uninterp spec fn alphanumeric(c: char) -> bool;

/// Whether a character is alphanumeric.
///
/// Trusted: calls `char::is_alphanumeric` (Unicode `Alphabetic` or `Numeric`), a
/// function of the character alone; the contract names the answer `alphanumeric`.
#[verifier::external_body]
pub(crate) fn is_alphanumeric_char(c: char) -> (r: bool)
    ensures
        r == alphanumeric(c),
{
    c.is_alphanumeric()
}

/// The digit character for `d < 16` (lower-case letters above 9).
pub open spec fn digit_char(d: nat) -> char {
    if d < 10 {
        (('0' as u32) + d) as char
    } else {
        (('a' as u32) + d - 10) as char
    }
}

/// The decimal text of `n`.
pub open spec fn decimal(n: nat) -> Seq<char>
    decreases n,
{
    if n < 10 {
        seq![digit_char(n)]
    } else {
        decimal(n / 10).push(digit_char(n % 10))
    }
}

/// The decimal text of `n`.
pub fn u64_to_string(n: u64) -> (s: String)
    ensures
        s@ == decimal(n as nat),
    decreases n,
{
    if n < 10 {
        let mut s = String::new();
        push_char(&mut s, digit_of(n));
        proof {
            assert(s@ =~= seq![digit_char(n as nat)]);
        }
        s
    } else {
        let mut s = u64_to_string(n / 10);
        push_char(&mut s, digit_of(n % 10));
        s
    }
}

/// The character of decimal digit `d`.
fn digit_of(d: u64) -> (c: char)
    requires
        d < 10,
    ensures
        c == digit_char(d as nat),
{
    let x: u32 = 48 + (d as u32);
    char_of_ascii(x)
}

/// The value of a decimal digit character.
pub open spec fn dec_digit(c: char) -> Option<nat> {
    if '0' <= c && c <= '9' {
        Some(((c as u32) - ('0' as u32)) as nat)
    } else {
        None
    }
}

/// The value of a hexadecimal digit character (either case).
pub open spec fn hex_digit(c: char) -> Option<nat> {
    if '0' <= c && c <= '9' {
        Some(((c as u32) - ('0' as u32)) as nat)
    } else if 'a' <= c && c <= 'f' {
        Some(((c as u32) - ('a' as u32) + 10) as nat)
    } else if 'A' <= c && c <= 'F' {
        Some(((c as u32) - ('A' as u32) + 10) as nat)
    } else {
        None
    }
}

/// The digit value of `c` in base 10 or 16.
pub open spec fn digit_in(c: char, radix: nat) -> Option<nat> {
    if radix == 16 {
        hex_digit(c)
    } else {
        dec_digit(c)
    }
}

/// All characters are digits of `radix`.
pub open spec fn all_digits(s: Seq<char>, radix: nat) -> bool {
    forall|i: int| 0 <= i < s.len() ==> #[trigger] digit_in(s[i], radix) is Some
}

/// The value of a digit string in `radix`.
pub open spec fn digits_value(s: Seq<char>, radix: nat) -> nat
    decreases s.len(),
{
    if s.len() == 0 {
        0
    } else {
        digits_value(s.drop_last(), radix) * radix + digit_in(s.last(), radix).unwrap_or(0)
    }
}

/// What `str::parse` (or `from_str_radix`) gives for an unsigned integer type
/// whose largest value is `max`: an optional `+`, then one or more digits, with a
/// value no larger than `max`.
pub open spec fn parse_unsigned(s: Seq<char>, radix: nat, max: nat) -> Option<nat> {
    if s.len() == 0 {
        None
    } else {
        let d = if s[0] == '+' {
            s.drop_first()
        } else {
            s
        };
        if d.len() == 0 || !all_digits(d, radix) || digits_value(d, radix) > max {
            None
        } else {
            Some(digits_value(d, radix))
        }
    }
}

/// The value of a non-empty digit string when all are digits and it is at most `max`.
pub open spec fn parse_digits(d: Seq<char>, radix: nat, max: nat) -> Option<nat> {
    if !all_digits(d, radix) || digits_value(d, radix) > max {
        None
    } else {
        Some(digits_value(d, radix))
    }
}

proof fn lemma_digits_value_prefix(s: Seq<char>, radix: nat, i: int)
    requires
        0 <= i <= s.len(),
        radix > 0,
    ensures
        digits_value(s.take(i), radix) <= digits_value(s, radix),
    decreases s.len() - i,
{
    if i < s.len() {
        lemma_digits_value_prefix(s, radix, i + 1);
        assert(s.take(i + 1).drop_last() =~= s.take(i));
        let v = digits_value(s.take(i), radix);
        assert(v <= v * radix) by (nonlinear_arith)
            requires
                radix > 0,
        ;
    } else {
        assert(s.take(i) =~= s);
    }
}

proof fn lemma_digit_step(d: Seq<char>, radix: nat, k: int, x: nat)
    requires
        0 <= k < d.len(),
        all_digits(d.take(k), radix),
        digit_in(d[k], radix) == Some(x),
    ensures
        digits_value(d.take(k + 1), radix) == digits_value(d.take(k), radix) * radix + x,
        all_digits(d.take(k + 1), radix),
{
    assert(d.take(k + 1).drop_last() =~= d.take(k));
    assert(d.take(k + 1).last() == d[k]);
    assert forall|j: int| 0 <= j < k + 1 implies #[trigger] digit_in(d.take(k + 1)[j], radix)
        is Some by {
        if j < k {
            assert(d.take(k + 1)[j] == d.take(k)[j]);
        }
    }
}

proof fn lemma_overflow(v: nat, radix: nat, x: nat, max: nat)
    requires
        v * radix + x > u64::MAX,
        max <= u64::MAX,
    ensures
        v * radix + x > max,
{
}

/// The digit value of `c` in `radix` (10 or 16).
fn digit_value_of(c: char, radix: u64) -> (r: Option<u64>)
    requires
        radix == 10 || radix == 16,
    ensures
        match r {
            Some(v) => digit_in(c, radix as nat) == Some(v as nat),
            None => digit_in(c, radix as nat) is None,
        },
{
    if '0' <= c && c <= '9' {
        Some((c as u64) - ('0' as u64))
    } else if radix == 16 && 'a' <= c && c <= 'f' {
        Some((c as u64) - ('a' as u64) + 10)
    } else if radix == 16 && 'A' <= c && c <= 'F' {
        Some((c as u64) - ('A' as u64) + 10)
    } else {
        None
    }
}

#[verifier::rlimit(30)]
/// Parses an unsigned integer of at most `max` in `radix` (10 or 16), as
/// `str::parse` / `from_str_radix` do for unsigned integer types.
pub fn parse_unsigned_str(s: &str, radix: u64, max: u64) -> (r: Option<u64>)
    requires
        radix == 10 || radix == 16,
    ensures
        match r {
            Some(v) => parse_unsigned(s@, radix as nat, max as nat) == Some(v as nat),
            None => parse_unsigned(s@, radix as nat, max as nat) is None,
        },
{
    let cs = chars_of(s);
    if cs.len() == 0 {
        return None;
    }
    let start: usize = if cs[0] == '+' {
        1
    } else {
        0
    };
    let ghost d = if cs@[0] == '+' {
        cs@.drop_first()
    } else {
        cs@
    };
    proof {
        assert(d =~= cs@.subrange(start as int, cs@.len() as int));
    }
    if start == cs.len() {
        return None;
    }
    proof {
        assert(parse_unsigned(s@, radix as nat, max as nat) == parse_digits(d, radix as nat, max as nat));
    }
    let mut v: u64 = 0;
    let mut i: usize = start;
    while i < cs.len()
        invariant
            start <= i <= cs@.len(),
            cs@ == s@,
            d == cs@.subrange(start as int, cs@.len() as int),
            radix == 10 || radix == 16,
            d.len() > 0,
            parse_unsigned(s@, radix as nat, max as nat) == parse_digits(d, radix as nat, max as nat),
            v <= max,
            v as nat == digits_value(d.take(i - start), radix as nat),
            all_digits(d.take(i - start), radix as nat),
        decreases cs@.len() - i,
    {
        let dv = digit_value_of(cs[i], radix);
        let ghost k = i - start;
        proof {
            assert(d[k] == cs@[i as int]);
        }
        match dv {
            None => {
                proof {
                    assert(!all_digits(d, radix as nat)) by {
                        assert(digit_in(d[k], radix as nat) is None);
                    }
                }
                return None;
            },
            Some(x) => {
                proof {
                    lemma_digit_step(d, radix as nat, k, x as nat);
                }
                let next = match v.checked_mul(radix) {
                    Some(w) => w.checked_add(x),
                    None => None,
                };
                match next {
                    None => {
                        proof {
                            lemma_digits_value_prefix(d, radix as nat, k + 1);
                            lemma_overflow(v as nat, radix as nat, x as nat, max as nat);
                        }
                        return None;
                    },
                    Some(w) => {
                        if w > max {
                            proof {
                                lemma_digits_value_prefix(d, radix as nat, k + 1);
                            }
                            return None;
                        }
                        v = w;
                    },
                }
            },
        }
        i = i + 1;
    }
    proof {
        assert(d.take(cs@.len() - start) =~= d);
    }
    Some(v)
}

/// The index of the first `c` in `s`, if any.
pub open spec fn find_char(s: Seq<char>, c: char, i: int) -> bool {
    &&& 0 <= i < s.len()
    &&& s[i] == c
    &&& forall|j: int| 0 <= j < i ==> #[trigger] s[j] != c
}

/// The first index at or after `from` holding `c`, or `to` when none does before it.
pub fn position_of(cs: &Vec<char>, c: char, from: usize, to: usize) -> (p: usize)
    requires
        from <= to <= cs@.len(),
    ensures
        from <= p <= to,
        p < to ==> cs@[p as int] == c,
        forall|j: int| from <= j < p ==> #[trigger] cs@[j] != c,
{
    let mut p = from;
    while p < to && cs[p] != c
        invariant
            from <= p <= to <= cs@.len(),
            forall|j: int| from <= j < p ==> #[trigger] cs@[j] != c,
        decreases to - p,
    {
        p = p + 1;
    }
    p
}

/// The lines of `s` (as `str::lines`): split after each `\n`, the `\n` and a `\r`
/// just before it dropped; no line after a final `\n`.
pub open spec fn lines_from(s: Seq<char>, i: int) -> Seq<Seq<char>>
    decreases s.len() - i,
{
    if i < 0 || i >= s.len() {
        Seq::empty()
    } else {
        let e = newline_after(s, i);
        proof {
            lemma_newline_after_bounds(s, i);
        }
        if e < s.len() {
            seq![strip_cr(s.subrange(i, e))] + lines_from(s, e + 1)
        } else {
            seq![s.subrange(i, s.len() as int)]
        }
    }
}

/// The index of the first `\n` at or after `i`, or the length of `s`.
pub open spec fn newline_after(s: Seq<char>, i: int) -> int
    decreases s.len() - i,
{
    if i < 0 || i >= s.len() {
        s.len() as int
    } else if s[i] == '\n' {
        i
    } else {
        newline_after(s, i + 1)
    }
}

/// `s` without one trailing `\r`.
pub open spec fn strip_cr(s: Seq<char>) -> Seq<char> {
    if s.len() > 0 && s.last() == '\r' {
        s.drop_last()
    } else {
        s
    }
}

pub proof fn lemma_newline_after_bounds(s: Seq<char>, i: int)
    requires
        0 <= i <= s.len(),
    ensures
        i <= newline_after(s, i) <= s.len(),
    decreases s.len() - i,
{
    if i < s.len() && s[i] != '\n' {
        lemma_newline_after_bounds(s, i + 1);
    }
}

pub open spec fn lines(s: Seq<char>) -> Seq<Seq<char>> {
    lines_from(s, 0)
}

pub proof fn lemma_newline_after(s: Seq<char>, i: int, p: int)
    requires
        0 <= i <= p <= s.len(),
        p == s.len() || s[p] == '\n',
        forall|j: int| i <= j < p ==> #[trigger] s[j] != '\n',
    ensures
        newline_after(s, i) == p,
    decreases p - i,
{
    if i < p {
        lemma_newline_after(s, i + 1, p);
    }
}

/// Where `newline_after` lands: no `\n` before it, and a `\n` at it unless it is
/// the end.
pub proof fn lemma_newline_after_props(s: Seq<char>, i: int)
    requires
        0 <= i <= s.len(),
    ensures
        i <= newline_after(s, i) <= s.len(),
        forall|j: int| i <= j < newline_after(s, i) ==> #[trigger] s[j] != '\n',
        newline_after(s, i) < s.len() ==> s[newline_after(s, i)] == '\n',
    decreases s.len() - i,
{
    if i < s.len() && s[i] != '\n' {
        lemma_newline_after_props(s, i + 1);
    }
}

proof fn lemma_lines_from_push(s: Seq<char>, line: Seq<char>, i: int)
    requires
        0 <= i <= s.len(),
        s.len() == 0 || s.last() == '\n',
        forall|j: int| 0 <= j < line.len() ==> #[trigger] line[j] != '\n',
        line.len() == 0 || line.last() != '\r',
    ensures
        lines_from(s + line + seq!['\n'], i) == lines_from(s, i).push(line),
    decreases s.len() - i,
{
    let x = s + line + seq!['\n'];
    let end: int = (s.len() + line.len()) as int;
    lemma_newline_after_props(s, i);
    if i == s.len() {
        assert forall|j: int| i <= j < end implies #[trigger] x[j] != '\n' by {
            assert(x[j] == line[j - s.len()]);
        }
        lemma_newline_after(x, i, end);
        assert(x.subrange(i, end) =~= line);
        assert(lines_from(x, end + 1) =~= Seq::<Seq<char>>::empty());
        assert(lines_from(s, i) =~= Seq::<Seq<char>>::empty());
        assert(lines_from(x, i) =~= seq![line]);
    } else {
        let e = newline_after(s, i);
        if e == s.len() {
            assert(s[s.len() - 1] != '\n');
        }
        assert forall|j: int| i <= j < e implies #[trigger] x[j] != '\n' by {
            assert(x[j] == s[j]);
        }
        assert(x[e] == s[e]);
        lemma_newline_after(x, i, e);
        assert(x.subrange(i, e) =~= s.subrange(i, e));
        lemma_lines_from_push(s, line, e + 1);
        let first = strip_cr(s.subrange(i, e));
        assert(seq![first] + lines_from(s, e + 1).push(line) =~= (seq![first] + lines_from(
            s,
            e + 1,
        )).push(line));
    }
}

/// Appending a line and its `\n` to text that is empty or ends in `\n` adds that
/// line to the text's lines, for a line without `\n` that does not end in `\r`.
pub proof fn lemma_lines_push(s: Seq<char>, line: Seq<char>)
    requires
        s.len() == 0 || s.last() == '\n',
        forall|j: int| 0 <= j < line.len() ==> #[trigger] line[j] != '\n',
        line.len() == 0 || line.last() != '\r',
    ensures
        lines(s + line + seq!['\n']) == lines(s).push(line),
{
    lemma_lines_from_push(s, line, 0);
}

/// Text that neither starts nor ends with white space is its own trim.
pub proof fn lemma_trim_unpadded(s: Seq<char>)
    requires
        s.len() == 0 || (!is_space(s[0]) && !is_space(s.last())),
    ensures
        trim(s) == s,
{
}

/// The bounds of each line of `cs`, as `lines` splits it.
pub fn line_bounds(cs: &Vec<char>) -> (r: Vec<(usize, usize)>)
    ensures
        r@.len() == lines(cs@).len(),
        forall|k: int|
            0 <= k < r@.len() ==> #[trigger] r@[k].0 <= r@[k].1 <= cs@.len() && cs@.subrange(
                r@[k].0 as int,
                r@[k].1 as int,
            ) == lines(cs@)[k],
{
    let n = cs.len();
    let mut r: Vec<(usize, usize)> = Vec::new();
    let mut i: usize = 0;
    while i < n
        invariant
            n == cs@.len(),
            i <= n,
            lines(cs@) == r@.map_values(|b: (usize, usize)| cs@.subrange(b.0 as int, b.1 as int))
                + lines_from(cs@, i as int),
            forall|k: int| 0 <= k < r@.len() ==> #[trigger] r@[k].0 <= r@[k].1 <= cs@.len(),
        decreases n - i,
    {
        let e = position_of(cs, '\n', i, n);
        proof {
            lemma_newline_after(cs@, i as int, e as int);
        }
        let ghost before = r@;
        let mut end = e;
        if e < n && e > i && cs[e - 1] == '\r' {
            end = e - 1;
        }
        r.push((i, end));
        proof {
            assert(r@[r@.len() - 1] == (i, end));
            assert forall|k: int| 0 <= k < before.len() implies r@[k] == before[k] by {}
            assert forall|k: int| 0 <= k < r@.len() implies #[trigger] r@[k].0 <= r@[k].1
                <= cs@.len() by {
                if k < before.len() {
                    assert(r@[k] == before[k]);
                }
            }

            let piece = cs@.subrange(i as int, e as int);
            if e < n {
                if e > i && cs@[e - 1] == '\r' {
                    assert(piece.last() == cs@[e - 1]);
                    assert(piece.drop_last() =~= cs@.subrange(i as int, end as int));
                }
                assert(lines_from(cs@, i as int) == seq![strip_cr(piece)] + lines_from(
                    cs@,
                    e + 1,
                ));
            } else {
                assert(lines_from(cs@, i as int) == seq![cs@.subrange(i as int, n as int)]);
                assert(lines_from(cs@, n as int) =~= Seq::<Seq<char>>::empty());
            }
            let f = |b: (usize, usize)| cs@.subrange(b.0 as int, b.1 as int);
            assert(r@.map_values(f) =~= before.map_values(f).push(cs@.subrange(
                i as int,
                end as int,
            )));
        }
        if e < n {
            i = e + 1;
        } else {
            i = n;
        }
        proof {
            let f = |b: (usize, usize)| cs@.subrange(b.0 as int, b.1 as int);
            assert(lines(cs@) =~= r@.map_values(f) + lines_from(cs@, i as int));
        }
    }
    proof {
        let f = |b: (usize, usize)| cs@.subrange(b.0 as int, b.1 as int);
        assert(lines_from(cs@, n as int) =~= Seq::<Seq<char>>::empty());
        assert(lines(cs@) =~= r@.map_values(f));
        assert forall|k: int| 0 <= k < r@.len() implies #[trigger] r@[k].0 <= r@[k].1
            <= cs@.len() && cs@.subrange(r@[k].0 as int, r@[k].1 as int) == lines(cs@)[k] by {
            assert(lines(cs@)[k] == r@.map_values(f)[k]);
        }
    }
    r
}

} // verus!
