//! Reading a value out of the text that `reg query <key> /v <name>` prints on
//! Windows: the first line that mentions the value's name and has a `REG_SZ` or
//! `REG_DWORD` type column.
use vstd::prelude::*;
use vstd::string::StringExecFns;
use crate::text::{is_space, is_space_char, chars_of, string_of_range};
use crate::strutil::{
    trim,
    trim_range,
    lowercase,
    to_lowercase,
    lines,
    line_bounds,
    eq_ignore_ascii_case,
    str_eq_ignore_ascii_case,
    parse_unsigned,
    parse_unsigned_str,
    decimal,
    u64_to_string,
};

verus! {

/// Steam's settings on Windows, kept in the registry under `HKCU\Software\Valve\Steam`.
pub struct WindowsPlatform;

/// `n` occurs in `h` at index `i`.
pub open spec fn occurs_at(h: Seq<char>, n: Seq<char>, i: int) -> bool {
    0 <= i && i + n.len() <= h.len() && h.subrange(i, i + n.len()) == n
}

/// `n` occurs somewhere in `h` (as `str::contains`).
pub open spec fn contains_text(h: Seq<char>, n: Seq<char>) -> bool {
    exists|i: int| occurs_at(h, n, i)
}

/// The first index at which `n` occurs in `h`.
pub open spec fn first_occurrence(h: Seq<char>, n: Seq<char>, i: int) -> bool {
    occurs_at(h, n, i) && forall|j: int| 0 <= j < i ==> !occurs_at(h, n, j)
}

/// Where the white-space-free run starting at `i` ends.
pub open spec fn word_end(s: Seq<char>, i: int) -> int
    decreases s.len() - i,
{
    if i < 0 || i >= s.len() || is_space(s[i]) {
        i
    } else {
        word_end(s, i + 1)
    }
}

/// The words of `s` from index `i` on: the maximal runs without white space (as
/// `str::split_whitespace`).
pub open spec fn words_from(s: Seq<char>, i: int) -> Seq<Seq<char>>
    decreases s.len() - i,
{
    if i < 0 || i >= s.len() {
        Seq::empty()
    } else if is_space(s[i]) {
        words_from(s, i + 1)
    } else {
        proof {
            lemma_word_end(s, i);
        }
        seq![s.subrange(i, word_end(s, i))] + words_from(s, word_end(s, i))
    }
}

pub proof fn lemma_word_end(s: Seq<char>, i: int)
    requires
        0 <= i <= s.len(),
    ensures
        i <= word_end(s, i) <= s.len(),
        i < s.len() && !is_space(s[i]) ==> i < word_end(s, i),
        forall|j: int| i <= j < word_end(s, i) ==> !is_space(#[trigger] s[j]),
        word_end(s, i) < s.len() ==> is_space(s[word_end(s, i)]),
    decreases s.len() - i,
{
    if i < s.len() && !is_space(s[i]) {
        lemma_word_end(s, i + 1);
    }
}

/// `s` with every leading copy of `p` removed (as `str::trim_start_matches`).
pub open spec fn strip_leading(s: Seq<char>, p: Seq<char>) -> Seq<char>
    decreases s.len(),
{
    if p.len() > 0 && p.len() <= s.len() && s.subrange(0, p.len() as int) == p {
        strip_leading(s.skip(p.len() as int), p)
    } else {
        s
    }
}

/// What one line of `reg query` output gives for the value `name`.
pub enum RegLine {
    /// Nothing: go on with the next line.
    Next,
    /// The value's text.
    Found(Seq<char>),
    /// A `REG_SZ` type column (up to ASCII case) on a line that does not hold
    /// `REG_SZ` verbatim: no position to read the value from.
    NoPosition,
}

/// What one line gives, given whether the lower-cased line mentions the
/// lower-cased name: when it does and the line has at least three words, a
/// `REG_SZ` second word gives the trimmed text after the first `REG_SZ` of the
/// line, and a `REG_DWORD` second word gives the decimal text of the third word
/// read as hexadecimal (`0x` prefixes dropped), when it fits in a `u32`.
pub open spec fn reg_line_reading(line: Seq<char>, mentions_name: bool) -> RegLine {
    let parts = words_from(line, 0);
    if !mentions_name || parts.len() < 3 {
        RegLine::Next
    } else if eq_ignore_ascii_case(parts[1], "REG_SZ"@) {
        if exists|i: int| first_occurrence(line, "REG_SZ"@, i) {
            let i = choose|i: int| first_occurrence(line, "REG_SZ"@, i);
            RegLine::Found(trim(line.skip(i + 6)))
        } else {
            RegLine::NoPosition
        }
    } else if eq_ignore_ascii_case(parts[1], "REG_DWORD"@) {
        match parse_unsigned(strip_leading(parts[2], "0x"@), 16, u32::MAX as nat) {
            Some(v) => RegLine::Found(decimal(v)),
            None => RegLine::Next,
        }
    } else {
        RegLine::Next
    }
}

/// What one line gives for the value `name` (see `reg_line_reading`).
pub open spec fn reg_line(line: Seq<char>, name: Seq<char>) -> RegLine {
    reg_line_reading(line, contains_text(lowercase(line), lowercase(name)))
}

/// What the lines give: the outcome of the first line that gives anything.
pub open spec fn reg_lines(ls: Seq<Seq<char>>, name: Seq<char>) -> RegLine
    decreases ls.len(),
{
    if ls.len() == 0 {
        RegLine::Next
    } else {
        match reg_line(ls[0], name) {
            RegLine::Next => reg_lines(ls.drop_first(), name),
            other => other,
        }
    }
}

/// The result of reading `reg query` output.
#[derive(Debug, PartialEq, Eq)]
pub enum RegistryQuery {
    /// No line gives the value.
    Missing,
    /// The value's text.
    Value(String),
    /// A line has a `REG_SZ` type column but not the text `REG_SZ` (see
    /// `RegLine::NoPosition`).
    NoPosition,
}

/// The first index at which `pat` occurs in `h`.
fn find_text(h: &Vec<char>, pat: &Vec<char>) -> (r: Option<usize>)
    ensures
        match r {
            Some(i) => first_occurrence(h@, pat@, i as int),
            None => !contains_text(h@, pat@),
        },
{
    let n = h.len();
    let m = pat.len();
    if m > n {
        proof {
            assert forall|i: int| !occurs_at(h@, pat@, i) by {}
        }
        return None;
    }
    let mut i: usize = 0;
    while i <= n - m
        invariant
            n == h@.len(),
            m == pat@.len(),
            m <= n,
            i <= n - m + 1,
            forall|j: int| 0 <= j < i ==> !occurs_at(h@, pat@, j),
        decreases n - m + 1 - i,
    {
        let mut k: usize = 0;
        while k < m && h[i + k] == pat[k]
            invariant
                n == h@.len(),
                m == pat@.len(),
                i + m <= n,
                k <= m,
                forall|t: int| 0 <= t < k ==> h@[i + t] == pat@[t],
            decreases m - k,
        {
            k = k + 1;
        }
        if k == m {
            proof {
                assert(h@.subrange(i as int, i + m) =~= pat@);
            }
            return Some(i);
        }
        proof {
            assert(!occurs_at(h@, pat@, i as int)) by {
                if occurs_at(h@, pat@, i as int) {
                    assert(h@.subrange(i as int, i + m)[k as int] == h@[i + k]);
                }
            }
        }
        i = i + 1;
    }
    proof {
        assert forall|j: int| !occurs_at(h@, pat@, j) by {
            if occurs_at(h@, pat@, j) {
                assert(0 <= j < i);
            }
        }
    }
    None
}

/// Whether `needle` occurs in `haystack` (as `str::contains`).
pub fn contains_str(haystack: &str, needle: &str) -> (r: bool)
    ensures
        r == contains_text(haystack@, needle@),
{
    find_text(&chars_of(haystack), &chars_of(needle)).is_some()
}

/// The pieces of `cs` between the given bounds.
pub open spec fn pieces(cs: Seq<char>, bs: Seq<(usize, usize)>) -> Seq<Seq<char>> {
    bs.map_values(|b: (usize, usize)| cs.subrange(b.0 as int, b.1 as int))
}

/// The bounds of the first `count` words of `cs` (fewer when it has fewer).
fn first_words(cs: &Vec<char>, count: usize) -> (r: Vec<(usize, usize)>)
    ensures
        r@.len() == if words_from(cs@, 0).len() < count {
            words_from(cs@, 0).len()
        } else {
            count as nat
        },
        forall|k: int| #![trigger r@[k]]
            0 <= k < r@.len() ==> r@[k].0 <= r@[k].1 <= cs@.len() && cs@.subrange(
                r@[k].0 as int,
                r@[k].1 as int,
            ) == words_from(cs@, 0)[k],
{
    let n = cs.len();
    let mut r: Vec<(usize, usize)> = Vec::new();
    let mut i: usize = 0;
    let ghost all = words_from(cs@, 0);
    proof {
        assert(pieces(cs@, r@) =~= Seq::<Seq<char>>::empty());
        assert(all =~= pieces(cs@, r@) + words_from(cs@, 0));
    }
    while i < n && r.len() < count
        invariant
            n == cs@.len(),
            i <= n,
            all == words_from(cs@, 0),
            r@.len() <= count,
            all == pieces(cs@, r@) + words_from(cs@, i as int),
            forall|k: int| 0 <= k < r@.len() ==> #[trigger] r@[k].0 <= r@[k].1 <= cs@.len(),
        decreases n - i,
    {
        if is_space_char(cs[i]) {
            i = i + 1;
        } else {
            let mut e = i;
            while e < n && !is_space_char(cs[e])
                invariant
                    i <= e <= n,
                    n == cs@.len(),
                    word_end(cs@, i as int) == word_end(cs@, e as int),
                decreases n - e,
            {
                e = e + 1;
            }
            proof {
                lemma_word_end(cs@, i as int);
            }
            let ghost before = r@;
            r.push((i, e));
            proof {
                assert(pieces(cs@, r@) =~= pieces(cs@, before).push(cs@.subrange(i as int, e as int)));
                assert(words_from(cs@, i as int) == seq![cs@.subrange(i as int, e as int)] + words_from(cs@, e as int));
                assert(all =~= pieces(cs@, r@) + words_from(cs@, e as int));
                assert(r@[r@.len() - 1] == (i, e));
                assert forall|k: int| 0 <= k < before.len() implies r@[k] == before[k] by {}
            }
            i = e;
        }
    }
    proof {
        if r@.len() < count {
            assert(words_from(cs@, n as int) =~= Seq::<Seq<char>>::empty());
            assert(all =~= pieces(cs@, r@));
        }
        assert forall|k: int| #![trigger r@[k]] 0 <= k < r@.len() implies r@[k].0 <= r@[k].1 <= cs@.len()
            && cs@.subrange(r@[k].0 as int, r@[k].1 as int) == words_from(cs@, 0)[k] by {
            assert(all[k] == pieces(cs@, r@)[k]);
        }
    }
    r
}

/// `s` with leading copies of `p` removed, for a non-empty `p`.
fn strip_leading_str(s: &Vec<char>, p: &Vec<char>) -> (r: usize)
    requires
        p@.len() > 0,
    ensures
        r <= s@.len(),
        s@.skip(r as int) == strip_leading(s@, p@),
{
    let mut i: usize = 0;
    proof {
        assert(s@.skip(0) =~= s@);
    }
    while p.len() <= s.len() - i && has_prefix_at(s, i, p)
        invariant
            i <= s@.len(),
            p@.len() > 0,
            strip_leading(s@, p@) == strip_leading(s@.skip(i as int), p@),
        decreases s@.len() - i,
    {
        proof {
            let t = s@.skip(i as int);
            assert(t.subrange(0, p@.len() as int) =~= s@.subrange(i as int, i + p@.len()));
            assert(t.skip(p@.len() as int) =~= s@.skip(i + p@.len()));
        }
        i = i + p.len();
    }
    proof {
        let t = s@.skip(i as int);
        if i + p@.len() <= s@.len() {
            assert(t.subrange(0, p@.len() as int) =~= s@.subrange(i as int, i + p@.len()));
        }
    }
    i
}

/// Whether `p` occurs in `s` at `i`.
fn has_prefix_at(s: &Vec<char>, i: usize, p: &Vec<char>) -> (r: bool)
    requires
        i + p@.len() <= s@.len(),
    ensures
        r == (s@.subrange(i as int, i + p@.len()) == p@),
{
    let n = s.len();
    let mut k: usize = 0;
    while k < p.len()
        invariant
            n == s@.len(),
            i + p@.len() <= s@.len(),
            k <= p@.len(),
            forall|t: int| 0 <= t < k ==> s@[i + t] == p@[t],
        decreases p@.len() - k,
    {
        if s[i + k] != p[k] {
            proof {
                assert(s@.subrange(i as int, i + p@.len())[k as int] != p@[k as int]);
            }
            return false;
        }
        k = k + 1;
    }
    assert(s@.subrange(i as int, i + p@.len()) =~= p@);
    true
}

impl WindowsPlatform {
    /// What one line of `reg query` output gives, given whether the lower-cased
    /// line mentions the lower-cased value name (see `reg_line_reading`).
    pub fn read_query_line(&self, line: &str, mentions_name: bool) -> (r: RegistryQuery)
        ensures
            match r {
                RegistryQuery::Missing => reg_line_reading(line@, mentions_name) is Next,
                RegistryQuery::Value(v) => reg_line_reading(line@, mentions_name) == RegLine::Found(
                    v@,
                ),
                RegistryQuery::NoPosition => reg_line_reading(line@, mentions_name) is NoPosition,
            },
    {
        if !mentions_name {
            return RegistryQuery::Missing;
        }
        let cs = chars_of(line);
        let parts = first_words(&cs, 3);
        if parts.len() < 3 {
            return RegistryQuery::Missing;
        }
        let (a1, b1) = parts[1];
        let (a2, b2) = parts[2];
        let p1 = string_of_range(&cs, a1, b1);
        if str_eq_ignore_ascii_case(p1.as_str(), "REG_SZ") {
            let pat = chars_of("REG_SZ");
            match find_text(&cs, &pat) {
                Some(i) => {
                    proof {
                        reveal_strlit("REG_SZ");
                        assert forall|j: int| first_occurrence(cs@, "REG_SZ"@, j) implies j == i by {
                            if j < i {
                            } else if j > i {
                                assert(!occurs_at(cs@, "REG_SZ"@, i as int));
                            }
                        }
                    }
                    let (ta, tb) = trim_range(&cs, i + 6, cs.len());
                    proof {
                        assert(cs@.subrange(i + 6, cs@.len() as int) =~= cs@.skip(i + 6));
                    }
                    RegistryQuery::Value(string_of_range(&cs, ta, tb))
                },
                None => {
                    proof {
                        assert forall|j: int| !first_occurrence(cs@, "REG_SZ"@, j) by {}
                    }
                    RegistryQuery::NoPosition
                },
            }
        } else if str_eq_ignore_ascii_case(p1.as_str(), "REG_DWORD") {
            let p2 = string_of_range(&cs, a2, b2);
            let p2c = chars_of(p2.as_str());
            let ox = chars_of("0x");
            proof {
                reveal_strlit("0x");
            }
            let k = strip_leading_str(&p2c, &ox);
            let hex = string_of_range(&p2c, k, p2c.len());
            proof {
                assert(p2c@.subrange(k as int, p2c@.len() as int) =~= p2c@.skip(k as int));
            }
            match parse_unsigned_str(hex.as_str(), 16, u32::MAX as u64) {
                Some(v) => RegistryQuery::Value(u64_to_string(v)),
                None => RegistryQuery::Missing,
            }
        } else {
            RegistryQuery::Missing
        }
    }

    /// Whether the output of `tasklist` shows a Steam process: its lower-cased
    /// text mentions `steam.exe`.
    pub fn lists_steam(&self, tasklist_output: &str) -> (r: bool)
        ensures
            r == contains_text(lowercase(tasklist_output@), "steam.exe"@),
    {
        let lower = to_lowercase(tasklist_output);
        contains_str(lower.as_str(), "steam.exe")
    }

    /// Reads the value `value_name` from the output of `reg query`.
    pub fn parse_registry_query(&self, stdout: &str, value_name: &str) -> (r: RegistryQuery)
        ensures
            match r {
                RegistryQuery::Missing => reg_lines(lines(stdout@), value_name@) is Next,
                RegistryQuery::Value(v) => reg_lines(lines(stdout@), value_name@) == RegLine::Found(
                    v@,
                ),
                RegistryQuery::NoPosition => reg_lines(lines(stdout@), value_name@) is NoPosition,
            },
    {
        let cs = chars_of(stdout);
        let bounds = line_bounds(&cs);
        let lname = to_lowercase(value_name);
        let ghost ls = lines(cs@);
        let mut k: usize = 0;
        proof {
            assert(ls.skip(0) =~= ls);
        }
        while k < bounds.len()
            invariant
                cs@ == stdout@,
                ls == lines(cs@),
                lname@ == lowercase(value_name@),
                bounds@.len() == ls.len(),
                k <= bounds@.len(),
                forall|j: int|
                    0 <= j < bounds@.len() ==> #[trigger] bounds@[j].0 <= bounds@[j].1 <= cs@.len()
                        && cs@.subrange(bounds@[j].0 as int, bounds@[j].1 as int) == ls[j],
                reg_lines(ls, value_name@) == reg_lines(ls.skip(k as int), value_name@),
            decreases bounds@.len() - k,
        {
            let (from, to) = bounds[k];
            let line = string_of_range(&cs, from, to);
            let lower = to_lowercase(line.as_str());
            let mentions_name = contains_str(lower.as_str(), lname.as_str());
            proof {
                assert(ls.skip(k as int)[0] == ls[k as int]);
                assert(ls.skip(k as int).drop_first() =~= ls.skip(k + 1));
            }
            match self.read_query_line(line.as_str(), mentions_name) {
                RegistryQuery::Missing => {},
                other => {
                    return other;
                },
            }
            k = k + 1;
        }
        proof {
            assert(ls.skip(bounds@.len() as int) =~= Seq::<Seq<char>>::empty());
        }
        RegistryQuery::Missing
    }
}

} // verus!
