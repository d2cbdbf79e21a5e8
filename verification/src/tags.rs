//! Tags: short names that stand for Steam IDs, kept one per line as `tag=id` in
//! `tags.txt`.
use vstd::prelude::*;
use vstd::string::StringExecFns;
use crate::accounts::{Account, AccountView, accounts_view};
use crate::strutil::{
    trim,
    trim_range,
    trim_str,
    lowercase,
    to_lowercase,
    alphanumeric,
    is_alphanumeric_char,
    lines,
    line_bounds,
    position_of,
    find_char,
    eq_ignore_ascii_case,
    str_eq_ignore_ascii_case,
    parse_unsigned,
    parse_unsigned_str,
    lemma_lines_push,
    lemma_trim_unpadded,
};
use crate::text::{is_space, chars_of, string_of, string_of_range, same_chars};

verus! {

/// Tags and the Steam IDs they stand for, each tag at most once
/// (`distinct_tags`, which `new`, `parse_tags`, `insert` and `remove` keep), in
/// the order they were first added.
#[derive(Debug, PartialEq, Eq)]
pub struct Tags {
    entries: Vec<(String, String)>,
}

impl View for Tags {
    type V = Seq<(Seq<char>, Seq<char>)>;

    closed spec fn view(&self) -> Seq<(Seq<char>, Seq<char>)> {
        self.entries@.map_values(|e: (String, String)| (e.0@, e.1@))
    }
}

/// No tag twice.
pub open spec fn distinct_tags(t: Seq<(Seq<char>, Seq<char>)>) -> bool {
    forall|i: int, j: int| 0 <= i < j < t.len() ==> #[trigger] t[i].0 != #[trigger] t[j].0
}

/// The Steam ID of the first entry for tag `k`.
pub open spec fn tag_lookup(t: Seq<(Seq<char>, Seq<char>)>, k: Seq<char>) -> Option<Seq<char>>
    decreases t.len(),
{
    if t.len() == 0 {
        None
    } else if t[0].0 == k {
        Some(t[0].1)
    } else {
        tag_lookup(t.drop_first(), k)
    }
}

/// `k` now stands for `v`: the first entry for `k` changed in place, or a new
/// entry at the end.
pub open spec fn tag_insert(t: Seq<(Seq<char>, Seq<char>)>, k: Seq<char>, v: Seq<char>) -> Seq<
    (Seq<char>, Seq<char>),
>
    decreases t.len(),
{
    if t.len() == 0 {
        seq![(k, v)]
    } else if t[0].0 == k {
        t.update(0, (k, v))
    } else {
        seq![t[0]] + tag_insert(t.drop_first(), k, v)
    }
}

/// Without the first entry for `k`.
pub open spec fn tag_remove(t: Seq<(Seq<char>, Seq<char>)>, k: Seq<char>) -> Seq<
    (Seq<char>, Seq<char>),
>
    decreases t.len(),
{
    if t.len() == 0 {
        t
    } else if t[0].0 == k {
        t.drop_first()
    } else {
        seq![t[0]] + tag_remove(t.drop_first(), k)
    }
}

proof fn lemma_tag_first(t: Seq<(Seq<char>, Seq<char>)>, k: Seq<char>, i: int, v: Seq<char>)
    requires
        0 <= i < t.len(),
        t[i].0 == k,
        forall|j: int| 0 <= j < i ==> #[trigger] t[j].0 != k,
    ensures
        tag_lookup(t, k) == Some(t[i].1),
        tag_insert(t, k, v) == t.update(i, (k, v)),
        tag_remove(t, k) == t.remove(i),
    decreases i,
{
    if i > 0 {
        assert forall|j: int| 0 <= j < i - 1 implies #[trigger] t.drop_first()[j].0 != k by {
            assert(t.drop_first()[j] == t[j + 1]);
        }
        lemma_tag_first(t.drop_first(), k, i - 1, v);
        assert(t.update(i, (k, v)) =~= seq![t[0]] + t.drop_first().update(i - 1, (k, v)));
        assert(t.remove(i) =~= seq![t[0]] + t.drop_first().remove(i - 1));
    } else {
        assert(t.remove(0) =~= t.drop_first());
    }
}

proof fn lemma_tag_absent(t: Seq<(Seq<char>, Seq<char>)>, k: Seq<char>, v: Seq<char>)
    requires
        forall|j: int| 0 <= j < t.len() ==> #[trigger] t[j].0 != k,
    ensures
        tag_lookup(t, k) is None,
        tag_insert(t, k, v) == t.push((k, v)),
        tag_remove(t, k) == t,
    decreases t.len(),
{
    if t.len() > 0 {
        assert forall|j: int| 0 <= j < t.drop_first().len() implies #[trigger] t.drop_first()[j].0
            != k by {
            assert(t.drop_first()[j] == t[j + 1]);
        }
        lemma_tag_absent(t.drop_first(), k, v);
        assert(t.push((k, v)) =~= seq![t[0]] + t.drop_first().push((k, v)));
        assert(t =~= seq![t[0]] + t.drop_first());
    } else {
        assert(t.push((k, v)) =~= seq![(k, v)]);
    }
}

/// Changing what a tag stands for keeps tags distinct.
pub proof fn lemma_tag_insert_distinct(t: Seq<(Seq<char>, Seq<char>)>, k: Seq<char>, v: Seq<char>)
    requires
        distinct_tags(t),
    ensures
        distinct_tags(tag_insert(t, k, v)),
        tag_lookup(tag_insert(t, k, v), k) == Some(v),
{
    if exists|i: int| 0 <= i < t.len() && t[i].0 == k {
        let i = choose|i: int| 0 <= i < t.len() && t[i].0 == k;
        assert forall|j: int| 0 <= j < i implies #[trigger] t[j].0 != k by {}
        lemma_tag_first(t, k, i, v);
        let r = t.update(i, (k, v));
        assert forall|j: int| 0 <= j < i implies #[trigger] r[j].0 != k by {}
        lemma_tag_first(r, k, i, v);
    } else {
        lemma_tag_absent(t, k, v);
        let r = t.push((k, v));
        assert forall|j: int| 0 <= j < t.len() implies #[trigger] r[j].0 != k by {
            assert(r[j] == t[j]);
        }
        lemma_tag_first(r, k, t.len() as int, v);
    }
}

impl Tags {
    /// No tags.
    pub fn new() -> (t: Tags)
        ensures
            t@ == Seq::<(Seq<char>, Seq<char>)>::empty(),
            distinct_tags(t@),
    {
        let t = Tags { entries: Vec::new() };
        assert(t@ =~= Seq::<(Seq<char>, Seq<char>)>::empty());
        t
    }

    /// Number of tags.
    pub fn len(&self) -> (n: usize)
        ensures
            n == self@.len(),
    {
        self.entries.len()
    }

    /// Whether there are no tags.
    pub fn is_empty(&self) -> (b: bool)
        ensures
            b == (self@.len() == 0),
    {
        self.entries.len() == 0
    }

    /// The `i`-th tag.
    pub fn tag_at(&self, i: usize) -> (s: &String)
        requires
            i < self@.len(),
        ensures
            s@ == self@[i as int].0,
    {
        &self.entries[i].0
    }

    /// The Steam ID of the `i`-th tag.
    pub fn id_at(&self, i: usize) -> (s: &String)
        requires
            i < self@.len(),
        ensures
            s@ == self@[i as int].1,
    {
        &self.entries[i].1
    }

    fn find(&self, tag: &str) -> (r: Option<usize>)
        ensures
            match r {
                Some(i) => i < self@.len() && self@[i as int].0 == tag@ && forall|j: int|
                    0 <= j < i ==> #[trigger] self@[j].0 != tag@,
                None => forall|j: int| 0 <= j < self@.len() ==> #[trigger] self@[j].0 != tag@,
            },
    {
        let mut i: usize = 0;
        while i < self.entries.len()
            invariant
                i <= self@.len(),
                self@.len() == self.entries@.len(),
                forall|j: int| 0 <= j < i ==> #[trigger] self@[j].0 != tag@,
            decreases self@.len() - i,
        {
            if same_chars(self.entries[i].0.as_str(), tag) {
                return Some(i);
            }
            i = i + 1;
        }
        None
    }

    /// The Steam ID that `tag` stands for.
    pub fn get(&self, tag: &str) -> (r: Option<&String>)
        ensures
            match r {
                Some(s) => tag_lookup(self@, tag@) == Some(s@),
                None => tag_lookup(self@, tag@) is None,
            },
    {
        match self.find(tag) {
            Some(i) => {
                proof {
                    lemma_tag_first(self@, tag@, i as int, Seq::empty());
                }
                Some(&self.entries[i].1)
            },
            None => {
                proof {
                    lemma_tag_absent(self@, tag@, Seq::empty());
                }
                None
            },
        }
    }

    /// Makes `tag` stand for `id`.
    pub fn insert(&mut self, tag: String, id: String)
        ensures
            final(self)@ == tag_insert(old(self)@, tag@, id@),
            distinct_tags(old(self)@) ==> distinct_tags(final(self)@),
    {
        proof {
            if distinct_tags(self@) {
                lemma_tag_insert_distinct(self@, tag@, id@);
            }
        }
        let ghost t = self@;
        let ghost kv = (tag@, id@);
        match self.find(tag.as_str()) {
            Some(i) => {
                proof {
                    lemma_tag_first(t, tag@, i as int, id@);
                }
                self.entries.set(i, (tag, id));
                assert(self@ =~= t.update(i as int, kv));
            },
            None => {
                proof {
                    lemma_tag_absent(t, tag@, id@);
                }
                self.entries.push((tag, id));
                assert(self@ =~= t.push(kv));
            },
        }
    }

    /// Removes `tag`; whether it was there.
    pub fn remove(&mut self, tag: &str) -> (found: bool)
        ensures
            found == tag_lookup(old(self)@, tag@) is Some,
            final(self)@ == tag_remove(old(self)@, tag@),
            distinct_tags(old(self)@) ==> distinct_tags(final(self)@),
    {
        proof {
            if distinct_tags(self@) {
                lemma_tag_remove_distinct(self@, tag@);
            }
        }
        let ghost t = self@;
        match self.find(tag) {
            Some(i) => {
                proof {
                    lemma_tag_first(t, tag@, i as int, Seq::empty());
                }
                self.entries.remove(i);
                assert(self@ =~= t.remove(i as int));
                true
            },
            None => {
                proof {
                    lemma_tag_absent(t, tag@, Seq::empty());
                }
                false
            },
        }
    }
}

/// Removing a tag from distinct tags leaves them distinct, and the tag then reads
/// as absent.
pub proof fn lemma_tag_remove_distinct(t: Seq<(Seq<char>, Seq<char>)>, k: Seq<char>)
    requires
        distinct_tags(t),
    ensures
        distinct_tags(tag_remove(t, k)),
        tag_lookup(tag_remove(t, k), k) is None,
{
    if exists|i: int| 0 <= i < t.len() && t[i].0 == k {
        let i = choose|i: int| 0 <= i < t.len() && t[i].0 == k;
        assert forall|j: int| 0 <= j < i implies #[trigger] t[j].0 != k by {}
        lemma_tag_first(t, k, i, Seq::empty());
        let r = t.remove(i);
        assert forall|a: int, b: int| 0 <= a < b < r.len() implies #[trigger] r[a].0
            != #[trigger] r[b].0 by {
            let a2 = if a < i { a } else { a + 1 };
            let b2 = if b < i { b } else { b + 1 };
            assert(r[a] == t[a2] && r[b] == t[b2]);
        }
        assert forall|j: int| 0 <= j < r.len() implies #[trigger] r[j].0 != k by {
            let j2 = if j < i { j } else { j + 1 };
            assert(r[j] == t[j2]);
        }
        lemma_tag_absent(r, k, Seq::empty());
    } else {
        lemma_tag_absent(t, k, Seq::empty());
    }
}

/// What one line of `tags.txt` does to the tags: a trimmed line that is empty or
/// starts with `#` is skipped, as is one without `=`; otherwise the text before
/// the first `=`, trimmed and lower-cased, comes to stand for the trimmed text
/// after it.
pub open spec fn apply_tag_line(t: Seq<(Seq<char>, Seq<char>)>, line: Seq<char>) -> Seq<
    (Seq<char>, Seq<char>),
> {
    let l = trim(line);
    if l.len() == 0 || l[0] == '#' {
        t
    } else if exists|p: int| find_char(l, '=', p) {
        let p = choose|p: int| find_char(l, '=', p);
        tag_insert(t, lowercase(trim(l.subrange(0, p))), trim(l.subrange(p + 1, l.len() as int)))
    } else {
        t
    }
}

/// The tags that the lines `ls` describe, read in order.
pub open spec fn tags_from_lines(ls: Seq<Seq<char>>) -> Seq<(Seq<char>, Seq<char>)>
    decreases ls.len(),
{
    if ls.len() == 0 {
        Seq::empty()
    } else {
        apply_tag_line(tags_from_lines(ls.drop_last()), ls.last())
    }
}

/// The tags that the text of `tags.txt` describes.
pub open spec fn tags_in_text(content: Seq<char>) -> Seq<(Seq<char>, Seq<char>)> {
    tags_from_lines(lines(content))
}

proof fn lemma_find_char_unique(s: Seq<char>, c: char, p: int, q: int)
    requires
        find_char(s, c, p),
        find_char(s, c, q),
    ensures
        p == q,
{
    if p < q {
        assert(s[p] != c);
    } else if q < p {
        assert(s[q] != c);
    }
}

/// Reads the tags from the text of `tags.txt`.
pub fn parse_tags(content: &str) -> (r: Tags)
    ensures
        r@ == tags_in_text(content@),
        distinct_tags(r@),
{
    let cs = chars_of(content);
    let bounds = line_bounds(&cs);
    let mut tags = Tags::new();
    let mut k: usize = 0;
    let ghost ls = lines(cs@);
    while k < bounds.len()
        invariant
            cs@ == content@,
            ls == lines(cs@),
            bounds@.len() == ls.len(),
            k <= bounds@.len(),
            forall|j: int|
                0 <= j < bounds@.len() ==> #[trigger] bounds@[j].0 <= bounds@[j].1 <= cs@.len()
                    && cs@.subrange(bounds@[j].0 as int, bounds@[j].1 as int) == ls[j],
            tags@ == tags_from_lines(ls.take(k as int)),
            distinct_tags(tags@),
        decreases bounds@.len() - k,
    {
        let (from, to) = bounds[k];
        let ghost line = ls[k as int];
        let (a, b) = trim_range(&cs, from, to);
        let ghost l = cs@.subrange(a as int, b as int);
        proof {
            assert(ls.take(k + 1).drop_last() =~= ls.take(k as int));
            assert(ls.take(k + 1).last() == line);
            assert(l == trim(line));
        }
        if a < b && cs[a] != '#' {
            let p = position_of(&cs, '=', a, b);
            if p < b {
                proof {
                    assert(find_char(l, '=', p - a)) by {
                        assert forall|j: int| 0 <= j < p - a implies #[trigger] l[j] != '=' by {
                            assert(l[j] == cs@[a + j]);
                        }
                    }
                    assert forall|q: int| find_char(l, '=', q) implies q == p - a by {
                        lemma_find_char_unique(l, '=', q, p - a);
                    }
                }
                let (ta, tb) = trim_range(&cs, a, p);
                let (va, vb) = trim_range(&cs, p + 1, b);
                let raw_tag = string_of_range(&cs, ta, tb);
                let tag = to_lowercase(raw_tag.as_str());
                let id = string_of_range(&cs, va, vb);
                proof {
                    assert(cs@.subrange(a as int, p as int) =~= l.subrange(0, p - a));
                    assert(cs@.subrange(p + 1, b as int) =~= l.subrange(p - a + 1, l.len() as int));
                    lemma_tag_insert_distinct(tags@, tag@, id@);
                }
                tags.insert(tag, id);
            } else {
                proof {
                    assert forall|q: int| !find_char(l, '=', q) by {
                        if find_char(l, '=', q) {
                            assert(l[q] == cs@[a + q]);
                        }
                    }
                }
            }
        }
        k = k + 1;
    }
    proof {
        assert(ls.take(bounds@.len() as int) =~= ls);
    }
    tags
}

/// The text of one tag line: `tag=id` and a newline.
pub open spec fn tag_line(e: (Seq<char>, Seq<char>)) -> Seq<char> {
    e.0 + "="@ + e.1 + "\n"@
}

/// The text of the tag lines of `t`, in order.
pub open spec fn tags_text_of(t: Seq<(Seq<char>, Seq<char>)>) -> Seq<char>
    decreases t.len(),
{
    if t.len() == 0 {
        Seq::empty()
    } else {
        tags_text_of(t.drop_last()) + tag_line(t.last())
    }
}

/// A tag entry that reads back as it was written: a tag that is empty or starts
/// with neither white space nor `#` and does not end with white space, and holds
/// no `=`; a Steam ID that is empty or starts and ends without white space; no
/// line break in either.
pub open spec fn clean_entry(e: (Seq<char>, Seq<char>)) -> bool {
    &&& e.0.len() == 0 || (!is_space(e.0[0]) && e.0[0] != '#' && !is_space(e.0.last()))
    &&& forall|j: int| 0 <= j < e.0.len() ==> #[trigger] e.0[j] != '=' && e.0[j] != '\n'
    &&& e.1.len() == 0 || (!is_space(e.1[0]) && !is_space(e.1.last()))
    &&& forall|j: int| 0 <= j < e.1.len() ==> #[trigger] e.1[j] != '\n'
}

proof fn lemma_tags_text_end(t: Seq<(Seq<char>, Seq<char>)>)
    ensures
        tags_text_of(t).len() == 0 || tags_text_of(t).last() == '\n',
{
    if t.len() > 0 {
        reveal_strlit("\n");
        let x = tags_text_of(t.drop_last()) + tag_line(t.last());
        assert(x.last() == tag_line(t.last()).last());
    }
}

/// Tags written out as text read back as the same tags: for distinct tags whose
/// entries read back as written (`clean_entry`), when every tag is already in
/// lower case, reading `tags_text_of(t)` gives `t`.
pub proof fn lemma_tags_text_roundtrip(t: Seq<(Seq<char>, Seq<char>)>)
    requires
        distinct_tags(t),
        forall|i: int| 0 <= i < t.len() ==> clean_entry(#[trigger] t[i]),
    ensures
        (forall|i: int| 0 <= i < t.len() ==> lowercase(#[trigger] t[i].0) == t[i].0)
            ==> tags_in_text(tags_text_of(t)) == t,
    decreases t.len(),
{
    reveal_strlit("=");
    reveal_strlit("\n");
    if t.len() == 0 {
        assert(lines(Seq::<char>::empty()) =~= Seq::<Seq<char>>::empty());
    } else if forall|i: int| 0 <= i < t.len() ==> lowercase(#[trigger] t[i].0) == t[i].0 {
        let p = t.drop_last();
        assert forall|i: int, j: int| 0 <= i < j < p.len() implies #[trigger] p[i].0
            != #[trigger] p[j].0 by {
            assert(p[i] == t[i] && p[j] == t[j]);
        }
        assert forall|i: int| 0 <= i < p.len() implies clean_entry(#[trigger] p[i]) by {
            assert(p[i] == t[i]);
        }
        assert forall|i: int| 0 <= i < p.len() implies lowercase(#[trigger] p[i].0) == p[i].0 by {
            assert(p[i] == t[i]);
        }
        lemma_tags_text_roundtrip(p);
        let e = t.last();
        assert(clean_entry(t[t.len() - 1]));
        let k = e.0;
        let v = e.1;
        let line = k + "="@ + v;
        let before = tags_text_of(p);
        lemma_tags_text_end(p);
        assert(tags_text_of(t) =~= before + line + seq!['\n']);
        assert forall|j: int| 0 <= j < line.len() implies #[trigger] line[j] != '\n' by {
            if j < k.len() {
                assert(line[j] == k[j]);
            } else if j > k.len() {
                assert(line[j] == v[j - k.len() - 1]);
            }
        }
        assert(line.last() != '\r') by {
            if v.len() > 0 {
                assert(line.last() == v.last());
            }
        }
        lemma_lines_push(before, line);
        let ls = lines(tags_text_of(t));
        assert(ls.drop_last() =~= lines(before));
        assert(tags_in_text(tags_text_of(t)) == apply_tag_line(p, line));
        if k.len() > 0 {
            assert(line[0] == k[0]);
        } else {
            assert(line[0] == '=');
        }
        assert(line.last() == v.last() || v.len() == 0);
        lemma_trim_unpadded(line);
        let q = k.len() as int;
        assert(find_char(line, '=', q)) by {
            assert forall|j: int| 0 <= j < q implies #[trigger] line[j] != '=' by {
                assert(line[j] == k[j]);
            }
        }
        assert forall|r: int| find_char(line, '=', r) implies r == q by {
            lemma_find_char_unique(line, '=', r, q);
        }
        assert(line.subrange(0, q) =~= k);
        assert(line.subrange(q + 1, line.len() as int) =~= v);
        lemma_trim_unpadded(k);
        lemma_trim_unpadded(v);
        assert(lowercase(t[t.len() - 1].0) == t[t.len() - 1].0);
        assert(apply_tag_line(p, line) == tag_insert(p, k, v));
        assert forall|j: int| 0 <= j < p.len() implies #[trigger] p[j].0 != k by {
            assert(p[j] == t[j]);
        }
        lemma_tag_absent(p, k, v);
        assert(p.push((k, v)) =~= t);
    }
}

proof fn lemma_tag_insert_elements(t: Seq<(Seq<char>, Seq<char>)>, k: Seq<char>, v: Seq<char>)
    ensures
        forall|j: int|
            0 <= j < tag_insert(t, k, v).len() ==> #[trigger] tag_insert(t, k, v)[j] == (k, v)
                || exists|l: int| 0 <= l < t.len() && t[l] == tag_insert(t, k, v)[j],
    decreases t.len(),
{
    let r = tag_insert(t, k, v);
    if t.len() > 0 && t[0].0 != k {
        lemma_tag_insert_elements(t.drop_first(), k, v);
        let rr = tag_insert(t.drop_first(), k, v);
        assert forall|j: int| 0 <= j < r.len() implies #[trigger] r[j] == (k, v) || exists|l: int|
            0 <= l < t.len() && t[l] == r[j] by {
            if j == 0 {
                assert(t[0] == r[0]);
            } else {
                assert(r[j] == rr[j - 1]);
                if rr[j - 1] != (k, v) {
                    let l = choose|l: int|
                        0 <= l < t.drop_first().len() && t.drop_first()[l] == rr[j - 1];
                    assert(t[l + 1] == r[j]);
                }
            }
        }
    } else if t.len() > 0 {
        assert forall|j: int| 0 <= j < r.len() implies #[trigger] r[j] == (k, v) || exists|l: int|
            0 <= l < t.len() && t[l] == r[j] by {
            if j > 0 {
                assert(t[j] == r[j]);
            }
        }
    }
}

/// Tagging and then saving and loading the tags gives the tags with the new tag
/// standing for its Steam ID, every other tag kept: for distinct tags whose
/// entries, and the new one, read back as written, when every tag is in lower
/// case.
pub proof fn lemma_tag_then_reload(
    t: Seq<(Seq<char>, Seq<char>)>,
    k: Seq<char>,
    v: Seq<char>,
    other: Seq<char>,
)
    requires
        distinct_tags(t),
        forall|i: int| 0 <= i < t.len() ==> clean_entry(#[trigger] t[i]),
        clean_entry((k, v)),
    ensures
        (forall|i: int|
            0 <= i < tag_insert(t, k, v).len() ==> lowercase(#[trigger] tag_insert(t, k, v)[i].0)
                == tag_insert(t, k, v)[i].0) ==> ({
            let back = tags_in_text(tags_text_of(tag_insert(t, k, v)));
            &&& back == tag_insert(t, k, v)
            &&& tag_lookup(back, k) == Some(v)
            &&& other != k ==> tag_lookup(back, other) == tag_lookup(t, other)
        }),
{
    let r = tag_insert(t, k, v);
    lemma_tag_insert_distinct(t, k, v);
    lemma_tag_insert_elements(t, k, v);
    assert forall|i: int| 0 <= i < r.len() implies clean_entry(#[trigger] r[i]) by {
        if r[i] != (k, v) {
            let l = choose|l: int| 0 <= l < t.len() && t[l] == r[i];
            assert(clean_entry(t[l]));
        }
    }
    lemma_tags_text_roundtrip(r);
    lemma_tag_lookup_insert_other(t, k, v, other);
}

proof fn lemma_tag_lookup_insert_other(
    t: Seq<(Seq<char>, Seq<char>)>,
    k: Seq<char>,
    v: Seq<char>,
    other: Seq<char>,
)
    ensures
        other != k ==> tag_lookup(tag_insert(t, k, v), other) == tag_lookup(t, other),
    decreases t.len(),
{
    if t.len() > 0 {
        if t[0].0 == k {
            assert(tag_insert(t, k, v).drop_first() =~= t.drop_first());
        } else {
            lemma_tag_lookup_insert_other(t.drop_first(), k, v, other);
            assert((seq![t[0]] + tag_insert(t.drop_first(), k, v)).drop_first() =~= tag_insert(
                t.drop_first(),
                k,
                v,
            ));
        }
    } else {
        assert(tag_insert(t, k, v).drop_first() =~= t);
    }
}

/// The text of `tags.txt` for the given tags.
pub fn tags_text(tags: &Tags) -> (r: String)
    ensures
        r@ == tags_text_of(tags@),
{
    let mut out = String::new();
    let mut i: usize = 0;
    while i < tags.len()
        invariant
            i <= tags@.len(),
            out@ == tags_text_of(tags@.take(i as int)),
        decreases tags@.len() - i,
    {
        proof {
            assert(tags@.take(i + 1).drop_last() =~= tags@.take(i as int));
        }
        out.append(tags.tag_at(i).as_str());
        out.append("=");
        out.append(tags.id_at(i).as_str());
        out.append("\n");
        i = i + 1;
    }
    proof {
        assert(tags@.take(tags@.len() as int) =~= tags@);
    }
    out
}

/// The command words that cannot be tags.
pub open spec fn reserved_words() -> Seq<Seq<char>> {
    seq!["stop"@, "path"@, "skip-offline"@, "start"@, "tag"@, "untag"@, "tags"@, "help"@]
}

/// The verdict on a tag name `t` (already trimmed and lower-cased), given
/// whether all its characters are alphanumeric: refused when empty, when not all
/// alphanumeric, or when a command word; else accepted as it is.
pub open spec fn tag_name_verdict(t: Seq<char>, all_alphanumeric: bool) -> Result<Seq<char>, Seq<char>> {
    if t.len() == 0 {
        Err("tag name cannot be empty"@)
    } else if !all_alphanumeric {
        Err("tag name must be alphanumeric"@)
    } else if reserved_words().contains(t) {
        Err("'"@ + t + "' is a reserved command and cannot be used as a tag"@)
    } else {
        Ok(t)
    }
}

/// What a tag name given on the command line becomes: trimmed and lower-cased,
/// then judged by `tag_name_verdict`.
pub open spec fn normalized_tag_name(raw: Seq<char>) -> Result<Seq<char>, Seq<char>> {
    let t = lowercase(trim(raw));
    tag_name_verdict(t, forall|i: int| 0 <= i < t.len() ==> alphanumeric(#[trigger] t[i]))
}

/// The tag-name rules: an empty name is refused as empty; a non-empty name not
/// all alphanumeric is refused as such; a non-empty, all-alphanumeric name is
/// refused as reserved exactly when it is one of the command words `stop`,
/// `path`, `skip-offline`, `start`, `tag`, `untag`, `tags`, `help`, and is
/// otherwise accepted unchanged.
pub proof fn lemma_tag_name_rules(t: Seq<char>, all_alphanumeric: bool)
    ensures
        t.len() == 0 ==> tag_name_verdict(t, all_alphanumeric) == Err::<Seq<char>, Seq<char>>(
            "tag name cannot be empty"@,
        ),
        t.len() > 0 && !all_alphanumeric ==> tag_name_verdict(t, all_alphanumeric) == Err::<
            Seq<char>,
            Seq<char>,
        >("tag name must be alphanumeric"@),
        t.len() > 0 && all_alphanumeric && (t == "stop"@ || t == "path"@ || t == "skip-offline"@
            || t == "start"@ || t == "tag"@ || t == "untag"@ || t == "tags"@ || t == "help"@)
            ==> tag_name_verdict(t, all_alphanumeric) == Err::<Seq<char>, Seq<char>>(
            "'"@ + t + "' is a reserved command and cannot be used as a tag"@,
        ),
        t.len() > 0 && all_alphanumeric && !(t == "stop"@ || t == "path"@ || t == "skip-offline"@
            || t == "start"@ || t == "tag"@ || t == "untag"@ || t == "tags"@ || t == "help"@)
            ==> tag_name_verdict(t, all_alphanumeric) == Ok::<Seq<char>, Seq<char>>(t),
{
    let w = reserved_words();
    assert(w[0] == "stop"@ && w[1] == "path"@ && w[2] == "skip-offline"@ && w[3] == "start"@);
    assert(w[4] == "tag"@ && w[5] == "untag"@ && w[6] == "tags"@ && w[7] == "help"@);
    assert(w.len() == 8);
    if w.contains(t) {
        let j = choose|j: int| 0 <= j < w.len() && w[j] == t;
        assert(j == 0 || j == 1 || j == 2 || j == 3 || j == 4 || j == 5 || j == 6 || j == 7);
    }
    if t == "stop"@ {
        assert(w[0] == t);
    } else if t == "path"@ {
        assert(w[1] == t);
    } else if t == "skip-offline"@ {
        assert(w[2] == t);
    } else if t == "start"@ {
        assert(w[3] == t);
    } else if t == "tag"@ {
        assert(w[4] == t);
    } else if t == "untag"@ {
        assert(w[5] == t);
    } else if t == "tags"@ {
        assert(w[6] == t);
    } else if t == "help"@ {
        assert(w[7] == t);
    }
}

/// Whether every character of `s` is alphanumeric.
fn is_all_alphanumeric(s: &str) -> (r: bool)
    ensures
        r == forall|i: int| 0 <= i < s@.len() ==> alphanumeric(#[trigger] s@[i]),
{
    let cs = chars_of(s);
    let mut i: usize = 0;
    while i < cs.len()
        invariant
            cs@ == s@,
            i <= cs@.len(),
            forall|j: int| 0 <= j < i ==> alphanumeric(#[trigger] cs@[j]),
        decreases cs@.len() - i,
    {
        if !is_alphanumeric_char(cs[i]) {
            assert(!alphanumeric(s@[i as int]));
            return false;
        }
        i = i + 1;
    }
    true
}

/// Judges a tag name that is already trimmed and lower-cased (see
/// `tag_name_verdict`).
pub fn check_tag_name(t: &str, all_alphanumeric: bool) -> (r: Result<String, String>)
    ensures
        match r {
            Ok(n) => tag_name_verdict(t@, all_alphanumeric) == Ok::<Seq<char>, Seq<char>>(n@),
            Err(e) => tag_name_verdict(t@, all_alphanumeric) == Err::<Seq<char>, Seq<char>>(e@),
        },
{
    if t.unicode_len() == 0 {
        return Err(String::from_str("tag name cannot be empty"));
    }
    if !all_alphanumeric {
        return Err(String::from_str("tag name must be alphanumeric"));
    }
    let words = ["stop", "path", "skip-offline", "start", "tag", "untag", "tags", "help"];
    let mut w: usize = 0;
    proof {
        reveal_strlit("stop");
    }
    while w < 8
        invariant
            w <= 8,
            t@.len() > 0,
            all_alphanumeric,
            words@.len() == 8,
            forall|j: int| 0 <= j < 8 ==> #[trigger] words@[j]@ == reserved_words()[j],
            forall|j: int| 0 <= j < w ==> #[trigger] reserved_words()[j] != t@,
        decreases 8 - w,
    {
        if same_chars(words[w], t) {
            let mut e = String::from_str("'");
            e.append(t);
            e.append("' is a reserved command and cannot be used as a tag");
            proof {
                assert(reserved_words()[w as int] == t@);
            }
            return Err(e);
        }
        w = w + 1;
    }
    proof {
        assert(!reserved_words().contains(t@)) by {
            if reserved_words().contains(t@) {
                let j = choose|j: int| 0 <= j < reserved_words().len() && reserved_words()[j] == t@;
                assert(reserved_words()[j] != t@);
            }
        }
    }
    Ok(string_of(t))
}

/// Trims, lower-cases and checks a tag name (see `normalized_tag_name`).
pub fn normalize_tag_name(raw: &str) -> (r: Result<String, String>)
    ensures
        match r {
            Ok(t) => normalized_tag_name(raw@) == Ok::<Seq<char>, Seq<char>>(t@),
            Err(e) => normalized_tag_name(raw@) == Err::<Seq<char>, Seq<char>>(e@),
        },
{
    let trimmed = trim_str(raw);
    let t = to_lowercase(trimmed.as_str());
    let alnum = is_all_alphanumeric(t.as_str());
    check_tag_name(t.as_str(), alnum)
}

/// The message for a tag that is not there.
pub open spec fn msg_tag_not_found(t: Seq<char>) -> Seq<char> {
    "tag '"@ + t + "' not found"@
}

/// Removes the tag named by `raw` (trimmed, lower-cased); gives that name, or the
/// message when no such tag exists.
pub fn untag(tags: &mut Tags, raw: &str) -> (r: Result<String, String>)
    ensures
        ({
            let t = lowercase(trim(raw@));
            &&& final(tags)@ == tag_remove(old(tags)@, t)
            &&& match r {
                Ok(name) => name@ == t && tag_lookup(old(tags)@, t) is Some,
                Err(e) => e@ == msg_tag_not_found(t) && tag_lookup(old(tags)@, t) is None,
            }
        }),
{
    let trimmed = trim_str(raw);
    let t = to_lowercase(trimmed.as_str());
    if tags.remove(t.as_str()) {
        Ok(t)
    } else {
        let mut e = String::from_str("tag '");
        e.append(t.as_str());
        e.append("' not found");
        Err(e)
    }
}

/// Whether `ident` names account `a`: its login name or display name up to ASCII
/// case, or its Steam ID exactly.
pub open spec fn names_account(a: AccountView, ident: Seq<char>) -> bool {
    eq_ignore_ascii_case(a.username, ident) || a.steam_id == ident || eq_ignore_ascii_case(
        a.display_name,
        ident,
    )
}

/// The account that `ident` picks from `accs`: a position in the list counted
/// from 1, else the first account it names.
pub open spec fn picked_account(accs: Seq<AccountView>, ident: Seq<char>) -> Result<int, Seq<char>> {
    if accs.len() == 0 {
        Err("no login profiles found. login to steam at least once first"@)
    } else if parse_unsigned(ident, 10, usize::MAX as nat) matches Some(n) && 1 <= n <= accs.len() {
        Ok(parse_unsigned(ident, 10, usize::MAX as nat).unwrap() - 1)
    } else if exists|i: int| 0 <= i < accs.len() && names_account(accs[i], ident) {
        Ok(choose|i: int|
            0 <= i < accs.len() && names_account(accs[i], ident) && forall|j: int|
                0 <= j < i ==> !names_account(#[trigger] accs[j], ident))
    } else {
        Err("account not found matching '"@ + ident + "'"@)
    }
}

/// Finds the account that `ident` refers to (see `picked_account`).
pub fn pick_account(accounts: &Vec<Account>, ident: &str) -> (r: Result<usize, String>)
    ensures
        match r {
            Ok(i) => picked_account(accounts_view(accounts@), ident@) == Ok::<int, Seq<char>>(
                i as int,
            ),
            Err(e) => picked_account(accounts_view(accounts@), ident@) == Err::<int, Seq<char>>(
                e@,
            ),
        },
{
    let ghost accs = accounts_view(accounts@);
    if accounts.len() == 0 {
        return Err(String::from_str("no login profiles found. login to steam at least once first"));
    }
    match parse_unsigned_str(ident, 10, usize::MAX as u64) {
        Some(n) => {
            if 1 <= n && n <= accounts.len() as u64 {
                return Ok((n - 1) as usize);
            }
        },
        None => {},
    }
    let mut i: usize = 0;
    while i < accounts.len()
        invariant
            accs == accounts_view(accounts@),
            accs.len() > 0,
            !(parse_unsigned(ident@, 10, usize::MAX as nat) matches Some(n) && 1 <= n <= accs.len()),
            i <= accounts@.len(),
            forall|j: int| 0 <= j < i ==> !names_account(#[trigger] accs[j], ident@),
        decreases accounts@.len() - i,
    {
        let a = &accounts[i];
        if str_eq_ignore_ascii_case(a.username.as_str(), ident) || same_chars(
            a.steam_id.as_str(),
            ident,
        ) || str_eq_ignore_ascii_case(a.display_name.as_str(), ident) {
            proof {
                assert(accs[i as int] == a@);
                assert(names_account(accs[i as int], ident@));
                let c = choose|c: int|
                    0 <= c < accs.len() && names_account(accs[c], ident@) && forall|j: int|
                        0 <= j < c ==> !names_account(#[trigger] accs[j], ident@);
                if c < i {
                } else if c > i {
                    assert(!names_account(accs[i as int], ident@));
                }
            }
            return Ok(i);
        }
        proof {
            assert(accs[i as int] == a@);
        }
        i = i + 1;
    }
    let mut e = String::from_str("account not found matching '");
    e.append(ident);
    e.append("'");
    Err(e)
}

/// The Steam ID that the tag `tag_name` (lower-cased) stands for.
pub open spec fn tag_target_of(tags: Seq<(Seq<char>, Seq<char>)>, tag_name: Seq<char>) -> Result<
    Seq<char>,
    Seq<char>,
> {
    match tag_lookup(tags, lowercase(tag_name)) {
        Some(id) => Ok(id),
        None => Err("no tag or command matches '"@ + tag_name + "'. type 'sswitch help' to see usage"@),
    }
}

/// Looks up the Steam ID behind a tag (see `tag_target_of`).
pub fn tag_target(tags: &Tags, tag_name: &str) -> (r: Result<String, String>)
    ensures
        match r {
            Ok(id) => tag_target_of(tags@, tag_name@) == Ok::<Seq<char>, Seq<char>>(id@),
            Err(e) => tag_target_of(tags@, tag_name@) == Err::<Seq<char>, Seq<char>>(e@),
        },
{
    let t = to_lowercase(tag_name);
    match tags.get(t.as_str()) {
        Some(id) => Ok(id.clone()),
        None => {
            let mut e = String::from_str("no tag or command matches '");
            e.append(tag_name);
            e.append("'. type 'sswitch help' to see usage");
            Err(e)
        },
    }
}

/// The position of the first account with Steam ID `id`.
pub open spec fn account_with_id(accs: Seq<AccountView>, id: Seq<char>, i: int) -> bool {
    &&& 0 <= i < accs.len()
    &&& accs[i].steam_id == id
    &&& forall|j: int| 0 <= j < i ==> #[trigger] accs[j].steam_id != id
}

/// The account that switching by tag `tag_name` goes to.
pub open spec fn tag_switch_target(
    tags: Seq<(Seq<char>, Seq<char>)>,
    tag_name: Seq<char>,
    accs: Seq<AccountView>,
) -> Result<int, Seq<char>> {
    match tag_target_of(tags, tag_name) {
        Err(e) => Err(e),
        Ok(id) => if exists|i: int| account_with_id(accs, id, i) {
            Ok(choose|i: int| account_with_id(accs, id, i))
        } else {
            Err(
                "account with SteamID "@ + id + " associated with tag '"@ + tag_name
                    + "' is not found in loginusers.vdf"@,
            )
        },
    }
}

/// The account to switch to for tag `tag_name`: the first account with the Steam
/// ID the tag stands for (see `tag_switch_target`).
pub fn handle_tag_switch(tags: &Tags, tag_name: &str, accounts: &Vec<Account>) -> (r: Result<
    usize,
    String,
>)
    ensures
        match r {
            Ok(i) => tag_switch_target(tags@, tag_name@, accounts_view(accounts@)) == Ok::<
                int,
                Seq<char>,
            >(i as int),
            Err(e) => tag_switch_target(tags@, tag_name@, accounts_view(accounts@)) == Err::<
                int,
                Seq<char>,
            >(e@),
        },
{
    let ghost accs = accounts_view(accounts@);
    let id = tag_target(tags, tag_name)?;
    let mut i: usize = 0;
    while i < accounts.len()
        invariant
            accs == accounts_view(accounts@),
            tag_target_of(tags@, tag_name@) == Ok::<Seq<char>, Seq<char>>(id@),
            i <= accounts@.len(),
            forall|j: int| 0 <= j < i ==> #[trigger] accs[j].steam_id != id@,
        decreases accounts@.len() - i,
    {
        if accounts[i].steam_id == id {
            proof {
                assert(account_with_id(accs, id@, i as int));
                assert forall|c: int| account_with_id(accs, id@, c) implies c == i by {
                    if c < i {
                    } else if c > i {
                        assert(accs[i as int].steam_id != id@);
                    }
                }
            }
            return Ok(i);
        }
        i = i + 1;
    }
    let mut e = String::from_str("account with SteamID ");
    e.append(id.as_str());
    e.append(" associated with tag '");
    e.append(tag_name);
    e.append("' is not found in loginusers.vdf");
    Err(e)
}

} // verus!
