//! Reading back written text: `parse(stringify(m))` gives `m` back for every
//! well-formed map whose keys and strings hold no newline, carriage return or tab
//! (those three are written as `\n`, `\r`, `\t`, which read back as the letters).
use vstd::prelude::*;
use crate::text::{is_space, key_lt};
use crate::value::{VdfTree, insert_entry, entries_wf, keys_sorted, lemma_values_wf, lemma_insert_after_smaller, lemma_insert_elements};
use crate::lexer::{SToken, lex, lex_at, quoted_at, cons_token, prepend_tokens};
use crate::parser::{parse_entries, spec_parse};
use crate::writer::{escape, escape_char, tabs, render, render_entry};

verus! {

/// No newline, carriage return or tab.
pub open spec fn no_ctrl(s: Seq<char>) -> bool {
    forall|i: int| 0 <= i < s.len() ==> #[trigger] s[i] != '\n' && s[i] != '\r' && s[i] != '\t'
}

/// No key or string anywhere in the tree holds a newline, carriage return or tab.
pub open spec fn tree_plain(t: VdfTree) -> bool
    decreases t,
{
    match t {
        VdfTree::Str(s) => no_ctrl(s),
        VdfTree::Obj(m) => entries_plain(m),
    }
}

/// No key or string anywhere in the entries holds a newline, carriage return or tab.
pub open spec fn entries_plain(m: Seq<(Seq<char>, VdfTree)>) -> bool
    decreases m,
{
    if m.len() == 0 {
        true
    } else {
        no_ctrl(m[0].0) && tree_plain(m[0].1) && entries_plain(m.subrange(1, m.len() as int))
    }
}

/// `entries_plain`, entry by entry.
pub proof fn lemma_entries_plain(m: Seq<(Seq<char>, VdfTree)>)
    ensures
        entries_plain(m) <==> forall|i: int|
            0 <= i < m.len() ==> no_ctrl(#[trigger] m[i].0) && tree_plain(m[i].1),
    decreases m.len(),
{
    if m.len() > 0 {
        let rest = m.subrange(1, m.len() as int);
        lemma_entries_plain(rest);
        if forall|i: int| 0 <= i < m.len() ==> no_ctrl(#[trigger] m[i].0) && tree_plain(m[i].1) {
            assert forall|i: int| 0 <= i < rest.len() implies no_ctrl(#[trigger] rest[i].0)
                && tree_plain(rest[i].1) by {
                assert(rest[i] == m[i + 1]);
                assert(no_ctrl(m[i + 1].0) && tree_plain(m[i + 1].1));
            }
            assert(no_ctrl(m[0].0) && tree_plain(m[0].1));
        }
        if entries_plain(m) {
            assert(entries_plain(rest));
            assert(forall|i: int| 0 <= i < rest.len() ==> no_ctrl(#[trigger] rest[i].0) && tree_plain(
                rest[i].1,
            ));
            assert forall|i: int| 0 <= i < m.len() implies no_ctrl(#[trigger] m[i].0) && tree_plain(
                m[i].1,
            ) by {
                if i > 0 {
                    assert(rest[i - 1] == m[i]);
                }
            }
        }
    }
}

/// Ordered insertion of a plain key and value keeps the entries plain.
pub proof fn lemma_insert_plain(m: Seq<(Seq<char>, VdfTree)>, k: Seq<char>, v: VdfTree)
    requires
        entries_plain(m),
        no_ctrl(k),
        tree_plain(v),
    ensures
        entries_plain(insert_entry(m, k, v)),
{
    let r = insert_entry(m, k, v);
    lemma_insert_elements(m, k, v);
    lemma_entries_plain(m);
    assert forall|j: int| 0 <= j < r.len() implies no_ctrl(#[trigger] r[j].0) && tree_plain(
        r[j].1,
    ) by {
        if r[j] != (k, v) {
            let l = choose|l: int| 0 <= l < m.len() && m[l] == r[j];
            assert(no_ctrl(m[l].0));
        }
    }
    lemma_entries_plain(r);
}

/// Changing the value of one entry to a plain tree keeps the entries plain.
pub proof fn lemma_update_plain(m: Seq<(Seq<char>, VdfTree)>, i: int, v: VdfTree)
    requires
        entries_plain(m),
        0 <= i < m.len(),
        tree_plain(v),
    ensures
        entries_plain(m.update(i, (m[i].0, v))),
{
    let r = m.update(i, (m[i].0, v));
    lemma_entries_plain(m);
    assert forall|j: int| 0 <= j < r.len() implies no_ctrl(#[trigger] r[j].0) && tree_plain(
        r[j].1,
    ) by {
        if j != i {
            assert(r[j] == m[j]);
        }
        assert(no_ctrl(m[j].0));
    }
    lemma_entries_plain(r);
}

/// The tokens that the text of one entry reads as.
pub open spec fn entry_tokens(k: Seq<char>, v: VdfTree) -> Seq<SToken>
    decreases v,
{
    match v {
        VdfTree::Str(s) => seq![SToken::Str(k), SToken::Str(s)],
        VdfTree::Obj(m) => seq![SToken::Str(k), SToken::Open] + entries_tokens(m) + seq![
            SToken::Close,
        ],
    }
}

/// The tokens that the text of a map's entries reads as.
pub open spec fn entries_tokens(m: Seq<(Seq<char>, VdfTree)>) -> Seq<SToken>
    decreases m,
{
    if m.len() == 0 {
        Seq::empty()
    } else {
        entry_tokens(m[0].0, m[0].1) + entries_tokens(m.subrange(1, m.len() as int))
    }
}

/// `x` stands in `s` at index `i`.
pub open spec fn occurs<A>(s: Seq<A>, i: int, x: Seq<A>) -> bool {
    0 <= i && i + x.len() <= s.len() && s.subrange(i, i + x.len()) == x
}

proof fn lemma_occurs_split<A>(s: Seq<A>, i: int, x: Seq<A>, y: Seq<A>)
    requires
        occurs(s, i, x + y),
    ensures
        occurs(s, i, x),
        occurs(s, i + x.len(), y),
{
    let w = s.subrange(i, i + (x + y).len());
    assert(w == x + y);
    assert(s.subrange(i, i + x.len()) =~= w.subrange(0, x.len() as int));
    assert(w.subrange(0, x.len() as int) =~= x);
    assert(s.subrange(i + x.len(), i + x.len() + y.len()) =~= w.subrange(
        x.len() as int,
        w.len() as int,
    ));
    assert(w.subrange(x.len() as int, w.len() as int) =~= y);
}

proof fn lemma_occurs_index<A>(s: Seq<A>, i: int, x: Seq<A>, j: int)
    requires
        occurs(s, i, x),
        0 <= j < x.len(),
    ensures
        s[i + j] == x[j],
{
    assert(s.subrange(i, i + x.len())[j] == s[i + j]);
}

proof fn lemma_prepend_prepend(a: Seq<SToken>, b: Seq<SToken>, r: Result<Seq<SToken>, Seq<char>>)
    ensures
        prepend_tokens(a, prepend_tokens(b, r)) == prepend_tokens(a + b, r),
{
    match r {
        Ok(ts) => {
            assert(a + (b + ts) =~= (a + b) + ts);
        },
        Err(_) => {},
    }
}

proof fn lemma_cons_prepend(t: SToken, r: Result<Seq<SToken>, Seq<char>>)
    ensures
        cons_token(t, r) == prepend_tokens(seq![t], r),
{
}

/// White space is skipped.
proof fn lemma_lex_spaces(s: Seq<char>, i: int, n: int)
    requires
        0 <= i,
        0 <= n,
        i + n <= s.len(),
        forall|j: int| i <= j < i + n ==> is_space(#[trigger] s[j]),
    ensures
        lex_at(s, i) == lex_at(s, i + n),
    decreases n,
{
    if n > 0 {
        assert(is_space(s[i]));
        lemma_lex_spaces(s, i + 1, n - 1);
    }
}

proof fn lemma_lex_tabs(s: Seq<char>, i: int, n: nat)
    requires
        occurs(s, i, tabs(n)),
    ensures
        lex_at(s, i) == lex_at(s, i + n),
{
    assert forall|j: int| i <= j < i + n implies is_space(#[trigger] s[j]) by {
        lemma_occurs_index(s, i, tabs(n), j - i);
    }
    lemma_lex_spaces(s, i, n as int);
}

/// A written key or string reads back as itself, ending at its closing quote.
proof fn lemma_quoted_escape(s: Seq<char>, i: int, k: Seq<char>)
    requires
        no_ctrl(k),
        occurs(s, i, escape(k) + seq!['"']),
    ensures
        quoted_at(s, i) == Some((k, i + escape(k).len() + 1)),
    decreases k.len(),
{
    if k.len() == 0 {
        lemma_occurs_index(s, i, escape(k) + seq!['"'], 0);
        assert(k =~= Seq::<char>::empty());
    } else {
        let c = k[0];
        let rest = k.drop_first();
        assert(no_ctrl(rest)) by {
            assert forall|j: int| 0 <= j < rest.len() implies #[trigger] rest[j] != '\n' && rest[j]
                != '\r' && rest[j] != '\t' by {
                assert(rest[j] == k[j + 1]);
            }
        }
        assert(c != '\n' && c != '\r' && c != '\t');
        assert(escape(k) + seq!['"'] =~= escape_char(c) + (escape(rest) + seq!['"']));
        lemma_occurs_split(s, i, escape_char(c), escape(rest) + seq!['"']);
        let w = escape_char(c).len() as int;
        lemma_quoted_escape(s, i + w, rest);
        lemma_occurs_index(s, i, escape_char(c), 0);
        if c == '"' || c == '\\' {
            lemma_occurs_index(s, i, escape_char(c), 1);
            assert(seq![c] + rest =~= k);
        } else {
            assert(seq![c] + rest =~= k);
        }
    }
}

/// Reading the text of one string entry.
proof fn lemma_lex_str_entry(s: Seq<char>, i: int, k: Seq<char>, v: Seq<char>, d: nat)
    requires
        no_ctrl(k),
        no_ctrl(v),
        occurs(s, i, render_entry(k, VdfTree::Str(v), d)),
    ensures
        lex_at(s, i) == prepend_tokens(
            entry_tokens(k, VdfTree::Str(v)),
            lex_at(s, i + render_entry(k, VdfTree::Str(v), d).len()),
        ),
{
    reveal_strlit("\"\t\t\"");
    reveal_strlit("\"\n");
    let ek = escape(k);
    let ev = escape(v);
    let r = render_entry(k, VdfTree::Str(v), d);
    let p0 = i + d;
    let p1 = p0 + 1 + ek.len() + 1;
    let p2 = p1 + 4 + ev.len();
    assert(r =~= tabs(d) + (seq!['"'] + (ek + seq!['"'] + (seq!['\t', '\t'] + (seq!['"'] + (ev
        + seq!['"'] + seq!['\n']))))));
    lemma_occurs_split(
        s,
        i,
        tabs(d),
        seq!['"'] + (ek + seq!['"'] + (seq!['\t', '\t'] + (seq!['"'] + (ev + seq!['"'] + seq![
            '\n',
        ])))),
    );
    lemma_lex_tabs(s, i, d);
    lemma_occurs_split(
        s,
        p0,
        seq!['"'],
        ek + seq!['"'] + (seq!['\t', '\t'] + (seq!['"'] + (ev + seq!['"'] + seq!['\n']))),
    );
    lemma_occurs_index(s, p0, seq!['"'], 0);
    lemma_occurs_split(
        s,
        p0 + 1,
        ek + seq!['"'],
        seq!['\t', '\t'] + (seq!['"'] + (ev + seq!['"'] + seq!['\n'])),
    );
    lemma_quoted_escape(s, p0 + 1, k);
    assert(!is_space(s[p0]));
    assert(lex_at(s, p0) == cons_token(SToken::Str(k), lex_at(s, p1)));
    lemma_occurs_split(s, p1, seq!['\t', '\t'], seq!['"'] + (ev + seq!['"'] + seq!['\n']));
    assert forall|j: int| p1 <= j < p1 + 2 implies is_space(#[trigger] s[j]) by {
        lemma_occurs_index(s, p1, seq!['\t', '\t'], j - p1);
    }
    lemma_lex_spaces(s, p1, 2);
    lemma_occurs_split(s, p1 + 2, seq!['"'], ev + seq!['"'] + seq!['\n']);
    lemma_occurs_index(s, p1 + 2, seq!['"'], 0);
    lemma_occurs_split(s, p1 + 3, ev + seq!['"'], seq!['\n']);
    lemma_quoted_escape(s, p1 + 3, v);
    assert(lex_at(s, p1 + 2) == cons_token(SToken::Str(v), lex_at(s, p2)));
    lemma_occurs_index(s, p2, seq!['\n'], 0);
    assert(is_space(s[p2]));
    assert(lex_at(s, p2) == lex_at(s, p2 + 1));
    assert(p2 + 1 == i + r.len());
    lemma_cons_prepend(SToken::Str(k), lex_at(s, p1));
    lemma_cons_prepend(SToken::Str(v), lex_at(s, p2));
    lemma_prepend_prepend(seq![SToken::Str(k)], seq![SToken::Str(v)], lex_at(s, p2 + 1));
    assert(seq![SToken::Str(k)] + seq![SToken::Str(v)] =~= entry_tokens(k, VdfTree::Str(v)));
}

/// Reading the text of one map entry, given how its nested entries read.
proof fn lemma_lex_obj_entry(s: Seq<char>, i: int, k: Seq<char>, m: Seq<(Seq<char>, VdfTree)>, d: nat)
    requires
        no_ctrl(k),
        entries_plain(m),
        occurs(s, i, render_entry(k, VdfTree::Obj(m), d)),
    ensures
        lex_at(s, i) == prepend_tokens(
            entry_tokens(k, VdfTree::Obj(m)),
            lex_at(s, i + render_entry(k, VdfTree::Obj(m), d).len()),
        ),
    decreases m, 1nat,
{
    reveal_strlit("\"\n");
    reveal_strlit("{\n");
    reveal_strlit("}\n");
    let ek = escape(k);
    let body = render(m, d + 1);
    let r = render_entry(k, VdfTree::Obj(m), d);
    let p0 = i + d;
    let p1 = p0 + 1 + ek.len() + 1;
    let p2 = p1 + 1 + d;
    let p3 = p2 + 2;
    let p4 = p3 + body.len();
    let p5 = p4 + d;
    assert(r =~= tabs(d) + (seq!['"'] + (ek + seq!['"'] + (seq!['\n'] + (tabs(d) + (seq!['{', '\n']
        + (body + (tabs(d) + seq!['}', '\n']))))))));
    lemma_occurs_split(
        s,
        i,
        tabs(d),
        seq!['"'] + (ek + seq!['"'] + (seq!['\n'] + (tabs(d) + (seq!['{', '\n'] + (body + (tabs(d)
            + seq!['}', '\n'])))))),
    );
    lemma_lex_tabs(s, i, d);
    lemma_occurs_split(
        s,
        p0,
        seq!['"'],
        ek + seq!['"'] + (seq!['\n'] + (tabs(d) + (seq!['{', '\n'] + (body + (tabs(d) + seq![
            '}',
            '\n',
        ]))))),
    );
    lemma_occurs_index(s, p0, seq!['"'], 0);
    lemma_occurs_split(
        s,
        p0 + 1,
        ek + seq!['"'],
        seq!['\n'] + (tabs(d) + (seq!['{', '\n'] + (body + (tabs(d) + seq!['}', '\n'])))),
    );
    lemma_quoted_escape(s, p0 + 1, k);
    assert(lex_at(s, p0) == cons_token(SToken::Str(k), lex_at(s, p1)));
    lemma_occurs_split(
        s,
        p1,
        seq!['\n'],
        tabs(d) + (seq!['{', '\n'] + (body + (tabs(d) + seq!['}', '\n']))),
    );
    lemma_occurs_index(s, p1, seq!['\n'], 0);
    assert(lex_at(s, p1) == lex_at(s, p1 + 1));
    lemma_occurs_split(s, p1 + 1, tabs(d), seq!['{', '\n'] + (body + (tabs(d) + seq!['}', '\n'])));
    lemma_lex_tabs(s, p1 + 1, d);
    lemma_occurs_split(s, p2, seq!['{', '\n'], body + (tabs(d) + seq!['}', '\n']));
    lemma_occurs_index(s, p2, seq!['{', '\n'], 0);
    lemma_occurs_index(s, p2, seq!['{', '\n'], 1);
    assert(lex_at(s, p2) == cons_token(SToken::Open, lex_at(s, p2 + 1)));
    assert(lex_at(s, p2 + 1) == lex_at(s, p3));
    lemma_occurs_split(s, p3, body, tabs(d) + seq!['}', '\n']);
    lemma_lex_render(s, p3, m, d + 1);
    lemma_occurs_split(s, p4, tabs(d), seq!['}', '\n']);
    lemma_lex_tabs(s, p4, d);
    lemma_occurs_index(s, p5, seq!['}', '\n'], 0);
    lemma_occurs_index(s, p5, seq!['}', '\n'], 1);
    assert(lex_at(s, p5) == cons_token(SToken::Close, lex_at(s, p5 + 1)));
    assert(lex_at(s, p5 + 1) == lex_at(s, p5 + 2));
    assert(p5 + 2 == i + r.len());
    let rest = lex_at(s, p5 + 2);
    lemma_cons_prepend(SToken::Str(k), lex_at(s, p1));
    lemma_cons_prepend(SToken::Open, lex_at(s, p2 + 1));
    lemma_cons_prepend(SToken::Close, rest);
    lemma_prepend_prepend(entries_tokens(m), seq![SToken::Close], rest);
    lemma_prepend_prepend(seq![SToken::Open], entries_tokens(m) + seq![SToken::Close], rest);
    lemma_prepend_prepend(
        seq![SToken::Str(k)],
        seq![SToken::Open] + (entries_tokens(m) + seq![SToken::Close]),
        rest,
    );
    assert(seq![SToken::Str(k)] + (seq![SToken::Open] + (entries_tokens(m) + seq![SToken::Close]))
        =~= entry_tokens(k, VdfTree::Obj(m)));
}

/// Reading the text of a map's entries.
proof fn lemma_lex_render(s: Seq<char>, i: int, m: Seq<(Seq<char>, VdfTree)>, d: nat)
    requires
        entries_plain(m),
        occurs(s, i, render(m, d)),
    ensures
        lex_at(s, i) == prepend_tokens(entries_tokens(m), lex_at(s, i + render(m, d).len())),
    decreases m, 0nat,
{
    if m.len() == 0 {
        assert(Seq::<SToken>::empty() + Seq::<SToken>::empty() =~= Seq::<SToken>::empty());
        match lex_at(s, i) {
            Ok(ts) => {
                assert(Seq::<SToken>::empty() + ts =~= ts);
            },
            Err(_) => {},
        }
    } else {
        let (k, v) = m[0];
        let rest = m.subrange(1, m.len() as int);
        let re = render_entry(k, v, d);
        lemma_occurs_split(s, i, re, render(rest, d));
        assert(no_ctrl(k) && tree_plain(v) && entries_plain(rest));
        match v {
            VdfTree::Str(x) => {
                assert(no_ctrl(x));
                lemma_lex_str_entry(s, i, k, x, d);
            },
            VdfTree::Obj(sub) => {
                assert(decreases_to!(m => m[0]));
                assert(decreases_to!(m[0] => m[0].1));
                assert(decreases_to!(m[0].1 => m[0].1->Obj_0));
                assert(entries_plain(sub));
                lemma_lex_obj_entry(s, i, k, sub, d);
            },
        }
        lemma_lex_render(s, i + re.len(), rest, d);
        lemma_prepend_prepend(
            entry_tokens(k, v),
            entries_tokens(rest),
            lex_at(s, i + render(m, d).len()),
        );
    }
}

/// Inserting a key larger than every key appends it.
proof fn lemma_insert_last(acc: Seq<(Seq<char>, VdfTree)>, k: Seq<char>, v: VdfTree)
    requires
        forall|j: int| 0 <= j < acc.len() ==> key_lt(#[trigger] acc[j].0, k),
    ensures
        insert_entry(acc, k, v) == acc.push((k, v)),
{
    lemma_insert_after_smaller(acc, k, v, acc.len() as int);
    assert(acc.skip(acc.len() as int) =~= Seq::<(Seq<char>, VdfTree)>::empty());
    assert(acc.take(acc.len() as int) + seq![(k, v)] =~= acc.push((k, v)));
}

/// Every key of `acc` sorts before every key of `m`.
pub open spec fn keys_before(acc: Seq<(Seq<char>, VdfTree)>, m: Seq<(Seq<char>, VdfTree)>) -> bool {
    forall|a: int, b: int|
        0 <= a < acc.len() && 0 <= b < m.len() ==> key_lt(#[trigger] acc[a].0, #[trigger] m[b].0)
}

/// Reading back the tokens of a map's entries.
proof fn lemma_parse_tokens(
    t: Seq<SToken>,
    i: int,
    m: Seq<(Seq<char>, VdfTree)>,
    acc: Seq<(Seq<char>, VdfTree)>,
)
    requires
        occurs(t, i, entries_tokens(m)),
        i + entries_tokens(m).len() == t.len() || t[i + entries_tokens(m).len()] is Close,
        entries_wf(m),
        keys_sorted(acc),
        keys_before(acc, m),
    ensures
        parse_entries(t, i, acc) == Ok::<(Seq<(Seq<char>, VdfTree)>, int), Seq<char>>(
            (acc + m, i + entries_tokens(m).len()),
        ),
    decreases m,
{
    if m.len() == 0 {
        assert(acc + m =~= acc);
    } else {
        let (k, v) = m[0];
        let rest = m.subrange(1, m.len() as int);
        let et = entry_tokens(k, v);
        lemma_occurs_split(t, i, et, entries_tokens(rest));
        lemma_values_wf(m);
        lemma_values_wf(rest);
        assert(entries_wf(rest)) by {
            assert forall|a: int| 0 <= a < rest.len() implies crate::value::tree_wf(
                #[trigger] rest[a].1,
            ) by {
                assert(rest[a] == m[a + 1]);
            }
            assert forall|a: int, b: int| 0 <= a < b < rest.len() implies key_lt(
                #[trigger] rest[a].0,
                #[trigger] rest[b].0,
            ) by {
                assert(rest[a] == m[a + 1]);
                assert(rest[b] == m[b + 1]);
            }
        }
        assert forall|j: int| 0 <= j < acc.len() implies key_lt(#[trigger] acc[j].0, k) by {
            assert(key_lt(acc[j].0, m[0].0));
        }
        lemma_insert_last(acc, k, v);
        let acc2 = acc.push((k, v));
        assert(keys_sorted(acc2)) by {
            assert forall|a: int, b: int| 0 <= a < b < acc2.len() implies key_lt(
                #[trigger] acc2[a].0,
                #[trigger] acc2[b].0,
            ) by {
                if b == acc.len() {
                    assert(key_lt(acc[a].0, m[0].0));
                } else {
                    assert(acc2[a] == acc[a]);
                    assert(acc2[b] == acc[b]);
                }
            }
        }
        assert(keys_before(acc2, rest)) by {
            assert forall|a: int, b: int|
                0 <= a < acc2.len() && 0 <= b < rest.len() implies key_lt(
                #[trigger] acc2[a].0,
                #[trigger] rest[b].0,
            ) by {
                assert(rest[b] == m[b + 1]);
                assert(key_lt(m[0].0, m[b + 1].0));
                if a < acc.len() {
                    assert(acc2[a] == acc[a]);
                    assert(key_lt(acc[a].0, m[b + 1].0));
                }
            }
        }
        assert(acc2 + rest =~= acc + m);
        let after = i + et.len();
        assert(after + entries_tokens(rest).len() == i + entries_tokens(m).len());
        match v {
            VdfTree::Str(x) => {
                lemma_occurs_index(t, i, et, 0);
                lemma_occurs_index(t, i, et, 1);
                lemma_parse_tokens(t, i + 2, rest, acc2);
            },
            VdfTree::Obj(sub) => {
                assert(decreases_to!(m => m[0]));
                assert(decreases_to!(m[0] => m[0].1));
                assert(decreases_to!(m[0].1 => m[0].1->Obj_0));
                let st = entries_tokens(sub);
                assert(et =~= seq![SToken::Str(k), SToken::Open] + (st + seq![SToken::Close]));
                lemma_occurs_index(t, i, et, 0);
                lemma_occurs_index(t, i, et, 1);
                lemma_occurs_split(t, i, seq![SToken::Str(k), SToken::Open], st + seq![SToken::Close]);
                lemma_occurs_split(t, i + 2, st, seq![SToken::Close]);
                lemma_occurs_index(t, i + 2 + st.len(), seq![SToken::Close], 0);
                assert(crate::value::tree_wf(m[0].1));
                assert(keys_before(Seq::<(Seq<char>, VdfTree)>::empty(), sub));
                lemma_parse_tokens(t, i + 2, sub, Seq::empty());
                assert(Seq::<(Seq<char>, VdfTree)>::empty() + sub =~= sub);
                lemma_parse_tokens(t, i + 3 + st.len(), rest, acc2);
            },
        }
    }
}

/// Text written by `stringify` reads back, through `parse`, as the map it was
/// written from, for every well-formed map whose keys and strings contain no
/// newline, carriage return or tab.
pub proof fn lemma_parse_stringify_roundtrip(m: Seq<(Seq<char>, VdfTree)>)
    requires
        entries_wf(m),
        entries_plain(m),
    ensures
        spec_parse(render(m, 0)) == Ok::<Seq<(Seq<char>, VdfTree)>, Seq<char>>(m),
{
    let s = render(m, 0);
    assert(s.subrange(0, s.len() as int) =~= s);
    lemma_lex_render(s, 0, m, 0);
    let t = entries_tokens(m);
    assert(lex_at(s, s.len() as int) == Ok::<Seq<SToken>, Seq<char>>(Seq::empty()));
    assert(t + Seq::<SToken>::empty() =~= t);
    assert(lex(s) == Ok::<Seq<SToken>, Seq<char>>(t));
    assert(t.subrange(0, t.len() as int) =~= t);
    lemma_parse_tokens(t, 0, m, Seq::empty());
    assert(Seq::<(Seq<char>, VdfTree)>::empty() + m =~= m);
}

} // verus!
