//! Writing a VDF map as text: one `"key"\t\t"value"` line per string entry, and
//! `"key"` followed by a braced block for a nested map, indented with tabs.
use vstd::prelude::*;
use vstd::string::StringExecFns;
use crate::text::{push_char, chars_of, string_with_capacity};
use crate::value::{VdfValue, VdfMap, VdfTree};
use vstd::utf8::{encode_utf8, encode_scalar, is_scalar};
use crate::strutil::{newline_after, lemma_newline_after, lemma_newline_after_bounds, lemma_newline_after_props};

verus! {

/// How one character is written inside quotes.
pub open spec fn escape_char(c: char) -> Seq<char> {
    if c == '"' {
        seq!['\\', '"']
    } else if c == '\\' {
        seq!['\\', '\\']
    } else if c == '\n' {
        seq!['\\', 'n']
    } else if c == '\r' {
        seq!['\\', 'r']
    } else if c == '\t' {
        seq!['\\', 't']
    } else {
        seq![c]
    }
}

/// How a string is written inside quotes.
pub open spec fn escape(s: Seq<char>) -> Seq<char>
    decreases s.len(),
{
    if s.len() == 0 {
        Seq::empty()
    } else {
        escape_char(s[0]) + escape(s.drop_first())
    }
}

/// `n` tab characters.
pub open spec fn tabs(n: nat) -> Seq<char> {
    Seq::new(n, |i: int| '\t')
}

/// The text of one entry at indentation `indent`.
pub open spec fn render_entry(k: Seq<char>, v: VdfTree, indent: nat) -> Seq<char>
    decreases v,
{
    match v {
        VdfTree::Str(s) => tabs(indent) + seq!['"'] + escape(k) + "\"\t\t\""@ + escape(s)
            + "\"\n"@,
        VdfTree::Obj(m) => tabs(indent) + seq!['"'] + escape(k) + "\"\n"@ + tabs(indent)
            + "{\n"@ + render(m, indent + 1) + tabs(indent) + "}\n"@,
    }
}

/// The text of a map's entries, in order, at indentation `indent`.
pub open spec fn render(m: Seq<(Seq<char>, VdfTree)>, indent: nat) -> Seq<char>
    decreases m,
{
    if m.len() == 0 {
        Seq::empty()
    } else {
        render_entry(m[0].0, m[0].1, indent) + render(m.subrange(1, m.len() as int), indent)
    }
}

pub proof fn lemma_escape_concat(a: Seq<char>, b: Seq<char>)
    ensures
        escape(a + b) == escape(a) + escape(b),
    decreases a.len(),
{
    if a.len() == 0 {
        assert(a + b =~= b);
        assert(escape(a) + escape(b) =~= escape(b));
    } else {
        assert((a + b).drop_first() =~= a.drop_first() + b);
        lemma_escape_concat(a.drop_first(), b);
        assert(escape(a) + escape(b) =~= escape_char(a[0]) + (escape(a.drop_first()) + escape(b)));
    }
}

pub proof fn lemma_render_concat(a: Seq<(Seq<char>, VdfTree)>, b: Seq<(Seq<char>, VdfTree)>, n: nat)
    ensures
        render(a + b, n) == render(a, n) + render(b, n),
    decreases a.len(),
{
    if a.len() == 0 {
        assert(a + b =~= b);
        assert(render(a, n) + render(b, n) =~= render(b, n));
    } else {
        assert((a + b).subrange(1, (a + b).len() as int) =~= a.subrange(1, a.len() as int) + b);
        lemma_render_concat(a.subrange(1, a.len() as int), b, n);
        assert((a + b)[0] == a[0]);
        assert(render(a, n) + render(b, n) =~= render_entry(a[0].0, a[0].1, n) + (render(
            a.subrange(1, a.len() as int),
            n,
        ) + render(b, n)));
    }
}

/// `s` with `p` put at the start of each of its lines (a line ends after `\n`).
pub open spec fn indent_lines(s: Seq<char>, p: Seq<char>) -> Seq<char>
    decreases s.len(),
{
    if s.len() == 0 {
        Seq::empty()
    } else {
        let e = newline_after(s, 0);
        proof {
            lemma_newline_after_bounds(s, 0);
        }
        if e < s.len() {
            p + s.subrange(0, e + 1) + indent_lines(s.skip(e + 1), p)
        } else {
            p + s
        }
    }
}

proof fn lemma_escape_no_newline(s: Seq<char>)
    ensures
        forall|i: int| 0 <= i < escape(s).len() ==> #[trigger] escape(s)[i] != '\n',
    decreases s.len(),
{
    if s.len() > 0 {
        lemma_escape_no_newline(s.drop_first());
        let x = escape_char(s[0]);
        let r = escape(s.drop_first());
        assert forall|i: int| 0 <= i < escape(s).len() implies #[trigger] escape(s)[i] != '\n' by {
            if i < x.len() {
                assert(escape(s)[i] == x[i]);
            } else {
                assert(escape(s)[i] == r[i - x.len()]);
            }
        }
    }
}

proof fn lemma_indent_one_line(l: Seq<char>, p: Seq<char>)
    requires
        forall|i: int| 0 <= i < l.len() ==> #[trigger] l[i] != '\n',
    ensures
        indent_lines(l + seq!['\n'], p) == p + l + seq!['\n'],
{
    let s = l + seq!['\n'];
    assert forall|j: int| 0 <= j < l.len() implies #[trigger] s[j] != '\n' by {
        assert(s[j] == l[j]);
    }
    lemma_newline_after(s, 0, l.len() as int);
    assert(s.subrange(0, l.len() as int + 1) =~= s);
    assert(s.skip(l.len() as int + 1) =~= Seq::<char>::empty());
    assert(indent_lines(s.skip(l.len() as int + 1), p) =~= Seq::<char>::empty());
    assert(indent_lines(s, p) == p + s.subrange(0, l.len() as int + 1) + indent_lines(
        s.skip(l.len() as int + 1),
        p,
    ));
    assert(p + s + Seq::<char>::empty() =~= p + l + seq!['\n']);
}

proof fn lemma_indent_concat(a: Seq<char>, b: Seq<char>, p: Seq<char>)
    requires
        a.len() == 0 || a.last() == '\n',
    ensures
        indent_lines(a + b, p) == indent_lines(a, p) + indent_lines(b, p),
    decreases a.len(),
{
    if a.len() == 0 {
        assert(a + b =~= b);
        assert(indent_lines(a, p) + indent_lines(b, p) =~= indent_lines(b, p));
    } else {
        lemma_newline_after_props(a, 0);
        let e = newline_after(a, 0);
        if e == a.len() {
            assert(a[a.len() - 1] != '\n');
        }
        let ab = a + b;
        assert forall|j: int| 0 <= j < e implies #[trigger] ab[j] != '\n' by {
            assert(ab[j] == a[j]);
        }
        assert(ab[e] == a[e]);
        lemma_newline_after(ab, 0, e);
        let a2 = a.skip(e + 1);
        if a2.len() > 0 {
            assert(a2.last() == a.last());
        }
        lemma_indent_concat(a2, b, p);
        assert(ab.subrange(0, e + 1) =~= a.subrange(0, e + 1));
        assert(ab.skip(e + 1) =~= a2 + b);
        assert(indent_lines(ab, p) =~= p + a.subrange(0, e + 1) + (indent_lines(a2, p)
            + indent_lines(b, p)));
    }
}

proof fn lemma_tabs_add(d: nat, e: nat)
    ensures
        tabs(d) + tabs(e) == tabs(d + e),
{
    assert(tabs(d) + tabs(e) =~= tabs(d + e));
}

proof fn lemma_tabs_no_newline(n: nat)
    ensures
        forall|i: int| 0 <= i < tabs(n).len() ==> #[trigger] tabs(n)[i] != '\n',
{
}

/// The text of entries is empty or ends with a line break.
proof fn lemma_render_ends(m: Seq<(Seq<char>, VdfTree)>, n: nat)
    ensures
        render(m, n).len() == 0 || render(m, n).last() == '\n',
    decreases m.len(),
{
    reveal_strlit("\"\n");
    reveal_strlit("}\n");
    if m.len() > 0 {
        let rest = m.subrange(1, m.len() as int);
        lemma_render_ends(rest, n);
        let x = render_entry(m[0].0, m[0].1, n);
        assert(x.last() == '\n');
        let r = render(rest, n);
        if r.len() == 0 {
            assert(x + r =~= x);
        } else {
            assert((x + r).last() == r.last());
        }
    }
}

proof fn lemma_entry_indent_str(k: Seq<char>, sv: Seq<char>, d: nat, e: nat)
    ensures
        indent_lines(render_entry(k, VdfTree::Str(sv), e), tabs(d)) == render_entry(
            k,
            VdfTree::Str(sv),
            d + e,
        ),
{
    reveal_strlit("\"\t\t\"");
    reveal_strlit("\"\n");
    let t = tabs(d);
    lemma_tabs_add(d, e);
    lemma_tabs_no_newline(e);
    lemma_escape_no_newline(k);
    lemma_escape_no_newline(sv);
    let ek = escape(k);
    let es = escape(sv);
    let l = tabs(e) + seq!['"'] + ek + "\"\t\t\""@ + es + seq!['"'];
    assert forall|i: int| 0 <= i < l.len() implies #[trigger] l[i] != '\n' by {
        let a = tabs(e).len() as int;
        if i < a {
            assert(l[i] == tabs(e)[i]);
        } else if i == a {
        } else if i < a + 1 + ek.len() {
            assert(l[i] == ek[i - a - 1]);
        } else if i < a + 1 + ek.len() + 4 {
        } else if i < a + 5 + ek.len() + es.len() {
            assert(l[i] == es[i - a - 5 - ek.len()]);
        }
    }
    assert(render_entry(k, VdfTree::Str(sv), e) =~= l + seq!['\n']);
    lemma_indent_one_line(l, t);
    assert(t + l + seq!['\n'] =~= render_entry(k, VdfTree::Str(sv), d + e));
}

/// An entry's text ends with a line break.
proof fn lemma_entry_ends(k: Seq<char>, v: VdfTree, n: nat)
    ensures
        render_entry(k, v, n).len() > 0,
        render_entry(k, v, n).last() == '\n',
{
    reveal_strlit("\"\n");
    reveal_strlit("}\n");
}

/// The lines of a nested-map entry: its quoted key, `{`, the nested entries
/// one level deeper, and `}`.
proof fn lemma_entry_obj_shape(k: Seq<char>, sub: Seq<(Seq<char>, VdfTree)>, n: nat)
    ensures
        render_entry(k, VdfTree::Obj(sub), n) == (tabs(n) + seq!['"'] + escape(k) + seq!['"']
            + seq!['\n']) + ((tabs(n) + seq!['{'] + seq!['\n']) + (render(sub, n + 1) + (tabs(n)
            + seq!['}'] + seq!['\n']))),
{
    reveal_strlit("\"\n");
    reveal_strlit("{\n");
    reveal_strlit("}\n");
    assert(render_entry(k, VdfTree::Obj(sub), n) =~= (tabs(n) + seq!['"'] + escape(k) + seq!['"']
        + seq!['\n']) + ((tabs(n) + seq!['{'] + seq!['\n']) + (render(sub, n + 1) + (tabs(n)
        + seq!['}'] + seq!['\n']))));
}

proof fn lemma_line_no_newline(a: Seq<char>, b: Seq<char>)
    requires
        forall|i: int| 0 <= i < a.len() ==> #[trigger] a[i] != '\n',
        forall|i: int| 0 <= i < b.len() ==> #[trigger] b[i] != '\n',
    ensures
        forall|i: int| 0 <= i < (a + b).len() ==> #[trigger] (a + b)[i] != '\n',
{
    assert forall|i: int| 0 <= i < (a + b).len() implies #[trigger] (a + b)[i] != '\n' by {
        if i < a.len() {
            assert((a + b)[i] == a[i]);
        } else {
            assert((a + b)[i] == b[i - a.len()]);
        }
    }
}

#[verifier::rlimit(40)]
proof fn lemma_entry_indent_obj(k: Seq<char>, sub: Seq<(Seq<char>, VdfTree)>, d: nat, e: nat)
    requires
        render(sub, d + e + 1) == indent_lines(render(sub, e + 1), tabs(d)),
    ensures
        indent_lines(render_entry(k, VdfTree::Obj(sub), e), tabs(d)) == render_entry(
            k,
            VdfTree::Obj(sub),
            d + e,
        ),
{
    let t = tabs(d);
    let nl = seq!['\n'];
    lemma_tabs_add(d, e);
    lemma_tabs_no_newline(e);
    lemma_escape_no_newline(k);
    lemma_render_ends(sub, e + 1);
    let ek = escape(k);
    lemma_line_no_newline(tabs(e), seq!['"']);
    lemma_line_no_newline(tabs(e) + seq!['"'], ek);
    lemma_line_no_newline(tabs(e) + seq!['"'] + ek, seq!['"']);
    lemma_line_no_newline(tabs(e), seq!['{']);
    lemma_line_no_newline(tabs(e), seq!['}']);
    let la = tabs(e) + seq!['"'] + ek + seq!['"'];
    let lb = tabs(e) + seq!['{'];
    let lc = tabs(e) + seq!['}'];
    let r = render(sub, e + 1);
    let pa = la + nl;
    let pb = lb + nl;
    let pc = lc + nl;
    lemma_entry_obj_shape(k, sub, e);
    lemma_entry_obj_shape(k, sub, d + e);
    lemma_indent_one_line(la, t);
    lemma_indent_one_line(lb, t);
    lemma_indent_one_line(lc, t);
    lemma_indent_concat(r, pc, t);
    let ir = indent_lines(r, t);
    assert(indent_lines(r + pc, t) == ir + (t + lc + nl));
    assert(pb.last() == '\n');
    lemma_indent_concat(pb, r + pc, t);
    assert(indent_lines(pb + (r + pc), t) == (t + lb + nl) + (ir + (t + lc + nl)));
    assert(pa.last() == '\n');
    lemma_indent_concat(pa, pb + (r + pc), t);
    assert(t + la =~= tabs(d + e) + seq!['"'] + ek + seq!['"']);
    assert(t + lb =~= tabs(d + e) + seq!['{']);
    assert(t + lc =~= tabs(d + e) + seq!['}']);
}

/// The text written at indentation `d + e` is the text at indentation `e` with
/// `d` tabs put at the start of each of its lines; in particular, the text at
/// indentation `d` is the text `stringify` writes with `d` tabs before each line.
pub proof fn lemma_render_indent(m: Seq<(Seq<char>, VdfTree)>, d: nat, e: nat)
    ensures
        render(m, d + e) == indent_lines(render(m, e), tabs(d)),
    decreases m,
{
    if m.len() == 0 {
        assert(render(m, e) =~= Seq::<char>::empty());
    } else {
        let rest = m.subrange(1, m.len() as int);
        let k = m[0].0;
        let v = m[0].1;
        lemma_render_indent(rest, d, e);
        match v {
            VdfTree::Str(sv) => {
                lemma_entry_indent_str(k, sv, d, e);
            },
            VdfTree::Obj(sub) => {
                assert(decreases_to!(m => m[0]));
                assert(decreases_to!(m[0] => m[0].1));
                assert(decreases_to!(m[0].1 => sub));
                lemma_render_indent(sub, d, e + 1);
                assert(d + (e + 1) == d + e + 1);
                lemma_entry_indent_obj(k, sub, d, e);
            },
        }
        let x = render_entry(k, v, e);
        lemma_entry_ends(k, v, e);
        assert(render(m, e) == x + render(rest, e));
        lemma_indent_concat(x, render(rest, e), tabs(d));
    }
}

/// Bytes that `c` takes in UTF-8.
pub open spec fn utf8_width(c: char) -> nat {
    if c <= '\u{7F}' {
        1
    } else if c <= '\u{7FF}' {
        2
    } else if c <= '\u{FFFF}' {
        3
    } else {
        4
    }
}

/// The characters that are written with a backslash.
pub open spec fn needs_escape(c: char) -> bool {
    c == '"' || c == '\\' || c == '\n' || c == '\r' || c == '\t'
}

/// Bytes of the quoted form of `s`: two per escaped character, the UTF-8 width
/// of every other character.
pub open spec fn escaped_width(s: Seq<char>) -> nat
    decreases s.len(),
{
    if s.len() == 0 {
        0
    } else {
        (if needs_escape(s[0]) {
            2
        } else {
            utf8_width(s[0])
        }) + escaped_width(s.drop_first())
    }
}

/// `x`, capped at `usize::MAX`.
pub open spec fn sat(x: int) -> int {
    if x > usize::MAX {
        usize::MAX as int
    } else {
        x
    }
}

/// The byte count that `size_hint_map` gives for one entry: its tabs, its key and
/// value in quoted form, and its punctuation (seven bytes for a string entry:
/// `"`, `"\t\t"` and `"\n`).
pub open spec fn hint_entry(k: Seq<char>, v: VdfTree, d: nat) -> nat
    decreases v,
{
    match v {
        VdfTree::Str(s) => d + 7 + escaped_width(k) + escaped_width(s),
        VdfTree::Obj(m) => (d + 3 + escaped_width(k)) + (d + 2) + hint_entries(m, d + 1) + (d
            + 2),
    }
}

/// The byte count that `size_hint_map` gives for a map's entries.
pub open spec fn hint_entries(m: Seq<(Seq<char>, VdfTree)>, d: nat) -> nat
    decreases m,
{
    if m.len() == 0 {
        0
    } else {
        hint_entry(m[0].0, m[0].1, d) + hint_entries(m.subrange(1, m.len() as int), d)
    }
}

proof fn lemma_ascii_bytes(s: Seq<char>)
    requires
        forall|i: int| 0 <= i < s.len() ==> #[trigger] s[i] <= '\u{7F}',
    ensures
        encode_utf8(s).len() == s.len(),
    decreases s.len(),
{
    if s.len() > 0 {
        let rest = s.drop_first();
        assert forall|i: int| 0 <= i < rest.len() implies #[trigger] rest[i] <= '\u{7F}' by {
            assert(rest[i] == s[i + 1]);
        }
        lemma_ascii_bytes(rest);
        assert(s =~= seq![s[0]] + rest);
        lemma_encode_concat_len(seq![s[0]], rest);
        lemma_encode_char_len(s[0]);
    }
}

/// The byte count `size_hint_map` gives is the UTF-8 length of the text written
/// for the same entries at the same indentation.
pub proof fn lemma_hint_is_text_length(m: Seq<(Seq<char>, VdfTree)>, d: nat)
    ensures
        hint_entries(m, d) == encode_utf8(render(m, d)).len(),
    decreases m,
{
    reveal_strlit("\"\t\t\"");
    reveal_strlit("\"\n");
    reveal_strlit("{\n");
    reveal_strlit("}\n");
    if m.len() == 0 {
        assert(encode_utf8(render(m, d)) =~= Seq::<u8>::empty());
    } else {
        let rest = m.subrange(1, m.len() as int);
        let k = m[0].0;
        let v = m[0].1;
        lemma_hint_is_text_length(rest, d);
        let x = render_entry(k, v, d);
        lemma_encode_concat_len(x, render(rest, d));
        lemma_escaped_width_bytes(k);
        lemma_ascii_bytes(tabs(d));
        let ek = escape(k);
        match v {
            VdfTree::Str(sv) => {
                lemma_escaped_width_bytes(sv);
                let es = escape(sv);
                let p1 = tabs(d) + seq!['"'];
                let p2 = "\"\t\t\""@;
                let p3 = "\"\n"@;
                lemma_ascii_bytes(seq!['"']);
                lemma_ascii_bytes(p2);
                lemma_ascii_bytes(p3);
                lemma_encode_concat_len(tabs(d), seq!['"']);
                lemma_encode_concat_len(p1, ek);
                lemma_encode_concat_len(p1 + ek, p2);
                lemma_encode_concat_len(p1 + ek + p2, es);
                lemma_encode_concat_len(p1 + ek + p2 + es, p3);
                assert(x == p1 + ek + p2 + es + p3);
                assert(encode_utf8(x).len() == hint_entry(k, v, d));
            },
            VdfTree::Obj(sub) => {
                assert(decreases_to!(m => m[0]));
                assert(decreases_to!(m[0] => m[0].1));
                assert(decreases_to!(m[0].1 => sub));
                lemma_hint_is_text_length(sub, d + 1);
                let q1 = "\"\n"@;
                let q2 = "{\n"@;
                let q3 = "}\n"@;
                lemma_ascii_bytes(seq!['"']);
                lemma_ascii_bytes(q1);
                lemma_ascii_bytes(q2);
                lemma_ascii_bytes(q3);
                let a = tabs(d) + seq!['"'];
                lemma_encode_concat_len(tabs(d), seq!['"']);
                lemma_encode_concat_len(a, ek);
                lemma_encode_concat_len(a + ek, q1);
                lemma_encode_concat_len(a + ek + q1, tabs(d));
                lemma_encode_concat_len(a + ek + q1 + tabs(d), q2);
                let r = render(sub, d + 1);
                lemma_encode_concat_len(a + ek + q1 + tabs(d) + q2, r);
                lemma_encode_concat_len(a + ek + q1 + tabs(d) + q2 + r, tabs(d));
                lemma_encode_concat_len(a + ek + q1 + tabs(d) + q2 + r + tabs(d), q3);
                assert(x == a + ek + q1 + tabs(d) + q2 + r + tabs(d) + q3);
                assert(encode_utf8(x).len() == hint_entry(k, v, d));
            },
        }
        assert(render(m, d) == x + render(rest, d));
    }
}

pub proof fn lemma_escaped_width_concat(a: Seq<char>, b: Seq<char>)
    ensures
        escaped_width(a + b) == escaped_width(a) + escaped_width(b),
    decreases a.len(),
{
    if a.len() > 0 {
        assert((a + b).drop_first() =~= a.drop_first() + b);
        lemma_escaped_width_concat(a.drop_first(), b);
    } else {
        assert(a + b =~= b);
    }
}

pub proof fn lemma_hint_entries_concat(a: Seq<(Seq<char>, VdfTree)>, b: Seq<(Seq<char>, VdfTree)>, d: nat)
    ensures
        hint_entries(a + b, d) == hint_entries(a, d) + hint_entries(b, d),
    decreases a.len(),
{
    if a.len() > 0 {
        assert((a + b).subrange(1, (a + b).len() as int) =~= a.subrange(1, a.len() as int) + b);
        assert((a + b)[0] == a[0]);
        lemma_hint_entries_concat(a.subrange(1, a.len() as int), b, d);
    } else {
        assert(a + b =~= b);
    }
}

/// How many characters of `s` are written with a backslash.
pub open spec fn escape_count(s: Seq<char>) -> nat
    decreases s.len(),
{
    if s.len() == 0 {
        0
    } else {
        (if needs_escape(s[0]) {
            1nat
        } else {
            0nat
        }) + escape_count(s.drop_first())
    }
}

proof fn lemma_encode_char_len(c: char)
    ensures
        encode_utf8(seq![c]).len() == utf8_width(c),
{
    broadcast use vstd::utf8::char_is_scalar;

    assert(seq![c].drop_first() =~= Seq::<char>::empty());
    let u = c as u32;
    assert(is_scalar(u));
    assert(encode_utf8(Seq::<char>::empty()) =~= Seq::<u8>::empty());
    assert(encode_utf8(seq![c]) =~= encode_scalar(u));
    assert((c <= '\u{7F}') == (u <= 0x7F));
    assert((c <= '\u{7FF}') == (u <= 0x7FF));
    assert((c <= '\u{FFFF}') == (u <= 0xFFFF));
}

proof fn lemma_encode_concat_len(a: Seq<char>, b: Seq<char>)
    ensures
        encode_utf8(a + b).len() == encode_utf8(a).len() + encode_utf8(b).len(),
    decreases a.len(),
{
    if a.len() == 0 {
        assert(a + b =~= b);
    } else {
        assert((a + b).drop_first() =~= a.drop_first() + b);
        assert((a + b)[0] == a[0]);
        lemma_encode_concat_len(a.drop_first(), b);
    }
}

/// The byte count of the quoted form of `s` (what `escaped_len` computes) is the
/// UTF-8 length of `s` plus one for every character written with a backslash,
/// and it is the UTF-8 length of the text `write_escaped_str` appends.
pub proof fn lemma_escaped_width_bytes(s: Seq<char>)
    ensures
        escaped_width(s) == encode_utf8(s).len() + escape_count(s),
        escaped_width(s) == encode_utf8(escape(s)).len(),
    decreases s.len(),
{
    if s.len() > 0 {
        let c = s[0];
        let rest = s.drop_first();
        lemma_escaped_width_bytes(rest);
        assert(s =~= seq![c] + rest);
        lemma_encode_concat_len(seq![c], rest);
        lemma_encode_char_len(c);
        lemma_encode_concat_len(escape_char(c), escape(rest));
        if needs_escape(c) {
            let x = escape_char(c);
            assert(x.len() == 2);
            assert(x =~= seq![x[0]] + seq![x[1]]);
            lemma_encode_concat_len(seq![x[0]], seq![x[1]]);
            lemma_encode_char_len(x[0]);
            lemma_encode_char_len(x[1]);
        } else {
            assert(escape_char(c) =~= seq![c]);
        }
    } else {
        assert(encode_utf8(escape(s)) =~= Seq::<u8>::empty());
    }
}

/// UTF-8 width of a character.
fn char_width(c: char) -> (w: usize)
    ensures
        w == utf8_width(c),
{
    if c <= '\u{7F}' {
        1
    } else if c <= '\u{7FF}' {
        2
    } else if c <= '\u{FFFF}' {
        3
    } else {
        4
    }
}

/// Bytes of the quoted form of `s`: its UTF-8 length plus one for every
/// character written with a backslash (capped at `usize::MAX`).
pub fn escaped_len(s: &str) -> (n: usize)
    ensures
        n == sat(escaped_width(s@) as int),
        n == sat((encode_utf8(s@).len() + escape_count(s@)) as int),
{
    proof {
        lemma_escaped_width_bytes(s@);
    }
    let cs = chars_of(s);
    let mut n: usize = 0;
    let mut i: usize = 0;
    while i < cs.len()
        invariant
            i <= cs@.len(),
            cs@ == s@,
            n == sat(escaped_width(cs@.take(i as int)) as int),
        decreases cs@.len() - i,
    {
        let c = cs[i];
        let w: usize = if c == '"' || c == '\\' || c == '\n' || c == '\r' || c == '\t' {
            2
        } else {
            char_width(c)
        };
        proof {
            assert(cs@.take(i + 1) =~= cs@.take(i as int) + seq![c]);
            lemma_escaped_width_concat(cs@.take(i as int), seq![c]);
            assert(seq![c].drop_first() =~= Seq::<char>::empty());
            assert(escaped_width(Seq::<char>::empty()) == 0);
            assert(seq![c][0] == c);
            assert(escaped_width(seq![c]) == w);
        }
        n = n.saturating_add(w);
        i = i + 1;
    }
    proof {
        assert(cs@.take(cs@.len() as int) =~= cs@);
    }
    n
}

/// The byte length of the text of `map`'s entries at indentation `indent`
/// (capped at `usize::MAX`); used as the capacity of the output.
pub fn size_hint_map(map: &VdfMap, indent: usize) -> (size: usize)
    ensures
        size == sat(hint_entries(map@, indent as nat) as int),
        size == sat(encode_utf8(render(map@, indent as nat)).len() as int),
    decreases map@,
{
    proof {
        lemma_hint_is_text_length(map@, indent as nat);
    }
    let n = map.len();
    let mut size: usize = 0;
    let mut i: usize = 0;
    while i < n
        invariant
            n == map@.len(),
            i <= n,
            size == sat(hint_entries(map@.take(i as int), indent as nat) as int),
        decreases n - i,
    {
        let key = map.key_at(i);
        let val = map.value_at(i);
        let ghost before = size;
        let ghost e = map@[i as int];
        match val {
            VdfValue::Str(s) => {
                size = size.saturating_add(indent);
                size = size.saturating_add(7);
                size = size.saturating_add(escaped_len(key.as_str()));
                size = size.saturating_add(escaped_len(s.as_str()));
            },
            VdfValue::Obj(sub) => {
                size = size.saturating_add(indent);
                size = size.saturating_add(3);
                size = size.saturating_add(escaped_len(key.as_str()));
                size = size.saturating_add(indent);
                size = size.saturating_add(2);
                proof {
                    assert(decreases_to!(map@ => map@[i as int]));
                    assert(decreases_to!(map@[i as int] => map@[i as int].1));
                    assert(decreases_to!(map@[i as int].1 => map@[i as int].1->Obj_0));
                }
                let inner = size_hint_map(sub, indent.saturating_add(1));
                size = size.saturating_add(inner);
                size = size.saturating_add(indent);
                size = size.saturating_add(2);
            },
        }
        proof {
            assert(map@.take(i + 1) =~= map@.take(i as int) + seq![e]);
            lemma_hint_entries_concat(map@.take(i as int), seq![e], indent as nat);
            assert(seq![e].subrange(1, 1) =~= Seq::<(Seq<char>, VdfTree)>::empty());
            assert(hint_entries(Seq::<(Seq<char>, VdfTree)>::empty(), indent as nat) == 0);
            assert(seq![e][0] == e);
            assert(hint_entries(seq![e], indent as nat) == hint_entry(e.0, e.1, indent as nat));
        }
        i = i + 1;
    }
    proof {
        assert(map@.take(n as int) =~= map@);
    }
    size
}

/// Appends `s` to `out` in its quoted form (without the quotes).
fn write_escaped_str(s: &str, out: &mut String)
    ensures
        final(out)@ == old(out)@ + escape(s@),
{
    let cs = chars_of(s);
    let mut i: usize = 0;
    while i < cs.len()
        invariant
            i <= cs@.len(),
            cs@ == s@,
            out@ == old(out)@ + escape(cs@.take(i as int)),
        decreases cs@.len() - i,
    {
        let c = cs[i];
        let ghost before = out@;
        if c == '"' {
            out.append("\\\"");
        } else if c == '\\' {
            out.append("\\\\");
        } else if c == '\n' {
            out.append("\\n");
        } else if c == '\r' {
            out.append("\\r");
        } else if c == '\t' {
            out.append("\\t");
        } else {
            push_char(out, c);
        }
        proof {
            reveal_strlit("\\\"");
            reveal_strlit("\\\\");
            reveal_strlit("\\n");
            reveal_strlit("\\r");
            reveal_strlit("\\t");
            assert(cs@.take(i + 1) =~= cs@.take(i as int) + seq![c]);
            lemma_escape_concat(cs@.take(i as int), seq![c]);
            assert(escape(seq![c]) =~= escape_char(c)) by {
                assert(seq![c].drop_first() =~= Seq::<char>::empty());
                assert(escape(Seq::<char>::empty()) =~= Seq::<char>::empty());
                assert(escape_char(c) + Seq::<char>::empty() =~= escape_char(c));
            }
            assert(out@ =~= old(out)@ + escape(cs@.take(i + 1)));
        }
        i = i + 1;
    }
    proof {
        assert(cs@.take(cs@.len() as int) =~= cs@);
    }
}

/// Appends the text of `map`'s entries, indented by `spaces` (a run of tabs).
fn stringify_internal(map: &VdfMap, spaces: &String, out: &mut String)
    requires
        spaces@ == tabs(spaces@.len()),
    ensures
        final(out)@ == old(out)@ + render(map@, spaces@.len()),
    decreases map@,
{
    let ghost indent = spaces@.len();
    let n = map.len();
    let mut i: usize = 0;
    while i < n
        invariant
            n == map@.len(),
            i <= n,
            spaces@ == tabs(indent),
            indent == spaces@.len(),
            out@ == old(out)@ + render(map@.take(i as int), indent),
        decreases n - i,
    {
        let key = map.key_at(i);
        let val = map.value_at(i);
        let ghost before = out@;
        match val {
            VdfValue::Str(s) => {
                out.append(spaces.as_str());
                push_char(out, '"');
                write_escaped_str(key.as_str(), out);
                out.append("\"\t\t\"");
                write_escaped_str(s.as_str(), out);
                out.append("\"\n");
            },
            VdfValue::Obj(sub) => {
                out.append(spaces.as_str());
                push_char(out, '"');
                write_escaped_str(key.as_str(), out);
                out.append("\"\n");
                out.append(spaces.as_str());
                out.append("{\n");
                let mut inner = spaces.clone();
                push_char(&mut inner, '\t');
                proof {
                    assert(inner@ =~= tabs(indent + 1));
                    assert(decreases_to!(map@ => map@[i as int]));
                    assert(decreases_to!(map@[i as int] => map@[i as int].1));
                    assert(map@[i as int].1 == VdfTree::Obj(sub@));
                    assert(decreases_to!(map@[i as int].1 => map@[i as int].1->Obj_0));
                    assert(decreases_to!(map@ => sub@));
                }
                stringify_internal(sub, &inner, out);
                out.append(spaces.as_str());
                out.append("}\n");
            },
        }
        proof {
            let e = map@[i as int];
            assert(map@.take(i + 1) =~= map@.take(i as int) + seq![e]);
            lemma_render_concat(map@.take(i as int), seq![e], indent);
            assert(render(seq![e], indent) =~= render_entry(e.0, e.1, indent)) by {
                assert(seq![e].subrange(1, 1) =~= Seq::<(Seq<char>, VdfTree)>::empty());
                assert(render(Seq::<(Seq<char>, VdfTree)>::empty(), indent) =~= Seq::<char>::empty());
                assert(render_entry(e.0, e.1, indent) + Seq::<char>::empty() =~= render_entry(e.0, e.1, indent));
            }
            assert(out@ =~= old(out)@ + render(map@.take(i + 1), indent));
        }
        i = i + 1;
    }
    proof {
        assert(map@.take(n as int) =~= map@);
    }
}

/// The VDF text of a map.
pub fn stringify(map: &VdfMap) -> (r: String)
    ensures
        r@ == render(map@, 0),
{
    let mut out = string_with_capacity(size_hint_map(map, 0));
    let spaces = String::new();
    proof {
        assert(spaces@ =~= tabs(0));
    }
    stringify_internal(map, &spaces, &mut out);
    out
}

} // verus!
