//! Splitting VDF text into tokens: quoted or bare strings and braces, with
//! white space and `//` comments skipped.
use vstd::prelude::*;
use vstd::string::StringExecFns;
use crate::text::{is_space, is_space_char, push_char, chars_of, string_of_range};

verus! {

/// A token of VDF text.
#[derive(Debug, PartialEq, Eq)]
pub enum Token {
    Str(String),
    OpenBrace,
    CloseBrace,
}

/// The model of a token.
pub enum SToken {
    Str(Seq<char>),
    Open,
    Close,
}

impl View for Token {
    type V = SToken;

    open spec fn view(&self) -> SToken {
        match self {
            Token::Str(s) => SToken::Str(s@),
            Token::OpenBrace => SToken::Open,
            Token::CloseBrace => SToken::Close,
        }
    }
}

/// The models of a sequence of tokens.
pub open spec fn tokens_view(ts: Seq<Token>) -> Seq<SToken> {
    ts.map_values(|t: Token| t@)
}

pub open spec fn msg_single_slash() -> Seq<char> {
    "unexpected single slash '/'"@
}

pub open spec fn msg_unterminated() -> Seq<char> {
    "unterminated double quote"@
}

/// Characters that end a bare (unquoted) string.
pub open spec fn bare_stop(c: char) -> bool {
    is_space(c) || c == '{' || c == '}' || c == '"' || c == '/'
}

/// Where a `//` comment whose text starts at `i` ends: just after the first
/// line break (`\n` or `\r`), or at the end of the input.
pub open spec fn comment_end(s: Seq<char>, i: int) -> int
    decreases s.len() - i,
{
    if i >= s.len() {
        s.len() as int
    } else if s[i] == '\n' || s[i] == '\r' {
        i + 1
    } else {
        comment_end(s, i + 1)
    }
}

/// Where a bare string starting at `i` ends: the first stop character, or the
/// end of the input.
pub open spec fn bare_end(s: Seq<char>, i: int) -> int
    decreases s.len() - i,
{
    if i >= s.len() || bare_stop(s[i]) {
        i
    } else {
        bare_end(s, i + 1)
    }
}

/// The body of a quoted string whose text starts at `i` (just after the opening
/// quote): the characters read, with a backslash taking the next character
/// literally, and the index just after the closing quote. `None` when the input
/// ends first.
pub open spec fn quoted_at(s: Seq<char>, i: int) -> Option<(Seq<char>, int)>
    decreases s.len() - i,
{
    if i < 0 || i >= s.len() {
        None
    } else if s[i] == '"' {
        Some((Seq::<char>::empty(), i + 1))
    } else if s[i] == '\\' {
        if i + 1 >= s.len() {
            None
        } else {
            match quoted_at(s, i + 2) {
                Some((c, e)) => Some((seq![s[i + 1]] + c, e)),
                None => None,
            }
        }
    } else {
        match quoted_at(s, i + 1) {
            Some((c, e)) => Some((seq![s[i]] + c, e)),
            None => None,
        }
    }
}

/// A token in front of a token sequence, errors passed through.
pub open spec fn cons_token(t: SToken, r: Result<Seq<SToken>, Seq<char>>) -> Result<
    Seq<SToken>,
    Seq<char>,
> {
    match r {
        Ok(ts) => Ok(seq![t] + ts),
        Err(e) => Err(e),
    }
}

/// Tokens in front of a token sequence, errors passed through.
pub open spec fn prepend_tokens(p: Seq<SToken>, r: Result<Seq<SToken>, Seq<char>>) -> Result<
    Seq<SToken>,
    Seq<char>,
> {
    match r {
        Ok(ts) => Ok(p + ts),
        Err(e) => Err(e),
    }
}

/// The tokens of `s` from index `i` on.
pub open spec fn lex_at(s: Seq<char>, i: int) -> Result<Seq<SToken>, Seq<char>>
    decreases s.len() - i,
{
    if i < 0 || i >= s.len() {
        Ok(Seq::<SToken>::empty())
    } else if is_space(s[i]) {
        lex_at(s, i + 1)
    } else if s[i] == '/' {
        if i + 1 < s.len() && s[i + 1] == '/' {
            proof {
                lemma_comment_end_bounds(s, i + 2);
            }
            lex_at(s, comment_end(s, i + 2))
        } else {
            Err(msg_single_slash())
        }
    } else if s[i] == '{' {
        cons_token(SToken::Open, lex_at(s, i + 1))
    } else if s[i] == '}' {
        cons_token(SToken::Close, lex_at(s, i + 1))
    } else if s[i] == '"' {
        match quoted_at(s, i + 1) {
            Some((c, e)) => {
                proof {
                    lemma_quoted_bounds(s, i + 1);
                }
                cons_token(SToken::Str(c), lex_at(s, e))
            },
            None => Err(msg_unterminated()),
        }
    } else {
        proof {
            lemma_bare_end_bounds(s, i);
        }
        let e = bare_end(s, i);
        cons_token(SToken::Str(s.subrange(i, e)), lex_at(s, e))
    }
}

/// The tokens of a whole text.
pub open spec fn lex(s: Seq<char>) -> Result<Seq<SToken>, Seq<char>> {
    lex_at(s, 0)
}

pub proof fn lemma_comment_end_bounds(s: Seq<char>, i: int)
    requires
        i <= s.len(),
    ensures
        i <= comment_end(s, i) <= s.len(),
    decreases s.len() - i,
{
    if i < s.len() && !(s[i] == '\n' || s[i] == '\r') {
        lemma_comment_end_bounds(s, i + 1);
    }
}

pub proof fn lemma_bare_end_bounds(s: Seq<char>, i: int)
    requires
        0 <= i <= s.len(),
    ensures
        i <= bare_end(s, i) <= s.len(),
        i < s.len() && !bare_stop(s[i]) ==> i < bare_end(s, i),
    decreases s.len() - i,
{
    if i < s.len() && !bare_stop(s[i]) {
        lemma_bare_end_bounds(s, i + 1);
    }
}

pub proof fn lemma_quoted_bounds(s: Seq<char>, i: int)
    ensures
        quoted_at(s, i) matches Some((c, e)) ==> i < e <= s.len(),
    decreases s.len() - i,
{
    if 0 <= i < s.len() && s[i] != '"' {
        if s[i] == '\\' {
            if i + 1 < s.len() {
                lemma_quoted_bounds(s, i + 2);
            }
        } else {
            lemma_quoted_bounds(s, i + 1);
        }
    }
}

proof fn lemma_prepend_cons(p: Seq<SToken>, t: SToken, r: Result<Seq<SToken>, Seq<char>>)
    ensures
        prepend_tokens(p, cons_token(t, r)) == prepend_tokens(p.push(t), r),
{
    match r {
        Ok(ts) => {
            assert(p + (seq![t] + ts) =~= p.push(t) + ts);
        },
        Err(_) => {},
    }
}

/// Splits VDF text into tokens.
pub fn tokenize(input: &str) -> (r: Result<Vec<Token>, String>)
    ensures
        match r {
            Ok(ts) => lex(input@) == Ok::<Seq<SToken>, Seq<char>>(tokens_view(ts@)),
            Err(e) => lex(input@) == Err::<Seq<SToken>, Seq<char>>(e@),
        },
{
    let cs = chars_of(input);
    let n = cs.len();
    let mut tokens: Vec<Token> = Vec::new();
    let mut i: usize = 0;
    proof {
        assert(tokens_view(tokens@) =~= Seq::<SToken>::empty());
        assert(prepend_tokens(Seq::<SToken>::empty(), lex_at(cs@, 0)) == lex_at(cs@, 0)) by {
            match lex_at(cs@, 0) {
                Ok(ts) => {
                    assert(Seq::<SToken>::empty() + ts =~= ts);
                },
                Err(_) => {},
            }
        }
    }
    while i < n
        invariant
            n == cs@.len(),
            cs@ == input@,
            i <= n,
            lex(input@) == prepend_tokens(tokens_view(tokens@), lex_at(cs@, i as int)),
        decreases n - i,
    {
        let c = cs[i];
        let ghost ts = tokens_view(tokens@);
        if is_space_char(c) {
            i = i + 1;
        } else if c == '/' {
            if i + 1 < n && cs[i + 1] == '/' {
                let mut j = i + 2;
                while j < n && cs[j] != '\n' && cs[j] != '\r'
                    invariant
                        n == cs@.len(),
                        i + 2 <= j <= n,
                        comment_end(cs@, i + 2) == comment_end(cs@, j as int),
                    decreases n - j,
                {
                    j = j + 1;
                }
                if j < n {
                    i = j + 1;
                } else {
                    i = j;
                }
            } else {
                return Err(String::from_str("unexpected single slash '/'"));
            }
        } else if c == '{' {
            tokens.push(Token::OpenBrace);
            proof {
                lemma_prepend_cons(ts, SToken::Open, lex_at(cs@, i + 1));
                assert(tokens_view(tokens@) =~= ts.push(SToken::Open));
            }
            i = i + 1;
        } else if c == '}' {
            tokens.push(Token::CloseBrace);
            proof {
                lemma_prepend_cons(ts, SToken::Close, lex_at(cs@, i + 1));
                assert(tokens_view(tokens@) =~= ts.push(SToken::Close));
            }
            i = i + 1;
        } else if c == '"' {
            let mut s = String::new();
            let mut j = i + 1;
            loop
                invariant_except_break
                    i + 1 <= j <= n,
                    quoted_at(cs@, i + 1) == match quoted_at(cs@, j as int) {
                        Some((q, e)) => Some((s@ + q, e)),
                        None => None::<(Seq<char>, int)>,
                    },
                invariant
                    n == cs@.len(),
                    cs@ == input@,
                    i < n,
                    cs@[i as int] == '"',
                    ts == tokens_view(tokens@),
                    lex(input@) == prepend_tokens(ts, lex_at(cs@, i as int)),
                ensures
                    i + 1 <= j < n,
                    cs@[j as int] == '"',
                    quoted_at(cs@, i + 1) == Some((s@, j + 1)),
                decreases n - j,
            {
                if j >= n {
                    return Err(String::from_str("unterminated double quote"));
                }
                let d = cs[j];
                if d == '"' {
                    assert(s@ + Seq::<char>::empty() =~= s@);
                    break ;
                } else if d == '\\' {
                    if j + 1 >= n {
                        return Err(String::from_str("unterminated double quote"));
                    }
                    let ghost before = s@;
                    push_char(&mut s, cs[j + 1]);
                    proof {
                        match quoted_at(cs@, j + 2) {
                            Some((q, e)) => {
                                assert(before + (seq![cs@[j + 1]] + q) =~= s@ + q);
                            },
                            None => {},
                        }
                    }
                    j = j + 2;
                } else {
                    let ghost before = s@;
                    push_char(&mut s, d);
                    proof {
                        match quoted_at(cs@, j + 1) {
                            Some((q, e)) => {
                                assert(before + (seq![d] + q) =~= s@ + q);
                            },
                            None => {},
                        }
                    }
                    j = j + 1;
                }
            }
            let ghost sv = s@;
            tokens.push(Token::Str(s));
            proof {
                lemma_prepend_cons(ts, SToken::Str(sv), lex_at(cs@, j + 1));
                assert(tokens_view(tokens@) =~= ts.push(SToken::Str(sv)));
            }
            i = j + 1;
        } else {
            let mut j = i;
            while j < n && !(is_space_char(cs[j]) || cs[j] == '{' || cs[j] == '}' || cs[j] == '"'
                || cs[j] == '/')
                invariant
                    n == cs@.len(),
                    i <= j <= n,
                    bare_end(cs@, i as int) == bare_end(cs@, j as int),
                decreases n - j,
            {
                j = j + 1;
            }
            proof {
                lemma_bare_end_bounds(cs@, i as int);
            }
            let s = string_of_range(&cs, i, j);
            let ghost sv = s@;
            tokens.push(Token::Str(s));
            proof {
                lemma_prepend_cons(ts, SToken::Str(sv), lex_at(cs@, j as int));
                assert(tokens_view(tokens@) =~= ts.push(SToken::Str(sv)));
            }
            i = j;
        }
    }
    proof {
        assert(tokens_view(tokens@) + Seq::<SToken>::empty() =~= tokens_view(tokens@));
    }
    Ok(tokens)
}

} // verus!
