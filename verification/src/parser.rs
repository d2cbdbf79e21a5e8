//! Building a VDF map from tokens: `key value` pairs, where a value is a string
//! or a brace-enclosed block of pairs.
use vstd::prelude::*;
use vstd::string::StringExecFns;
use crate::lexer::{Token, SToken, tokens_view, lex, tokenize};
use crate::value::{
    VdfValue,
    VdfMap,
    VdfTree,
    insert_entry,
    entries_wf,
    lemma_insert_wf,
    lemma_values_wf,
};

verus! {

pub open spec fn msg_eof(key: Seq<char>) -> Seq<char> {
    "expected value for key '"@ + key + "', reached EOF"@
}

pub open spec fn msg_unclosed(key: Seq<char>) -> Seq<char> {
    "expected '}' to close block for key '"@ + key + "'"@
}

pub open spec fn msg_close_as_value(key: Seq<char>) -> Seq<char> {
    "unexpected '}' as value for key '"@ + key + "'"@
}

pub open spec fn msg_open_as_key() -> Seq<char> {
    "unexpected '{' where key was expected"@
}

pub open spec fn msg_trailing() -> Seq<char> {
    "unexpected tokens after parsing root map completed"@
}

/// Reads `key value` pairs from token `i` on into `acc`, up to a closing brace
/// or the end of the tokens; gives the map and the index where reading stopped.
/// A later pair with the same key replaces the earlier value.
pub open spec fn parse_entries(t: Seq<SToken>, i: int, acc: Seq<(Seq<char>, VdfTree)>) -> Result<
    (Seq<(Seq<char>, VdfTree)>, int),
    Seq<char>,
>
    decreases t.len() - i,
{
    if i < 0 || i >= t.len() {
        Ok((acc, i))
    } else {
        match t[i] {
            SToken::Close => Ok((acc, i)),
            SToken::Open => Err(msg_open_as_key()),
            SToken::Str(key) => {
                if i + 1 >= t.len() {
                    Err(msg_eof(key))
                } else {
                    match t[i + 1] {
                        SToken::Str(val) => parse_entries(
                            t,
                            i + 2,
                            insert_entry(acc, key, VdfTree::Str(val)),
                        ),
                        SToken::Close => Err(msg_close_as_value(key)),
                        SToken::Open => match parse_entries(t, i + 2, Seq::empty()) {
                            Err(e) => Err(e),
                            Ok((sub, j)) => {
                                if j >= t.len() || !(t[j] is Close) {
                                    Err(msg_unclosed(key))
                                } else if j <= i {
                                    // never taken: reading a block never moves backwards
                                    // (see `lemma_parse_entries_advances`)
                                    Ok((acc, i))
                                } else {
                                    parse_entries(
                                        t,
                                        j + 1,
                                        insert_entry(acc, key, VdfTree::Obj(sub)),
                                    )
                                }
                            },
                        },
                    }
                }
            },
        }
    }
}

/// The map that a whole VDF text describes.
pub open spec fn spec_parse(s: Seq<char>) -> Result<Seq<(Seq<char>, VdfTree)>, Seq<char>> {
    match lex(s) {
        Err(e) => Err(e),
        Ok(t) => match parse_entries(t, 0, Seq::empty()) {
            Err(e) => Err(e),
            Ok((m, j)) => if j < t.len() {
                Err(msg_trailing())
            } else {
                Ok(m)
            },
        },
    }
}

/// Reading entries never moves backwards, stays within the tokens, and from a
/// well-formed accumulator builds a well-formed map.
pub proof fn lemma_parse_entries_advances(
    t: Seq<SToken>,
    i: int,
    acc: Seq<(Seq<char>, VdfTree)>,
)
    requires
        0 <= i <= t.len(),
    ensures
        parse_entries(t, i, acc) matches Ok((m, j)) ==> i <= j <= t.len() && (entries_wf(acc)
            ==> entries_wf(m)),
    decreases t.len() - i,
{
    if i < t.len() {
        match t[i] {
            SToken::Str(key) => {
                if i + 1 < t.len() {
                    match t[i + 1] {
                        SToken::Str(val) => {
                            let acc2 = insert_entry(acc, key, VdfTree::Str(val));
                            lemma_parse_entries_advances(t, i + 2, acc2);
                            if entries_wf(acc) {
                                lemma_insert_wf(acc, key, VdfTree::Str(val));
                            }
                        },
                        SToken::Open => {
                            lemma_parse_entries_advances(t, i + 2, Seq::empty());
                            match parse_entries(t, i + 2, Seq::empty()) {
                                Ok((sub, j)) => {
                                    if j < t.len() && t[j] is Close {
                                        let acc2 = insert_entry(acc, key, VdfTree::Obj(sub));
                                        lemma_parse_entries_advances(t, j + 1, acc2);
                                        lemma_values_wf(Seq::<(Seq<char>, VdfTree)>::empty());
                                        if entries_wf(acc) {
                                            lemma_insert_wf(acc, key, VdfTree::Obj(sub));
                                        }
                                    }
                                },
                                Err(_) => {},
                            }
                        },
                        SToken::Close => {},
                    }
                }
            },
            _ => {},
        }
    }
}

/// A parsed document is well formed: every map in it has strictly increasing keys.
pub proof fn lemma_spec_parse_wf(s: Seq<char>)
    ensures
        spec_parse(s) matches Ok(m) ==> entries_wf(m),
{
    if let Ok(t) = lex(s) {
        lemma_values_wf(Seq::<(Seq<char>, VdfTree)>::empty());
        lemma_parse_entries_advances(t, 0, Seq::empty());
    }
}

/// Reads `key value` pairs from `tokens[*index..]` up to a closing brace or the
/// end; `*index` is left at the token where reading stopped.
fn parse_map(tokens: &Vec<Token>, index: &mut usize) -> (r: Result<VdfMap, String>)
    requires
        *old(index) <= tokens@.len(),
    ensures
        match r {
            Ok(m) => parse_entries(tokens_view(tokens@), *old(index) as int, Seq::empty()) == Ok::<
                (Seq<(Seq<char>, VdfTree)>, int),
                Seq<char>,
            >((m@, *final(index) as int)),
            Err(e) => parse_entries(tokens_view(tokens@), *old(index) as int, Seq::empty()) == Err::<
                (Seq<(Seq<char>, VdfTree)>, int),
                Seq<char>,
            >(e@),
        },
    decreases tokens@.len() - *old(index),
{
    let ghost t = tokens_view(tokens@);
    let ghost start = *index as int;
    let mut map = VdfMap::new();
    let n = tokens.len();
    loop
        invariant
            n == tokens@.len(),
            t == tokens_view(tokens@),
            t.len() == n,
            start == *old(index),
            start <= *index <= n,
            parse_entries(t, start, Seq::empty()) == parse_entries(t, *index as int, map@),
        ensures
            *index <= n,
            parse_entries(t, start, Seq::empty()) == Ok::<
                (Seq<(Seq<char>, VdfTree)>, int),
                Seq<char>,
            >((map@, *index as int)),
        decreases n - *index,
    {
        let i = *index;
        if i >= n {
            break ;
        }
        match &tokens[i] {
            Token::CloseBrace => {
                break ;
            },
            Token::OpenBrace => {
                return Err(String::from_str("unexpected '{' where key was expected"));
            },
            Token::Str(key) => {
                if i + 1 >= n {
                    let mut e = String::from_str("expected value for key '");
                    e.append(key.as_str());
                    e.append("', reached EOF");
                    return Err(e);
                }
                match &tokens[i + 1] {
                    Token::Str(val) => {
                        map.insert(key.clone(), VdfValue::Str(val.clone()));
                        *index = i + 2;
                    },
                    Token::OpenBrace => {
                        *index = i + 2;
                        let sub = parse_map(tokens, index)?;
                        let j = *index;
                        proof {
                            lemma_parse_entries_advances(t, i + 2, Seq::empty());
                        }
                        let closed = j < n && match &tokens[j] {
                            Token::CloseBrace => true,
                            _ => false,
                        };
                        if !closed {
                            let mut e = String::from_str("expected '}' to close block for key '");
                            e.append(key.as_str());
                            e.append("'");
                            return Err(e);
                        }
                        map.insert(key.clone(), VdfValue::Obj(sub));
                        *index = j + 1;
                    },
                    Token::CloseBrace => {
                        let mut e = String::from_str("unexpected '}' as value for key '");
                        e.append(key.as_str());
                        e.append("'");
                        return Err(e);
                    },
                }
            },
        }
    }
    Ok(map)
}

/// Parses VDF text into its root map.
pub fn parse(input: &str) -> (r: Result<VdfMap, String>)
    ensures
        match r {
            Ok(m) => spec_parse(input@) == Ok::<Seq<(Seq<char>, VdfTree)>, Seq<char>>(m@)
                && entries_wf(m@),
            Err(e) => spec_parse(input@) == Err::<Seq<(Seq<char>, VdfTree)>, Seq<char>>(e@),
        },
{
    let tokens = tokenize(input)?;
    let mut index: usize = 0;
    let map = parse_map(&tokens, &mut index)?;
    proof {
        lemma_parse_entries_advances(tokens_view(tokens@), 0, Seq::empty());
        lemma_values_wf(Seq::<(Seq<char>, VdfTree)>::empty());
    }
    if index < tokens.len() {
        return Err(String::from_str("unexpected tokens after parsing root map completed"));
    }
    Ok(map)
}

} // verus!
