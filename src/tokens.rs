//! Splitting source text into tokens.
use vstd::prelude::*;
use crate::text::chars_of;
use vstd::string::{StrSliceExecFns, StringExecFns};

verus! {

/// A piece of source text.
#[derive(Debug, Clone, PartialEq, Eq)]
pub struct Token(pub String);

/// Characters that end a token and are tokens of their own, but for blanks
/// and tabs, which only separate.
pub open spec fn is_split(c: char) -> bool {
    c == ' ' || c == '\u{da0}' || c == '"' || c == '\u{d9e}' || c == '\n' || c == '\u{27a4}'
        || c == '(' || c == ')' || c == '\t'
}

pub open spec fn is_ignored(c: char) -> bool {
    c == ' ' || c == '\t'
}

/// Tokens found so far, where the pending token starts, and whether the scan
/// is inside a string literal.
pub type TokState = (Seq<Seq<char>>, int, bool);

/// The scan after reading character `i` of `c` in state `st`. Inside a
/// string, only a quote not preceded by a backslash ends it: the text and
/// the quote become tokens. Outside, a split character ends the pending
/// token, if any, and is itself a token unless it is a blank or a tab; a
/// quote opens a string.
pub open spec fn tok_step(c: Seq<char>, st: TokState, i: int) -> TokState {
    let (toks, start, in_str) = st;
    if in_str {
        if c[i] == '"' && !(i > 0 && c[i - 1] == '\\') {
            (toks.push(c.subrange(start, i)).push(seq!['"']), i + 1, false)
        } else {
            st
        }
    } else if is_split(c[i]) {
        let t1 = if start != i { toks.push(c.subrange(start, i)) } else { toks };
        let t2 = if !is_ignored(c[i]) { t1.push(seq![c[i]]) } else { t1 };
        (t2, i + 1, c[i] == '"')
    } else {
        st
    }
}

/// The scan after the first `n` characters.
pub open spec fn tok_run(c: Seq<char>, n: int) -> TokState
    decreases n,
{
    if n <= 0 || n > c.len() {
        (Seq::empty(), 0, false)
    } else {
        tok_step(c, tok_run(c, n - 1), n - 1)
    }
}

/// The tokens of `c`. Text after the last split character is not a token.
pub open spec fn tokens_of(c: Seq<char>) -> Seq<Seq<char>> {
    tok_run(c, c.len() as int).0
}

pub open spec fn tokens_view(t: Seq<Token>) -> Seq<Seq<char>> {
    t.map_values(|x: Token| x.0@)
}

/// The characters `s[from..to]` as a string.
fn piece(s: &String, from: usize, to: usize) -> (r: String)
    requires
        from <= to <= s@.len(),
    ensures
        r@ == s@.subrange(from as int, to as int),
{
    String::from_str(s.as_str().substring_char(from, to))
}

proof fn lemma_run_bounds(c: Seq<char>, n: int)
    requires
        0 <= n <= c.len(),
    ensures
        0 <= tok_run(c, n).1 <= n,
    decreases n,
{
    if n > 0 {
        lemma_run_bounds(c, n - 1);
    }
}

/// Splits `s` into tokens.
pub fn tokenize(s: &String) -> (r: Vec<Token>)
    ensures
        tokens_view(r@) == tokens_of(s@),
{
    let c = chars_of(s);
    let mut v: Vec<Token> = Vec::new();
    let mut start: usize = 0;
    let mut in_str = false;
    let mut i: usize = 0;
    assert(tokens_view(v@) =~= Seq::<Seq<char>>::empty());
    while i < c.len()
        invariant
            c@ == s@,
            i <= c@.len(),
            tok_run(c@, i as int) == (tokens_view(v@), start as int, in_str),
        decreases c@.len() - i,
    {
        proof {
            lemma_run_bounds(c@, i as int);
        }
        let ch = c[i];
        let ghost tv = tokens_view(v@);
        if in_str {
            if ch == '"' && !(i > 0 && c[i - 1] == '\\') {
                v.push(Token(piece(s, start, i)));
                v.push(Token(piece(s, i, i + 1)));
                proof {
                    assert(c@.subrange(i as int, i + 1) =~= seq!['"']);
                    assert(tokens_view(v@) =~= tv.push(c@.subrange(start as int, i as int)).push(seq!['"']));
                }
                start = i + 1;
                in_str = false;
            }
        } else if ch == ' ' || ch == '\u{da0}' || ch == '"' || ch == '\u{d9e}' || ch == '\n' || ch == '\u{27a4}'
            || ch == '(' || ch == ')' || ch == '\t' {
            if start != i {
                v.push(Token(piece(s, start, i)));
            }
            let ghost t1 = tokens_view(v@);
            assert(t1 == if start != i { tv.push(c@.subrange(start as int, i as int)) } else { tv }) by {
                if start != i {
                    assert(t1 =~= tv.push(c@.subrange(start as int, i as int)));
                }
            }
            if !(ch == ' ' || ch == '\t') {
                v.push(Token(piece(s, i, i + 1)));
                proof {
                    assert(c@.subrange(i as int, i + 1) =~= seq![ch]);
                    assert(tokens_view(v@) =~= t1.push(seq![ch]));
                }
            }
            start = i + 1;
            in_str = ch == '"';
        }
        i = i + 1;
    }
    v
}

} // verus!
