//! Splitting source text into tokens.
use vstd::prelude::*;
use vstd::string::*;

use crate::syntax::{SyntaxError, SyntaxErrorKind, TokKind, Token};

verus! {

/// Whitespace, which may stand between any two tokens: the characters with
/// the Unicode White_Space property.
pub open spec fn is_space(c: char) -> bool {
    ('\u{9}' <= c && c <= '\u{d}') || c == ' ' || c == '\u{85}' || c == '\u{a0}' || c == '\u{1680}'
        || ('\u{2000}' <= c && c <= '\u{200a}') || c == '\u{2028}' || c == '\u{2029}' || c == '\u{202f}'
        || c == '\u{205f}' || c == '\u{3000}'
}

pub open spec fn is_digit(c: char) -> bool {
    '0' <= c && c <= '9'
}

pub open spec fn is_ident_start(c: char) -> bool {
    ('a' <= c && c <= 'z') || ('A' <= c && c <= 'Z') || c == '_'
}

pub open spec fn is_ident_char(c: char) -> bool {
    is_ident_start(c) || is_digit(c)
}

/// The token that a one-character operator or delimiter stands for.
pub open spec fn punct(c: char) -> Option<TokKind> {
    if c == '+' {
        Some(TokKind::Plus)
    } else if c == '-' {
        Some(TokKind::Minus)
    } else if c == '*' {
        Some(TokKind::Star)
    } else if c == '/' {
        Some(TokKind::Slash)
    } else if c == '(' {
        Some(TokKind::LParen)
    } else if c == ')' {
        Some(TokKind::RParen)
    } else if c == ',' {
        Some(TokKind::Comma)
    } else if c == '=' {
        Some(TokKind::Equals)
    } else if c == ';' {
        Some(TokKind::Semi)
    } else {
        None
    }
}

/// A character that can begin a token.
pub open spec fn starts_token(c: char) -> bool {
    is_digit(c) || is_ident_start(c) || punct(c) is Some
}

pub open spec fn let_word() -> Seq<char> {
    seq!['l', 'e', 't']
}

pub open spec fn fn_word() -> Seq<char> {
    seq!['f', 'n']
}

/// No letter, digit or underscore follows position `end`.
pub open spec fn word_ends(src: Seq<char>, end: int) -> bool {
    end == src.len() || !is_ident_char(src[end])
}

/// `t` is a token of `src`: its range is in bounds, its kind matches the text
/// there, and a number or a word is as long as it can be.
pub open spec fn token_fits(src: Seq<char>, t: Token) -> bool {
    &&& t.start < t.end <= src.len()
    &&& {
        let w = src.subrange(t.start as int, t.end as int);
        match t.kind {
            TokKind::Num(d) => {
                &&& d@ == w
                &&& forall|k: int| 0 <= k < w.len() ==> is_digit(#[trigger] w[k])
                &&& (t.end == src.len() || !is_digit(src[t.end as int]))
            },
            TokKind::Ident(x) => {
                &&& x@ == w
                &&& is_ident_start(w[0])
                &&& forall|k: int| 0 <= k < w.len() ==> is_ident_char(#[trigger] w[k])
                &&& word_ends(src, t.end as int)
                &&& w != let_word()
                &&& w != fn_word()
            },
            TokKind::Let => w == let_word() && word_ends(src, t.end as int),
            TokKind::Fn => w == fn_word() && word_ends(src, t.end as int),
            _ => t.end == t.start + 1 && punct(src[t.start as int]) == Some(t.kind),
        }
    }
}

/// Some token of `ts` covers position `p`.
pub open spec fn covered(ts: Seq<Token>, p: int) -> bool {
    exists|k: int| 0 <= k < ts.len() && #[trigger] ts[k].start <= p && p < ts[k].end
}

/// `ts` is the token sequence of `src`: each token fits, the tokens come in
/// order without overlap, and every character that is not whitespace lies in
/// a token.
pub open spec fn lexes(src: Seq<char>, ts: Seq<Token>) -> bool {
    &&& forall|k: int| 0 <= k < ts.len() ==> token_fits(src, #[trigger] ts[k])
    &&& forall|k: int| 0 <= k < ts.len() - 1 ==> #[trigger] ts[k].end <= ts[k + 1].start
    &&& forall|p: int| 0 <= p < src.len() && !is_space(#[trigger] src[p]) ==> covered(ts, p)
}

fn space_char(c: char) -> (r: bool)
    ensures
        r == is_space(c),
{
    ('\u{9}' <= c && c <= '\u{d}') || c == ' ' || c == '\u{85}' || c == '\u{a0}' || c == '\u{1680}'
        || ('\u{2000}' <= c && c <= '\u{200a}') || c == '\u{2028}' || c == '\u{2029}' || c == '\u{202f}'
        || c == '\u{205f}' || c == '\u{3000}'
}

fn digit_char(c: char) -> (r: bool)
    ensures
        r == is_digit(c),
{
    '0' <= c && c <= '9'
}

fn ident_start_char(c: char) -> (r: bool)
    ensures
        r == is_ident_start(c),
{
    ('a' <= c && c <= 'z') || ('A' <= c && c <= 'Z') || c == '_'
}

fn ident_char(c: char) -> (r: bool)
    ensures
        r == is_ident_char(c),
{
    ident_start_char(c) || digit_char(c)
}

fn punct_kind(c: char) -> (r: Option<TokKind>)
    ensures
        r == punct(c),
{
    if c == '+' {
        Some(TokKind::Plus)
    } else if c == '-' {
        Some(TokKind::Minus)
    } else if c == '*' {
        Some(TokKind::Star)
    } else if c == '/' {
        Some(TokKind::Slash)
    } else if c == '(' {
        Some(TokKind::LParen)
    } else if c == ')' {
        Some(TokKind::RParen)
    } else if c == ',' {
        Some(TokKind::Comma)
    } else if c == '=' {
        Some(TokKind::Equals)
    } else if c == ';' {
        Some(TokKind::Semi)
    } else {
        None
    }
}

fn chars_of(src: &str) -> (r: Vec<char>)
    ensures
        r@ == src@,
{
    let n = src.unicode_len();
    let mut r: Vec<char> = Vec::new();
    let mut i: usize = 0;
    while i < n
        invariant
            n == src@.len(),
            i <= n,
            r@ == src@.subrange(0, i as int),
        decreases n - i,
    {
        r.push(src.get_char(i));
        i = i + 1;
    }
    assert(r@ =~= src@);
    r
}

/// Splits `src` into tokens. Fails at the first character that is neither
/// whitespace nor part of a token.
pub fn tokenize(src: &str) -> (r: Result<Vec<Token>, SyntaxError>)
    ensures
        r matches Ok(ts) ==> lexes(src@, ts@),
        r matches Err(e) ==> {
            &&& e.kind == SyntaxErrorKind::UnexpectedChar
            &&& e.start < src@.len()
            &&& e.end == e.start + 1
            &&& !is_space(src@[e.start as int])
            &&& !starts_token(src@[e.start as int])
        },
{
    let chars = chars_of(src);
    let n = chars.len();
    let ghost s = src@;
    let mut ts: Vec<Token> = Vec::new();
    let mut i: usize = 0;
    while i < n
        invariant
            n == s.len(),
            chars@ == s,
            s == src@,
            i <= n,
            forall|k: int| 0 <= k < ts.len() ==> token_fits(s, #[trigger] ts@[k]),
            forall|k: int| 0 <= k < ts.len() - 1 ==> #[trigger] ts@[k].end <= ts@[k + 1].start,
            forall|k: int| 0 <= k < ts.len() ==> #[trigger] ts@[k].end <= i,
            forall|p: int| 0 <= p < i && !is_space(#[trigger] s[p]) ==> covered(ts@, p),
        decreases n - i,
    {
        let c = chars[i];
        if space_char(c) {
            i = i + 1;
        } else {
            let mut j: usize = i + 1;
            let kind: TokKind;
            if digit_char(c) {
                while j < n && digit_char(chars[j])
                    invariant
                        i < j <= n,
                        n == s.len(),
                        chars@ == s,
                        forall|q: int| i <= q < j ==> is_digit(#[trigger] s[q]),
                    decreases n - j,
                {
                    j = j + 1;
                }
                let text = String::from_str(src.substring_char(i, j));
                assert forall|k: int| 0 <= k < text@.len() implies is_digit(#[trigger] text@[k]) by {
                    assert(text@[k] == s[i + k]);
                }
                kind = TokKind::Num(text);
            } else if ident_start_char(c) {
                while j < n && ident_char(chars[j])
                    invariant
                        i < j <= n,
                        n == s.len(),
                        chars@ == s,
                        forall|q: int| i <= q < j ==> is_ident_char(#[trigger] s[q]),
                    decreases n - j,
                {
                    j = j + 1;
                }
                let text = String::from_str(src.substring_char(i, j));
                assert forall|k: int| 0 <= k < text@.len() implies is_ident_char(#[trigger] text@[k]) by {
                    assert(text@[k] == s[i + k]);
                }
                assert(text@[0] == s[i as int]);
                if j - i == 3 && chars[i] == 'l' && chars[i + 1] == 'e' && chars[i + 2] == 't' {
                    assert(text@ =~= let_word());
                    kind = TokKind::Let;
                } else if j - i == 2 && chars[i] == 'f' && chars[i + 1] == 'n' {
                    assert(text@ =~= fn_word());
                    kind = TokKind::Fn;
                } else {
                    assert(text@ != let_word()) by {
                        if text@ == let_word() {
                            assert(text@[0] == s[i as int] && text@[1] == s[i + 1] && text@[2] == s[i + 2]);
                        }
                    }
                    assert(text@ != fn_word()) by {
                        if text@ == fn_word() {
                            assert(fn_word().len() == 2 && fn_word()[0] == 'f' && fn_word()[1] == 'n');
                            assert(text@.len() == j - i);
                            assert(text@[0] == s[i as int] && text@[1] == s[i + 1]);
                        }
                    }
                    kind = TokKind::Ident(text);
                }
            } else {
                match punct_kind(c) {
                    Some(k) => {
                        kind = k;
                    },
                    None => {
                        return Err(SyntaxError { kind: SyntaxErrorKind::UnexpectedChar, start: i, end: i + 1 });
                    },
                }
            }
            let t = Token { kind, start: i, end: j };
            assert(token_fits(s, t));
            let ghost old_ts = ts@;
            ts.push(t);
            assert forall|p: int| 0 <= p < j && !is_space(#[trigger] s[p]) implies covered(ts@, p) by {
                if p < i {
                    let k = choose|k: int| 0 <= k < old_ts.len() && #[trigger] old_ts[k].start <= p && p < old_ts[k].end;
                    assert(ts@[k] == old_ts[k]);
                } else {
                    assert(ts@[old_ts.len() as int] == t);
                }
            }
            i = j;
        }
    }
    Ok(ts)
}

} // verus!
