//! The grammar, as a relation between token sequences and trees, and a
//! recursive-descent parser that only builds trees the grammar relates.
//!
//! Precedence, tightest first: atoms; prefix `-`; `*` and `/`, left-associative;
//! `+` and `-`, left-associative; `let`/`fn` declarations, each followed by the
//! declaration they scope over.
use vstd::prelude::*;

use crate::lexer::{lexes, tokenize};
use crate::syntax::{Expr, SyntaxError, SyntaxErrorKind, TokKind, Token};

verus! {

/// The kinds of a token sequence.
pub open spec fn kinds(ts: Seq<Token>) -> Seq<TokKind> {
    ts.map_values(|tk: Token| tk.kind)
}

/// Grammar levels: 0 atom, 1 unary, 2 product, 3 sum (an expression), 4 declaration.
/// `derives(t, e, lvl)` holds when the whole of `t` is a phrase of level `lvl`
/// whose tree is `e`.
pub open spec fn derives(t: Seq<TokKind>, e: Expr, lvl: nat) -> bool
    decreases t.len(), lvl,
{
    if lvl == 0 {
        let plain = match e {
            Expr::Num(d) => t == seq![TokKind::Num(d)],
            Expr::Var(x) => t == seq![TokKind::Ident(x)],
            Expr::Call(f, args) => {
                &&& t.len() >= 3
                &&& t[0] == TokKind::Ident(f)
                &&& t[1] == TokKind::LParen
                &&& t.last() == TokKind::RParen
                &&& args_derive(t.subrange(2, t.len() - 1), args@)
            },
            _ => false,
        };
        plain || {
            &&& t.len() >= 2
            &&& t[0] == TokKind::LParen
            &&& t.last() == TokKind::RParen
            &&& derives(t.subrange(1, t.len() - 1), e, 3)
        }
    } else if lvl == 1 {
        derives(t, e, 0) || match e {
            Expr::Neg(a) => t.len() >= 1 && t[0] == TokKind::Minus && derives(t.subrange(1, t.len() as int), *a, 1),
            _ => false,
        }
    } else if lvl == 2 {
        derives(t, e, 1) || match e {
            Expr::Mul(a, b) => exists|k: int|
                0 < k < t.len() - 1 && #[trigger] t[k] == TokKind::Star && derives(t.subrange(0, k), *a, 2)
                    && derives(t.subrange(k + 1, t.len() as int), *b, 1),
            Expr::Div(a, b) => exists|k: int|
                0 < k < t.len() - 1 && #[trigger] t[k] == TokKind::Slash && derives(t.subrange(0, k), *a, 2)
                    && derives(t.subrange(k + 1, t.len() as int), *b, 1),
            _ => false,
        }
    } else if lvl == 3 {
        derives(t, e, 2) || match e {
            Expr::Add(a, b) => exists|k: int|
                0 < k < t.len() - 1 && #[trigger] t[k] == TokKind::Plus && derives(t.subrange(0, k), *a, 3)
                    && derives(t.subrange(k + 1, t.len() as int), *b, 2),
            Expr::Sub(a, b) => exists|k: int|
                0 < k < t.len() - 1 && #[trigger] t[k] == TokKind::Minus && derives(t.subrange(0, k), *a, 3)
                    && derives(t.subrange(k + 1, t.len() as int), *b, 2),
            _ => false,
        }
    } else {
        derives(t, e, 3) || match e {
            Expr::Let { name, rhs, then } => exists|k: int|
                3 < k < t.len() && #[trigger] t[k] == TokKind::Semi && t[0] == TokKind::Let && t[1]
                    == TokKind::Ident(name) && t[2] == TokKind::Equals && derives(t.subrange(3, k), *rhs, 3)
                    && derives(t.subrange(k + 1, t.len() as int), *then, 4),
            Expr::Fn { name, params, body, then } => exists|k: int|
                3 + params.len() < k < t.len() && #[trigger] t[k] == TokKind::Semi && t[0] == TokKind::Fn && t[1]
                    == TokKind::Ident(name) && (forall|j: int|
                    0 <= j < params.len() ==> #[trigger] t[2 + j] == TokKind::Ident(params@[j])) && t[2
                    + params.len()] == TokKind::Equals && derives(
                    t.subrange(3 + params.len(), k),
                    *body,
                    3,
                ) && derives(t.subrange(k + 1, t.len() as int), *then, 4),
            _ => false,
        }
    }
}

/// `t` is the expressions `args`, separated by commas.
pub open spec fn list_derives(t: Seq<TokKind>, args: Seq<Expr>) -> bool
    decreases t.len(), 5nat,
{
    if args.len() == 0 {
        t.len() == 0
    } else if args.len() == 1 {
        derives(t, args[0], 3)
    } else {
        exists|k: int|
            0 < k < t.len() && #[trigger] t[k] == TokKind::Comma && list_derives(t.subrange(0, k), args.drop_last())
                && derives(t.subrange(k + 1, t.len() as int), args.last(), 3)
    }
}

/// `t` is an argument list: `args` separated by commas, with an optional
/// trailing comma after the last one.
pub open spec fn args_derive(t: Seq<TokKind>, args: Seq<Expr>) -> bool
    decreases t.len(), 6nat,
{
    list_derives(t, args) || (args.len() > 0 && t.len() > 0 && t.last() == TokKind::Comma
        && list_derives(t.drop_last(), args))
}

/// `src` is a well-formed program whose tree is `e`.
pub open spec fn parses_to(src: Seq<char>, e: Expr) -> bool {
    exists|ts: Seq<Token>| lexes(src, ts) && #[trigger] derives(kinds(ts), e, 4)
}

/// What may stand right after a phrase of level `lvl` in a program: the end,
/// `)`, `,`, `;`, or an operator of a looser level.
pub open spec fn follows(t: Seq<TokKind>, j: int, lvl: nat) -> bool {
    ||| j == t.len()
    ||| 0 <= j < t.len() && {
        ||| t[j] is RParen
        ||| t[j] is Comma
        ||| t[j] is Semi
        ||| lvl <= 2 && (t[j] is Plus || t[j] is Minus)
        ||| lvl <= 1 && (t[j] is Star || t[j] is Slash)
    }
}

/// The separator of a run: `+`/`-` for sums (3), `*`/`/` for products (2), `,`
/// for argument lists (5).
pub open spec fn is_sep(k: TokKind, lvl: nat) -> bool {
    if lvl == 3 {
        k is Plus || k is Minus
    } else if lvl == 2 {
        k is Star || k is Slash
    } else {
        k is Comma
    }
}

/// The level of the pieces that a run of level `lvl` separates.
pub open spec fn piece(lvl: nat) -> nat {
    if lvl == 3 {
        2
    } else if lvl == 2 {
        1
    } else {
        3
    }
}

/// `t[m..j]` is a run of `separator piece` pairs, each piece followed by a
/// token that may follow it.
pub open spec fn run(t: Seq<TokKind>, m: int, j: int, lvl: nat) -> bool
    decreases j - m,
{
    if m >= j {
        m == j
    } else {
        &&& 0 <= m < t.len()
        &&& is_sep(t[m], lvl)
        &&& exists|k: int, b: Expr|
            m + 1 < k <= j && #[trigger] derives(t.subrange(m + 1, k), b, piece(lvl)) && follows(t, k, piece(lvl))
                && run(t, k, j, lvl)
    }
}

/// What may come after an argument that ends at `m`, up to the `)` at `q`: more
/// arguments, then at most one trailing comma.
pub open spec fn list_tail(t: Seq<TokKind>, m: int, q: int) -> bool {
    run(t, m, q, 5) || (m < q && t[q - 1] is Comma && run(t, m, q - 1, 5))
}

/// `t[j..q]` is an argument list whose first argument starts at `j`.
pub open spec fn list_from(t: Seq<TokKind>, j: int, q: int) -> bool {
    exists|k: int, a: Expr|
        j < k <= q && #[trigger] derives(t.subrange(j, k), a, 3) && follows(t, k, 3) && list_tail(t, k, q)
}

/// Whenever `t[i..j]` is a phrase of level `lvl` followed by what may follow
/// it, the parser at `i` succeeds and stops at `j`.
pub open spec fn complete(t: Seq<TokKind>, i: int, lvl: nat, r: Result<(Expr, usize), Fail>) -> bool {
    forall|j: int, e: Expr|
        i < j <= t.len() && #[trigger] derives(t.subrange(i, j), e, lvl) && follows(t, j, lvl) ==> (r matches Ok(
            (_, jj),
        ) && jj == j)
}

/// Whenever `t[i..q]` is an argument list closed by the `)` at `q`, the
/// argument parser at `i` succeeds and stops at `q`.
pub open spec fn args_complete(t: Seq<TokKind>, i: int, r: Result<(Vec<Expr>, usize), Fail>) -> bool {
    forall|q: int, a: Seq<Expr>|
        i <= q < t.len() && t[q] is RParen && #[trigger] args_derive(t.subrange(i, q), a) ==> (r matches Ok(
            (_, qq),
        ) && qq == q)
}

/// `e` is the binary node `left op right` of level `lvl`, split at `k`.
pub open spec fn split_at(t: Seq<TokKind>, e: Expr, lvl: nat, k: int) -> bool {
    &&& 0 < k < t.len() - 1
    &&& is_sep(t[k], lvl)
    &&& match e {
        Expr::Add(a, b) => lvl == 3 && t[k] == TokKind::Plus && derives(t.subrange(0, k), *a, 3) && derives(
            t.subrange(k + 1, t.len() as int),
            *b,
            2,
        ),
        Expr::Sub(a, b) => lvl == 3 && t[k] == TokKind::Minus && derives(t.subrange(0, k), *a, 3) && derives(
            t.subrange(k + 1, t.len() as int),
            *b,
            2,
        ),
        Expr::Mul(a, b) => lvl == 2 && t[k] == TokKind::Star && derives(t.subrange(0, k), *a, 2) && derives(
            t.subrange(k + 1, t.len() as int),
            *b,
            1,
        ),
        Expr::Div(a, b) => lvl == 2 && t[k] == TokKind::Slash && derives(t.subrange(0, k), *a, 2) && derives(
            t.subrange(k + 1, t.len() as int),
            *b,
            1,
        ),
        _ => false,
    }
}

pub open spec fn left_of(e: Expr) -> Expr {
    match e {
        Expr::Add(a, _) => *a,
        Expr::Sub(a, _) => *a,
        Expr::Mul(a, _) => *a,
        Expr::Div(a, _) => *a,
        _ => e,
    }
}

pub open spec fn right_of(e: Expr) -> Expr {
    match e {
        Expr::Add(_, b) => *b,
        Expr::Sub(_, b) => *b,
        Expr::Mul(_, b) => *b,
        Expr::Div(_, b) => *b,
        _ => e,
    }
}

/// The split of a binary phrase that is not a phrase of the level below.
proof fn get_split(t: Seq<TokKind>, e: Expr, lvl: nat) -> (k: int)
    requires
        lvl == 2 || lvl == 3,
        derives(t, e, lvl),
        !derives(t, e, (lvl - 1) as nat),
    ensures
        split_at(t, e, lvl, k),
        derives(t.subrange(0, k), left_of(e), lvl),
        derives(t.subrange(k + 1, t.len() as int), right_of(e), (lvl - 1) as nat),
{
    match e {
        Expr::Mul(a, b) => choose|k: int|
            0 < k < t.len() - 1 && #[trigger] t[k] == TokKind::Star && derives(t.subrange(0, k), *a, 2)
                && derives(t.subrange(k + 1, t.len() as int), *b, 1),
        Expr::Div(a, b) => choose|k: int|
            0 < k < t.len() - 1 && #[trigger] t[k] == TokKind::Slash && derives(t.subrange(0, k), *a, 2)
                && derives(t.subrange(k + 1, t.len() as int), *b, 1),
        Expr::Add(a, b) => choose|k: int|
            0 < k < t.len() - 1 && #[trigger] t[k] == TokKind::Plus && derives(t.subrange(0, k), *a, 3)
                && derives(t.subrange(k + 1, t.len() as int), *b, 2),
        Expr::Sub(a, b) => choose|k: int|
            0 < k < t.len() - 1 && #[trigger] t[k] == TokKind::Minus && derives(t.subrange(0, k), *a, 3)
                && derives(t.subrange(k + 1, t.len() as int), *b, 2),
        _ => 0,
    }
}

/// Every expression phrase starts with a number, a name, `(` or `-`; an atom
/// never with `-`.
pub proof fn lemma_first_token(t: Seq<TokKind>, e: Expr, lvl: nat)
    requires
        lvl <= 3,
        derives(t, e, lvl),
    ensures
        t.len() >= 1,
        t[0] is Num || t[0] is Ident || t[0] is LParen || t[0] is Minus,
        lvl == 0 ==> !(t[0] is Minus),
    decreases t.len(), lvl,
{
    if lvl == 1 {
        if derives(t, e, 0) {
            lemma_first_token(t, e, 0);
        }
    } else if lvl >= 2 {
        if derives(t, e, (lvl - 1) as nat) {
            lemma_first_token(t, e, (lvl - 1) as nat);
        } else {
            let k = get_split(t, e, lvl);
            lemma_first_token(t.subrange(0, k), left_of(e), lvl);
        }
    }
}

/// Appending `separator piece` to a run keeps it a run.
proof fn lemma_run_append(t: Seq<TokKind>, m: int, k: int, j: int, b: Expr, lvl: nat)
    requires
        run(t, m, k, lvl),
        m <= k,
        0 <= k < t.len(),
        is_sep(t[k], lvl),
        k + 1 < j <= t.len(),
        derives(t.subrange(k + 1, j), b, piece(lvl)),
        follows(t, j, piece(lvl)),
    ensures
        run(t, m, j, lvl),
    decreases k - m,
{
    assert(run(t, j, j, lvl));
    if m == k {
        assert(run(t, m, j, lvl));
    } else {
        let (k2, b2) = choose|k2: int, b2: Expr|
            m + 1 < k2 <= k && #[trigger] derives(t.subrange(m + 1, k2), b2, piece(lvl)) && follows(
                t,
                k2,
                piece(lvl),
            ) && run(t, k2, k, lvl);
        lemma_run_append(t, k2, k, j, b, lvl);
        assert(run(t, m, j, lvl));
    }
}

/// A sum (product) phrase starts with a product (unary) phrase followed by a
/// run of `op operand` pairs.
proof fn lemma_run_start(t: Seq<TokKind>, i: int, j: int, e: Expr, lvl: nat)
    requires
        lvl == 2 || lvl == 3,
        0 <= i < j <= t.len(),
        derives(t.subrange(i, j), e, lvl),
        follows(t, j, piece(lvl)),
    ensures
        exists|k0: int, a: Expr|
            i < k0 <= j && #[trigger] derives(t.subrange(i, k0), a, piece(lvl)) && follows(t, k0, piece(lvl))
                && run(t, k0, j, lvl),
    decreases j - i,
{
    let u = t.subrange(i, j);
    if derives(u, e, piece(lvl)) {
        assert(run(t, j, j, lvl));
    } else {
        let k = get_split(u, e, lvl);
        assert(u.subrange(0, k) =~= t.subrange(i, i + k));
        assert(u.subrange(k + 1, u.len() as int) =~= t.subrange(i + k + 1, j));
        assert(u[k] == t[i + k]);
        lemma_run_start(t, i, i + k, left_of(e), lvl);
        let (k0, a) = choose|k0: int, a: Expr|
            i < k0 <= i + k && #[trigger] derives(t.subrange(i, k0), a, piece(lvl)) && follows(t, k0, piece(lvl))
                && run(t, k0, i + k, lvl);
        lemma_run_append(t, k0, i + k, j, right_of(e), lvl);
    }
}

/// An argument list starts with an argument followed by a run of `, argument`.
proof fn lemma_list_start(t: Seq<TokKind>, s: int, q: int, a: Seq<Expr>)
    requires
        0 <= s <= q <= t.len(),
        a.len() >= 1,
        list_derives(t.subrange(s, q), a),
        follows(t, q, 3),
    ensures
        exists|k0: int, x: Expr|
            s < k0 <= q && #[trigger] derives(t.subrange(s, k0), x, 3) && follows(t, k0, 3) && run(t, k0, q, 5),
    decreases a.len(),
{
    let u = t.subrange(s, q);
    if a.len() == 1 {
        assert(u.len() >= 1) by {
            lemma_first_token(u, a[0], 3);
        }
        assert(run(t, q, q, 5));
        assert(derives(t.subrange(s, q), a[0], 3));
    } else {
        let k = choose|k: int|
            0 < k < u.len() && #[trigger] u[k] == TokKind::Comma && list_derives(u.subrange(0, k), a.drop_last())
                && derives(u.subrange(k + 1, u.len() as int), a.last(), 3);
        assert(u.subrange(0, k) =~= t.subrange(s, s + k));
        assert(u.subrange(k + 1, u.len() as int) =~= t.subrange(s + k + 1, q));
        assert(u[k] == t[s + k]);
        lemma_list_start(t, s, s + k, a.drop_last());
        let (k0, x) = choose|k0: int, x: Expr|
            s < k0 <= s + k && #[trigger] derives(t.subrange(s, k0), x, 3) && follows(t, k0, 3) && run(
                t,
                k0,
                s + k,
                5,
            );
        lemma_first_token(t.subrange(s + k + 1, q), a.last(), 3);
        lemma_run_append(t, k0, s + k, q, a.last(), 5);
    }
}

/// An argument list closed at `q` is empty, or starts at `i` with an argument.
proof fn lemma_args_start(t: Seq<TokKind>, i: int, q: int, a: Seq<Expr>)
    requires
        0 <= i <= q < t.len(),
        t[q] is RParen,
        args_derive(t.subrange(i, q), a),
    ensures
        q == i || (list_from(t, i, q) && !(t[i] is RParen)),
{
    let u = t.subrange(i, q);
    if list_derives(u, a) {
        if a.len() > 0 {
            lemma_list_start(t, i, q, a);
            let (k0, x) = choose|k0: int, x: Expr|
                i < k0 <= q && #[trigger] derives(t.subrange(i, k0), x, 3) && follows(t, k0, 3) && run(t, k0, q, 5);
            lemma_first_token(t.subrange(i, k0), x, 3);
            assert(t.subrange(i, k0)[0] == t[i]);
        }
    } else {
        assert(u.drop_last() =~= t.subrange(i, q - 1));
        assert(u.last() == t[q - 1]);
        lemma_list_start(t, i, q - 1, a);
        let (k0, x) = choose|k0: int, x: Expr|
            i < k0 <= q - 1 && #[trigger] derives(t.subrange(i, k0), x, 3) && follows(t, k0, 3) && run(
                t,
                k0,
                q - 1,
                5,
            );
        lemma_first_token(t.subrange(i, k0), x, 3);
        assert(t.subrange(i, k0)[0] == t[i]);
        assert(list_tail(t, k0, q));
    }
}

/// After an argument that ends at `m`, the list closed at `q` ends there, or
/// goes on with a comma: to its end, or to another argument.
proof fn lemma_tail_step(t: Seq<TokKind>, m: int, q: int)
    requires
        0 <= m <= q < t.len(),
        list_tail(t, m, q),
    ensures
        q == m || (t[m] is Comma && (q == m + 1 || (list_from(t, m + 1, q) && !(t[m + 1] is RParen)))),
{
    if q != m {
        if run(t, m, q, 5) {
            let (k, b) = choose|k: int, b: Expr|
                m + 1 < k <= q && #[trigger] derives(t.subrange(m + 1, k), b, 3) && follows(t, k, 3) && run(t, k, q, 5);
            assert(list_tail(t, k, q));
            lemma_first_token(t.subrange(m + 1, k), b, 3);
            assert(t.subrange(m + 1, k)[0] == t[m + 1]);
        } else if m < q - 1 {
            let (k, b) = choose|k: int, b: Expr|
                m + 1 < k <= q - 1 && #[trigger] derives(t.subrange(m + 1, k), b, 3) && follows(t, k, 3) && run(
                    t,
                    k,
                    q - 1,
                    5,
                );
            assert(list_tail(t, k, q));
            lemma_first_token(t.subrange(m + 1, k), b, 3);
            assert(t.subrange(m + 1, k)[0] == t[m + 1]);
        }
    }
}

proof fn lemma_decl_nonempty(t: Seq<TokKind>, e: Expr)
    requires
        derives(t, e, 4),
    ensures
        t.len() >= 1,
{
    if derives(t, e, 3) {
        lemma_first_token(t, e, 3);
    }
}

/// The landmarks of `let`/`fn` declaration `t[i..jj]`: its name, parameters up
/// to the `=` at `p`, its body up to the `;` at `k`, and the rest.
pub open spec fn decl_parts(t: Seq<TokKind>, i: int, jj: int, p: int, k: int) -> bool {
    &&& i + 2 <= p
    &&& p + 1 < k
    &&& k + 1 < jj <= t.len()
    &&& t[i + 1] is Ident
    &&& forall|q: int| i + 2 <= q < p ==> #[trigger] t[q] is Ident
    &&& t[p] is Equals
    &&& exists|b: Expr| #[trigger] derives(t.subrange(p + 1, k), b, 3)
    &&& t[k] is Semi
    &&& exists|c: Expr| #[trigger] derives(t.subrange(k + 1, jj), c, 4)
}

proof fn lemma_decl_parts(t: Seq<TokKind>, i: int, jj: int, e: Expr)
    requires
        0 <= i < jj <= t.len(),
        derives(t.subrange(i, jj), e, 4),
        t[i] is Let || t[i] is Fn,
    ensures
        exists|p: int, k: int| decl_parts(t, i, jj, p, k) && (t[i] is Let ==> p == i + 2),
{
    let u = t.subrange(i, jj);
    assert(u[0] == t[i]);
    if derives(u, e, 3) {
        lemma_first_token(u, e, 3);
    }
    match e {
        Expr::Let { name, rhs, then } => {
            let k = choose|k: int|
                3 < k < u.len() && #[trigger] u[k] == TokKind::Semi && u[0] == TokKind::Let && u[1] == TokKind::Ident(
                    name,
                ) && u[2] == TokKind::Equals && derives(u.subrange(3, k), *rhs, 3) && derives(
                    u.subrange(k + 1, u.len() as int),
                    *then,
                    4,
                );
            assert(u.subrange(3, k) =~= t.subrange(i + 3, i + k));
            assert(u.subrange(k + 1, u.len() as int) =~= t.subrange(i + k + 1, jj));
            lemma_decl_nonempty(t.subrange(i + k + 1, jj), *then);
            assert(u[1] == t[i + 1] && u[2] == t[i + 2] && u[k] == t[i + k]);
            assert(derives(t.subrange(i + 3, i + k), *rhs, 3));
            assert(derives(t.subrange(i + k + 1, jj), *then, 4));
            assert(decl_parts(t, i, jj, i + 2, i + k));
        },
        Expr::Fn { name, params, body, then } => {
            let n = params@.len() as int;
            let k = choose|k: int|
                3 + n < k < u.len() && #[trigger] u[k] == TokKind::Semi && u[0] == TokKind::Fn && u[1]
                    == TokKind::Ident(name) && (forall|j: int|
                    0 <= j < n ==> #[trigger] u[2 + j] == TokKind::Ident(params@[j])) && u[2 + n] == TokKind::Equals
                    && derives(u.subrange(3 + n, k), *body, 3) && derives(u.subrange(k + 1, u.len() as int), *then, 4);
            assert(u.subrange(3 + n, k) =~= t.subrange(i + 3 + n, i + k));
            assert(u.subrange(k + 1, u.len() as int) =~= t.subrange(i + k + 1, jj));
            lemma_decl_nonempty(t.subrange(i + k + 1, jj), *then);
            assert(u[1] == t[i + 1] && u[2 + n] == t[i + 2 + n] && u[k] == t[i + k]);
            assert forall|q: int| i + 2 <= q < i + 2 + n implies #[trigger] t[q] is Ident by {
                assert(u[2 + (q - i - 2)] == t[q]);
            }
            assert(derives(t.subrange(i + 3 + n, i + k), *body, 3));
            assert(derives(t.subrange(i + k + 1, jj), *then, 4));
            assert(decl_parts(t, i, jj, i + 2 + n, i + k));
        },
        _ => {},
    }
}

/// A parse failure: the index of the offending token (the token count for the
/// end of input) and what was wrong there.
type Fail = (usize, SyntaxErrorKind);

fn parse_atom(toks: &Vec<Token>, i: usize) -> (r: Result<(Expr, usize), Fail>)
    requires
        i <= toks@.len(),
    ensures
        r matches Ok((e, j)) ==> i < j <= toks@.len() && derives(kinds(toks@).subrange(i as int, j as int), e, 0),
        r matches Err((p, k)) ==> i <= p <= toks@.len() && k != SyntaxErrorKind::UnexpectedChar && k != SyntaxErrorKind::ExpectedEnd,
        complete(kinds(toks@), i as int, 0, r),
    decreases toks@.len() - i, 0nat,
{
    let ghost t = kinds(toks@);
    assert(forall|q: int| 0 <= q < toks@.len() ==> #[trigger] t[q] == toks@[q].kind);
    if i >= toks.len() {
        return Err((i, SyntaxErrorKind::ExpectedExpr));
    }
    proof {
        assert forall|j: int, e: Expr| i < j <= t.len() && #[trigger] derives(t.subrange(i as int, j), e, 0) implies {
            let u = t.subrange(i as int, j);
            &&& u[0] == t[i as int]
            &&& (u.len() >= 2 ==> u[1] == t[i + 1])
            &&& u.last() == t[j - 1]
        } by {}
    }
    match &toks[i].kind {
        TokKind::Num(d) => {
            let e = Expr::Num(d.clone());
            assert(t.subrange(i as int, i + 1) =~= seq![TokKind::Num(*d)]);
            Ok((e, i + 1))
        },
        TokKind::Ident(x) => {
            if i + 1 < toks.len() && matches!(toks[i + 1].kind, TokKind::LParen) {
                let res = parse_args(toks, i + 2);
                proof {
                    assert(args_complete(t, i + 2, res));
                }
                let (args, j) = match res {
                    Ok(v) => v,
                    Err(f) => {
                        proof {
                            assert forall|jj: int, e: Expr|
                                i < jj <= t.len() && #[trigger] derives(t.subrange(i as int, jj), e, 0) && follows(
                                    t,
                                    jj,
                                    0,
                                ) implies false by {
                                let u = t.subrange(i as int, jj);
                                if u.len() >= 3 && e is Call {
                                    assert(u.subrange(2, u.len() - 1) =~= t.subrange(i + 2, jj - 1));
                                    assert(args_derive(t.subrange(i + 2, jj - 1), e->Call_1@));
                                }
                            }
                        }
                        return Err(f);
                    },
                };
                let e = Expr::Call(x.clone(), args);
                proof {
                    let u = t.subrange(i as int, j + 1);
                    assert(u.subrange(2, u.len() - 1) =~= t.subrange(i + 2, j as int));
                    assert(u[0] == TokKind::Ident(*x));
                    assert(u.last() == t[j as int]);
                    assert forall|jj: int, e2: Expr|
                        i < jj <= t.len() && #[trigger] derives(t.subrange(i as int, jj), e2, 0) && follows(
                            t,
                            jj,
                            0,
                        ) implies jj == j + 1 by {
                        let u2 = t.subrange(i as int, jj);
                        if u2.len() >= 3 && e2 is Call {
                            assert(u2.subrange(2, u2.len() - 1) =~= t.subrange(i + 2, jj - 1));
                            assert(args_derive(t.subrange(i + 2, jj - 1), e2->Call_1@));
                        }
                    }
                }
                Ok((e, j + 1))
            } else {
                let e = Expr::Var(x.clone());
                assert(t.subrange(i as int, i + 1) =~= seq![TokKind::Ident(*x)]);
                Ok((e, i + 1))
            }
        },
        TokKind::LParen => {
            let res = parse_sum(toks, i + 1);
            proof {
                assert(complete(t, i + 1, 3, res));
            }
            let (e, j) = match res {
                Ok(v) => v,
                Err(f) => {
                    proof {
                        assert forall|jj: int, e: Expr|
                            i < jj <= t.len() && #[trigger] derives(t.subrange(i as int, jj), e, 0) && follows(
                                t,
                                jj,
                                0,
                            ) implies false by {
                            let u = t.subrange(i as int, jj);
                            assert(u[0] == t[i as int]);
                            assert(u.last() == t[jj - 1]);
                            assert(u.subrange(1, u.len() - 1) =~= t.subrange(i + 1, jj - 1));
                            lemma_first_token(t.subrange(i + 1, jj - 1), e, 3);
                            assert(follows(t, jj - 1, 3));
                            assert(derives(t.subrange(i + 1, jj - 1), e, 3));
                            assert(i + 1 < jj - 1 <= t.len());
                        }
                    }
                    return Err(f);
                },
            };
            proof {
                assert forall|jj: int, e2: Expr|
                    i < jj <= t.len() && #[trigger] derives(t.subrange(i as int, jj), e2, 0) && follows(
                        t,
                        jj,
                        0,
                    ) implies jj == j + 1 && t[j as int] is RParen by {
                    let u = t.subrange(i as int, jj);
                    assert(u[0] == t[i as int]);
                    assert(u.last() == t[jj - 1]);
                    assert(u.subrange(1, u.len() - 1) =~= t.subrange(i + 1, jj - 1));
                    lemma_first_token(t.subrange(i + 1, jj - 1), e2, 3);
                    assert(follows(t, jj - 1, 3));
                    assert(derives(t.subrange(i + 1, jj - 1), e2, 3));
                    assert(i + 1 < jj - 1 <= t.len());
                }
            }
            if j < toks.len() && matches!(toks[j].kind, TokKind::RParen) {
                proof {
                    let u = t.subrange(i as int, j + 1);
                    assert(u.subrange(1, u.len() - 1) =~= t.subrange(i + 1, j as int));
                    assert(u.last() == t[j as int]);
                }
                Ok((e, j + 1))
            } else {
                Err((j, SyntaxErrorKind::ExpectedRParen))
            }
        },
        _ => Err((i, SyntaxErrorKind::ExpectedExpr)),
    }
}

/// An argument list starting at `i`, up to and not including its `)`.
fn parse_args(toks: &Vec<Token>, i: usize) -> (r: Result<(Vec<Expr>, usize), Fail>)
    requires
        i <= toks@.len(),
    ensures
        r matches Ok((args, j)) ==> {
            &&& i <= j < toks@.len()
            &&& kinds(toks@)[j as int] == TokKind::RParen
            &&& args_derive(kinds(toks@).subrange(i as int, j as int), args@)
        },
        r matches Err((p, k)) ==> i <= p <= toks@.len() && k != SyntaxErrorKind::UnexpectedChar && k != SyntaxErrorKind::ExpectedEnd,
        args_complete(kinds(toks@), i as int, r),
    decreases toks@.len() - i, 5nat,
{
    let ghost t = kinds(toks@);
    assert(forall|q: int| 0 <= q < toks@.len() ==> #[trigger] t[q] == toks@[q].kind);
    let mut args: Vec<Expr> = Vec::new();
    if i < toks.len() && matches!(toks[i].kind, TokKind::RParen) {
        assert(t.subrange(i as int, i as int).len() == 0);
        proof {
            assert forall|q: int, a: Seq<Expr>|
                i <= q < t.len() && t[q] is RParen && #[trigger] args_derive(t.subrange(i as int, q), a) implies q
                == i by {
                lemma_args_start(t, i as int, q, a);
            }
        }
        return Ok((args, i));
    }
    proof {
        assert forall|q: int, a: Seq<Expr>|
            i <= q < t.len() && t[q] is RParen && #[trigger] args_derive(t.subrange(i as int, q), a) implies list_from(
            t,
            i as int,
            q,
        ) by {
            lemma_args_start(t, i as int, q, a);
        }
    }
    let mut j: usize = i;
    loop
        invariant
            i <= j <= toks@.len(),
            t == kinds(toks@),
            args@.len() == 0 ==> j == i,
            args@.len() > 0 ==> {
                &&& j >= i + 2
                &&& t[j - 1] == TokKind::Comma
                &&& list_derives(t.subrange(i as int, j - 1), args@)
            },
            forall|q: int, a: Seq<Expr>|
                i <= q < t.len() && t[q] is RParen && #[trigger] args_derive(t.subrange(i as int, q), a)
                    ==> list_from(t, j as int, q),
        decreases toks@.len() - j,
    {
        let res = parse_sum(toks, j);
        proof {
            assert(complete(t, j as int, 3, res));
            assert forall|q: int, a: Seq<Expr>|
                i <= q < t.len() && t[q] is RParen && #[trigger] args_derive(t.subrange(i as int, q), a) implies (
                res matches Ok((_, m)) && list_tail(t, m as int, q) && m <= q) by {
                assert(list_from(t, j as int, q));
                let (k, x) = choose|k: int, x: Expr|
                    j < k <= q && #[trigger] derives(t.subrange(j as int, k), x, 3) && follows(t, k, 3) && list_tail(
                        t,
                        k,
                        q,
                    );
            }
        }
        let (e, m) = match res {
            Ok(v) => v,
            Err(f) => {
                return Err(f);
            },
        };
        let ghost before = args@;
        args.push(e);
        proof {
            let u = t.subrange(i as int, m as int);
            if before.len() == 0 {
                assert(u =~= t.subrange(j as int, m as int));
            } else {
                let k = j - 1 - i;
                assert(u.subrange(0, k) =~= t.subrange(i as int, j - 1));
                assert(u.subrange(k + 1, u.len() as int) =~= t.subrange(j as int, m as int));
                assert(args@.drop_last() =~= before);
                assert(u[k] == TokKind::Comma);
            }
            assert(list_derives(u, args@));
            assert forall|q: int, a: Seq<Expr>|
                i <= q < t.len() && t[q] is RParen && #[trigger] args_derive(t.subrange(i as int, q), a) implies (q
                == m || (t[m as int] is Comma && (q == m + 1 || (list_from(t, m + 1, q) && !(t[m + 1] is RParen)))))
                by {
                lemma_tail_step(t, m as int, q);
            }
        }
        if m < toks.len() && matches!(toks[m].kind, TokKind::RParen) {
            return Ok((args, m));
        }
        if m < toks.len() && matches!(toks[m].kind, TokKind::Comma) {
            if m + 1 < toks.len() && matches!(toks[m + 1].kind, TokKind::RParen) {
                assert(t.subrange(i as int, m + 1).drop_last() =~= t.subrange(i as int, m as int));
                return Ok((args, m + 1));
            }
            j = m + 1;
        } else {
            return Err((m, SyntaxErrorKind::ExpectedCommaOrRParen));
        }
    }
}

fn parse_unary(toks: &Vec<Token>, i: usize) -> (r: Result<(Expr, usize), Fail>)
    requires
        i <= toks@.len(),
    ensures
        r matches Ok((e, j)) ==> i < j <= toks@.len() && derives(kinds(toks@).subrange(i as int, j as int), e, 1),
        r matches Err((p, k)) ==> i <= p <= toks@.len() && k != SyntaxErrorKind::UnexpectedChar && k != SyntaxErrorKind::ExpectedEnd,
        complete(kinds(toks@), i as int, 1, r),
    decreases toks@.len() - i, 1nat,
{
    let ghost t = kinds(toks@);
    assert(forall|q: int| 0 <= q < toks@.len() ==> #[trigger] t[q] == toks@[q].kind);
    if i < toks.len() && matches!(toks[i].kind, TokKind::Minus) {
        let res = parse_unary(toks, i + 1);
        proof {
            assert(complete(t, i + 1, 1, res));
            assert forall|jj: int, e: Expr|
                i < jj <= t.len() && #[trigger] derives(t.subrange(i as int, jj), e, 1) && follows(t, jj, 1) implies (
                res matches Ok((_, j1)) && j1 == jj) by {
                let u = t.subrange(i as int, jj);
                assert(u[0] == t[i as int]);
                if derives(u, e, 0) {
                    lemma_first_token(u, e, 0);
                }
                assert(u.subrange(1, u.len() as int) =~= t.subrange(i + 1, jj));
                let a = e->Neg_0;
                assert(derives(t.subrange(i + 1, jj), *a, 1));
                lemma_first_token(t.subrange(i + 1, jj), *a, 1);
                assert(i + 1 < jj);
            }
        }
        let (a, j) = match res {
            Ok(v) => v,
            Err(f) => {
                return Err(f);
            },
        };
        proof {
            let u = t.subrange(i as int, j as int);
            assert(u.subrange(1, u.len() as int) =~= t.subrange(i + 1, j as int));
        }
        Ok((Expr::Neg(Box::new(a)), j))
    } else {
        let res = parse_atom(toks, i);
        proof {
            assert forall|jj: int, e: Expr|
                i < jj <= t.len() && #[trigger] derives(t.subrange(i as int, jj), e, 1) && follows(t, jj, 1) implies (
                derives(t.subrange(i as int, jj), e, 0) && follows(t, jj, 0)) by {
                let u = t.subrange(i as int, jj);
                assert(u[0] == t[i as int]);
            }
        }
        res
    }
}

fn parse_product(toks: &Vec<Token>, i: usize) -> (r: Result<(Expr, usize), Fail>)
    requires
        i <= toks@.len(),
    ensures
        r matches Ok((e, j)) ==> i < j <= toks@.len() && derives(kinds(toks@).subrange(i as int, j as int), e, 2),
        r matches Err((p, k)) ==> i <= p <= toks@.len() && k != SyntaxErrorKind::UnexpectedChar && k != SyntaxErrorKind::ExpectedEnd,
        complete(kinds(toks@), i as int, 2, r),
    decreases toks@.len() - i, 2nat,
{
    let ghost t = kinds(toks@);
    assert(forall|q: int| 0 <= q < toks@.len() ==> #[trigger] t[q] == toks@[q].kind);
    let res0 = parse_unary(toks, i);
    proof {
        assert(complete(t, i as int, 1, res0));
        assert forall|jj: int, e: Expr|
            i < jj <= t.len() && #[trigger] derives(t.subrange(i as int, jj), e, 2) && follows(t, jj, 2) implies (
            res0 matches Ok((_, j0)) && run(t, j0 as int, jj, 2)) by {
            lemma_run_start(t, i as int, jj, e, 2);
            let (k0, a) = choose|k0: int, a: Expr|
                i < k0 <= jj && #[trigger] derives(t.subrange(i as int, k0), a, 1) && follows(t, k0, 1)
                    && run(t, k0, jj, 2);
            assert(derives(t.subrange(i as int, k0), a, 1));
        }
    }
    let (mut lhs, mut j) = match res0 {
        Ok(v) => v,
        Err(f) => {
            return Err(f);
        },
    };
    loop
        invariant
            i < j <= toks@.len(),
            t == kinds(toks@),
            forall|q: int| 0 <= q < toks@.len() ==> #[trigger] t[q] == toks@[q].kind,
            derives(t.subrange(i as int, j as int), lhs, 2),
            forall|jj: int, e: Expr|
                i < jj <= t.len() && #[trigger] derives(t.subrange(i as int, jj), e, 2) && follows(t, jj, 2)
                    ==> run(t, j as int, jj, 2),
        decreases toks@.len() - j,
    {
        let is_a = j < toks.len() && matches!(toks[j].kind, TokKind::Star);
        let is_b = j < toks.len() && matches!(toks[j].kind, TokKind::Slash);
        if !is_a && !is_b {
            return Ok((lhs, j));
        }
        let res = parse_unary(toks, j + 1);
        proof {
            assert(complete(t, j + 1, 1, res));
            assert forall|jj: int, e: Expr|
                i < jj <= t.len() && #[trigger] derives(t.subrange(i as int, jj), e, 2) && follows(t, jj, 2) implies (
                res matches Ok((_, m)) && run(t, m as int, jj, 2)) by {
                assert(run(t, j as int, jj, 2));
                let (k, b) = choose|k: int, b: Expr|
                    j + 1 < k <= jj && #[trigger] derives(t.subrange(j + 1, k), b, piece(2)) && follows(
                        t,
                        k,
                        piece(2),
                    ) && run(t, k, jj, 2);
                assert(derives(t.subrange(j + 1, k), b, 1));
            }
        }
        let (rhs, m) = match res {
            Ok(v) => v,
            Err(f) => {
                return Err(f);
            },
        };
        let ghost u = t.subrange(i as int, m as int);
        let ghost k = j - i;
        proof {
            assert(u.subrange(0, k) =~= t.subrange(i as int, j as int));
            assert(u.subrange(k + 1, u.len() as int) =~= t.subrange(j + 1, m as int));
            assert(u[k] == t[j as int]);
        }
        if is_a {
            lhs = Expr::Mul(Box::new(lhs), Box::new(rhs));
        } else {
            lhs = Expr::Div(Box::new(lhs), Box::new(rhs));
        }
        assert(derives(u, lhs, 2));
        j = m;
    }
}

/// An expression starting at token `i`.
fn parse_sum(toks: &Vec<Token>, i: usize) -> (r: Result<(Expr, usize), Fail>)
    requires
        i <= toks@.len(),
    ensures
        r matches Ok((e, j)) ==> i < j <= toks@.len() && derives(kinds(toks@).subrange(i as int, j as int), e, 3),
        r matches Err((p, k)) ==> i <= p <= toks@.len() && k != SyntaxErrorKind::UnexpectedChar && k != SyntaxErrorKind::ExpectedEnd,
        complete(kinds(toks@), i as int, 3, r),
    decreases toks@.len() - i, 3nat,
{
    let ghost t = kinds(toks@);
    assert(forall|q: int| 0 <= q < toks@.len() ==> #[trigger] t[q] == toks@[q].kind);
    let res0 = parse_product(toks, i);
    proof {
        assert(complete(t, i as int, 2, res0));
        assert forall|jj: int, e: Expr|
            i < jj <= t.len() && #[trigger] derives(t.subrange(i as int, jj), e, 3) && follows(t, jj, 3) implies (
            res0 matches Ok((_, j0)) && run(t, j0 as int, jj, 3)) by {
            lemma_run_start(t, i as int, jj, e, 3);
            let (k0, a) = choose|k0: int, a: Expr|
                i < k0 <= jj && #[trigger] derives(t.subrange(i as int, k0), a, 2) && follows(t, k0, 2)
                    && run(t, k0, jj, 3);
            assert(derives(t.subrange(i as int, k0), a, 2));
        }
    }
    let (mut lhs, mut j) = match res0 {
        Ok(v) => v,
        Err(f) => {
            return Err(f);
        },
    };
    loop
        invariant
            i < j <= toks@.len(),
            t == kinds(toks@),
            forall|q: int| 0 <= q < toks@.len() ==> #[trigger] t[q] == toks@[q].kind,
            derives(t.subrange(i as int, j as int), lhs, 3),
            forall|jj: int, e: Expr|
                i < jj <= t.len() && #[trigger] derives(t.subrange(i as int, jj), e, 3) && follows(t, jj, 3)
                    ==> run(t, j as int, jj, 3),
        decreases toks@.len() - j,
    {
        let is_a = j < toks.len() && matches!(toks[j].kind, TokKind::Plus);
        let is_b = j < toks.len() && matches!(toks[j].kind, TokKind::Minus);
        if !is_a && !is_b {
            return Ok((lhs, j));
        }
        let res = parse_product(toks, j + 1);
        proof {
            assert(complete(t, j + 1, 2, res));
            assert forall|jj: int, e: Expr|
                i < jj <= t.len() && #[trigger] derives(t.subrange(i as int, jj), e, 3) && follows(t, jj, 3) implies (
                res matches Ok((_, m)) && run(t, m as int, jj, 3)) by {
                assert(run(t, j as int, jj, 3));
                let (k, b) = choose|k: int, b: Expr|
                    j + 1 < k <= jj && #[trigger] derives(t.subrange(j + 1, k), b, piece(3)) && follows(
                        t,
                        k,
                        piece(3),
                    ) && run(t, k, jj, 3);
                assert(derives(t.subrange(j + 1, k), b, 2));
            }
        }
        let (rhs, m) = match res {
            Ok(v) => v,
            Err(f) => {
                return Err(f);
            },
        };
        let ghost u = t.subrange(i as int, m as int);
        let ghost k = j - i;
        proof {
            assert(u.subrange(0, k) =~= t.subrange(i as int, j as int));
            assert(u.subrange(k + 1, u.len() as int) =~= t.subrange(j + 1, m as int));
            assert(u[k] == t[j as int]);
        }
        if is_a {
            lhs = Expr::Add(Box::new(lhs), Box::new(rhs));
        } else {
            lhs = Expr::Sub(Box::new(lhs), Box::new(rhs));
        }
        assert(derives(u, lhs, 3));
        j = m;
    }
}

/// A declaration starting at token `i`: `let`, `fn`, or a bare expression.
fn parse_decl(toks: &Vec<Token>, i: usize) -> (r: Result<(Expr, usize), Fail>)
    requires
        i <= toks@.len(),
    ensures
        r matches Ok((e, j)) ==> i < j <= toks@.len() && derives(kinds(toks@).subrange(i as int, j as int), e, 4),
        r matches Err((p, k)) ==> i <= p <= toks@.len() && k != SyntaxErrorKind::UnexpectedChar && k != SyntaxErrorKind::ExpectedEnd,
        complete(kinds(toks@), i as int, 4, r),
    decreases toks@.len() - i, 4nat,
{
    let ghost t = kinds(toks@);
    assert(forall|q: int| 0 <= q < toks@.len() ==> #[trigger] t[q] == toks@[q].kind);
    let n = toks.len();
    let is_let = i < n && matches!(toks[i].kind, TokKind::Let);
    let is_fn = i < n && matches!(toks[i].kind, TokKind::Fn);
    if !is_let && !is_fn {
        let res = parse_sum(toks, i);
        proof {
            assert(complete(t, i as int, 3, res));
            assert forall|jj: int, e: Expr|
                i < jj <= t.len() && #[trigger] derives(t.subrange(i as int, jj), e, 4) && follows(t, jj, 4) implies (
                derives(t.subrange(i as int, jj), e, 3) && follows(t, jj, 3)) by {
                let u = t.subrange(i as int, jj);
                assert(u[0] == t[i as int]);
            }
        }
        return res;
    }
    proof {
        assert forall|jj: int, e: Expr|
            i < jj <= t.len() && #[trigger] derives(t.subrange(i as int, jj), e, 4) && follows(t, jj, 4) implies exists|
            pp: int,
            kk: int,
        | decl_parts(t, i as int, jj, pp, kk) && (is_let ==> pp == i + 2) by {
            lemma_decl_parts(t, i as int, jj, e);
        }
    }
    let name = if i + 1 < n {
        match &toks[i + 1].kind {
            TokKind::Ident(x) => x.clone(),
            _ => {
                return Err((i + 1, SyntaxErrorKind::ExpectedName));
            },
        }
    } else {
        return Err((n, SyntaxErrorKind::ExpectedName));
    };
    let mut params: Vec<String> = Vec::new();
    let mut p: usize = i + 2;
    if is_fn {
        loop
            invariant
                i + 2 <= p <= n,
                n == toks@.len(),
                t == kinds(toks@),
                forall|q: int| 0 <= q < toks@.len() ==> #[trigger] t[q] == toks@[q].kind,
                params@.len() == p - (i + 2),
                forall|j: int| 0 <= j < params@.len() ==> #[trigger] t[i + 2 + j] == TokKind::Ident(params@[j]),
                forall|q: int| i + 2 <= q < p ==> #[trigger] t[q] is Ident,
            ensures
                p == n || !(t[p as int] is Ident),
            decreases n - p,
        {
            if p >= n {
                break;
            }
            match &toks[p].kind {
                TokKind::Ident(x) => {
                    params.push(x.clone());
                    p = p + 1;
                },
                _ => {
                    break;
                },
            }
        }
    }
    proof {
        assert forall|jj: int, e: Expr|
            i < jj <= t.len() && #[trigger] derives(t.subrange(i as int, jj), e, 4) && follows(t, jj, 4) implies exists|
            kk: int,
        | decl_parts(t, i as int, jj, p as int, kk) by {
            let (pp, kk) = choose|pp: int, kk: int| decl_parts(t, i as int, jj, pp, kk) && (is_let ==> pp == i + 2);
            if is_fn {
                if p < pp {
                    assert(t[p as int] is Ident);
                } else if pp < p {
                    assert(t[pp] is Ident);
                }
            }
            assert(decl_parts(t, i as int, jj, p as int, kk));
        }
    }
    if !(p < n && matches!(toks[p].kind, TokKind::Equals)) {
        return Err((p, SyntaxErrorKind::ExpectedEquals));
    }
    let res1 = parse_sum(toks, p + 1);
    proof {
        assert(complete(t, p + 1, 3, res1));
        assert forall|jj: int, e: Expr|
            i < jj <= t.len() && #[trigger] derives(t.subrange(i as int, jj), e, 4) && follows(t, jj, 4) implies (
            res1 matches Ok((_, k1)) && decl_parts(t, i as int, jj, p as int, k1 as int)) by {
            let kk = choose|kk: int| decl_parts(t, i as int, jj, p as int, kk);
            let b = choose|b: Expr| #[trigger] derives(t.subrange(p + 1, kk), b, 3);
            assert(follows(t, kk, 3));
        }
    }
    let (rhs, k) = match res1 {
        Ok(v) => v,
        Err(f) => {
            return Err(f);
        },
    };
    if !(k < n && matches!(toks[k].kind, TokKind::Semi)) {
        return Err((k, SyntaxErrorKind::ExpectedSemi));
    }
    let res2 = parse_decl(toks, k + 1);
    proof {
        assert(complete(t, k + 1, 4, res2));
        assert forall|jj: int, e: Expr|
            i < jj <= t.len() && #[trigger] derives(t.subrange(i as int, jj), e, 4) && follows(t, jj, 4) implies (
            res2 matches Ok((_, m1)) && m1 == jj) by {
            assert(decl_parts(t, i as int, jj, p as int, k as int));
            let c = choose|c: Expr| #[trigger] derives(t.subrange(k + 1, jj), c, 4);
        }
    }
    let (then, m) = match res2 {
        Ok(v) => v,
        Err(f) => {
            return Err(f);
        },
    };
    let ghost u = t.subrange(i as int, m as int);
    let ghost kk = k - i;
    proof {
        assert(u.subrange(p + 1 - i, kk) =~= t.subrange(p + 1, k as int));
        assert(u.subrange(kk + 1, u.len() as int) =~= t.subrange(k + 1, m as int));
        assert(u[kk] == t[k as int]);
        assert(u[0] == t[i as int]);
        assert(u[1] == t[i + 1]);
        assert(u[p - i] == t[p as int]);
    }
    if is_let {
        let e = Expr::Let { name, rhs: Box::new(rhs), then: Box::new(then) };
        assert(params@.len() == 0);
        assert(derives(u, e, 4));
        Ok((e, m))
    } else {
        let e = Expr::Fn { name, params, body: Box::new(rhs), then: Box::new(then) };
        proof {
            assert forall|j: int| 0 <= j < params@.len() implies #[trigger] u[2 + j] == TokKind::Ident(params@[j]) by {
                assert(u[2 + j] == t[i + 2 + j]);
            }
        }
        assert(derives(u, e, 4));
        Ok((e, m))
    }
}

/// The span of the token at index `p`, or the empty span at the end of a
/// source of `len` characters when `p` is past the last token.
fn span_at(toks: &Vec<Token>, p: usize, len: usize) -> (r: (usize, usize))
    requires
        p <= toks@.len(),
    ensures
        p < toks@.len() ==> r == (toks@[p as int].start, toks@[p as int].end),
        p == toks@.len() ==> r == (len, len),
{
    if p < toks.len() {
        (toks[p].start, toks[p].end)
    } else {
        (len, len)
    }
}

/// `err` stands at token `p` of `ts`, or, with `p` the token count, at the
/// empty span at the end of `src`; an `ExpectedEnd` error stands at the first
/// token after a whole declaration.
pub open spec fn error_at(src: Seq<char>, ts: Seq<Token>, err: SyntaxError, p: int) -> bool {
    &&& 0 <= p <= ts.len()
    &&& p < ts.len() ==> err.start == ts[p].start && err.end == ts[p].end
    &&& p == ts.len() ==> err.start == src.len() && err.end == src.len()
    &&& err.kind == SyntaxErrorKind::ExpectedEnd ==> p < ts.len() && exists|e: Expr|
        #[trigger] derives(kinds(ts).subrange(0, p), e, 4)
}

/// `src` lexes into tokens that no program derives, and `err` stands at one
/// of them or at the end.
pub open spec fn rejected(src: Seq<char>, err: SyntaxError) -> bool {
    exists|ts: Seq<Token>, p: int|
        lexes(src, ts) && (forall|e: Expr| !#[trigger] derives(kinds(ts), e, 4)) && #[trigger] error_at(
            src,
            ts,
            err,
            p,
        )
}

/// Parses a whole program. On success the tree is one that the grammar gives
/// to the source's tokens. Parsing fails only on a character that starts no
/// token, or when the tokens form no program; there is then one error, at the
/// offending token or at the empty span at the end of the input.
pub fn parse(src: &str) -> (r: Result<Expr, Vec<SyntaxError>>)
    ensures
        r matches Ok(e) ==> parses_to(src@, e),
        r matches Err(errs) ==> {
            &&& errs@.len() == 1
            &&& errs@[0].start <= errs@[0].end <= src@.len()
            &&& errs@[0].kind == SyntaxErrorKind::UnexpectedChar ==> {
                &&& errs@[0].end == errs@[0].start + 1
                &&& !crate::lexer::is_space(src@[errs@[0].start as int])
                &&& !crate::lexer::starts_token(src@[errs@[0].start as int])
            }
            &&& errs@[0].kind != SyntaxErrorKind::UnexpectedChar ==> rejected(src@, errs@[0])
        },
{
    let toks = match tokenize(src) {
        Ok(ts) => ts,
        Err(e) => {
            return Err(vec![e]);
        },
    };
    let len = src.unicode_len();
    let ghost t = kinds(toks@);
    let res = parse_decl(&toks, 0);
    proof {
        assert(t.subrange(0, t.len() as int) =~= t);
        assert(complete(t, 0, 4, res));
        assert forall|e: Expr| #[trigger] derives(t, e, 4) implies (res matches Ok((_, j)) && j == t.len()) by {
            lemma_decl_nonempty(t, e);
            assert(derives(t.subrange(0, t.len() as int), e, 4));
        }
    }
    let fail = match res {
        Ok((e, j)) => {
            if j == toks.len() {
                proof {
                    assert(lexes(src@, toks@) && derives(kinds(toks@), e, 4));
                }
                return Ok(e);
            }
            proof {
                assert(exists|e2: Expr| #[trigger] derives(kinds(toks@).subrange(0, j as int), e2, 4));
            }
            (j, SyntaxErrorKind::ExpectedEnd)
        },
        Err(f) => f,
    };
    let (p, kind) = fail;
    proof {
        if p < toks@.len() {
            assert(crate::lexer::token_fits(src@, toks@[p as int]));
        }
    }
    let (start, end) = span_at(&toks, p, len);
    let err = SyntaxError { kind, start, end };
    proof {
        assert(error_at(src@, toks@, err, p as int));
        assert(forall|e: Expr| !#[trigger] derives(kinds(toks@), e, 4));
        assert(rejected(src@, err));
    }
    Err(vec![err])
}

} // verus!
