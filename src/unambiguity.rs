//! The grammar without functions is unambiguous: a token sequence has at most
//! one tree made of literals, variables, operators and `let` declarations. The argument follows bracket depth: a binary
//! operator that splits a phrase stands outside all parentheses, and only the
//! last such operator can be the split.
use vstd::prelude::*;

use crate::parser::derives;
use crate::syntax::{Expr, TokKind};

verus! {

/// An expression built from literals, variables, negation and the four
/// operators.
pub open spec fn is_plain(e: Expr) -> bool
    decreases e,
{
    match e {
        Expr::Num(_) => true,
        Expr::Var(_) => true,
        Expr::Neg(a) => is_plain(*a),
        Expr::Add(a, b) => is_plain(*a) && is_plain(*b),
        Expr::Sub(a, b) => is_plain(*a) && is_plain(*b),
        Expr::Mul(a, b) => is_plain(*a) && is_plain(*b),
        Expr::Div(a, b) => is_plain(*a) && is_plain(*b),
        _ => false,
    }
}

/// A chain of `let` declarations over plain expressions, ending in a plain
/// expression.
pub open spec fn is_plain_decl(e: Expr) -> bool
    decreases e,
{
    match e {
        Expr::Let { rhs, then, .. } => is_plain(*rhs) && is_plain_decl(*then),
        _ => is_plain(e),
    }
}

pub open spec fn delta(k: TokKind) -> int {
    match k {
        TokKind::LParen => 1,
        TokKind::RParen => -1,
        _ => 0,
    }
}

/// Open parentheses minus closed ones.
pub open spec fn depth(t: Seq<TokKind>) -> int
    decreases t.len(),
{
    if t.len() == 0 {
        0
    } else {
        depth(t.drop_last()) + delta(t.last())
    }
}

pub open spec fn ends_operand(k: TokKind) -> bool {
    k is Num || k is Ident || k is RParen
}

pub open spec fn is_additive(k: TokKind) -> bool {
    k is Plus || k is Minus
}

pub open spec fn is_multiplicative(k: TokKind) -> bool {
    k is Star || k is Slash
}

/// Position `k` holds a binary `+` or `-` outside all parentheses.
pub open spec fn sum_split(t: Seq<TokKind>, k: int) -> bool {
    &&& 0 < k < t.len()
    &&& depth(t.subrange(0, k)) == 0
    &&& is_additive(t[k])
    &&& ends_operand(t[k - 1])
}

/// Position `k` holds a `*` or `/` outside all parentheses.
pub open spec fn product_split(t: Seq<TokKind>, k: int) -> bool {
    &&& 0 <= k < t.len()
    &&& depth(t.subrange(0, k)) == 0
    &&& is_multiplicative(t[k])
}

proof fn lemma_depth_concat(a: Seq<TokKind>, b: Seq<TokKind>)
    ensures
        depth(a + b) == depth(a) + depth(b),
    decreases b.len(),
{
    if b.len() == 0 {
        assert(a + b =~= a);
    } else {
        assert((a + b).drop_last() =~= a + b.drop_last());
        lemma_depth_concat(a, b.drop_last());
    }
}

proof fn lemma_depth_single(x: TokKind)
    ensures
        depth(seq![x]) == delta(x),
{
    assert(seq![x].drop_last() =~= Seq::<TokKind>::empty());
    assert(depth(Seq::<TokKind>::empty()) == 0);
    assert(seq![x].last() == x);
}

/// The depth before position `k + 1 + i` of `t`, counted through the token at `k`.
proof fn lemma_depth_after(t: Seq<TokKind>, k: int, i: int)
    requires
        0 <= k < t.len(),
        0 <= i <= t.len() - k - 1,
    ensures
        depth(t.subrange(0, k + 1 + i)) == depth(t.subrange(0, k)) + delta(t[k]) + depth(
            t.subrange(k + 1, t.len() as int).subrange(0, i),
        ),
{
    let a = t.subrange(0, k);
    let b = t.subrange(k + 1, t.len() as int).subrange(0, i);
    assert(t.subrange(0, k + 1 + i) =~= (a + seq![t[k]]) + b);
    lemma_depth_concat(a + seq![t[k]], b);
    lemma_depth_concat(a, seq![t[k]]);
    lemma_depth_single(t[k]);
}

/// What every plain phrase looks like: it is not empty, starts with a number,
/// a name, `(` or `-` (not `-` for an atom), holds no `;`, ends with an operand, has balanced
/// parentheses, and at the lower levels has no top-level operator of the
/// higher ones.
pub proof fn lemma_shape(t: Seq<TokKind>, e: Expr, lvl: nat)
    requires
        lvl <= 3,
        is_plain(e),
        derives(t, e, lvl),
    ensures
        t.len() >= 1,
        ends_operand(t.last()),
        t[0] is Num || t[0] is Ident || t[0] is LParen || t[0] is Minus,
        forall|k: int| 0 <= k < t.len() ==> !(#[trigger] t[k] is Semi),
        lvl == 0 ==> !(t[0] is Minus),
        depth(t) == 0,
        forall|k: int| 0 <= k <= t.len() ==> depth(#[trigger] t.subrange(0, k)) >= 0,
        lvl <= 2 ==> forall|k: int| !sum_split(t, k),
        lvl <= 1 ==> forall|k: int| !product_split(t, k),
    decreases t.len(), lvl, 2nat,
{
    if lvl == 0 {
        lemma_shape_atom(t, e);
    } else if lvl == 1 {
        lemma_shape_unary(t, e);
    } else if lvl == 2 {
        lemma_shape_product(t, e);
    } else {
        lemma_shape_sum(t, e);
    }
}

proof fn lemma_shape_atom(t: Seq<TokKind>, e: Expr)
    requires
        is_plain(e),
        derives(t, e, 0),
    ensures
        t.len() >= 1,
        ends_operand(t.last()),
        t[0] is Num || t[0] is Ident || t[0] is LParen || t[0] is Minus,
        forall|k: int| 0 <= k < t.len() ==> !(#[trigger] t[k] is Semi),
        !(t[0] is Minus),
        depth(t) == 0,
        forall|k: int| 0 <= k <= t.len() ==> depth(#[trigger] t.subrange(0, k)) >= 0,
        forall|k: int| !sum_split(t, k),
        forall|k: int| !product_split(t, k),
    decreases t.len(), 0nat, 1nat,
{
    assert(t.subrange(0, t.len() as int) =~= t);
    assert(t.subrange(0, 0) =~= Seq::<TokKind>::empty());
    if t.len() >= 2 && t[0] == TokKind::LParen && t.last() == TokKind::RParen && derives(
        t.subrange(1, t.len() - 1),
        e,
        3,
    ) {
        let inner = t.subrange(1, t.len() - 1);
        lemma_shape(inner, e, 3);
        assert forall|k: int| 0 <= k < t.len() implies !(#[trigger] t[k] is Semi) by {
            if 0 < k < t.len() - 1 {
                assert(t[k] == inner[k - 1]);
            }
        }
        assert(t =~= (seq![t[0]] + inner) + seq![t.last()]);
        lemma_depth_concat(seq![t[0]] + inner, seq![t.last()]);
        lemma_depth_concat(seq![t[0]], inner);
        lemma_depth_single(t[0]);
        lemma_depth_single(t.last());
        assert forall|k: int| 1 <= k < t.len() implies depth(#[trigger] t.subrange(0, k)) >= 1 by {
            assert(t.subrange(0, k) =~= seq![t[0]] + inner.subrange(0, k - 1));
            lemma_depth_concat(seq![t[0]], inner.subrange(0, k - 1));
        }
    } else {
        match e {
            Expr::Num(d) => {
                lemma_depth_single(TokKind::Num(d));
            },
            Expr::Var(x) => {
                lemma_depth_single(TokKind::Ident(x));
            },
            _ => {},
        }
    }
}

proof fn lemma_shape_unary(t: Seq<TokKind>, e: Expr)
    requires
        is_plain(e),
        derives(t, e, 1),
    ensures
        t.len() >= 1,
        ends_operand(t.last()),
        t[0] is Num || t[0] is Ident || t[0] is LParen || t[0] is Minus,
        forall|k: int| 0 <= k < t.len() ==> !(#[trigger] t[k] is Semi),
                depth(t) == 0,
        forall|k: int| 0 <= k <= t.len() ==> depth(#[trigger] t.subrange(0, k)) >= 0,
        forall|k: int| !sum_split(t, k),
        forall|k: int| !product_split(t, k),
    decreases t.len(), 1nat, 1nat,
{
    if derives(t, e, 0) {
        lemma_shape(t, e, 0);
    } else {
        assert(t.subrange(0, t.len() as int) =~= t);
        let a = *e->Neg_0;
        let rest = t.subrange(1, t.len() as int);
        lemma_shape(rest, a, 1);
        assert forall|k: int| 0 <= k < t.len() implies !(#[trigger] t[k] is Semi) by {
            if 0 < k {
                assert(t[k] == rest[k - 1]);
            }
        }
        assert(t =~= seq![t[0]] + rest);
        lemma_depth_concat(seq![t[0]], rest);
        lemma_depth_single(t[0]);
        assert forall|k: int| 1 <= k <= t.len() implies depth(#[trigger] t.subrange(0, k)) == depth(
            rest.subrange(0, k - 1),
        ) by {
            lemma_depth_after(t, 0, k - 1);
            assert(t.subrange(0, 0) =~= Seq::<TokKind>::empty());
        }
        assert(t.subrange(0, 0) =~= Seq::<TokKind>::empty());
        assert forall|k: int| !sum_split(t, k) by {
            if sum_split(t, k) && k > 1 {
                assert(sum_split(rest, k - 1));
            }
        }
        assert forall|k: int| !product_split(t, k) by {
            if product_split(t, k) && k > 0 {
                assert(product_split(rest, k - 1));
            }
        }
    }
}

proof fn lemma_shape_product(t: Seq<TokKind>, e: Expr)
    requires
        is_plain(e),
        derives(t, e, 2),
    ensures
        t.len() >= 1,
        ends_operand(t.last()),
        t[0] is Num || t[0] is Ident || t[0] is LParen || t[0] is Minus,
        forall|k: int| 0 <= k < t.len() ==> !(#[trigger] t[k] is Semi),
                depth(t) == 0,
        forall|k: int| 0 <= k <= t.len() ==> depth(#[trigger] t.subrange(0, k)) >= 0,
        forall|k: int| !sum_split(t, k),
    decreases t.len(), 2nat, 1nat,
{
    if derives(t, e, 1) {
        lemma_shape(t, e, 1);
    } else {
        let (a, b, op) = match e {
            Expr::Mul(a, b) => (*a, *b, TokKind::Star),
            Expr::Div(a, b) => (*a, *b, TokKind::Slash),
            _ => arbitrary(),
        };
        let k = choose|k: int|
            0 < k < t.len() - 1 && #[trigger] t[k] == op && derives(t.subrange(0, k), a, 2)
                && derives(t.subrange(k + 1, t.len() as int), b, 1);
        lemma_binary_shape(t, k, a, b, 2, 1);
        let left = t.subrange(0, k);
        let right = t.subrange(k + 1, t.len() as int);
        lemma_shape(left, a, 2);
        lemma_shape(right, b, 1);
        assert forall|j: int| !sum_split(t, j) by {
            if sum_split(t, j) {
                if j < k {
                    assert(left.subrange(0, j) =~= t.subrange(0, j));
                    assert(sum_split(left, j));
                } else if j > k + 1 {
                    lemma_depth_after(t, k, j - k - 1);
                    assert(sum_split(right, j - k - 1));
                }
            }
        }
    }
}

proof fn lemma_shape_sum(t: Seq<TokKind>, e: Expr)
    requires
        is_plain(e),
        derives(t, e, 3),
    ensures
        t.len() >= 1,
        ends_operand(t.last()),
        t[0] is Num || t[0] is Ident || t[0] is LParen || t[0] is Minus,
        forall|k: int| 0 <= k < t.len() ==> !(#[trigger] t[k] is Semi),
                depth(t) == 0,
        forall|k: int| 0 <= k <= t.len() ==> depth(#[trigger] t.subrange(0, k)) >= 0,
    decreases t.len(), 3nat, 1nat,
{
    if derives(t, e, 2) {
        lemma_shape(t, e, 2);
    } else {
        let (a, b, op) = match e {
            Expr::Add(a, b) => (*a, *b, TokKind::Plus),
            Expr::Sub(a, b) => (*a, *b, TokKind::Minus),
            _ => arbitrary(),
        };
        let k = choose|k: int|
            0 < k < t.len() - 1 && #[trigger] t[k] == op && derives(t.subrange(0, k), a, 3)
                && derives(t.subrange(k + 1, t.len() as int), b, 2);
        lemma_binary_shape(t, k, a, b, 3, 2);
    }
}

/// The shape of `left op right` from the shapes of its two sides.
proof fn lemma_binary_shape(t: Seq<TokKind>, k: int, a: Expr, b: Expr, la: nat, lb: nat)
    requires
        0 < k < t.len() - 1,
        la <= 3,
        lb < la,
        is_plain(a),
        is_plain(b),
        !(t[k] is LParen || t[k] is RParen || t[k] is Semi),
        derives(t.subrange(0, k), a, la),
        derives(t.subrange(k + 1, t.len() as int), b, lb),
    ensures
        t.len() >= 1,
        ends_operand(t.last()),
        t[0] is Num || t[0] is Ident || t[0] is LParen || t[0] is Minus,
        forall|k: int| 0 <= k < t.len() ==> !(#[trigger] t[k] is Semi),
        depth(t) == 0,
        depth(t.subrange(0, k)) == 0,
        forall|j: int| 0 <= j <= t.len() ==> depth(#[trigger] t.subrange(0, j)) >= 0,
    decreases t.len(), la, 0nat,
{
    let left = t.subrange(0, k);
    let right = t.subrange(k + 1, t.len() as int);
    lemma_shape(left, a, la);
    lemma_shape(right, b, lb);
    assert(left.subrange(0, k) =~= left);
    assert(right.subrange(0, right.len() as int) =~= right);
    lemma_depth_after(t, k, right.len() as int);
    assert(t.subrange(0, t.len() as int) =~= t);
    assert(t.last() == right.last());
    assert(t[0] == left[0]);
    assert forall|j: int| 0 <= j < t.len() implies !(#[trigger] t[j] is Semi) by {
        if j < k {
            assert(t[j] == left[j]);
        } else if j > k {
            assert(t[j] == right[j - k - 1]);
        }
    }
    assert forall|j: int| 0 <= j <= t.len() implies depth(#[trigger] t.subrange(0, j)) >= 0 by {
        if j <= k {
            assert(left.subrange(0, j) =~= t.subrange(0, j));
        } else {
            lemma_depth_after(t, k, j - k - 1);
        }
    }
}

/// Of two binary splits of `t` at the same level, the first cannot stand
/// before the second: the right side of the first would hold a top-level
/// operator of its own level.
proof fn lemma_split_is_last(t: Seq<TokKind>, e1: Expr, e2: Expr, lvl: nat, k1: int, k2: int)
    requires
        lvl == 2 || lvl == 3,
        is_plain(lhs(e1)),
        is_plain(rhs(e1)),
        is_plain(lhs(e2)),
        splits_at(t, e1, lvl, k1),
        splits_at(t, e2, lvl, k2),
    ensures
        k2 <= k1,
{
    if k1 >= k2 {
        return;
    }
    let lb = (lvl - 1) as nat;
    let left = t.subrange(0, k1);
    let right = t.subrange(k1 + 1, t.len() as int);
    let left2 = t.subrange(0, k2);
    lemma_shape(left, lhs(e1), lvl);
    lemma_shape(right, rhs(e1), lb);
    lemma_shape(left2, lhs(e2), lvl);
    assert(left.subrange(0, k1) =~= left);
    assert(left2.subrange(0, k2) =~= left2);
    assert(left2.last() == t[k2 - 1]);
    let j = k2 - k1 - 1;
    lemma_depth_after(t, k1, j);
    assert(right[j] == t[k2]);
    if lvl == 3 {
        if j == 0 {
            assert(t[k2 - 1] == t[k1]);
        } else {
            assert(right[j - 1] == t[k2 - 1]);
            assert(sum_split(right, j));
        }
    } else {
        assert(product_split(right, j));
    }
}

/// A token sequence has at most one plain tree at each expression level of
/// the grammar.
pub proof fn lemma_plain_unambiguous(t: Seq<TokKind>, e1: Expr, e2: Expr, lvl: nat)
    requires
        lvl <= 3,
        is_plain(e1),
        is_plain(e2),
        derives(t, e1, lvl),
        derives(t, e2, lvl),
    ensures
        e1 == e2,
    decreases t.len(), lvl,
{
    if lvl == 0 {
        let inner = t.subrange(1, t.len() - 1);
        let p1 = t.len() >= 2 && t[0] == TokKind::LParen && t.last() == TokKind::RParen && derives(inner, e1, 3);
        let p2 = t.len() >= 2 && t[0] == TokKind::LParen && t.last() == TokKind::RParen && derives(inner, e2, 3);
        if p1 && p2 {
            lemma_plain_unambiguous(inner, e1, e2, 3);
        } else if !p1 && !p2 {
            assert(t[0] == atom_token(e1));
            assert(t[0] == atom_token(e2));
        } else if p1 {
            assert(t[0] == atom_token(e2));
        } else {
            assert(t[0] == atom_token(e1));
        }
    } else if lvl == 1 {
        let rest = t.subrange(1, t.len() as int);
        if derives(t, e1, 0) && derives(t, e2, 0) {
            lemma_plain_unambiguous(t, e1, e2, 0);
        } else if derives(t, e1, 0) {
            lemma_shape(t, e1, 0);
        } else if derives(t, e2, 0) {
            lemma_shape(t, e2, 0);
        } else {
            lemma_plain_unambiguous(rest, *e1->Neg_0, *e2->Neg_0, 1);
        }
    } else {
        let lb = (lvl - 1) as nat;
        if derives(t, e1, lb) && derives(t, e2, lb) {
            lemma_plain_unambiguous(t, e1, e2, lb);
        } else if derives(t, e1, lb) {
            lemma_split_excludes_lower(t, e2, e1, lvl);
        } else if derives(t, e2, lb) {
            lemma_split_excludes_lower(t, e1, e2, lvl);
        } else {
            let k1 = split_of(t, e1, lvl);
            let k2 = split_of(t, e2, lvl);
            lemma_split_is_last(t, e1, e2, lvl, k1, k2);
            lemma_split_is_last(t, e2, e1, lvl, k2, k1);
            {
                lemma_plain_unambiguous(t.subrange(0, k1), lhs(e1), lhs(e2), lvl);
                lemma_plain_unambiguous(t.subrange(k1 + 1, t.len() as int), rhs(e1), rhs(e2), lb);
            }
        }
    }
}

/// The single token of a literal or a variable.
spec fn atom_token(e: Expr) -> TokKind {
    match e {
        Expr::Var(x) => TokKind::Ident(x),
        Expr::Num(d) => TokKind::Num(d),
        _ => TokKind::Comma,
    }
}

spec fn lhs(e: Expr) -> Expr {
    match e {
        Expr::Add(a, _) => *a,
        Expr::Sub(a, _) => *a,
        Expr::Mul(a, _) => *a,
        Expr::Div(a, _) => *a,
        _ => e,
    }
}

spec fn rhs(e: Expr) -> Expr {
    match e {
        Expr::Add(_, b) => *b,
        Expr::Sub(_, b) => *b,
        Expr::Mul(_, b) => *b,
        Expr::Div(_, b) => *b,
        _ => e,
    }
}

spec fn op_of(e: Expr) -> TokKind {
    match e {
        Expr::Add(..) => TokKind::Plus,
        Expr::Sub(..) => TokKind::Minus,
        Expr::Mul(..) => TokKind::Star,
        _ => TokKind::Slash,
    }
}

/// `e` splits `t` at `k` as a binary node of level `lvl`.
spec fn splits_at(t: Seq<TokKind>, e: Expr, lvl: nat, k: int) -> bool {
    &&& 0 < k < t.len() - 1
    &&& t[k] == op_of(e)
    &&& (lvl == 3 ==> e is Add || e is Sub)
    &&& (lvl == 2 ==> e is Mul || e is Div)
    &&& derives(t.subrange(0, k), lhs(e), lvl)
    &&& derives(t.subrange(k + 1, t.len() as int), rhs(e), (lvl - 1) as nat)
}

/// The split position of a binary phrase that is not a phrase of the level below.
proof fn split_of(t: Seq<TokKind>, e: Expr, lvl: nat) -> (k: int)
    requires
        lvl == 2 || lvl == 3,
        is_plain(e),
        derives(t, e, lvl),
        !derives(t, e, (lvl - 1) as nat),
    ensures
        splits_at(t, e, lvl, k),
        is_plain(lhs(e)),
        is_plain(rhs(e)),
{
    match e {
        Expr::Mul(a, b) => {
            let k = choose|k: int|
                0 < k < t.len() - 1 && #[trigger] t[k] == TokKind::Star && derives(t.subrange(0, k), *a, 2)
                    && derives(t.subrange(k + 1, t.len() as int), *b, 1);
            k
        },
        Expr::Div(a, b) => {
            let k = choose|k: int|
                0 < k < t.len() - 1 && #[trigger] t[k] == TokKind::Slash && derives(t.subrange(0, k), *a, 2)
                    && derives(t.subrange(k + 1, t.len() as int), *b, 1);
            k
        },
        Expr::Add(a, b) => {
            let k = choose|k: int|
                0 < k < t.len() - 1 && #[trigger] t[k] == TokKind::Plus && derives(t.subrange(0, k), *a, 3)
                    && derives(t.subrange(k + 1, t.len() as int), *b, 2);
            k
        },
        Expr::Sub(a, b) => {
            let k = choose|k: int|
                0 < k < t.len() - 1 && #[trigger] t[k] == TokKind::Minus && derives(t.subrange(0, k), *a, 3)
                    && derives(t.subrange(k + 1, t.len() as int), *b, 2);
            k
        },
        _ => 0,
    }
}

/// A binary phrase of level `lvl` is not also a phrase of the level below.
proof fn lemma_split_excludes_lower(t: Seq<TokKind>, e: Expr, other: Expr, lvl: nat)
    requires
        lvl == 2 || lvl == 3,
        is_plain(e),
        is_plain(other),
        derives(t, e, lvl),
        !derives(t, e, (lvl - 1) as nat),
    ensures
        !derives(t, other, (lvl - 1) as nat),
{
    if !derives(t, other, (lvl - 1) as nat) {
        return;
    }
    let k = split_of(t, e, lvl);
    let left = t.subrange(0, k);
    lemma_shape(left, lhs(e), lvl);
    assert(left.subrange(0, k) =~= left);
    lemma_shape(t, other, (lvl - 1) as nat);
    if lvl == 3 {
        assert(sum_split(t, k));
    } else {
        assert(product_split(t, k));
    }
}

/// Parsing is deterministic on programs without functions: a token sequence
/// has at most one tree made of literals, variables, the operators and `let`
/// declarations, so re-parsing the same source gives the same tree.
pub proof fn lemma_decl_unambiguous(t: Seq<TokKind>, e1: Expr, e2: Expr)
    requires
        is_plain_decl(e1),
        is_plain_decl(e2),
        derives(t, e1, 4),
        derives(t, e2, 4),
    ensures
        e1 == e2,
    decreases t.len(),
{
    let l1 = e1 is Let;
    let l2 = e2 is Let;
    if !l1 && !l2 {
        lemma_plain_unambiguous(t, e1, e2, 3);
    } else if l1 && l2 {
        let k1 = let_split(t, e1);
        let k2 = let_split(t, e2);
        lemma_semi_is_first(t, e1, k1, k2);
        lemma_semi_is_first(t, e2, k2, k1);
        lemma_plain_unambiguous(t.subrange(3, k1), *e1->Let_rhs, *e2->Let_rhs, 3);
        lemma_decl_unambiguous(t.subrange(k1 + 1, t.len() as int), *e1->Let_then, *e2->Let_then);
        assert(t[1] == TokKind::Ident(e1->Let_name));
        assert(t[1] == TokKind::Ident(e2->Let_name));
    } else if l1 {
        let k1 = let_split(t, e1);
        lemma_shape(t, e2, 3);
    } else {
        let k2 = let_split(t, e2);
        lemma_shape(t, e1, 3);
    }
}

/// `e` is `let name = rhs; then`, read from `t` with its `;` at `k`.
spec fn let_at(t: Seq<TokKind>, e: Expr, k: int) -> bool {
    &&& 3 < k < t.len()
    &&& t[k] == TokKind::Semi
    &&& t[0] == TokKind::Let
    &&& t[1] == TokKind::Ident(e->Let_name)
    &&& t[2] == TokKind::Equals
    &&& derives(t.subrange(3, k), *e->Let_rhs, 3)
    &&& derives(t.subrange(k + 1, t.len() as int), *e->Let_then, 4)
}

proof fn let_split(t: Seq<TokKind>, e: Expr) -> (k: int)
    requires
        e is Let,
        is_plain_decl(e),
        derives(t, e, 4),
    ensures
        let_at(t, e, k),
{
    if derives(t, e, 3) {
        lemma_let_is_no_expr(t, e, 3);
    }
    choose|k: int|
        3 < k < t.len() && #[trigger] t[k] == TokKind::Semi && t[0] == TokKind::Let && t[1]
            == TokKind::Ident(e->Let_name) && t[2] == TokKind::Equals && derives(t.subrange(3, k), *e->Let_rhs, 3)
            && derives(t.subrange(k + 1, t.len() as int), *e->Let_then, 4)
}

/// A `let` node is no phrase of the expression levels.
proof fn lemma_let_is_no_expr(t: Seq<TokKind>, e: Expr, lvl: nat)
    requires
        e is Let,
        lvl <= 3,
    ensures
        !derives(t, e, lvl),
    decreases t.len(), lvl,
{
    if lvl > 0 {
        lemma_let_is_no_expr(t, e, (lvl - 1) as nat);
    } else if t.len() >= 2 {
        lemma_let_is_no_expr(t.subrange(1, t.len() - 1), e, 3);
    }
}

/// The `;` that ends a `let` is the first one after its `=`: the expression
/// between them holds none.
proof fn lemma_semi_is_first(t: Seq<TokKind>, e: Expr, k1: int, k2: int)
    requires
        is_plain_decl(e),
        e is Let,
        let_at(t, e, k1),
        3 < k2 < t.len(),
        t[k2] == TokKind::Semi,
    ensures
        k1 <= k2,
{
    let rhs = t.subrange(3, k1);
    lemma_shape(rhs, *e->Let_rhs, 3);
    if k2 < k1 {
        assert(rhs[k2 - 3] == t[k2]);
    }
}

} // verus!
