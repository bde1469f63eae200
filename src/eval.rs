//! Evaluation of an expression tree under two stacks of bindings.
//!
//! Calls share the caller's variable stack: a function body sees its parameters
//! on top of every binding that is live where it is called (dynamic scoping).
use vstd::prelude::*;

use crate::syntax::{EvalError, Expr, Value};

verus! {

/// The call depth that [`evaluate`] allows.
pub const MAX_CALL_DEPTH: usize = 256;

/// A function on the function stack: its name, parameters and body, borrowed
/// from the `Fn` node that defined it.
#[derive(Clone, Copy)]
pub struct FnDef<'a> {
    pub name: &'a String,
    pub params: &'a Vec<String>,
    pub body: &'a Expr,
}

/// The position of the most recent binding of `name`.
pub open spec fn find_var(vars: Seq<(String, Value)>, name: Seq<char>) -> Option<int>
    decreases vars.len(),
{
    if vars.len() == 0 {
        None
    } else if vars.last().0@ == name {
        Some(vars.len() - 1)
    } else {
        find_var(vars.drop_last(), name)
    }
}

/// The position of the most recent definition of function `name`.
pub open spec fn find_fn(funcs: Seq<FnDef>, name: Seq<char>) -> Option<int>
    decreases funcs.len(),
{
    if funcs.len() == 0 {
        None
    } else if funcs.last().name@ == name {
        Some(funcs.len() - 1)
    } else {
        find_fn(funcs.drop_last(), name)
    }
}

/// `vars` with each parameter bound to its argument value, in order.
pub open spec fn bind(vars: Seq<(String, Value)>, params: Seq<String>, vals: Seq<Value>) -> Seq<
    (String, Value),
> {
    vars + Seq::new(vals.len(), |k: int| (params[k], vals[k]))
}

/// Applies a binary node's constructor to two results, the left error first.
pub open spec fn combine(
    l: Result<Value, EvalError>,
    r: Result<Value, EvalError>,
    op: spec_fn(Value, Value) -> Value,
) -> Result<Value, EvalError> {
    match l {
        Err(er) => Err(er),
        Ok(x) => match r {
            Err(er) => Err(er),
            Ok(y) => Ok(op(x, y)),
        },
    }
}

/// The result of evaluating `e` under the variable stack `vars` and function
/// stack `funcs`, where at most `depth` calls may still nest.
pub open spec fn eval_spec(e: Expr, vars: Seq<(String, Value)>, funcs: Seq<FnDef>, depth: nat) -> Result<
    Value,
    EvalError,
>
    decreases depth, e, 1nat, 0nat,
{
    match e {
        Expr::Num(d) => Ok(Value::Lit(d)),
        Expr::Var(x) => match find_var(vars, x@) {
            Some(k) => Ok(vars[k].1),
            None => Err(EvalError::UnboundVariable(x)),
        },
        Expr::Neg(a) => match eval_spec(*a, vars, funcs, depth) {
            Ok(v) => Ok(Value::Neg(Box::new(v))),
            Err(er) => Err(er),
        },
        Expr::Add(a, b) => combine(
            eval_spec(*a, vars, funcs, depth),
            eval_spec(*b, vars, funcs, depth),
            |x: Value, y: Value| Value::Add(Box::new(x), Box::new(y)),
        ),
        Expr::Sub(a, b) => combine(
            eval_spec(*a, vars, funcs, depth),
            eval_spec(*b, vars, funcs, depth),
            |x: Value, y: Value| Value::Sub(Box::new(x), Box::new(y)),
        ),
        Expr::Mul(a, b) => combine(
            eval_spec(*a, vars, funcs, depth),
            eval_spec(*b, vars, funcs, depth),
            |x: Value, y: Value| Value::Mul(Box::new(x), Box::new(y)),
        ),
        Expr::Div(a, b) => combine(
            eval_spec(*a, vars, funcs, depth),
            eval_spec(*b, vars, funcs, depth),
            |x: Value, y: Value| Value::Div(Box::new(x), Box::new(y)),
        ),
        Expr::Let { name, rhs, then } => match eval_spec(*rhs, vars, funcs, depth) {
            Err(er) => Err(er),
            Ok(v) => eval_spec(*then, vars.push((name, v)), funcs, depth),
        },
        Expr::Fn { name, params, body, then } => eval_spec(
            *then,
            vars,
            funcs.push(FnDef { name: &name, params: &params, body: &*body }),
            depth,
        ),
        Expr::Call(name, args) => match find_fn(funcs, name@) {
            None => Err(EvalError::UndefinedFunction(name)),
            Some(k) => {
                let f = funcs[k];
                if f.params.len() != args.len() {
                    Err(EvalError::ArityMismatch(name, f.params.len(), args.len()))
                } else {
                    match eval_args(e, args.len() as nat, vars, funcs, depth) {
                        Err(er) => Err(er),
                        Ok(vals) => if depth == 0 {
                            Err(EvalError::RecursionLimitExceeded)
                        } else {
                            eval_spec(
                                *f.body,
                                bind(vars, f.params@, vals),
                                funcs,
                                (depth - 1) as nat,
                            )
                        },
                    }
                }
            },
        },
    }
}

/// The values of the first `n` arguments of the call `e`, evaluated left to
/// right; the first error stops the rest.
pub open spec fn eval_args(e: Expr, n: nat, vars: Seq<(String, Value)>, funcs: Seq<FnDef>, depth: nat) -> Result<
    Seq<Value>,
    EvalError,
>
    decreases depth, e, 0nat, n,
{
    match e {
        Expr::Call(_, args) => if n == 0 || n > args.len() {
            Ok(Seq::empty())
        } else {
            match eval_args(e, (n - 1) as nat, vars, funcs, depth) {
                Err(er) => Err(er),
                Ok(vals) => match eval_spec(args[n - 1], vars, funcs, depth) {
                    Err(er) => Err(er),
                    Ok(v) => Ok(vals.push(v)),
                },
            }
        },
        _ => Ok(Seq::empty()),
    }
}

/// Once an argument fails, evaluating more arguments gives the same error.
proof fn lemma_args_err_stays(e: Expr, i: nat, n: nat, vars: Seq<(String, Value)>, funcs: Seq<FnDef>, depth: nat)
    requires
        e is Call,
        eval_args(e, i, vars, funcs, depth) is Err,
        1 <= i <= n,
        n <= e->Call_1@.len(),
    ensures
        eval_args(e, n, vars, funcs, depth) == eval_args(e, i, vars, funcs, depth),
    decreases n - i,
{
    if i < n {
        lemma_args_err_stays(e, i, (n - 1) as nat, vars, funcs, depth);
    }
}

/// A copy of `v`.
pub fn copy_value(v: &Value) -> (r: Value)
    ensures
        r == *v,
    decreases v,
{
    match v {
        Value::Lit(d) => Value::Lit(d.clone()),
        Value::Neg(a) => Value::Neg(Box::new(copy_value(a))),
        Value::Add(a, b) => Value::Add(Box::new(copy_value(a)), Box::new(copy_value(b))),
        Value::Sub(a, b) => Value::Sub(Box::new(copy_value(a)), Box::new(copy_value(b))),
        Value::Mul(a, b) => Value::Mul(Box::new(copy_value(a)), Box::new(copy_value(b))),
        Value::Div(a, b) => Value::Div(Box::new(copy_value(a)), Box::new(copy_value(b))),
    }
}

fn lookup_var(vars: &Vec<(String, Value)>, name: &String) -> (r: Option<usize>)
    ensures
        r matches Some(k) ==> k < vars@.len() && find_var(vars@, name@) == Some(k as int),
        r is None ==> find_var(vars@, name@) is None,
{
    let mut i = vars.len();
    assert(vars@.subrange(0, i as int) =~= vars@);
    while i > 0
        invariant
            i <= vars@.len(),
            find_var(vars@, name@) == find_var(vars@.subrange(0, i as int), name@),
        decreases i,
    {
        let ghost pre = vars@.subrange(0, i as int);
        if vars[i - 1].0 == *name {
            return Some(i - 1);
        }
        assert(pre.drop_last() =~= vars@.subrange(0, i - 1));
        i = i - 1;
    }
    None
}

fn lookup_fn(funcs: &Vec<FnDef>, name: &String) -> (r: Option<usize>)
    ensures
        r matches Some(k) ==> k < funcs@.len() && find_fn(funcs@, name@) == Some(k as int),
        r is None ==> find_fn(funcs@, name@) is None,
{
    let mut i = funcs.len();
    assert(funcs@.subrange(0, i as int) =~= funcs@);
    while i > 0
        invariant
            i <= funcs@.len(),
            find_fn(funcs@, name@) == find_fn(funcs@.subrange(0, i as int), name@),
        decreases i,
    {
        let ghost pre = funcs@.subrange(0, i as int);
        if *funcs[i - 1].name == *name {
            return Some(i - 1);
        }
        assert(pre.drop_last() =~= funcs@.subrange(0, i - 1));
        i = i - 1;
    }
    None
}

/// Evaluates `e` with the stacks `vars` and `funcs`, allowing `depth` more
/// nested calls. Every binding pushed on the way is popped again, on success
/// and on error.
pub fn eval<'a>(
    e: &'a Expr,
    vars: &mut Vec<(String, Value)>,
    funcs: &mut Vec<FnDef<'a>>,
    depth: usize,
) -> (r: Result<Value, EvalError>)
    ensures
        r == eval_spec(*e, old(vars)@, old(funcs)@, depth as nat),
        final(vars)@ == old(vars)@,
        final(funcs)@ == old(funcs)@,
    decreases depth, *e, 1nat, 0nat,
{
    match e {
        Expr::Num(d) => Ok(Value::Lit(d.clone())),
        Expr::Var(x) => match lookup_var(vars, x) {
            Some(k) => Ok(copy_value(&vars[k].1)),
            None => Err(EvalError::UnboundVariable(x.clone())),
        },
        Expr::Neg(a) => {
            let v = eval(a, vars, funcs, depth)?;
            Ok(Value::Neg(Box::new(v)))
        },
        Expr::Add(a, b) => {
            let x = eval(a, vars, funcs, depth)?;
            let y = eval(b, vars, funcs, depth)?;
            Ok(Value::Add(Box::new(x), Box::new(y)))
        },
        Expr::Sub(a, b) => {
            let x = eval(a, vars, funcs, depth)?;
            let y = eval(b, vars, funcs, depth)?;
            Ok(Value::Sub(Box::new(x), Box::new(y)))
        },
        Expr::Mul(a, b) => {
            let x = eval(a, vars, funcs, depth)?;
            let y = eval(b, vars, funcs, depth)?;
            Ok(Value::Mul(Box::new(x), Box::new(y)))
        },
        Expr::Div(a, b) => {
            let x = eval(a, vars, funcs, depth)?;
            let y = eval(b, vars, funcs, depth)?;
            Ok(Value::Div(Box::new(x), Box::new(y)))
        },
        Expr::Let { name, rhs, then } => {
            let v = eval(rhs, vars, funcs, depth)?;
            vars.push((name.clone(), v));
            let out = eval(then, vars, funcs, depth);
            vars.pop();
            out
        },
        Expr::Fn { name, params, body, then } => {
            funcs.push(FnDef { name, params, body });
            let out = eval(then, vars, funcs, depth);
            funcs.pop();
            out
        },
        Expr::Call(name, args) => {
            let k = match lookup_fn(funcs, name) {
                Some(k) => k,
                None => {
                    return Err(EvalError::UndefinedFunction(name.clone()));
                },
            };
            let f = funcs[k];
            if f.params.len() != args.len() {
                return Err(EvalError::ArityMismatch(name.clone(), f.params.len(), args.len()));
            }
            let mut vals: Vec<Value> = Vec::new();
            let mut i: usize = 0;
            while i < args.len()
                invariant
                    i <= args@.len(),
                    vals@.len() == i,
                    f.params@.len() == args@.len(),
                    k < funcs@.len(),
                    f == funcs@[k as int],
                    find_fn(funcs@, name@) == Some(k as int),
                    *e == Expr::Call(*name, *args),
                    vars@ == old(vars)@,
                    funcs@ == old(funcs)@,
                    eval_args(*e, i as nat, vars@, funcs@, depth as nat) == Ok::<Seq<Value>, EvalError>(vals@),
                decreases args@.len() - i,
            {
                proof {
                    assert(decreases_to!(*e => *args));
                    assert(decreases_to!(*args => args@));
                    assert(decreases_to!(args@ => args@[i as int]));
                    assert(decreases_to!(*e => args@[i as int]));
                }
                let v = match eval(&args[i], vars, funcs, depth) {
                    Ok(v) => v,
                    Err(er) => {
                        proof {
                            assert(eval_args(*e, (i + 1) as nat, vars@, funcs@, depth as nat) == Err::<Seq<Value>, EvalError>(er));
                            lemma_args_err_stays(*e, (i + 1) as nat, args@.len(), vars@, funcs@, depth as nat);
                        }
                        return Err(er);
                    },
                };
                vals.push(v);
                i = i + 1;
            }
            if depth == 0 {
                return Err(EvalError::RecursionLimitExceeded);
            }
            let base = vars.len();
            let mut j: usize = 0;
            while j < vals.len()
                invariant
                    j <= vals@.len(),
                    vals@.len() == f.params@.len(),
                    base == old(vars)@.len(),
                    funcs@ == old(funcs)@,
                    vars@ == bind(old(vars)@, f.params@, vals@.subrange(0, j as int)),
                decreases vals@.len() - j,
            {
                vars.push((f.params[j].clone(), copy_value(&vals[j])));
                j = j + 1;
                assert(vars@ =~= bind(old(vars)@, f.params@, vals@.subrange(0, j as int)));
            }
            assert(vals@.subrange(0, j as int) =~= vals@);
            let out = eval(f.body, vars, funcs, depth - 1);
            while vars.len() > base
                invariant
                    base <= vars@.len(),
                    vars@.subrange(0, base as int) == old(vars)@,
                decreases vars@.len(),
            {
                vars.pop();
            }
            assert(vars@ =~= old(vars)@);
            out
        },
    }
}

/// Evaluates `e` with empty stacks, allowing `max_depth` nested calls.
pub fn evaluate_with_limit(e: &Expr, max_depth: usize) -> (r: Result<Value, EvalError>)
    ensures
        r == eval_spec(*e, Seq::empty(), Seq::empty(), max_depth as nat),
{
    let mut vars: Vec<(String, Value)> = Vec::new();
    let mut funcs: Vec<FnDef> = Vec::new();
    eval(e, &mut vars, &mut funcs, max_depth)
}

/// Evaluates `e` with empty stacks, allowing [`MAX_CALL_DEPTH`] nested calls.
pub fn evaluate(e: &Expr) -> (r: Result<Value, EvalError>)
    ensures
        r == eval_spec(*e, Seq::empty(), Seq::empty(), MAX_CALL_DEPTH as nat),
{
    evaluate_with_limit(e, MAX_CALL_DEPTH)
}

/// A tree built from literals, negation and the four operators alone.
pub open spec fn is_arith(e: Expr) -> bool
    decreases e,
{
    match e {
        Expr::Num(_) => true,
        Expr::Neg(a) => is_arith(*a),
        Expr::Add(a, b) => is_arith(*a) && is_arith(*b),
        Expr::Sub(a, b) => is_arith(*a) && is_arith(*b),
        Expr::Mul(a, b) => is_arith(*a) && is_arith(*b),
        Expr::Div(a, b) => is_arith(*a) && is_arith(*b),
        _ => false,
    }
}

/// The value of an arithmetic tree: the same tree, node for node.
pub open spec fn arith_value(e: Expr) -> Value
    recommends
        is_arith(e),
    decreases e,
{
    match e {
        Expr::Num(d) => Value::Lit(d),
        Expr::Neg(a) => Value::Neg(Box::new(arith_value(*a))),
        Expr::Add(a, b) => Value::Add(Box::new(arith_value(*a)), Box::new(arith_value(*b))),
        Expr::Sub(a, b) => Value::Sub(Box::new(arith_value(*a)), Box::new(arith_value(*b))),
        Expr::Mul(a, b) => Value::Mul(Box::new(arith_value(*a)), Box::new(arith_value(*b))),
        Expr::Div(a, b) => Value::Div(Box::new(arith_value(*a)), Box::new(arith_value(*b))),
        _ => arbitrary(),
    }
}

/// An expression without variables, calls or declarations evaluates, under any
/// stacks and call limit, to its own arithmetic: each operator is applied to
/// its operands exactly as the tree groups them, so the number computed is the
/// one that the parsed precedence and associativity give.
pub proof fn lemma_arith_evaluates(e: Expr, vars: Seq<(String, Value)>, funcs: Seq<FnDef>, depth: nat)
    requires
        is_arith(e),
    ensures
        eval_spec(e, vars, funcs, depth) == Ok::<Value, EvalError>(arith_value(e)),
    decreases e,
{
    match e {
        Expr::Neg(a) => lemma_arith_evaluates(*a, vars, funcs, depth),
        Expr::Add(a, b) => {
            lemma_arith_evaluates(*a, vars, funcs, depth);
            lemma_arith_evaluates(*b, vars, funcs, depth);
        },
        Expr::Sub(a, b) => {
            lemma_arith_evaluates(*a, vars, funcs, depth);
            lemma_arith_evaluates(*b, vars, funcs, depth);
        },
        Expr::Mul(a, b) => {
            lemma_arith_evaluates(*a, vars, funcs, depth);
            lemma_arith_evaluates(*b, vars, funcs, depth);
        },
        Expr::Div(a, b) => {
            lemma_arith_evaluates(*a, vars, funcs, depth);
            lemma_arith_evaluates(*b, vars, funcs, depth);
        },
        _ => {},
    }
}

} // verus!
