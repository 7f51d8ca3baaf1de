//! The evaluator: every syntax-tree node evaluates to exactly one value or
//! fails, against a scope chain in the runtime's arena. The host seam
//! carries the native functions and the file loading that `source` needs.

use vstd::prelude::*;
use vstd::string::StringExecFns;
use crate::node::{nodes_view, BinaryOp, Block, BlockV, Node, NodeV, Operator, Statement, StatementV};
use crate::runtime::{
    chain_lookup, lemma_chain_lookup_source_free, lemma_root_of_is_root, lemma_root_of_parents,
    lemma_root_of_prefix, lemma_rt_wf_prefix, lemma_scopes_view_index, lemma_scopes_view_prefix,
    lemma_scopes_view_push, lemma_strings_view_index, obj_source_free, root_of, rt_source_free,
    rt_wf, strings_view, EvalError, EvalErrorV, Fault, FunctionV, Object, ObjectV, Runtime,
    Function, RuntimeError, RuntimeErrorV, Scope, ScopeV, Type,
};

verus! {

// ----------------------------------------------------------------------------
// what one evaluation step may do to the arena
// ----------------------------------------------------------------------------

/// The shape every evaluation step leaves the arena in: well-formed, the
/// same length, every parent pointer kept, and no slot changed but the
/// current scope and the root of its chain (which `source` writes into).
pub open spec fn frame_core(pre: Seq<ScopeV>, post: Seq<ScopeV>, scope: int) -> bool {
    &&& rt_wf(post)
    &&& post.len() == pre.len()
    &&& (forall|j: int| 0 <= j < pre.len() ==> (#[trigger] post[j]).parent == pre[j].parent)
    &&& (forall|j: int|
        0 <= j < pre.len() && j != scope && j != root_of(pre, scope) ==> post[j] == pre[j])
}

/// In a source-free arena nothing can write upward, so only the current
/// scope changes and the arena stays source-free.
pub open spec fn frame_sf(pre: Seq<ScopeV>, post: Seq<ScopeV>, scope: int) -> bool {
    rt_source_free(pre) ==> rt_source_free(post) && (forall|j: int|
        0 <= j < pre.len() && j != scope ==> post[j] == pre[j])
}

/// The full frame every evaluation step guarantees.
pub open spec fn eval_frame(pre: Seq<ScopeV>, post: Seq<ScopeV>, scope: int) -> bool {
    frame_core(pre, post, scope) && frame_sf(pre, post, scope)
}

/// Frames at the same scope compose.
pub proof fn lemma_frame_trans(a: Seq<ScopeV>, b: Seq<ScopeV>, c: Seq<ScopeV>, scope: int)
    requires
        eval_frame(a, b, scope),
        frame_core(b, c, scope),
        rt_source_free(a) ==> frame_sf(b, c, scope),
    ensures
        eval_frame(a, c, scope),
{
    lemma_root_of_parents(a, b, scope);
}

/// Popping the scope an evaluation pushed restores everything but what the
/// chain root may have gained; with a source-free arena and a source-free
/// pushed scope it restores everything.
pub proof fn lemma_frame_pop(pre: Seq<ScopeV>, ps: ScopeV, q: Seq<ScopeV>, scope: int)
    requires
        rt_wf(pre),
        0 <= scope < pre.len(),
        eval_frame(pre.push(ps), q, pre.len() as int),
        root_of(pre.push(ps), pre.len() as int) == root_of(pre, scope) || root_of(
            pre.push(ps),
            pre.len() as int,
        ) == pre.len(),
    ensures
        rt_wf(q.subrange(0, pre.len() as int)),
        q.subrange(0, pre.len() as int).len() == pre.len(),
        forall|j: int|
            0 <= j < pre.len() ==> (#[trigger] q.subrange(0, pre.len() as int)[j]).parent == pre[
                j
            ].parent,
        forall|j: int|
            0 <= j < pre.len() && j != root_of(pre, scope) ==> q.subrange(0, pre.len() as int)[j]
                == pre[j],
        (rt_source_free(pre) && (forall|j: int|
            0 <= j < ps.objects.len() ==> obj_source_free(#[trigger] ps.objects[j])))
            ==> q.subrange(0, pre.len() as int) == pre && rt_source_free(
            q.subrange(0, pre.len() as int),
        ),
{
    let l = pre.len() as int;
    let p = pre.push(ps);
    let r = q.subrange(0, l);
    assert(forall|j: int| 0 <= j < l ==> #[trigger] p[j] == pre[j]);
    assert(q.len() == l + 1);
    lemma_rt_wf_prefix(q, l);
    assert(forall|j: int| 0 <= j < l ==> #[trigger] r[j] == q[j]);
    if rt_source_free(pre) && (forall|j: int|
        0 <= j < ps.objects.len() ==> obj_source_free(#[trigger] ps.objects[j])) {
        assert forall|i: int, j: int|
            0 <= i < p.len() && 0 <= j < p[i].objects.len() implies obj_source_free(
            #[trigger] p[i].objects[j],
        ) by {
            if i < l {
                assert(p[i] == pre[i]);
            } else {
                assert(p[i] == ps);
            }
        }
        assert(rt_source_free(p));
        assert(r =~= pre);
    }
}

// ----------------------------------------------------------------------------
// the host seam
// ----------------------------------------------------------------------------

/// What the embedder supplies: the native-function library and the file
/// loading behind `source`. A host's natives take the evaluated arguments
/// in declaration order and return one value or fail; they never hand back
/// a source-inclusion function, which is what keeps block isolation
/// provable for hosts that do not source.
pub trait Host {
    /// Runs the native function registered under `id` on the evaluated
    /// arguments.
    fn call_native(&mut self, id: u64, args: &Vec<Object>) -> (r: Result<Object, EvalError>)
        ensures
            r matches Ok(o) ==> obj_source_free(o@),
    ;

    /// Reads and parses the text `source` names: `Ok(None)` reports a text
    /// that would not parse (the host has reported the syntax error), and
    /// the caller then continues with `Null`.
    fn load_block(&mut self, path: &String) -> (r: Result<Option<Block>, EvalError>);

    /// Hears of a condition a sourced script failed with; faults do not
    /// pass through here, they abort the caller too.
    fn note_error(&mut self, err: &EvalError);
}

// ----------------------------------------------------------------------------
// integer operations
// ----------------------------------------------------------------------------

/// Integer division truncating toward zero, written over Euclidean
/// division on magnitudes.
pub open spec fn div_trunc(x: int, d: int) -> int {
    if x == 0 {
        0
    } else if x > 0 && d > 0 {
        x / d
    } else if x < 0 && d < 0 {
        (x * -1) / (d * -1)
    } else if x < 0 {
        ((x * -1) / d) * -1
    } else {
        (x / (d * -1)) * -1
    }
}

/// Integer remainder with the dividend's sign, matching `%` on the
/// fixed-width type.
pub open spec fn rem_trunc(x: int, d: int) -> int {
    if x == 0 {
        0
    } else if x > 0 && d > 0 {
        x % d
    } else if x < 0 && d < 0 {
        ((x * -1) % (d * -1)) * -1
    } else if x < 0 {
        ((x * -1) % d) * -1
    } else {
        x % (d * -1)
    }
}

/// Iterated multiplication with an overflow check at every step: `None`
/// once any intermediate power leaves the fixed-width range.
pub open spec fn pow_checked(x: int, e: int) -> Option<int>
    decreases e,
{
    if e <= 0 {
        Option::Some(1)
    } else {
        match pow_checked(x, e - 1) {
            Option::Some(m) => if i32::MIN <= m * x && m * x <= i32::MAX {
                Option::Some(m * x)
            } else {
                Option::None
            },
            Option::None => Option::None,
        }
    }
}

/// An overflow at one power never recovers at a later one.
pub proof fn lemma_pow_checked_none(x: int, k: int, e: int)
    requires
        0 <= k <= e,
        pow_checked(x, k) is None,
    ensures
        pow_checked(x, e) is None,
    decreases e - k,
{
    if k < e {
        lemma_pow_checked_none(x, k + 1, e);
    }
}

/// A power the check admits lies within the fixed-width range.
pub proof fn lemma_pow_checked_range(x: int, e: int)
    requires
        pow_checked(x, e) is Some,
    ensures
        i32::MIN <= pow_checked(x, e)->0 <= i32::MAX,
    decreases e,
{
    if e > 0 {
        if pow_checked(x, e - 1) is Some {
            lemma_pow_checked_range(x, e - 1);
        }
    }
}

/// What one binary operator yields on two integer operands: checked
/// arithmetic whose overflow, zero division, and negative exponent are
/// fatal faults, and comparisons yielding booleans.
pub open spec fn int_binop_spec(op: Operator, x: i32, y: i32) -> Result<ObjectV, EvalErrorV> {
    match op {
        Operator::Add => if i32::MIN <= x + y <= i32::MAX {
            Ok(ObjectV::Integer((x + y) as i32))
        } else {
            Err(EvalErrorV::Fault(Fault::Overflow))
        },
        Operator::Sub => if i32::MIN <= x - y <= i32::MAX {
            Ok(ObjectV::Integer((x - y) as i32))
        } else {
            Err(EvalErrorV::Fault(Fault::Overflow))
        },
        Operator::Mul => if i32::MIN <= x * y <= i32::MAX {
            Ok(ObjectV::Integer((x * y) as i32))
        } else {
            Err(EvalErrorV::Fault(Fault::Overflow))
        },
        Operator::Div => if y == 0 {
            Err(EvalErrorV::Fault(Fault::DivideByZero))
        } else if i32::MIN <= div_trunc(x as int, y as int) <= i32::MAX {
            Ok(ObjectV::Integer(div_trunc(x as int, y as int) as i32))
        } else {
            Err(EvalErrorV::Fault(Fault::Overflow))
        },
        Operator::Mod => if y == 0 {
            Err(EvalErrorV::Fault(Fault::DivideByZero))
        } else if x == i32::MIN && y == -1 {
            Err(EvalErrorV::Fault(Fault::Overflow))
        } else {
            Ok(ObjectV::Integer(rem_trunc(x as int, y as int) as i32))
        },
        Operator::Pow => if y < 0 {
            Err(EvalErrorV::Fault(Fault::InvalidExponent))
        } else {
            match pow_checked(x as int, y as int) {
                Option::Some(p) => Ok(ObjectV::Integer(p as i32)),
                Option::None => Err(EvalErrorV::Fault(Fault::Overflow)),
            }
        },
        Operator::Equal => Ok(ObjectV::Boolean(x == y)),
        Operator::Inequal => Ok(ObjectV::Boolean(x != y)),
        Operator::Less => Ok(ObjectV::Boolean(x < y)),
        Operator::LessEqual => Ok(ObjectV::Boolean(x <= y)),
        Operator::Greater => Ok(ObjectV::Boolean(x > y)),
        Operator::GreaterEqual => Ok(ObjectV::Boolean(x >= y)),
        _ => Err(EvalErrorV::Fault(Fault::Unsupported)),
    }
}

/// Whether the operator belongs to the arithmetic/comparison group, whose
/// evaluation rule evaluates both operands before any type check.
pub open spec fn is_arith_cmp(op: Operator) -> bool {
    1 <= op.spec_level() <= 4
}

/// What a binary operator yields on two evaluated operands. `Add` with a
/// string on the left concatenates, forcing the right operand to a string;
/// otherwise the arithmetic/comparison group forces both operands to
/// integers, left first, and the logical group forces both to booleans,
/// left first. The grammar-only markers and assignment have no value rule
/// here.
pub open spec fn apply_binop_spec(op: Operator, a: ObjectV, b: ObjectV) -> Result<
    ObjectV,
    EvalErrorV,
> {
    if is_arith_cmp(op) {
        if op is Add && a is String {
            match b {
                ObjectV::String(t) => Ok(ObjectV::String(a->String_0 + t)),
                _ => Err(EvalErrorV::Condition(RuntimeErrorV::ExpectedType(Type::String))),
            }
        } else {
            match a {
                ObjectV::Integer(x) => match b {
                    ObjectV::Integer(y) => int_binop_spec(op, x, y),
                    _ => Err(EvalErrorV::Condition(RuntimeErrorV::ExpectedType(Type::Integer))),
                },
                _ => Err(EvalErrorV::Condition(RuntimeErrorV::ExpectedType(Type::Integer))),
            }
        }
    } else if op is And || op is Or {
        match a {
            ObjectV::Boolean(x) => match b {
                ObjectV::Boolean(y) => Ok(
                    ObjectV::Boolean(if op is And {
                        x && y
                    } else {
                        x || y
                    }),
                ),
                _ => Err(EvalErrorV::Condition(RuntimeErrorV::ExpectedType(Type::Boolean))),
            },
            _ => Err(EvalErrorV::Condition(RuntimeErrorV::ExpectedType(Type::Boolean))),
        }
    } else {
        Err(EvalErrorV::Fault(Fault::Unsupported))
    }
}

/// The mathematical value of an evaluation result.
pub open spec fn result_view(r: Result<Object, EvalError>) -> Result<ObjectV, EvalErrorV> {
    match r {
        Ok(o) => Ok(o@),
        Err(e) => Err(e@),
    }
}

/// Applies one binary operator to two evaluated operands.
pub fn apply_binop(op: Operator, a: Object, b: Object) -> (r: Result<Object, EvalError>)
    ensures
        result_view(r) == apply_binop_spec(op, a@, b@),
{
    let group = op.level();
    if 1 <= group && group <= 4 {
        match a {
            Object::String(sa) => {
                if let Operator::Add = op {
                    return match b {
                        Object::String(sb) => Ok(Object::String(sa.concat(sb.as_str()))),
                        _ => Err(
                            EvalError::Condition(RuntimeError::ExpectedType(Type::String)),
                        ),
                    };
                }
                Err(EvalError::Condition(RuntimeError::ExpectedType(Type::Integer)))
            },
            Object::Integer(x) => match b {
                Object::Integer(y) => int_binop(op, x, y),
                _ => Err(EvalError::Condition(RuntimeError::ExpectedType(Type::Integer))),
            },
            _ => Err(EvalError::Condition(RuntimeError::ExpectedType(Type::Integer))),
        }
    } else {
        match op {
            Operator::And | Operator::Or => match a {
                Object::Boolean(x) => match b {
                    Object::Boolean(y) => Ok(
                        Object::Boolean(
                            match op {
                                Operator::And => x && y,
                                _ => x || y,
                            },
                        ),
                    ),
                    _ => Err(
                        EvalError::Condition(RuntimeError::ExpectedType(Type::Boolean)),
                    ),
                },
                _ => Err(EvalError::Condition(RuntimeError::ExpectedType(Type::Boolean))),
            },
            _ => Err(EvalError::Fault(Fault::Unsupported)),
        }
    }
}

/// Applies one arithmetic or comparison operator to two integers.
fn int_binop(op: Operator, x: i32, y: i32) -> (r: Result<Object, EvalError>)
    requires
        is_arith_cmp(op),
    ensures
        result_view(r) == int_binop_spec(op, x, y),
{
    match op {
        Operator::Add => match x.checked_add(y) {
            Option::Some(v) => Ok(Object::Integer(v)),
            Option::None => Err(EvalError::Fault(Fault::Overflow)),
        },
        Operator::Sub => match x.checked_sub(y) {
            Option::Some(v) => Ok(Object::Integer(v)),
            Option::None => Err(EvalError::Fault(Fault::Overflow)),
        },
        Operator::Mul => match x.checked_mul(y) {
            Option::Some(v) => Ok(Object::Integer(v)),
            Option::None => Err(EvalError::Fault(Fault::Overflow)),
        },
        Operator::Div => match x.checked_div(y) {
            Option::Some(v) => Ok(Object::Integer(v)),
            Option::None => if y == 0 {
                Err(EvalError::Fault(Fault::DivideByZero))
            } else {
                Err(EvalError::Fault(Fault::Overflow))
            },
        },
        Operator::Mod => match x.checked_rem(y) {
            Option::Some(v) => Ok(Object::Integer(v)),
            Option::None => if y == 0 {
                Err(EvalError::Fault(Fault::DivideByZero))
            } else {
                Err(EvalError::Fault(Fault::Overflow))
            },
        },
        Operator::Pow => {
            if y < 0 {
                return Err(EvalError::Fault(Fault::InvalidExponent));
            }
            let mut acc: i32 = 1;
            let mut k: i32 = 0;
            while k < y
                invariant
                    op is Pow,
                    0 <= k <= y,
                    pow_checked(x as int, k as int) == Option::Some(acc as int),
                decreases y - k,
            {
                match acc.checked_mul(x) {
                    Option::Some(m) => {
                        acc = m;
                    },
                    Option::None => {
                        proof {
                            assert(pow_checked(x as int, k as int + 1) is None);
                            lemma_pow_checked_none(x as int, k as int + 1, y as int);
                            assert(pow_checked(x as int, y as int) is None);
                        }
                        return Err(EvalError::Fault(Fault::Overflow));
                    },
                }
                k = k + 1;
            }
            proof {
                // the admitted power lies in range, so the spec's cast is exact
                lemma_pow_checked_range(x as int, y as int);
            }
            Ok(Object::Integer(acc))
        },
        Operator::Equal => Ok(Object::Boolean(x == y)),
        Operator::Inequal => Ok(Object::Boolean(x != y)),
        Operator::Less => Ok(Object::Boolean(x < y)),
        Operator::LessEqual => Ok(Object::Boolean(x <= y)),
        Operator::Greater => Ok(Object::Boolean(x > y)),
        _ => Ok(Object::Boolean(x >= y)),
    }
}

// ----------------------------------------------------------------------------
// pure expressions
// ----------------------------------------------------------------------------

/// A side-effect-free expression: a literal, an identifier, or a
/// non-assignment binary operation over such expressions. Evaluating one
/// never changes the runtime and depends only on the scopes' contents.
pub open spec fn pure_node(n: NodeV) -> bool
    decreases n,
{
    match n {
        NodeV::Identifier(_) => true,
        NodeV::String(_) => true,
        NodeV::Integer(_) => true,
        NodeV::Boolean(_) => true,
        NodeV::BinaryOp(op, a, b) => !(op is SetValue) && pure_node(*a) && pure_node(*b),
        _ => false,
    }
}

/// What a pure expression evaluates to: the mathematical mirror of the
/// evaluator on the side-effect-free fragment.
pub open spec fn eval_pure_spec(scopes: Seq<crate::runtime::ScopeV>, cur: int, n: NodeV) -> Result<
    ObjectV,
    EvalErrorV,
>
    decreases n,
{
    match n {
        NodeV::String(s) => Ok(ObjectV::String(s)),
        NodeV::Integer(i) => Ok(ObjectV::Integer(i)),
        NodeV::Boolean(b) => Ok(ObjectV::Boolean(b)),
        NodeV::Identifier(name) => match chain_lookup(scopes, cur, name) {
            Option::Some(o) => Ok(o),
            Option::None => Err(EvalErrorV::Condition(RuntimeErrorV::NameError(name))),
        },
        NodeV::BinaryOp(op, a, b) => if is_arith_cmp(op) {
            match eval_pure_spec(scopes, cur, *a) {
                Err(e) => Err(e),
                Ok(av) => match eval_pure_spec(scopes, cur, *b) {
                    Err(e) => Err(e),
                    Ok(bv) => apply_binop_spec(op, av, bv),
                },
            }
        } else if op is And || op is Or {
            match eval_pure_spec(scopes, cur, *a) {
                Err(e) => Err(e),
                Ok(av) => match av {
                    ObjectV::Boolean(x) => match eval_pure_spec(scopes, cur, *b) {
                        Err(e) => Err(e),
                        Ok(bv) => match bv {
                            ObjectV::Boolean(y) => Ok(
                                ObjectV::Boolean(if op is And {
                                    x && y
                                } else {
                                    x || y
                                }),
                            ),
                            _ => Err(
                                EvalErrorV::Condition(RuntimeErrorV::ExpectedType(Type::Boolean)),
                            ),
                        },
                    },
                    _ => Err(EvalErrorV::Condition(RuntimeErrorV::ExpectedType(Type::Boolean))),
                },
            }
        } else {
            Err(EvalErrorV::Fault(Fault::Unsupported))
        },
        _ => arbitrary(),
    }
}

// ----------------------------------------------------------------------------
// laws of evaluation
// ----------------------------------------------------------------------------

/// String concatenation: `Add` on a left string operand concatenates, and
/// any non-string right operand is a string type mismatch.
pub proof fn lemma_string_concat(s: Seq<char>, b: ObjectV)
    ensures
        apply_binop_spec(Operator::Add, ObjectV::String(s), b) == (match b {
            ObjectV::String(t) => Ok::<ObjectV, EvalErrorV>(ObjectV::String(s + t)),
            _ => Err::<ObjectV, EvalErrorV>(
                EvalErrorV::Condition(RuntimeErrorV::ExpectedType(Type::String)),
            ),
        }),
{
}

/// Round-trip idempotence: a side-effect-free expression evaluated twice
/// against scopes with identical contents yields identical results, since
/// each run's result equals the one value `eval_pure_spec` names and the
/// run leaves the scopes untouched.
pub proof fn lemma_pure_eval_repeatable(
    scopes: Seq<ScopeV>,
    cur: int,
    n: NodeV,
    r1: Result<ObjectV, EvalErrorV>,
    r2: Result<ObjectV, EvalErrorV>,
)
    requires
        pure_node(n),
        r1 == eval_pure_spec(scopes, cur, n),
        r2 == eval_pure_spec(scopes, cur, n),
    ensures
        r1 == r2,
{
}

/// Integer division truncates toward zero: the quotient and the remainder
/// with the dividend's sign reassemble the dividend, and the remainder is
/// smaller in magnitude than the divisor.
pub proof fn lemma_division_truncates(x: int, d: int)
    requires
        d != 0,
    ensures
        x == d * div_trunc(x, d) + rem_trunc(x, d),
        rem_trunc(x, d) == 0 || (x > 0 ==> rem_trunc(x, d) > 0) && (x < 0 ==> rem_trunc(x, d)
            < 0),
        (if rem_trunc(x, d) >= 0 {
            rem_trunc(x, d)
        } else {
            -rem_trunc(x, d)
        }) < (if d >= 0 {
            d
        } else {
            -d
        }),
{
    if x == 0 {
    } else if x > 0 && d > 0 {
        vstd::arithmetic::div_mod::lemma_fundamental_div_mod(x, d);
        vstd::arithmetic::div_mod::lemma_mod_bound(x, d);
    } else if x < 0 && d < 0 {
        let q = (x * -1) / (d * -1);
        let m = (x * -1) % (d * -1);
        vstd::arithmetic::div_mod::lemma_fundamental_div_mod(x * -1, d * -1);
        vstd::arithmetic::div_mod::lemma_mod_bound(x * -1, d * -1);
        assert(x == d * q + (m * -1)) by (nonlinear_arith)
            requires
                x * -1 == (d * -1) * q + m,
        ;
    } else if x < 0 {
        let q = (x * -1) / d;
        let m = (x * -1) % d;
        vstd::arithmetic::div_mod::lemma_fundamental_div_mod(x * -1, d);
        vstd::arithmetic::div_mod::lemma_mod_bound(x * -1, d);
        assert(x == d * (q * -1) + (m * -1)) by (nonlinear_arith)
            requires
                x * -1 == d * q + m,
        ;
    } else {
        let q = x / (d * -1);
        let m = x % (d * -1);
        vstd::arithmetic::div_mod::lemma_fundamental_div_mod(x, d * -1);
        vstd::arithmetic::div_mod::lemma_mod_bound(x, d * -1);
        assert(x == d * (q * -1) + m) by (nonlinear_arith)
            requires
                x == (d * -1) * q + m,
        ;
    }
}

/// Whether every node of the list is side-effect-free.
pub open spec fn pure_nodes(ns: Seq<NodeV>) -> bool {
    forall|i: int| 0 <= i < ns.len() ==> pure_node(#[trigger] ns[i])
}

/// The values of a side-effect-free argument list, evaluated left to
/// right in the caller's scope, or the first failure.
pub open spec fn eval_pure_args(scopes: Seq<ScopeV>, scope: int, ns: Seq<NodeV>) -> Result<
    Seq<ObjectV>,
    EvalErrorV,
>
    decreases ns.len(),
{
    if ns.len() == 0 {
        Ok(Seq::empty())
    } else {
        match eval_pure_spec(scopes, scope, ns[0]) {
            Err(e) => Err(e),
            Ok(v) => match eval_pure_args(scopes, scope, ns.drop_first()) {
                Err(e) => Err(e),
                Ok(vs) => Ok(seq![v] + vs),
            },
        }
    }
}

/// Successful pure-argument evaluation gives one value per argument, each
/// its expression's own.
pub proof fn lemma_eval_pure_args_index(scopes: Seq<ScopeV>, scope: int, ns: Seq<NodeV>)
    requires
        eval_pure_args(scopes, scope, ns) is Ok,
    ensures
        (eval_pure_args(scopes, scope, ns)->Ok_0).len() == ns.len(),
        forall|k: int|
            0 <= k < ns.len() ==> eval_pure_spec(scopes, scope, #[trigger] ns[k]) == Ok::<
                ObjectV,
                EvalErrorV,
            >((eval_pure_args(scopes, scope, ns)->Ok_0)[k]),
    decreases ns.len(),
{
    if ns.len() > 0 {
        lemma_eval_pure_args_index(scopes, scope, ns.drop_first());
        assert(forall|k: int| 1 <= k < ns.len() ==> #[trigger] ns[k] == ns.drop_first()[k - 1]);
    }
}

/// The argument list fails exactly with its first failing expression.
pub proof fn lemma_eval_pure_args_first_err(
    scopes: Seq<ScopeV>,
    scope: int,
    ns: Seq<NodeV>,
    k: int,
    e: EvalErrorV,
)
    requires
        0 <= k < ns.len(),
        forall|q: int| 0 <= q < k ==> eval_pure_spec(scopes, scope, #[trigger] ns[q]) is Ok,
        eval_pure_spec(scopes, scope, ns[k]) == Err::<ObjectV, EvalErrorV>(e),
    ensures
        eval_pure_args(scopes, scope, ns) == Err::<Seq<ObjectV>, EvalErrorV>(e),
    decreases ns.len(),
{
    if k > 0 {
        assert(forall|q: int| 0 <= q < ns.len() - 1 ==> #[trigger] ns.drop_first()[q] == ns[q
            + 1]);
        lemma_eval_pure_args_first_err(scopes, scope, ns.drop_first(), k - 1, e);
    }
}

/// An argument list whose expressions all succeed succeeds.
pub proof fn lemma_eval_pure_args_all_ok(scopes: Seq<ScopeV>, scope: int, ns: Seq<NodeV>)
    requires
        forall|q: int| 0 <= q < ns.len() ==> eval_pure_spec(scopes, scope, #[trigger] ns[q])
            is Ok,
    ensures
        eval_pure_args(scopes, scope, ns) is Ok,
    decreases ns.len(),
{
    if ns.len() > 0 {
        assert(forall|q: int| 0 <= q < ns.len() - 1 ==> #[trigger] ns.drop_first()[q] == ns[q
            + 1]);
        lemma_eval_pure_args_all_ok(scopes, scope, ns.drop_first());
    }
}

/// Distinct parameter names: what positional binding needs.
pub open spec fn distinct_names(params: Seq<Seq<char>>) -> bool {
    forall|i: int, j: int| 0 <= i < j < params.len() ==> params[i] != params[j]
}

/// The scope a call builds: the argument values at positions 0..n, the
/// parameter names mapping to them in declaration order, the parent the
/// chain's root.
pub open spec fn call_frame(parent: int, params: Seq<Seq<char>>, vals: Seq<ObjectV>) -> ScopeV {
    ScopeV {
        objects: vals,
        names: Seq::new(params.len(), |k: int| (params[k], k)),
        parent: Option::Some(parent),
    }
}

/// What a call with a side-effect-free callee and side-effect-free
/// arguments does. The callee and then each argument are evaluated in the
/// caller's scope, left to right, a failure propagating untouched. With
/// the declared arity met: a host native leaves the arena as it was (the
/// host holds no scope); a script body with simple statements and
/// distinct parameters runs against the fresh call frame hanging off the
/// chain root, its binding effects vanish with the frame, and its first
/// failure or `Null` comes back.
pub open spec fn call_outcome(
    pre: Seq<ScopeV>,
    post: Seq<ScopeV>,
    scope: int,
    n: NodeV,
    fuel: u64,
    r: Result<ObjectV, EvalErrorV>,
) -> bool {
    match n {
        NodeV::ParenArgs(rootv, argsv) => (pure_node(*rootv) && pure_nodes(argsv)) ==> (
        match eval_pure_spec(pre, scope, *rootv) {
            Ok(fo) => match fo {
                ObjectV::Function { func, args: params } => params.len() == argsv.len() ==> (
                match eval_pure_args(pre, scope, argsv) {
                    Err(e) => r == Err::<ObjectV, EvalErrorV>(e) && post == pre,
                    Ok(vals) => match func {
                        FunctionV::Native(id) => post == pre,
                        FunctionV::Script(body) => (rt_source_free(pre) && distinct_names(
                            params,
                        ) && all_simple(body.statements) && fuel > 0) ==> ({
                            let frame = call_frame(root_of(pre, scope), params, vals);
                            let fold = eval_simple_stmts(
                                pre.push(frame),
                                pre.len() as int,
                                body.statements,
                            );
                            post == pre && r == (match fold.1 {
                                Option::None => Ok::<ObjectV, EvalErrorV>(ObjectV::Null),
                                Option::Some(e) => Err::<ObjectV, EvalErrorV>(e),
                            })
                        }),
                        FunctionV::Source => true,
                    },
                }),
                _ => true,
            },
            Err(e) => true,
        }),
        _ => true,
    }
}

/// A call through a side-effect-free callee expression naming a function
/// with the wrong parameter count fails with the declared (expected)
/// count, before any argument is evaluated or bound and with the arena
/// untouched.
pub open spec fn arity_mismatch_rejected(
    pre: Seq<ScopeV>,
    post: Seq<ScopeV>,
    scope: int,
    n: NodeV,
    r: Result<ObjectV, EvalErrorV>,
) -> bool {
    match n {
        NodeV::ParenArgs(rootv, argsv) => pure_node(*rootv) ==> (match eval_pure_spec(
            pre,
            scope,
            *rootv,
        ) {
            Ok(o) => match o {
                ObjectV::Function { func, args: paramsv } => paramsv.len() != argsv.len()
                    ==> r == Err::<ObjectV, EvalErrorV>(
                    EvalErrorV::Condition(RuntimeErrorV::ExpectedArgs(paramsv.len() as int)),
                ) && post == pre,
                _ => true,
            },
            Err(e) => true,
        }),
        _ => true,
    }
}

/// A statement whose whole effect the scope model states: a definition
/// over a side-effect-free expression, an assignment over side-effect-free
/// operands, or a side-effect-free expression statement. Calls, nested
/// blocks and `if` statements are not of this kind: their effects go
/// through fresh scopes or the host.
pub open spec fn simple_stmt(n: NodeV) -> bool {
    match n {
        NodeV::Statement(s) => match s {
            StatementV::SetVariable(_, v) => pure_node(*v),
            _ => false,
        },
        NodeV::BinaryOp(op, a, b) => (op is SetValue && pure_node(*a) && pure_node(*b))
            || pure_node(n),
        _ => pure_node(n),
    }
}

/// The arena after one simple statement, and its failure if any: the
/// mathematical mirror of one step of block evaluation on the simple
/// fragment.
pub open spec fn eval_simple_stmt(scopes: Seq<ScopeV>, scope: int, n: NodeV) -> (
    Seq<ScopeV>,
    Option<EvalErrorV>,
) {
    match n {
        NodeV::Statement(s) => match s {
            StatementV::SetVariable(nm, v) => match eval_pure_spec(scopes, scope, *v) {
                Err(e) => (scopes, Option::Some(e)),
                Ok(val) => if crate::runtime::scope_has(scopes[scope], nm) {
                    (scopes, Option::Some(EvalErrorV::Fault(Fault::Redefinition)))
                } else {
                    (
                        scopes.update(
                            scope,
                            ScopeV {
                                objects: scopes[scope].objects.push(val),
                                names: scopes[scope].names.push(
                                    (nm, scopes[scope].objects.len() as int),
                                ),
                                parent: scopes[scope].parent,
                            },
                        ),
                        Option::None,
                    )
                },
            },
            _ => (scopes, Option::Some(EvalErrorV::Fault(Fault::Unsupported))),
        },
        NodeV::BinaryOp(op, a, b) => if op is SetValue {
            match eval_pure_spec(scopes, scope, *a) {
                Err(e) => (scopes, Option::Some(e)),
                Ok(av) => match av {
                    ObjectV::String(nm) => match eval_pure_spec(scopes, scope, *b) {
                        Err(e) => (scopes, Option::Some(e)),
                        Ok(v) => match crate::runtime::assoc_find(scopes[scope].names, nm) {
                            Option::Some(i) => (
                                scopes.update(
                                    scope,
                                    ScopeV {
                                        objects: scopes[scope].objects.update(i, v),
                                        names: scopes[scope].names,
                                        parent: scopes[scope].parent,
                                    },
                                ),
                                Option::None,
                            ),
                            Option::None => (
                                scopes,
                                Option::Some(
                                    EvalErrorV::Condition(RuntimeErrorV::NameError(nm)),
                                ),
                            ),
                        },
                    },
                    _ => (
                        scopes,
                        Option::Some(
                            EvalErrorV::Condition(RuntimeErrorV::ExpectedType(Type::String)),
                        ),
                    ),
                },
            }
        } else {
            match eval_pure_spec(scopes, scope, n) {
                Err(e) => (scopes, Option::Some(e)),
                Ok(v) => (scopes, Option::None),
            }
        },
        _ => match eval_pure_spec(scopes, scope, n) {
            Err(e) => (scopes, Option::Some(e)),
            Ok(v) => (scopes, Option::None),
        },
    }
}

/// The arena after a statement list of the simple fragment, folding
/// statement by statement in source order and stopping at the first
/// failure; what the list already changed stays changed.
pub open spec fn eval_simple_stmts(scopes: Seq<ScopeV>, scope: int, stmts: Seq<NodeV>) -> (
    Seq<ScopeV>,
    Option<EvalErrorV>,
)
    decreases stmts.len(),
{
    if stmts.len() == 0 {
        (scopes, Option::None)
    } else {
        let step = eval_simple_stmt(scopes, scope, stmts[0]);
        match step.1 {
            Option::Some(e) => step,
            Option::None => eval_simple_stmts(step.0, scope, stmts.drop_first()),
        }
    }
}

/// Whether every statement of the list is of the simple fragment.
pub open spec fn all_simple(stmts: Seq<NodeV>) -> bool {
    forall|i: int| 0 <= i < stmts.len() ==> simple_stmt(#[trigger] stmts[i])
}

/// One evaluated statement of the simple fragment matches its
/// mathematical step: the clauses the node evaluator carries pin both the
/// arena it leaves and the result.
proof fn lemma_simple_step(
    m: Seq<ScopeV>,
    post: Seq<ScopeV>,
    scope: int,
    stv: NodeV,
    r: Result<ObjectV, EvalErrorV>,
)
    requires
        simple_stmt(stv),
        0 <= scope < m.len(),
        post.len() == m.len(),
        forall|j: int| 0 <= j < m.len() ==> (#[trigger] post[j]).parent == m[j].parent,
        pure_node(stv) ==> post == m && r == eval_pure_spec(m, scope, stv),
        (match stv {
            NodeV::Statement(sv2) => (match sv2 {
                StatementV::SetVariable(nm, v) => pure_node(*v) ==> define_outcome(
                    m,
                    post,
                    scope,
                    nm,
                    eval_pure_spec(m, scope, *v),
                    r,
                ),
                _ => true,
            }),
            _ => true,
        }),
        (match stv {
            NodeV::BinaryOp(op, a, b) => (op is SetValue && pure_node(*a) && pure_node(*b))
                ==> assign_outcome(
                m,
                post,
                scope,
                eval_pure_spec(m, scope, *a),
                eval_pure_spec(m, scope, *b),
                r,
            ),
            _ => true,
        }),
    ensures
        ({
            let step = eval_simple_stmt(m, scope, stv);
            match step.1 {
                Option::None => step.0 == post && r is Ok,
                Option::Some(e) => step.0 == post && r == Err::<ObjectV, EvalErrorV>(e),
            }
        }),
{
    match stv {
        NodeV::Statement(sv2) => match sv2 {
            StatementV::SetVariable(nm, v) => {
                match eval_pure_spec(m, scope, *v) {
                    Err(e) => {},
                    Ok(val) => {
                        if !crate::runtime::scope_has(m[scope], nm) {
                            let target = m.update(
                                scope,
                                ScopeV {
                                    objects: m[scope].objects.push(val),
                                    names: m[scope].names.push(
                                        (nm, m[scope].objects.len() as int),
                                    ),
                                    parent: m[scope].parent,
                                },
                            );
                            assert forall|j: int| 0 <= j < m.len() implies post[j] == target[
                                j
                            ] by {
                                if j == scope {
                                    assert(post[j] =~= target[j]);
                                }
                            }
                            assert(post =~= target);
                        }
                    },
                }
            },
            _ => {},
        },
        NodeV::BinaryOp(op, a, b) => {
            if op is SetValue {
                match eval_pure_spec(m, scope, *a) {
                    Err(e) => {},
                    Ok(av) => match av {
                        ObjectV::String(nm) => match eval_pure_spec(m, scope, *b) {
                            Err(e) => {},
                            Ok(val) => match crate::runtime::assoc_find(m[scope].names, nm) {
                                Option::Some(i) => {
                                    let target = m.update(
                                        scope,
                                        ScopeV {
                                            objects: m[scope].objects.update(i, val),
                                            names: m[scope].names,
                                            parent: m[scope].parent,
                                        },
                                    );
                                    assert forall|j: int|
                                        0 <= j < m.len() implies post[j] == target[j] by {
                                        if j == scope {
                                            assert(post[j] =~= target[j]);
                                        }
                                    }
                                    assert(post =~= target);
                                },
                                Option::None => {},
                            },
                        },
                        _ => {},
                    },
                }
            }
        },
        _ => {},
    }
}

/// A call through a side-effect-free callee expression naming a
/// non-function value fails with the function type mismatch, before any
/// argument is evaluated and with the arena untouched; a failing callee
/// expression fails with its own error.
pub open spec fn non_function_callee_rejected(
    pre: Seq<ScopeV>,
    post: Seq<ScopeV>,
    scope: int,
    n: NodeV,
    r: Result<ObjectV, EvalErrorV>,
) -> bool {
    match n {
        NodeV::ParenArgs(rootv, _) => pure_node(*rootv) ==> (match eval_pure_spec(
            pre,
            scope,
            *rootv,
        ) {
            Ok(o) => !(o is Function) ==> r == Err::<ObjectV, EvalErrorV>(
                EvalErrorV::Condition(RuntimeErrorV::ExpectedType(Type::Function)),
            ) && post == pre,
            Err(e) => r == Err::<ObjectV, EvalErrorV>(e) && post == pre,
        }),
        _ => true,
    }
}

// ----------------------------------------------------------------------------
// evaluation
// ----------------------------------------------------------------------------

impl Block {
    /// Evaluates the statements in order against the given scope; the
    /// block's own result is always `Null`.
    #[verifier::loop_isolation(false)]
    pub fn eval<H: Host>(&self, rt: &mut Runtime, scope: usize, host: &mut H, fuel: u64) -> (r:
        Result<Object, EvalError>)
        requires
            rt_wf(old(rt)@),
            scope < old(rt)@.len(),
        ensures
            eval_frame(old(rt)@, final(rt)@, scope as int),
            r matches Ok(o) ==> o@ == ObjectV::Null,
            all_simple(self@.statements) ==> ({
                let fold = eval_simple_stmts(old(rt)@, scope as int, self@.statements);
                final(rt)@ == fold.0 && result_view(r) == (match fold.1 {
                    Option::None => Ok::<ObjectV, EvalErrorV>(ObjectV::Null),
                    Option::Some(e) => Err::<ObjectV, EvalErrorV>(e),
                })
            }),
        decreases fuel, self, 0int,
    {
        let ghost pre = rt@;
        let ghost sv = self@.statements;
        proof {
            crate::node::lemma_nodes_view_index(self.statements@);
        }
        let n = self.statements.len();
        let mut i: usize = 0;
        proof {
            assert(sv.skip(0) =~= sv);
        }
        while i < n
            invariant
                rt_wf(rt@),
                eval_frame(pre, rt@, scope as int),
                rt@.len() == pre.len(),
                scope < rt@.len(),
                n == self.statements@.len(),
                i <= n,
                all_simple(sv) ==> eval_simple_stmts(pre, scope as int, sv)
                    == eval_simple_stmts(rt@, scope as int, sv.skip(i as int)),
            decreases fuel, *self, n - i,
        {
            let ghost mid = rt@;
            match self.statements[i].eval(rt, scope, host, fuel) {
                Ok(val) => {
                    proof {
                        lemma_frame_trans(pre, mid, rt@, scope as int);
                        if all_simple(sv) {
                            let stv = sv[i as int];
                            assert(self.statements@[i as int]@ == stv);
                            assert(simple_stmt(stv));
                            lemma_simple_step(mid, rt@, scope as int, stv, Ok(val@));
                        }
                    }
                },
                Err(e) => {
                    proof {
                        lemma_frame_trans(pre, mid, rt@, scope as int);
                        if all_simple(sv) {
                            let stv = sv[i as int];
                            assert(self.statements@[i as int]@ == stv);
                            assert(simple_stmt(stv));
                            lemma_simple_step(mid, rt@, scope as int, stv, Err(e@));
                            assert(sv.skip(i as int)[0] == stv);
                            assert(eval_simple_stmts(pre, scope as int, sv) == (
                                rt@,
                                Option::Some(e@),
                            ));
                        }
                    }
                    return Err(e);
                },
            }
            proof {
                if all_simple(sv) {
                    let stv = sv[i as int];
                    assert(sv.skip(i as int)[0] == stv);
                    assert(sv.skip(i as int).drop_first() =~= sv.skip(i as int + 1));
                }
            }
            i = i + 1;
        }
        proof {
            if all_simple(sv) {
                assert(sv.skip(n as int) =~= Seq::<NodeV>::empty());
                assert(eval_simple_stmts(pre, scope as int, sv) == (
                    rt@,
                    Option::<EvalErrorV>::None,
                ));
            }
        }
        Ok(Object::Null)
    }
}

impl Node {
    /// Evaluates one node to one value or fails. A nested block node runs
    /// against a discarded duplicate of the current scope, a call builds a
    /// fresh scope bound to the chain's root, and everything else reads or
    /// writes the current scope alone — so for the side-effect-free
    /// fragment the result is a function of the scopes' contents, stated
    /// by `eval_pure_spec`.
    #[verifier::loop_isolation(false)]
    #[verifier::rlimit(100)]
    pub fn eval<H: Host>(&self, rt: &mut Runtime, scope: usize, host: &mut H, fuel: u64) -> (r:
        Result<Object, EvalError>)
        requires
            rt_wf(old(rt)@),
            scope < old(rt)@.len(),
        ensures
            eval_frame(old(rt)@, final(rt)@, scope as int),
            rt_source_free(old(rt)@) ==> (r matches Ok(o) ==> obj_source_free(o@)),
            pure_node(self@) ==> final(rt)@ == old(rt)@ && result_view(r) == eval_pure_spec(
                old(rt)@,
                scope as int,
                self@,
            ),
            self@ matches NodeV::Block(..) && rt_source_free(old(rt)@)
                ==> final(rt)@ == old(rt)@,
            self@ matches NodeV::Block(..) ==> (r matches Ok(o) ==> o@ == ObjectV::Null),
            (match self@ {
                NodeV::Block(bv) => all_simple(bv.statements) ==> ({
                    let pushed = old(rt)@.push(old(rt)@[scope as int]);
                    let fold = eval_simple_stmts(pushed, old(rt)@.len() as int, bv.statements);
                    result_view(r) == (match fold.1 {
                        Option::None => Ok::<ObjectV, EvalErrorV>(ObjectV::Null),
                        Option::Some(e) => Err::<ObjectV, EvalErrorV>(e),
                    })
                }),
                _ => true,
            }),
            arity_mismatch_rejected(old(rt)@, final(rt)@, scope as int, self@, result_view(r)),
            non_function_callee_rejected(
                old(rt)@,
                final(rt)@,
                scope as int,
                self@,
                result_view(r),
            ),
            call_outcome(old(rt)@, final(rt)@, scope as int, self@, fuel, result_view(r)),
            (match self@ {
                NodeV::Statement(sv) => (match sv {
                    StatementV::SetVariable(nm, vexpr) => pure_node(*vexpr) ==> define_outcome(
                        old(rt)@,
                        final(rt)@,
                        scope as int,
                        nm,
                        eval_pure_spec(old(rt)@, scope as int, *vexpr),
                        result_view(r),
                    ),
                    _ => true,
                }),
                _ => true,
            }),
            (match self@ {
                NodeV::BinaryOp(op, a, b) => (op is SetValue && pure_node(*a) && pure_node(*b))
                    ==> assign_outcome(
                    old(rt)@,
                    final(rt)@,
                    scope as int,
                    eval_pure_spec(old(rt)@, scope as int, *a),
                    eval_pure_spec(old(rt)@, scope as int, *b),
                    result_view(r),
                ),
                _ => true,
            }),
        decreases fuel, self, 0int,
    {
        let ghost pre = rt@;
        let ghost selfv = self@;
        match self {
            Node::String(s) => Ok(Object::String(s.clone())),
            Node::Integer(i) => Ok(Object::Integer(*i)),
            Node::Boolean(b) => Ok(Object::Boolean(*b)),
            Node::Identifier(name) => {
                proof {
                    if rt_source_free(pre) {
                        lemma_chain_lookup_source_free(pre, scope as int, name@);
                    }
                    assert(selfv == NodeV::Identifier(name@));
                }
                match rt.get(scope, name.as_str()) {
                    Ok(o) => Ok(o),
                    Err(e) => Err(EvalError::Condition(e)),
                }
            },
            Node::Statement(st) => {
                let r = st.eval(rt, scope, host, fuel);
                proof {
                    assert(selfv == NodeV::Statement(st@));
                }
                r
            },
            Node::BinaryOp(b) => {
                let r = (&**b).eval(rt, scope, host, fuel);
                proof {
                    assert(selfv == NodeV::BinaryOp(b.op, Box::new(b.a@), Box::new(b.b@)));
                }
                r
            },
            Node::Block(b) => {
                proof {
                    lemma_scopes_view_index(rt.scopes@);
                    assert(selfv == NodeV::Block(b@));
                }
                let copy = rt.scopes[scope].clone();
                let ghost copyv = copy@;
                proof {
                    assert(copyv == pre[scope as int]);
                    lemma_scopes_view_push(rt.scopes@, copy);
                }
                let idx = rt.scopes.len();
                rt.scopes.push(copy);
                proof {
                    assert(idx as int == pre.len());
                    assert(rt@ =~= pre.push(copyv));
                    assert forall|i: int|
                        0 <= i < rt@.len() implies crate::runtime::scope_wf(#[trigger] rt@[i])
                        && (match rt@[i].parent {
                        Option::Some(p) => 0 <= p < i,
                        Option::None => true,
                    }) by {
                        if i < pre.len() {
                            assert(rt@[i] == pre[i]);
                        } else {
                            assert(rt@[i] == pre[scope as int]);
                        }
                    }
                    // the duplicate shares the chain root of the scope it copies
                    match pre[scope as int].parent {
                        Option::Some(p) => {
                            lemma_root_of_prefix(pre, pre.push(copyv), p, Seq::empty());
                        },
                        Option::None => {},
                    }
                }
                let res = b.eval(rt, idx, host, fuel);
                let ghost q = rt@;
                let ghost before_trunc = rt.scopes@;
                rt.scopes.truncate(idx);
                proof {
                    lemma_scopes_view_index(before_trunc);
                    lemma_scopes_view_prefix(before_trunc, idx as int);
                    assert(rt@ =~= q.subrange(0, pre.len() as int));
                    lemma_frame_pop(pre, copyv, q, scope as int);
                    if rt_source_free(pre) {
                        assert forall|j: int|
                            0 <= j < copyv.objects.len() implies obj_source_free(
                            #[trigger] copyv.objects[j],
                        ) by {
                            assert(pre[scope as int].objects[j] == copyv.objects[j]);
                        }
                        assert(q.subrange(0, pre.len() as int) == pre);
                        assert(rt@ == pre);
                    }
                    assert(eval_frame(pre, rt@, scope as int));
                }
                res
            },
            Node::ParenArgs(root, args) => {
                let ghost rootv = (**root)@;
                let ghost argsv = nodes_view(args@);
                let ghost hyp = pure_node(rootv) && pure_nodes(argsv);
                proof {
                    assert(selfv == NodeV::ParenArgs(Box::new(rootv), argsv));
                }
                let fobj = match root.eval(rt, scope, host, fuel) {
                    Ok(v) => v,
                    Err(e) => {
                        return Err(e);
                    },
                };
                let ghost m1 = rt@;
                let ghost fobjv = fobj@;
                match fobj {
                    Object::Function { func, args: params } => {
                        proof {
                            assert(fobjv == ObjectV::Function {
                                func: crate::runtime::function_view(*func),
                                args: strings_view(params@),
                            });
                            lemma_strings_view_index(params@);
                            crate::node::lemma_nodes_view_index(args@);
                        }
                        if args.len() != params.len() {
                            return Err(
                                EvalError::Condition(RuntimeError::ExpectedArgs(params.len())),
                            );
                        }
                        // every argument is evaluated in the caller's scope
                        let mut vals: Vec<Object> = Vec::new();
                        let n = args.len();
                        let mut i: usize = 0;
                        while i < n
                            invariant
                                rt_wf(rt@),
                                eval_frame(pre, rt@, scope as int),
                                rt@.len() == pre.len(),
                                scope < rt@.len(),
                                n == args@.len(),
                                i <= n,
                                vals@.len() == i,
                                rt_source_free(pre) ==> forall|j: int|
                                    0 <= j < vals@.len() ==> obj_source_free(
                                        (#[trigger] vals@[j])@,
                                    ),
                                hyp ==> rt@ == pre && (forall|q: int|
                                    0 <= q < i ==> eval_pure_spec(
                                        pre,
                                        scope as int,
                                        #[trigger] argsv[q],
                                    ) == Ok::<ObjectV, EvalErrorV>(vals@[q]@)),
                            decreases fuel, *self, n - i,
                        {
                            let ghost m = rt@;
                            match args[i].eval(rt, scope, host, fuel) {
                                Ok(v) => {
                                    proof {
                                        lemma_frame_trans(pre, m, rt@, scope as int);
                                        if hyp {
                                            assert(args@[i as int]@ == argsv[i as int]);
                                        }
                                    }
                                    vals.push(v);
                                },
                                Err(e) => {
                                    proof {
                                        lemma_frame_trans(pre, m, rt@, scope as int);
                                        if hyp {
                                            assert(args@[i as int]@ == argsv[i as int]);
                                            lemma_eval_pure_args_first_err(
                                                pre,
                                                scope as int,
                                                argsv,
                                                i as int,
                                                e@,
                                            );
                                        }
                                    }
                                    return Err(e);
                                },
                            }
                            i = i + 1;
                        }
                        proof {
                            if hyp {
                                lemma_eval_pure_args_all_ok(pre, scope as int, argsv);
                                lemma_eval_pure_args_index(pre, scope as int, argsv);
                            }
                        }
                        match *func {
                            Function::Native(id) => {
                                let r = host.call_native(id, &vals);
                                r
                            },
                            Function::Script(block) => {
                                if fuel == 0 {
                                    return Err(EvalError::Fault(Fault::RecursionLimit));
                                }
                                let ghost params_v = strings_view(params@);
                                let ghost vals_spec = if eval_pure_args(
                                    pre,
                                    scope as int,
                                    argsv,
                                ) is Ok {
                                    eval_pure_args(pre, scope as int, argsv)->Ok_0
                                } else {
                                    Seq::empty()
                                };
                                let ghost shyp = hyp && eval_pure_args(pre, scope as int, argsv)
                                    is Ok && rt_source_free(pre) && distinct_names(params_v)
                                    && all_simple(block@.statements);
                                proof {
                                    if shyp {
                                        lemma_eval_pure_args_index(pre, scope as int, argsv);
                                        assert(rt@ == pre);
                                        assert forall|q: int|
                                            0 <= q < vals@.len() implies (
                                        #[trigger] vals@[q])@ == vals_spec[q] by {
                                            assert(eval_pure_spec(pre, scope as int, argsv[q])
                                                == Ok::<ObjectV, EvalErrorV>(vals@[q]@));
                                        }
                                    }
                                }
                                let root_idx = rt.root(scope);
                                let ghost m2 = rt@;
                                proof {
                                    lemma_root_of_parents(pre, m2, scope as int);
                                    lemma_root_of_is_root(m2, scope as int);
                                }
                                let mut call_scope = Scope::new(Option::Some(root_idx));
                                let mut k: usize = 0;
                                while k < params.len()
                                    invariant
                                        rt_wf(rt@),
                                        eval_frame(pre, rt@, scope as int),
                                        rt@ == m2,
                                        rt@.len() == pre.len(),
                                        scope < rt@.len(),
                                        root_idx as int == root_of(m2, scope as int),
                                        root_idx <= scope,
                                        k <= params@.len(),
                                        vals@.len() == params@.len() - k,
                                        crate::runtime::scope_wf(call_scope@),
                                        call_scope@.parent == Option::Some(root_idx as int),
                                        shyp ==> (forall|q: int|
                                            0 <= q < vals@.len() ==> (#[trigger] vals@[q])@
                                                == vals_spec[k + q]),
                                        shyp ==> call_scope@.objects.len() == k
                                            && call_scope@.names.len() == k,
                                        shyp ==> (forall|q: int|
                                            0 <= q < k ==> (#[trigger] call_scope@.objects[q])
                                                == vals_spec[q]),
                                        shyp ==> (forall|q: int|
                                            0 <= q < k ==> (#[trigger] call_scope@.names[q])
                                                == (params_v[q], q as int)),
                                        rt_source_free(pre) ==> forall|j: int|
                                            0 <= j < call_scope@.objects.len()
                                                ==> obj_source_free(
                                                #[trigger] call_scope@.objects[j],
                                            ),
                                        rt_source_free(pre) ==> forall|j: int|
                                            0 <= j < vals@.len() ==> obj_source_free(
                                                (#[trigger] vals@[j])@,
                                            ),
                                    decreases params@.len() - k,
                                {
                                    let ghost pre_cs = call_scope@;
                                    let ghost pre_vals = vals@;
                                    let v = vals.remove(0);
                                    let ghost vv = v@;
                                    proof {
                                        if shyp {
                                            assert(params@[k as int]@ == params_v[k as int]);
                                            assert forall|q: int|
                                                0 <= q < pre_cs.names.len() implies (
                                            #[trigger] pre_cs.names[q]).0 != params_v[
                                            k as int] by {
                                                assert(pre_cs.names[q] == (
                                                    params_v[q],
                                                    q as int,
                                                ));
                                                assert(params_v[q] != params_v[k as int]);
                                            }
                                            crate::runtime::lemma_assoc_find_none(
                                                pre_cs.names,
                                                params_v[k as int],
                                            );
                                        }
                                    }
                                    if !call_scope.define(params[k].as_str(), v) {
                                        proof {
                                            if shyp {
                                                assert(false);
                                            }
                                        }
                                        return Err(EvalError::Fault(Fault::Redefinition));
                                    }
                                    proof {
                                        if shyp {
                                            assert(vv == vals_spec[k as int]);
                                            assert forall|q: int|
                                                0 <= q < vals@.len() implies (
                                            #[trigger] vals@[q])@ == vals_spec[k + 1 + q] by {
                                                assert(vals@[q] == pre_vals[q + 1]);
                                            }
                                            assert(call_scope@.objects == pre_cs.objects.push(
                                                vv,
                                            ));
                                            assert(call_scope@.names == pre_cs.names.push(
                                                (params_v[k as int], k as int),
                                            ));
                                            assert forall|q: int|
                                                0 <= q < k + 1 implies (
                                            #[trigger] call_scope@.objects[q]) == vals_spec[
                                            q] by {
                                                if q < k {
                                                    assert(call_scope@.objects[q]
                                                        == pre_cs.objects[q]);
                                                    assert(pre_cs.objects[q] == vals_spec[q]);
                                                }
                                            }
                                            assert forall|q: int|
                                                0 <= q < k + 1 implies (
                                            #[trigger] call_scope@.names[q]) == (
                                                params_v[q],
                                                q as int,
                                            ) by {
                                                if q < k {
                                                    assert(call_scope@.names[q]
                                                        == pre_cs.names[q]);
                                                    assert(pre_cs.names[q] == (
                                                        params_v[q],
                                                        q as int,
                                                    ));
                                                }
                                            }
                                        }
                                        if rt_source_free(pre) {
                                            assert(obj_source_free(vv));
                                            assert(call_scope@.objects == pre_cs.objects.push(
                                                vv,
                                            ));
                                            assert forall|j: int|
                                                0 <= j < call_scope@.objects.len()
                                                    implies obj_source_free(
                                                #[trigger] call_scope@.objects[j],
                                            ) by {
                                                if j < pre_cs.objects.len() {
                                                    assert(call_scope@.objects[j]
                                                        == pre_cs.objects[j]);
                                                } else {
                                                    assert(call_scope@.objects[j] == vv);
                                                }
                                            }
                                            assert forall|j: int|
                                                0 <= j < vals@.len() implies obj_source_free(
                                                (#[trigger] vals@[j])@,
                                            ) by {
                                                assert(vals@[j] == pre_vals[j + 1]);
                                            }
                                        }
                                    }
                                    k = k + 1;
                                }
                                let ghost csv = call_scope@;
                                proof {
                                    if shyp {
                                        let frame = call_frame(
                                            root_idx as int,
                                            params_v,
                                            vals_spec,
                                        );
                                        assert(vals_spec.len() == argsv.len());
                                        assert forall|q: int|
                                            0 <= q < csv.objects.len() implies csv.objects[q]
                                            == frame.objects[q] by {
                                            assert(csv.objects[q] == vals_spec[q]);
                                        }
                                        assert(csv.objects =~= frame.objects);
                                        assert forall|q: int|
                                            0 <= q < csv.names.len() implies csv.names[q]
                                            == frame.names[q] by {
                                            assert(csv.names[q] == (params_v[q], q as int));
                                        }
                                        assert(csv.names =~= frame.names);
                                        assert(csv =~= frame);
                                        assert(m2 == pre);
                                        assert(root_idx as int == root_of(pre, scope as int));
                                    }
                                    lemma_scopes_view_index(rt.scopes@);
                                    lemma_scopes_view_push(rt.scopes@, call_scope);
                                }
                                let idx = rt.scopes.len();
                                rt.scopes.push(call_scope);
                                proof {
                                    assert(idx as int == m2.len());
                                    assert(rt@ =~= m2.push(csv));
                                    assert forall|i: int|
                                        0 <= i < rt@.len() implies crate::runtime::scope_wf(
                                        #[trigger] rt@[i],
                                    ) && (match rt@[i].parent {
                                        Option::Some(p) => 0 <= p < i,
                                        Option::None => true,
                                    }) by {
                                        if i < m2.len() {
                                            assert(rt@[i] == m2[i]);
                                        } else {
                                            assert(rt@[i] == csv);
                                        }
                                    }
                                    lemma_root_of_prefix(
                                        m2,
                                        m2.push(csv),
                                        root_idx as int,
                                        Seq::<char>::empty(),
                                    );
                                    assert(m2[root_idx as int].parent is None);
                                    assert(root_of(m2, root_idx as int) == root_idx as int);
                                    assert((m2.push(csv))[idx as int] == csv);
                                    assert(root_of(m2.push(csv), idx as int) == root_of(
                                        m2.push(csv),
                                        root_idx as int,
                                    ));
                                    assert(root_of(m2.push(csv), idx as int) == root_of(
                                        m2,
                                        scope as int,
                                    ));
                                }
                                let res = block.eval(rt, idx, host, fuel - 1);
                                let ghost q = rt@;
                                let ghost before_trunc = rt.scopes@;
                                rt.scopes.truncate(idx);
                                proof {
                                    lemma_scopes_view_index(before_trunc);
                                    lemma_scopes_view_prefix(before_trunc, idx as int);
                                    assert(rt@ =~= q.subrange(0, m2.len() as int));
                                    lemma_frame_pop(m2, csv, q, scope as int);
                                    assert(frame_core(m2, rt@, scope as int));
                                    if rt_source_free(pre) {
                                        assert(rt_source_free(m2));
                                        assert(q.subrange(0, m2.len() as int) == m2);
                                        assert(frame_sf(m2, rt@, scope as int));
                                    }
                                    lemma_frame_trans(pre, m2, rt@, scope as int);
                                }
                                res
                            },
                            Function::Source => {
                                proof {
                                    if rt_source_free(pre) {
                                        assert(obj_source_free(fobjv));
                                        assert(false);
                                    }
                                }
                                if fuel == 0 {
                                    return Err(EvalError::Fault(Fault::RecursionLimit));
                                }
                                if vals.len() == 0 {
                                    return Err(EvalError::Fault(Fault::Unsupported));
                                }
                                let pathobj = vals.remove(0);
                                let path = match pathobj {
                                    Object::String(s) => s,
                                    _ => {
                                        return Err(
                                            EvalError::Condition(
                                                RuntimeError::ExpectedType(Type::String),
                                            ),
                                        );
                                    },
                                };
                                let loaded = match host.load_block(&path) {
                                    Ok(l) => l,
                                    Err(e) => {
                                        return Err(e);
                                    },
                                };
                                match loaded {
                                    Option::None => Ok(Object::Null),
                                    Option::Some(sblock) => {
                                        let root_idx = rt.root(scope);
                                        let ghost m3 = rt@;
                                        proof {
                                            lemma_root_of_parents(pre, m3, scope as int);
                                            lemma_root_of_is_root(m3, scope as int);
                                        }
                                        let res = sblock.eval(rt, root_idx, host, fuel - 1);
                                        proof {
                                            lemma_root_of_parents(m3, rt@, root_idx as int);
                                            assert(root_of(m3, root_idx as int) == root_idx);
                                            assert(frame_core(m3, rt@, scope as int));
                                            lemma_frame_trans(pre, m3, rt@, scope as int);
                                        }
                                        match res {
                                            Ok(_) => Ok(Object::Null),
                                            Err(e) => {
                                                if e.is_fault() {
                                                    Err(e)
                                                } else {
                                                    host.note_error(&e);
                                                    Ok(Object::Null)
                                                }
                                            },
                                        }
                                    },
                                }
                            },
                        }
                    },
                    _ => Err(EvalError::Condition(RuntimeError::ExpectedType(Type::Function))),
                }
            },
        }
    }
}

/// What an assignment with side-effect-free operands does: the left value
/// must be a string, whose contents name a binding of the current scope
/// alone; that binding's position is overwritten with the right value.
pub open spec fn assign_outcome(
    pre: Seq<ScopeV>,
    post: Seq<ScopeV>,
    scope: int,
    name: Result<ObjectV, EvalErrorV>,
    value: Result<ObjectV, EvalErrorV>,
    r: Result<ObjectV, EvalErrorV>,
) -> bool {
    match name {
        Err(e) => r == Err::<ObjectV, EvalErrorV>(e) && post == pre,
        Ok(av) => match av {
            ObjectV::String(nm) => match value {
                Err(e) => r == Err::<ObjectV, EvalErrorV>(e) && post == pre,
                Ok(v) => match crate::runtime::assoc_find(pre[scope].names, nm) {
                    Option::Some(i) => r == Ok::<ObjectV, EvalErrorV>(ObjectV::Null) && post[
                        scope
                    ].objects == pre[scope].objects.update(i, v) && post[scope].names == pre[
                        scope
                    ].names && (forall|j: int|
                        0 <= j < pre.len() && j != scope ==> post[j] == pre[j]),
                    Option::None => r == Err::<ObjectV, EvalErrorV>(
                        EvalErrorV::Condition(RuntimeErrorV::NameError(nm)),
                    ) && post == pre,
                },
            },
            _ => r == Err::<ObjectV, EvalErrorV>(
                EvalErrorV::Condition(RuntimeErrorV::ExpectedType(Type::String)),
            ) && post == pre,
        },
    }
}

/// What a definition with a side-effect-free defining expression does:
/// rejects a redefinition untouched, or appends the value under the name.
pub open spec fn define_outcome(
    pre: Seq<ScopeV>,
    post: Seq<ScopeV>,
    scope: int,
    nm: Seq<char>,
    value: Result<ObjectV, EvalErrorV>,
    r: Result<ObjectV, EvalErrorV>,
) -> bool {
    match value {
        Err(e) => r == Err::<ObjectV, EvalErrorV>(e) && post == pre,
        Ok(v) => if crate::runtime::scope_has(pre[scope], nm) {
            r == Err::<ObjectV, EvalErrorV>(EvalErrorV::Fault(Fault::Redefinition)) && post == pre
        } else {
            r == Ok::<ObjectV, EvalErrorV>(ObjectV::Null) && post[scope].objects == pre[
                scope
            ].objects.push(v) && post[scope].names == pre[scope].names.push(
                (nm, pre[scope].objects.len() as int),
            ) && (forall|j: int| 0 <= j < pre.len() && j != scope ==> post[j] == pre[j])
        },
    }
}

impl Statement {
    /// Evaluates a definition or an `if`; the result is always `Null`.
    pub fn eval<H: Host>(&self, rt: &mut Runtime, scope: usize, host: &mut H, fuel: u64) -> (r:
        Result<Object, EvalError>)
        requires
            rt_wf(old(rt)@),
            scope < old(rt)@.len(),
        ensures
            eval_frame(old(rt)@, final(rt)@, scope as int),
            r matches Ok(o) ==> o@ == ObjectV::Null,
            (match self@ {
                StatementV::SetVariable(nm, vexpr) => pure_node(*vexpr) ==> define_outcome(
                    old(rt)@,
                    final(rt)@,
                    scope as int,
                    nm,
                    eval_pure_spec(old(rt)@, scope as int, *vexpr),
                    result_view(r),
                ),
                _ => true,
            }),
            (match self@ {
                StatementV::If(c, thenb, ext) => ((pure_node(*c) && eval_pure_spec(
                    old(rt)@,
                    scope as int,
                    *c,
                ) == Ok::<ObjectV, EvalErrorV>(ObjectV::Boolean(true)) && rt_source_free(
                    old(rt)@,
                )) && (match *thenb {
                    NodeV::Block(tb) => all_simple(tb.statements),
                    _ => false,
                })) ==> ({
                    let pushed = old(rt)@.push(old(rt)@[scope as int]);
                    let tfold = eval_simple_stmts(
                        pushed,
                        old(rt)@.len() as int,
                        (match *thenb {
                            NodeV::Block(tb) => tb.statements,
                            _ => Seq::empty(),
                        }),
                    );
                    match tfold.1 {
                        Option::Some(e) => result_view(r) == Err::<ObjectV, EvalErrorV>(e)
                            && final(rt)@ == old(rt)@,
                        Option::None => (match ext {
                            Option::None => result_view(r) == Ok::<ObjectV, EvalErrorV>(
                                ObjectV::Null,
                            ) && final(rt)@ == old(rt)@,
                            Option::Some(e2) => (match *e2 {
                                NodeV::Block(eb) => all_simple(eb.statements) ==> ({
                                    let efold = eval_simple_stmts(
                                        old(rt)@,
                                        scope as int,
                                        eb.statements,
                                    );
                                    final(rt)@ == efold.0 && result_view(r) == (match efold.1 {
                                        Option::None => Ok::<ObjectV, EvalErrorV>(
                                            ObjectV::Null,
                                        ),
                                        Option::Some(er) => Err::<ObjectV, EvalErrorV>(er),
                                    })
                                }),
                                _ => true,
                            }),
                        }),
                    }
                }),
                _ => true,
            }),
            (match self@ {
                StatementV::If(c, thenb, ext) => (pure_node(*c) && eval_pure_spec(
                    old(rt)@,
                    scope as int,
                    *c,
                ) == Ok::<ObjectV, EvalErrorV>(ObjectV::Boolean(true)) && rt_source_free(
                    old(rt)@,
                ) && (*thenb matches NodeV::Block(..))) ==> (match ext {
                    Option::Some(e) => (match *e {
                        NodeV::Block(eb) => all_simple(eb.statements) ==> (r matches Ok(u)
                            ==> ({
                            let fold = eval_simple_stmts(old(rt)@, scope as int, eb.statements);
                            final(rt)@ == fold.0 && fold.1 is None
                        })),
                        _ => true,
                    }),
                    Option::None => r matches Ok(u) ==> final(rt)@ == old(rt)@,
                }),
                _ => true,
            }),
            (match self@ {
                StatementV::If(c, _, _) => pure_node(*c) ==> (match eval_pure_spec(
                    old(rt)@,
                    scope as int,
                    *c,
                ) {
                    Ok(cv) => (cv matches ObjectV::Boolean(truth) ==> (!truth ==> result_view(r)
                        == Ok::<ObjectV, EvalErrorV>(ObjectV::Null) && final(rt)@ == old(rt)@))
                        && (!(cv is Boolean) ==> result_view(r) == Err::<ObjectV, EvalErrorV>(
                        EvalErrorV::Condition(RuntimeErrorV::ExpectedType(Type::Boolean)),
                    ) && final(rt)@ == old(rt)@),
                    Err(e) => result_view(r) == Err::<ObjectV, EvalErrorV>(e) && final(rt)@
                        == old(rt)@,
                }),
                _ => true,
            }),
        decreases fuel, self, 0int,
    {
        let ghost pre = rt@;
        match self {
            Statement::SetVariable(name, value) => {
                let v = match value.eval(rt, scope, host, fuel) {
                    Ok(v) => v,
                    Err(e) => {
                        return Err(e);
                    },
                };
                let ghost mid = rt@;
                let ghost vv = v@;
                let ok = rt.define_in(scope, name.as_str(), v);
                proof {
                    assert(frame_core(mid, rt@, scope as int));
                    if rt_source_free(pre) {
                        assert(obj_source_free(vv));
                        assert(frame_sf(mid, rt@, scope as int));
                    }
                    lemma_frame_trans(pre, mid, rt@, scope as int);
                }
                if ok {
                    Ok(Object::Null)
                } else {
                    Err(EvalError::Fault(Fault::Redefinition))
                }
            },
            Statement::If(cond, block, ext) => {
                let c = match cond.eval(rt, scope, host, fuel) {
                    Ok(v) => v,
                    Err(e) => {
                        return Err(e);
                    },
                };
                match c {
                    Object::Boolean(truth) => {
                        if truth {
                            let ghost m1 = rt@;
                            match block.eval(rt, scope, host, fuel) {
                                Ok(_) => {
                                    proof {
                                        lemma_frame_trans(pre, m1, rt@, scope as int);
                                    }
                                },
                                Err(e) => {
                                    proof {
                                        lemma_frame_trans(pre, m1, rt@, scope as int);
                                    }
                                    return Err(e);
                                },
                            }
                            if let Option::Some(e) = ext {
                                let ghost m2 = rt@;
                                match &**e {
                                    Node::Block(eb) => {
                                        match eb.eval(rt, scope, host, fuel) {
                                            Ok(_) => {
                                                proof {
                                                    lemma_frame_trans(pre, m2, rt@, scope as int);
                                                }
                                            },
                                            Err(er) => {
                                                proof {
                                                    lemma_frame_trans(pre, m2, rt@, scope as int);
                                                }
                                                return Err(er);
                                            },
                                        }
                                    },
                                    Node::Statement(st2) => match st2 {
                                        Statement::If(..) => {
                                            match st2.eval(rt, scope, host, fuel) {
                                                Ok(_) => {
                                                    proof {
                                                        lemma_frame_trans(
                                                            pre,
                                                            m2,
                                                            rt@,
                                                            scope as int,
                                                        );
                                                    }
                                                },
                                                Err(er) => {
                                                    proof {
                                                        lemma_frame_trans(
                                                            pre,
                                                            m2,
                                                            rt@,
                                                            scope as int,
                                                        );
                                                    }
                                                    return Err(er);
                                                },
                                            }
                                        },
                                        _ => {
                                            return Err(EvalError::Fault(Fault::Unsupported));
                                        },
                                    },
                                    _ => {
                                        return Err(EvalError::Fault(Fault::Unsupported));
                                    },
                                }
                            }
                        }
                        Ok(Object::Null)
                    },
                    _ => Err(EvalError::Condition(RuntimeError::ExpectedType(Type::Boolean))),
                }
            },
        }
    }
}

impl BinaryOp {
    /// Evaluates one binary operation, with the evaluation order and type
    /// forcing of each operator group.
    pub fn eval<H: Host>(&self, rt: &mut Runtime, scope: usize, host: &mut H, fuel: u64) -> (r:
        Result<Object, EvalError>)
        requires
            rt_wf(old(rt)@),
            scope < old(rt)@.len(),
        ensures
            eval_frame(old(rt)@, final(rt)@, scope as int),
            r matches Ok(o) ==> obj_source_free(o@),
            pure_node(NodeV::BinaryOp(self.op, Box::new(self.a@), Box::new(self.b@)))
                ==> final(rt)@ == old(rt)@ && result_view(r) == eval_pure_spec(
                old(rt)@,
                scope as int,
                NodeV::BinaryOp(self.op, Box::new(self.a@), Box::new(self.b@)),
            ),
            (self.op is SetValue && pure_node(self.a@) && pure_node(self.b@)) ==> assign_outcome(
                old(rt)@,
                final(rt)@,
                scope as int,
                eval_pure_spec(old(rt)@, scope as int, self.a@),
                eval_pure_spec(old(rt)@, scope as int, self.b@),
                result_view(r),
            ),
        decreases fuel, self, 0int,
    {
        let ghost pre = rt@;
        let ghost selfv = NodeV::BinaryOp(self.op, Box::new(self.a@), Box::new(self.b@));
        let group = self.op.level();
        if 1 <= group && group <= 4 {
            let a = match self.a.eval(rt, scope, host, fuel) {
                Ok(v) => v,
                Err(e) => {
                    proof {
                        if pure_node(selfv) {
                            assert(eval_pure_spec(pre, scope as int, selfv) == Err::<
                                ObjectV,
                                EvalErrorV,
                            >(e@));
                        }
                    }
                    return Err(e);
                },
            };
            let ghost mid = rt@;
            let b = match self.b.eval(rt, scope, host, fuel) {
                Ok(v) => v,
                Err(e) => {
                    proof {
                        lemma_frame_trans(pre, mid, rt@, scope as int);
                        if pure_node(selfv) {
                            assert(eval_pure_spec(pre, scope as int, selfv) == Err::<
                                ObjectV,
                                EvalErrorV,
                            >(e@));
                        }
                    }
                    return Err(e);
                },
            };
            proof {
                lemma_frame_trans(pre, mid, rt@, scope as int);
            }
            let r = apply_binop(self.op, a, b);
            proof {
                if pure_node(selfv) {
                    assert(eval_pure_spec(pre, scope as int, selfv) == result_view(r));
                }
                match r {
                    Ok(ref o) => {
                        assert(obj_source_free(o@));
                    },
                    Err(_) => {},
                }
            }
            r
        } else {
            match self.op {
                Operator::And | Operator::Or => {
                    let a = match self.a.eval(rt, scope, host, fuel) {
                        Ok(v) => v,
                        Err(e) => {
                            proof {
                                if pure_node(selfv) {
                                    assert(eval_pure_spec(pre, scope as int, selfv) == Err::<
                                        ObjectV,
                                        EvalErrorV,
                                    >(e@));
                                }
                            }
                            return Err(e);
                        },
                    };
                    let x = match a {
                        Object::Boolean(x) => x,
                        _ => {
                            proof {
                                if pure_node(selfv) {
                                    assert(eval_pure_spec(pre, scope as int, selfv) == Err::<
                                        ObjectV,
                                        EvalErrorV,
                                    >(
                                        EvalErrorV::Condition(
                                            RuntimeErrorV::ExpectedType(Type::Boolean),
                                        ),
                                    ));
                                }
                            }
                            return Err(
                                EvalError::Condition(RuntimeError::ExpectedType(Type::Boolean)),
                            );
                        },
                    };
                    let ghost mid = rt@;
                    let b = match self.b.eval(rt, scope, host, fuel) {
                        Ok(v) => v,
                        Err(e) => {
                            proof {
                                lemma_frame_trans(pre, mid, rt@, scope as int);
                                if pure_node(selfv) {
                                    assert(eval_pure_spec(pre, scope as int, selfv) == Err::<
                                        ObjectV,
                                        EvalErrorV,
                                    >(e@));
                                }
                            }
                            return Err(e);
                        },
                    };
                    proof {
                        lemma_frame_trans(pre, mid, rt@, scope as int);
                    }
                    let y = match b {
                        Object::Boolean(y) => y,
                        _ => {
                            proof {
                                if pure_node(selfv) {
                                    assert(eval_pure_spec(pre, scope as int, selfv) == Err::<
                                        ObjectV,
                                        EvalErrorV,
                                    >(
                                        EvalErrorV::Condition(
                                            RuntimeErrorV::ExpectedType(Type::Boolean),
                                        ),
                                    ));
                                }
                            }
                            return Err(
                                EvalError::Condition(RuntimeError::ExpectedType(Type::Boolean)),
                            );
                        },
                    };
                    let truth = match self.op {
                        Operator::And => x && y,
                        _ => x || y,
                    };
                    proof {
                        if pure_node(selfv) {
                            assert(eval_pure_spec(pre, scope as int, selfv) == Ok::<
                                ObjectV,
                                EvalErrorV,
                            >(ObjectV::Boolean(truth)));
                        }
                    }
                    Ok(Object::Boolean(truth))
                },
                Operator::SetValue => {
                    let nameobj = match self.a.eval(rt, scope, host, fuel) {
                        Ok(v) => v,
                        Err(e) => {
                            return Err(e);
                        },
                    };
                    let name = match nameobj {
                        Object::String(s) => s,
                        _ => {
                            return Err(
                                EvalError::Condition(RuntimeError::ExpectedType(Type::String)),
                            );
                        },
                    };
                    let ghost m1 = rt@;
                    let v = match self.b.eval(rt, scope, host, fuel) {
                        Ok(v) => v,
                        Err(e) => {
                            proof {
                                lemma_frame_trans(pre, m1, rt@, scope as int);
                            }
                            return Err(e);
                        },
                    };
                    proof {
                        lemma_frame_trans(pre, m1, rt@, scope as int);
                    }
                    let ghost m2 = rt@;
                    let ghost vv = v@;
                    let res = rt.update_in(scope, name.as_str(), v);
                    proof {
                        assert(frame_core(m2, rt@, scope as int));
                        if rt_source_free(pre) {
                            assert(obj_source_free(vv));
                            assert(frame_sf(m2, rt@, scope as int));
                        }
                        lemma_frame_trans(pre, m2, rt@, scope as int);
                    }
                    match res {
                        Ok(_) => Ok(Object::Null),
                        Err(ne) => Err(EvalError::Condition(ne)),
                    }
                },
                _ => Err(EvalError::Fault(Fault::Unsupported)),
            }
        }
    }
}

} // verus!


