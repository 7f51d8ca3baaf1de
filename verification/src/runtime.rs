//! The runtime value representation and the scope/environment model: an
//! arena of scopes, each a name table over a value collection with an
//! optional parent used for name resolution.

use vstd::prelude::*;
use vstd::pervasive::VecAdditionalExecFns;
use vstd::string::StringExecFns;
use crate::node::{block_view, Block, BlockV};

verus! {

// ----------------------------------------------------------------------------
// errors
// ----------------------------------------------------------------------------

/// The runtime type tags that type-mismatch conditions name.
#[derive(Debug, Clone, Copy, PartialEq, Eq, Structural)]
pub enum Type {
    String,
    Integer,
    Boolean,
    Function,
}

/// A recoverable evaluation-time condition: the closed language-level
/// taxonomy.
#[derive(Debug)]
pub enum RuntimeError {
    /// An operand or callee had the wrong runtime type.
    ExpectedType(Type),
    /// A call handed a function the wrong number of arguments; carries the
    /// expected count.
    ExpectedArgs(usize),
    /// A name that no scope on the resolution chain binds.
    NameError(String),
}

/// A fatal fault outside the condition taxonomy. The evaluator cannot abort
/// the process itself, so it surfaces these for the embedder to abort on.
#[derive(Debug, Clone, Copy, PartialEq, Eq, Structural)]
pub enum Fault {
    /// Integer division or remainder by zero.
    DivideByZero,
    /// Integer arithmetic left the fixed-width range.
    Overflow,
    /// An exponent that is no non-negative integer.
    InvalidExponent,
    /// The recursion budget ran out: the analog of a stack overflow.
    RecursionLimit,
    /// A name defined twice in one scope.
    Redefinition,
    /// A value or tree shape no evaluation rule covers.
    Unsupported,
}

/// Any evaluation-time failure: a recoverable condition or a fatal fault.
/// The two taxonomies stay apart.
#[derive(Debug)]
pub enum EvalError {
    Condition(RuntimeError),
    Fault(Fault),
}

impl EvalError {
    /// Whether the failure is fatal for the embedder rather than a
    /// language-level condition.
    pub open spec fn spec_is_fault(self) -> bool {
        self matches EvalError::Fault(_)
    }

    /// Decides whether the failure is fatal.
    pub fn is_fault(&self) -> (r: bool)
        ensures
            r == self.spec_is_fault(),
    {
        match self {
            EvalError::Fault(_) => true,
            EvalError::Condition(_) => false,
        }
    }
}

/// The mathematical value of a `RuntimeError`.
pub enum RuntimeErrorV {
    ExpectedType(Type),
    ExpectedArgs(int),
    NameError(Seq<char>),
}

/// The mathematical value of an `EvalError`.
pub enum EvalErrorV {
    Condition(RuntimeErrorV),
    Fault(Fault),
}

impl View for RuntimeError {
    type V = RuntimeErrorV;

    open spec fn view(&self) -> RuntimeErrorV {
        match self {
            RuntimeError::ExpectedType(t) => RuntimeErrorV::ExpectedType(*t),
            RuntimeError::ExpectedArgs(n) => RuntimeErrorV::ExpectedArgs(*n as int),
            RuntimeError::NameError(s) => RuntimeErrorV::NameError(s@),
        }
    }
}

impl View for EvalError {
    type V = EvalErrorV;

    open spec fn view(&self) -> EvalErrorV {
        match self {
            EvalError::Condition(c) => EvalErrorV::Condition(c@),
            EvalError::Fault(f) => EvalErrorV::Fault(*f),
        }
    }
}

impl Clone for RuntimeError {
    /// Copy with the same mathematical value.
    fn clone(&self) -> (r: Self)
        ensures
            r@ == self@,
    {
        match self {
            RuntimeError::ExpectedType(t) => RuntimeError::ExpectedType(*t),
            RuntimeError::ExpectedArgs(n) => RuntimeError::ExpectedArgs(*n),
            RuntimeError::NameError(s) => RuntimeError::NameError(s.clone()),
        }
    }
}

impl Clone for EvalError {
    /// Copy with the same mathematical value.
    fn clone(&self) -> (r: Self)
        ensures
            r@ == self@,
    {
        match self {
            EvalError::Condition(c) => EvalError::Condition(c.clone()),
            EvalError::Fault(f) => EvalError::Fault(*f),
        }
    }
}

// ----------------------------------------------------------------------------
// runtime values
// ----------------------------------------------------------------------------

/// What implements a function object: host-registered logic named by an
/// identifier the host interprets, an owned script block, or the
/// source-inclusion primitive.
#[derive(Debug)]
pub enum Function {
    Native(u64),
    Script(Block),
    Source,
}

/// A runtime value.
#[derive(Debug)]
pub enum Object {
    Null,
    String(String),
    Integer(i32),
    Boolean(bool),
    /// A callable with its ordered parameter names.
    Function { func: Box<Function>, args: Vec<String> },
}

/// The mathematical value of a `Function`.
pub enum FunctionV {
    Native(u64),
    Script(BlockV),
    Source,
}

/// The mathematical value of an `Object`.
#[verifier::ext_equal]
pub enum ObjectV {
    Null,
    String(Seq<char>),
    Integer(i32),
    Boolean(bool),
    Function { func: FunctionV, args: Seq<Seq<char>> },
}

pub open spec fn function_view(f: Function) -> FunctionV {
    match f {
        Function::Native(id) => FunctionV::Native(id),
        Function::Script(b) => FunctionV::Script(block_view(b)),
        Function::Source => FunctionV::Source,
    }
}

pub open spec fn strings_view(s: Seq<String>) -> Seq<Seq<char>>
    decreases s,
{
    if s.len() == 0 {
        Seq::empty()
    } else {
        seq![s[0]@] + strings_view(s.drop_first())
    }
}

/// `strings_view` maps the view over the elements.
pub proof fn lemma_strings_view_index(s: Seq<String>)
    ensures
        strings_view(s).len() == s.len(),
        forall|i: int| 0 <= i < s.len() ==> strings_view(s)[i] == (#[trigger] s[i])@,
    decreases s,
{
    if s.len() > 0 {
        lemma_strings_view_index(s.drop_first());
        assert forall|i: int| 0 <= i < s.len() implies strings_view(s)[i] == (
        #[trigger] s[i])@ by {
            if i > 0 {
                assert(s.drop_first()[i - 1] == s[i]);
            }
        }
    }
}

pub open spec fn object_view(o: Object) -> ObjectV {
    match o {
        Object::Null => ObjectV::Null,
        Object::String(s) => ObjectV::String(s@),
        Object::Integer(i) => ObjectV::Integer(i),
        Object::Boolean(b) => ObjectV::Boolean(b),
        Object::Function { func, args } => ObjectV::Function {
            func: function_view(*func),
            args: strings_view(args@),
        },
    }
}

impl View for Object {
    type V = ObjectV;

    open spec fn view(&self) -> ObjectV {
        object_view(*self)
    }
}

pub open spec fn objects_view(s: Seq<Object>) -> Seq<ObjectV>
    decreases s,
{
    if s.len() == 0 {
        Seq::empty()
    } else {
        seq![object_view(s[0])] + objects_view(s.drop_first())
    }
}

/// `objects_view` maps the view over the elements.
pub proof fn lemma_objects_view_index(s: Seq<Object>)
    ensures
        objects_view(s).len() == s.len(),
        forall|i: int| 0 <= i < s.len() ==> objects_view(s)[i] == object_view(#[trigger] s[i]),
    decreases s,
{
    if s.len() > 0 {
        lemma_objects_view_index(s.drop_first());
        assert forall|i: int| 0 <= i < s.len() implies objects_view(s)[i] == object_view(
            #[trigger] s[i],
        ) by {
            if i > 0 {
                assert(s.drop_first()[i - 1] == s[i]);
            }
        }
    }
}

/// Appending a value appends its view.
pub proof fn lemma_objects_view_push(s: Seq<Object>, x: Object)
    ensures
        objects_view(s.push(x)) == objects_view(s).push(object_view(x)),
{
    lemma_objects_view_index(s);
    lemma_objects_view_index(s.push(x));
    assert forall|i: int| 0 <= i < s.len() + 1 implies objects_view(s.push(x))[i] == objects_view(
        s,
    ).push(object_view(x))[i] by {
        if i < s.len() {
            assert(s.push(x)[i] == s[i]);
        } else {
            assert(s.push(x)[i] == x);
        }
    }
    assert(objects_view(s.push(x)) =~= objects_view(s).push(object_view(x)));
}

/// Overwriting a value overwrites its view.
pub proof fn lemma_objects_view_update(s: Seq<Object>, i: int, x: Object)
    requires
        0 <= i < s.len(),
    ensures
        objects_view(s.update(i, x)) == objects_view(s).update(i, object_view(x)),
{
    lemma_objects_view_index(s);
    lemma_objects_view_index(s.update(i, x));
    assert forall|j: int| 0 <= j < s.len() implies objects_view(s.update(i, x))[j] == objects_view(
        s,
    ).update(i, object_view(x))[j] by {
        if j != i {
            assert(s.update(i, x)[j] == s[j]);
        } else {
            assert(s.update(i, x)[j] == x);
        }
    }
    assert(objects_view(s.update(i, x)) =~= objects_view(s).update(i, object_view(x)));
}

/// Two value lists with equal element views have equal views.
pub proof fn lemma_objects_view_pointwise(a: Seq<Object>, b: Seq<Object>)
    requires
        a.len() == b.len(),
        forall|i: int| 0 <= i < a.len() ==> object_view(#[trigger] a[i]) == object_view(b[i]),
    ensures
        objects_view(a) == objects_view(b),
{
    lemma_objects_view_index(a);
    lemma_objects_view_index(b);
    assert forall|i: int| 0 <= i < a.len() implies objects_view(a)[i] == objects_view(b)[i] by {
        assert(object_view(a[i]) == object_view(b[i]));
    }
    assert(objects_view(a) =~= objects_view(b));
}

// ----------------------------------------------------------------------------
// scopes
// ----------------------------------------------------------------------------

/// An environment: values at stable positions, a name table mapping each
/// bound name to one position, and an optional parent for resolution. The
/// parent is an index into the runtime's scope arena, always of an earlier
/// scope.
#[derive(Debug)]
pub struct Scope {
    pub objects: Vec<Object>,
    pub names: Vec<(String, usize)>,
    pub parent: Option<usize>,
}

/// The mathematical value of a `Scope`.
#[verifier::ext_equal]
pub struct ScopeV {
    pub objects: Seq<ObjectV>,
    pub names: Seq<(Seq<char>, int)>,
    pub parent: Option<int>,
}

pub open spec fn pairs_view(s: Seq<(String, usize)>) -> Seq<(Seq<char>, int)>
    decreases s,
{
    if s.len() == 0 {
        Seq::empty()
    } else {
        seq![(s[0].0@, s[0].1 as int)] + pairs_view(s.drop_first())
    }
}

/// `pairs_view` maps the view over the entries.
pub proof fn lemma_pairs_view_index(s: Seq<(String, usize)>)
    ensures
        pairs_view(s).len() == s.len(),
        forall|i: int| 0 <= i < s.len() ==> pairs_view(s)[i] == ((#[trigger] s[i]).0@,
        s[i].1 as int),
    decreases s,
{
    if s.len() > 0 {
        lemma_pairs_view_index(s.drop_first());
        assert forall|i: int| 0 <= i < s.len() implies pairs_view(s)[i] == ((#[trigger] s[i]).0@,
        s[i].1 as int) by {
            if i > 0 {
                assert(s.drop_first()[i - 1] == s[i]);
            }
        }
    }
}

/// Appending an entry appends its view.
pub proof fn lemma_pairs_view_push(s: Seq<(String, usize)>, name: String, id: usize)
    ensures
        pairs_view(s.push((name, id))) == pairs_view(s).push((name@, id as int)),
{
    lemma_pairs_view_index(s);
    lemma_pairs_view_index(s.push((name, id)));
    assert forall|i: int| 0 <= i < s.len() + 1 implies pairs_view(s.push((name, id)))[i]
        == pairs_view(s).push((name@, id as int))[i] by {
        if i < s.len() {
            assert(s.push((name, id))[i] == s[i]);
        } else {
            assert(s.push((name, id))[i] == (name, id));
        }
    }
    assert(pairs_view(s.push((name, id))) =~= pairs_view(s).push((name@, id as int)));
}

/// Two name tables with equal entry views have equal views.
pub proof fn lemma_pairs_view_pointwise(a: Seq<(String, usize)>, b: Seq<(String, usize)>)
    requires
        a.len() == b.len(),
        forall|i: int| 0 <= i < a.len() ==> (#[trigger] a[i]).0@ == b[i].0@ && a[i].1 == b[i].1,
    ensures
        pairs_view(a) == pairs_view(b),
{
    lemma_pairs_view_index(a);
    lemma_pairs_view_index(b);
    assert forall|i: int| 0 <= i < a.len() implies pairs_view(a)[i] == pairs_view(b)[i] by {
        assert(a[i].0@ == b[i].0@ && a[i].1 == b[i].1);
    }
    assert(pairs_view(a) =~= pairs_view(b));
}

/// Two string lists with equal element views have equal views.
pub proof fn lemma_strings_view_pointwise(a: Seq<String>, b: Seq<String>)
    requires
        a.len() == b.len(),
        forall|i: int| 0 <= i < a.len() ==> (#[trigger] a[i])@ == b[i]@,
    ensures
        strings_view(a) == strings_view(b),
{
    lemma_strings_view_index(a);
    lemma_strings_view_index(b);
    assert forall|i: int| 0 <= i < a.len() implies strings_view(a)[i] == strings_view(b)[i] by {
        assert(a[i]@ == b[i]@);
    }
    assert(strings_view(a) =~= strings_view(b));
}

pub open spec fn scope_view(s: Scope) -> ScopeV {
    ScopeV {
        objects: objects_view(s.objects@),
        names: pairs_view(s.names@),
        parent: match s.parent {
            Option::Some(p) => Option::Some(p as int),
            Option::None => Option::None,
        },
    }
}

impl View for Scope {
    type V = ScopeV;

    open spec fn view(&self) -> ScopeV {
        scope_view(*self)
    }
}

/// Every name maps to one live position, and names are unique within the
/// scope.
pub open spec fn scope_wf(s: ScopeV) -> bool {
    (forall|i: int| 0 <= i < s.names.len() ==> 0 <= (#[trigger] s.names[i]).1
        < s.objects.len()) && (forall|i: int, j: int|
        0 <= i < j < s.names.len() ==> (#[trigger] s.names[i]).0 != (#[trigger] s.names[j]).0)
}

/// The position `n` maps to in the name table, if any.
pub open spec fn assoc_find(names: Seq<(Seq<char>, int)>, n: Seq<char>) -> Option<int>
    decreases names.len(),
{
    if names.len() == 0 {
        Option::None
    } else if names[0].0 == n {
        Option::Some(names[0].1)
    } else {
        assoc_find(names.drop_first(), n)
    }
}

/// `assoc_find` returns the position of an entry holding the name, and
/// `None` exactly when no entry holds it.
pub proof fn lemma_assoc_find(names: Seq<(Seq<char>, int)>, n: Seq<char>)
    ensures
        match assoc_find(names, n) {
            Option::Some(p) => exists|i: int|
                0 <= i < names.len() && (#[trigger] names[i]).0 == n && names[i].1 == p,
            Option::None => forall|i: int|
                0 <= i < names.len() ==> (#[trigger] names[i]).0 != n,
        },
    decreases names.len(),
{
    if names.len() > 0 {
        lemma_assoc_find(names.drop_first(), n);
        assert(forall|i: int| 1 <= i < names.len() ==> #[trigger] names[i] == names.drop_first()[
            i - 1
        ]);
    }
}

/// Whether the scope binds the name locally.
pub open spec fn scope_has(s: ScopeV, n: Seq<char>) -> bool {
    assoc_find(s.names, n) is Some
}

/// The value the scope binds the name to locally, if any.
pub open spec fn scope_get(s: ScopeV, n: Seq<char>) -> Option<ObjectV> {
    match assoc_find(s.names, n) {
        Option::Some(i) => if 0 <= i < s.objects.len() {
            Option::Some(s.objects[i])
        } else {
            Option::None
        },
        Option::None => Option::None,
    }
}

// ----------------------------------------------------------------------------
// the runtime: an arena of scopes
// ----------------------------------------------------------------------------

/// The whole evaluation state: every live scope, parents referring to
/// earlier arena slots. Slot 0 is the top-level scope of the program.
#[derive(Debug)]
pub struct Runtime {
    pub scopes: Vec<Scope>,
}

pub open spec fn scopes_view(s: Seq<Scope>) -> Seq<ScopeV>
    decreases s,
{
    if s.len() == 0 {
        Seq::empty()
    } else {
        seq![scope_view(s[0])] + scopes_view(s.drop_first())
    }
}

/// `scopes_view` maps the view over the scopes.
pub proof fn lemma_scopes_view_index(s: Seq<Scope>)
    ensures
        scopes_view(s).len() == s.len(),
        forall|i: int| 0 <= i < s.len() ==> scopes_view(s)[i] == scope_view(#[trigger] s[i]),
    decreases s,
{
    if s.len() > 0 {
        lemma_scopes_view_index(s.drop_first());
        assert forall|i: int| 0 <= i < s.len() implies scopes_view(s)[i] == scope_view(
            #[trigger] s[i],
        ) by {
            if i > 0 {
                assert(s.drop_first()[i - 1] == s[i]);
            }
        }
    }
}

impl View for Runtime {
    type V = Seq<ScopeV>;

    open spec fn view(&self) -> Seq<ScopeV> {
        scopes_view(self.scopes@)
    }
}

/// Every scope is well formed and every parent points at an earlier slot.
pub open spec fn rt_wf(scopes: Seq<ScopeV>) -> bool {
    forall|i: int| 0 <= i < scopes.len() ==> scope_wf(#[trigger] scopes[i]) && (match scopes[
        i
    ].parent {
        Option::Some(p) => 0 <= p < i,
        Option::None => true,
    })
}

/// Resolution: the local table first, then the parent chain; `None` when
/// the chain is exhausted.
pub open spec fn chain_lookup(scopes: Seq<ScopeV>, cur: int, n: Seq<char>) -> Option<ObjectV>
    decreases cur,
{
    if !(0 <= cur < scopes.len()) {
        Option::None
    } else {
        match scope_get(scopes[cur], n) {
            Option::Some(o) => Option::Some(o),
            Option::None => match scopes[cur].parent {
                Option::Some(p) => if 0 <= p < cur {
                    chain_lookup(scopes, p, n)
                } else {
                    Option::None
                },
                Option::None => Option::None,
            },
        }
    }
}

/// The top of the parent chain above `cur`: the scope a fresh call frame is
/// bound to.
pub open spec fn root_of(scopes: Seq<ScopeV>, cur: int) -> int
    decreases cur,
{
    if !(0 <= cur < scopes.len()) {
        cur
    } else {
        match scopes[cur].parent {
            Option::Some(p) => if 0 <= p < cur {
                root_of(scopes, p)
            } else {
                cur
            },
            Option::None => cur,
        }
    }
}

/// Appending a scope appends its view.
pub proof fn lemma_scopes_view_push(s: Seq<Scope>, x: Scope)
    ensures
        scopes_view(s.push(x)) == scopes_view(s).push(scope_view(x)),
{
    lemma_scopes_view_index(s);
    lemma_scopes_view_index(s.push(x));
    assert forall|i: int| 0 <= i < s.len() + 1 implies scopes_view(s.push(x))[i] == scopes_view(
        s,
    ).push(scope_view(x))[i] by {
        if i < s.len() {
            assert(s.push(x)[i] == s[i]);
        } else {
            assert(s.push(x)[i] == x);
        }
    }
    assert(scopes_view(s.push(x)) =~= scopes_view(s).push(scope_view(x)));
}

/// Cutting the arena short cuts its view short.
pub proof fn lemma_scopes_view_prefix(s: Seq<Scope>, k: int)
    requires
        0 <= k <= s.len(),
    ensures
        scopes_view(s.subrange(0, k)) == scopes_view(s).subrange(0, k),
{
    lemma_scopes_view_index(s);
    lemma_scopes_view_index(s.subrange(0, k));
    assert forall|i: int| 0 <= i < k implies scopes_view(s.subrange(0, k))[i] == scopes_view(
        s,
    ).subrange(0, k)[i] by {
        assert(s.subrange(0, k)[i] == s[i]);
    }
    assert(scopes_view(s.subrange(0, k)) =~= scopes_view(s).subrange(0, k));
}

/// Overwriting a scope overwrites its view.
pub proof fn lemma_scopes_view_update(s: Seq<Scope>, i: int, x: Scope)
    requires
        0 <= i < s.len(),
    ensures
        scopes_view(s.update(i, x)) == scopes_view(s).update(i, scope_view(x)),
{
    lemma_scopes_view_index(s);
    lemma_scopes_view_index(s.update(i, x));
    assert forall|j: int| 0 <= j < s.len() implies scopes_view(s.update(i, x))[j] == scopes_view(
        s,
    ).update(i, scope_view(x))[j] by {
        if j != i {
            assert(s.update(i, x)[j] == s[j]);
        } else {
            assert(s.update(i, x)[j] == x);
        }
    }
    assert(scopes_view(s.update(i, x)) =~= scopes_view(s).update(i, scope_view(x)));
}

/// A well-formed arena stays well formed when cut short.
pub proof fn lemma_rt_wf_prefix(scopes: Seq<ScopeV>, k: int)
    requires
        rt_wf(scopes),
        0 <= k <= scopes.len(),
    ensures
        rt_wf(scopes.subrange(0, k)),
{
    assert forall|i: int| 0 <= i < k implies scope_wf(#[trigger] scopes.subrange(0, k)[i])
        && (match scopes.subrange(0, k)[i].parent {
        Option::Some(p) => 0 <= p < i,
        Option::None => true,
    }) by {
        assert(scopes.subrange(0, k)[i] == scopes[i]);
    }
}

/// Resolution and the chain root only read parent pointers and scope
/// contents along the chain below `cur`, so they agree on any extension of
/// the arena.
pub proof fn lemma_root_of_prefix(s1: Seq<ScopeV>, s2: Seq<ScopeV>, cur: int, n: Seq<char>)
    requires
        0 <= cur < s1.len(),
        s1.len() <= s2.len(),
        forall|j: int| 0 <= j < s1.len() ==> s2[j] == s1[j],
    ensures
        root_of(s2, cur) == root_of(s1, cur),
        chain_lookup(s2, cur, n) == chain_lookup(s1, cur, n),
    decreases cur,
{
    match s1[cur].parent {
        Option::Some(p) => {
            if 0 <= p < cur {
                lemma_root_of_prefix(s1, s2, p, n);
            }
        },
        Option::None => {},
    }
}

/// Arenas with the same parent pointers have the same chain roots.
pub proof fn lemma_root_of_parents(s1: Seq<ScopeV>, s2: Seq<ScopeV>, cur: int)
    requires
        s1.len() == s2.len(),
        forall|j: int| 0 <= j < s1.len() ==> (#[trigger] s2[j]).parent == s1[j].parent,
    ensures
        root_of(s2, cur) == root_of(s1, cur),
    decreases (if cur >= 0 { cur } else { 0 }),
{
    if 0 <= cur < s1.len() {
        match s1[cur].parent {
            Option::Some(p) => {
                if 0 <= p < cur {
                    lemma_root_of_parents(s1, s2, p);
                }
            },
            Option::None => {},
        }
    }
}

/// Under well-formedness the chain root carries no parent pointer.
pub proof fn lemma_root_of_is_root(scopes: Seq<ScopeV>, cur: int)
    requires
        rt_wf(scopes),
        0 <= cur < scopes.len(),
    ensures
        0 <= root_of(scopes, cur) <= cur,
        scopes[root_of(scopes, cur)].parent is None,
    decreases cur,
{
    match scopes[cur].parent {
        Option::Some(p) => {
            lemma_root_of_parents(scopes, scopes, cur);
            assert(0 <= p < cur);
            lemma_root_of_is_root(scopes, p);
        },
        Option::None => {},
    }
}

/// A first match at `k` settles `assoc_find`.
pub proof fn lemma_assoc_find_at(names: Seq<(Seq<char>, int)>, n: Seq<char>, k: int)
    requires
        0 <= k < names.len(),
        names[k].0 == n,
        forall|j: int| 0 <= j < k ==> (#[trigger] names[j]).0 != n,
    ensures
        assoc_find(names, n) == Option::Some(names[k].1),
    decreases names.len(),
{
    if k > 0 {
        assert(forall|j: int| 0 <= j < names.len() - 1 ==> #[trigger] names.drop_first()[j]
            == names[j + 1]);
        lemma_assoc_find_at(names.drop_first(), n, k - 1);
    }
}

/// Finding after an append: an already-bound name keeps its position, an
/// unbound one is found exactly when the appended entry carries it.
pub proof fn lemma_assoc_find_push(names: Seq<(Seq<char>, int)>, p: (Seq<char>, int), n: Seq<char>)
    ensures
        assoc_find(names.push(p), n) == (match assoc_find(names, n) {
            Option::Some(x) => Option::Some(x),
            Option::None => if p.0 == n {
                Option::Some(p.1)
            } else {
                Option::None
            },
        }),
    decreases names.len(),
{
    if names.len() == 0 {
        assert(names.push(p).drop_first() =~= Seq::<(Seq<char>, int)>::empty().push(
            p,
        ).drop_first());
        assert(names.push(p)[0] == p);
    } else {
        assert(names.push(p)[0] == names[0]);
        assert(names.push(p).drop_first() =~= names.drop_first().push(p));
        lemma_assoc_find_push(names.drop_first(), p, n);
    }
}

/// A name no entry holds is not found.
pub proof fn lemma_assoc_find_none(names: Seq<(Seq<char>, int)>, n: Seq<char>)
    requires
        forall|i: int| 0 <= i < names.len() ==> (#[trigger] names[i]).0 != n,
    ensures
        assoc_find(names, n) is None,
    decreases names.len(),
{
    if names.len() > 0 {
        assert(forall|j: int| 0 <= j < names.len() - 1 ==> #[trigger] names.drop_first()[j]
            == names[j + 1]);
        lemma_assoc_find_none(names.drop_first(), n);
    }
}

// ----------------------------------------------------------------------------
// cloning
// ----------------------------------------------------------------------------

impl Clone for Function {
    /// Deep copy with the same mathematical value.
    fn clone(&self) -> (r: Self)
        ensures
            function_view(r) == function_view(*self),
    {
        match self {
            Function::Native(id) => Function::Native(*id),
            Function::Script(b) => Function::Script(b.clone()),
            Function::Source => Function::Source,
        }
    }
}

/// Deep copy of a string list, element by element.
fn clone_strings(v: &Vec<String>) -> (r: Vec<String>)
    ensures
        r@.len() == v@.len(),
        forall|i: int| 0 <= i < v@.len() ==> (#[trigger] r@[i])@ == v@[i]@,
{
    let mut out: Vec<String> = Vec::new();
    let n = v.len();
    for k in 0..n
        invariant
            n == v@.len(),
            out@.len() == k,
            forall|i: int| 0 <= i < k ==> (#[trigger] out@[i])@ == v@[i]@,
    {
        out.push(v[k].clone());
    }
    out
}

impl Clone for Object {
    /// Deep copy with the same mathematical value.
    fn clone(&self) -> (r: Self)
        ensures
            r@ == self@,
    {
        match self {
            Object::Null => Object::Null,
            Object::String(s) => Object::String(s.clone()),
            Object::Integer(i) => Object::Integer(*i),
            Object::Boolean(b) => Object::Boolean(*b),
            Object::Function { func, args } => {
                let func2 = Box::new((**func).clone());
                let args2 = clone_strings(args);
                proof {
                    lemma_strings_view_pointwise(args2@, args@);
                }
                Object::Function { func: func2, args: args2 }
            },
        }
    }
}

/// Deep copy of a value list, element by element.
fn clone_objects(v: &Vec<Object>) -> (r: Vec<Object>)
    ensures
        r@.len() == v@.len(),
        forall|i: int| 0 <= i < v@.len() ==> (#[trigger] r@[i])@ == v@[i]@,
{
    let mut out: Vec<Object> = Vec::new();
    let n = v.len();
    for k in 0..n
        invariant
            n == v@.len(),
            out@.len() == k,
            forall|i: int| 0 <= i < k ==> (#[trigger] out@[i])@ == v@[i]@,
    {
        out.push(v[k].clone());
    }
    out
}

/// Deep copy of a name table, entry by entry.
fn clone_pairs(v: &Vec<(String, usize)>) -> (r: Vec<(String, usize)>)
    ensures
        r@.len() == v@.len(),
        forall|i: int| 0 <= i < v@.len() ==> (#[trigger] r@[i]).0@ == v@[i].0@ && r@[i].1
            == v@[i].1,
{
    let mut out: Vec<(String, usize)> = Vec::new();
    let n = v.len();
    for k in 0..n
        invariant
            n == v@.len(),
            out@.len() == k,
            forall|i: int| 0 <= i < k ==> (#[trigger] out@[i]).0@ == v@[i].0@ && out@[i].1
                == v@[i].1,
    {
        let name = v[k].0.clone();
        let id = v[k].1;
        out.push((name, id));
    }
    out
}

impl Clone for Scope {
    /// Deep copy with the same mathematical value: the duplicate a nested
    /// block is evaluated against.
    fn clone(&self) -> (r: Self)
        ensures
            r@ == self@,
    {
        let objects = clone_objects(&self.objects);
        let names = clone_pairs(&self.names);
        proof {
            assert forall|i: int| 0 <= i < objects@.len() implies object_view(
                #[trigger] objects@[i],
            ) == object_view(self.objects@[i]) by {
                assert(objects@[i]@ == self.objects@[i]@);
            }
            lemma_objects_view_pointwise(objects@, self.objects@);
            lemma_pairs_view_pointwise(names@, self.names@);
        }
        let r = Scope { objects, names, parent: self.parent };
        proof {
            assert(r@ =~= self@);
        }
        r
    }
}

// ----------------------------------------------------------------------------
// scope operations
// ----------------------------------------------------------------------------

impl Scope {
    /// A fresh, empty scope with the given parent.
    pub fn new(parent: Option<usize>) -> (r: Self)
        ensures
            r@.objects == Seq::<ObjectV>::empty(),
            r@.names == Seq::<(Seq<char>, int)>::empty(),
            r@.parent == (match parent {
                Option::Some(p) => Option::Some(p as int),
                Option::None => Option::<int>::None,
            }),
            scope_wf(r@),
    {
        Scope { objects: Vec::new(), names: Vec::new(), parent }
    }

    /// The position the name maps to locally, if any.
    fn find(&self, key: &String) -> (r: Option<usize>)
        ensures
            match assoc_find(self@.names, key@) {
                Option::Some(p) => r matches Option::Some(u) && u as int == p,
                Option::None => r is None,
            },
    {
        let n = self.names.len();
        proof {
            lemma_pairs_view_index(self.names@);
        }
        for k in 0..n
            invariant
                n == self.names@.len(),
                pairs_view(self.names@).len() == n,
                forall|i: int| 0 <= i < n ==> pairs_view(self.names@)[i] == ((
                #[trigger] self.names@[i]).0@, self.names@[i].1 as int),
                forall|j: int| 0 <= j < k ==> (#[trigger] pairs_view(self.names@)[j]).0 != key@,
        {
            if self.names[k].0 == *key {
                proof {
                    lemma_assoc_find_at(self@.names, key@, k as int);
                }
                return Option::Some(self.names[k].1);
            }
        }
        proof {
            lemma_assoc_find_none(self@.names, key@);
        }
        Option::None
    }

    /// Inserts a new binding; rejects a name this scope already binds and
    /// then changes nothing.
    pub fn define(&mut self, name: &str, object: Object) -> (r: bool)
        ensures
            r <==> !scope_has(old(self)@, name@),
            final(self)@.parent == old(self)@.parent,
            r ==> final(self)@.objects == old(self)@.objects.push(object_view(object))
                && final(self)@.names == old(self)@.names.push(
                (name@, old(self)@.objects.len() as int),
            ),
            !r ==> *final(self) == *old(self),
            scope_wf(old(self)@) ==> scope_wf(final(self)@),
    {
        let ghost ov = object_view(object);
        let key = name.to_owned();
        match self.find(&key) {
            Option::Some(_) => false,
            Option::None => {
                let ghost pre = self@;
                let id = self.objects.len();
                self.objects.push(object);
                self.names.push((key, id));
                proof {
                    lemma_objects_view_index(old(self).objects@);
                    lemma_objects_view_push(old(self).objects@, object);
                    assert(self@.objects =~= pre.objects.push(ov));
                    lemma_pairs_view_push(old(self).names@, key, id);
                    assert(self@.names =~= pre.names.push((name@, pre.objects.len() as int)));
                    if scope_wf(pre) {
                        lemma_assoc_find(pre.names, name@);
                        assert forall|i: int, j: int|
                            0 <= i < j < self@.names.len() implies (
                        #[trigger] self@.names[i]).0 != (#[trigger] self@.names[j]).0 by {
                            if j == self@.names.len() - 1 {
                                assert(self@.names[i] == pre.names[i]);
                            } else {
                                assert(self@.names[i] == pre.names[i]);
                                assert(self@.names[j] == pre.names[j]);
                            }
                        }
                        assert(scope_wf(self@));
                    }
                }
                true
            },
        }
    }

    /// Overwrites the value of a binding this scope already holds; a name
    /// it does not hold is a `NameError`, and assignment never creates a
    /// binding.
    pub fn update(&mut self, name: &str, object: Object) -> (r: Result<(), RuntimeError>)
        requires
            scope_wf(old(self)@),
        ensures
            scope_wf(final(self)@),
            final(self)@.parent == old(self)@.parent,
            final(self)@.names == old(self)@.names,
            match assoc_find(old(self)@.names, name@) {
                Option::Some(i) => r matches Ok(u) && final(self)@.objects == old(
                    self,
                )@.objects.update(i, object_view(object)),
                Option::None => (r matches Err(e) && e@ matches RuntimeErrorV::NameError(m)
                    && m == name@) && *final(self) == *old(self),
            },
    {
        let ghost ov = object_view(object);
        let key = name.to_owned();
        match self.find(&key) {
            Option::Some(i) => {
                let ghost pre = self@;
                proof {
                    lemma_assoc_find(pre.names, key@);
                    lemma_objects_view_index(self.objects@);
                }
                self.objects.set(i, object);
                proof {
                    lemma_objects_view_update(old(self).objects@, i as int, object);
                    assert(self@.objects =~= pre.objects.update(i as int, ov));
                }
                Ok(())
            },
            Option::None => Err(RuntimeError::NameError(key)),
        }
    }
}

// ----------------------------------------------------------------------------
// runtime operations
// ----------------------------------------------------------------------------

impl Runtime {
    /// A runtime holding one empty top-level scope.
    pub fn new() -> (r: Self)
        ensures
            r@.len() == 1,
            r@[0].objects == Seq::<ObjectV>::empty(),
            r@[0].names == Seq::<(Seq<char>, int)>::empty(),
            r@[0].parent is None,
            rt_wf(r@),
    {
        let mut scopes: Vec<Scope> = Vec::new();
        scopes.push(Scope::new(Option::None));
        proof {
            lemma_scopes_view_index(scopes@);
        }
        Runtime { scopes }
    }

    /// Walks to the top of the parent chain above `scope`.
    pub fn root(&self, scope: usize) -> (r: usize)
        requires
            rt_wf(self@),
            scope < self@.len(),
        ensures
            r as int == root_of(self@, scope as int),
            r <= scope,
    {
        proof {
            lemma_scopes_view_index(self.scopes@);
        }
        let mut cur = scope;
        loop
            invariant
                rt_wf(self@),
                cur <= scope < self@.len(),
                self@.len() == self.scopes@.len(),
                forall|i: int| 0 <= i < self@.len() ==> self@[i] == scope_view(
                    #[trigger] self.scopes@[i],
                ),
                root_of(self@, scope as int) == root_of(self@, cur as int),
            decreases cur,
        {
            match self.scopes[cur].parent {
                Option::Some(p) => {
                    proof {
                        assert(self@[cur as int].parent == Option::Some(p as int));
                    }
                    cur = p;
                },
                Option::None => {
                    proof {
                        assert(self@[cur as int].parent is None);
                    }
                    return cur;
                },
            }
        }
    }

    /// Resolves a name: the local table of `scope` first, then the parent
    /// chain; an unresolved name is a `NameError`, never a silent `Null`.
    pub fn get(&self, scope: usize, name: &str) -> (r: Result<Object, RuntimeError>)
        requires
            rt_wf(self@),
            scope < self@.len(),
        ensures
            match chain_lookup(self@, scope as int, name@) {
                Option::Some(o) => r matches Ok(obj) && obj@ == o,
                Option::None => r matches Err(e) && e@ matches RuntimeErrorV::NameError(m) && m
                    == name@,
            },
    {
        proof {
            lemma_scopes_view_index(self.scopes@);
        }
        let key = name.to_owned();
        let mut cur = scope;
        loop
            invariant
                rt_wf(self@),
                cur < self@.len(),
                self@.len() == self.scopes@.len(),
                key@ == name@,
                forall|i: int| 0 <= i < self@.len() ==> self@[i] == scope_view(
                    #[trigger] self.scopes@[i],
                ),
                chain_lookup(self@, scope as int, name@) == chain_lookup(
                    self@,
                    cur as int,
                    name@,
                ),
            decreases cur,
        {
            match self.scopes[cur].find(&key) {
                Option::Some(i) => {
                    proof {
                        lemma_assoc_find(self@[cur as int].names, name@);
                        lemma_objects_view_index(self.scopes@[cur as int].objects@);
                        assert(scope_get(self@[cur as int], name@) == Option::Some(
                            self@[cur as int].objects[i as int],
                        ));
                    }
                    return Ok(self.scopes[cur].objects[i].clone());
                },
                Option::None => {
                    match self.scopes[cur].parent {
                        Option::Some(p) => {
                            proof {
                                assert(self@[cur as int].parent == Option::Some(p as int));
                            }
                            cur = p;
                        },
                        Option::None => {
                            proof {
                                assert(self@[cur as int].parent is None);
                                assert(chain_lookup(self@, cur as int, name@) is None);
                            }
                            return Err(RuntimeError::NameError(key));
                        },
                    }
                },
            }
        }
    }
}


// ----------------------------------------------------------------------------
// source-inclusion tracking
// ----------------------------------------------------------------------------

/// Whether a value is free of the source-inclusion primitive. Script code
/// cannot build function objects, so when no scope holds one and the host
/// returns none, none ever appears.
pub open spec fn obj_source_free(o: ObjectV) -> bool {
    match o {
        ObjectV::Function { func, .. } => !(func is Source),
        _ => true,
    }
}

/// Whether no scope of the arena holds a source-inclusion function.
pub open spec fn rt_source_free(scopes: Seq<ScopeV>) -> bool {
    forall|i: int, j: int|
        0 <= i < scopes.len() && 0 <= j < scopes[i].objects.len() ==> obj_source_free(
            #[trigger] scopes[i].objects[j],
        )
}

/// What resolution finds is one of the arena's values, so it inherits
/// source-freedom.
pub proof fn lemma_chain_lookup_source_free(scopes: Seq<ScopeV>, cur: int, n: Seq<char>)
    requires
        rt_wf(scopes),
        rt_source_free(scopes),
    ensures
        match chain_lookup(scopes, cur, n) {
            Option::Some(o) => obj_source_free(o),
            Option::None => true,
        },
    decreases (if cur >= 0 { cur } else { 0 }),
{
    if 0 <= cur < scopes.len() {
        match scope_get(scopes[cur], n) {
            Option::Some(o) => {},
            Option::None => {
                match scopes[cur].parent {
                    Option::Some(p) => {
                        if 0 <= p < cur {
                            lemma_chain_lookup_source_free(scopes, p, n);
                        }
                    },
                    Option::None => {},
                }
            },
        }
    }
}

// ----------------------------------------------------------------------------
// binding in an arena slot
// ----------------------------------------------------------------------------

impl Runtime {
    /// `define` on the scope in slot `scope`: inserts a new binding there,
    /// rejecting a name that scope already binds; no other slot changes.
    pub fn define_in(&mut self, scope: usize, name: &str, object: Object) -> (r: bool)
        requires
            rt_wf(old(self)@),
            scope < old(self)@.len(),
        ensures
            rt_wf(final(self)@),
            final(self)@.len() == old(self)@.len(),
            forall|j: int|
                0 <= j < old(self)@.len() && j != scope ==> final(self)@[j] == old(self)@[j],
            final(self)@[scope as int].parent == old(self)@[scope as int].parent,
            r <==> !scope_has(old(self)@[scope as int], name@),
            r ==> final(self)@[scope as int].objects == old(self)@[scope as int].objects.push(
                object_view(object),
            ) && final(self)@[scope as int].names == old(self)@[scope as int].names.push(
                (name@, old(self)@[scope as int].objects.len() as int),
            ),
            !r ==> final(self)@ == old(self)@,
            rt_source_free(old(self)@) && obj_source_free(object_view(object)) ==> rt_source_free(
                final(self)@,
            ),
    {
        let ghost pre = self@;
        let ghost ov = object_view(object);
        proof {
            lemma_scopes_view_index(self.scopes@);
        }
        let mut s = self.scopes[scope].clone();
        let r = s.define(name, object);
        proof {
            lemma_scopes_view_update(self.scopes@, scope as int, s);
        }
        self.scopes.set(scope, s);
        proof {
            assert(self@ =~= pre.update(scope as int, s@));
            if !r {
                assert(self@ =~= pre);
            }
            assert forall|i: int|
                0 <= i < self@.len() implies scope_wf(#[trigger] self@[i]) && (match self@[
                i
            ].parent {
                Option::Some(p) => 0 <= p < i,
                Option::None => true,
            }) by {
                if i != scope {
                    assert(self@[i] == pre[i]);
                }
            }
            if rt_source_free(pre) && obj_source_free(ov) && r {
                assert(self@[scope as int].objects == pre[scope as int].objects.push(ov));
                assert forall|i: int, j: int|
                    0 <= i < self@.len() && 0 <= j < self@[i].objects.len() implies obj_source_free(
                    #[trigger] self@[i].objects[j],
                ) by {
                    if i == scope {
                        assert(self@[i].objects == pre[i].objects.push(ov));
                        if j < pre[scope as int].objects.len() {
                            assert(pre[i].objects.push(ov)[j] == pre[i].objects[j]);
                        } else {
                            assert(pre[i].objects.push(ov)[j] == ov);
                        }
                    } else {
                        assert(self@[i] == pre[i]);
                    }
                }
            }
        }
        r
    }

    /// `update` on the scope in slot `scope`: overwrites an existing
    /// binding there or fails with a `NameError`; no other slot changes.
    pub fn update_in(&mut self, scope: usize, name: &str, object: Object) -> (r: Result<
        (),
        RuntimeError,
    >)
        requires
            rt_wf(old(self)@),
            scope < old(self)@.len(),
        ensures
            rt_wf(final(self)@),
            final(self)@.len() == old(self)@.len(),
            forall|j: int|
                0 <= j < old(self)@.len() && j != scope ==> final(self)@[j] == old(self)@[j],
            final(self)@[scope as int].parent == old(self)@[scope as int].parent,
            final(self)@[scope as int].names == old(self)@[scope as int].names,
            match assoc_find(old(self)@[scope as int].names, name@) {
                Option::Some(i) => r matches Ok(u) && final(self)@[scope as int].objects == old(
                    self,
                )@[scope as int].objects.update(i, object_view(object)),
                Option::None => (r matches Err(e) && e@ matches RuntimeErrorV::NameError(m) && m
                    == name@) && final(self)@ == old(self)@,
            },
            rt_source_free(old(self)@) && obj_source_free(object_view(object)) ==> rt_source_free(
                final(self)@,
            ),
    {
        let ghost pre = self@;
        let ghost ov = object_view(object);
        proof {
            lemma_scopes_view_index(self.scopes@);
        }
        let mut s = self.scopes[scope].clone();
        let r = s.update(name, object);
        proof {
            lemma_scopes_view_update(self.scopes@, scope as int, s);
        }
        self.scopes.set(scope, s);
        proof {
            assert(self@ =~= pre.update(scope as int, s@));
            if r matches Err(_) {
                assert(self@ =~= pre);
            }
            assert forall|i: int|
                0 <= i < self@.len() implies scope_wf(#[trigger] self@[i]) && (match self@[
                i
            ].parent {
                Option::Some(p) => 0 <= p < i,
                Option::None => true,
            }) by {
                if i != scope {
                    assert(self@[i] == pre[i]);
                }
            }
            if rt_source_free(pre) && obj_source_free(ov) {
                assert forall|i: int, j: int|
                    0 <= i < self@.len() && 0 <= j < self@[i].objects.len() implies obj_source_free(
                    #[trigger] self@[i].objects[j],
                ) by {
                    if i == scope {
                        match assoc_find(pre[scope as int].names, name@) {
                            Option::Some(k) => {
                                lemma_assoc_find(pre[scope as int].names, name@);
                                assert(self@[i].objects == pre[i].objects.update(k, ov));
                                if j != k {
                                    assert(pre[i].objects.update(k, ov)[j] == pre[i].objects[j]);
                                } else {
                                    assert(pre[i].objects.update(k, ov)[j] == ov);
                                }
                            },
                            Option::None => {
                                assert(self@[i] == pre[i]);
                            },
                        }
                    } else {
                        assert(self@[i] == pre[i]);
                    }
                }
            }
        }
        r
    }
}

} // verus!
