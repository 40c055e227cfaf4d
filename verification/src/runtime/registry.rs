//! Beans wired by type through `@Autowired` fields, built dependency-first.
use std::collections::HashMap;
use std::sync::Arc;
use vstd::prelude::*;
use crate::compiler::ast::{lemma_dv_step, lemma_dv_skip0, push_dv};
use crate::compiler::compile::{
    BeanSpecM, DependencySpecM,
    AnswerRel, BeanContext, BeanKind, BeanSpec, CompiledMethod, EvalError, EvalErrorM,
    MethodImpl, MethodImplM, Part, PartM, Scope, eval_model, outcome, render, resolve_args,
    resolve_call_args, string_map, arg_get, MAX_CALL_DEPTH,
};
use crate::text::{copy_string, new_string, push_str, string_of, str_eq, u64_to_string, decimal};
use crate::runtime::wiring::{
    TypeIndex, type_names, wired_name, index_of, first_dup, specs_error, join, join_strings,
    build_type_index, find_duplicate, build_graph, find_name,
};
use crate::runtime::toposort::{topological_order, is_cycle, is_topological, occurs_before, graph_wf, deps_first};

verus! {

#[derive(Debug)]
pub enum DIError {
    Cycle(String),
    NoSuchBean(String),
    Ambiguous(String, String),
    Duplicate(String),
    ScopeViolation { id: String, scope: Scope },
}

pub enum DIErrorM {
    Cycle(Seq<char>),
    NoSuchBean(Seq<char>),
    Ambiguous(Seq<char>, Seq<char>),
    Duplicate(Seq<char>),
    ScopeViolation { id: Seq<char>, scope: Scope },
}

impl View for DIError {
    type V = DIErrorM;

    open spec fn view(&self) -> DIErrorM {
        match self {
            DIError::Cycle(p) => DIErrorM::Cycle(p@),
            DIError::NoSuchBean(t) => DIErrorM::NoSuchBean(t@),
            DIError::Ambiguous(t, n) => DIErrorM::Ambiguous(t@, n@),
            DIError::Duplicate(n) => DIErrorM::Duplicate(n@),
            DIError::ScopeViolation { id, scope } => DIErrorM::ScopeViolation {
                id: id@,
                scope: *scope,
            },
        }
    }
}

/// How a scope prints in messages.
pub open spec fn scope_text(s: Scope) -> Seq<char> {
    match s {
        Scope::Singleton => "Singleton"@,
        Scope::Prototype => "Prototype"@,
        Scope::Request => "Request"@,
    }
}

/// The text a container error displays.
pub open spec fn di_error_text(e: DIErrorM) -> Seq<char> {
    match e {
        DIErrorM::Cycle(p) => "circular dependency: "@ + p,
        DIErrorM::NoSuchBean(t) => "no bean of type '"@ + t + "'"@,
        DIErrorM::Ambiguous(t, n) => "multiple beans of type '"@ + t + "': "@ + n,
        DIErrorM::Duplicate(n) => "duplicate bean name '"@ + n + "'"@,
        DIErrorM::ScopeViolation { id, scope } => "scope violation: cannot inject "@ + scope_text(
            scope,
        ) + "-scoped bean '"@ + id + "' into a singleton"@,
    }
}

fn scope_name(s: Scope) -> (r: String)
    ensures
        r@ == scope_text(s),
{
    match s {
        Scope::Singleton => string_of("Singleton"),
        Scope::Prototype => string_of("Prototype"),
        Scope::Request => string_of("Request"),
    }
}

impl DIError {
    /// The error's message, as its `Display` renders it.
    pub fn message(&self) -> (r: String)
        ensures
            r@ == di_error_text(self@),
    {
        match self {
            DIError::Cycle(p) => {
                let mut s = string_of("circular dependency: ");
                push_str(&mut s, p.as_str());
                s
            },
            DIError::NoSuchBean(t) => {
                let mut s = string_of("no bean of type '");
                push_str(&mut s, t.as_str());
                push_str(&mut s, "'");
                s
            },
            DIError::Ambiguous(t, n) => {
                let mut s = string_of("multiple beans of type '");
                push_str(&mut s, t.as_str());
                push_str(&mut s, "': ");
                push_str(&mut s, n.as_str());
                s
            },
            DIError::Duplicate(n) => {
                let mut s = string_of("duplicate bean name '");
                push_str(&mut s, n.as_str());
                push_str(&mut s, "'");
                s
            },
            DIError::ScopeViolation { id, scope } => {
                let mut s = string_of("scope violation: cannot inject ");
                let sc = scope_name(*scope);
                push_str(&mut s, sc.as_str());
                push_str(&mut s, "-scoped bean '");
                push_str(&mut s, id.as_str());
                push_str(&mut s, "' into a singleton");
                s
            },
        }
    }
}

// ---------------------------------------------------------------------------
// Rust-native beans
// ---------------------------------------------------------------------------

/// A Rust-native method implementation: a plain function over string
/// arguments, registered with the container.
pub trait NativeMethod: Send + Sync {
    /// Whether `out` is an answer this method may give to `args`.
    spec fn answers(&self, args: Seq<Seq<char>>, out: Result<Seq<char>, EvalErrorM>) -> bool;

    fn call(&self, args: &[String]) -> (r: Result<String, EvalError>)
        ensures
            self.answers(args.deep_view(), outcome(r)),
    ;
}

/// Calls a native closure on its arguments (`Fn::call`). The closure is
/// the user's code: where its own precondition holds of `args`, what it
/// returns meets its own postcondition; nothing else is said of it.
#[verifier::external_body]
fn call_closure<F: Fn(&[String]) -> Result<String, EvalError>>(f: &F, args: &[String]) -> (r: Result<
    String,
    EvalError,
>)
    ensures
        call_requires(*f, (args,)) ==> call_ensures(*f, (args,), r),
{
    f(args)
}

impl<F: Fn(&[String]) -> Result<String, EvalError> + Send + Sync> NativeMethod for F {
    /// A closure answers what it may return for arguments of that view.
    open spec fn answers(&self, args: Seq<Seq<char>>, out: Result<Seq<char>, EvalErrorM>) -> bool {
        exists|a: &[String], r: Result<String, EvalError>|
            #[trigger] a.deep_view() == args && #[trigger] outcome(r) == out && (call_requires(*self, (a,))
                ==> call_ensures(*self, (a,), r))
    }

    fn call(&self, args: &[String]) -> (r: Result<String, EvalError>) {
        let r = call_closure(self, args);
        assert(args.deep_view() == args.deep_view() && outcome(r) == outcome(r));
        r
    }
}

pub type NativeFn = Arc<dyn NativeMethod>;

/// A bean implemented in Rust, registered directly with the container.
pub struct NativeDef {
    pub name: String,
    pub class_name: String,
    pub methods: HashMap<String, NativeFn>,
}

/// The entries of a native method table, keys read by view.
pub uninterp spec fn native_table(m: HashMap<String, NativeFn>) -> Map<Seq<char>, NativeFn>;

/// Calls `HashMap::get` on a native method table: the function stored
/// under `k`, if any.
#[verifier::external_body]
fn native_get<'a>(m: &'a HashMap<String, NativeFn>, k: &str) -> (r: Option<&'a NativeFn>)
    ensures
        match r {
            Some(f) => native_table(*m).contains_key(k@) && native_table(*m)[k@] == *f,
            None => !native_table(*m).contains_key(k@),
        },
{
    m.get(k)
}

/// Calls a native method through its shared pointer.
fn call_native(f: &NativeFn, args: &[String]) -> (r: Result<String, EvalError>)
    ensures
        f.answers(args.deep_view(), outcome(r)),
{
    f.call(args)
}

// ---------------------------------------------------------------------------
// Beans
// ---------------------------------------------------------------------------

pub enum BeanCore {
    Java(Vec<CompiledMethod>),
    Native(HashMap<String, NativeFn>),
}

/// A wired bean instance.
pub struct Bean {
    pub name: String,
    pub class_name: String,
    pub kind: BeanKind,
    pub scope: Scope,
    pub core: BeanCore,
    /// Field name → injected bean, in wiring order; a later entry under the
    /// same name replaces an earlier one.
    pub fields: Vec<(String, Arc<Bean>)>,
}

/// Calls `Arc::clone`: another pointer to the same bean.
#[verifier::external_body]
fn share(b: &Arc<Bean>) -> (r: Arc<Bean>)
    ensures
        r == *b,
{
    b.clone()
}

/// The bean injected under `f`: the last entry with that name.
pub open spec fn field_target(fields: Seq<(String, Arc<Bean>)>, f: Seq<char>) -> Option<Bean>
    decreases fields.len(),
{
    if fields.len() == 0 {
        None
    } else if fields.last().0@ == f {
        Some(*fields.last().1)
    } else {
        field_target(fields.drop_last(), f)
    }
}

/// The method a Java bean runs under a name: the last one declared.
pub open spec fn method_named(ms: Seq<CompiledMethod>, n: Seq<char>) -> Option<CompiledMethod>
    decreases ms.len(),
{
    if ms.len() == 0 {
        None
    } else if ms.last().name@ == n {
        Some(ms.last())
    } else {
        method_named(ms.drop_last(), n)
    }
}

/// Binds parameter names to positional arguments; a later parameter of
/// the same name wins.
pub open spec fn bind_args(params: Seq<Seq<char>>, args: Seq<Seq<char>>) -> Map<Seq<char>, Seq<char>>
    decreases params.len(),
{
    if params.len() == 0 || args.len() == 0 {
        Map::empty()
    } else {
        bind_args(params.drop_last(), args.drop_last()).insert(params.last(), args.last())
    }
}

pub open spec fn no_method_error(class: Seq<char>, method: Seq<char>) -> EvalErrorM {
    EvalErrorM::Unimplemented(class + "."@ + method + ": no such method"@)
}

pub open spec fn arity_error(class: Seq<char>, method: Seq<char>, want: nat, got: nat) -> EvalErrorM {
    EvalErrorM::Unimplemented(
        class + "."@ + method + ": expected "@ + decimal(want) + " arg(s), got "@ + decimal(got),
    )
}

pub open spec fn no_native_error(class: Seq<char>, method: Seq<char>) -> EvalErrorM {
    EvalErrorM::Unimplemented(class + "."@ + method + ": no such native method"@)
}

pub open spec fn no_field_error(class: Seq<char>, receiver: Seq<char>) -> EvalErrorM {
    EvalErrorM::Unimplemented(class + ": no injected field named '"@ + receiver + "'"@)
}

/// What a bean answers without running a Java method body: the errors of
/// method lookup and arity, and for a native method the answer of the
/// function registered under its name to the arguments.
pub open spec fn lookup_answer(b: Bean, method: Seq<char>, args: Seq<Seq<char>>, out: Result<
    Seq<char>,
    EvalErrorM,
>) -> bool {
    match b.core {
        BeanCore::Java(ms) => match method_named(ms@, method) {
            None => out == Err::<Seq<char>, EvalErrorM>(no_method_error(b.class_name@, method)),
            Some(m) => args.len() != m.params@.len() ==> out == Err::<Seq<char>, EvalErrorM>(
                arity_error(b.class_name@, method, m.params@.len(), args.len()),
            ),
        },
        BeanCore::Native(tbl) => if native_table(tbl).contains_key(method) {
            native_table(tbl)[method].answers(args, out)
        } else {
            out == Err::<Seq<char>, EvalErrorM>(no_native_error(b.class_name@, method))
        },
    }
}

/// The answers a bean gives to calls on its fields: an unknown field
/// fails, a known one answers as the injected bean does (`chain_call`,
/// where no native method is reached).
pub open spec fn bean_answers(b: Bean) -> AnswerRel {
    |r: Seq<char>, m: Seq<char>, a: Seq<Seq<char>>, d: int, o: Result<Seq<char>, EvalErrorM>|
        {
            &&& match field_target(b.fields@, r) {
                None => o == Err::<Seq<char>, EvalErrorM>(no_field_error(b.class_name@, r)),
                Some(t) => lookup_answer(t, m, a, o),
            }
            &&& chain_call(b, r, m, a, d) matches Some(x) ==> o == x
        }
}

/// What invoking `method` on a bean at `depth` gives.
pub open spec fn invoke_answer(b: Bean, method: Seq<char>, args: Seq<Seq<char>>, depth: int, out: Result<
    Seq<char>,
    EvalErrorM,
>) -> bool {
    &&& lookup_answer(b, method, args, out)
    &&& (b.core matches BeanCore::Java(ms) ==> (method_named(ms@, method) matches Some(m) ==> (
    args.len() == m.params@.len() ==> exists|outs: Seq<Result<Seq<char>, EvalErrorM>>|
        #[trigger] eval_model(
            bean_answers(b),
            m.implementation.deep_view(),
            bind_args(m.params.deep_view(), args),
            depth,
            outs,
        ) == Some(out))))
}

/// Call budget left at `depth`: method bodies run up to depth
/// `MAX_CALL_DEPTH`.
pub open spec fn call_budget(depth: int) -> nat {
    if depth > MAX_CALL_DEPTH + 2 {
        0
    } else {
        (MAX_CALL_DEPTH + 2 - depth) as nat
    }
}

/// What invoking `method` on `b` at `depth` answers, the calls its body
/// makes answered by the injected beans in turn; `None` once a call reaches
/// a native method, whose answer is its closure's.
pub open spec fn chain_answer(b: Bean, method: Seq<char>, args: Seq<Seq<char>>, depth: int) -> Option<
    Result<Seq<char>, EvalErrorM>,
>
    decreases call_budget(depth), 3nat, 0nat,
{
    match b.core {
        BeanCore::Java(ms) => match method_named(ms@, method) {
            None => Some(Err(no_method_error(b.class_name@, method))),
            Some(m) => if args.len() != m.params@.len() {
                Some(Err(arity_error(b.class_name@, method, m.params@.len(), args.len())))
            } else {
                chain_eval(b, m.implementation.deep_view(), bind_args(m.params.deep_view(), args), depth)
            },
        },
        BeanCore::Native(tbl) => if !native_table(tbl).contains_key(method) {
            Some(Err(no_native_error(b.class_name@, method)))
        } else {
            None
        },
    }
}

/// What bean `b` running method body `imp` at `depth` answers, as in
/// `chain_answer`.
pub open spec fn chain_eval(b: Bean, imp: MethodImplM, args: Map<Seq<char>, Seq<char>>, depth: int) -> Option<
    Result<Seq<char>, EvalErrorM>,
>
    decreases call_budget(depth), 2nat, 0nat,
{
    if depth > MAX_CALL_DEPTH {
        Some(Err(EvalErrorM::Unimplemented("bean call depth limit exceeded (circular call chain?)"@)))
    } else {
        match imp {
            MethodImplM::Constant(s) => Some(Ok(s)),
            MethodImplM::Unimplemented(w) => Some(Err(EvalErrorM::Unimplemented(w))),
            MethodImplM::Template(parts) => chain_render(b, parts, args, depth + 1, Seq::empty()),
        }
    }
}

/// Renders template parts after `acc` in bean `b`, as in `chain_answer`.
pub open spec fn chain_render(
    b: Bean,
    parts: Seq<PartM>,
    args: Map<Seq<char>, Seq<char>>,
    depth: int,
    acc: Seq<char>,
) -> Option<Result<Seq<char>, EvalErrorM>>
    decreases call_budget(depth) + 1, 1nat, parts.len(),
{
    if parts.len() == 0 {
        Some(Ok(acc))
    } else {
        match parts[0] {
            PartM::Lit(s) => chain_render(b, parts.drop_first(), args, depth, acc + s),
            PartM::Param(n) => if args.contains_key(n) {
                chain_render(b, parts.drop_first(), args, depth, acc + args[n])
            } else {
                Some(Err(EvalErrorM::MissingParam(n)))
            },
            PartM::Call { receiver, method, args: cargs } => match resolve_args(cargs, args, Seq::empty()) {
                Err(e) => Some(Err(e)),
                Ok(vals) => match chain_call(b, receiver, method, vals, depth) {
                    None => None,
                    Some(Err(e)) => Some(Err(e)),
                    Some(Ok(t)) => chain_render(b, parts.drop_first(), args, depth, acc + t),
                },
            },
        }
    }
}

/// The answer to a call `receiver.method(args)` made by bean `b`'s code,
/// as in `chain_answer`.
pub open spec fn chain_call(b: Bean, receiver: Seq<char>, method: Seq<char>, args: Seq<Seq<char>>, depth: int) -> Option<
    Result<Seq<char>, EvalErrorM>,
>
    decreases call_budget(depth) + 1, 0nat, 0nat,
{
    match field_target(b.fields@, receiver) {
        None => Some(Err(no_field_error(b.class_name@, receiver))),
        Some(t) => chain_answer(t, method, args, depth),
    }
}

/// Rendering under answers that agree with `chain_call` wherever it
/// answers gives `chain_render`'s outcome wherever that is known.
proof fn lemma_render_chain(
    b: Bean,
    ans: AnswerRel,
    parts: Seq<PartM>,
    args: Map<Seq<char>, Seq<char>>,
    depth: int,
    outs: Seq<Result<Seq<char>, EvalErrorM>>,
    acc: Seq<char>,
)
    requires
        forall|r: Seq<char>, m: Seq<char>, a: Seq<Seq<char>>, d: int, o: Result<Seq<char>, EvalErrorM>|
            #[trigger] ans(r, m, a, d, o) ==> (chain_call(b, r, m, a, d) matches Some(x) ==> o == x),
        render(ans, parts, args, depth, outs, acc) is Some,
        chain_render(b, parts, args, depth, acc) is Some,
    ensures
        render(ans, parts, args, depth, outs, acc) == chain_render(b, parts, args, depth, acc),
    decreases parts.len(),
{
    if parts.len() > 0 {
        match parts[0] {
            PartM::Lit(t) => lemma_render_chain(b, ans, parts.drop_first(), args, depth, outs, acc + t),
            PartM::Param(n) => if args.contains_key(n) {
                lemma_render_chain(b, ans, parts.drop_first(), args, depth, outs, acc + args[n]);
            },
            PartM::Call { receiver, method, args: cargs } => match resolve_args(cargs, args, Seq::empty()) {
                Err(e) => {},
                Ok(vals) => {
                    assert(ans(receiver, method, vals, depth, outs[0]));
                    if outs[0] is Ok {
                        lemma_render_chain(b, ans, parts.drop_first(), args, depth, outs.drop_first(), acc + outs[0]->Ok_0);
                    }
                },
            },
        }
    }
}

/// A method body evaluated under answers that agree with `chain_call`
/// gives `chain_eval`'s outcome wherever that is known.
pub proof fn lemma_eval_chain(
    b: Bean,
    ans: AnswerRel,
    imp: MethodImplM,
    args: Map<Seq<char>, Seq<char>>,
    depth: int,
    outs: Seq<Result<Seq<char>, EvalErrorM>>,
)
    requires
        forall|r: Seq<char>, m: Seq<char>, a: Seq<Seq<char>>, d: int, o: Result<Seq<char>, EvalErrorM>|
            #[trigger] ans(r, m, a, d, o) ==> (chain_call(b, r, m, a, d) matches Some(x) ==> o == x),
        eval_model(ans, imp, args, depth, outs) is Some,
        chain_eval(b, imp, args, depth) is Some,
    ensures
        eval_model(ans, imp, args, depth, outs) == chain_eval(b, imp, args, depth),
{
    if depth <= MAX_CALL_DEPTH {
        if let MethodImplM::Template(parts) = imp {
            lemma_render_chain(b, ans, parts, args, depth + 1, outs, Seq::empty());
        }
    }
}

/// The bean that resolving name `n` in `reg` gives: the shared bean when
/// it was built at boot, else one built from the definition named `n`.
pub open spec fn registry_bean(reg: BeanRegistry, n: Seq<char>, x: Bean) -> bool {
    match lookup_bean(reg.beans(), n) {
        Some(b) => x == b,
        None => exists|j: int|
            0 <= j < reg.defs().len() && (#[trigger] reg.defs()[j]).name@ == n && bean_built(
                reg.defs()[j].deep_view(),
                x,
                reg.decl_names(),
                reg.decl_classes(),
                reg.beans(),
            ),
    }
}

/// Request or call arguments by parameter name.
pub type ArgMap = HashMap<String, String>;

/// No arguments.
pub open spec fn no_args() -> Map<Seq<char>, Seq<char>> {
    Map::empty()
}

/// Creates an empty argument map.
#[verifier::external_body]
pub(crate) fn new_arg_map() -> (r: ArgMap)
    ensures
        string_map(r) == no_args(),
{
    HashMap::new()
}

/// Calls `HashMap::insert` on an argument map.
#[verifier::external_body]
pub(crate) fn arg_insert(m: &mut HashMap<String, String>, k: String, v: String)
    ensures
        string_map(*final(m)) == string_map(*old(m)).insert(k@, v@),
{
    m.insert(k, v);
}

fn find_method<'a>(ms: &'a Vec<CompiledMethod>, n: &str) -> (r: Option<&'a CompiledMethod>)
    ensures
        match r {
            Some(m) => method_named(ms@, n@) == Some(*m),
            None => method_named(ms@, n@) is None,
        },
{
    let mut k: usize = ms.len();
    assert(ms@.take(ms@.len() as int) =~= ms@);
    while k > 0
        invariant
            k <= ms@.len(),
            method_named(ms@, n@) == method_named(ms@.take(k as int), n@),
        decreases k,
    {
        assert(ms@.take(k as int).drop_last() =~= ms@.take(k - 1));
        if str_eq(ms[k - 1].name.as_str(), n) {
            return Some(&ms[k - 1]);
        }
        k = k - 1;
    }
    None
}

fn find_field<'a>(fields: &'a Vec<(String, Arc<Bean>)>, f: &str) -> (r: Option<&'a Arc<Bean>>)
    ensures
        match r {
            Some(b) => field_target(fields@, f@) == Some(**b),
            None => field_target(fields@, f@) is None,
        },
{
    let mut k: usize = fields.len();
    assert(fields@.take(fields@.len() as int) =~= fields@);
    while k > 0
        invariant
            k <= fields@.len(),
            field_target(fields@, f@) == field_target(fields@.take(k as int), f@),
        decreases k,
    {
        assert(fields@.take(k as int).drop_last() =~= fields@.take(k - 1));
        if str_eq(fields[k - 1].0.as_str(), f) {
            return Some(&fields[k - 1].1);
        }
        k = k - 1;
    }
    None
}

fn bind_exec(params: &Vec<String>, args: &[String]) -> (r: HashMap<String, String>)
    requires
        params@.len() == args@.len(),
    ensures
        string_map(r) == bind_args(params.deep_view(), args.deep_view()),
{
    let mut m = new_arg_map();
    let mut i: usize = 0;
    while i < params.len()
        invariant
            i <= params@.len(),
            params@.len() == args@.len(),
            string_map(m) == bind_args(
                params.deep_view().take(i as int),
                args.deep_view().take(i as int),
            ),
        decreases params.len() - i,
    {
        arg_insert(&mut m, copy_string(&params[i]), copy_string(&args[i]));
        assert(params.deep_view().take(i + 1).drop_last() =~= params.deep_view().take(i as int));
        assert(args.deep_view().take(i + 1).drop_last() =~= args.deep_view().take(i as int));
        i = i + 1;
    }
    assert(params.deep_view().take(params@.len() as int) =~= params.deep_view());
    assert(args.deep_view().take(args@.len() as int) =~= args.deep_view());
    m
}

fn method_error(class: &String, method: &str, tail: &str) -> (r: String)
    ensures
        r@ == class@ + "."@ + method@ + tail@,
{
    let mut s = copy_string(class);
    push_str(&mut s, ".");
    push_str(&mut s, method);
    push_str(&mut s, tail);
    s
}

/// Invokes one of a bean's methods with positional arguments.
fn invoke_at(b: &Bean, method: &str, args: &[String], depth: usize) -> (r: Result<String, EvalError>)
    ensures
        invoke_answer(*b, method@, args.deep_view(), depth as int, outcome(r)),
        chain_answer(*b, method@, args.deep_view(), depth as int) matches Some(o) ==> outcome(r) == o,
    decreases MAX_CALL_DEPTH + 2 - depth, 3nat,
{
    match &b.core {
        BeanCore::Java(methods) => {
            let m = match find_method(methods, method) {
                Some(m) => m,
                None => {
                    return Err(
                        EvalError::Unimplemented(method_error(&b.class_name, method, ": no such method")),
                    );
                },
            };
            if args.len() != m.params.len() {
                let mut s = method_error(&b.class_name, method, ": expected ");
                let want = u64_to_string(m.params.len() as u64);
                push_str(&mut s, want.as_str());
                push_str(&mut s, " arg(s), got ");
                let got = u64_to_string(args.len() as u64);
                push_str(&mut s, got.as_str());
                return Err(EvalError::Unimplemented(s));
            }
            let bound = bind_exec(&m.params, args);
            assert(m.params@.len() == m.params.deep_view().len());
            eval_in(b, &m.implementation, &bound, depth)
        },
        BeanCore::Native(tbl) => {
            let f = match native_get(tbl, method) {
                Some(f) => f,
                None => {
                    return Err(
                        EvalError::Unimplemented(
                            method_error(&b.class_name, method, ": no such native method"),
                        ),
                    );
                },
            };
            call_native(f, args)
        },
    }
}

/// Evaluates a method body of bean `b`, calls on its fields going to the
/// injected beans.
fn eval_in(b: &Bean, imp: &MethodImpl, args: &HashMap<String, String>, depth: usize) -> (r: Result<
    String,
    EvalError,
>)
    ensures
        exists|outs: Seq<Result<Seq<char>, EvalErrorM>>|
            #[trigger] eval_model(bean_answers(*b), imp.deep_view(), string_map(*args), depth as int, outs)
                == Some(outcome(r)),
        chain_eval(*b, imp.deep_view(), string_map(*args), depth as int) matches Some(o) ==> outcome(r) == o,
    decreases MAX_CALL_DEPTH + 2 - depth, 2nat,
{
    if depth > MAX_CALL_DEPTH {
        let r = Err(
            EvalError::Unimplemented(
                string_of("bean call depth limit exceeded (circular call chain?)"),
            ),
        );
        assert(eval_model(
            bean_answers(*b),
            imp.deep_view(),
            string_map(*args),
            depth as int,
            Seq::empty(),
        ) == Some(outcome(r)));
        return r;
    }
    match imp {
        MethodImpl::Constant(s) => {
            let r = Ok(copy_string(s));
            assert(eval_model(
                bean_answers(*b),
                imp.deep_view(),
                string_map(*args),
                depth as int,
                Seq::empty(),
            ) == Some(outcome(r)));
            r
        },
        MethodImpl::Unimplemented(w) => {
            let r = Err(EvalError::Unimplemented(copy_string(w)));
            assert(eval_model(
                bean_answers(*b),
                imp.deep_view(),
                string_map(*args),
                depth as int,
                Seq::empty(),
            ) == Some(outcome(r)));
            r
        },
        MethodImpl::Template(parts) => {
            let r = render_in(b, parts, args, depth + 1);
            proof {
                let outs = choose|outs: Seq<Result<Seq<char>, EvalErrorM>>|
                    #[trigger] render(
                        bean_answers(*b),
                        parts.deep_view(),
                        string_map(*args),
                        depth + 1,
                        outs,
                        Seq::empty(),
                    ) == Some(outcome(r));
                assert(eval_model(
                    bean_answers(*b),
                    imp.deep_view(),
                    string_map(*args),
                    depth as int,
                    outs,
                ) == Some(outcome(r)));
            }
            r
        },
    }
}

/// A call `receiver.method(args)` made by bean `b`'s code at `depth`.
fn bean_call(b: &Bean, receiver: &str, method: &str, args: &[String], depth: usize) -> (r: Result<
    String,
    EvalError,
>)
    requires
        1 <= depth <= MAX_CALL_DEPTH + 1,
    ensures
        (bean_answers(*b))(receiver@, method@, args.deep_view(), depth as int, outcome(r)),
        chain_call(*b, receiver@, method@, args.deep_view(), depth as int) matches Some(o) ==> outcome(r) == o,
    decreases MAX_CALL_DEPTH + 3 - depth, 0nat,
{
    match find_field(&b.fields, receiver) {
        None => {
            let mut s = copy_string(&b.class_name);
            push_str(&mut s, ": no injected field named '");
            push_str(&mut s, receiver);
            push_str(&mut s, "'");
            Err(EvalError::Unimplemented(s))
        },
        Some(target) => invoke_at(target, method, args, depth),
    }
}

fn render_in(b: &Bean, parts: &Vec<Part>, args: &HashMap<String, String>, depth: usize) -> (r: Result<
    String,
    EvalError,
>)
    requires
        1 <= depth <= MAX_CALL_DEPTH + 1,
    ensures
        exists|outs: Seq<Result<Seq<char>, EvalErrorM>>|
            #[trigger] render(bean_answers(*b), parts.deep_view(), string_map(*args), depth as int, outs, Seq::empty())
                == Some(outcome(r)),
        chain_render(*b, parts.deep_view(), string_map(*args), depth as int, Seq::empty()) matches Some(o) ==> outcome(r) == o,
    decreases MAX_CALL_DEPTH + 3 - depth, 1nat,
{
    let ghost ans = bean_answers(*b);
    let ghost am = string_map(*args);
    let ghost pm = parts.deep_view();
    let ghost mut trace: Seq<Result<Seq<char>, EvalErrorM>> = Seq::empty();
    let mut out = new_string();
    let mut i: usize = 0;
    proof {
        lemma_dv_skip0(parts);
        assert forall|more: Seq<Result<Seq<char>, EvalErrorM>>|
            #[trigger] render(ans, pm, am, depth as int, trace + more, Seq::empty()) == render(
                ans,
                pm.skip(0),
                am,
                depth as int,
                more,
                out@,
            ) by {
            assert(trace + more =~= more);
        }
    }
    while i < parts.len()
        invariant
            i <= parts@.len(),
            1 <= depth <= MAX_CALL_DEPTH + 1,
            ans == bean_answers(*b),
            am == string_map(*args),
            pm == parts.deep_view(),
            pm.len() == parts@.len(),
            forall|more: Seq<Result<Seq<char>, EvalErrorM>>|
                #[trigger] render(ans, pm, am, depth as int, trace + more, Seq::empty())
                    == render(ans, pm.skip(i as int), am, depth as int, more, out@),
            chain_render(*b, pm, am, depth as int, Seq::empty()) is Some ==> chain_render(*b, pm, am, depth as int, Seq::empty())
                == chain_render(*b, pm.skip(i as int), am, depth as int, out@),
        decreases parts.len() - i,
    {
        proof {
            lemma_dv_step(parts, i as int);
        }
        let ghost start = out@;
        match &parts[i] {
            Part::Lit(s) => {
                push_str(&mut out, s.as_str());
            },
            Part::Param(name) => {
                match arg_get(args, name.as_str()) {
                    Some(v) => {
                        push_str(&mut out, v.as_str());
                    },
                    None => {
                        let r = Err(EvalError::MissingParam(copy_string(name)));
                        assert(render(ans, pm, am, depth as int, trace + Seq::empty(), Seq::empty())
                            == Some(outcome(r)));
                        return r;
                    },
                }
            },
            Part::Call { receiver, method, args: cargs } => {
                let resolved = match resolve_call_args(cargs, args) {
                    Ok(v) => v,
                    Err(e) => {
                        let r = Err(e);
                        assert(render(ans, pm, am, depth as int, trace + Seq::empty(), Seq::empty())
                            == Some(outcome(r)));
                        return r;
                    },
                };
                let rs = resolved.as_slice();
                let answer = bean_call(b, receiver.as_str(), method.as_str(), rs, depth);
                proof {
                    assert(rs.deep_view() =~= resolved.deep_view());
                }
                match answer {
                    Ok(s) => {
                        let ghost before = out@;
                        let ghost o = outcome(answer);
                        push_str(&mut out, s.as_str());
                        proof {
                            let t0 = trace;
                            trace = trace.push(o);
                            assert forall|more: Seq<Result<Seq<char>, EvalErrorM>>|
                                #[trigger] render(ans, pm, am, depth as int, trace + more, Seq::empty())
                                    == render(ans, pm.skip(i + 1), am, depth as int, more, out@) by {
                                assert(trace + more =~= t0 + (seq![o] + more));
                                assert((seq![o] + more).drop_first() =~= more);
                                assert(render(ans, pm, am, depth as int, t0 + (seq![o] + more), Seq::empty())
                                    == render(ans, pm.skip(i as int), am, depth as int, seq![o] + more, before));
                            }
                        }
                    },
                    Err(e) => {
                        let ghost o = outcome(answer);
                        let r = Err(e);
                        proof {
                            assert(render(ans, pm, am, depth as int, trace + seq![o], Seq::empty())
                                == render(ans, pm.skip(i as int), am, depth as int, seq![o], out@));
                        }
                        assert(render(ans, pm, am, depth as int, trace + seq![o], Seq::empty())
                            == Some(outcome(r)));
                        return r;
                    },
                }
            },
        }
        proof {
            if !(parts@[i as int] is Call) {
                assert forall|more: Seq<Result<Seq<char>, EvalErrorM>>|
                    #[trigger] render(ans, pm, am, depth as int, trace + more, Seq::empty())
                        == render(ans, pm.skip(i + 1), am, depth as int, more, out@) by {
                    assert(render(ans, pm, am, depth as int, trace + more, Seq::empty())
                        == render(ans, pm.skip(i as int), am, depth as int, more, start));
                }
            }
        }
        i = i + 1;
    }
    let r = Ok(out);
    assert(render(ans, pm, am, depth as int, trace + Seq::empty(), Seq::empty()) == Some(
        outcome(r),
    ));
    r
}

impl Bean {
    /// Invokes one of this bean's methods with positional arguments. Where
    /// every call the body makes, in turn, reaches Java beans only, the
    /// answer is `chain_answer`'s.
    pub fn invoke(&self, method: &str, args: &[String], depth: usize) -> (r: Result<String, EvalError>)
        ensures
            invoke_answer(*self, method@, args.deep_view(), depth as int, outcome(r)),
            chain_answer(*self, method@, args.deep_view(), depth as int) matches Some(o) ==> outcome(r) == o,
    {
        invoke_at(self, method, args, depth)
    }

    /// The bean injected into a given field, if any.
    pub fn injected(&self, field: &str) -> (r: Option<Arc<Bean>>)
        ensures
            match r {
                Some(t) => field_target(self.fields@, field@) == Some(*t),
                None => field_target(self.fields@, field@) is None,
            },
    {
        match find_field(&self.fields, field) {
            Some(t) => Some(share(t)),
            None => None,
        }
    }
}

impl BeanContext for Bean {
    open spec fn answers(
        &self,
        receiver: Seq<char>,
        method: Seq<char>,
        args: Seq<Seq<char>>,
        depth: int,
        out: Result<Seq<char>, EvalErrorM>,
    ) -> bool {
        (bean_answers(*self))(receiver, method, args, depth, out)
    }

    fn call(&self, receiver: &str, method: &str, args: &[String], depth: usize) -> (r: Result<
        String,
        EvalError,
    >) {
        match find_field(&self.fields, receiver) {
            None => {
                let mut s = copy_string(&self.class_name);
                push_str(&mut s, ": no injected field named '");
                push_str(&mut s, receiver);
                push_str(&mut s, "'");
                Err(EvalError::Unimplemented(s))
            },
            Some(target) => target.invoke(method, args, depth),
        }
    }
}

// ---------------------------------------------------------------------------
// Construction
// ---------------------------------------------------------------------------

/// The bean stored under `k`: the first entry with that name.
pub open spec fn lookup_bean(entries: Seq<(String, Arc<Bean>)>, k: Seq<char>) -> Option<Bean>
    decreases entries.len(),
{
    if entries.len() == 0 {
        None
    } else if entries[0].0@ == k {
        Some(*entries[0].1)
    } else {
        lookup_bean(entries.drop_first(), k)
    }
}

/// Every entry holds a bean of its own name.
pub open spec fn entries_wf(entries: Seq<(String, Arc<Bean>)>) -> bool {
    forall|i: int| 0 <= i < entries.len() ==> (*(#[trigger] entries[i]).1).name@ == entries[i].0@
}

/// Each definition comes after the definitions its dependencies are
/// wired to.
pub open spec fn defs_ordered(defs: Seq<BeanSpec>, names: Seq<Seq<char>>, classes: Seq<Seq<char>>) -> bool {
    forall|p: int, k: int, j: int|
        #![trigger defs[p].dependencies@[k], defs[j]]
        0 <= p < defs.len() && 0 <= k < defs[p].dependencies@.len() && 0 <= j < defs.len()
            && defs[j].name@ == wired_name(names, classes, defs[p].dependencies@[k].ty@) ==> j < p
}

/// Some definition has name `n`.
pub open spec fn has_def(defs: Seq<BeanSpec>, n: Seq<char>) -> bool {
    exists|j: int| 0 <= j < defs.len() && #[trigger] defs[j].name@ == n
}

/// The declarations (`nspecs` Java definitions, then natives) and the
/// Java definitions, stored in dependency order, agree.
pub open spec fn decls_wf(
    defs: Seq<BeanSpec>,
    names: Seq<Seq<char>>,
    classes: Seq<Seq<char>>,
    index: TypeIndex,
    nspecs: int,
) -> bool {
    &&& names.len() == classes.len()
    &&& 0 <= nspecs <= names.len()
    &&& names.no_duplicates()
    &&& index.indexes(names, classes)
    &&& forall|j1: int, j2: int| 0 <= j1 < j2 < defs.len() ==> #[trigger] defs[j1].name@ != #[trigger] defs[j2].name@
    &&& forall|j: int| 0 <= j < defs.len() ==> 0 <= #[trigger] index_of(names, defs[j].name@) < nspecs
    &&& forall|i: int| 0 <= i < nspecs ==> has_def(defs, #[trigger] names[i])
    &&& forall|j: int, k: int|
        0 <= j < defs.len() && 0 <= k < defs[j].dependencies@.len() ==> type_names(
            names,
            classes,
            #[trigger] defs[j].dependencies@[k].ty@,
        ).len() == 1
    &&& defs_ordered(defs, names, classes)
}

/// Every native declaration has its bean.
pub open spec fn natives_built(names: Seq<Seq<char>>, nspecs: int, singletons: Seq<(String, Arc<Bean>)>) -> bool {
    forall|i: int| nspecs <= i < names.len() ==> #[trigger] lookup_bean(singletons, names[i]) is Some
}

/// Every singleton definition before `p` has its bean.
pub open spec fn singletons_before(defs: Seq<BeanSpec>, p: int, singletons: Seq<(String, Arc<Bean>)>) -> bool {
    forall|j: int|
        0 <= j < p && j < defs.len() && defs[j].scope == Scope::Singleton ==> #[trigger] lookup_bean(
            singletons,
            defs[j].name@,
        ) is Some
}

/// `b` is built from `spec`: same identity and methods, each dependency
/// wired to the bean of its type, the shared singleton when there is one.
pub open spec fn bean_built(
    spec: BeanSpecM,
    b: Bean,
    names: Seq<Seq<char>>,
    classes: Seq<Seq<char>>,
    singletons: Seq<(String, Arc<Bean>)>,
) -> bool {
    &&& b.name@ == spec.name
    &&& b.class_name@ == spec.class_name
    &&& b.kind == spec.kind
    &&& b.scope == spec.scope
    &&& b.core matches BeanCore::Java(ms) && ms.deep_view() == spec.methods
    &&& b.fields@.len() == spec.dependencies.len()
    &&& forall|k: int|
        0 <= k < b.fields@.len() ==> {
            let w = wired_name(names, classes, spec.dependencies[k].ty);
            &&& (#[trigger] b.fields@[k]).0@ == spec.dependencies[k].field_name
            &&& (*b.fields@[k].1).name@ == w
            &&& (lookup_bean(singletons, w) matches Some(sb) ==> *b.fields@[k].1 == sb)
        }
}

/// Every cached bean is built from the definition of its name.
pub open spec fn cache_ok(
    defs: Seq<BeanSpec>,
    names: Seq<Seq<char>>,
    classes: Seq<Seq<char>>,
    singletons: Seq<(String, Arc<Bean>)>,
    local: Seq<(String, Arc<Bean>)>,
) -> bool {
    forall|q: int|
        0 <= q < local.len() ==> exists|j: int|
            0 <= j < defs.len() && #[trigger] defs[j].name@ == (#[trigger] local[q]).0@ && defs[j].scope
                == Scope::Request && bean_built(defs[j].deep_view(), *local[q].1, names, classes, singletons)
}

fn find_entry(entries: &Vec<(String, Arc<Bean>)>, k: &str) -> (r: Option<usize>)
    ensures
        match r {
            Some(i) => i < entries@.len() && entries@[i as int].0@ == k@ && lookup_bean(entries@, k@)
                == Some(*entries@[i as int].1),
            None => lookup_bean(entries@, k@) is None,
        },
{
    let mut i: usize = 0;
    assert(entries@.skip(0) =~= entries@);
    while i < entries.len()
        invariant
            i <= entries@.len(),
            lookup_bean(entries@, k@) == lookup_bean(entries@.skip(i as int), k@),
        decreases entries.len() - i,
    {
        assert(entries@.skip(i as int).drop_first() =~= entries@.skip(i + 1));
        if str_eq(entries[i].0.as_str(), k) {
            return Some(i);
        }
        i = i + 1;
    }
    None
}

fn find_def(defs: &Vec<BeanSpec>, n: &str) -> (r: Option<usize>)
    ensures
        match r {
            Some(j) => j < defs@.len() && defs@[j as int].name@ == n@,
            None => forall|j: int| 0 <= j < defs@.len() ==> #[trigger] defs@[j].name@ != n@,
        },
{
    let mut i: usize = 0;
    while i < defs.len()
        invariant
            i <= defs@.len(),
            forall|j: int| 0 <= j < i ==> #[trigger] defs@[j].name@ != n@,
        decreases defs.len() - i,
    {
        if str_eq(defs[i].name.as_str(), n) {
            return Some(i);
        }
        i = i + 1;
    }
    None
}

proof fn lemma_lookup_at_first(entries: Seq<(String, Arc<Bean>)>, q: int, k: Seq<char>)
    requires
        0 <= q < entries.len(),
        entries[q].0@ == k,
        lookup_bean(entries, k) == Some(*entries[q].1),
    ensures
        lookup_bean(entries, k) matches Some(c) && c == *entries[q].1,
{
}

proof fn lemma_lookup_push(entries: Seq<(String, Arc<Bean>)>, e: (String, Arc<Bean>), k: Seq<char>)
    ensures
        lookup_bean(entries.push(e), k) == (match lookup_bean(entries, k) {
            Some(b) => Some(b),
            None => if e.0@ == k {
                Some(*e.1)
            } else {
                None
            },
        }),
    decreases entries.len(),
{
    let s = entries.push(e);
    if entries.len() == 0 {
        assert(s.len() == 1);
        assert(s[0] == e);
        assert(s.drop_first().len() == 0);
        assert(lookup_bean(s.drop_first(), k) is None);
    } else {
        assert(s[0] == entries[0]);
        assert(s.drop_first() =~= entries.drop_first().push(e));
        if entries[0].0@ != k {
            lemma_lookup_push(entries.drop_first(), e, k);
        }
    }
}

proof fn lemma_lookup_in(entries: Seq<(String, Arc<Bean>)>, k: Seq<char>)
    requires
        entries_wf(entries),
    ensures
        lookup_bean(entries, k) matches Some(b) ==> b.name@ == k,
    decreases entries.len(),
{
    if entries.len() > 0 {
        assert(entries_wf(entries.drop_first())) by {
            assert forall|i: int| 0 <= i < entries.drop_first().len() implies (*(#[trigger] entries.drop_first()[i]).1).name@ == entries.drop_first()[i].0@ by {
                assert(entries.drop_first()[i] == entries[i + 1]);
            }
        }
        lemma_lookup_in(entries.drop_first(), k);
        assert((*entries[0].1).name@ == entries[0].0@);
    }
}

proof fn lemma_type_names_mem(names: Seq<Seq<char>>, classes: Seq<Seq<char>>, t: Seq<char>)
    requires
        type_names(names, classes, t).len() == 1,
    ensures
        names.contains(wired_name(names, classes, t)),
{
    assert(type_names(names, classes, t).contains(wired_name(names, classes, t)));
    crate::runtime::wiring::lemma_type_names_in(names, classes, t, wired_name(names, classes, t));
}

/// The first definition named `n`, from index `i` on.
pub open spec fn def_named(defs: Seq<BeanSpec>, n: Seq<char>, i: int) -> Option<int>
    decreases defs.len() - i,
{
    if i < 0 || i >= defs.len() {
        None
    } else if defs[i].name@ == n {
        Some(i)
    } else {
        def_named(defs, n, i + 1)
    }
}

/// The definition that dependency `k` of definition `p` is wired to, if
/// the dependency is a Java definition (not a native bean).
pub open spec fn dep_def(
    defs: Seq<BeanSpec>,
    names: Seq<Seq<char>>,
    classes: Seq<Seq<char>>,
    p: int,
    k: int,
) -> Option<int> {
    def_named(defs, wired_name(names, classes, defs[p].dependencies@[k].ty@), 0)
}

/// Constructing definition `p` at boot, dependencies from `k` on in order:
/// the request-scoped bean it first reaches, directly or through
/// prototype-scoped dependencies, if any. Definitions are in dependency
/// order, so a dependency's definition comes before `p`.
pub open spec fn boot_violation_from(
    defs: Seq<BeanSpec>,
    names: Seq<Seq<char>>,
    classes: Seq<Seq<char>>,
    p: int,
    k: int,
) -> Option<Seq<char>>
    decreases p, defs[p].dependencies@.len() - k,
{
    if p < 0 || p >= defs.len() || k < 0 || k >= defs[p].dependencies@.len() {
        None
    } else {
        match dep_def(defs, names, classes, p, k) {
            Some(j) => if 0 <= j < p && defs[j].scope == Scope::Request {
                Some(defs[j].name@)
            } else if 0 <= j < p && defs[j].scope == Scope::Prototype {
                match boot_violation_from(defs, names, classes, j, 0) {
                    Some(v) => Some(v),
                    None => boot_violation_from(defs, names, classes, p, k + 1),
                }
            } else {
                boot_violation_from(defs, names, classes, p, k + 1)
            },
            None => boot_violation_from(defs, names, classes, p, k + 1),
        }
    }
}

proof fn lemma_def_named(defs: Seq<BeanSpec>, n: Seq<char>, i: int, j: int)
    requires
        0 <= i <= j < defs.len(),
        defs[j].name@ == n,
        forall|j1: int, j2: int| 0 <= j1 < j2 < defs.len() ==> #[trigger] defs[j1].name@ != #[trigger] defs[j2].name@,
    ensures
        def_named(defs, n, i) == Some(j),
    decreases j - i,
{
    if i < j {
        assert(defs[i].name@ != defs[j].name@);
        lemma_def_named(defs, n, i + 1, j);
    }
}

proof fn lemma_def_named_none(defs: Seq<BeanSpec>, n: Seq<char>, i: int)
    requires
        0 <= i,
        forall|j: int| i <= j < defs.len() ==> #[trigger] defs[j].name@ != n,
    ensures
        def_named(defs, n, i) is None,
    decreases defs.len() - i,
{
    if i < defs.len() {
        lemma_def_named_none(defs, n, i + 1);
    }
}

proof fn lemma_def_named_found(defs: Seq<BeanSpec>, n: Seq<char>, i: int)
    requires
        0 <= i,
    ensures
        def_named(defs, n, i) matches Some(j) ==> i <= j < defs.len() && defs[j].name@ == n,
    decreases defs.len() - i,
{
    if 0 <= i < defs.len() && defs[i].name@ != n {
        lemma_def_named_found(defs, n, i + 1);
    }
}

/// Constructs definition `p`, resolving each dependency by type. At boot
/// (`!has_local`) reaching a request-scoped bean is a scope violation;
/// within a request, request-scoped beans are cached in `local`.
fn construct_bean(
    defs: &Vec<BeanSpec>,
    p: usize,
    names: &Vec<String>,
    classes: &Vec<String>,
    nspecs: usize,
    index: &TypeIndex,
    singletons: &Vec<(String, Arc<Bean>)>,
    local: &mut Vec<(String, Arc<Bean>)>,
    has_local: bool,
) -> (r: Result<Arc<Bean>, DIError>)
    requires
        decls_wf(defs@, names.deep_view(), classes.deep_view(), *index, nspecs as int),
        p < defs@.len(),
        entries_wf(singletons@),
        entries_wf(old(local)@),
        cache_ok(defs@, names.deep_view(), classes.deep_view(), singletons@, old(local)@),
        natives_built(names.deep_view(), nspecs as int, singletons@),
        singletons_before(defs@, p as int, singletons@),
        !has_local ==> forall|j: int| 0 <= j < defs@.len() && defs@[j].scope != Scope::Singleton
            ==> #[trigger] lookup_bean(singletons@, defs@[j].name@) is None,
    ensures
        entries_wf(final(local)@),
        cache_ok(defs@, names.deep_view(), classes.deep_view(), singletons@, final(local)@),
        !has_local ==> final(local)@ == old(local)@,
        !has_local ==> match boot_violation_from(defs@, names.deep_view(), classes.deep_view(), p as int, 0) {
            Some(id) => r matches Err(e) && e@ == DIErrorM::ScopeViolation { id, scope: Scope::Request },
            None => r is Ok,
        },
        match r {
            Ok(b) => bean_built(defs@[p as int].deep_view(), *b, names.deep_view(), classes.deep_view(), singletons@),
            Err(e) => !has_local && (e@ matches DIErrorM::ScopeViolation { id, scope } && scope
                == Scope::Request && exists|j: int|
                0 <= j < defs@.len() && #[trigger] defs@[j].name@ == id && defs@[j].scope == Scope::Request),
        },
    decreases p,
{
    let ghost nm = names.deep_view();
    let ghost cm = classes.deep_view();
    let spec = &defs[p];
    let deps = &spec.dependencies;
    let mut fields: Vec<(String, Arc<Bean>)> = Vec::new();
    let mut k: usize = 0;
    while k < deps.len()
        invariant
            k <= deps@.len(),
            nm == names.deep_view(),
            cm == classes.deep_view(),
            p < defs@.len(),
            spec == defs@[p as int],
            deps == spec.dependencies,
            decls_wf(defs@, nm, cm, *index, nspecs as int),
            entries_wf(singletons@),
            entries_wf(local@),
            cache_ok(defs@, nm, cm, singletons@, local@),
            !has_local ==> local@ == old(local)@,
            natives_built(nm, nspecs as int, singletons@),
            singletons_before(defs@, p as int, singletons@),
            !has_local ==> forall|j: int| 0 <= j < defs@.len() && defs@[j].scope != Scope::Singleton
                ==> #[trigger] lookup_bean(singletons@, defs@[j].name@) is None,
            !has_local ==> boot_violation_from(defs@, nm, cm, p as int, 0) == boot_violation_from(defs@, nm, cm, p as int, k as int),
            fields@.len() == k,
            forall|q: int|
                0 <= q < k ==> {
                    let w = wired_name(nm, cm, deps@[q].ty@);
                    &&& (#[trigger] fields@[q]).0@ == deps@[q].field_name@
                    &&& (*fields@[q].1).name@ == w
                    &&& (lookup_bean(singletons@, w) matches Some(sb) ==> *fields@[q].1 == sb)
                },
        decreases deps.len() - k,
    {
        let ty = &deps[k].ty;
        assert(type_names(nm, cm, deps@[k as int].ty@).len() == 1);
        let ghost w = wired_name(nm, cm, ty@);
        let i = match index.find(ty.as_str()) {
            Some(i) => i,
            None => {
                proof {
                    assert(type_names(nm, cm, ty@).len() > 0);
                    let j = choose|j: int| 0 <= j < index.keys@.len() && index.keys@[j]@ == ty@;
                }
                return Err(DIError::NoSuchBean(copy_string(ty)));
            },
        };
        let list = &index.lists[i];
        assert(list.deep_view() == type_names(nm, cm, ty@));
        assert(list@.len() == 1);
        let dep_name = &list[0];
        assert(dep_name@ == w) by {
            assert(list.deep_view()[0] == list@[0]@);
        }
        proof {
            lemma_type_names_mem(nm, cm, ty@);
            crate::runtime::wiring::lemma_index_of(nm, w);
            lemma_lookup_in(singletons@, w);
            lemma_def_named_found(defs@, w, 0);
            assert(dep_def(defs@, nm, cm, p as int, k as int) == def_named(defs@, w, 0));
        }
        let dep: Arc<Bean> = match find_entry(singletons, dep_name.as_str()) {
            Some(e) => {
                proof {
                    if !has_local {
                        if let Some(j0) = def_named(defs@, w, 0) {
                            if defs@[j0].scope != Scope::Singleton {
                                assert(lookup_bean(singletons@, defs@[j0].name@) is None);
                            }
                        }
                        assert(boot_violation_from(defs@, nm, cm, p as int, k as int) == boot_violation_from(
                            defs@,
                            nm,
                            cm,
                            p as int,
                            k + 1,
                        ));
                    }
                }
                share(&singletons[e].1)
            },
            None => {
                let j = match find_def(defs, dep_name.as_str()) {
                    Some(j) => j,
                    None => {
                        proof {
                            let wi = index_of(nm, w);
                            if wi >= nspecs {
                                assert(lookup_bean(singletons@, nm[wi]) is Some);
                            } else {
                                assert(has_def(defs@, nm[wi]));
                                let j = choose|j: int| 0 <= j < defs@.len() && #[trigger] defs@[j].name@ == nm[wi];
                                assert(defs@[j].name@ != dep_name@);
                            }
                        }
                        return Err(DIError::NoSuchBean(copy_string(dep_name)));
                    },
                };
                assert(j < p) by {
                    assert(defs@[j as int].name@ == wired_name(nm, cm, defs@[p as int].dependencies@[k as int].ty@));
                }
                proof {
                    lemma_def_named(defs@, w, 0, j as int);
                }
                match defs[j].scope {
                    Scope::Singleton => {
                        proof {
                            assert(lookup_bean(singletons@, defs@[j as int].name@) is Some);
                        }
                        let mut s = copy_string(dep_name);
                        push_str(&mut s, " (singleton not yet constructed — graph order bug)");
                        return Err(DIError::NoSuchBean(s));
                    },
                    Scope::Prototype => {
                        match construct_bean(defs, j, names, classes, nspecs, index, singletons, local, has_local) {
                            Ok(b) => {
                                proof {
                                    if !has_local {
                                        assert(boot_violation_from(defs@, nm, cm, j as int, 0) is None);
                                        assert(boot_violation_from(defs@, nm, cm, p as int, k as int)
                                            == boot_violation_from(defs@, nm, cm, p as int, k + 1));
                                    }
                                }
                                b
                            },
                            Err(e) => {
                                proof {
                                    let v = boot_violation_from(defs@, nm, cm, j as int, 0)->0;
                                    assert(boot_violation_from(defs@, nm, cm, j as int, 0) == Some(v));
                                    assert(boot_violation_from(defs@, nm, cm, p as int, k as int) == Some(v));
                                }
                                return Err(e);
                            },
                        }
                    },
                    Scope::Request => {
                        if !has_local {
                            assert(boot_violation_from(defs@, nm, cm, p as int, k as int) == Some(
                                dep_name@,
                            ));
                            return Err(
                                DIError::ScopeViolation {
                                    id: copy_string(dep_name),
                                    scope: Scope::Request,
                                },
                            );
                        }
                        match find_entry(local, dep_name.as_str()) {
                            Some(e) => {
                                proof {
                                    assert((*local@[e as int].1).name@ == local@[e as int].0@);
                                }
                                share(&local[e].1)
                            },
                            None => {
                                let b = match construct_bean(
                                    defs,
                                    j,
                                    names,
                                    classes,
                                    nspecs,
                                    index,
                                    singletons,
                                    local,
                                    has_local,
                                ) {
                                    Ok(b) => b,
                                    Err(e) => {
                                        return Err(e);
                                    },
                                };
                                let ghost l0 = local@;
                                local.push((copy_string(dep_name), share(&b)));
                                proof {
                                    assert forall|q: int| 0 <= q < local@.len() implies (*(#[trigger] local@[q]).1).name@ == local@[q].0@ by {
                                        if q < l0.len() {
                                            assert(local@[q] == l0[q]);
                                        }
                                    }
                                    assert forall|q: int| 0 <= q < local@.len() implies exists|j2: int|
                                        0 <= j2 < defs@.len() && #[trigger] defs@[j2].name@ == (#[trigger] local@[q]).0@
                                            && defs@[j2].scope == Scope::Request && bean_built(
                                            defs@[j2].deep_view(),
                                            *local@[q].1,
                                            nm,
                                            cm,
                                            singletons@,
                                        ) by {
                                        if q < l0.len() {
                                            assert(local@[q] == l0[q]);
                                        } else {
                                            assert(defs@[j as int].name@ == local@[q].0@);
                                        }
                                    }
                                }
                                b
                            },
                        }
                    },
                }
            },
        };
        let ghost f0 = fields@;
        fields.push((copy_string(&deps[k].field_name), dep));
        proof {
            assert forall|q: int|
                0 <= q < k + 1 implies {
                    let w2 = wired_name(nm, cm, deps@[q].ty@);
                    &&& (#[trigger] fields@[q]).0@ == deps@[q].field_name@
                    &&& (*fields@[q].1).name@ == w2
                    &&& (lookup_bean(singletons@, w2) matches Some(sb) ==> *fields@[q].1 == sb)
                } by {
                if q < k {
                    assert(fields@[q] == f0[q]);
                }
            }
        }
        k = k + 1;
    }
    let bean = Bean {
        name: copy_string(&spec.name),
        class_name: copy_string(&spec.class_name),
        kind: spec.kind,
        scope: spec.scope,
        core: BeanCore::Java(crate::compiler::compile::copy_methods(&spec.methods)),
        fields,
    };
    Ok(Arc::new(bean))
}

// ---------------------------------------------------------------------------
// The registry
// ---------------------------------------------------------------------------

/// The declared bean names: the Java definitions, then the natives.
pub open spec fn decl_names_of(specs: Seq<BeanSpecM>, natives: Seq<NativeDef>) -> Seq<Seq<char>> {
    specs.map_values(|s: BeanSpecM| s.name) + natives.map_values(|n: NativeDef| n.name@)
}

/// The declared bean classes, in the same order.
pub open spec fn decl_classes_of(specs: Seq<BeanSpecM>, natives: Seq<NativeDef>) -> Seq<Seq<char>> {
    specs.map_values(|s: BeanSpecM| s.class_name) + natives.map_values(|n: NativeDef| n.class_name@)
}

proof fn lemma_first_dup_none(names: Seq<Seq<char>>, i: int)
    requires
        0 <= i,
        first_dup(names, i) is None,
    ensures
        forall|a: int, b: int| i <= b < names.len() && 0 <= a < b ==> names[a] != names[b],
    decreases names.len() - i,
{
    if i < names.len() {
        lemma_first_dup_none(names, i + 1);
        assert forall|a: int| 0 <= a < i implies names[a] != names[i] by {
            if names[a] == names[i] {
                assert(names.take(i)[a] == names[i]);
                assert(names.take(i).contains(names[i]));
            }
        }
    }
}

proof fn lemma_lookup_some(entries: Seq<(String, Arc<Bean>)>, q: int, k: Seq<char>)
    requires
        0 <= q < entries.len(),
        entries[q].0@ == k,
    ensures
        lookup_bean(entries, k) is Some,
    decreases entries.len(),
{
    if q > 0 && entries[0].0@ != k {
        lemma_lookup_some(entries.drop_first(), q - 1, k);
    }
}

proof fn lemma_lookup_which(entries: Seq<(String, Arc<Bean>)>, k: Seq<char>)
    requires
        lookup_bean(entries, k) is Some,
    ensures
        exists|q: int| 0 <= q < entries.len() && entries[q].0@ == k && lookup_bean(entries, k)
            == Some(*(#[trigger] entries[q]).1),
    decreases entries.len(),
{
    if entries[0].0@ != k {
        lemma_lookup_which(entries.drop_first(), k);
        let q = choose|q: int| 0 <= q < entries.drop_first().len() && entries.drop_first()[q].0@ == k
            && lookup_bean(entries.drop_first(), k) == Some(*(#[trigger] entries.drop_first()[q]).1);
        assert(entries[q + 1] == entries.drop_first()[q]);
    } else {
        assert(entries[0].0@ == k);
    }
}

proof fn lemma_lookup_none(entries: Seq<(String, Arc<Bean>)>, k: Seq<char>)
    requires
        forall|q: int| 0 <= q < entries.len() ==> (#[trigger] entries[q]).0@ != k,
    ensures
        lookup_bean(entries, k) is None,
    decreases entries.len(),
{
    if entries.len() > 0 {
        assert forall|q: int| 0 <= q < entries.drop_first().len() implies (#[trigger] entries.drop_first()[q]).0@ != k by {
            assert(entries.drop_first()[q] == entries[q + 1]);
        }
        lemma_lookup_none(entries.drop_first(), k);
        assert(entries[0].0@ != k);
    }
}

/// A bean built against `cur` stays built once `e` joins, unless one of
/// its dependencies is wired to `e`'s name and `cur` lacks it.
proof fn lemma_built_push(
    spec: BeanSpecM,
    b: Bean,
    names: Seq<Seq<char>>,
    classes: Seq<Seq<char>>,
    cur: Seq<(String, Arc<Bean>)>,
    e: (String, Arc<Bean>),
)
    requires
        bean_built(spec, b, names, classes, cur),
        forall|k: int| 0 <= k < spec.dependencies.len() ==> wired_name(names, classes, #[trigger] spec.dependencies[k].ty) != e.0@,
    ensures
        bean_built(spec, b, names, classes, cur.push(e)),
{
    assert forall|k: int| 0 <= k < b.fields@.len() implies {
        let w = wired_name(names, classes, spec.dependencies[k].ty);
        &&& (#[trigger] b.fields@[k]).0@ == spec.dependencies[k].field_name
        &&& (*b.fields@[k].1).name@ == w
        &&& (lookup_bean(cur.push(e), w) matches Some(sb) ==> *b.fields@[k].1 == sb)
    } by {
        let w = wired_name(names, classes, spec.dependencies[k].ty);
        lemma_lookup_push(cur, e, w);
    }
}

pub struct BeanRegistry {
    singletons: Vec<(String, Arc<Bean>)>,
    definitions: Vec<BeanSpec>,
    by_type: TypeIndex,
    names: Vec<String>,
    classes: Vec<String>,
    nspecs: usize,
}

impl BeanRegistry {
    #[verifier::type_invariant]
    spec fn inv(&self) -> bool {
        &&& decls_wf(
            self.definitions@,
            self.names.deep_view(),
            self.classes.deep_view(),
            self.by_type,
            self.nspecs as int,
        )
        &&& entries_wf(self.singletons@)
        &&& natives_built(self.names.deep_view(), self.nspecs as int, self.singletons@)
        &&& singletons_before(self.definitions@, self.definitions@.len() as int, self.singletons@)
    }

    /// The singleton beans by name, in construction order.
    pub closed spec fn beans(&self) -> Seq<(String, Arc<Bean>)> {
        self.singletons@
    }

    /// The declared bean names (Java definitions, then natives).
    pub closed spec fn decl_names(&self) -> Seq<Seq<char>> {
        self.names.deep_view()
    }

    /// The declared bean classes, in the same order.
    pub closed spec fn decl_classes(&self) -> Seq<Seq<char>> {
        self.classes.deep_view()
    }

    /// The Java bean definitions, in dependency order.
    pub closed spec fn defs(&self) -> Seq<BeanSpec> {
        self.definitions@
    }

    pub fn empty() -> (r: Self)
        ensures
            r.beans().len() == 0,
            r.defs().len() == 0,
            r.decl_names().len() == 0,
            r.decl_classes().len() == 0,
    {
        let names: Vec<String> = Vec::new();
        let classes: Vec<String> = Vec::new();
        let by_type = TypeIndex { keys: Vec::new(), lists: Vec::new() };
        proof {
            assert(names.deep_view() =~= Seq::<Seq<char>>::empty());
            assert(classes.deep_view() =~= Seq::<Seq<char>>::empty());
            assert forall|t: Seq<char>| #[trigger] type_names(names.deep_view(), classes.deep_view(), t).len() == 0 by {}
        }
        BeanRegistry {
            singletons: Vec::new(),
            definitions: Vec::new(),
            by_type,
            names,
            classes,
            nspecs: 0,
        }
    }

    /// The singleton bean of that name.
    pub fn get(&self, name: &str) -> (r: Option<Arc<Bean>>)
        ensures
            match r {
                Some(b) => lookup_bean(self.beans(), name@) == Some(*b),
                None => lookup_bean(self.beans(), name@) is None,
            },
    {
        match find_entry(&self.singletons, name) {
            Some(i) => Some(share(&self.singletons[i].1)),
            None => None,
        }
    }

    /// The singleton bean of the first bean declared with that class.
    pub fn get_by_type(&self, class_name: &str) -> (r: Option<Arc<Bean>>)
        ensures
            ({
                let ns = type_names(self.decl_names(), self.decl_classes(), class_name@);
                match r {
                    Some(b) => ns.len() > 0 && lookup_bean(self.beans(), ns[0]) == Some(*b),
                    None => ns.len() == 0 || lookup_bean(self.beans(), ns[0]) is None,
                }
            }),
    {
        proof {
            use_type_invariant(self);
        }
        let ghost ns = type_names(self.names.deep_view(), self.classes.deep_view(), class_name@);
        match self.by_type.find(class_name) {
            None => {
                proof {
                    if ns.len() > 0 {
                        let j = choose|j: int| 0 <= j < self.by_type.keys@.len() && self.by_type.keys@[j]@ == class_name@;
                    }
                }
                None
            },
            Some(i) => {
                let list = &self.by_type.lists[i];
                assert(list.deep_view() == ns);
                if list.len() == 0 {
                    return None;
                }
                assert(list.deep_view()[0] == list@[0]@);
                self.get(list[0].as_str())
            },
        }
    }

    /// Number of singleton beans.
    pub fn len(&self) -> (r: usize)
        ensures
            r == self.beans().len(),
    {
        self.singletons.len()
    }

    pub fn is_empty(&self) -> (r: bool)
        ensures
            r == (self.beans().len() == 0 && self.defs().len() == 0),
    {
        self.singletons.len() == 0 && self.definitions.len() == 0
    }
}

// ---------------------------------------------------------------------------
// Building
// ---------------------------------------------------------------------------

fn declarations(specs: &[BeanSpec], natives: &Vec<NativeDef>) -> (r: (Vec<String>, Vec<String>))
    ensures
        r.0.deep_view() == decl_names_of(specs.deep_view(), natives@),
        r.1.deep_view() == decl_classes_of(specs.deep_view(), natives@),
        r.0@.len() == specs@.len() + natives@.len(),
        r.1@.len() == specs@.len() + natives@.len(),
{
    let ghost sd = specs.deep_view();
    let mut names: Vec<String> = Vec::new();
    let mut classes: Vec<String> = Vec::new();
    let mut i: usize = 0;
    while i < specs.len()
        invariant
            i <= specs@.len(),
            names@.len() == i,
            classes@.len() == i,
            sd == specs.deep_view(),
            sd.len() == specs@.len(),
            names.deep_view() == sd.take(i as int).map_values(|s: BeanSpecM| s.name),
            classes.deep_view() == sd.take(i as int).map_values(|s: BeanSpecM| s.class_name),
        decreases specs.len() - i,
    {
        push_dv(&mut names, copy_string(&specs[i].name));
        push_dv(&mut classes, copy_string(&specs[i].class_name));
        assert(sd[i as int] == specs@[i as int].deep_view());
        assert(sd.take(i + 1).map_values(|s: BeanSpecM| s.name) =~= sd.take(i as int).map_values(
            |s: BeanSpecM| s.name,
        ).push(specs@[i as int].name@));
        assert(sd.take(i + 1).map_values(|s: BeanSpecM| s.class_name) =~= sd.take(
            i as int,
        ).map_values(|s: BeanSpecM| s.class_name).push(specs@[i as int].class_name@));
        i = i + 1;
    }
    assert(sd.take(sd.len() as int) =~= sd);
    let ghost n0 = names.deep_view();
    let ghost c0 = classes.deep_view();
    let mut j: usize = 0;
    while j < natives.len()
        invariant
            j <= natives@.len(),
            names@.len() == specs@.len() + j,
            classes@.len() == specs@.len() + j,
            names.deep_view() == n0 + natives@.take(j as int).map_values(|n: NativeDef| n.name@),
            classes.deep_view() == c0 + natives@.take(j as int).map_values(|n: NativeDef| n.class_name@),
        decreases natives.len() - j,
    {
        push_dv(&mut names, copy_string(&natives[j].name));
        push_dv(&mut classes, copy_string(&natives[j].class_name));
        assert(names.deep_view() =~= n0 + natives@.take(j + 1).map_values(|n: NativeDef| n.name@));
        assert(classes.deep_view() =~= c0 + natives@.take(j + 1).map_values(|n: NativeDef| n.class_name@));
        j = j + 1;
    }
    assert(natives@.take(natives@.len() as int) =~= natives@);
    (names, classes)
}

/// The native beans, in declaration order.
fn native_beans(natives: Vec<NativeDef>) -> (r: Vec<(String, Arc<Bean>)>)
    ensures
        r@.len() == natives@.len(),
        entries_wf(r@),
        forall|q: int|
            0 <= q < r@.len() ==> {
                &&& (#[trigger] r@[q]).0@ == natives@[q].name@
                &&& (*r@[q].1).class_name@ == natives@[q].class_name@
                &&& (*r@[q].1).kind == BeanKind::Component
                &&& (*r@[q].1).scope == Scope::Singleton
                &&& (*r@[q].1).fields@.len() == 0
                &&& (*r@[q].1).core matches BeanCore::Native(t) && native_table(t) == native_table(natives@[q].methods)
            },
{
    let ghost n0 = natives@;
    let mut rest = natives;
    let mut out: Vec<(String, Arc<Bean>)> = Vec::new();
    while rest.len() > 0
        invariant
            out@.len() + rest@.len() == n0.len(),
            rest@ == n0.skip(out@.len() as int),
            entries_wf(out@),
            forall|q: int|
                0 <= q < out@.len() ==> {
                    &&& (#[trigger] out@[q]).0@ == n0[q].name@
                    &&& (*out@[q].1).class_name@ == n0[q].class_name@
                    &&& (*out@[q].1).kind == BeanKind::Component
                    &&& (*out@[q].1).scope == Scope::Singleton
                    &&& (*out@[q].1).fields@.len() == 0
                &&& (*out@[q].1).core matches BeanCore::Native(t) && native_table(t) == native_table(n0[q].methods)
                },
        decreases rest.len(),
    {
        let ghost o0 = out@;
        let n = rest.remove(0);
        assert(n == n0[out@.len() as int]);
        assert(rest@ =~= n0.skip(out@.len() as int + 1));
        let key = copy_string(&n.name);
        let bean = Bean {
            name: n.name,
            class_name: n.class_name,
            kind: BeanKind::Component,
            scope: Scope::Singleton,
            core: BeanCore::Native(n.methods),
            fields: Vec::new(),
        };
        out.push((key, Arc::new(bean)));
        proof {
            assert forall|q: int| 0 <= q < out@.len() implies (*(#[trigger] out@[q]).1).name@ == out@[q].0@ by {
                if q < o0.len() {
                    assert(out@[q] == o0[q]);
                }
            }
            assert forall|q: int|
                0 <= q < out@.len() implies {
                    &&& (#[trigger] out@[q]).0@ == n0[q].name@
                    &&& (*out@[q].1).class_name@ == n0[q].class_name@
                    &&& (*out@[q].1).kind == BeanKind::Component
                    &&& (*out@[q].1).scope == Scope::Singleton
                    &&& (*out@[q].1).fields@.len() == 0
                &&& (*out@[q].1).core matches BeanCore::Native(t) && native_table(t) == native_table(n0[q].methods)
                } by {
                if q < o0.len() {
                    assert(out@[q] == o0[q]);
                }
            }
        }
    }
    out
}

proof fn lemma_index_unique(names: Seq<Seq<char>>, w: int)
    requires
        names.no_duplicates(),
        0 <= w < names.len(),
    ensures
        index_of(names, names[w]) == w,
{
    crate::runtime::wiring::lemma_index_of(names, names[w]);
    assert(names.contains(names[w]));
}

proof fn lemma_dep_ty(a: BeanSpec, b: BeanSpec, k: int)
    requires
        a.deep_view() == b.deep_view(),
    ensures
        0 <= k < a.dependencies@.len() ==> a.dependencies@[k].ty@ == b.dependencies@[k].ty@,
        0 <= k < a.dependencies@.len() ==> a.dependencies@[k].field_name@ == b.dependencies@[k].field_name@,
        a.dependencies@.len() == b.dependencies@.len(),
        a.name@ == b.name@,
{
    assert(a.dependencies.deep_view().len() == a.dependencies@.len());
    assert(b.dependencies.deep_view().len() == b.dependencies@.len());
    if 0 <= k < a.dependencies@.len() {
        assert(a.dependencies.deep_view()[k] == a.dependencies@[k].deep_view());
        assert(b.dependencies.deep_view()[k] == b.dependencies@[k].deep_view());
    }
}

/// The definitions, in the order the dependency order visits them.
fn order_definitions(
    specs: &[BeanSpec],
    order: &Vec<usize>,
    adj: &Vec<Vec<usize>>,
    names: &Vec<String>,
    classes: &Vec<String>,
) -> (defs: Vec<BeanSpec>)
    requires
        specs@.len() <= names@.len(),
        names@.len() == classes@.len(),
        names.deep_view().no_duplicates(),
        forall|u: int| 0 <= u < specs@.len() ==> #[trigger] names.deep_view()[u] == specs@[u].name@,
        is_topological(adj.deep_view(), order@),
        forall|i: int| 0 <= i < specs@.len() ==> #[trigger] order@.contains(i as usize),
        adj@.len() == names@.len(),
        forall|a: int| 0 <= a < specs@.len() ==> #[trigger] adj@[a]@.len() == specs@[a].dependencies@.len(),
        forall|a: int, k: int|
            0 <= a < specs@.len() && 0 <= k < specs@[a].dependencies@.len() ==> type_names(
                names.deep_view(),
                classes.deep_view(),
                #[trigger] specs@[a].dependencies@[k].ty@,
            ).len() == 1,
        forall|a: int, k: int|
            0 <= a < specs@.len() && 0 <= k < specs@[a].dependencies@.len() ==> #[trigger] adj@[a]@[k] == index_of(
                names.deep_view(),
                wired_name(names.deep_view(), classes.deep_view(), specs@[a].dependencies@[k].ty@),
            ),
    ensures
        forall|j1: int, j2: int| 0 <= j1 < j2 < defs@.len() ==> #[trigger] defs@[j1].name@ != #[trigger] defs@[j2].name@,
        forall|q: int| 0 <= q < defs@.len() ==> 0 <= #[trigger] index_of(names.deep_view(), defs@[q].name@) < specs@.len(),
        forall|i: int| 0 <= i < specs@.len() ==> has_def(defs@, #[trigger] names.deep_view()[i]),
        forall|q: int, k: int|
            0 <= q < defs@.len() && 0 <= k < defs@[q].dependencies@.len() ==> type_names(
                names.deep_view(),
                classes.deep_view(),
                #[trigger] defs@[q].dependencies@[k].ty@,
            ).len() == 1,
        defs_ordered(defs@, names.deep_view(), classes.deep_view()),
        forall|q: int| 0 <= q < defs@.len() ==> #[trigger] defs@[q].deep_view() == specs@[index_of(names.deep_view(), defs@[q].name@)].deep_view(),
{
    let ghost nm = names.deep_view();
    let ghost cm = classes.deep_view();
    let ghost g = adj.deep_view();
    let ghost ns = specs@.len() as int;
    let spec_count = specs.len();
    assert(ns == spec_count);
    let mut defs: Vec<BeanSpec> = Vec::new();
    let ghost mut pos: Seq<int> = Seq::empty();
    let ghost mut node: Seq<int> = Seq::empty();
    let mut t: usize = 0;
    while t < order.len()
        invariant
            t <= order@.len(),
            nm == names.deep_view(),
            ns == specs@.len(),
            defs@.len() == pos.len(),
            defs@.len() == node.len(),
            forall|q: int| 0 <= q < pos.len() ==> 0 <= #[trigger] pos[q] < t,
            forall|q: int| 0 <= q < pos.len() ==> order@[pos[q]] == #[trigger] node[q],
            forall|q: int| 0 <= q < node.len() ==> 0 <= #[trigger] node[q] < ns,
            forall|q: int| 0 <= q < node.len() ==> #[trigger] defs@[q].deep_view() == specs@[node[q]].deep_view(),
            forall|q1: int, q2: int| 0 <= q1 < q2 < pos.len() ==> #[trigger] pos[q1] < #[trigger] pos[q2],
            forall|t2: int| 0 <= t2 < t && (order@[t2] as int) < ns ==> exists|q: int| 0 <= q < pos.len() && #[trigger] pos[q] == t2,
        decreases order.len() - t,
    {
        let u = order[t];
        let ghost pos0 = pos;
        if u < specs.len() {
            let d = specs[u].copy();
            proof {
                pos = pos.push(t as int);
                node = node.push(u as int);
            }
            defs.push(d);
        }
        proof {
            assert forall|t2: int| 0 <= t2 < t + 1 && (order@[t2] as int) < ns implies exists|q: int| 0 <= q < pos.len() && #[trigger] pos[q] == t2 by {
                if t2 == t {
                    assert(pos[pos.len() - 1] == t2);
                } else {
                    let q = choose|q: int| 0 <= q < pos0.len() && #[trigger] pos0[q] == t2;
                    assert(pos[q] == pos0[q]);
                }
            }
        }
        t = t + 1;
    }
    proof {
        let o = order@;
        assert forall|q: int| 0 <= q < defs@.len() implies 0 <= #[trigger] index_of(nm, defs@[q].name@) < ns && defs@[q].deep_view() == specs@[index_of(nm, defs@[q].name@)].deep_view() by {
            let u = node[q];
            lemma_dep_ty(defs@[q], specs@[u], 0);
            assert(defs@[q].name@ == specs@[u].name@);
            assert(nm[u] == specs@[u].name@);
            lemma_index_unique(nm, u);
        }
        assert forall|j1: int, j2: int| 0 <= j1 < j2 < defs@.len() implies #[trigger] defs@[j1].name@ != #[trigger] defs@[j2].name@ by {
            lemma_dep_ty(defs@[j1], specs@[node[j1]], 0);
            lemma_dep_ty(defs@[j2], specs@[node[j2]], 0);
            assert(pos[j1] < pos[j2]);
            assert(o[pos[j1]] != o[pos[j2]]) by {
                assert(o.no_duplicates());
            }
            assert(nm[node[j1]] != nm[node[j2]]) by {
                assert(nm.no_duplicates());
            }
        }
        assert forall|i: int| 0 <= i < ns implies has_def(defs@, #[trigger] nm[i]) by {
            assert(o.contains(i as usize));
            let t2 = choose|t2: int| 0 <= t2 < o.len() && o[t2] == i as usize;
            let q = choose|q: int| 0 <= q < pos.len() && #[trigger] pos[q] == t2;
            assert(order@[pos[q]] == node[q]);
            assert(node[q] == i);
            lemma_dep_ty(defs@[q], specs@[i], 0);
            assert(defs@[q].name@ == nm[i]);
        }
        assert forall|q: int, k: int|
            0 <= q < defs@.len() && 0 <= k < defs@[q].dependencies@.len() implies type_names(
                nm,
                cm,
                #[trigger] defs@[q].dependencies@[k].ty@,
            ).len() == 1 by {
            let u = node[q];
            lemma_dep_ty(defs@[q], specs@[u], k);
        }
        assert forall|p: int, k: int, j: int|
            #![trigger defs@[p].dependencies@[k], defs@[j]]
            0 <= p < defs@.len() && 0 <= k < defs@[p].dependencies@.len() && 0 <= j < defs@.len()
                && defs@[j].name@ == wired_name(nm, cm, defs@[p].dependencies@[k].ty@) implies j < p by {
            let u = node[p];
            let w = node[j];
            lemma_dep_ty(defs@[p], specs@[u], k);
            lemma_dep_ty(defs@[j], specs@[w], 0);
            assert(nm[w] == specs@[w].name@);
            lemma_index_unique(nm, w);
            assert(adj@[u]@[k] == w);
            assert(g[u as int][k] == adj@[u]@[k]);
            assert(o[pos[p]] == u);
            assert(occurs_before(o, pos[p], g[o[pos[p]] as int][k]));
            let t2 = choose|t2: int| 0 <= t2 < pos[p] && #[trigger] o[t2] == g[o[pos[p]] as int][k];
            assert(o[pos[j]] == w as usize);
            assert(o[t2] == w as usize);
            assert(t2 == pos[j]) by {
                if t2 != pos[j] {
                    assert(o.no_duplicates());
                }
            }
            if j >= p {
                if j > p {
                    assert(pos[p] < pos[j]);
                }
            }
        }
    }
    defs
}

proof fn lemma_lookup_at(entries: Seq<(String, Arc<Bean>)>, q: int, k: Seq<char>)
    requires
        0 <= q < entries.len(),
        entries[q].0@ == k,
        forall|a: int, b: int| 0 <= a < b < entries.len() ==> #[trigger] entries[a].0@ != #[trigger] entries[b].0@,
    ensures
        lookup_bean(entries, k) == Some(*entries[q].1),
    decreases entries.len(),
{
    if q > 0 {
        assert(entries[0].0@ != k);
        let rest = entries.drop_first();
        assert forall|a: int, b: int| 0 <= a < b < rest.len() implies #[trigger] rest[a].0@ != #[trigger] rest[b].0@ by {
            assert(rest[a] == entries[a + 1]);
            assert(rest[b] == entries[b + 1]);
        }
        assert(rest[q - 1] == entries[q]);
        lemma_lookup_at(rest, q - 1, k);
    }
}

/// Constructs the singleton definitions, in order, after the natives.
fn build_singletons(
    defs: &Vec<BeanSpec>,
    names: &Vec<String>,
    classes: &Vec<String>,
    nspecs: usize,
    index: &TypeIndex,
    singletons: &mut Vec<(String, Arc<Bean>)>,
) -> (r: Result<(), DIError>)
    requires
        decls_wf(defs@, names.deep_view(), classes.deep_view(), *index, nspecs as int),
        entries_wf(old(singletons)@),
        old(singletons)@.len() == names@.len() - nspecs,
        forall|q: int| 0 <= q < old(singletons)@.len() ==> (#[trigger] old(singletons)@[q]).0@ == names.deep_view()[nspecs + q],
    ensures
        match r {
            Ok(()) => {
                &&& entries_wf(final(singletons)@)
                &&& natives_built(names.deep_view(), nspecs as int, final(singletons)@)
                &&& singletons_before(defs@, defs@.len() as int, final(singletons)@)
                &&& final(singletons)@.len() >= old(singletons)@.len()
                &&& forall|q: int| 0 <= q < old(singletons)@.len() ==> #[trigger] final(singletons)@[q] == old(singletons)@[q]
                &&& forall|q: int| 0 <= q < final(singletons)@.len() ==> names.deep_view().contains(#[trigger] final(singletons)@[q].0@)
                &&& forall|a: int, b: int| 0 <= a < b < final(singletons)@.len() ==> #[trigger] final(singletons)@[a].0@ != #[trigger] final(singletons)@[b].0@
                &&& forall|j: int| 0 <= j < defs@.len() ==> {
                    &&& (#[trigger] defs@[j]).scope == Scope::Singleton ==> (lookup_bean(final(singletons)@, defs@[j].name@) matches Some(b)
                        && bean_built(defs@[j].deep_view(), b, names.deep_view(), classes.deep_view(), final(singletons)@))
                    &&& defs@[j].scope != Scope::Singleton ==> lookup_bean(final(singletons)@, defs@[j].name@) is None
                }
                &&& forall|j: int| 0 <= j < defs@.len() && defs@[j].scope == Scope::Singleton
                    ==> #[trigger] boot_violation_from(defs@, names.deep_view(), classes.deep_view(), j, 0) is None
                &&& final(singletons)@.len() == old(singletons)@.len() + singleton_count(defs.deep_view())
            },
            Err(e) => e@ matches DIErrorM::ScopeViolation { id, scope } && scope == Scope::Request
                && exists|j: int| 0 <= j < defs@.len() && defs@[j].scope == Scope::Singleton
                    && #[trigger] boot_violation_from(defs@, names.deep_view(), classes.deep_view(), j, 0) == Some(id),
        },
{
    let ghost nm = names.deep_view();
    let ghost cm = classes.deep_view();
    let ghost s0 = singletons@;
    let ghost nnat = s0.len() as int;
    let ghost mut origin: Seq<int> = Seq::empty();
    let mut dummy: Vec<(String, Arc<Bean>)> = Vec::new();
    proof {
        assert forall|i: int| nspecs <= i < nm.len() implies #[trigger] lookup_bean(s0, nm[i]) is Some by {
            lemma_lookup_some(s0, i - nspecs, nm[i]);
        }
        assert forall|a: int, b: int| 0 <= a < b < s0.len() implies #[trigger] s0[a].0@ != #[trigger] s0[b].0@ by {
            assert(nm.no_duplicates());
        }
        assert forall|j: int| 0 <= j < defs@.len() && defs@[j].scope != Scope::Singleton
            implies #[trigger] lookup_bean(s0, defs@[j].name@) is None by {
            assert forall|q: int| 0 <= q < s0.len() implies (#[trigger] s0[q]).0@ != defs@[j].name@ by {
                crate::runtime::wiring::lemma_index_of(nm, defs@[j].name@);
                lemma_index_unique(nm, nspecs + q);
            }
            lemma_lookup_none(s0, defs@[j].name@);
        }
    }
    let mut p: usize = 0;
    while p < defs.len()
        invariant
            p <= defs@.len(),
            nm == names.deep_view(),
            cm == classes.deep_view(),
            decls_wf(defs@, nm, cm, *index, nspecs as int),
            nnat == s0.len(),
            nnat == nm.len() - nspecs,
            forall|q: int| 0 <= q < nnat ==> (#[trigger] s0[q]).0@ == nm[nspecs + q],
            entries_wf(singletons@),
            natives_built(nm, nspecs as int, singletons@),
            singletons_before(defs@, p as int, singletons@),
            singletons@.len() == nnat + origin.len(),
            forall|q: int| 0 <= q < nnat ==> #[trigger] singletons@[q] == s0[q],
            forall|a: int, b: int| 0 <= a < b < singletons@.len() ==> #[trigger] singletons@[a].0@ != #[trigger] singletons@[b].0@,
            forall|q: int| 0 <= q < origin.len() ==> 0 <= #[trigger] origin[q] < p,
            forall|q: int| 0 <= q < origin.len() ==> defs@[#[trigger] origin[q]].scope == Scope::Singleton,
            forall|q: int| 0 <= q < origin.len() ==> singletons@[nnat + q].0@ == defs@[#[trigger] origin[q]].name@,
            forall|q: int| 0 <= q < origin.len() ==> bean_built(defs@[#[trigger] origin[q]].deep_view(), *singletons@[nnat + q].1, nm, cm, singletons@),
            forall|j: int| 0 <= j < p && defs@[j].scope == Scope::Singleton ==> exists|q: int| 0 <= q < origin.len() && #[trigger] origin[q] == j,
            forall|j: int| 0 <= j < defs@.len() && defs@[j].scope != Scope::Singleton
                ==> #[trigger] lookup_bean(singletons@, defs@[j].name@) is None,
            forall|j: int| 0 <= j < p && defs@[j].scope == Scope::Singleton
                ==> #[trigger] boot_violation_from(defs@, nm, cm, j, 0) is None,
            origin.len() == singleton_count(defs.deep_view().take(p as int)),
            dummy@.len() == 0,
        decreases defs.len() - p,
    {
        proof {
            let dv = defs.deep_view();
            assert(dv.take(p + 1).drop_last() =~= dv.take(p as int));
            assert(dv.take(p + 1).last() == defs@[p as int].deep_view());
        }
        if defs[p].scope == Scope::Singleton {
            let bean = match construct_bean(defs, p, names, classes, nspecs, index, singletons, &mut dummy, false) {
                Ok(b) => b,
                Err(e) => {
                    proof {
                        assert(boot_violation_from(defs@, nm, cm, p as int, 0) == Some(e@->id));
                    }
                    return Err(e);
                },
            };
            assert(boot_violation_from(defs@, nm, cm, p as int, 0) is None);
            let ghost before = singletons@;
            let ghost o0 = origin;
            let key = copy_string(&defs[p].name);
            let ghost entry = (key, bean);
            singletons.push((key, bean));
            proof {
                origin = origin.push(p as int);
                let n = defs@[p as int].name@;
                // keys stay distinct
                assert forall|q: int| 0 <= q < before.len() implies #[trigger] before[q].0@ != n by {
                    if q < nnat {
                        assert(before[q] == s0[q]);
                        assert(0 <= index_of(nm, n) < nspecs);
                        crate::runtime::wiring::lemma_index_of(nm, n);
                        lemma_index_unique(nm, nspecs + q);
                    } else {
                        let j = o0[q - nnat];
                        assert(defs@[j].name@ == before[q].0@);
                        assert(j < p);
                    }
                }
                assert forall|a: int, b: int| 0 <= a < b < singletons@.len() implies #[trigger] singletons@[a].0@ != #[trigger] singletons@[b].0@ by {
                    if b == before.len() {
                        assert(singletons@[a] == before[a]);
                    } else {
                        assert(singletons@[a] == before[a]);
                        assert(singletons@[b] == before[b]);
                    }
                }
                assert forall|q: int| 0 <= q < singletons@.len() implies (*(#[trigger] singletons@[q]).1).name@ == singletons@[q].0@ by {
                    if q < before.len() {
                        assert(singletons@[q] == before[q]);
                    }
                }
                assert forall|i: int| nspecs <= i < nm.len() implies #[trigger] lookup_bean(singletons@, nm[i]) is Some by {
                    lemma_lookup_push(before, entry, nm[i]);
                }
                assert forall|j: int| 0 <= j < p + 1 && j < defs@.len() && defs@[j].scope == Scope::Singleton implies #[trigger] lookup_bean(
                    singletons@,
                    defs@[j].name@,
                ) is Some by {
                    lemma_lookup_push(before, entry, defs@[j].name@);
                }
                // every bean stays built
                assert forall|q: int| 0 <= q < origin.len() implies bean_built(defs@[#[trigger] origin[q]].deep_view(), *singletons@[nnat + q].1, nm, cm, singletons@) by {
                    let j = origin[q];
                    let spec = defs@[j].deep_view();
                    assert forall|k: int| 0 <= k < spec.dependencies.len() implies wired_name(nm, cm, #[trigger] spec.dependencies[k].ty) != n by {
                        assert(defs@[j].dependencies.deep_view()[k] == defs@[j].dependencies@[k].deep_view());
                        assert(spec.dependencies.len() == defs@[j].dependencies@.len());
                        if wired_name(nm, cm, spec.dependencies[k].ty) == n {
                            assert(defs@[p as int].name@ == wired_name(nm, cm, defs@[j].dependencies@[k].ty@));
                            assert(p < j);
                        }
                    }
                    if q < o0.len() {
                        assert(singletons@[nnat + q] == before[nnat + q]);
                        lemma_built_push(spec, *before[nnat + q].1, nm, cm, before, entry);
                    } else {
                        assert(j == p);
                        lemma_built_push(spec, *bean, nm, cm, before, entry);
                    }
                }
                assert forall|j: int| 0 <= j < defs@.len() && defs@[j].scope != Scope::Singleton
                    implies #[trigger] lookup_bean(singletons@, defs@[j].name@) is None by {
                    assert(defs@[j].name@ != n);
                    lemma_lookup_push(before, entry, defs@[j].name@);
                }
                assert forall|j: int| 0 <= j < p + 1 && defs@[j].scope == Scope::Singleton implies exists|q: int| 0 <= q < origin.len() && #[trigger] origin[q] == j by {
                    if j == p {
                        assert(origin[o0.len() as int] == j);
                    } else {
                        let q = choose|q: int| 0 <= q < o0.len() && #[trigger] o0[q] == j;
                        assert(origin[q] == j);
                    }
                }
            }
        } else {
            proof {
                assert forall|j: int| 0 <= j < p + 1 && j < defs@.len() && defs@[j].scope == Scope::Singleton implies #[trigger] lookup_bean(
                    singletons@,
                    defs@[j].name@,
                ) is Some by {
                    assert(j < p);
                }
                assert forall|j: int| 0 <= j < p + 1 && defs@[j].scope == Scope::Singleton
                    implies #[trigger] boot_violation_from(defs@, nm, cm, j, 0) is None by {
                    assert(j < p);
                }
            }
        }
        p = p + 1;
    }
    proof {
        assert(defs.deep_view().take(defs@.len() as int) =~= defs.deep_view());
        let fs = singletons@;
        assert forall|q: int| 0 <= q < fs.len() implies nm.contains(#[trigger] fs[q].0@) by {
            if q < nnat {
                assert(fs[q] == s0[q]);
                assert(nm[nspecs + q] == fs[q].0@);
            } else {
                let j = origin[q - nnat];
                let wi = index_of(nm, defs@[j].name@);
                crate::runtime::wiring::lemma_index_of(nm, defs@[j].name@);
                assert(0 <= wi < nspecs);
            }
        }
        assert forall|j: int| 0 <= j < defs@.len() implies {
            &&& (#[trigger] defs@[j]).scope == Scope::Singleton ==> (lookup_bean(fs, defs@[j].name@) matches Some(b)
                && bean_built(defs@[j].deep_view(), b, nm, cm, fs))
            &&& defs@[j].scope != Scope::Singleton ==> lookup_bean(fs, defs@[j].name@) is None
        } by {
            if defs@[j].scope == Scope::Singleton {
                let q = choose|q: int| 0 <= q < origin.len() && #[trigger] origin[q] == j;
                lemma_lookup_at(fs, nnat + q, defs@[j].name@);
            } else {
                assert forall|q: int| 0 <= q < fs.len() implies (#[trigger] fs[q]).0@ != defs@[j].name@ by {
                    if q < nnat {
                        assert(fs[q] == s0[q]);
                        crate::runtime::wiring::lemma_index_of(nm, defs@[j].name@);
                        lemma_index_unique(nm, nspecs + q);
                    } else {
                        let j2 = origin[q - nnat];
                        assert(defs@[j2].scope == Scope::Singleton);
                        assert(j2 != j);
                    }
                }
                lemma_lookup_none(fs, defs@[j].name@);
            }
        }
    }
    Ok(())
}

/// A Java definition is registered as its scope says: singletons are
/// built, other scopes are left to resolution time.
pub open spec fn spec_registered(
    beans: Seq<(String, Arc<Bean>)>,
    spec: BeanSpecM,
    names: Seq<Seq<char>>,
    classes: Seq<Seq<char>>,
) -> bool {
    &&& spec.scope == Scope::Singleton ==> (lookup_bean(beans, spec.name) matches Some(b) && bean_built(
        spec,
        b,
        names,
        classes,
        beans,
    ))
    &&& spec.scope != Scope::Singleton ==> lookup_bean(beans, spec.name) is None
}

/// A native bean is registered as a singleton component of its class,
/// answering through the method table it was declared with.
pub open spec fn native_registered(beans: Seq<(String, Arc<Bean>)>, n: NativeDef) -> bool {
    lookup_bean(beans, n.name@) matches Some(b) && {
        &&& b.class_name@ == n.class_name@
        &&& b.kind == BeanKind::Component
        &&& b.scope == Scope::Singleton
        &&& b.fields@.len() == 0
        &&& b.core matches BeanCore::Native(t) && native_table(t) == native_table(n.methods)
    }
}

/// Definition `a` has a dependency wired to declaration `b`.
pub open spec fn depends(specs: Seq<BeanSpecM>, names: Seq<Seq<char>>, classes: Seq<Seq<char>>, a: int, b: int) -> bool {
    0 <= a < specs.len() && exists|k: int|
        0 <= k < specs[a].dependencies.len() && index_of(
            names,
            wired_name(names, classes, #[trigger] specs[a].dependencies[k].ty),
        ) == b
}

/// A path of declarations, each depending on the next, back to its start.
pub open spec fn is_dep_cycle(specs: Seq<BeanSpecM>, names: Seq<Seq<char>>, classes: Seq<Seq<char>>, path: Seq<usize>) -> bool {
    &&& path.len() >= 2
    &&& path[0] == path.last()
    &&& forall|k: int| 0 <= k < path.len() - 1 ==> depends(specs, names, classes, #[trigger] path[k] as int, path[k + 1] as int)
}

/// A chain of definitions from `path[0]`, each depending on the next,
/// through prototype-scoped definitions to a request-scoped one.
pub open spec fn request_path(specs: Seq<BeanSpecM>, names: Seq<Seq<char>>, classes: Seq<Seq<char>>, path: Seq<int>) -> bool {
    &&& path.len() >= 2
    &&& forall|k: int| 0 <= k < path.len() ==> 0 <= #[trigger] path[k] < specs.len()
    &&& forall|k: int| 0 <= k < path.len() - 1 ==> #[trigger] depends(specs, names, classes, path[k], path[k + 1])
    &&& forall|k: int| 0 < k < path.len() - 1 ==> specs[#[trigger] path[k]].scope == Scope::Prototype
    &&& specs[path.last()].scope == Scope::Request
}

/// A singleton definition that would have to hold, from boot on, a
/// request-scoped bean: directly or through prototype-scoped dependencies.
pub open spec fn boot_scope_violation(
    specs: Seq<BeanSpecM>,
    names: Seq<Seq<char>>,
    classes: Seq<Seq<char>>,
    path: Seq<int>,
) -> bool {
    request_path(specs, names, classes, path) && specs[path[0]].scope == Scope::Singleton
}

pub open spec fn path_names(names: Seq<Seq<char>>, path: Seq<usize>) -> Seq<Seq<char>> {
    path.map_values(|u: usize| names[u as int])
}

/// The singleton-scoped definitions among `specs`.
pub open spec fn singleton_count(specs: Seq<BeanSpecM>) -> nat
    decreases specs.len(),
{
    if specs.len() == 0 {
        0
    } else {
        singleton_count(specs.drop_last()) + if specs.last().scope == Scope::Singleton {
            1nat
        } else {
            0nat
        }
    }
}

/// The names of the singleton-scoped definitions among `specs`.
pub open spec fn singleton_names(specs: Seq<BeanSpecM>) -> Set<Seq<char>>
    decreases specs.len(),
{
    if specs.len() == 0 {
        Set::empty()
    } else if specs.last().scope == Scope::Singleton {
        singleton_names(specs.drop_last()).insert(specs.last().name)
    } else {
        singleton_names(specs.drop_last())
    }
}

proof fn lemma_singleton_names(x: Seq<BeanSpecM>)
    ensures
        singleton_names(x).finite(),
        forall|n: Seq<char>| singleton_names(x).contains(n) <==> exists|q: int|
            0 <= q < x.len() && #[trigger] x[q].name == n && x[q].scope == Scope::Singleton,
        (forall|a: int, b: int| 0 <= a < b < x.len() ==> #[trigger] x[a].name != #[trigger] x[b].name)
            ==> singleton_names(x).len() == singleton_count(x),
    decreases x.len(),
{
    if x.len() > 0 {
        let y = x.drop_last();
        lemma_singleton_names(y);
        assert forall|n: Seq<char>| singleton_names(x).contains(n) <==> exists|q: int|
            0 <= q < x.len() && #[trigger] x[q].name == n && x[q].scope == Scope::Singleton by {
            if singleton_names(y).contains(n) {
                let q = choose|q: int| 0 <= q < y.len() && #[trigger] y[q].name == n && y[q].scope == Scope::Singleton;
                assert(x[q] == y[q]);
            }
            if exists|q: int| 0 <= q < x.len() && #[trigger] x[q].name == n && x[q].scope == Scope::Singleton {
                let q = choose|q: int| 0 <= q < x.len() && #[trigger] x[q].name == n && x[q].scope == Scope::Singleton;
                if q < y.len() {
                    assert(y[q] == x[q]);
                }
            }
        }
        if forall|a: int, b: int| 0 <= a < b < x.len() ==> #[trigger] x[a].name != #[trigger] x[b].name {
            assert forall|a: int, b: int| 0 <= a < b < y.len() implies #[trigger] y[a].name != #[trigger] y[b].name by {
                assert(y[a] == x[a] && y[b] == x[b]);
            }
            if x.last().scope == Scope::Singleton {
                if singleton_names(y).contains(x.last().name) {
                    let q = choose|q: int| 0 <= q < y.len() && #[trigger] y[q].name == x.last().name && y[q].scope == Scope::Singleton;
                    assert(x[q].name != x[x.len() - 1].name);
                }
            }
        }
    }
}

/// What building a registry from `specs` and `natives` gives: the first
/// repeated name, else the first dependency that cannot be wired, else a
/// dependency cycle (each bean on it once, its start repeated at the end),
/// else a singleton reaching a request-scoped bean through prototype-scoped
/// dependencies; when none of these holds, a registry in which every native
/// and every singleton definition is built and wired, and nothing else is;
/// the registry keeps the definitions, each spec once, in dependency order,
/// to build prototype and request-scoped beans from at resolution time.
pub open spec fn build_outcome(specs: Seq<BeanSpecM>, natives: Seq<NativeDef>, r: Result<BeanRegistry, DIError>) -> bool {
    let names = decl_names_of(specs, natives);
    let classes = decl_classes_of(specs, natives);
    match r {
        Ok(reg) => {
            &&& first_dup(names, 0) is None
            &&& specs_error(specs, names, classes) is None
            &&& reg.decl_names() == names
            &&& reg.decl_classes() == classes
            &&& forall|i: int| 0 <= i < natives.len() ==> native_registered(reg.beans(), #[trigger] natives[i])
            &&& forall|i: int| 0 <= i < specs.len() ==> spec_registered(reg.beans(), #[trigger] specs[i], names, classes)
            &&& forall|n: Seq<char>| #[trigger] lookup_bean(reg.beans(), n) is Some ==> names.contains(n)
            &&& forall|path: Seq<usize>| !#[trigger] is_dep_cycle(specs, names, classes, path)
            &&& forall|path: Seq<int>| !#[trigger] boot_scope_violation(specs, names, classes, path)
            &&& reg.beans().len() == natives.len() + singleton_count(specs)
            &&& defs_of(reg.defs(), specs, names)
            &&& forall|i: int| 0 <= i < specs.len() ==> has_def(reg.defs(), #[trigger] names[i])
            &&& forall|q: int| 0 <= q < reg.defs().len() ==> 0 <= #[trigger] index_of(names, reg.defs()[q].name@) < specs.len()
            &&& forall|j1: int, j2: int| 0 <= j1 < j2 < reg.defs().len() ==> #[trigger] reg.defs()[j1].name@ != #[trigger] reg.defs()[j2].name@
            &&& defs_ordered(reg.defs(), names, classes)
        },
        Err(e) => {
            &&& first_dup(names, 0) matches Some(n) ==> e@ == DIErrorM::Duplicate(n)
            &&& first_dup(names, 0) is None ==> (specs_error(specs, names, classes) matches Some(x) ==> e@ == x)
            &&& (first_dup(names, 0) is None && specs_error(specs, names, classes) is None) ==> (
                (e@ matches DIErrorM::Cycle(p) && exists|path: Seq<usize>| is_dep_cycle(specs, names, classes, path)
                    && path.drop_last().no_duplicates() && p == join(path_names(names, path), " -> "@))
                || (e@ matches DIErrorM::ScopeViolation { id, scope } && scope == Scope::Request
                    && (forall|path: Seq<usize>| !#[trigger] is_dep_cycle(specs, names, classes, path))
                    && exists|path: Seq<int>| #[trigger] boot_scope_violation(specs, names, classes, path)
                        && specs[path.last()].name == id))
        },
    }
}

/// A bean that resolution gives from a built registry, under a name that
/// was not built at boot, is built from the spec of that name: its class,
/// scope and methods are the spec's.
pub proof fn lemma_resolved_from_spec(
    specs: Seq<BeanSpecM>,
    natives: Seq<NativeDef>,
    reg: BeanRegistry,
    n: Seq<char>,
    x: Bean,
)
    requires
        build_outcome(specs, natives, Ok(reg)),
        lookup_bean(reg.beans(), n) is None,
        registry_bean(reg, n, x),
    ensures
        exists|i: int|
            0 <= i < specs.len() && #[trigger] specs[i].name == n && x.class_name@ == specs[i].class_name
                && x.scope == specs[i].scope && (x.core matches BeanCore::Java(ms) && ms.deep_view()
                == specs[i].methods),
{
    let names = decl_names_of(specs, natives);
    let defs = reg.defs();
    let j = choose|j: int|
        0 <= j < defs.len() && (#[trigger] defs[j]).name@ == n && bean_built(
            defs[j].deep_view(),
            x,
            reg.decl_names(),
            reg.decl_classes(),
            reg.beans(),
        );
    let i = index_of(names, defs[j].name@);
    assert(0 <= i < specs.len());
    assert(defs[j].deep_view() == specs[i]);
    crate::runtime::wiring::lemma_index_of(names, n);
    assert(names[i] == specs[i].name);
}

/// A bean graph with a dependency cycle is never built: the outcome of
/// building it is an error.
pub proof fn lemma_cycle_refused(
    specs: Seq<BeanSpecM>,
    natives: Seq<NativeDef>,
    r: Result<BeanRegistry, DIError>,
    path: Seq<usize>,
)
    requires
        build_outcome(specs, natives, r),
        is_dep_cycle(specs, decl_names_of(specs, natives), decl_classes_of(specs, natives), path),
    ensures
        r is Err,
{
}

/// A bean graph in which a singleton reaches a request-scoped bean,
/// directly or through prototype-scoped beans, is never built: the outcome
/// of building it is an error.
pub proof fn lemma_boot_violation_refused(
    specs: Seq<BeanSpecM>,
    natives: Seq<NativeDef>,
    r: Result<BeanRegistry, DIError>,
    path: Seq<int>,
)
    requires
        build_outcome(specs, natives, r),
        boot_scope_violation(specs, decl_names_of(specs, natives), decl_classes_of(specs, natives), path),
    ensures
        r is Err,
{
}

proof fn lemma_dep_edge(
    specs: Seq<BeanSpec>,
    sd: Seq<BeanSpecM>,
    nm: Seq<Seq<char>>,
    cm: Seq<Seq<char>>,
    adj: Seq<Vec<usize>>,
    g: Seq<Seq<usize>>,
    a: int,
    b: int,
)
    requires
        sd.len() == specs.len(),
        forall|x: int| 0 <= x < specs.len() ==> #[trigger] sd[x] == specs[x].deep_view(),
        g.len() == adj.len(),
        forall|x: int| 0 <= x < adj.len() ==> #[trigger] g[x] == adj[x]@,
        specs.len() <= adj.len(),
        forall|x: int| 0 <= x < specs.len() ==> #[trigger] adj[x]@.len() == specs[x].dependencies@.len(),
        forall|x: int, k: int|
            0 <= x < specs.len() && 0 <= k < specs[x].dependencies@.len() ==> #[trigger] adj[x]@[k] == index_of(
                nm,
                wired_name(nm, cm, specs[x].dependencies@[k].ty@),
            ),
        depends(sd, nm, cm, a, b),
    ensures
        crate::runtime::toposort::is_edge(g, a, b),
{
    let kk = choose|kk: int| 0 <= kk < sd[a].dependencies.len() && index_of(nm, wired_name(nm, cm, #[trigger] sd[a].dependencies[kk].ty)) == b;
    assert(sd[a] == specs[a].deep_view());
    assert(sd[a].dependencies.len() == specs[a].dependencies@.len());
    assert(sd[a].dependencies[kk] == specs[a].dependencies@[kk].deep_view());
    assert(adj[a]@[kk] == b);
    assert(g[a][kk] == b);
    assert(g[a].contains(b as usize));
}

proof fn lemma_dep_cycle_edges(
    specs: Seq<BeanSpec>,
    sd: Seq<BeanSpecM>,
    nm: Seq<Seq<char>>,
    cm: Seq<Seq<char>>,
    adj: Seq<Vec<usize>>,
    g: Seq<Seq<usize>>,
    path: Seq<usize>,
)
    requires
        sd.len() == specs.len(),
        forall|x: int| 0 <= x < specs.len() ==> #[trigger] sd[x] == specs[x].deep_view(),
        g.len() == adj.len(),
        forall|x: int| 0 <= x < adj.len() ==> #[trigger] g[x] == adj[x]@,
        specs.len() <= adj.len(),
        forall|x: int| 0 <= x < specs.len() ==> #[trigger] adj[x]@.len() == specs[x].dependencies@.len(),
        forall|x: int, k: int|
            0 <= x < specs.len() && 0 <= k < specs[x].dependencies@.len() ==> #[trigger] adj[x]@[k] == index_of(
                nm,
                wired_name(nm, cm, specs[x].dependencies@[k].ty@),
            ),
        is_dep_cycle(sd, nm, cm, path),
    ensures
        crate::runtime::toposort::is_cycle(g, path),
        0 <= path[0] < specs.len(),
{
    assert forall|k: int| 0 <= k < path.len() - 1 implies crate::runtime::toposort::is_edge(g, #[trigger] path[k] as int, path[k + 1] as int) by {
        lemma_dep_edge(specs, sd, nm, cm, adj, g, path[k] as int, path[k + 1] as int);
    }
    assert(depends(sd, nm, cm, path[0] as int, path[1] as int));
}

/// The dependency graph built for `specs` has no cycle once it has a
/// topological order containing every definition.
#[verifier::rlimit(50)]
proof fn lemma_build_acyclic(
    specs: Seq<BeanSpec>,
    sd: Seq<BeanSpecM>,
    nm: Seq<Seq<char>>,
    cm: Seq<Seq<char>>,
    adj: Seq<Vec<usize>>,
    g: Seq<Seq<usize>>,
    order: Seq<usize>,
    path: Seq<usize>,
)
    requires
        sd.len() == specs.len(),
        forall|a: int| 0 <= a < specs.len() ==> #[trigger] sd[a] == specs[a].deep_view(),
        g.len() == adj.len(),
        forall|a: int| 0 <= a < adj.len() ==> #[trigger] g[a] == adj[a]@,
        specs.len() <= adj.len(),
        forall|a: int| 0 <= a < specs.len() ==> #[trigger] adj[a]@.len() == specs[a].dependencies@.len(),
        forall|a: int| specs.len() <= a < adj.len() ==> #[trigger] adj[a]@.len() == 0,
        forall|a: int, k: int|
            0 <= a < specs.len() && 0 <= k < specs[a].dependencies@.len() ==> #[trigger] adj[a]@[k] == index_of(
                nm,
                wired_name(nm, cm, specs[a].dependencies@[k].ty@),
            ),
        is_topological(g, order),
        forall|i: int| 0 <= i < specs.len() ==> #[trigger] order.contains(i as usize),
    ensures
        !is_dep_cycle(sd, nm, cm, path),
{
    if is_dep_cycle(sd, nm, cm, path) {
        lemma_dep_cycle_edges(specs, sd, nm, cm, adj, g, path);
        let p0 = path[0] as int;
        assert(order.contains(p0 as usize));
        crate::runtime::toposort::lemma_topological_acyclic(g, order, path);
    }
}

/// Definitions `defs` stand in dependency order for the declarations `sd`.
pub open spec fn defs_of(defs: Seq<BeanSpec>, sd: Seq<BeanSpecM>, names: Seq<Seq<char>>) -> bool {
    forall|x: int| 0 <= x < defs.len() ==> #[trigger] defs[x].deep_view() == sd[index_of(names, defs[x].name@)]
}

proof fn lemma_bvf_scan(defs: Seq<BeanSpec>, nm: Seq<Seq<char>>, cm: Seq<Seq<char>>, q: int, k: int, kk: int)
    requires
        0 <= k <= kk,
        boot_violation_from(defs, nm, cm, q, kk) is Some,
    ensures
        boot_violation_from(defs, nm, cm, q, k) is Some,
    decreases kk - k,
{
    if k < kk {
        lemma_bvf_scan(defs, nm, cm, q, k + 1, kk);
    }
}

/// Dependency `k` of definition `q`, wired to definition `j`, is an edge
/// between their declarations.
proof fn lemma_def_edge(
    defs: Seq<BeanSpec>,
    sd: Seq<BeanSpecM>,
    nm: Seq<Seq<char>>,
    cm: Seq<Seq<char>>,
    q: int,
    k: int,
    j: int,
)
    requires
        defs_of(defs, sd, nm),
        0 <= q < defs.len(),
        0 <= j < defs.len(),
        0 <= k < defs[q].dependencies@.len(),
        defs[j].name@ == wired_name(nm, cm, defs[q].dependencies@[k].ty@),
        0 <= index_of(nm, defs[q].name@) < sd.len(),
    ensures
        depends(sd, nm, cm, index_of(nm, defs[q].name@), index_of(nm, defs[j].name@)),
        sd[index_of(nm, defs[j].name@)].scope == defs[j].scope,
        sd[index_of(nm, defs[j].name@)].name == defs[j].name@,
        sd[index_of(nm, defs[q].name@)].scope == defs[q].scope,
{
    let a = index_of(nm, defs[q].name@);
    assert(sd[a] == defs[q].deep_view());
    assert(defs[q].dependencies.deep_view()[k] == defs[q].dependencies@[k].deep_view());
    assert(sd[a].dependencies[k] == defs[q].dependencies@[k].deep_view());
    assert(sd[a].dependencies.len() == defs[q].dependencies@.len());
    assert(sd[index_of(nm, defs[j].name@)] == defs[j].deep_view());
    assert(index_of(nm, wired_name(nm, cm, sd[a].dependencies[k].ty)) == index_of(nm, defs[j].name@));
}

/// A scope violation found while constructing definition `q` at boot is a
/// chain of declarations from `q` to the request-scoped bean reported.
proof fn lemma_violation_sound(
    defs: Seq<BeanSpec>,
    sd: Seq<BeanSpecM>,
    nm: Seq<Seq<char>>,
    cm: Seq<Seq<char>>,
    index: TypeIndex,
    nspecs: int,
    q: int,
    k: int,
) -> (path: Seq<int>)
    requires
        decls_wf(defs, nm, cm, index, nspecs),
        sd.len() == nspecs,
        defs_of(defs, sd, nm),
        0 <= q < defs.len(),
        0 <= k,
        boot_violation_from(defs, nm, cm, q, k) is Some,
    ensures
        request_path(sd, nm, cm, path),
        path[0] == index_of(nm, defs[q].name@),
        boot_violation_from(defs, nm, cm, q, k) == Some(sd[path.last()].name),
    decreases q, defs[q].dependencies@.len() - k,
{
    let a = index_of(nm, defs[q].name@);
    let w = wired_name(nm, cm, defs[q].dependencies@[k].ty@);
    lemma_def_named_found(defs, w, 0);
    match dep_def(defs, nm, cm, q, k) {
        Some(j) => {
            if 0 <= j < q && defs[j].scope == Scope::Request {
                lemma_def_edge(defs, sd, nm, cm, q, k, j);
                let b = index_of(nm, defs[j].name@);
                let path = seq![a, b];
                assert(depends(sd, nm, cm, path[0], path[1]));
                assert(path.last() == b);
                path
            } else if 0 <= j < q && defs[j].scope == Scope::Prototype && boot_violation_from(defs, nm, cm, j, 0) is Some {
                lemma_def_edge(defs, sd, nm, cm, q, k, j);
                let b = index_of(nm, defs[j].name@);
                let sub = lemma_violation_sound(defs, sd, nm, cm, index, nspecs, j, 0);
                let path = seq![a] + sub;
                assert(path[0] == a);
                assert forall|x: int| 0 <= x < path.len() implies 0 <= #[trigger] path[x] < sd.len() by {
                    if x > 0 {
                        assert(path[x] == sub[x - 1]);
                    }
                }
                assert forall|x: int| 0 <= x < path.len() - 1 implies #[trigger] depends(sd, nm, cm, path[x], path[x + 1]) by {
                    if x > 0 {
                        assert(path[x] == sub[x - 1]);
                        assert(path[x + 1] == sub[x]);
                        assert(depends(sd, nm, cm, sub[x - 1], sub[x - 1 + 1]));
                    } else {
                        assert(path[1] == sub[0]);
                    }
                }
                assert forall|x: int| 0 < x < path.len() - 1 implies sd[#[trigger] path[x]].scope == Scope::Prototype by {
                    assert(path[x] == sub[x - 1]);
                    if x == 1 {
                        assert(sub[0] == b);
                    }
                }
                assert(path.last() == sub.last());
                path
            } else {
                lemma_violation_sound(defs, sd, nm, cm, index, nspecs, q, k + 1)
            }
        },
        None => lemma_violation_sound(defs, sd, nm, cm, index, nspecs, q, k + 1),
    }
}

/// Constructing at boot a definition from which a chain of declarations
/// leads to a request-scoped bean reports a scope violation.
proof fn lemma_violation_complete(
    defs: Seq<BeanSpec>,
    sd: Seq<BeanSpecM>,
    nm: Seq<Seq<char>>,
    cm: Seq<Seq<char>>,
    index: TypeIndex,
    nspecs: int,
    q: int,
    path: Seq<int>,
)
    requires
        decls_wf(defs, nm, cm, index, nspecs),
        sd.len() == nspecs,
        defs_of(defs, sd, nm),
        0 <= q < defs.len(),
        request_path(sd, nm, cm, path),
        path[0] == index_of(nm, defs[q].name@),
    ensures
        boot_violation_from(defs, nm, cm, q, 0) is Some,
    decreases path.len(),
{
    let a = path[0];
    let b = path[1];
    assert(depends(sd, nm, cm, path[0], path[1]));
    assert(0 <= path[1] < sd.len());
    let kk = choose|kk: int|
        0 <= kk < sd[a].dependencies.len() && index_of(nm, wired_name(nm, cm, #[trigger] sd[a].dependencies[kk].ty)) == b;
    assert(sd[a] == defs[q].deep_view());
    assert(defs[q].dependencies.deep_view()[kk] == defs[q].dependencies@[kk].deep_view());
    assert(sd[a].dependencies.len() == defs[q].dependencies@.len());
    let ty = defs[q].dependencies@[kk].ty@;
    assert(sd[a].dependencies[kk].ty == ty);
    let w = wired_name(nm, cm, ty);
    assert(type_names(nm, cm, defs[q].dependencies@[kk].ty@).len() == 1);
    lemma_type_names_mem(nm, cm, ty);
    crate::runtime::wiring::lemma_index_of(nm, w);
    assert(nm[b] == w);
    assert(has_def(defs, nm[b]));
    let j = choose|j: int| 0 <= j < defs.len() && #[trigger] defs[j].name@ == nm[b];
    lemma_def_named(defs, w, 0, j);
    // definitions come after the ones they depend on
    assert(defs[j].name@ == wired_name(nm, cm, defs[q].dependencies@[kk].ty@));
    lemma_def_edge(defs, sd, nm, cm, q, kk, j);
    assert(index_of(nm, defs[j].name@) == b);
    if path.len() == 2 {
        assert(path.last() == b);
        assert(defs[j].scope == Scope::Request);
    } else {
        assert(sd[path[1]].scope == Scope::Prototype);
        let sub = path.drop_first();
        assert forall|x: int| 0 <= x < sub.len() implies 0 <= #[trigger] sub[x] < sd.len() by {
            assert(sub[x] == path[x + 1]);
        }
        assert forall|x: int| 0 <= x < sub.len() - 1 implies #[trigger] depends(sd, nm, cm, sub[x], sub[x + 1]) by {
            assert(sub[x] == path[x + 1]);
            assert(sub[x + 1] == path[x + 1 + 1]);
            assert(depends(sd, nm, cm, path[x + 1], path[x + 1 + 1]));
        }
        assert forall|x: int| 0 < x < sub.len() - 1 implies sd[#[trigger] sub[x]].scope == Scope::Prototype by {
            assert(sub[x] == path[x + 1]);
        }
        assert(sub.last() == path.last());
        lemma_violation_complete(defs, sd, nm, cm, index, nspecs, j, sub);
    }
    assert(boot_violation_from(defs, nm, cm, q, kk) is Some);
    lemma_bvf_scan(defs, nm, cm, q, 0, kk);
}

/// Definitions in dependency order hold as many singletons as the
/// declarations they reorder.
proof fn lemma_defs_singletons(
    defs: Seq<BeanSpec>,
    dv: Seq<BeanSpecM>,
    sd: Seq<BeanSpecM>,
    nm: Seq<Seq<char>>,
    cm: Seq<Seq<char>>,
    index: TypeIndex,
    nspecs: int,
)
    requires
        decls_wf(defs, nm, cm, index, nspecs),
        defs_of(defs, sd, nm),
        sd.len() == nspecs,
        dv.len() == defs.len(),
        forall|q: int| 0 <= q < defs.len() ==> #[trigger] dv[q] == defs[q].deep_view(),
        forall|u: int| 0 <= u < sd.len() ==> #[trigger] nm[u] == sd[u].name,
    ensures
        singleton_count(dv) == singleton_count(sd),
{
    lemma_singleton_names(dv);
    lemma_singleton_names(sd);
    assert forall|a: int, b: int| 0 <= a < b < dv.len() implies #[trigger] dv[a].name != #[trigger] dv[b].name by {
        assert(dv[a] == defs[a].deep_view());
        assert(dv[b] == defs[b].deep_view());
    }
    assert forall|a: int, b: int| 0 <= a < b < sd.len() implies #[trigger] sd[a].name != #[trigger] sd[b].name by {
        assert(nm[a] == sd[a].name);
        assert(nm[b] == sd[b].name);
        assert(nm.no_duplicates());
    }
    assert forall|n: Seq<char>| singleton_names(dv).contains(n) implies singleton_names(sd).contains(n) by {
        let q = choose|q: int| 0 <= q < dv.len() && #[trigger] dv[q].name == n && dv[q].scope == Scope::Singleton;
        assert(dv[q] == defs[q].deep_view());
        let i = index_of(nm, defs[q].name@);
        assert(0 <= i < nspecs);
        assert(sd[i] == defs[q].deep_view());
        assert(sd[i].name == n);
    }
    assert forall|n: Seq<char>| singleton_names(sd).contains(n) implies singleton_names(dv).contains(n) by {
        let i = choose|i: int| 0 <= i < sd.len() && #[trigger] sd[i].name == n && sd[i].scope == Scope::Singleton;
        assert(nm[i] == sd[i].name);
        assert(has_def(defs, nm[i]));
        let q = choose|q: int| 0 <= q < defs.len() && #[trigger] defs[q].name@ == nm[i];
        lemma_index_unique(nm, i);
        assert(sd[i] == defs[q].deep_view());
        assert(dv[q] == defs[q].deep_view());
        assert(dv[q].name == n);
    }
    assert(singleton_names(dv) =~= singleton_names(sd));
}

impl BeanRegistry {
    /// Builds a fully-wired registry: checks names, resolves every
    /// dependency by type, orders the definitions dependency-first (or
    /// reports a cycle), then constructs the singletons in that order.
    /// Prototype and request-scoped beans are deferred to resolution time.
    #[verifier::rlimit(60)]
    pub fn build(specs: &[BeanSpec], natives: Vec<NativeDef>) -> (r: Result<Self, DIError>)
        ensures
            build_outcome(specs.deep_view(), natives@, r),
    {
        let (names, classes) = declarations(specs, &natives);
        let ghost nm = names.deep_view();
        let ghost cm = classes.deep_view();
        match find_duplicate(&names) {
            Some(d) => {
                return Err(DIError::Duplicate(d));
            },
            None => {},
        }
        proof {
            lemma_first_dup_none(nm, 0);
            assert(nm.no_duplicates());
            assert forall|u: int| 0 <= u < specs@.len() implies #[trigger] nm[u] == specs@[u].name@ by {}
        }
        let index = build_type_index(&names, &classes);
        let adj = match build_graph(specs, &names, &classes, &index) {
            Ok(a) => a,
            Err(e) => {
                return Err(e);
            },
        };
        let order = match topological_order(&adj, specs.len()) {
            Ok(o) => o,
            Err(path) => {
                let mut parts: Vec<String> = Vec::new();
                let mut k: usize = 0;
                while k < path.len()
                    invariant
                        k <= path@.len(),
                        nm == names.deep_view(),
                        adj@.len() == names@.len(),
                        is_cycle(adj.deep_view(), path@),
                        graph_wf(adj.deep_view()),
                        parts.deep_view() == path_names(nm, path@.take(k as int)),
                    decreases path.len() - k,
                {
                    assert(path@[k as int] < names@.len()) by {
                        if k + 1 < path@.len() {
                            assert(crate::runtime::toposort::is_edge(adj.deep_view(), path@[k as int] as int, path@[k + 1] as int));
                        } else {
                            assert(crate::runtime::toposort::is_edge(adj.deep_view(), path@[0] as int, path@[1] as int));
                            let j = choose|j: int| 0 <= j < adj.deep_view()[path@[0] as int].len() && adj.deep_view()[path@[0] as int][j] == path@[1];
                            assert(adj.deep_view()[path@[0] as int][j] < adj.deep_view().len());
                        }
                    }
                    push_dv(&mut parts, copy_string(&names[path[k]]));
                    assert(path_names(nm, path@.take(k + 1)) =~= path_names(nm, path@.take(k as int)).push(nm[path@[k as int] as int]));
                    k = k + 1;
                }
                let joined = join_strings(&parts, " -> ");
                proof {
                    assert(path@.take(path@.len() as int) =~= path@);
                    let g = adj.deep_view();
                    let sd = specs.deep_view();
                    assert forall|k: int| 0 <= k < path@.len() - 1 implies depends(sd, nm, cm, #[trigger] path@[k] as int, path@[k + 1] as int) by {
                        let a = path@[k] as int;
                        let b = path@[k + 1];
                        assert(crate::runtime::toposort::is_edge(g, a, b as int));
                        let j = choose|j: int| 0 <= j < g[a].len() && g[a][j] == b;
                        assert(g[a] == adj@[a]@);
                        assert(a < specs@.len());
                        assert(adj@[a]@[j] == b);
                        assert(sd[a] == specs@[a].deep_view());
                        assert(sd[a].dependencies[j] == specs@[a].dependencies@[j].deep_view());
                        assert(index_of(nm, wired_name(nm, cm, sd[a].dependencies[j].ty)) == b);
                    }
                    assert(is_dep_cycle(sd, nm, cm, path@));
                }
                return Err(DIError::Cycle(joined));
            },
        };
        proof {
            assert forall|a: int| 0 <= a < adj@.len() implies #[trigger] adj.deep_view()[a] == adj@[a]@ by {
                assert(adj.deep_view()[a] =~= adj@[a]@);
            }
            assert forall|a: int| 0 <= a < specs@.len() implies #[trigger] specs.deep_view()[a] == specs@[a].deep_view() by {}
            assert forall|path: Seq<usize>| !is_dep_cycle(specs.deep_view(), nm, cm, path) by {
                lemma_build_acyclic(specs@, specs.deep_view(), nm, cm, adj@, adj.deep_view(), order@, path);
            }
        }
        let definitions = order_definitions(specs, &order, &adj, &names, &classes);
        let nspecs = specs.len();
        proof {
            assert forall|x: int| 0 <= x < definitions@.len() implies #[trigger] definitions@[x].deep_view()
                == specs.deep_view()[index_of(nm, definitions@[x].name@)] by {
                assert(0 <= index_of(nm, definitions@[x].name@) < specs@.len());
            }
            assert(defs_of(definitions@, specs.deep_view(), nm));
        }
        let nat_count = natives.len();
        let ghost nats = natives@;
        let mut singletons = native_beans(natives);
        proof {
            assert forall|q: int| 0 <= q < singletons@.len() implies (#[trigger] singletons@[q]).0@ == nm[nspecs + q] by {}
        }
        match build_singletons(&definitions, &names, &classes, nspecs, &index, &mut singletons) {
            Ok(()) => {},
            Err(e) => {
                proof {
                    let id = e@->id;
                    let sd = specs.deep_view();
                    let j = choose|j: int| 0 <= j < definitions@.len() && definitions@[j].scope == Scope::Singleton
                        && #[trigger] boot_violation_from(definitions@, nm, cm, j, 0) == Some(id);
                    let path = lemma_violation_sound(definitions@, sd, nm, cm, index, nspecs as int, j, 0);
                    let i = index_of(nm, definitions@[j].name@);
                    assert(sd[i] == definitions@[j].deep_view());
                    assert(boot_scope_violation(sd, nm, cm, path));
                }
                return Err(e);
            },
        }
        let reg = BeanRegistry { singletons, definitions, by_type: index, names, classes, nspecs };
        proof {
            let beans = reg.singletons@;
            assert forall|i: int| 0 <= i < nats.len() implies native_registered(beans, #[trigger] nats[i]) by {
                lemma_lookup_at(beans, i, nats[i].name@);
            }
            assert forall|i: int| 0 <= i < specs@.len() implies spec_registered(beans, #[trigger] specs@[i].deep_view(), nm, cm) by {
                assert(has_def(reg.definitions@, nm[i]));
                let j = choose|j: int| 0 <= j < reg.definitions@.len() && #[trigger] reg.definitions@[j].name@ == nm[i];
                lemma_index_unique(nm, i);
                assert(reg.definitions@[j].deep_view() == specs@[i].deep_view());
                assert(reg.definitions@[j].scope == specs@[i].scope);
                lemma_dep_ty(reg.definitions@[j], specs@[i], 0);
            }
            assert forall|n: Seq<char>| #[trigger] lookup_bean(beans, n) is Some implies nm.contains(n) by {
                lemma_lookup_which(beans, n);
                let q = choose|q: int| 0 <= q < beans.len() && beans[q].0@ == n && lookup_bean(beans, n) == Some(*(#[trigger] beans[q]).1);
                assert(nm.contains(beans[q].0@));
            }
            let sd = specs.deep_view();
            let defs = reg.definitions@;
            assert forall|path: Seq<int>| !#[trigger] boot_scope_violation(sd, nm, cm, path) by {
                if boot_scope_violation(sd, nm, cm, path) {
                    let a = path[0];
                    assert(0 <= path[0] < sd.len());
                    assert(has_def(defs, nm[a]));
                    let q = choose|q: int| 0 <= q < defs.len() && #[trigger] defs[q].name@ == nm[a];
                    lemma_index_unique(nm, a);
                    lemma_violation_complete(defs, sd, nm, cm, reg.by_type, nspecs as int, q, path);
                    assert(sd[a] == defs[q].deep_view());
                    assert(defs[q].scope == Scope::Singleton);
                }
            }
            // the singletons built are those of the definitions, a reordering of `specs`
            assert forall|u: int| 0 <= u < sd.len() implies #[trigger] nm[u] == sd[u].name by {
                assert(sd[u] == specs@[u].deep_view());
            }
            lemma_defs_singletons(defs, reg.definitions.deep_view(), sd, nm, cm, reg.by_type, nspecs as int);
        }
        Ok(reg)
    }
}

// ---------------------------------------------------------------------------
// Per-request resolution
// ---------------------------------------------------------------------------

/// Per-request resolution context: request-scoped beans are constructed
/// once per request and cached here.
pub struct RequestContext<'a> {
    registry: &'a BeanRegistry,
    local: Vec<(String, Arc<Bean>)>,
}

impl<'a> RequestContext<'a> {
    #[verifier::type_invariant]
    spec fn inv(&self) -> bool {
        &&& entries_wf(self.local@)
        &&& cache_ok(
            self.registry.definitions@,
            self.registry.names.deep_view(),
            self.registry.classes.deep_view(),
            self.registry.singletons@,
            self.local@,
        )
    }

    /// The registry beans are resolved against.
    pub closed spec fn reg(&self) -> BeanRegistry {
        *self.registry
    }

    /// The request-scoped beans built so far.
    pub closed spec fn cached(&self) -> Seq<(String, Arc<Bean>)> {
        self.local@
    }

    pub fn new(registry: &'a BeanRegistry) -> (r: Self)
        ensures
            r.reg() == *registry,
            r.cached().len() == 0,
    {
        RequestContext { registry, local: Vec::new() }
    }

    /// Resolves the bean of a class: exactly one bean must have it.
    pub fn resolve_by_type(&mut self, class_name: &str) -> (r: Result<Arc<Bean>, DIError>)
        ensures
            final(self).reg() == old(self).reg(),
            ({
                let ns = type_names(old(self).reg().decl_names(), old(self).reg().decl_classes(), class_name@);
                &&& ns.len() == 0 ==> (r matches Err(e) && e@ == DIErrorM::NoSuchBean(class_name@))
                &&& ns.len() > 1 ==> (r matches Err(e) && e@ == DIErrorM::Ambiguous(class_name@, join(ns, ", "@)))
                &&& ns.len() == 1 ==> (r matches Ok(x) && x.name@ == ns[0] && registry_bean(old(self).reg(), ns[0], *x))
            }),
    {
        proof {
            use_type_invariant(self.registry);
            use_type_invariant(&*self);
        }
        let registry = self.registry;
        let ghost nm = registry.names.deep_view();
        let ghost cm = registry.classes.deep_view();
        let ghost ns = type_names(nm, cm, class_name@);
        let i = match registry.by_type.find(class_name) {
            Some(i) => i,
            None => {
                proof {
                    if ns.len() > 0 {
                        let j = choose|j: int| 0 <= j < registry.by_type.keys@.len() && registry.by_type.keys@[j]@ == class_name@;
                    }
                }
                return Err(DIError::NoSuchBean(string_of(class_name)));
            },
        };
        let list = &registry.by_type.lists[i];
        assert(list.deep_view() == ns);
        if list.len() == 0 {
            return Err(DIError::NoSuchBean(string_of(class_name)));
        }
        if list.len() > 1 {
            return Err(DIError::Ambiguous(string_of(class_name), join_strings(list, ", ")));
        }
        let name = copy_string(&list[0]);
        assert(name@ == ns[0]) by {
            assert(list.deep_view()[0] == list@[0]@);
        }
        proof {
            lemma_type_names_mem(nm, cm, class_name@);
            crate::runtime::wiring::lemma_index_of(nm, name@);
            let wi = index_of(nm, name@);
            if wi >= registry.nspecs {
                assert(lookup_bean(registry.singletons@, nm[wi]) is Some);
            }
            lemma_lookup_in(registry.singletons@, name@);
        }
        self.resolve(name.as_str())
    }

    /// Resolves a bean by name: the singleton, or a fresh prototype, or
    /// this request's instance of a request-scoped bean.
    pub fn resolve(&mut self, name: &str) -> (r: Result<Arc<Bean>, DIError>)
        ensures
            final(self).reg() == old(self).reg(),
            match lookup_bean(old(self).reg().beans(), name@) {
                Some(b) => r matches Ok(x) && *x == b,
                None => if has_def(old(self).reg().defs(), name@) {
                    r matches Ok(x) && x.name@ == name@ && (exists|j: int|
                        0 <= j < old(self).reg().defs().len() && (#[trigger] old(self).reg().defs()[j]).name@ == name@
                            && bean_built(
                            old(self).reg().defs()[j].deep_view(),
                            *x,
                            old(self).reg().decl_names(),
                            old(self).reg().decl_classes(),
                            old(self).reg().beans(),
                        )) && (lookup_bean(old(self).cached(), name@) matches Some(c) ==> *x == c)
                } else {
                    r matches Err(e) && e@ == DIErrorM::NoSuchBean(name@)
                },
            },
    {
        proof {
            use_type_invariant(&*self);
            use_type_invariant(self.registry);
        }
        let registry = self.registry;
        match registry.get(name) {
            Some(b) => {
                return Ok(b);
            },
            None => {},
        }
        let j = match find_def(&registry.definitions, name) {
            Some(j) => j,
            None => {
                proof {
                    if has_def(registry.definitions@, name@) {
                        let j = choose|j: int| 0 <= j < registry.definitions@.len() && #[trigger] registry.definitions@[j].name@ == name@;
                        assert(registry.definitions@[j].name@ != name@);
                    }
                }
                return Err(DIError::NoSuchBean(string_of(name)));
            },
        };
        let ghost defs = registry.definitions@;
        match registry.definitions[j].scope {
            Scope::Singleton => {
                proof {
                    assert(lookup_bean(registry.singletons@, defs[j as int].name@) is Some);
                }
                Err(DIError::NoSuchBean(string_of(name)))
            },
            Scope::Prototype => {
                let mut local = Vec::new();
                std::mem::swap(&mut local, &mut self.local);
                let r = construct_bean(
                    &registry.definitions,
                    j,
                    &registry.names,
                    &registry.classes,
                    registry.nspecs,
                    &registry.by_type,
                    &registry.singletons,
                    &mut local,
                    true,
                );
                self.local = local;
                match r {
                    Ok(b) => {
                        proof {
                            let od = old(self).reg().defs();
                            assert(od[j as int].name@ == name@);
                            let oc = old(self).cached();
                            if lookup_bean(oc, name@) is Some {
                                lemma_lookup_which(oc, name@);
                                let q = choose|q: int| 0 <= q < oc.len() && oc[q].0@ == name@ && lookup_bean(oc, name@) == Some(*(#[trigger] oc[q]).1);
                                let j2 = choose|j2: int|
                                    0 <= j2 < defs.len() && #[trigger] defs[j2].name@ == (#[trigger] oc[q]).0@
                                        && defs[j2].scope == Scope::Request && bean_built(
                                        defs[j2].deep_view(),
                                        *oc[q].1,
                                        registry.names.deep_view(),
                                        registry.classes.deep_view(),
                                        registry.singletons@,
                                    );
                                if j2 != j {
                                    if j2 < j {
                                        assert(defs[j2].name@ != defs[j as int].name@);
                                    } else {
                                        assert(defs[j as int].name@ != defs[j2].name@);
                                    }
                                }
                            }
                        }
                        Ok(b)
                    },
                    Err(e) => {
                        proof {
                            assert(false);
                        }
                        Err(e)
                    },
                }
            },
            Scope::Request => {
                match find_entry(&self.local, name) {
                    Some(e) => {
                        proof {
                            assert((*self.local@[e as int].1).name@ == self.local@[e as int].0@);
                            let q = e as int;
                            assert(exists|j2: int|
                                0 <= j2 < defs.len() && #[trigger] defs[j2].name@ == (#[trigger] self.local@[q]).0@
                                    && defs[j2].scope == Scope::Request && bean_built(
                                    defs[j2].deep_view(),
                                    *self.local@[q].1,
                                    registry.names.deep_view(),
                                    registry.classes.deep_view(),
                                    registry.singletons@,
                                ));
                            lemma_lookup_at_first(self.local@, q, name@);
                            let j2 = choose|j2: int|
                                0 <= j2 < defs.len() && #[trigger] defs[j2].name@ == (#[trigger] self.local@[q]).0@
                                    && defs[j2].scope == Scope::Request && bean_built(
                                    defs[j2].deep_view(),
                                    *self.local@[q].1,
                                    registry.names.deep_view(),
                                    registry.classes.deep_view(),
                                    registry.singletons@,
                                );
                            let od = old(self).reg().defs();
                            assert(od[j2].name@ == name@);
                        }
                        return Ok(share(&self.local[e].1));
                    },
                    None => {},
                }
                let mut local = Vec::new();
                std::mem::swap(&mut local, &mut self.local);
                let r = construct_bean(
                    &registry.definitions,
                    j,
                    &registry.names,
                    &registry.classes,
                    registry.nspecs,
                    &registry.by_type,
                    &registry.singletons,
                    &mut local,
                    true,
                );
                let b = match r {
                    Ok(b) => b,
                    Err(e) => {
                        proof {
                            assert(false);
                        }
                        self.local = local;
                        return Err(e);
                    },
                };
                let ghost l0 = local@;
                local.push((string_of(name), share(&b)));
                proof {
                    assert forall|q: int| 0 <= q < local@.len() implies (*(#[trigger] local@[q]).1).name@ == local@[q].0@ by {
                        if q < l0.len() {
                            assert(local@[q] == l0[q]);
                        }
                    }
                    assert forall|q: int| 0 <= q < local@.len() implies exists|j2: int|
                        0 <= j2 < defs.len() && #[trigger] defs[j2].name@ == (#[trigger] local@[q]).0@
                            && defs[j2].scope == Scope::Request && bean_built(
                            defs[j2].deep_view(),
                            *local@[q].1,
                            registry.names.deep_view(),
                            registry.classes.deep_view(),
                            registry.singletons@,
                        ) by {
                        if q < l0.len() {
                            assert(local@[q] == l0[q]);
                        } else {
                            assert(defs[j as int].name@ == local@[q].0@);
                        }
                    }
                }
                self.local = local;
                proof {
                    let od = old(self).reg().defs();
                    assert(od[j as int].name@ == name@);
                }
                Ok(b)
            },
        }
    }
}

} // verus!
