//! Route and bean compilation, and the interpreter for compiled method bodies.
use std::collections::HashMap;
use vstd::prelude::*;
use crate::compiler::ast::{
    Annotation, AnnotationM, CallArg, CallArgM, ClassDecl, ClassM, Expr, ExprM, FieldDecl,
    FieldM, JavaFile, FileM, MethodDecl, MethodM, Operand, OperandM, Param, ParamM,
    lemma_dv_step, lemma_dv_skip0, push_dv, find_annotation, find_annotation_exec,
    lemma_find_annotation, first_value_of, named_of, values_of, named_all_of,
    is_injection_point_m, has_annotation,
};
use crate::text::{
    copy_string, copy_opt_string, new_string, push_str, string_of, str_eq, chars_of,
    string_from_chars, trim_end_char, trim_start_char, trim_end_char_exec, trim_start_char_exec,
    extend_chars, ascii_lower_seq, to_ascii_lowercase, lowercase_char, char_lowercase,
    string_of_range, copy_strings, is_prefix, starts_with_chars,
};

verus! {

/// A route ready to be installed into the runtime's dispatch table.
#[derive(Debug, Clone)]
pub struct CompiledRoute {
    pub http_method: String,
    pub path: String,
    pub class_name: String,
    pub method_name: String,
    /// Declaring class's package — used by @ComponentScan filtering.
    pub package: Option<String>,
    pub params: Vec<ParamBinding>,
    pub implementation: MethodImpl,
}

#[derive(Debug, Clone)]
pub struct ParamBinding {
    /// Java parameter name used inside the method body.
    pub param: String,
    /// Query-string key it is bound from.
    pub query_key: String,
    pub required: bool,
}

/// The executable form of a Java method body.
#[derive(Debug, Clone)]
pub enum MethodImpl {
    /// `return "constant";` (or a literal-only concatenation).
    Constant(String),
    /// `return "a" + param + service.call(x) + "b";`
    Template(Vec<Part>),
    /// Declared but outside the interpreter subset; serves HTTP 501.
    Unimplemented(String),
}

#[derive(Debug, Clone)]
pub enum Part {
    Lit(String),
    Param(String),
    /// A call on an injected field, resolved through the bean context.
    Call { receiver: String, method: String, args: Vec<CallArg> },
}

#[derive(Debug)]
pub enum EvalError {
    MissingParam(String),
    Unimplemented(String),
}

// ---------------------------------------------------------------------------
// Models
// ---------------------------------------------------------------------------

pub struct RouteM {
    pub http_method: Seq<char>,
    pub path: Seq<char>,
    pub class_name: Seq<char>,
    pub method_name: Seq<char>,
    pub package: Option<Seq<char>>,
    pub params: Seq<ParamBindingM>,
    pub implementation: MethodImplM,
}

pub struct ParamBindingM {
    pub param: Seq<char>,
    pub query_key: Seq<char>,
    pub required: bool,
}

pub enum MethodImplM {
    Constant(Seq<char>),
    Template(Seq<PartM>),
    Unimplemented(Seq<char>),
}

pub enum PartM {
    Lit(Seq<char>),
    Param(Seq<char>),
    Call { receiver: Seq<char>, method: Seq<char>, args: Seq<CallArgM> },
}

pub enum EvalErrorM {
    MissingParam(Seq<char>),
    Unimplemented(Seq<char>),
}

impl DeepView for ParamBinding {
    type V = ParamBindingM;

    open spec fn deep_view(&self) -> ParamBindingM {
        ParamBindingM { param: self.param@, query_key: self.query_key@, required: self.required }
    }
}

impl DeepView for Part {
    type V = PartM;

    open spec fn deep_view(&self) -> PartM {
        match self {
            Part::Lit(s) => PartM::Lit(s@),
            Part::Param(s) => PartM::Param(s@),
            Part::Call { receiver, method, args } => PartM::Call {
                receiver: receiver@,
                method: method@,
                args: args.deep_view(),
            },
        }
    }
}

impl DeepView for MethodImpl {
    type V = MethodImplM;

    open spec fn deep_view(&self) -> MethodImplM {
        match self {
            MethodImpl::Constant(s) => MethodImplM::Constant(s@),
            MethodImpl::Template(parts) => MethodImplM::Template(parts.deep_view()),
            MethodImpl::Unimplemented(s) => MethodImplM::Unimplemented(s@),
        }
    }
}

impl DeepView for CompiledRoute {
    type V = RouteM;

    open spec fn deep_view(&self) -> RouteM {
        RouteM {
            http_method: self.http_method@,
            path: self.path@,
            class_name: self.class_name@,
            method_name: self.method_name@,
            package: self.package.deep_view(),
            params: self.params.deep_view(),
            implementation: self.implementation.deep_view(),
        }
    }
}

impl View for EvalError {
    type V = EvalErrorM;

    open spec fn view(&self) -> EvalErrorM {
        match self {
            EvalError::MissingParam(s) => EvalErrorM::MissingParam(s@),
            EvalError::Unimplemented(s) => EvalErrorM::Unimplemented(s@),
        }
    }
}

/// The model of an evaluation outcome.
pub open spec fn outcome(r: Result<String, EvalError>) -> Result<Seq<char>, EvalErrorM> {
    match r {
        Ok(s) => Ok(s@),
        Err(e) => Err(e@),
    }
}

/// The text an evaluation error displays.
pub open spec fn eval_error_text(e: EvalErrorM) -> Seq<char> {
    match e {
        EvalErrorM::MissingParam(p) => "missing required parameter '"@ + p + "'"@,
        EvalErrorM::Unimplemented(w) => w,
    }
}

impl EvalError {
    /// The error's message, as its `Display` renders it.
    pub fn message(&self) -> (r: String)
        ensures
            r@ == eval_error_text(self@),
    {
        match self {
            EvalError::MissingParam(p) => {
                let mut s = string_of("missing required parameter '");
                push_str(&mut s, p.as_str());
                push_str(&mut s, "'");
                s
            },
            EvalError::Unimplemented(w) => copy_string(w),
        }
    }
}

// ---------------------------------------------------------------------------
// Request arguments
// ---------------------------------------------------------------------------

/// The contents of a string-keyed argument map, keys and values as text.
pub uninterp spec fn string_map(m: HashMap<String, String>) -> Map<Seq<char>, Seq<char>>;

/// Calls `HashMap::get` with a `&str` key.
#[verifier::external_body]
pub(crate) fn arg_get<'a>(m: &'a HashMap<String, String>, k: &str) -> (r: Option<&'a String>)
    ensures
        match r {
            Some(v) => string_map(*m).contains_key(k@) && v@ == string_map(*m)[k@],
            None => !string_map(*m).contains_key(k@),
        },
{
    m.get(k)
}

// ---------------------------------------------------------------------------
// Bean contexts
// ---------------------------------------------------------------------------

/// How a method under evaluation reaches other beans. The runtime's DI
/// registry implements this.
pub trait BeanContext {
    /// Whether `out` is an answer this context may give to a call of
    /// `receiver.method(args)` at the given depth.
    spec fn answers(
        &self,
        receiver: Seq<char>,
        method: Seq<char>,
        args: Seq<Seq<char>>,
        depth: int,
        out: Result<Seq<char>, EvalErrorM>,
    ) -> bool;

    fn call(&self, receiver: &str, method: &str, args: &[String], depth: usize) -> (r: Result<
        String,
        EvalError,
    >)
        ensures
            self.answers(receiver@, method@, args.deep_view(), depth as int, outcome(r)),
    ;
}

/// Evaluation context with no beans.
pub struct NoBeans;

/// The error every call through `NoBeans` gives.
pub open spec fn no_bean_error(receiver: Seq<char>, method: Seq<char>) -> EvalErrorM {
    EvalErrorM::Unimplemented(
        receiver + "."@ + method + "(...): no bean context available"@,
    )
}

impl BeanContext for NoBeans {
    open spec fn answers(
        &self,
        receiver: Seq<char>,
        method: Seq<char>,
        args: Seq<Seq<char>>,
        depth: int,
        out: Result<Seq<char>, EvalErrorM>,
    ) -> bool {
        out == Err::<Seq<char>, EvalErrorM>(no_bean_error(receiver, method))
    }

    fn call(&self, receiver: &str, method: &str, args: &[String], depth: usize) -> (r: Result<
        String,
        EvalError,
    >) {
        let mut s = string_of(receiver);
        push_str(&mut s, ".");
        push_str(&mut s, method);
        push_str(&mut s, "(...): no bean context available");
        Err(EvalError::Unimplemented(s))
    }
}

// ---------------------------------------------------------------------------
// Evaluation
// ---------------------------------------------------------------------------

/// Guard against unbounded recursion through mutually-calling beans.
pub const MAX_CALL_DEPTH: usize = 64;

/// Resolves call arguments left to right, appending to `acc`; the first
/// argument naming a missing parameter fails.
pub open spec fn resolve_args(
    cargs: Seq<CallArgM>,
    args: Map<Seq<char>, Seq<char>>,
    acc: Seq<Seq<char>>,
) -> Result<Seq<Seq<char>>, EvalErrorM>
    decreases cargs.len(),
{
    if cargs.len() == 0 {
        Ok(acc)
    } else {
        match cargs[0] {
            CallArgM::Lit(s) => resolve_args(cargs.drop_first(), args, acc.push(s)),
            CallArgM::Var(p) => if args.contains_key(p) {
                resolve_args(cargs.drop_first(), args, acc.push(args[p]))
            } else {
                Err(EvalErrorM::MissingParam(p))
            },
        }
    }
}

/// A relation between a call `receiver.method(args)` at a depth and an
/// answer a bean context may give to it.
pub type AnswerRel = spec_fn(Seq<char>, Seq<char>, Seq<Seq<char>>, int, Result<Seq<char>, EvalErrorM>) -> bool;

/// The answers `ctx` may give.
pub open spec fn answers_of<C: BeanContext>(ctx: &C) -> AnswerRel {
    |r: Seq<char>, m: Seq<char>, a: Seq<Seq<char>>, d: int, o: Result<Seq<char>, EvalErrorM>|
        ctx.answers(r, m, a, d, o)
}

/// Renders template parts after `acc`, where `outs` lists, in order, the
/// answers the bean context gave to the calls made. `None` when `outs` is
/// not exactly the list of answers of the calls that rendering makes.
pub open spec fn render(
    ans: AnswerRel,
    parts: Seq<PartM>,
    args: Map<Seq<char>, Seq<char>>,
    depth: int,
    outs: Seq<Result<Seq<char>, EvalErrorM>>,
    acc: Seq<char>,
) -> Option<Result<Seq<char>, EvalErrorM>>
    decreases parts.len(),
{
    if parts.len() == 0 {
        if outs.len() == 0 {
            Some(Ok(acc))
        } else {
            None
        }
    } else {
        match parts[0] {
            PartM::Lit(s) => render(ans, parts.drop_first(), args, depth, outs, acc + s),
            PartM::Param(n) => if args.contains_key(n) {
                render(ans, parts.drop_first(), args, depth, outs, acc + args[n])
            } else if outs.len() == 0 {
                Some(Err(EvalErrorM::MissingParam(n)))
            } else {
                None
            },
            PartM::Call { receiver, method, args: cargs } => match resolve_args(
                cargs,
                args,
                Seq::empty(),
            ) {
                Err(e) => if outs.len() == 0 {
                    Some(Err(e))
                } else {
                    None
                },
                Ok(vals) => if outs.len() > 0 && ans(receiver, method, vals, depth, outs[0]) {
                    match outs[0] {
                        Err(e) => if outs.len() == 1 {
                            Some(Err(e))
                        } else {
                            None
                        },
                        Ok(s) => render(
                            ans,
                            parts.drop_first(),
                            args,
                            depth,
                            outs.drop_first(),
                            acc + s,
                        ),
                    }
                } else {
                    None
                },
            },
        }
    }
}

/// What evaluating a method body at `depth` gives, given the answers `outs`
/// of the bean calls it makes (`None` when `outs` are not those answers).
pub open spec fn eval_model(
    ans: AnswerRel,
    imp: MethodImplM,
    args: Map<Seq<char>, Seq<char>>,
    depth: int,
    outs: Seq<Result<Seq<char>, EvalErrorM>>,
) -> Option<Result<Seq<char>, EvalErrorM>> {
    if depth > MAX_CALL_DEPTH {
        if outs.len() == 0 {
            Some(
                Err(
                    EvalErrorM::Unimplemented(
                        "bean call depth limit exceeded (circular call chain?)"@,
                    ),
                ),
            )
        } else {
            None
        }
    } else {
        match imp {
            MethodImplM::Constant(s) => if outs.len() == 0 {
                Some(Ok(s))
            } else {
                None
            },
            MethodImplM::Unimplemented(w) => if outs.len() == 0 {
                Some(Err(EvalErrorM::Unimplemented(w)))
            } else {
                None
            },
            MethodImplM::Template(parts) => render(ans, parts, args, depth + 1, outs, Seq::empty()),
        }
    }
}

/// Rendering when every bean call fails as under `NoBeans`.
pub open spec fn render_without_beans(
    parts: Seq<PartM>,
    args: Map<Seq<char>, Seq<char>>,
    acc: Seq<char>,
) -> Result<Seq<char>, EvalErrorM>
    decreases parts.len(),
{
    if parts.len() == 0 {
        Ok(acc)
    } else {
        match parts[0] {
            PartM::Lit(s) => render_without_beans(parts.drop_first(), args, acc + s),
            PartM::Param(n) => if args.contains_key(n) {
                render_without_beans(parts.drop_first(), args, acc + args[n])
            } else {
                Err(EvalErrorM::MissingParam(n))
            },
            PartM::Call { receiver, method, args: cargs } => match resolve_args(
                cargs,
                args,
                Seq::empty(),
            ) {
                Err(e) => Err(e),
                Ok(vals) => Err(no_bean_error(receiver, method)),
            },
        }
    }
}

/// What evaluating a method body without a bean context gives.
pub open spec fn eval_without_beans(
    imp: MethodImplM,
    args: Map<Seq<char>, Seq<char>>,
) -> Result<Seq<char>, EvalErrorM> {
    match imp {
        MethodImplM::Constant(s) => Ok(s),
        MethodImplM::Unimplemented(w) => Err(EvalErrorM::Unimplemented(w)),
        MethodImplM::Template(parts) => render_without_beans(parts, args, Seq::empty()),
    }
}

/// Under `NoBeans` the answers of the calls are forced, so rendering has
/// one outcome.
pub proof fn lemma_render_without_beans(
    parts: Seq<PartM>,
    args: Map<Seq<char>, Seq<char>>,
    depth: int,
    outs: Seq<Result<Seq<char>, EvalErrorM>>,
    acc: Seq<char>,
)
    ensures
        render(answers_of(&NoBeans), parts, args, depth, outs, acc) matches Some(x) ==> x
            == render_without_beans(parts, args, acc),
    decreases parts.len(),
{
    if parts.len() > 0 {
        match parts[0] {
            PartM::Lit(s) => lemma_render_without_beans(parts.drop_first(), args, depth, outs, acc + s),
            PartM::Param(n) => if args.contains_key(n) {
                lemma_render_without_beans(parts.drop_first(), args, depth, outs, acc + args[n]);
            },
            PartM::Call { .. } => {},
        }
    }
}

proof fn lemma_render_stops(
    ans: AnswerRel,
    parts: Seq<PartM>,
    args: Map<Seq<char>, Seq<char>>,
    depth: int,
    outs: Seq<Result<Seq<char>, EvalErrorM>>,
    acc: Seq<char>,
)
    requires
        render(ans, parts, args, depth, outs, acc) is Some,
    ensures
        forall|k: int| 0 <= k < outs.len() - 1 ==> #[trigger] outs[k] is Ok,
        render(ans, parts, args, depth, outs, acc) matches Some(Ok(_)) ==> forall|k: int|
            0 <= k < outs.len() ==> #[trigger] outs[k] is Ok,
        outs.len() > 0 && outs.last() is Err ==> render(ans, parts, args, depth, outs, acc) == Some(outs.last()),
    decreases parts.len(),
{
    if parts.len() > 0 {
        match parts[0] {
            PartM::Lit(t) => lemma_render_stops(ans, parts.drop_first(), args, depth, outs, acc + t),
            PartM::Param(n) => if args.contains_key(n) {
                lemma_render_stops(ans, parts.drop_first(), args, depth, outs, acc + args[n]);
            },
            PartM::Call { receiver, method, args: cargs } => match resolve_args(cargs, args, Seq::empty()) {
                Err(e) => {},
                Ok(vals) => {
                    if outs[0] is Ok {
                        let rest = outs.drop_first();
                        lemma_render_stops(ans, parts.drop_first(), args, depth, rest, acc + outs[0]->Ok_0);
                        assert forall|k: int| 0 <= k < outs.len() - 1 implies #[trigger] outs[k] is Ok by {
                            if k > 0 {
                                assert(outs[k] == rest[k - 1]);
                            }
                        }
                        if render(ans, parts, args, depth, outs, acc) matches Some(Ok(_)) {
                            assert forall|k: int| 0 <= k < outs.len() implies #[trigger] outs[k] is Ok by {
                                if k > 0 {
                                    assert(outs[k] == rest[k - 1]);
                                }
                            }
                        }
                        if rest.len() > 0 {
                            assert(rest.last() == outs.last());
                        }
                    }
                },
            },
        }
    }
}

/// Evaluation stops at the first bean call that fails, and its error is
/// the outcome: every answer but the last in the trace of calls succeeded,
/// a successful evaluation had every call succeed, and a failed last call
/// is what evaluating answers.
pub proof fn lemma_eval_stops_at_failure(
    ans: AnswerRel,
    imp: MethodImplM,
    args: Map<Seq<char>, Seq<char>>,
    depth: int,
    outs: Seq<Result<Seq<char>, EvalErrorM>>,
)
    requires
        eval_model(ans, imp, args, depth, outs) is Some,
    ensures
        forall|k: int| 0 <= k < outs.len() - 1 ==> #[trigger] outs[k] is Ok,
        eval_model(ans, imp, args, depth, outs) matches Some(Ok(_)) ==> forall|k: int|
            0 <= k < outs.len() ==> #[trigger] outs[k] is Ok,
        outs.len() > 0 && outs.last() is Err ==> eval_model(ans, imp, args, depth, outs) == Some(outs.last()),
{
    if depth <= MAX_CALL_DEPTH {
        if let MethodImplM::Template(parts) = imp {
            lemma_render_stops(ans, parts, args, depth + 1, outs, Seq::empty());
        }
    }
}

/// Template parts with no bean call.
pub open spec fn call_free(parts: Seq<PartM>) -> bool {
    forall|i: int| 0 <= i < parts.len() ==> !(#[trigger] parts[i] is Call)
}

proof fn lemma_render_call_free(
    ans: AnswerRel,
    parts: Seq<PartM>,
    args: Map<Seq<char>, Seq<char>>,
    depth: int,
    outs: Seq<Result<Seq<char>, EvalErrorM>>,
    acc: Seq<char>,
)
    requires
        call_free(parts),
    ensures
        render(ans, parts, args, depth, outs, acc) == if outs.len() == 0 {
            Some(render_without_beans(parts, args, acc))
        } else {
            None::<Result<Seq<char>, EvalErrorM>>
        },
    decreases parts.len(),
{
    if parts.len() > 0 {
        assert(!(parts[0] is Call));
        let rest = parts.drop_first();
        assert forall|i: int| 0 <= i < rest.len() implies !(#[trigger] rest[i] is Call) by {
            assert(rest[i] == parts[i + 1]);
        }
        match parts[0] {
            PartM::Lit(s) => lemma_render_call_free(ans, rest, args, depth, outs, acc + s),
            PartM::Param(n) => if args.contains_key(n) {
                lemma_render_call_free(ans, rest, args, depth, outs, acc + args[n]);
            },
            PartM::Call { .. } => {},
        }
    }
}

/// Evaluating a method body that makes no bean call asks the context
/// nothing and gives one outcome, whatever the context: a constant its
/// text, a template the concatenation of its literals and argument values
/// in order (or the first missing parameter), an unimplemented body its
/// reason.
pub proof fn lemma_eval_call_free(
    ans: AnswerRel,
    imp: MethodImplM,
    args: Map<Seq<char>, Seq<char>>,
    depth: int,
    outs: Seq<Result<Seq<char>, EvalErrorM>>,
)
    requires
        depth <= MAX_CALL_DEPTH,
        imp matches MethodImplM::Template(parts) ==> call_free(parts),
    ensures
        eval_model(ans, imp, args, depth, outs) == if outs.len() == 0 {
            Some(eval_without_beans(imp, args))
        } else {
            None::<Result<Seq<char>, EvalErrorM>>
        },
{
    if let MethodImplM::Template(parts) = imp {
        lemma_render_call_free(ans, parts, args, depth + 1, outs, Seq::empty());
    }
}

pub(crate) fn resolve_call_args(cargs: &Vec<CallArg>, args: &HashMap<String, String>) -> (r: Result<
    Vec<String>,
    EvalError,
>)
    ensures
        match r {
            Ok(v) => resolve_args(cargs.deep_view(), string_map(*args), Seq::empty()) == Ok::<
                Seq<Seq<char>>,
                EvalErrorM,
            >(v.deep_view()),
            Err(e) => resolve_args(cargs.deep_view(), string_map(*args), Seq::empty()) == Err::<
                Seq<Seq<char>>,
                EvalErrorM,
            >(e@),
        },
{
    let mut out: Vec<String> = Vec::new();
    let mut i: usize = 0;
    proof {
        lemma_dv_skip0(cargs);
        assert(out.deep_view() =~= Seq::<Seq<char>>::empty());
    }
    while i < cargs.len()
        invariant
            i <= cargs@.len(),
            resolve_args(cargs.deep_view(), string_map(*args), Seq::empty()) == resolve_args(
                cargs.deep_view().skip(i as int),
                string_map(*args),
                out.deep_view(),
            ),
        decreases cargs.len() - i,
    {
        proof {
            lemma_dv_step(cargs, i as int);
        }
        match &cargs[i] {
            CallArg::Lit(s) => {
                push_dv(&mut out, copy_string(s));
            },
            CallArg::Var(p) => {
                match arg_get(args, p.as_str()) {
                    Some(v) => {
                        push_dv(&mut out, copy_string(v));
                    },
                    None => {
                        return Err(EvalError::MissingParam(copy_string(p)));
                    },
                }
            },
        }
        i = i + 1;
    }
    Ok(out)
}

impl MethodImpl {
    /// Evaluates without a bean context (plain controllers, tests).
    pub fn eval(&self, args: &HashMap<String, String>) -> (r: Result<String, EvalError>)
        ensures
            outcome(r) == eval_without_beans(self.deep_view(), string_map(*args)),
    {
        let r = self.eval_with_ctx(args, &NoBeans, 0);
        proof {
            let outs = choose|outs: Seq<Result<Seq<char>, EvalErrorM>>|
                #[trigger] eval_model(answers_of(&NoBeans), self.deep_view(), string_map(*args), 0, outs)
                    == Some(outcome(r));
            if let MethodImplM::Template(parts) = self.deep_view() {
                lemma_render_without_beans(parts, string_map(*args), 1, outs, Seq::empty());
            }
        }
        r
    }

    /// Evaluates with calls on injected fields going to `ctx`, at call
    /// depth `depth`.
    pub fn eval_with_ctx<C: BeanContext>(
        &self,
        args: &HashMap<String, String>,
        ctx: &C,
        depth: usize,
    ) -> (r: Result<String, EvalError>)
        ensures
            exists|outs: Seq<Result<Seq<char>, EvalErrorM>>|
                #[trigger] eval_model(answers_of(ctx), self.deep_view(), string_map(*args), depth as int, outs)
                    == Some(outcome(r)),
    {
        if depth > MAX_CALL_DEPTH {
            let r = Err(
                EvalError::Unimplemented(
                    string_of("bean call depth limit exceeded (circular call chain?)"),
                ),
            );
            assert(eval_model(
                answers_of(ctx),
                self.deep_view(),
                string_map(*args),
                depth as int,
                Seq::empty(),
            ) == Some(outcome(r)));
            return r;
        }
        match self {
            MethodImpl::Constant(s) => {
                let r = Ok(copy_string(s));
                assert(eval_model(
                    answers_of(ctx),
                    self.deep_view(),
                    string_map(*args),
                    depth as int,
                    Seq::empty(),
                ) == Some(outcome(r)));
                r
            },
            MethodImpl::Unimplemented(w) => {
                let r = Err(EvalError::Unimplemented(copy_string(w)));
                assert(eval_model(
                    answers_of(ctx),
                    self.deep_view(),
                    string_map(*args),
                    depth as int,
                    Seq::empty(),
                ) == Some(outcome(r)));
                r
            },
            MethodImpl::Template(parts) => {
                let r = render_parts(parts, args, ctx, depth + 1);
                proof {
                    let outs = choose|outs: Seq<Result<Seq<char>, EvalErrorM>>|
                        #[trigger] render(
                            answers_of(ctx),
                            parts.deep_view(),
                            string_map(*args),
                            depth + 1,
                            outs,
                            Seq::empty(),
                        ) == Some(outcome(r));
                    assert(eval_model(
                        answers_of(ctx),
                        self.deep_view(),
                        string_map(*args),
                        depth as int,
                        outs,
                    ) == Some(outcome(r)));
                }
                r
            },
        }
    }
}

fn render_parts<C: BeanContext>(
    parts: &Vec<Part>,
    args: &HashMap<String, String>,
    ctx: &C,
    depth: usize,
) -> (r: Result<String, EvalError>)
    ensures
        exists|outs: Seq<Result<Seq<char>, EvalErrorM>>|
            #[trigger] render(answers_of(ctx), parts.deep_view(), string_map(*args), depth as int, outs, Seq::empty())
                == Some(outcome(r)),
{
    let ghost ans = answers_of(ctx);
    let ghost am = string_map(*args);
    let ghost pm = parts.deep_view();
    let ghost mut trace: Seq<Result<Seq<char>, EvalErrorM>> = Seq::empty();
    let mut out = new_string();
    let mut i: usize = 0;
    proof {
        lemma_dv_skip0(parts);
        assert forall|more: Seq<Result<Seq<char>, EvalErrorM>>|
            #[trigger] render(ans, pm, am, depth as int, trace + more, Seq::empty()) == render(
                ans,
                pm.skip(0),
                am,
                depth as int,
                more,
                out@,
            ) by {
            assert(trace + more =~= more);
        }
    }
    while i < parts.len()
        invariant
            i <= parts@.len(),
            ans == answers_of(ctx),
            am == string_map(*args),
            pm == parts.deep_view(),
            pm.len() == parts@.len(),
            forall|more: Seq<Result<Seq<char>, EvalErrorM>>|
                #[trigger] render(ans, pm, am, depth as int, trace + more, Seq::empty())
                    == render(ans, pm.skip(i as int), am, depth as int, more, out@),
        decreases parts.len() - i,
    {
        proof {
            lemma_dv_step(parts, i as int);
        }
        let ghost start = out@;
        match &parts[i] {
            Part::Lit(s) => {
                push_str(&mut out, s.as_str());
            },
            Part::Param(name) => {
                match arg_get(args, name.as_str()) {
                    Some(v) => {
                        push_str(&mut out, v.as_str());
                    },
                    None => {
                        let r = Err(EvalError::MissingParam(copy_string(name)));
                        assert(pm.skip(i as int)[0] == PartM::Param(name@));
                        assert(!am.contains_key(name@));
                        assert(render(ans, pm.skip(i as int), am, depth as int, Seq::empty(), out@) == Some(outcome(r)));
                        assert(render(ans, pm, am, depth as int, trace + Seq::empty(), Seq::empty())
                            == Some(outcome(r)));
                        return r;
                    },
                }
            },
            Part::Call { receiver, method, args: cargs } => {
                let resolved = match resolve_call_args(cargs, args) {
                    Ok(v) => v,
                    Err(e) => {
                        let r = Err(e);
                        assert(render(ans, pm, am, depth as int, trace + Seq::empty(), Seq::empty())
                            == Some(outcome(r)));
                        return r;
                    },
                };
                let rs = resolved.as_slice();
                let answer = ctx.call(receiver.as_str(), method.as_str(), rs, depth);
                proof {
                    assert(rs.deep_view() =~= resolved.deep_view());
                }
                match answer {
                    Ok(s) => {
                        let ghost before = out@;
                        let ghost o = outcome(answer);
                        push_str(&mut out, s.as_str());
                        proof {
                            let t0 = trace;
                            trace = trace.push(o);
                            assert forall|more: Seq<Result<Seq<char>, EvalErrorM>>|
                                #[trigger] render(ans, pm, am, depth as int, trace + more, Seq::empty())
                                    == render(ans, pm.skip(i + 1), am, depth as int, more, out@) by {
                                assert(trace + more =~= t0 + (seq![o] + more));
                                assert((seq![o] + more).drop_first() =~= more);
                                assert(render(ans, pm, am, depth as int, t0 + (seq![o] + more), Seq::empty())
                                    == render(ans, pm.skip(i as int), am, depth as int, seq![o] + more, before));
                            }
                        }
                    },
                    Err(e) => {
                        let ghost o = outcome(answer);
                        let r = Err(e);
                        proof {
                            assert(render(ans, pm, am, depth as int, trace + seq![o], Seq::empty())
                                == render(ans, pm.skip(i as int), am, depth as int, seq![o], out@));
                        }
                        assert(render(ans, pm, am, depth as int, trace + seq![o], Seq::empty())
                            == Some(outcome(r)));
                        return r;
                    },
                }
            },
        }
        proof {
            if !(parts@[i as int] is Call) {
                assert forall|more: Seq<Result<Seq<char>, EvalErrorM>>|
                    #[trigger] render(ans, pm, am, depth as int, trace + more, Seq::empty())
                        == render(ans, pm.skip(i + 1), am, depth as int, more, out@) by {
                    assert(render(ans, pm, am, depth as int, trace + more, Seq::empty())
                        == render(ans, pm.skip(i as int), am, depth as int, more, start));
                }
            }
        }
        i = i + 1;
    }
    let r = Ok(out);
    assert(render(ans, pm, am, depth as int, trace + Seq::empty(), Seq::empty()) == Some(
        outcome(r),
    ));
    r
}

// ---------------------------------------------------------------------------
// Copies that keep the model
// ---------------------------------------------------------------------------

pub fn copy_call_args(v: &Vec<CallArg>) -> (r: Vec<CallArg>)
    ensures
        r.deep_view() == v.deep_view(),
{
    let mut out: Vec<CallArg> = Vec::new();
    let mut i: usize = 0;
    proof {
        lemma_dv_skip0(v);
    }
    while i < v.len()
        invariant
            i <= v@.len(),
            out.deep_view() == v.deep_view().take(i as int),
        decreases v.len() - i,
    {
        proof {
            lemma_dv_step(v, i as int);
        }
        let c = match &v[i] {
            CallArg::Lit(s) => CallArg::Lit(copy_string(s)),
            CallArg::Var(s) => CallArg::Var(copy_string(s)),
        };
        push_dv(&mut out, c);
        assert(v.deep_view().take(i + 1) =~= v.deep_view().take(i as int).push(v@[i as int].deep_view()));
        i = i + 1;
    }
    assert(v.deep_view().take(v@.len() as int) =~= v.deep_view());
    out
}

pub fn copy_parts(v: &Vec<Part>) -> (r: Vec<Part>)
    ensures
        r.deep_view() == v.deep_view(),
{
    let mut out: Vec<Part> = Vec::new();
    let mut i: usize = 0;
    proof {
        lemma_dv_skip0(v);
    }
    while i < v.len()
        invariant
            i <= v@.len(),
            out.deep_view() == v.deep_view().take(i as int),
        decreases v.len() - i,
    {
        proof {
            lemma_dv_step(v, i as int);
        }
        let c = match &v[i] {
            Part::Lit(s) => Part::Lit(copy_string(s)),
            Part::Param(s) => Part::Param(copy_string(s)),
            Part::Call { receiver, method, args } => Part::Call {
                receiver: copy_string(receiver),
                method: copy_string(method),
                args: copy_call_args(args),
            },
        };
        push_dv(&mut out, c);
        assert(v.deep_view().take(i + 1) =~= v.deep_view().take(i as int).push(v@[i as int].deep_view()));
        i = i + 1;
    }
    assert(v.deep_view().take(v@.len() as int) =~= v.deep_view());
    out
}

impl MethodImpl {
    /// A copy with the same model.
    pub fn copy(&self) -> (r: MethodImpl)
        ensures
            r.deep_view() == self.deep_view(),
    {
        match self {
            MethodImpl::Constant(s) => MethodImpl::Constant(copy_string(s)),
            MethodImpl::Template(p) => MethodImpl::Template(copy_parts(p)),
            MethodImpl::Unimplemented(s) => MethodImpl::Unimplemented(copy_string(s)),
        }
    }
}

// ---------------------------------------------------------------------------
// Method bodies
// ---------------------------------------------------------------------------

/// `v` names one of the method's parameters.
pub open spec fn is_param_of(m: MethodM, v: Seq<char>) -> bool {
    exists|i: int| 0 <= i < m.params.len() && #[trigger] m.params[i].name == v
}

/// `r` names an `@Autowired` field of the class.
pub open spec fn is_injected_field(c: ClassM, r: Seq<char>) -> bool {
    exists|i: int|
        0 <= i < c.fields.len() && #[trigger] c.fields[i].name == r && is_injection_point_m(
            c.fields[i],
        )
}

/// The first variable among call arguments that is not a method parameter.
pub open spec fn first_foreign_arg(m: MethodM, args: Seq<CallArgM>) -> Option<Seq<char>>
    decreases args.len(),
{
    if args.len() == 0 {
        None
    } else {
        match args[0] {
            CallArgM::Var(v) => if !is_param_of(m, v) {
                Some(v)
            } else {
                first_foreign_arg(m, args.drop_first())
            },
            CallArgM::Lit(_) => first_foreign_arg(m, args.drop_first()),
        }
    }
}

/// The first reason an operand chain falls outside the interpreter subset.
pub open spec fn gate_failure(c: ClassM, m: MethodM, ops: Seq<OperandM>) -> Option<Seq<char>>
    decreases ops.len(),
{
    if ops.len() == 0 {
        None
    } else {
        match ops[0] {
            OperandM::Var(v) => if !is_param_of(m, v) {
                Some("'"@ + v + "' is a local variable outside the interpreter subset"@)
            } else {
                gate_failure(c, m, ops.drop_first())
            },
            OperandM::Call { receiver, args, .. } => if !is_injected_field(c, receiver) {
                Some("'"@ + receiver + "' is not an @Autowired field"@)
            } else {
                match first_foreign_arg(m, args) {
                    Some(v) => Some("call argument '"@ + v + "' is not a method parameter"@),
                    None => gate_failure(c, m, ops.drop_first()),
                }
            },
            OperandM::Lit(_) => gate_failure(c, m, ops.drop_first()),
        }
    }
}

pub open spec fn all_literals(ops: Seq<OperandM>) -> bool {
    forall|i: int| 0 <= i < ops.len() ==> #[trigger] ops[i] is Lit
}

/// The literals of a chain, concatenated after `acc`.
pub open spec fn concat_literals(ops: Seq<OperandM>, acc: Seq<char>) -> Seq<char>
    decreases ops.len(),
{
    if ops.len() == 0 {
        acc
    } else {
        match ops[0] {
            OperandM::Lit(s) => concat_literals(ops.drop_first(), acc + s),
            _ => concat_literals(ops.drop_first(), acc),
        }
    }
}

pub open spec fn part_of(o: OperandM) -> PartM {
    match o {
        OperandM::Lit(s) => PartM::Lit(s),
        OperandM::Var(v) => PartM::Param(v),
        OperandM::Call { receiver, method, args } => PartM::Call { receiver, method, args },
    }
}

pub open spec fn qualify(c: ClassM, m: MethodM, reason: Seq<char>) -> Seq<char> {
    c.name + "."@ + m.name + ": "@ + reason
}

/// What a method body compiles to.
pub open spec fn compile_body_spec(c: ClassM, m: MethodM) -> MethodImplM {
    match m.body {
        None => MethodImplM::Unimplemented(qualify(c, m, "no method body"@)),
        Some(ExprM::Opaque) => MethodImplM::Unimplemented(
            qualify(c, m, "body outside the interpreter subset"@),
        ),
        Some(ExprM::Concat(ops)) => match gate_failure(c, m, ops) {
            Some(reason) => MethodImplM::Unimplemented(qualify(c, m, reason)),
            None => if all_literals(ops) {
                MethodImplM::Constant(concat_literals(ops, Seq::empty()))
            } else {
                MethodImplM::Template(ops.map_values(|o: OperandM| part_of(o)))
            },
        },
    }
}

/// A template part a compiled body of method `m` of class `c` may hold: a
/// parameter of `m`, or a call on an `@Autowired` field of `c` whose
/// variable arguments are parameters of `m`.
pub open spec fn part_gated(c: ClassM, m: MethodM, p: PartM) -> bool {
    match p {
        PartM::Lit(_) => true,
        PartM::Param(v) => is_param_of(m, v),
        PartM::Call { receiver, args, .. } => is_injected_field(c, receiver) && forall|j: int|
            0 <= j < args.len() ==> (#[trigger] args[j] matches CallArgM::Var(v) ==> is_param_of(m, v)),
    }
}

proof fn lemma_no_foreign_arg(m: MethodM, args: Seq<CallArgM>)
    requires
        first_foreign_arg(m, args) is None,
    ensures
        forall|j: int| 0 <= j < args.len() ==> (#[trigger] args[j] matches CallArgM::Var(v) ==> is_param_of(m, v)),
    decreases args.len(),
{
    if args.len() > 0 {
        lemma_no_foreign_arg(m, args.drop_first());
        assert forall|j: int| 0 <= j < args.len() implies (#[trigger] args[j] matches CallArgM::Var(v) ==> is_param_of(m, v)) by {
            if j > 0 {
                assert(args[j] == args.drop_first()[j - 1]);
            }
        }
    }
}

proof fn lemma_gate_passed(c: ClassM, m: MethodM, ops: Seq<OperandM>)
    requires
        gate_failure(c, m, ops) is None,
    ensures
        forall|i: int| 0 <= i < ops.len() ==> part_gated(c, m, part_of(#[trigger] ops[i])),
    decreases ops.len(),
{
    if ops.len() > 0 {
        lemma_gate_passed(c, m, ops.drop_first());
        if let OperandM::Call { receiver, method, args } = ops[0] {
            lemma_no_foreign_arg(m, args);
        }
        assert forall|i: int| 0 <= i < ops.len() implies part_gated(c, m, part_of(#[trigger] ops[i])) by {
            if i > 0 {
                assert(ops[i] == ops.drop_first()[i - 1]);
            }
        }
    }
}

/// What a method body compiles to has the body's shape: a constant is the
/// concatenation of a chain of literals; every part of a template is a
/// literal, a parameter of the method, or a call on an `@Autowired` field
/// with parameters or literals as arguments; a missing body or one outside
/// the subset is reported not yet compilable.
pub proof fn lemma_body_shapes(c: ClassM, m: MethodM)
    ensures
        match compile_body_spec(c, m) {
            MethodImplM::Constant(s) => m.body matches Some(ExprM::Concat(ops)) && all_literals(ops) && s
                == concat_literals(ops, Seq::empty()),
            MethodImplM::Template(parts) => forall|i: int| 0 <= i < parts.len() ==> part_gated(c, m, #[trigger] parts[i]),
            MethodImplM::Unimplemented(_) => true,
        },
        (m.body is None || m.body == Some(ExprM::Opaque)) ==> compile_body_spec(c, m) is Unimplemented,
{
    if let Some(ExprM::Concat(ops)) = m.body {
        if gate_failure(c, m, ops) is None {
            lemma_gate_passed(c, m, ops);
            let parts = ops.map_values(|o: OperandM| part_of(o));
            assert forall|i: int| 0 <= i < parts.len() implies part_gated(c, m, #[trigger] parts[i]) by {
                assert(parts[i] == part_of(ops[i]));
            }
        }
    }
}

fn is_param_exec(m: &MethodDecl, v: &String) -> (r: bool)
    ensures
        r == is_param_of(m.deep_view(), v@),
{
    let mut i: usize = 0;
    while i < m.params.len()
        invariant
            i <= m.params@.len(),
            m.params.deep_view().len() == m.params@.len(),
            forall|j: int| 0 <= j < i ==> #[trigger] m.params.deep_view()[j].name != v@,
        decreases m.params.len() - i,
    {
        proof {
            lemma_dv_step(&m.params, i as int);
        }
        if str_eq(m.params[i].name.as_str(), v.as_str()) {
            assert(m.deep_view().params[i as int].name == v@);
            return true;
        }
        i = i + 1;
    }
    proof {
        lemma_dv_skip0(&m.params);
        assert(m.params.deep_view().len() == m.params@.len());
    }
    false
}

fn is_injected_exec(c: &ClassDecl, r: &String) -> (b: bool)
    ensures
        b == is_injected_field(c.deep_view(), r@),
{
    let mut i: usize = 0;
    proof {
        lemma_dv_skip0(&c.fields);
    }
    while i < c.fields.len()
        invariant
            i <= c.fields@.len(),
            c.fields.deep_view().len() == c.fields@.len(),
            forall|j: int|
                0 <= j < i ==> !(#[trigger] c.fields.deep_view()[j].name == r@
                    && is_injection_point_m(c.fields.deep_view()[j])),
        decreases c.fields.len() - i,
    {
        proof {
            lemma_dv_step(&c.fields, i as int);
        }
        if str_eq(c.fields[i].name.as_str(), r.as_str()) && c.fields[i].is_injection_point() {
            assert(c.deep_view().fields[i as int].name == r@);
            return true;
        }
        i = i + 1;
    }
    false
}

fn first_foreign_exec(m: &MethodDecl, args: &Vec<CallArg>) -> (r: Option<String>)
    ensures
        r.deep_view() == first_foreign_arg(m.deep_view(), args.deep_view()),
{
    let mut i: usize = 0;
    proof {
        lemma_dv_skip0(args);
    }
    while i < args.len()
        invariant
            i <= args@.len(),
            first_foreign_arg(m.deep_view(), args.deep_view()) == first_foreign_arg(
                m.deep_view(),
                args.deep_view().skip(i as int),
            ),
        decreases args.len() - i,
    {
        proof {
            lemma_dv_step(args, i as int);
        }
        match &args[i] {
            CallArg::Var(v) => {
                if !is_param_exec(m, v) {
                    return Some(copy_string(v));
                }
            },
            CallArg::Lit(_) => {},
        }
        i = i + 1;
    }
    None
}

fn gate_exec(c: &ClassDecl, m: &MethodDecl, ops: &Vec<Operand>) -> (r: Option<String>)
    ensures
        r.deep_view() == gate_failure(c.deep_view(), m.deep_view(), ops.deep_view()),
{
    let mut i: usize = 0;
    proof {
        lemma_dv_skip0(ops);
    }
    while i < ops.len()
        invariant
            i <= ops@.len(),
            gate_failure(c.deep_view(), m.deep_view(), ops.deep_view()) == gate_failure(
                c.deep_view(),
                m.deep_view(),
                ops.deep_view().skip(i as int),
            ),
        decreases ops.len() - i,
    {
        proof {
            lemma_dv_step(ops, i as int);
        }
        match &ops[i] {
            Operand::Var(v) => {
                if !is_param_exec(m, v) {
                    let mut s = string_of("'");
                    push_str(&mut s, v.as_str());
                    push_str(&mut s, "' is a local variable outside the interpreter subset");
                    return Some(s);
                }
            },
            Operand::Call { receiver, args, .. } => {
                if !is_injected_exec(c, receiver) {
                    let mut s = string_of("'");
                    push_str(&mut s, receiver.as_str());
                    push_str(&mut s, "' is not an @Autowired field");
                    return Some(s);
                }
                match first_foreign_exec(m, args) {
                    Some(v) => {
                        let mut s = string_of("call argument '");
                        push_str(&mut s, v.as_str());
                        push_str(&mut s, "' is not a method parameter");
                        return Some(s);
                    },
                    None => {},
                }
            },
            Operand::Lit(_) => {},
        }
        i = i + 1;
    }
    None
}

fn qualify_exec(c: &ClassDecl, m: &MethodDecl, reason: &str) -> (r: String)
    ensures
        r@ == qualify(c.deep_view(), m.deep_view(), reason@),
{
    let mut s = copy_string(&c.name);
    push_str(&mut s, ".");
    push_str(&mut s, m.name.as_str());
    push_str(&mut s, ": ");
    push_str(&mut s, reason);
    s
}

/// Compiles one method body of `class` to its executable form.
pub fn compile_body(class: &ClassDecl, m: &MethodDecl) -> (r: MethodImpl)
    ensures
        r.deep_view() == compile_body_spec(class.deep_view(), m.deep_view()),
{
    match &m.body {
        None => MethodImpl::Unimplemented(qualify_exec(class, m, "no method body")),
        Some(Expr::Opaque) => MethodImpl::Unimplemented(
            qualify_exec(class, m, "body outside the interpreter subset"),
        ),
        Some(Expr::Concat(ops)) => {
            match gate_exec(class, m, ops) {
                Some(reason) => {
                    return MethodImpl::Unimplemented(qualify_exec(class, m, reason.as_str()));
                },
                None => {},
            }
            let ghost om = ops.deep_view();
            let mut lits = new_string();
            let mut parts: Vec<Part> = Vec::new();
            let mut only_lits = true;
            let mut i: usize = 0;
            proof {
                lemma_dv_skip0(ops);
                assert(parts.deep_view() =~= Seq::<PartM>::empty());
            }
            while i < ops.len()
                invariant
                    i <= ops@.len(),
                    om == ops.deep_view(),
                    om.len() == ops@.len(),
                    concat_literals(om, Seq::empty()) == concat_literals(om.skip(i as int), lits@),
                    parts.deep_view() == om.take(i as int).map_values(|o: OperandM| part_of(o)),
                    only_lits == all_literals(om.take(i as int)),
                decreases ops.len() - i,
            {
                proof {
                    lemma_dv_step(ops, i as int);
                }
                let p = match &ops[i] {
                    Operand::Lit(s) => {
                        push_str(&mut lits, s.as_str());
                        Part::Lit(copy_string(s))
                    },
                    Operand::Var(v) => {
                        only_lits = false;
                        Part::Param(copy_string(v))
                    },
                    Operand::Call { receiver, method, args } => {
                        only_lits = false;
                        Part::Call {
                            receiver: copy_string(receiver),
                            method: copy_string(method),
                            args: copy_call_args(args),
                        }
                    },
                };
                push_dv(&mut parts, p);
                proof {
                    assert(om.take(i + 1) =~= om.take(i as int).push(om[i as int]));
                    assert(om.take(i + 1).map_values(|o: OperandM| part_of(o)) =~= om.take(
                        i as int,
                    ).map_values(|o: OperandM| part_of(o)).push(part_of(om[i as int])));
                    if only_lits {
                        assert forall|j: int| 0 <= j < i + 1 implies #[trigger] om.take(i + 1)[j] is Lit by {
                            if j < i {
                                assert(om.take(i + 1)[j] == om.take(i as int)[j]);
                            }
                        }
                    } else if all_literals(om.take(i + 1)) {
                        assert(om.take(i + 1)[i as int] is Lit);
                        assert forall|j: int| 0 <= j < i implies #[trigger] om.take(i as int)[j] is Lit by {
                            assert(om.take(i + 1)[j] == om.take(i as int)[j]);
                        }
                    }
                }
                i = i + 1;
            }
            proof {
                assert(om.take(om.len() as int) =~= om);
            }
            if only_lits {
                MethodImpl::Constant(lits)
            } else {
                MethodImpl::Template(parts)
            }
        },
    }
}

// ---------------------------------------------------------------------------
// Routes
// ---------------------------------------------------------------------------

/// The HTTP verb a mapping annotation declares.
pub open spec fn http_method_of(name: Seq<char>) -> Option<Seq<char>> {
    if name == "GetMapping"@ {
        Some("GET"@)
    } else if name == "PostMapping"@ {
        Some("POST"@)
    } else if name == "PutMapping"@ {
        Some("PUT"@)
    } else if name == "DeleteMapping"@ {
        Some("DELETE"@)
    } else if name == "PatchMapping"@ {
        Some("PATCH"@)
    } else if name == "RequestMapping"@ {
        Some("ANY"@)
    } else {
        None
    }
}

/// An annotation's value: its first positional value, else `value = ..`.
pub open spec fn ann_value(a: AnnotationM) -> Option<Seq<char>> {
    match first_value_of(a.args) {
        Some(v) => Some(v),
        None => named_of(a.args, "value"@),
    }
}

pub open spec fn or_empty(o: Option<Seq<char>>) -> Seq<char> {
    match o {
        Some(v) => v,
        None => Seq::empty(),
    }
}

/// The class-level `@RequestMapping` prefix.
pub open spec fn class_base(c: ClassM) -> Seq<char> {
    match find_annotation(c.annotations, "RequestMapping"@) {
        Some(a) => or_empty(ann_value(a)),
        None => Seq::empty(),
    }
}

/// Joins a base path and a sub-path into one absolute path.
pub open spec fn normalize_path_spec(base: Seq<char>, sub: Seq<char>) -> Seq<char> {
    let joined = trim_end_char(base, '/') + seq!['/'] + trim_start_char(sub, '/');
    let j = trim_end_char(joined, '/');
    if j.len() == 0 {
        seq!['/']
    } else if j[0] == '/' {
        j
    } else {
        seq!['/'] + j
    }
}

pub open spec fn bind_param_spec(p: ParamM) -> ParamBindingM {
    match find_annotation(p.annotations, "RequestParam"@) {
        Some(a) => ParamBindingM {
            param: p.name,
            query_key: match ann_value(a) {
                Some(v) => if v.len() > 0 {
                    v
                } else {
                    p.name
                },
                None => p.name,
            },
            required: match named_of(a.args, "required"@) {
                Some(v) => v != "false"@,
                None => true,
            },
        },
        None => ParamBindingM { param: p.name, query_key: p.name, required: false },
    }
}

pub open spec fn route_of(
    pkg: Option<Seq<char>>,
    c: ClassM,
    m: MethodM,
    base: Seq<char>,
    verb: Seq<char>,
    a: AnnotationM,
) -> RouteM {
    RouteM {
        http_method: verb,
        path: normalize_path_spec(base, or_empty(ann_value(a))),
        class_name: c.name,
        method_name: m.name,
        package: pkg,
        params: m.params.map_values(|p: ParamM| bind_param_spec(p)),
        implementation: compile_body_spec(c, m),
    }
}

/// Routes of one method, one per mapping annotation, after `acc`.
pub open spec fn method_routes(
    pkg: Option<Seq<char>>,
    c: ClassM,
    m: MethodM,
    base: Seq<char>,
    anns: Seq<AnnotationM>,
    acc: Seq<RouteM>,
) -> Seq<RouteM>
    decreases anns.len(),
{
    if anns.len() == 0 {
        acc
    } else {
        match http_method_of(anns[0].name) {
            Some(verb) => method_routes(
                pkg,
                c,
                m,
                base,
                anns.drop_first(),
                acc.push(route_of(pkg, c, m, base, verb, anns[0])),
            ),
            None => method_routes(pkg, c, m, base, anns.drop_first(), acc),
        }
    }
}

pub open spec fn class_routes(
    pkg: Option<Seq<char>>,
    c: ClassM,
    base: Seq<char>,
    ms: Seq<MethodM>,
    acc: Seq<RouteM>,
) -> Seq<RouteM>
    decreases ms.len(),
{
    if ms.len() == 0 {
        acc
    } else {
        class_routes(
            pkg,
            c,
            base,
            ms.drop_first(),
            method_routes(pkg, c, ms[0], base, ms[0].annotations, acc),
        )
    }
}

pub open spec fn file_routes(pkg: Option<Seq<char>>, cs: Seq<ClassM>, acc: Seq<RouteM>) -> Seq<
    RouteM,
>
    decreases cs.len(),
{
    if cs.len() == 0 {
        acc
    } else {
        let c = cs[0];
        let next = if has_annotation(c.annotations, "RestController"@) {
            class_routes(pkg, c, class_base(c), c.methods, acc)
        } else {
            acc
        };
        file_routes(pkg, cs.drop_first(), next)
    }
}

/// Every route a file declares, in declaration order.
pub open spec fn compile_routes_spec(f: FileM) -> Seq<RouteM> {
    file_routes(f.package, f.classes, Seq::empty())
}

/// An absolute route path: it starts with `/`, and ends with `/` only
/// when it is `/`.
pub open spec fn route_path_ok(p: Seq<char>) -> bool {
    &&& p.len() > 0
    &&& p[0] == '/'
    &&& p.last() == '/' ==> p == seq!['/']
}

/// A route declared in package `pkg`: absolute path, one of the six verbs.
pub open spec fn route_shape(r: RouteM, pkg: Option<Seq<char>>) -> bool {
    &&& route_path_ok(r.path)
    &&& r.package == pkg
    &&& (r.http_method == "GET"@ || r.http_method == "POST"@ || r.http_method == "PUT"@
        || r.http_method == "DELETE"@ || r.http_method == "PATCH"@ || r.http_method == "ANY"@)
}

pub open spec fn all_shaped(rs: Seq<RouteM>, pkg: Option<Seq<char>>) -> bool {
    forall|i: int| 0 <= i < rs.len() ==> route_shape(#[trigger] rs[i], pkg)
}

proof fn lemma_trim_end_char_last(s: Seq<char>, c: char)
    ensures
        trim_end_char(s, c).len() == 0 || trim_end_char(s, c).last() != c,
    decreases s.len(),
{
    if s.len() > 0 && s.last() == c {
        lemma_trim_end_char_last(s.drop_last(), c);
    }
}

proof fn lemma_normalize_path_ok(base: Seq<char>, sub: Seq<char>)
    ensures
        route_path_ok(normalize_path_spec(base, sub)),
{
    let joined = trim_end_char(base, '/') + seq!['/'] + trim_start_char(sub, '/');
    lemma_trim_end_char_last(joined, '/');
    let j = trim_end_char(joined, '/');
    if j.len() > 0 && j[0] != '/' {
        let r = seq!['/'] + j;
        assert(r.last() == j.last());
        assert(r.len() >= 2);
    }
}

proof fn lemma_push_shaped(rs: Seq<RouteM>, r: RouteM, pkg: Option<Seq<char>>)
    requires
        all_shaped(rs, pkg),
        route_shape(r, pkg),
    ensures
        all_shaped(rs.push(r), pkg),
{
    assert forall|i: int| 0 <= i < rs.push(r).len() implies route_shape(#[trigger] rs.push(r)[i], pkg) by {
        if i < rs.len() {
            assert(rs.push(r)[i] == rs[i]);
        }
    }
}

proof fn lemma_method_routes_shaped(
    pkg: Option<Seq<char>>,
    c: ClassM,
    m: MethodM,
    base: Seq<char>,
    anns: Seq<AnnotationM>,
    acc: Seq<RouteM>,
)
    requires
        all_shaped(acc, pkg),
    ensures
        all_shaped(method_routes(pkg, c, m, base, anns, acc), pkg),
    decreases anns.len(),
{
    if anns.len() > 0 {
        match http_method_of(anns[0].name) {
            Some(verb) => {
                lemma_normalize_path_ok(base, or_empty(ann_value(anns[0])));
                lemma_push_shaped(acc, route_of(pkg, c, m, base, verb, anns[0]), pkg);
                lemma_method_routes_shaped(
                    pkg,
                    c,
                    m,
                    base,
                    anns.drop_first(),
                    acc.push(route_of(pkg, c, m, base, verb, anns[0])),
                );
            },
            None => lemma_method_routes_shaped(pkg, c, m, base, anns.drop_first(), acc),
        }
    }
}

proof fn lemma_class_routes_shaped(
    pkg: Option<Seq<char>>,
    c: ClassM,
    base: Seq<char>,
    ms: Seq<MethodM>,
    acc: Seq<RouteM>,
)
    requires
        all_shaped(acc, pkg),
    ensures
        all_shaped(class_routes(pkg, c, base, ms, acc), pkg),
    decreases ms.len(),
{
    if ms.len() > 0 {
        lemma_method_routes_shaped(pkg, c, ms[0], base, ms[0].annotations, acc);
        lemma_class_routes_shaped(
            pkg,
            c,
            base,
            ms.drop_first(),
            method_routes(pkg, c, ms[0], base, ms[0].annotations, acc),
        );
    }
}

proof fn lemma_file_routes_shaped(pkg: Option<Seq<char>>, cs: Seq<ClassM>, acc: Seq<RouteM>)
    requires
        all_shaped(acc, pkg),
    ensures
        all_shaped(file_routes(pkg, cs, acc), pkg),
    decreases cs.len(),
{
    if cs.len() > 0 {
        let c = cs[0];
        if has_annotation(c.annotations, "RestController"@) {
            lemma_class_routes_shaped(pkg, c, class_base(c), c.methods, acc);
            lemma_file_routes_shaped(pkg, cs.drop_first(), class_routes(pkg, c, class_base(c), c.methods, acc));
        } else {
            lemma_file_routes_shaped(pkg, cs.drop_first(), acc);
        }
    }
}

/// The mapping annotations among `anns`.
pub open spec fn mapping_count(anns: Seq<AnnotationM>) -> nat
    decreases anns.len(),
{
    if anns.len() == 0 {
        0
    } else {
        (if http_method_of(anns[0].name) is Some {
            1nat
        } else {
            0nat
        }) + mapping_count(anns.drop_first())
    }
}

/// The mapping annotations on the methods `ms`.
pub open spec fn method_mapping_count(ms: Seq<MethodM>) -> nat
    decreases ms.len(),
{
    if ms.len() == 0 {
        0
    } else {
        mapping_count(ms[0].annotations) + method_mapping_count(ms.drop_first())
    }
}

/// The mapping annotations on the methods of the `@RestController`
/// classes among `cs`.
pub open spec fn route_count(cs: Seq<ClassM>) -> nat
    decreases cs.len(),
{
    if cs.len() == 0 {
        0
    } else {
        (if has_annotation(cs[0].annotations, "RestController"@) {
            method_mapping_count(cs[0].methods)
        } else {
            0nat
        }) + route_count(cs.drop_first())
    }
}

proof fn lemma_method_routes_len(
    pkg: Option<Seq<char>>,
    c: ClassM,
    m: MethodM,
    base: Seq<char>,
    anns: Seq<AnnotationM>,
    acc: Seq<RouteM>,
)
    ensures
        method_routes(pkg, c, m, base, anns, acc).len() == acc.len() + mapping_count(anns),
    decreases anns.len(),
{
    if anns.len() > 0 {
        match http_method_of(anns[0].name) {
            Some(verb) => lemma_method_routes_len(
                pkg,
                c,
                m,
                base,
                anns.drop_first(),
                acc.push(route_of(pkg, c, m, base, verb, anns[0])),
            ),
            None => lemma_method_routes_len(pkg, c, m, base, anns.drop_first(), acc),
        }
    }
}

proof fn lemma_class_routes_len(pkg: Option<Seq<char>>, c: ClassM, base: Seq<char>, ms: Seq<MethodM>, acc: Seq<RouteM>)
    ensures
        class_routes(pkg, c, base, ms, acc).len() == acc.len() + method_mapping_count(ms),
    decreases ms.len(),
{
    if ms.len() > 0 {
        lemma_method_routes_len(pkg, c, ms[0], base, ms[0].annotations, acc);
        lemma_class_routes_len(pkg, c, base, ms.drop_first(), method_routes(pkg, c, ms[0], base, ms[0].annotations, acc));
    }
}

proof fn lemma_file_routes_len(pkg: Option<Seq<char>>, cs: Seq<ClassM>, acc: Seq<RouteM>)
    ensures
        file_routes(pkg, cs, acc).len() == acc.len() + route_count(cs),
    decreases cs.len(),
{
    if cs.len() > 0 {
        let c = cs[0];
        if has_annotation(c.annotations, "RestController"@) {
            lemma_class_routes_len(pkg, c, class_base(c), c.methods, acc);
            lemma_file_routes_len(pkg, cs.drop_first(), class_routes(pkg, c, class_base(c), c.methods, acc));
        } else {
            lemma_file_routes_len(pkg, cs.drop_first(), acc);
        }
    }
}

/// A file declares one route per mapping annotation (`@GetMapping`,
/// `@PostMapping`, `@PutMapping`, `@DeleteMapping`, `@PatchMapping`,
/// `@RequestMapping`) on a method of a `@RestController` class.
pub proof fn lemma_route_count(f: FileM)
    ensures
        compile_routes_spec(f).len() == route_count(f.classes),
{
    lemma_file_routes_len(f.package, f.classes, Seq::empty());
}

/// The HTTP verb a Spring mapping annotation stands for: `@GetMapping` GET,
/// `@PostMapping` POST, `@PutMapping` PUT, `@DeleteMapping` DELETE,
/// `@PatchMapping` PATCH, `@RequestMapping` any verb.
pub open spec fn mapping_verb(name: Seq<char>, verb: Seq<char>) -> bool {
    ||| name == "GetMapping"@ && verb == "GET"@
    ||| name == "PostMapping"@ && verb == "POST"@
    ||| name == "PutMapping"@ && verb == "PUT"@
    ||| name == "DeleteMapping"@ && verb == "DELETE"@
    ||| name == "PatchMapping"@ && verb == "PATCH"@
    ||| name == "RequestMapping"@ && verb == "ANY"@
}

/// A mapping annotation's name.
pub open spec fn mapping_name(name: Seq<char>) -> bool {
    ||| name == "GetMapping"@
    ||| name == "PostMapping"@
    ||| name == "PutMapping"@
    ||| name == "DeleteMapping"@
    ||| name == "PatchMapping"@
    ||| name == "RequestMapping"@
}

/// `r` is declared in `f` by mapping annotation `ai` of method `mi` of
/// `@RestController` class `ci`, with that annotation's verb.
pub open spec fn route_declared_at(f: FileM, r: RouteM, ci: int, mi: int, ai: int) -> bool {
    &&& 0 <= ci < f.classes.len()
    &&& 0 <= mi < f.classes[ci].methods.len()
    &&& 0 <= ai < f.classes[ci].methods[mi].annotations.len()
    &&& has_annotation(f.classes[ci].annotations, "RestController"@)
    &&& r.class_name == f.classes[ci].name
    &&& r.method_name == f.classes[ci].methods[mi].name
    &&& mapping_verb(f.classes[ci].methods[mi].annotations[ai].name, r.http_method)
}

pub open spec fn route_declared(f: FileM, r: RouteM) -> bool {
    exists|ci: int, mi: int, ai: int| #[trigger] route_declared_at(f, r, ci, mi, ai)
}

pub open spec fn all_declared(f: FileM, rs: Seq<RouteM>) -> bool {
    forall|i: int| 0 <= i < rs.len() ==> route_declared(f, #[trigger] rs[i])
}

proof fn lemma_verb_of_mapping(name: Seq<char>)
    ensures
        http_method_of(name) matches Some(v) ==> mapping_verb(name, v),
        mapping_name(name) ==> (http_method_of(name) matches Some(v) && mapping_verb(name, v)),
{
    reveal_strlit("GetMapping");
    reveal_strlit("PostMapping");
    reveal_strlit("PutMapping");
    reveal_strlit("DeleteMapping");
    reveal_strlit("PatchMapping");
    reveal_strlit("RequestMapping");
}

proof fn lemma_push_declared(f: FileM, rs: Seq<RouteM>, r: RouteM)
    requires
        all_declared(f, rs),
        route_declared(f, r),
    ensures
        all_declared(f, rs.push(r)),
{
    assert forall|i: int| 0 <= i < rs.push(r).len() implies route_declared(f, #[trigger] rs.push(r)[i]) by {
        if i < rs.len() {
            assert(rs.push(r)[i] == rs[i]);
        }
    }
}

proof fn lemma_method_routes_declared(f: FileM, ci: int, mi: int, k: int, acc: Seq<RouteM>)
    requires
        0 <= ci < f.classes.len(),
        0 <= mi < f.classes[ci].methods.len(),
        0 <= k <= f.classes[ci].methods[mi].annotations.len(),
        has_annotation(f.classes[ci].annotations, "RestController"@),
        all_declared(f, acc),
    ensures
        ({
            let c = f.classes[ci];
            let m = c.methods[mi];
            all_declared(f, method_routes(f.package, c, m, class_base(c), m.annotations.skip(k), acc))
        }),
    decreases f.classes[ci].methods[mi].annotations.len() - k,
{
    let c = f.classes[ci];
    let m = c.methods[mi];
    let anns = m.annotations.skip(k);
    if k < m.annotations.len() {
        assert(anns[0] == m.annotations[k]);
        assert(anns.drop_first() =~= m.annotations.skip(k + 1));
        let a = m.annotations[k];
        lemma_verb_of_mapping(a.name);
        match http_method_of(a.name) {
            Some(verb) => {
                let r = route_of(f.package, c, m, class_base(c), verb, a);
                assert(route_declared_at(f, r, ci, mi, k));
                lemma_push_declared(f, acc, r);
                lemma_method_routes_declared(f, ci, mi, k + 1, acc.push(r));
            },
            None => lemma_method_routes_declared(f, ci, mi, k + 1, acc),
        }
    } else {
        assert(anns.len() == 0);
    }
}

proof fn lemma_class_routes_declared(f: FileM, ci: int, j: int, acc: Seq<RouteM>)
    requires
        0 <= ci < f.classes.len(),
        0 <= j <= f.classes[ci].methods.len(),
        has_annotation(f.classes[ci].annotations, "RestController"@),
        all_declared(f, acc),
    ensures
        ({
            let c = f.classes[ci];
            all_declared(f, class_routes(f.package, c, class_base(c), c.methods.skip(j), acc))
        }),
    decreases f.classes[ci].methods.len() - j,
{
    let c = f.classes[ci];
    let ms = c.methods.skip(j);
    if j < c.methods.len() {
        assert(ms[0] == c.methods[j]);
        assert(ms.drop_first() =~= c.methods.skip(j + 1));
        assert(c.methods[j].annotations.skip(0) =~= c.methods[j].annotations);
        lemma_method_routes_declared(f, ci, j, 0, acc);
        lemma_class_routes_declared(
            f,
            ci,
            j + 1,
            method_routes(f.package, c, c.methods[j], class_base(c), c.methods[j].annotations, acc),
        );
    } else {
        assert(ms.len() == 0);
    }
}

proof fn lemma_file_routes_declared(f: FileM, i: int, acc: Seq<RouteM>)
    requires
        0 <= i <= f.classes.len(),
        all_declared(f, acc),
    ensures
        all_declared(f, file_routes(f.package, f.classes.skip(i), acc)),
    decreases f.classes.len() - i,
{
    let cs = f.classes.skip(i);
    if i < f.classes.len() {
        let c = f.classes[i];
        assert(cs[0] == c);
        assert(cs.drop_first() =~= f.classes.skip(i + 1));
        if has_annotation(c.annotations, "RestController"@) {
            assert(c.methods.skip(0) =~= c.methods);
            lemma_class_routes_declared(f, i, 0, acc);
            lemma_file_routes_declared(f, i + 1, class_routes(f.package, c, class_base(c), c.methods, acc));
        } else {
            lemma_file_routes_declared(f, i + 1, acc);
        }
    } else {
        assert(cs.len() == 0);
    }
}

/// Every compiled route is declared by a mapping annotation on a method of
/// a `@RestController` class, and carries that annotation's verb
/// (`@PutMapping` gives PUT, and so on).
pub proof fn lemma_routes_declared(f: FileM)
    ensures
        all_declared(f, compile_routes_spec(f)),
{
    assert(f.classes.skip(0) =~= f.classes);
    lemma_file_routes_declared(f, 0, Seq::empty());
}

proof fn lemma_method_routes_keep(
    pkg: Option<Seq<char>>,
    c: ClassM,
    m: MethodM,
    base: Seq<char>,
    anns: Seq<AnnotationM>,
    acc: Seq<RouteM>,
    r: RouteM,
)
    requires
        acc.contains(r),
    ensures
        method_routes(pkg, c, m, base, anns, acc).contains(r),
    decreases anns.len(),
{
    if anns.len() > 0 {
        match http_method_of(anns[0].name) {
            Some(verb) => {
                let x = route_of(pkg, c, m, base, verb, anns[0]);
                let j = choose|j: int| 0 <= j < acc.len() && acc[j] == r;
                assert(acc.push(x)[j] == r);
                lemma_method_routes_keep(pkg, c, m, base, anns.drop_first(), acc.push(x), r);
            },
            None => lemma_method_routes_keep(pkg, c, m, base, anns.drop_first(), acc, r),
        }
    }
}

proof fn lemma_class_routes_keep(
    pkg: Option<Seq<char>>,
    c: ClassM,
    base: Seq<char>,
    ms: Seq<MethodM>,
    acc: Seq<RouteM>,
    r: RouteM,
)
    requires
        acc.contains(r),
    ensures
        class_routes(pkg, c, base, ms, acc).contains(r),
    decreases ms.len(),
{
    if ms.len() > 0 {
        lemma_method_routes_keep(pkg, c, ms[0], base, ms[0].annotations, acc, r);
        lemma_class_routes_keep(pkg, c, base, ms.drop_first(), method_routes(pkg, c, ms[0], base, ms[0].annotations, acc), r);
    }
}

proof fn lemma_file_routes_keep(pkg: Option<Seq<char>>, cs: Seq<ClassM>, acc: Seq<RouteM>, r: RouteM)
    requires
        acc.contains(r),
    ensures
        file_routes(pkg, cs, acc).contains(r),
    decreases cs.len(),
{
    if cs.len() > 0 {
        let c = cs[0];
        if has_annotation(c.annotations, "RestController"@) {
            lemma_class_routes_keep(pkg, c, class_base(c), c.methods, acc, r);
            lemma_file_routes_keep(pkg, cs.drop_first(), class_routes(pkg, c, class_base(c), c.methods, acc), r);
        } else {
            lemma_file_routes_keep(pkg, cs.drop_first(), acc, r);
        }
    }
}

/// The route a mapping annotation declares.
pub open spec fn route_for(f: FileM, ci: int, mi: int, ai: int) -> RouteM {
    let c = f.classes[ci];
    let m = c.methods[mi];
    let a = m.annotations[ai];
    route_of(f.package, c, m, class_base(c), http_method_of(a.name)->0, a)
}

proof fn lemma_method_routes_has(f: FileM, ci: int, mi: int, ai: int, k: int, acc: Seq<RouteM>)
    requires
        0 <= ci < f.classes.len(),
        0 <= mi < f.classes[ci].methods.len(),
        0 <= k <= ai < f.classes[ci].methods[mi].annotations.len(),
        http_method_of(f.classes[ci].methods[mi].annotations[ai].name) is Some,
    ensures
        ({
            let c = f.classes[ci];
            let m = c.methods[mi];
            method_routes(f.package, c, m, class_base(c), m.annotations.skip(k), acc).contains(route_for(f, ci, mi, ai))
        }),
    decreases ai - k,
{
    let c = f.classes[ci];
    let m = c.methods[mi];
    let anns = m.annotations.skip(k);
    assert(anns[0] == m.annotations[k]);
    assert(anns.drop_first() =~= m.annotations.skip(k + 1));
    let a = m.annotations[k];
    if k == ai {
        let x = route_for(f, ci, mi, ai);
        assert(acc.push(x)[acc.len() as int] == x);
        lemma_method_routes_keep(f.package, c, m, class_base(c), anns.drop_first(), acc.push(x), x);
    } else {
        match http_method_of(a.name) {
            Some(verb) => lemma_method_routes_has(f, ci, mi, ai, k + 1, acc.push(route_of(f.package, c, m, class_base(c), verb, a))),
            None => lemma_method_routes_has(f, ci, mi, ai, k + 1, acc),
        }
    }
}

proof fn lemma_class_routes_has(f: FileM, ci: int, mi: int, ai: int, j: int, acc: Seq<RouteM>)
    requires
        0 <= ci < f.classes.len(),
        0 <= j <= mi < f.classes[ci].methods.len(),
        0 <= ai < f.classes[ci].methods[mi].annotations.len(),
        http_method_of(f.classes[ci].methods[mi].annotations[ai].name) is Some,
    ensures
        ({
            let c = f.classes[ci];
            class_routes(f.package, c, class_base(c), c.methods.skip(j), acc).contains(route_for(f, ci, mi, ai))
        }),
    decreases mi - j,
{
    let c = f.classes[ci];
    let ms = c.methods.skip(j);
    assert(ms[0] == c.methods[j]);
    assert(ms.drop_first() =~= c.methods.skip(j + 1));
    let next = method_routes(f.package, c, c.methods[j], class_base(c), c.methods[j].annotations, acc);
    if j == mi {
        assert(c.methods[j].annotations.skip(0) =~= c.methods[j].annotations);
        lemma_method_routes_has(f, ci, mi, ai, 0, acc);
        lemma_class_routes_keep(f.package, c, class_base(c), ms.drop_first(), next, route_for(f, ci, mi, ai));
    } else {
        lemma_class_routes_has(f, ci, mi, ai, j + 1, next);
    }
}

proof fn lemma_file_routes_has(f: FileM, ci: int, mi: int, ai: int, i: int, acc: Seq<RouteM>)
    requires
        0 <= i <= ci < f.classes.len(),
        has_annotation(f.classes[ci].annotations, "RestController"@),
        0 <= mi < f.classes[ci].methods.len(),
        0 <= ai < f.classes[ci].methods[mi].annotations.len(),
        http_method_of(f.classes[ci].methods[mi].annotations[ai].name) is Some,
    ensures
        file_routes(f.package, f.classes.skip(i), acc).contains(route_for(f, ci, mi, ai)),
    decreases ci - i,
{
    let cs = f.classes.skip(i);
    let c = f.classes[i];
    assert(cs[0] == c);
    assert(cs.drop_first() =~= f.classes.skip(i + 1));
    if i == ci {
        assert(c.methods.skip(0) =~= c.methods);
        lemma_class_routes_has(f, ci, mi, ai, 0, acc);
        lemma_file_routes_keep(f.package, cs.drop_first(), class_routes(f.package, c, class_base(c), c.methods, acc), route_for(f, ci, mi, ai));
    } else if has_annotation(c.annotations, "RestController"@) {
        lemma_file_routes_has(f, ci, mi, ai, i + 1, class_routes(f.package, c, class_base(c), c.methods, acc));
    } else {
        lemma_file_routes_has(f, ci, mi, ai, i + 1, acc);
    }
}

/// Every mapping annotation (`@GetMapping`, `@PostMapping`, `@PutMapping`,
/// `@DeleteMapping`, `@PatchMapping`, `@RequestMapping`) on a method of a
/// `@RestController` class gives a route of that class and method with the
/// annotation's verb (`@PutMapping` gives PUT, and so on).
pub proof fn lemma_mappings_routed(f: FileM, ci: int, mi: int, ai: int)
    requires
        0 <= ci < f.classes.len(),
        has_annotation(f.classes[ci].annotations, "RestController"@),
        0 <= mi < f.classes[ci].methods.len(),
        0 <= ai < f.classes[ci].methods[mi].annotations.len(),
        mapping_name(f.classes[ci].methods[mi].annotations[ai].name),
    ensures
        exists|i: int|
            0 <= i < compile_routes_spec(f).len() && #[trigger] compile_routes_spec(f)[i].class_name
                == f.classes[ci].name && compile_routes_spec(f)[i].method_name == f.classes[ci].methods[mi].name
                && mapping_verb(f.classes[ci].methods[mi].annotations[ai].name, compile_routes_spec(f)[i].http_method),
{
    let a = f.classes[ci].methods[mi].annotations[ai];
    lemma_verb_of_mapping(a.name);
    assert(f.classes.skip(0) =~= f.classes);
    lemma_file_routes_has(f, ci, mi, ai, 0, Seq::empty());
    let x = route_for(f, ci, mi, ai);
    let i = choose|i: int| 0 <= i < compile_routes_spec(f).len() && compile_routes_spec(f)[i] == x;
    assert(compile_routes_spec(f)[i].class_name == f.classes[ci].name);
}

/// Every route a file declares has an absolute path (starting with `/`,
/// ending with `/` only when it is `/`), the file's package, and one of the
/// verbs GET, POST, PUT, DELETE, PATCH or ANY.
pub proof fn lemma_route_shapes(f: FileM)
    ensures
        all_shaped(compile_routes_spec(f), f.package),
{
    lemma_file_routes_shaped(f.package, f.classes, Seq::empty());
}

fn ann_value_exec(a: &Annotation) -> (r: Option<String>)
    ensures
        r.deep_view() == ann_value(a.deep_view()),
{
    match a.first_value() {
        Some(v) => Some(v),
        None => a.named("value"),
    }
}

fn normalize_path(base: &str, sub: &str) -> (r: String)
    ensures
        r@ == normalize_path_spec(base@, sub@),
{
    let b = chars_of(base);
    let sb = chars_of(sub);
    let mut joined = trim_end_char_exec(b.as_slice(), '/');
    joined.push('/');
    let tail = trim_start_char_exec(sb.as_slice(), '/');
    extend_chars(&mut joined, tail.as_slice());
    assert(joined@ =~= trim_end_char(base@, '/') + seq!['/'] + trim_start_char(sub@, '/'));
    let j = trim_end_char_exec(joined.as_slice(), '/');
    if j.len() == 0 {
        let mut v: Vec<char> = Vec::new();
        v.push('/');
        assert(v@ =~= seq!['/']);
        string_from_chars(v.as_slice())
    } else if j[0] == '/' {
        string_from_chars(j.as_slice())
    } else {
        let mut v: Vec<char> = Vec::new();
        v.push('/');
        extend_chars(&mut v, j.as_slice());
        assert(v@ =~= seq!['/'] + j@);
        string_from_chars(v.as_slice())
    }
}

fn bind_param(p: &Param) -> (r: ParamBinding)
    ensures
        r.deep_view() == bind_param_spec(p.deep_view()),
{
    proof {
        lemma_find_annotation(p.annotations.deep_view(), "RequestParam"@);
    }
    match find_annotation_exec(&p.annotations, "RequestParam") {
        Some(ann) => {
            let query_key = match ann_value_exec(ann) {
                Some(v) => if !v.as_str().is_empty() {
                    v
                } else {
                    copy_string(&p.name)
                },
                None => copy_string(&p.name),
            };
            let required = match ann.named("required") {
                Some(v) => !str_eq(v.as_str(), "false"),
                None => true,
            };
            ParamBinding { param: copy_string(&p.name), query_key, required }
        },
        None => ParamBinding {
            param: copy_string(&p.name),
            query_key: copy_string(&p.name),
            required: false,
        },
    }
}

fn bind_params(m: &MethodDecl) -> (r: Vec<ParamBinding>)
    ensures
        r.deep_view() == m.deep_view().params.map_values(|p: ParamM| bind_param_spec(p)),
{
    let ghost pm = m.params.deep_view();
    let mut out: Vec<ParamBinding> = Vec::new();
    let mut i: usize = 0;
    proof {
        lemma_dv_skip0(&m.params);
    }
    while i < m.params.len()
        invariant
            i <= m.params@.len(),
            pm == m.params.deep_view(),
            pm.len() == m.params@.len(),
            out.deep_view() == pm.take(i as int).map_values(|p: ParamM| bind_param_spec(p)),
        decreases m.params.len() - i,
    {
        proof {
            lemma_dv_step(&m.params, i as int);
        }
        push_dv(&mut out, bind_param(&m.params[i]));
        assert(pm.take(i + 1).map_values(|p: ParamM| bind_param_spec(p)) =~= pm.take(
            i as int,
        ).map_values(|p: ParamM| bind_param_spec(p)).push(bind_param_spec(pm[i as int])));
        i = i + 1;
    }
    assert(pm.take(pm.len() as int) =~= pm);
    out
}

fn http_method_exec(name: &str) -> (r: Option<String>)
    ensures
        r.deep_view() == http_method_of(name@),
{
    if str_eq(name, "GetMapping") {
        Some(string_of("GET"))
    } else if str_eq(name, "PostMapping") {
        Some(string_of("POST"))
    } else if str_eq(name, "PutMapping") {
        Some(string_of("PUT"))
    } else if str_eq(name, "DeleteMapping") {
        Some(string_of("DELETE"))
    } else if str_eq(name, "PatchMapping") {
        Some(string_of("PATCH"))
    } else if str_eq(name, "RequestMapping") {
        Some(string_of("ANY"))
    } else {
        None
    }
}

fn method_routes_exec(
    pkg: &Option<String>,
    c: &ClassDecl,
    m: &MethodDecl,
    base: &String,
    out: &mut Vec<CompiledRoute>,
)
    ensures
        final(out).deep_view() == method_routes(
            pkg.deep_view(),
            c.deep_view(),
            m.deep_view(),
            base@,
            m.deep_view().annotations,
            old(out).deep_view(),
        ),
{
    let ghost am = m.annotations.deep_view();
    let ghost o0 = out.deep_view();
    let mut i: usize = 0;
    proof {
        lemma_dv_skip0(&m.annotations);
    }
    while i < m.annotations.len()
        invariant
            i <= m.annotations@.len(),
            am == m.annotations.deep_view(),
            method_routes(pkg.deep_view(), c.deep_view(), m.deep_view(), base@, am, o0)
                == method_routes(
                pkg.deep_view(),
                c.deep_view(),
                m.deep_view(),
                base@,
                am.skip(i as int),
                out.deep_view(),
            ),
        decreases m.annotations.len() - i,
    {
        proof {
            lemma_dv_step(&m.annotations, i as int);
        }
        let ann = &m.annotations[i];
        match http_method_exec(ann.name.as_str()) {
            Some(verb) => {
                let sub = match ann_value_exec(ann) {
                    Some(v) => v,
                    None => new_string(),
                };
                let route = CompiledRoute {
                    http_method: verb,
                    path: normalize_path(base.as_str(), sub.as_str()),
                    class_name: copy_string(&c.name),
                    method_name: copy_string(&m.name),
                    package: copy_opt_string(pkg),
                    params: bind_params(m),
                    implementation: compile_body(c, m),
                };
                push_dv(out, route);
            },
            None => {},
        }
        i = i + 1;
    }
}

fn class_base_exec(c: &ClassDecl) -> (r: String)
    ensures
        r@ == class_base(c.deep_view()),
{
    match find_annotation_exec(&c.annotations, "RequestMapping") {
        Some(a) => match ann_value_exec(a) {
            Some(v) => v,
            None => new_string(),
        },
        None => new_string(),
    }
}

/// Compiles every `@RestController` route a file declares.
pub fn compile_routes(file: &JavaFile) -> (r: Vec<CompiledRoute>)
    ensures
        r.deep_view() == compile_routes_spec(file.deep_view()),
{
    let ghost cm = file.classes.deep_view();
    let mut routes: Vec<CompiledRoute> = Vec::new();
    let mut k: usize = 0;
    proof {
        lemma_dv_skip0(&file.classes);
        assert(routes.deep_view() =~= Seq::<RouteM>::empty());
    }
    while k < file.classes.len()
        invariant
            k <= file.classes@.len(),
            cm == file.classes.deep_view(),
            compile_routes_spec(file.deep_view()) == file_routes(
                file.package.deep_view(),
                cm.skip(k as int),
                routes.deep_view(),
            ),
        decreases file.classes.len() - k,
    {
        proof {
            lemma_dv_step(&file.classes, k as int);
            lemma_find_annotation(cm[k as int].annotations, "RestController"@);
        }
        let class = &file.classes[k];
        if find_annotation_exec(&class.annotations, "RestController").is_some() {
            let base = class_base_exec(class);
            let ghost mm = class.methods.deep_view();
            let ghost r0 = routes.deep_view();
            let mut j: usize = 0;
            proof {
                lemma_dv_skip0(&class.methods);
            }
            while j < class.methods.len()
                invariant
                    j <= class.methods@.len(),
                    mm == class.methods.deep_view(),
                    class_routes(
                        file.package.deep_view(),
                        class.deep_view(),
                        base@,
                        mm,
                        r0,
                    ) == class_routes(
                        file.package.deep_view(),
                        class.deep_view(),
                        base@,
                        mm.skip(j as int),
                        routes.deep_view(),
                    ),
                decreases class.methods.len() - j,
            {
                proof {
                    lemma_dv_step(&class.methods, j as int);
                }
                method_routes_exec(&file.package, class, &class.methods[j], &base, &mut routes);
                j = j + 1;
            }
        }
        k = k + 1;
    }
    routes
}

// ---------------------------------------------------------------------------
// Beans
// ---------------------------------------------------------------------------

#[derive(Debug, Clone, Copy, PartialEq, Eq, Structural)]
pub enum BeanKind {
    Controller,
    Service,
    Component,
    Configuration,
}

/// Bean lifecycle scope, from `@Scope("...")` / `@Bean(scope = "...")`.
#[derive(Debug, Clone, Copy, PartialEq, Eq, Structural)]
pub enum Scope {
    /// One instance, built at boot, shared by all requests.
    Singleton,
    /// A fresh instance at every injection point / resolution.
    Prototype,
    /// One instance per HTTP request.
    Request,
}

/// Where a bean definition came from.
#[derive(Debug, Clone)]
pub enum BeanOrigin {
    /// A stereotype-annotated class (@Service, @Component, ...).
    Class,
    /// An `@Bean` factory method on a configuration class.
    FactoryMethod { config_class: String, method: String },
}

/// Everything the DI container needs to instantiate and wire one bean.
#[derive(Debug, Clone)]
pub struct BeanSpec {
    /// Explicit annotation value, @Bean method name, or the decapitalized
    /// class name.
    pub name: String,
    pub class_name: String,
    pub package: Option<String>,
    pub kind: BeanKind,
    pub scope: Scope,
    pub origin: BeanOrigin,
    pub methods: Vec<CompiledMethod>,
    pub dependencies: Vec<DependencySpec>,
    /// `Some(bases)` when the class carries @ComponentScan /
    /// @RustJVMApplication; empty `bases` means "the class's own package".
    pub component_scan: Option<Vec<String>>,
}

#[derive(Debug, Clone)]
pub struct CompiledMethod {
    pub name: String,
    pub params: Vec<String>,
    pub implementation: MethodImpl,
}

/// An `@Autowired` field: inject the bean whose type matches `ty`.
#[derive(Debug, Clone)]
pub struct DependencySpec {
    pub field_name: String,
    pub ty: String,
}

pub enum BeanOriginM {
    Class,
    FactoryMethod { config_class: Seq<char>, method: Seq<char> },
}

pub struct BeanSpecM {
    pub name: Seq<char>,
    pub class_name: Seq<char>,
    pub package: Option<Seq<char>>,
    pub kind: BeanKind,
    pub scope: Scope,
    pub origin: BeanOriginM,
    pub methods: Seq<CompiledMethodM>,
    pub dependencies: Seq<DependencySpecM>,
    pub component_scan: Option<Seq<Seq<char>>>,
}

pub struct CompiledMethodM {
    pub name: Seq<char>,
    pub params: Seq<Seq<char>>,
    pub implementation: MethodImplM,
}

pub struct DependencySpecM {
    pub field_name: Seq<char>,
    pub ty: Seq<char>,
}

impl DeepView for BeanOrigin {
    type V = BeanOriginM;

    open spec fn deep_view(&self) -> BeanOriginM {
        match self {
            BeanOrigin::Class => BeanOriginM::Class,
            BeanOrigin::FactoryMethod { config_class, method } => BeanOriginM::FactoryMethod {
                config_class: config_class@,
                method: method@,
            },
        }
    }
}

impl DeepView for CompiledMethod {
    type V = CompiledMethodM;

    open spec fn deep_view(&self) -> CompiledMethodM {
        CompiledMethodM {
            name: self.name@,
            params: self.params.deep_view(),
            implementation: self.implementation.deep_view(),
        }
    }
}

impl DeepView for DependencySpec {
    type V = DependencySpecM;

    open spec fn deep_view(&self) -> DependencySpecM {
        DependencySpecM { field_name: self.field_name@, ty: self.ty@ }
    }
}

impl DeepView for BeanSpec {
    type V = BeanSpecM;

    open spec fn deep_view(&self) -> BeanSpecM {
        BeanSpecM {
            name: self.name@,
            class_name: self.class_name@,
            package: self.package.deep_view(),
            kind: self.kind,
            scope: self.scope,
            origin: self.origin.deep_view(),
            methods: self.methods.deep_view(),
            dependencies: self.dependencies.deep_view(),
            component_scan: self.component_scan.deep_view(),
        }
    }
}

/// Base packages named by a scan annotation: `basePackages = ..`, else its
/// positional values; `None` when it names none.
pub open spec fn scan_bases_of(a: AnnotationM) -> Option<Seq<Seq<char>>> {
    let named = named_all_of(a.args, "basePackages"@);
    let bases = if named.len() == 0 {
        values_of(a.args)
    } else {
        named
    };
    if bases.len() == 0 {
        None
    } else {
        Some(bases)
    }
}

pub open spec fn bases_or_empty(o: Option<Seq<Seq<char>>>) -> Seq<Seq<char>> {
    match o {
        Some(b) => b,
        None => Seq::empty(),
    }
}

/// The component-scan declaration of a class, if it carries one.
pub open spec fn component_scan_of(anns: Seq<AnnotationM>) -> Option<Seq<Seq<char>>> {
    match find_annotation(anns, "RustJVMApplication"@) {
        Some(app) => Some(bases_or_empty(scan_bases_of(app))),
        None => match find_annotation(anns, "ComponentScan"@) {
            Some(cs) => Some(bases_or_empty(scan_bases_of(cs))),
            None => None,
        },
    }
}

pub open spec fn kind_of_name(n: Seq<char>) -> Option<BeanKind> {
    if n == "RestController"@ {
        Some(BeanKind::Controller)
    } else if n == "Service"@ {
        Some(BeanKind::Service)
    } else if n == "Component"@ {
        Some(BeanKind::Component)
    } else if n == "Configuration"@ || n == "RustJVMApplication"@ {
        Some(BeanKind::Configuration)
    } else {
        None
    }
}

/// The kind given by the first bean-declaring annotation.
pub open spec fn bean_kind_of(anns: Seq<AnnotationM>) -> Option<BeanKind>
    decreases anns.len(),
{
    if anns.len() == 0 {
        None
    } else {
        match kind_of_name(anns[0].name) {
            Some(k) => Some(k),
            None => bean_kind_of(anns.drop_first()),
        }
    }
}

pub open spec fn is_stereotype(n: Seq<char>) -> bool {
    n == "RestController"@ || n == "Service"@ || n == "Component"@ || n == "Configuration"@
}

/// The first stereotype annotation.
pub open spec fn stereotype_of(anns: Seq<AnnotationM>) -> Option<AnnotationM>
    decreases anns.len(),
{
    if anns.len() == 0 {
        None
    } else if is_stereotype(anns[0].name) {
        Some(anns[0])
    } else {
        stereotype_of(anns.drop_first())
    }
}

pub open spec fn non_empty(o: Option<Seq<char>>) -> Option<Seq<char>> {
    match o {
        Some(v) => if v.len() > 0 {
            Some(v)
        } else {
            None
        },
        None => None,
    }
}

/// The name with its first character lower-cased (Spring's default bean
/// name).
pub open spec fn decapitalize_spec(s: Seq<char>) -> Seq<char> {
    if s.len() == 0 {
        Seq::empty()
    } else {
        char_lowercase(s[0]) + s.drop_first()
    }
}

pub open spec fn parse_scope_spec(v: Seq<char>) -> Scope {
    let l = ascii_lower_seq(v);
    if l == "prototype"@ {
        Scope::Prototype
    } else if l == "request"@ {
        Scope::Request
    } else {
        Scope::Singleton
    }
}

pub open spec fn class_bean_name(c: ClassM) -> Seq<char> {
    let explicit = match stereotype_of(c.annotations) {
        Some(a) => non_empty(ann_value(a)),
        None => None,
    };
    match explicit {
        Some(v) => v,
        None => decapitalize_spec(c.name),
    }
}

pub open spec fn class_scope(c: ClassM) -> Scope {
    match find_annotation(c.annotations, "Scope"@) {
        Some(s) => match ann_value(s) {
            Some(v) => parse_scope_spec(v),
            None => Scope::Singleton,
        },
        None => Scope::Singleton,
    }
}

pub open spec fn compiled_method_spec(c: ClassM, m: MethodM) -> CompiledMethodM {
    CompiledMethodM {
        name: m.name,
        params: m.params.map_values(|p: ParamM| p.name),
        implementation: compile_body_spec(c, m),
    }
}

pub open spec fn compiled_methods_spec(c: ClassM) -> Seq<CompiledMethodM> {
    c.methods.map_values(|m: MethodM| compiled_method_spec(c, m))
}

/// Dependencies of the `@Autowired` fields among `fs`, after `acc`.
pub open spec fn field_deps(fs: Seq<FieldM>, acc: Seq<DependencySpecM>) -> Seq<DependencySpecM>
    decreases fs.len(),
{
    if fs.len() == 0 {
        acc
    } else if is_injection_point_m(fs[0]) {
        field_deps(
            fs.drop_first(),
            acc.push(DependencySpecM { field_name: fs[0].name, ty: fs[0].ty }),
        )
    } else {
        field_deps(fs.drop_first(), acc)
    }
}

pub open spec fn class_bean(pkg: Option<Seq<char>>, c: ClassM, kind: BeanKind) -> BeanSpecM {
    BeanSpecM {
        name: class_bean_name(c),
        class_name: c.name,
        package: pkg,
        kind: kind,
        scope: class_scope(c),
        origin: BeanOriginM::Class,
        methods: compiled_methods_spec(c),
        dependencies: field_deps(c.fields, Seq::empty()),
        component_scan: component_scan_of(c.annotations),
    }
}

pub open spec fn param_dep(p: ParamM) -> DependencySpecM {
    DependencySpecM { field_name: p.name, ty: p.ty }
}

/// The bean an `@Bean` factory method declares.
pub open spec fn factory_bean(pkg: Option<Seq<char>>, c: ClassM, m: MethodM) -> Option<BeanSpecM> {
    match find_annotation(m.annotations, "Bean"@) {
        None => None,
        Some(b) => Some(
            BeanSpecM {
                name: match non_empty(
                    match named_of(b.args, "name"@) {
                        Some(v) => Some(v),
                        None => first_value_of(b.args),
                    },
                ) {
                    Some(v) => v,
                    None => m.name,
                },
                class_name: m.return_type,
                package: pkg,
                kind: BeanKind::Component,
                scope: match named_of(b.args, "scope"@) {
                    Some(v) => parse_scope_spec(v),
                    None => Scope::Singleton,
                },
                origin: BeanOriginM::FactoryMethod { config_class: c.name, method: m.name },
                methods: Seq::empty(),
                dependencies: m.params.map_values(|p: ParamM| param_dep(p)),
                component_scan: None,
            },
        ),
    }
}

pub open spec fn factory_beans(
    pkg: Option<Seq<char>>,
    c: ClassM,
    ms: Seq<MethodM>,
    acc: Seq<BeanSpecM>,
) -> Seq<BeanSpecM>
    decreases ms.len(),
{
    if ms.len() == 0 {
        acc
    } else {
        match factory_bean(pkg, c, ms[0]) {
            Some(b) => factory_beans(pkg, c, ms.drop_first(), acc.push(b)),
            None => factory_beans(pkg, c, ms.drop_first(), acc),
        }
    }
}

/// The beans a class declares: itself, then its factory methods, when it
/// carries a bean-declaring annotation.
pub open spec fn beans_of_class(pkg: Option<Seq<char>>, c: ClassM, acc: Seq<BeanSpecM>) -> Seq<
    BeanSpecM,
> {
    match bean_kind_of(c.annotations) {
        Some(k) => factory_beans(pkg, c, c.methods, acc.push(class_bean(pkg, c, k))),
        None => acc,
    }
}

pub open spec fn file_beans(pkg: Option<Seq<char>>, cs: Seq<ClassM>, acc: Seq<BeanSpecM>) -> Seq<
    BeanSpecM,
>
    decreases cs.len(),
{
    if cs.len() == 0 {
        acc
    } else {
        file_beans(pkg, cs.drop_first(), beans_of_class(pkg, cs[0], acc))
    }
}

pub open spec fn extract_beans_spec(f: FileM) -> Seq<BeanSpecM> {
    file_beans(f.package, f.classes, Seq::empty())
}

/// The `@Bean` factory methods among `ms`.
pub open spec fn factory_count(ms: Seq<MethodM>) -> nat
    decreases ms.len(),
{
    if ms.len() == 0 {
        0
    } else {
        (if find_annotation(ms[0].annotations, "Bean"@) is Some {
            1nat
        } else {
            0nat
        }) + factory_count(ms.drop_first())
    }
}

/// The beans the classes `cs` declare: one per bean-declaring class, and
/// one per `@Bean` method of such a class.
pub open spec fn declared_bean_count(cs: Seq<ClassM>) -> nat
    decreases cs.len(),
{
    if cs.len() == 0 {
        0
    } else {
        (if bean_kind_of(cs[0].annotations) is Some {
            1 + factory_count(cs[0].methods)
        } else {
            0nat
        }) + declared_bean_count(cs.drop_first())
    }
}

/// Every bean of `bs` is declared in package `pkg`.
pub open spec fn all_in_package(bs: Seq<BeanSpecM>, pkg: Option<Seq<char>>) -> bool {
    forall|i: int| 0 <= i < bs.len() ==> (#[trigger] bs[i]).package == pkg
}

proof fn lemma_push_in_package(bs: Seq<BeanSpecM>, b: BeanSpecM, pkg: Option<Seq<char>>)
    requires
        all_in_package(bs, pkg),
        b.package == pkg,
    ensures
        all_in_package(bs.push(b), pkg),
{
    assert forall|i: int| 0 <= i < bs.push(b).len() implies (#[trigger] bs.push(b)[i]).package == pkg by {
        if i < bs.len() {
            assert(bs.push(b)[i] == bs[i]);
        }
    }
}

proof fn lemma_factory_beans_count(pkg: Option<Seq<char>>, c: ClassM, ms: Seq<MethodM>, acc: Seq<BeanSpecM>)
    requires
        all_in_package(acc, pkg),
    ensures
        factory_beans(pkg, c, ms, acc).len() == acc.len() + factory_count(ms),
        all_in_package(factory_beans(pkg, c, ms, acc), pkg),
    decreases ms.len(),
{
    if ms.len() > 0 {
        match factory_bean(pkg, c, ms[0]) {
            Some(b) => {
                lemma_push_in_package(acc, b, pkg);
                lemma_factory_beans_count(pkg, c, ms.drop_first(), acc.push(b));
            },
            None => lemma_factory_beans_count(pkg, c, ms.drop_first(), acc),
        }
    }
}

proof fn lemma_file_beans_count(pkg: Option<Seq<char>>, cs: Seq<ClassM>, acc: Seq<BeanSpecM>)
    requires
        all_in_package(acc, pkg),
    ensures
        file_beans(pkg, cs, acc).len() == acc.len() + declared_bean_count(cs),
        all_in_package(file_beans(pkg, cs, acc), pkg),
    decreases cs.len(),
{
    if cs.len() > 0 {
        let c = cs[0];
        match bean_kind_of(c.annotations) {
            Some(k) => {
                lemma_push_in_package(acc, class_bean(pkg, c, k), pkg);
                lemma_factory_beans_count(pkg, c, c.methods, acc.push(class_bean(pkg, c, k)));
            },
            None => {},
        }
        lemma_file_beans_count(pkg, cs.drop_first(), beans_of_class(pkg, c, acc));
    }
}

/// The dependencies of the `@Autowired` fields among `fs`, in order.
pub open spec fn injected_deps(fs: Seq<FieldM>) -> Seq<DependencySpecM> {
    fs.filter(|f: FieldM| is_injection_point_m(f)).map_values(
        |f: FieldM| DependencySpecM { field_name: f.name, ty: f.ty },
    )
}

proof fn lemma_field_deps(fs: Seq<FieldM>, acc: Seq<DependencySpecM>)
    ensures
        field_deps(fs, acc) == acc + injected_deps(fs),
    decreases fs.len(),
{
    let pred = |f: FieldM| is_injection_point_m(f);
    let mk = |f: FieldM| DependencySpecM { field_name: f.name, ty: f.ty };
    if fs.len() == 0 {
        reveal(Seq::filter);
        assert(acc + injected_deps(fs) =~= acc);
    } else {
        let head = seq![fs[0]];
        let rest = fs.drop_first();
        assert(fs =~= head + rest);
        Seq::filter_distributes_over_add(head, rest, pred);
        reveal(Seq::filter);
        assert(head.drop_last() =~= Seq::<FieldM>::empty());
        assert(Seq::<FieldM>::empty().filter(pred) =~= Seq::<FieldM>::empty());
        if is_injection_point_m(fs[0]) {
            assert(head.filter(pred) =~= head);
            let d = DependencySpecM { field_name: fs[0].name, ty: fs[0].ty };
            lemma_field_deps(rest, acc.push(d));
            assert(fs.filter(pred) =~= head + rest.filter(pred));
            assert((head + rest.filter(pred)).map_values(mk) =~= seq![d] + rest.filter(pred).map_values(mk));
            assert(acc.push(d) + injected_deps(rest) =~= acc + injected_deps(fs));
        } else {
            assert(head.filter(pred) =~= Seq::<FieldM>::empty());
            lemma_field_deps(rest, acc);
            assert(fs.filter(pred) =~= rest.filter(pred));
        }
    }
}

proof fn lemma_factory_beans_prefix(pkg: Option<Seq<char>>, c: ClassM, ms: Seq<MethodM>, acc: Seq<BeanSpecM>)
    ensures
        factory_beans(pkg, c, ms, acc).len() >= acc.len(),
        factory_beans(pkg, c, ms, acc).take(acc.len() as int) == acc,
    decreases ms.len(),
{
    if ms.len() == 0 {
        assert(acc.take(acc.len() as int) =~= acc);
    } else {
        match factory_bean(pkg, c, ms[0]) {
            Some(b) => {
                lemma_factory_beans_prefix(pkg, c, ms.drop_first(), acc.push(b));
                let r = factory_beans(pkg, c, ms.drop_first(), acc.push(b));
                assert(r.take(acc.len() as int) =~= r.take((acc.len() + 1) as int).take(acc.len() as int));
                assert(acc.push(b).take(acc.len() as int) =~= acc);
            },
            None => lemma_factory_beans_prefix(pkg, c, ms.drop_first(), acc),
        }
    }
}

proof fn lemma_file_beans_prefix(pkg: Option<Seq<char>>, cs: Seq<ClassM>, acc: Seq<BeanSpecM>)
    ensures
        file_beans(pkg, cs, acc).len() >= acc.len(),
        file_beans(pkg, cs, acc).take(acc.len() as int) == acc,
    decreases cs.len(),
{
    if cs.len() == 0 {
        assert(acc.take(acc.len() as int) =~= acc);
    } else {
        let next = beans_of_class(pkg, cs[0], acc);
        match bean_kind_of(cs[0].annotations) {
            Some(k) => {
                lemma_factory_beans_prefix(pkg, cs[0], cs[0].methods, acc.push(class_bean(pkg, cs[0], k)));
                assert(next.take(acc.len() as int) =~= next.take((acc.len() + 1) as int).take(acc.len() as int));
                assert(acc.push(class_bean(pkg, cs[0], k)).take(acc.len() as int) =~= acc);
            },
            None => {
                assert(acc.take(acc.len() as int) =~= acc);
            },
        }
        lemma_file_beans_prefix(pkg, cs.drop_first(), next);
        let r = file_beans(pkg, cs.drop_first(), next);
        assert(r.take(acc.len() as int) =~= r.take(next.len() as int).take(acc.len() as int));
    }
}

proof fn lemma_file_beans_has(pkg: Option<Seq<char>>, cs: Seq<ClassM>, acc: Seq<BeanSpecM>, ci: int)
    requires
        0 <= ci < cs.len(),
        bean_kind_of(cs[ci].annotations) is Some,
    ensures
        file_beans(pkg, cs, acc).contains(class_bean(pkg, cs[ci], bean_kind_of(cs[ci].annotations)->0)),
    decreases ci,
{
    let next = beans_of_class(pkg, cs[0], acc);
    if ci == 0 {
        let k = bean_kind_of(cs[0].annotations)->0;
        let b = class_bean(pkg, cs[0], k);
        lemma_factory_beans_prefix(pkg, cs[0], cs[0].methods, acc.push(b));
        assert(next.take((acc.len() + 1) as int) == acc.push(b));
        assert(next[acc.len() as int] == acc.push(b)[acc.len() as int]);
        lemma_file_beans_prefix(pkg, cs.drop_first(), next);
        let r = file_beans(pkg, cs.drop_first(), next);
        assert(r.take(next.len() as int)[acc.len() as int] == next[acc.len() as int]);
        assert(r[acc.len() as int] == b);
    } else {
        assert(cs.drop_first()[ci - 1] == cs[ci]);
        lemma_file_beans_has(pkg, cs.drop_first(), next, ci - 1);
    }
}

/// An annotation that makes a class a bean.
pub open spec fn bean_annotation(name: Seq<char>) -> bool {
    ||| name == "RestController"@
    ||| name == "Service"@
    ||| name == "Component"@
    ||| name == "Configuration"@
    ||| name == "RustJVMApplication"@
}

/// The kind such an annotation gives: `@RestController` a controller,
/// `@Service` a service, `@Component` a component, `@Configuration` and
/// `@RustJVMApplication` a configuration.
pub open spec fn annotation_kind(name: Seq<char>, k: BeanKind) -> bool {
    ||| name == "RestController"@ && k == BeanKind::Controller
    ||| name == "Service"@ && k == BeanKind::Service
    ||| name == "Component"@ && k == BeanKind::Component
    ||| name == "Configuration"@ && k == BeanKind::Configuration
    ||| name == "RustJVMApplication"@ && k == BeanKind::Configuration
}

/// Annotation `ai` is the first bean-declaring annotation of `anns`.
pub open spec fn first_bean_annotation(anns: Seq<AnnotationM>, ai: int) -> bool {
    &&& 0 <= ai < anns.len()
    &&& bean_annotation(anns[ai].name)
    &&& forall|aj: int| 0 <= aj < ai ==> !bean_annotation(#[trigger] anns[aj].name)
}

proof fn lemma_kind_of_name(n: Seq<char>)
    ensures
        kind_of_name(n) matches Some(k) ==> annotation_kind(n, k),
        kind_of_name(n) is Some <==> bean_annotation(n),
{
    reveal_strlit("RestController");
    reveal_strlit("Service");
    reveal_strlit("Component");
    reveal_strlit("Configuration");
    reveal_strlit("RustJVMApplication");
}

proof fn lemma_bean_kind_first(anns: Seq<AnnotationM>, ai: int)
    requires
        first_bean_annotation(anns, ai),
    ensures
        bean_kind_of(anns) matches Some(k) && annotation_kind(anns[ai].name, k),
    decreases ai,
{
    lemma_kind_of_name(anns[0].name);
    if ai > 0 {
        assert(!bean_annotation(anns[0].name));
        let rest = anns.drop_first();
        assert forall|aj: int| 0 <= aj < ai - 1 implies !bean_annotation(#[trigger] rest[aj].name) by {
            assert(rest[aj] == anns[aj + 1]);
        }
        assert(rest[ai - 1] == anns[ai]);
        lemma_bean_kind_first(rest, ai - 1);
    }
}

proof fn lemma_bean_kind_none(anns: Seq<AnnotationM>)
    requires
        forall|aj: int| 0 <= aj < anns.len() ==> !bean_annotation(#[trigger] anns[aj].name),
    ensures
        bean_kind_of(anns) is None,
    decreases anns.len(),
{
    if anns.len() > 0 {
        lemma_kind_of_name(anns[0].name);
        let rest = anns.drop_first();
        assert forall|aj: int| 0 <= aj < rest.len() implies !bean_annotation(#[trigger] rest[aj].name) by {
            assert(rest[aj] == anns[aj + 1]);
        }
        lemma_bean_kind_none(rest);
    }
}

proof fn lemma_bean_kind_some(anns: Seq<AnnotationM>)
    requires
        bean_kind_of(anns) is Some,
    ensures
        exists|ai: int| #[trigger] first_bean_annotation(anns, ai) && annotation_kind(anns[ai].name, bean_kind_of(anns)->0),
    decreases anns.len(),
{
    lemma_kind_of_name(anns[0].name);
    if kind_of_name(anns[0].name) is Some {
        assert(first_bean_annotation(anns, 0));
    } else {
        let rest = anns.drop_first();
        lemma_bean_kind_some(rest);
        let a1 = choose|a1: int| #[trigger] first_bean_annotation(rest, a1) && annotation_kind(rest[a1].name, bean_kind_of(rest)->0);
        assert(rest[a1] == anns[a1 + 1]);
        assert forall|aj: int| 0 <= aj < a1 + 1 implies !bean_annotation(#[trigger] anns[aj].name) by {
            if aj > 0 {
                assert(anns[aj] == rest[aj - 1]);
            }
        }
        assert(first_bean_annotation(anns, a1 + 1));
    }
}

/// Every class annotated `@RestController`, `@Service`, `@Component`,
/// `@Configuration` or `@RustJVMApplication` yields a bean spec of its own —
/// class origin, its class name, the file's package — of the kind its first
/// such annotation gives (`@Component` a component, and so on).
pub proof fn lemma_bean_classes(f: FileM, ci: int, ai: int)
    requires
        0 <= ci < f.classes.len(),
        first_bean_annotation(f.classes[ci].annotations, ai),
    ensures
        exists|j: int|
            0 <= j < extract_beans_spec(f).len() && #[trigger] extract_beans_spec(f)[j].class_name == f.classes[ci].name
                && extract_beans_spec(f)[j].origin == BeanOriginM::Class && extract_beans_spec(f)[j].package == f.package
                && annotation_kind(f.classes[ci].annotations[ai].name, extract_beans_spec(f)[j].kind),
{
    let c = f.classes[ci];
    lemma_bean_kind_first(c.annotations, ai);
    lemma_class_bean(f, ci);
    let b = class_bean(f.package, c, bean_kind_of(c.annotations)->0);
    let j = choose|j: int| 0 <= j < extract_beans_spec(f).len() && extract_beans_spec(f)[j] == b;
    assert(extract_beans_spec(f)[j].class_name == c.name);
}

/// A bean spec of class origin comes from a class of the file.
pub open spec fn class_spec_declared(f: FileM, b: BeanSpecM) -> bool {
    b.origin == BeanOriginM::Class ==> exists|ci: int, ai: int|
        0 <= ci < f.classes.len() && #[trigger] first_bean_annotation(f.classes[ci].annotations, ai)
            && b.class_name == f.classes[ci].name && annotation_kind(f.classes[ci].annotations[ai].name, b.kind)
}

pub open spec fn all_class_specs_declared(f: FileM, bs: Seq<BeanSpecM>) -> bool {
    forall|j: int| 0 <= j < bs.len() ==> class_spec_declared(f, #[trigger] bs[j])
}

proof fn lemma_push_class_spec(f: FileM, bs: Seq<BeanSpecM>, b: BeanSpecM)
    requires
        all_class_specs_declared(f, bs),
        class_spec_declared(f, b),
    ensures
        all_class_specs_declared(f, bs.push(b)),
{
    assert forall|j: int| 0 <= j < bs.push(b).len() implies class_spec_declared(f, #[trigger] bs.push(b)[j]) by {
        if j < bs.len() {
            assert(bs.push(b)[j] == bs[j]);
        }
    }
}

proof fn lemma_factory_beans_declared(f: FileM, c: ClassM, ms: Seq<MethodM>, acc: Seq<BeanSpecM>)
    requires
        all_class_specs_declared(f, acc),
    ensures
        all_class_specs_declared(f, factory_beans(f.package, c, ms, acc)),
    decreases ms.len(),
{
    if ms.len() > 0 {
        match factory_bean(f.package, c, ms[0]) {
            Some(b) => {
                lemma_push_class_spec(f, acc, b);
                lemma_factory_beans_declared(f, c, ms.drop_first(), acc.push(b));
            },
            None => lemma_factory_beans_declared(f, c, ms.drop_first(), acc),
        }
    }
}

proof fn lemma_file_beans_declared(f: FileM, i: int, acc: Seq<BeanSpecM>)
    requires
        0 <= i <= f.classes.len(),
        all_class_specs_declared(f, acc),
    ensures
        all_class_specs_declared(f, file_beans(f.package, f.classes.skip(i), acc)),
    decreases f.classes.len() - i,
{
    let cs = f.classes.skip(i);
    if i < f.classes.len() {
        let c = f.classes[i];
        assert(cs[0] == c);
        assert(cs.drop_first() =~= f.classes.skip(i + 1));
        match bean_kind_of(c.annotations) {
            Some(k) => {
                lemma_bean_kind_some(c.annotations);
                let ai = choose|ai: int| #[trigger] first_bean_annotation(c.annotations, ai) && annotation_kind(c.annotations[ai].name, k);
                let b = class_bean(f.package, c, k);
                assert(first_bean_annotation(f.classes[i].annotations, ai));
                lemma_push_class_spec(f, acc, b);
                lemma_factory_beans_declared(f, c, c.methods, acc.push(b));
            },
            None => {},
        }
        lemma_file_beans_declared(f, i + 1, beans_of_class(f.package, c, acc));
    } else {
        assert(cs.len() == 0);
    }
}

/// Every bean spec of class origin comes from a class of the file whose
/// first bean-declaring annotation gives its kind.
pub proof fn lemma_class_specs_declared(f: FileM)
    ensures
        all_class_specs_declared(f, extract_beans_spec(f)),
{
    assert(f.classes.skip(0) =~= f.classes);
    lemma_file_beans_declared(f, 0, Seq::empty());
}

/// A bean-declaring class of a file is among the file's beans, named by
/// its stereotype's non-empty value, else by its class name with the first
/// letter lower-cased, and depending on its `@Autowired` fields, in order.
pub proof fn lemma_class_bean(f: FileM, ci: int)
    requires
        0 <= ci < f.classes.len(),
        bean_kind_of(f.classes[ci].annotations) is Some,
    ensures
        ({
            let c = f.classes[ci];
            let b = class_bean(f.package, c, bean_kind_of(c.annotations)->0);
            &&& extract_beans_spec(f).contains(b)
            &&& b.dependencies == injected_deps(c.fields)
            &&& b.class_name == c.name
            &&& (match stereotype_of(c.annotations) {
                Some(a) => non_empty(ann_value(a)),
                None => None,
            }) is None ==> b.name == decapitalize_spec(c.name)
        }),
{
    lemma_file_beans_has(f.package, f.classes, Seq::empty(), ci);
    lemma_field_deps(f.classes[ci].fields, Seq::empty());
    assert(Seq::<DependencySpecM>::empty() + injected_deps(f.classes[ci].fields) =~= injected_deps(f.classes[ci].fields));
}

/// A file declares one bean per bean-declaring class plus one per `@Bean`
/// method of such a class, every one of them in the file's package.
pub proof fn lemma_extracted_beans(f: FileM)
    ensures
        extract_beans_spec(f).len() == declared_bean_count(f.classes),
        all_in_package(extract_beans_spec(f), f.package),
{
    lemma_file_beans_count(f.package, f.classes, Seq::empty());
}

fn scan_bases_from(ann: &Annotation) -> (r: Option<Vec<String>>)
    ensures
        r.deep_view() == scan_bases_of(ann.deep_view()),
{
    let mut bases = ann.named_all("basePackages");
    if bases.len() == 0 {
        bases = ann.values();
    }
    if bases.len() == 0 {
        None
    } else {
        Some(bases)
    }
}

fn scan_or_empty(o: Option<Vec<String>>) -> (r: Vec<String>)
    ensures
        r.deep_view() == bases_or_empty(o.deep_view()),
{
    match o {
        Some(v) => v,
        None => {
            let v: Vec<String> = Vec::new();
            assert(v.deep_view() =~= Seq::<Seq<char>>::empty());
            v
        },
    }
}

fn component_scan_exec(anns: &Vec<Annotation>) -> (r: Option<Vec<String>>)
    ensures
        r.deep_view() == component_scan_of(anns.deep_view()),
{
    match find_annotation_exec(anns, "RustJVMApplication") {
        Some(app) => Some(scan_or_empty(scan_bases_from(app))),
        None => match find_annotation_exec(anns, "ComponentScan") {
            Some(cs) => Some(scan_or_empty(scan_bases_from(cs))),
            None => None,
        },
    }
}

fn kind_of_name_exec(n: &str) -> (r: Option<BeanKind>)
    ensures
        r == kind_of_name(n@),
{
    if str_eq(n, "RestController") {
        Some(BeanKind::Controller)
    } else if str_eq(n, "Service") {
        Some(BeanKind::Service)
    } else if str_eq(n, "Component") {
        Some(BeanKind::Component)
    } else if str_eq(n, "Configuration") || str_eq(n, "RustJVMApplication") {
        Some(BeanKind::Configuration)
    } else {
        None
    }
}

fn bean_kind_exec(anns: &Vec<Annotation>) -> (r: Option<BeanKind>)
    ensures
        r == bean_kind_of(anns.deep_view()),
{
    let mut i: usize = 0;
    proof {
        lemma_dv_skip0(anns);
    }
    while i < anns.len()
        invariant
            i <= anns@.len(),
            bean_kind_of(anns.deep_view()) == bean_kind_of(anns.deep_view().skip(i as int)),
        decreases anns.len() - i,
    {
        proof {
            lemma_dv_step(anns, i as int);
        }
        match kind_of_name_exec(anns[i].name.as_str()) {
            Some(k) => {
                return Some(k);
            },
            None => {},
        }
        i = i + 1;
    }
    None
}

fn stereotype_exec<'a>(anns: &'a Vec<Annotation>) -> (r: Option<&'a Annotation>)
    ensures
        match r {
            None => stereotype_of(anns.deep_view()) is None,
            Some(a) => stereotype_of(anns.deep_view()) == Some(a.deep_view()),
        },
{
    let mut i: usize = 0;
    proof {
        lemma_dv_skip0(anns);
    }
    while i < anns.len()
        invariant
            i <= anns@.len(),
            stereotype_of(anns.deep_view()) == stereotype_of(anns.deep_view().skip(i as int)),
        decreases anns.len() - i,
    {
        proof {
            lemma_dv_step(anns, i as int);
        }
        let n = anns[i].name.as_str();
        if str_eq(n, "RestController") || str_eq(n, "Service") || str_eq(n, "Component")
            || str_eq(n, "Configuration") {
            return Some(&anns[i]);
        }
        i = i + 1;
    }
    None
}

fn decapitalize(s: &str) -> (r: String)
    ensures
        r@ == decapitalize_spec(s@),
{
    let cs = chars_of(s);
    if cs.len() == 0 {
        return new_string();
    }
    let mut out = lowercase_char(cs[0]);
    let rest = string_of_range(&cs, 1, cs.len());
    push_str(&mut out, rest.as_str());
    assert(cs@.subrange(1, cs@.len() as int) =~= s@.drop_first());
    out
}

fn parse_scope(value: &str) -> (r: Scope)
    ensures
        r == parse_scope_spec(value@),
{
    let l = to_ascii_lowercase(value);
    let p = chars_of("prototype");
    let q = chars_of("request");
    if crate::text::chars_eq(l.as_slice(), p.as_slice()) {
        Scope::Prototype
    } else if crate::text::chars_eq(l.as_slice(), q.as_slice()) {
        Scope::Request
    } else {
        Scope::Singleton
    }
}

fn class_scope_exec(c: &ClassDecl) -> (r: Scope)
    ensures
        r == class_scope(c.deep_view()),
{
    match find_annotation_exec(&c.annotations, "Scope") {
        Some(s) => match ann_value_exec(s) {
            Some(v) => parse_scope(v.as_str()),
            None => Scope::Singleton,
        },
        None => Scope::Singleton,
    }
}

fn non_empty_exec(o: Option<String>) -> (r: Option<String>)
    ensures
        r.deep_view() == non_empty(o.deep_view()),
{
    match o {
        Some(v) => if v.as_str().is_empty() {
            None
        } else {
            Some(v)
        },
        None => None,
    }
}

fn class_bean_name_exec(c: &ClassDecl) -> (r: String)
    ensures
        r@ == class_bean_name(c.deep_view()),
{
    let explicit = match stereotype_exec(&c.annotations) {
        Some(a) => non_empty_exec(ann_value_exec(a)),
        None => None,
    };
    match explicit {
        Some(v) => v,
        None => decapitalize(c.name.as_str()),
    }
}

fn param_names(m: &MethodDecl) -> (r: Vec<String>)
    ensures
        r.deep_view() == m.deep_view().params.map_values(|p: ParamM| p.name),
{
    let ghost pm = m.params.deep_view();
    let mut out: Vec<String> = Vec::new();
    let mut i: usize = 0;
    proof {
        lemma_dv_skip0(&m.params);
    }
    while i < m.params.len()
        invariant
            i <= m.params@.len(),
            pm == m.params.deep_view(),
            pm.len() == m.params@.len(),
            out.deep_view() == pm.take(i as int).map_values(|p: ParamM| p.name),
        decreases m.params.len() - i,
    {
        proof {
            lemma_dv_step(&m.params, i as int);
        }
        push_dv(&mut out, copy_string(&m.params[i].name));
        assert(pm.take(i + 1).map_values(|p: ParamM| p.name) =~= pm.take(i as int).map_values(
            |p: ParamM| p.name,
        ).push(pm[i as int].name));
        i = i + 1;
    }
    assert(pm.take(pm.len() as int) =~= pm);
    out
}

fn param_deps(m: &MethodDecl) -> (r: Vec<DependencySpec>)
    ensures
        r.deep_view() == m.deep_view().params.map_values(|p: ParamM| param_dep(p)),
{
    let ghost pm = m.params.deep_view();
    let mut out: Vec<DependencySpec> = Vec::new();
    let mut i: usize = 0;
    proof {
        lemma_dv_skip0(&m.params);
    }
    while i < m.params.len()
        invariant
            i <= m.params@.len(),
            pm == m.params.deep_view(),
            pm.len() == m.params@.len(),
            out.deep_view() == pm.take(i as int).map_values(|p: ParamM| param_dep(p)),
        decreases m.params.len() - i,
    {
        proof {
            lemma_dv_step(&m.params, i as int);
        }
        let d = DependencySpec {
            field_name: copy_string(&m.params[i].name),
            ty: copy_string(&m.params[i].ty),
        };
        push_dv(&mut out, d);
        assert(pm.take(i + 1).map_values(|p: ParamM| param_dep(p)) =~= pm.take(
            i as int,
        ).map_values(|p: ParamM| param_dep(p)).push(param_dep(pm[i as int])));
        i = i + 1;
    }
    assert(pm.take(pm.len() as int) =~= pm);
    out
}

fn compiled_methods(c: &ClassDecl) -> (r: Vec<CompiledMethod>)
    ensures
        r.deep_view() == compiled_methods_spec(c.deep_view()),
{
    let ghost mm = c.methods.deep_view();
    let mut out: Vec<CompiledMethod> = Vec::new();
    let mut i: usize = 0;
    proof {
        lemma_dv_skip0(&c.methods);
    }
    while i < c.methods.len()
        invariant
            i <= c.methods@.len(),
            mm == c.methods.deep_view(),
            mm.len() == c.methods@.len(),
            out.deep_view() == mm.take(i as int).map_values(
                |m: MethodM| compiled_method_spec(c.deep_view(), m),
            ),
        decreases c.methods.len() - i,
    {
        proof {
            lemma_dv_step(&c.methods, i as int);
        }
        let m = &c.methods[i];
        let cm = CompiledMethod {
            name: copy_string(&m.name),
            params: param_names(m),
            implementation: compile_body(c, m),
        };
        push_dv(&mut out, cm);
        assert(mm.take(i + 1).map_values(|m: MethodM| compiled_method_spec(c.deep_view(), m))
            =~= mm.take(i as int).map_values(
            |m: MethodM| compiled_method_spec(c.deep_view(), m),
        ).push(compiled_method_spec(c.deep_view(), mm[i as int])));
        i = i + 1;
    }
    assert(mm.take(mm.len() as int) =~= mm);
    out
}

fn field_deps_exec(fields: &Vec<FieldDecl>) -> (r: Vec<DependencySpec>)
    ensures
        r.deep_view() == field_deps(fields.deep_view(), Seq::empty()),
{
    let mut out: Vec<DependencySpec> = Vec::new();
    let mut i: usize = 0;
    proof {
        lemma_dv_skip0(fields);
        assert(out.deep_view() =~= Seq::<DependencySpecM>::empty());
    }
    while i < fields.len()
        invariant
            i <= fields@.len(),
            field_deps(fields.deep_view(), Seq::empty()) == field_deps(
                fields.deep_view().skip(i as int),
                out.deep_view(),
            ),
        decreases fields.len() - i,
    {
        proof {
            lemma_dv_step(fields, i as int);
        }
        let f = &fields[i];
        if f.is_injection_point() {
            push_dv(
                &mut out,
                DependencySpec { field_name: copy_string(&f.name), ty: copy_string(&f.ty) },
            );
        }
        i = i + 1;
    }
    out
}

fn factory_bean_exec(pkg: &Option<String>, c: &ClassDecl, m: &MethodDecl) -> (r: Option<BeanSpec>)
    ensures
        r.deep_view() == factory_bean(pkg.deep_view(), c.deep_view(), m.deep_view()),
{
    let b = match find_annotation_exec(&m.annotations, "Bean") {
        Some(b) => b,
        None => {
            return None;
        },
    };
    let declared = match b.named("name") {
        Some(v) => Some(v),
        None => b.first_value(),
    };
    let name = match non_empty_exec(declared) {
        Some(v) => v,
        None => copy_string(&m.name),
    };
    let scope = match b.named("scope") {
        Some(v) => parse_scope(v.as_str()),
        None => Scope::Singleton,
    };
    let methods: Vec<CompiledMethod> = Vec::new();
    assert(methods.deep_view() =~= Seq::<CompiledMethodM>::empty());
    Some(
        BeanSpec {
            name,
            class_name: copy_string(&m.return_type),
            package: copy_opt_string(pkg),
            kind: BeanKind::Component,
            scope,
            origin: BeanOrigin::FactoryMethod {
                config_class: copy_string(&c.name),
                method: copy_string(&m.name),
            },
            methods,
            dependencies: param_deps(m),
            component_scan: None,
        },
    )
}

/// Extracts every bean definition a file declares.
pub fn extract_beans(file: &JavaFile) -> (r: Vec<BeanSpec>)
    ensures
        r.deep_view() == extract_beans_spec(file.deep_view()),
{
    let ghost cm = file.classes.deep_view();
    let ghost pkg = file.package.deep_view();
    let mut out: Vec<BeanSpec> = Vec::new();
    let mut k: usize = 0;
    proof {
        lemma_dv_skip0(&file.classes);
        assert(out.deep_view() =~= Seq::<BeanSpecM>::empty());
    }
    while k < file.classes.len()
        invariant
            k <= file.classes@.len(),
            cm == file.classes.deep_view(),
            pkg == file.package.deep_view(),
            extract_beans_spec(file.deep_view()) == file_beans(
                pkg,
                cm.skip(k as int),
                out.deep_view(),
            ),
        decreases file.classes.len() - k,
    {
        proof {
            lemma_dv_step(&file.classes, k as int);
        }
        let class = &file.classes[k];
        match bean_kind_exec(&class.annotations) {
            Some(kind) => {
                let bean = BeanSpec {
                    name: class_bean_name_exec(class),
                    class_name: copy_string(&class.name),
                    package: copy_opt_string(&file.package),
                    kind,
                    scope: class_scope_exec(class),
                    origin: BeanOrigin::Class,
                    methods: compiled_methods(class),
                    dependencies: field_deps_exec(&class.fields),
                    component_scan: component_scan_exec(&class.annotations),
                };
                push_dv(&mut out, bean);
                let ghost mm = class.methods.deep_view();
                let ghost o0 = out.deep_view();
                let mut j: usize = 0;
                proof {
                    lemma_dv_skip0(&class.methods);
                }
                while j < class.methods.len()
                    invariant
                        j <= class.methods@.len(),
                        mm == class.methods.deep_view(),
                        pkg == file.package.deep_view(),
                        factory_beans(pkg, class.deep_view(), mm, o0) == factory_beans(
                            pkg,
                            class.deep_view(),
                            mm.skip(j as int),
                            out.deep_view(),
                        ),
                    decreases class.methods.len() - j,
                {
                    proof {
                        lemma_dv_step(&class.methods, j as int);
                    }
                    match factory_bean_exec(&file.package, class, &class.methods[j]) {
                        Some(b) => {
                            push_dv(&mut out, b);
                        },
                        None => {},
                    }
                    j = j + 1;
                }
            },
            None => {},
        }
        k = k + 1;
    }
    out
}

// ---------------------------------------------------------------------------
// Component scanning
// ---------------------------------------------------------------------------

/// Lexicographic order on text (the order of `str`'s `Ord`: UTF-8 keeps
/// the order of code points).
pub open spec fn text_lt(a: Seq<char>, b: Seq<char>) -> bool
    decreases a.len(),
{
    if a.len() == 0 {
        b.len() > 0
    } else if b.len() == 0 {
        false
    } else if a[0] != b[0] {
        a[0] < b[0]
    } else {
        text_lt(a.drop_first(), b.drop_first())
    }
}

/// `text_lt` is irreflexive and asymmetric.
pub proof fn lemma_text_lt_strict(a: Seq<char>, b: Seq<char>)
    ensures
        !text_lt(a, a),
        text_lt(a, b) ==> !text_lt(b, a),
    decreases a.len(),
{
    if a.len() > 0 && b.len() > 0 {
        lemma_text_lt_strict(a.drop_first(), b.drop_first());
    } else if a.len() > 0 {
        lemma_text_lt_strict(a.drop_first(), a.drop_first());
    }
}

/// `text_lt` is transitive.
pub proof fn lemma_text_lt_trans(a: Seq<char>, b: Seq<char>, c: Seq<char>)
    requires
        text_lt(a, b),
        text_lt(b, c),
    ensures
        text_lt(a, c),
    decreases a.len(),
{
    if a.len() > 0 && b.len() > 0 && c.len() > 0 && a[0] == b[0] && b[0] == c[0] {
        lemma_text_lt_trans(a.drop_first(), b.drop_first(), c.drop_first());
    }
}

/// Any two distinct texts are ordered one way or the other.
pub proof fn lemma_text_lt_total(a: Seq<char>, b: Seq<char>)
    requires
        a != b,
    ensures
        text_lt(a, b) || text_lt(b, a),
    decreases a.len(),
{
    if a.len() > 0 && b.len() > 0 && a[0] == b[0] {
        if a.drop_first() == b.drop_first() {
            assert(a =~= seq![a[0]] + a.drop_first());
            assert(b =~= seq![b[0]] + b.drop_first());
        } else {
            lemma_text_lt_total(a.drop_first(), b.drop_first());
        }
    } else if a.len() == 0 && b.len() == 0 {
        assert(a =~= b);
    }
}

pub proof fn lemma_push_to_set<A>(s: Seq<A>, x: A)
    ensures
        s.push(x).to_set() == s.to_set().insert(x),
{
    assert forall|y: A| s.push(x).to_set().contains(y) implies s.to_set().insert(x).contains(y) by {
        let j = choose|j: int| 0 <= j < s.push(x).len() && s.push(x)[j] == y;
        if j < s.len() {
            assert(s[j] == y);
        }
    }
    assert forall|y: A| s.to_set().insert(x).contains(y) implies s.push(x).to_set().contains(y) by {
        if y == x {
            assert(s.push(x)[s.len() as int] == y);
        } else {
            let j = choose|j: int| 0 <= j < s.len() && s[j] == y;
            assert(s.push(x)[j] == y);
        }
    }
    assert(s.push(x).to_set() =~= s.to_set().insert(x));
}

pub open spec fn strictly_sorted(v: Seq<Seq<char>>) -> bool {
    forall|i: int, j: int| 0 <= i < j < v.len() ==> text_lt(#[trigger] v[i], #[trigger] v[j])
}

/// Base packages the scan annotations among `specs` declare, after `acc`:
/// an empty declaration stands for the declaring class's package.
pub open spec fn declared_bases(specs: Seq<BeanSpecM>, acc: Seq<Seq<char>>) -> Seq<Seq<char>>
    decreases specs.len(),
{
    if specs.len() == 0 {
        acc
    } else {
        let s = specs[0];
        let next = match s.component_scan {
            Some(cs) => if cs.len() == 0 {
                match s.package {
                    Some(p) => acc.push(p),
                    None => acc,
                }
            } else {
                acc + cs
            },
            None => acc,
        };
        declared_bases(specs.drop_first(), next)
    }
}

pub fn text_lt_exec(a: &str, b: &str) -> (r: bool)
    ensures
        r == text_lt(a@, b@),
{
    let ca = chars_of(a);
    let cb = chars_of(b);
    let mut i: usize = 0;
    assert(ca@.skip(0) =~= ca@);
    assert(cb@.skip(0) =~= cb@);
    while i < ca.len() && i < cb.len() && ca[i] == cb[i]
        invariant
            i <= ca@.len(),
            i <= cb@.len(),
            ca@ == a@,
            cb@ == b@,
            text_lt(a@, b@) == text_lt(ca@.skip(i as int), cb@.skip(i as int)),
        decreases ca.len() - i,
    {
        assert(ca@.skip(i as int).drop_first() =~= ca@.skip(i + 1));
        assert(cb@.skip(i as int).drop_first() =~= cb@.skip(i + 1));
        i = i + 1;
    }
    if i == ca.len() {
        i < cb.len()
    } else if i == cb.len() {
        false
    } else {
        ca[i] < cb[i]
    }
}

/// Inserts `x` into a strictly sorted list unless it is already there.
fn insert_sorted(v: &mut Vec<String>, x: String)
    requires
        strictly_sorted(old(v).deep_view()),
    ensures
        strictly_sorted(final(v).deep_view()),
        final(v).deep_view().to_set() == old(v).deep_view().to_set().insert(x@),
{
    let ghost v0 = v.deep_view();
    let mut k: usize = 0;
    while k < v.len() && text_lt_exec(v[k].as_str(), x.as_str())
        invariant
            k <= v@.len(),
            v.deep_view() == v0,
            v0.len() == v@.len(),
            forall|j: int| 0 <= j < k ==> text_lt(#[trigger] v0[j], x@),
        decreases v.len() - k,
    {
        assert(v0[k as int] == v@[k as int]@);
        k = k + 1;
    }
    if k < v.len() && str_eq(v[k].as_str(), x.as_str()) {
        assert(v0[k as int] == x@);
        assert(v0.to_set().insert(x@) =~= v0.to_set());
        return;
    }
    proof {
        if k < v0.len() {
            assert(v0[k as int] == v@[k as int]@);
            lemma_text_lt_total(v0[k as int], x@);
        }
    }
    let ghost xv = x@;
    v.insert(k, x);
    proof {
        let nv = v.deep_view();
        assert(nv =~= v0.insert(k as int, xv)) by {
            assert forall|j: int| 0 <= j < nv.len() implies nv[j] == v0.insert(k as int, xv)[j] by {
                if j < k {
                } else if j == k {
                } else {
                }
            }
        }
        assert forall|i: int, j: int| 0 <= i < j < nv.len() implies text_lt(#[trigger] nv[i], #[trigger] nv[j]) by {
            if j < k {
            } else if i < k && j == k {
            } else if i < k && j > k {
                assert(text_lt(v0[i], xv));
                if k < v0.len() {
                    if j - 1 > k {
                        lemma_text_lt_trans(xv, v0[k as int], v0[j - 1]);
                    }
                    lemma_text_lt_trans(v0[i], xv, v0[j - 1]);
                }
            } else if i == k {
                if j - 1 > k {
                    lemma_text_lt_trans(xv, v0[k as int], v0[j - 1]);
                }
            } else {
            }
        }
        assert(nv.to_set() =~= v0.to_set().insert(xv)) by {
            assert forall|y: Seq<char>| nv.to_set().contains(y) implies v0.to_set().insert(xv).contains(y) by {
                let j = choose|j: int| 0 <= j < nv.len() && nv[j] == y;
                if j < k {
                    assert(v0[j] == y);
                } else if j > k {
                    assert(v0[j - 1] == y);
                }
            }
            assert forall|y: Seq<char>| v0.to_set().insert(xv).contains(y) implies nv.to_set().contains(y) by {
                if y == xv {
                    assert(nv[k as int] == y);
                } else {
                    let j = choose|j: int| 0 <= j < v0.len() && v0[j] == y;
                    if j < k {
                        assert(nv[j] == y);
                    } else {
                        assert(nv[j + 1] == y);
                    }
                }
            }
        }
    }
}

/// Base packages declared via @ComponentScan / @RustJVMApplication across
/// the specs, sorted and without repeats. `None` means "no scan
/// annotation anywhere — accept all".
pub fn scan_base_packages(specs: &[BeanSpec]) -> (r: Option<Vec<String>>)
    ensures
        declared_bases(specs.deep_view(), Seq::empty()).len() == 0 ==> r is None,
        declared_bases(specs.deep_view(), Seq::empty()).len() > 0 ==> (r matches Some(v)
            && strictly_sorted(v.deep_view()) && v.deep_view().to_set() == declared_bases(
            specs.deep_view(),
            Seq::empty(),
        ).to_set()),
{
    let ghost sm = specs.deep_view();
    let mut bases: Vec<String> = Vec::new();
    let mut i: usize = 0;
    assert(sm.skip(0) =~= sm);
    assert(bases.deep_view() =~= Seq::<Seq<char>>::empty());
    while i < specs.len()
        invariant
            i <= specs@.len(),
            sm == specs.deep_view(),
            sm.len() == specs@.len(),
            declared_bases(sm, Seq::empty()) == declared_bases(sm.skip(i as int), bases.deep_view()),
        decreases specs.len() - i,
    {
        let s = &specs[i];
        assert(sm.skip(i as int).drop_first() =~= sm.skip(i + 1));
        assert(sm.skip(i as int)[0] == s.deep_view());
        match &s.component_scan {
            Some(cs) => {
                if cs.len() == 0 {
                    match &s.package {
                        Some(p) => {
                            push_dv(&mut bases, copy_string(p));
                        },
                        None => {},
                    }
                } else {
                    let ghost b0 = bases.deep_view();
                    let mut j: usize = 0;
                    while j < cs.len()
                        invariant
                            j <= cs@.len(),
                            bases.deep_view() == b0 + cs.deep_view().take(j as int),
                        decreases cs.len() - j,
                    {
                        push_dv(&mut bases, copy_string(&cs[j]));
                        assert(cs.deep_view().take(j + 1) =~= cs.deep_view().take(j as int).push(cs@[j as int]@));
                        assert(bases.deep_view() =~= b0 + cs.deep_view().take(j + 1));
                        j = j + 1;
                    }
                    assert(cs.deep_view().take(cs@.len() as int) =~= cs.deep_view());
                }
            },
            None => {},
        }
        i = i + 1;
    }
    assert(sm.skip(sm.len() as int) =~= Seq::<BeanSpecM>::empty());
    if bases.len() == 0 {
        return None;
    }
    let ghost all = bases.deep_view();
    let mut sorted: Vec<String> = Vec::new();
    let mut k: usize = 0;
    assert(sorted.deep_view() =~= Seq::<Seq<char>>::empty());
    assert(all.take(0).to_set() =~= Set::<Seq<char>>::empty());
    assert(sorted.deep_view().to_set() =~= Set::<Seq<char>>::empty());
    while k < bases.len()
        invariant
            k <= bases@.len(),
            all == bases.deep_view(),
            strictly_sorted(sorted.deep_view()),
            sorted.deep_view().to_set() == all.take(k as int).to_set(),
        decreases bases.len() - k,
    {
        insert_sorted(&mut sorted, copy_string(&bases[k]));
        assert(all.take(k + 1) =~= all.take(k as int).push(all[k as int]));
        proof {
            lemma_push_to_set(all.take(k as int), all[k as int]);
        }
        k = k + 1;
    }
    assert(all.take(all.len() as int) =~= all);
    Some(sorted)
}

/// Package `p` is package `b` or one of its sub-packages (package
/// boundaries respected: `com.example.application` is not in
/// `com.example.app`).
pub open spec fn in_package(b: Seq<char>, p: Seq<char>) -> bool {
    p == b || is_prefix(b.push('.'), p)
}

/// Some base in `bs` holds package `p`.
pub open spec fn has_prefix_in(bs: Seq<Seq<char>>, p: Seq<char>) -> bool
    decreases bs.len(),
{
    if bs.len() == 0 {
        false
    } else {
        in_package(bs[0], p) || has_prefix_in(bs.drop_first(), p)
    }
}

fn in_package_exec(b: &str, p: &str) -> (r: bool)
    ensures
        r == in_package(b@, p@),
{
    if str_eq(p, b) {
        return true;
    }
    let mut bc = chars_of(b);
    bc.push('.');
    let pc = chars_of(p);
    starts_with_chars(pc.as_slice(), bc.as_slice())
}

/// Whether a package passes the scan filter.
pub open spec fn under_scan_bases_spec(
    package: Option<Seq<char>>,
    bases: Option<Seq<Seq<char>>>,
) -> bool {
    match bases {
        None => true,
        Some(bs) => match package {
            Some(p) => has_prefix_in(bs, p),
            None => false,
        },
    }
}

/// Whether a package passes the scan filter (no filter → everything passes).
pub fn under_scan_bases(package: &Option<String>, bases: &Option<Vec<String>>) -> (r: bool)
    ensures
        r == under_scan_bases_spec(package.deep_view(), bases.deep_view()),
{
    match bases {
        None => true,
        Some(bs) => match package {
            None => false,
            Some(p) => {
                let ghost bm = bs.deep_view();
                let pc = chars_of(p.as_str());
                let mut i: usize = 0;
                assert(bm.skip(0) =~= bm);
                while i < bs.len()
                    invariant
                        i <= bs@.len(),
                        bm == bs.deep_view(),
                        bm.len() == bs@.len(),
                        pc@ == p@,
                        package.deep_view() == Some(p@),
                        bases.deep_view() == Some(bm),
                        has_prefix_in(bm, p@) == has_prefix_in(bm.skip(i as int), p@),
                    decreases bs.len() - i,
                {
                    assert(bm.skip(i as int)[0] == bs@[i as int]@);
                    assert(bm.skip(i as int).drop_first() =~= bm.skip(i + 1));
                    if in_package_exec(bs[i].as_str(), p.as_str()) {
                        return true;
                    }
                    i = i + 1;
                }
                false
            },
        },
    }
}

// ---------------------------------------------------------------------------
// Factory beans
// ---------------------------------------------------------------------------

pub open spec fn known_type(deps: Seq<DependencySpecM>, t: Seq<char>) -> bool {
    exists|i: int| 0 <= i < deps.len() && #[trigger] deps[i].ty == t
}

/// Injection points among `fs` whose type no dependency in `known` has,
/// after `acc`.
pub open spec fn extra_deps(
    fs: Seq<FieldM>,
    known: Seq<DependencySpecM>,
    acc: Seq<DependencySpecM>,
) -> Seq<DependencySpecM>
    decreases fs.len(),
{
    if fs.len() == 0 {
        acc
    } else if is_injection_point_m(fs[0]) && !known_type(known, fs[0].ty) {
        extra_deps(
            fs.drop_first(),
            known,
            acc.push(DependencySpecM { field_name: fs[0].name, ty: fs[0].ty }),
        )
    } else {
        extra_deps(fs.drop_first(), known, acc)
    }
}

fn known_type_exec(deps: &Vec<DependencySpec>, t: &String) -> (r: bool)
    ensures
        r == known_type(deps.deep_view(), t@),
{
    let mut i: usize = 0;
    while i < deps.len()
        invariant
            i <= deps@.len(),
            deps.deep_view().len() == deps@.len(),
            forall|j: int| 0 <= j < i ==> #[trigger] deps.deep_view()[j].ty != t@,
        decreases deps.len() - i,
    {
        if str_eq(deps[i].ty.as_str(), t.as_str()) {
            assert(deps.deep_view()[i as int].ty == t@);
            return true;
        }
        i = i + 1;
    }
    false
}

/// Expands a `@Bean` factory-method spec from the produced class's
/// declaration: its methods become the bean's methods, its `@Autowired`
/// fields of types not yet depended on become additional dependencies.
pub fn expand_factory_bean(spec: &mut BeanSpec, produced: &ClassDecl)
    ensures
        final(spec).deep_view() == (BeanSpecM {
            methods: compiled_methods_spec(produced.deep_view()),
            dependencies: old(spec).deep_view().dependencies + extra_deps(
                produced.deep_view().fields,
                old(spec).deep_view().dependencies,
                Seq::empty(),
            ),
            ..old(spec).deep_view()
        }),
{
    let ghost known = spec.dependencies.deep_view();
    let mut extra: Vec<DependencySpec> = Vec::new();
    let mut i: usize = 0;
    proof {
        lemma_dv_skip0(&produced.fields);
        assert(extra.deep_view() =~= Seq::<DependencySpecM>::empty());
    }
    while i < produced.fields.len()
        invariant
            i <= produced.fields@.len(),
            known == spec.dependencies.deep_view(),
            extra_deps(produced.deep_view().fields, known, Seq::empty()) == extra_deps(
                produced.fields.deep_view().skip(i as int),
                known,
                extra.deep_view(),
            ),
        decreases produced.fields.len() - i,
    {
        proof {
            lemma_dv_step(&produced.fields, i as int);
        }
        let f = &produced.fields[i];
        if f.is_injection_point() && !known_type_exec(&spec.dependencies, &f.ty) {
            push_dv(
                &mut extra,
                DependencySpec { field_name: copy_string(&f.name), ty: copy_string(&f.ty) },
            );
        }
        i = i + 1;
    }
    proof {
        lemma_dv_skip0(&produced.fields);
    }
    spec.methods = compiled_methods(produced);
    let ghost d0 = spec.dependencies.deep_view();
    let ghost s1 = spec.deep_view();
    let ghost xs = extra.deep_view();
    let mut j: usize = 0;
    assert(d0 + xs.take(0) =~= d0);
    while j < extra.len()
        invariant
            j <= extra@.len(),
            xs == extra.deep_view(),
            spec.deep_view() == (BeanSpecM { dependencies: d0 + xs.take(j as int), ..s1 }),
        decreases extra.len() - j,
    {
        let d = DependencySpec {
            field_name: copy_string(&extra[j].field_name),
            ty: copy_string(&extra[j].ty),
        };
        push_dv(&mut spec.dependencies, d);
        assert(extra.deep_view().take(j + 1) =~= extra.deep_view().take(j as int).push(
            extra@[j as int].deep_view(),
        ));
        assert(spec.dependencies.deep_view() =~= d0 + xs.take(j + 1));
        j = j + 1;
    }
    assert(extra.deep_view().take(extra@.len() as int) =~= extra.deep_view());
}

// ---------------------------------------------------------------------------
// Copies of bean definitions
// ---------------------------------------------------------------------------

pub fn copy_string_vec(v: &Vec<String>) -> (r: Vec<String>)
    ensures
        r.deep_view() == v.deep_view(),
        r@.len() == v@.len(),
{
    let r = copy_strings(v);
    assert(r.deep_view() =~= v.deep_view()) by {
        assert forall|i: int| 0 <= i < v@.len() implies r.deep_view()[i] == v.deep_view()[i] by {
            assert(r@[i]@ == v@[i]@);
        }
    }
    r
}

pub fn copy_methods(v: &Vec<CompiledMethod>) -> (r: Vec<CompiledMethod>)
    ensures
        r.deep_view() == v.deep_view(),
{
    let mut out: Vec<CompiledMethod> = Vec::new();
    let mut i: usize = 0;
    while i < v.len()
        invariant
            i <= v@.len(),
            out.deep_view() == v.deep_view().take(i as int),
        decreases v.len() - i,
    {
        let m = CompiledMethod {
            name: copy_string(&v[i].name),
            params: copy_string_vec(&v[i].params),
            implementation: v[i].implementation.copy(),
        };
        push_dv(&mut out, m);
        assert(v.deep_view().take(i + 1) =~= v.deep_view().take(i as int).push(v@[i as int].deep_view()));
        i = i + 1;
    }
    assert(v.deep_view().take(v@.len() as int) =~= v.deep_view());
    out
}

pub fn copy_deps(v: &Vec<DependencySpec>) -> (r: Vec<DependencySpec>)
    ensures
        r.deep_view() == v.deep_view(),
        r@.len() == v@.len(),
{
    let mut out: Vec<DependencySpec> = Vec::new();
    let mut i: usize = 0;
    while i < v.len()
        invariant
            i <= v@.len(),
            out@.len() == i,
            out.deep_view() == v.deep_view().take(i as int),
        decreases v.len() - i,
    {
        let d = DependencySpec { field_name: copy_string(&v[i].field_name), ty: copy_string(&v[i].ty) };
        push_dv(&mut out, d);
        assert(v.deep_view().take(i + 1) =~= v.deep_view().take(i as int).push(v@[i as int].deep_view()));
        i = i + 1;
    }
    assert(v.deep_view().take(v@.len() as int) =~= v.deep_view());
    out
}

impl BeanSpec {
    /// A copy with the same model.
    pub fn copy(&self) -> (r: BeanSpec)
        ensures
            r.deep_view() == self.deep_view(),
            r.name@ == self.name@,
            r.class_name@ == self.class_name@,
            r.scope == self.scope,
            r.kind == self.kind,
            r.dependencies@.len() == self.dependencies@.len(),
    {
        let origin = match &self.origin {
            BeanOrigin::Class => BeanOrigin::Class,
            BeanOrigin::FactoryMethod { config_class, method } => BeanOrigin::FactoryMethod {
                config_class: copy_string(config_class),
                method: copy_string(method),
            },
        };
        let component_scan = match &self.component_scan {
            Some(v) => Some(copy_string_vec(v)),
            None => None,
        };
        BeanSpec {
            name: copy_string(&self.name),
            class_name: copy_string(&self.class_name),
            package: copy_opt_string(&self.package),
            kind: self.kind,
            scope: self.scope,
            origin,
            methods: copy_methods(&self.methods),
            dependencies: copy_deps(&self.dependencies),
            component_scan,
        }
    }
}

} // verus!
