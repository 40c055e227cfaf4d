//! What the HTTP front answers: query binding, the built-in operational
//! endpoints, and the mapping of an evaluation outcome to a response.
use vstd::prelude::*;
use std::collections::HashMap;
use crate::compiler::compile::{
    arg_get, eval_model, eval_without_beans, outcome, answers_of, string_map, CompiledRoute,
    EvalError, EvalErrorM, ParamBinding, ParamBindingM,
};
use crate::runtime::registry::{
    arg_insert, new_arg_map, no_args, chain_eval, lemma_eval_chain, registry_bean, ArgMap, Bean, BeanRegistry,
    RequestContext,
};
use crate::runtime::telemetry::{prometheus_text, ArenaMetrics, Telemetry};
use crate::runtime::wiring::type_names;
use crate::text::{copy_string, push_str, str_eq, string_of};

verus! {

/// The media type of a response body.
#[derive(Debug, Clone, Copy, PartialEq, Eq, Structural)]
pub enum ContentType {
    /// `text/plain; charset=utf-8`
    Text,
    /// `text/plain; version=0.0.4`, the Prometheus exposition format.
    Prometheus,
}

/// A response: status code, media type and body.
#[derive(Debug)]
pub struct HttpReply {
    pub status: u16,
    pub content_type: ContentType,
    pub body: String,
}

pub struct ReplyM {
    pub status: u16,
    pub content_type: ContentType,
    pub body: Seq<char>,
}

impl HttpReply {
    pub open spec fn model(&self) -> ReplyM {
        ReplyM { status: self.status, content_type: self.content_type, body: self.body@ }
    }
}

/// The arguments a route's bindings take from a query, after `acc`, or the
/// query key of the first required parameter that is missing.
pub open spec fn bound_args(
    params: Seq<ParamBindingM>,
    query: Map<Seq<char>, Seq<char>>,
    acc: Map<Seq<char>, Seq<char>>,
) -> Result<Map<Seq<char>, Seq<char>>, Seq<char>>
    decreases params.len(),
{
    if params.len() == 0 {
        Ok(acc)
    } else {
        let b = params[0];
        if query.contains_key(b.query_key) {
            bound_args(params.drop_first(), query, acc.insert(b.param, query[b.query_key]))
        } else if b.required {
            Err(b.query_key)
        } else {
            bound_args(params.drop_first(), query, acc)
        }
    }
}

/// Binds a route's parameters from the query string: each binding present
/// in the query gives its parameter that value; a required one that is
/// missing refuses the request with its query key.
pub fn bind_params(params: &Vec<ParamBinding>, query: &HashMap<String, String>) -> (r: Result<
    ArgMap,
    String,
>)
    ensures
        match bound_args(params.deep_view(), string_map(*query), no_args()) {
            Ok(m) => r matches Ok(a) && string_map(a) == m,
            Err(k) => r matches Err(e) && e@ == k,
        },
{
    let ghost pm = params.deep_view();
    let ghost q = string_map(*query);
    let mut args = new_arg_map();
    let mut i: usize = 0;
    assert(pm.skip(0) =~= pm);
    while i < params.len()
        invariant
            i <= params@.len(),
            pm == params.deep_view(),
            pm.len() == params@.len(),
            q == string_map(*query),
            bound_args(pm, q, no_args()) == bound_args(pm.skip(i as int), q, string_map(args)),
        decreases params.len() - i,
    {
        let b = &params[i];
        assert(pm.skip(i as int)[0] == b.deep_view());
        assert(pm.skip(i as int).drop_first() =~= pm.skip(i + 1));
        match arg_get(query, b.query_key.as_str()) {
            Some(v) => {
                arg_insert(&mut args, copy_string(&b.param), copy_string(v));
            },
            None => {
                if b.required {
                    return Err(copy_string(&b.query_key));
                }
            },
        }
        i = i + 1;
    }
    assert(pm.skip(pm.len() as int) =~= Seq::<ParamBindingM>::empty());
    Ok(args)
}

/// The answer to a request missing a required query parameter.
pub open spec fn missing_query_reply(key: Seq<char>) -> ReplyM {
    ReplyM {
        status: 400,
        content_type: ContentType::Text,
        body: "missing required query parameter '"@ + key + "'\n"@,
    }
}

/// The answer for an evaluation outcome.
pub open spec fn outcome_reply(o: Result<Seq<char>, EvalErrorM>) -> ReplyM {
    match o {
        Ok(body) => ReplyM { status: 200, content_type: ContentType::Text, body },
        Err(EvalErrorM::MissingParam(p)) => ReplyM {
            status: 400,
            content_type: ContentType::Text,
            body: "missing parameter '"@ + p + "'\n"@,
        },
        Err(EvalErrorM::Unimplemented(why)) => ReplyM {
            status: 501,
            content_type: ContentType::Text,
            body: "501 — method outside the compiler subset: "@ + why + "\n"@,
        },
    }
}

pub fn missing_query(key: &str) -> (r: HttpReply)
    ensures
        r.model() == missing_query_reply(key@),
{
    let mut body = string_of("missing required query parameter '");
    push_str(&mut body, key);
    push_str(&mut body, "'\n");
    HttpReply { status: 400, content_type: ContentType::Text, body }
}

/// The response for an evaluation outcome: the body with 200, a missing
/// parameter with 400, a method outside the compiler subset with 501.
pub fn eval_reply(r: Result<String, EvalError>) -> (reply: HttpReply)
    ensures
        reply.model() == outcome_reply(outcome(r)),
{
    match r {
        Ok(body) => HttpReply { status: 200, content_type: ContentType::Text, body },
        Err(EvalError::MissingParam(p)) => {
            let mut body = string_of("missing parameter '");
            push_str(&mut body, p.as_str());
            push_str(&mut body, "'\n");
            HttpReply { status: 400, content_type: ContentType::Text, body }
        },
        Err(EvalError::Unimplemented(why)) => {
            let mut body = string_of("501 — method outside the compiler subset: ");
            push_str(&mut body, why.as_str());
            push_str(&mut body, "\n");
            HttpReply { status: 501, content_type: ContentType::Text, body }
        },
    }
}

/// The response of a resolved route for its bound arguments: its
/// controller bean, the registry's bean for the controller's class resolved
/// through a request context, and its implementation evaluated against that
/// bean (what `chain_eval` gives where its calls reach Java beans only) —
/// or without beans when no single bean has the controller's class.
pub open spec fn controller_outcome(
    registry: BeanRegistry,
    class_name: Seq<char>,
    imp: crate::compiler::compile::MethodImplM,
    args: Map<Seq<char>, Seq<char>>,
    reply: ReplyM,
) -> bool {
    let ns = type_names(registry.decl_names(), registry.decl_classes(), class_name);
    &&& ns.len() == 1 ==> exists|b: Bean, outs: Seq<Result<Seq<char>, EvalErrorM>>|
        b.name@ == ns[0] && registry_bean(registry, ns[0], b) && (#[trigger] eval_model(answers_of(&b), imp, args, 0, outs)
            matches Some(o) && reply == outcome_reply(o)) && (chain_eval(b, imp, args, 0) matches Some(c)
            ==> reply == outcome_reply(c))
    &&& ns.len() != 1 ==> reply == outcome_reply(eval_without_beans(imp, args))
}

pub fn controller_reply(route: &CompiledRoute, args: &HashMap<String, String>, registry: &BeanRegistry) -> (r: HttpReply)
    ensures
        controller_outcome(*registry, route.class_name@, route.implementation.deep_view(), string_map(*args), r.model()),
{
    let mut ctx = RequestContext::new(registry);
    let controller = ctx.resolve_by_type(route.class_name.as_str());
    let result = match &controller {
        Ok(bean) => {
            let r = route.implementation.eval_with_ctx(args, &**bean, 0);
            proof {
                let b = **bean;
                let imp = route.implementation.deep_view();
                let am = string_map(*args);
                let outs = choose|outs: Seq<Result<Seq<char>, EvalErrorM>>|
                    #[trigger] eval_model(answers_of(&b), imp, am, 0, outs) == Some(outcome(r));
                if chain_eval(b, imp, am, 0) is Some {
                    lemma_eval_chain(b, answers_of(&b), imp, am, 0, outs);
                }
            }
            r
        },
        Err(_) => route.implementation.eval(args),
    };
    eval_reply(result)
}

/// The response of a resolved route: the query bound to its parameters
/// (a missing required one is a 400), then `controller_reply`.
pub fn route_reply(route: &CompiledRoute, query: &HashMap<String, String>, registry: &BeanRegistry) -> (r: HttpReply)
    ensures
        match bound_args(route.params.deep_view(), string_map(*query), no_args()) {
            Err(k) => r.model() == missing_query_reply(k),
            Ok(args) => controller_outcome(*registry, route.class_name@, route.implementation.deep_view(), args, r.model()),
        },
{
    let args = match bind_params(&route.params, query) {
        Ok(a) => a,
        Err(k) => {
            return missing_query(k.as_str());
        },
    };
    controller_reply(route, &args, registry)
}

/// The answer to a request no route matched, and the path label it is
/// counted under: `/health` and `/metrics` are served built in (app routes
/// always win over them), anything else is a 404.
pub open spec fn unmatched(method: Seq<char>, path: Seq<char>, metrics: Seq<char>) -> (ReplyM, Seq<char>) {
    if path == "/health"@ {
        (ReplyM { status: 200, content_type: ContentType::Text, body: "ok"@ }, "/health"@)
    } else if path == "/metrics"@ {
        (ReplyM { status: 200, content_type: ContentType::Prometheus, body: metrics }, "/metrics"@)
    } else {
        (
            ReplyM {
                status: 404,
                content_type: ContentType::Text,
                body: "no route: "@ + method + " "@ + path + "\n"@,
            },
            "<unmatched>"@,
        )
    }
}

pub fn unmatched_reply(method: &str, path: &str, telemetry: &Telemetry, arena: &ArenaMetrics) -> (r: (
    HttpReply,
    String,
))
    ensures
        (r.0.model(), r.1@) == unmatched(
            method@,
            path@,
            prometheus_text(
                telemetry.rows_spec(),
                arena.active_spec() as nat,
                arena.completed_spec() as nat,
                arena.total_bytes_spec() as nat,
                telemetry.reloads_spec() as nat,
                telemetry.reload_micros_spec() as nat,
            ),
        ),
{
    if str_eq(path, "/health") {
        (
            HttpReply { status: 200, content_type: ContentType::Text, body: string_of("ok") },
            string_of("/health"),
        )
    } else if str_eq(path, "/metrics") {
        let body = telemetry.render_prometheus(arena);
        (
            HttpReply { status: 200, content_type: ContentType::Prometheus, body },
            string_of("/metrics"),
        )
    } else {
        let mut body = string_of("no route: ");
        push_str(&mut body, method);
        push_str(&mut body, " ");
        push_str(&mut body, path);
        push_str(&mut body, "\n");
        (HttpReply { status: 404, content_type: ContentType::Text, body }, string_of("<unmatched>"))
    }
}

/// The answer to a request, and the path it is counted under in the
/// request telemetry (`None`: refused before the route ran, not counted).
pub struct Answer {
    pub reply: HttpReply,
    pub counted_as: Option<String>,
}

/// What a request is answered. `route` is what the dispatch table resolved
/// for the request: when there is one it answers — app routes always win
/// over the built-in `/health` and `/metrics` — else the built-in
/// endpoints or a 404 do.
pub fn answer_request(
    route: Option<&CompiledRoute>,
    method: &str,
    path: &str,
    query: &HashMap<String, String>,
    registry: &BeanRegistry,
    telemetry: &Telemetry,
    arena: &ArenaMetrics,
) -> (r: Answer)
    ensures
        match route {
            Some(rt) => match bound_args(rt.params.deep_view(), string_map(*query), no_args()) {
                Err(k) => r.reply.model() == missing_query_reply(k) && r.counted_as is None,
                Ok(args) => controller_outcome(
                    *registry,
                    rt.class_name@,
                    rt.implementation.deep_view(),
                    args,
                    r.reply.model(),
                ) && (r.counted_as matches Some(c) && c@ == rt.path@),
            },
            None => (r.counted_as matches Some(c) && (r.reply.model(), c@) == unmatched(
                method@,
                path@,
                prometheus_text(
                    telemetry.rows_spec(),
                    arena.active_spec() as nat,
                    arena.completed_spec() as nat,
                    arena.total_bytes_spec() as nat,
                    telemetry.reloads_spec() as nat,
                    telemetry.reload_micros_spec() as nat,
                ),
            )),
        },
{
    match route {
        None => {
            let (reply, label) = unmatched_reply(method, path, telemetry, arena);
            Answer { reply, counted_as: Some(label) }
        },
        Some(rt) => match bind_params(&rt.params, query) {
            Err(k) => Answer { reply: missing_query(k.as_str()), counted_as: None },
            Ok(args) => {
                let reply = controller_reply(rt, &args, registry);
                Answer { reply, counted_as: Some(copy_string(&rt.path)) }
            },
        },
    }
}

} // verus!
