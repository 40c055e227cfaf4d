//! Recursive-descent parser for the Java subset: package, classes, fields,
//! methods with their annotations, and the first `return` expression of each
//! method body. Everything else is parsed past.
//!
//! Every parsing routine `p_x` has a specification `s_x` over the token
//! models: from a position it yields the parsed model and the position after
//! it, or the error.
use vstd::prelude::*;
use crate::text::{chars_eq, copy_string, push_str, str_eq, string_from_chars, string_of};
use crate::compiler::lexer::{lex, lex_spec, toks_view, LexError, Tok, Token};
use crate::compiler::ast::{push_dv, AnnArg, AnnArgM, Annotation, AnnotationM, CallArg, CallArgM, ClassDecl, ClassM, Expr, ExprM, FieldDecl, FieldM, FileM, JavaFile, Member, MemberM, MethodDecl, MethodM, Operand, OperandM, Param, ParamM};

verus! {

#[derive(Debug)]
pub enum ParseError {
    Lex(LexError),
    Unexpected { expected: &'static str, found: Token },
    Eof,
}

/// The model of a parse error.
pub enum PErr {
    Lex(nat),
    Unexpected(Seq<char>, Tok),
    Eof,
}

impl View for ParseError {
    type V = PErr;

    open spec fn view(&self) -> PErr {
        match self {
            ParseError::Lex(LexError::UnterminatedString(l)) => PErr::Lex(*l as nat),
            ParseError::Unexpected { expected, found } => PErr::Unexpected(expected@, found@),
            ParseError::Eof => PErr::Eof,
        }
    }
}

pub open spec fn tv(t: &Vec<Token>) -> Seq<Tok> {
    toks_view(t@)
}

/// The token at `p`, or `Eof` past the end.
pub open spec fn pk(t: Seq<Tok>, p: int) -> Tok {
    if 0 <= p < t.len() {
        t[p]
    } else {
        Tok::Eof
    }
}

/// The position after consuming one token at `p` (no move past the end).
pub open spec fn adv(t: Seq<Tok>, p: int) -> int {
    if 0 <= p < t.len() {
        p + 1
    } else {
        p
    }
}

/// The position after `eat(tok)`.
pub open spec fn eat(t: Seq<Tok>, p: int, tok: Tok) -> int {
    if pk(t, p) == tok {
        p + 1
    } else {
        p
    }
}

pub open spec fn is_ident(t: Tok) -> bool {
    t matches Tok::Ident(_)
}

// ---------------------------------------------------------------------------
// Specification: names and annotations
// ---------------------------------------------------------------------------

pub open spec fn s_ident(t: Seq<Tok>, p: int) -> Result<(Seq<char>, int), PErr> {
    match pk(t, p) {
        Tok::Ident(s) => Ok((s, adv(t, p))),
        other => Err(PErr::Unexpected("identifier"@, other)),
    }
}

pub open spec fn s_qn_loop(t: Seq<Tok>, p: int, name: Seq<char>) -> Result<(Seq<char>, int), PErr>
    decreases t.len() - p,
{
    if pk(t, p) == Tok::Dot {
        match s_ident(t, adv(t, p)) {
            Err(e) => Err(e),
            Ok((s, p2)) => if p < p2 <= t.len() {
                s_qn_loop(t, p2, name + seq!['.'] + s)
            } else {
                Ok((name, p))
            },
        }
    } else {
        Ok((name, p))
    }
}

pub open spec fn s_qualified_name(t: Seq<Tok>, p: int) -> Result<(Seq<char>, int), PErr> {
    match s_ident(t, p) {
        Err(e) => Err(e),
        Ok((s, p1)) => s_qn_loop(t, p1, s),
    }
}

/// The text after the last `.` (the whole text when there is none).
pub open spec fn last_segment(q: Seq<char>) -> Seq<char>
    decreases q.len(),
{
    if q.len() == 0 {
        q
    } else if q.last() == '.' {
        Seq::empty()
    } else {
        last_segment(q.drop_last()).push(q.last())
    }
}

/// Positional string values inside `{ ... }`, up to the closing brace.
pub open spec fn s_brace_values(t: Seq<Tok>, p: int, args: Seq<AnnArgM>) -> (Seq<AnnArgM>, int)
    decreases t.len() - p,
{
    if !(0 <= p < t.len()) {
        (args, p)
    } else {
        match t[p] {
            Tok::RBrace => (args, p),
            Tok::Eof => (args, p),
            Tok::Str(s) => s_brace_values(t, p + 1, args.push(AnnArgM::Value(s))),
            _ => s_brace_values(t, p + 1, args),
        }
    }
}

/// `key = { ... }` elements, up to the closing brace.
pub open spec fn s_brace_named(t: Seq<Tok>, p: int, key: Seq<char>, args: Seq<AnnArgM>) -> (
    Seq<AnnArgM>,
    int,
)
    decreases t.len() - p,
{
    if !(0 <= p < t.len()) {
        (args, p)
    } else {
        match t[p] {
            Tok::RBrace => (args, p),
            Tok::Eof => (args, p),
            Tok::Str(v) => s_brace_named(t, p + 1, key, args.push(AnnArgM::Named(key, v))),
            Tok::Ident(v) => s_brace_named(t, p + 1, key, args.push(AnnArgM::Named(key, v))),
            _ => s_brace_named(t, p + 1, key, args),
        }
    }
}

/// Annotation arguments up to (not including) the closing `)`.
pub open spec fn s_ann_args(t: Seq<Tok>, p: int, args: Seq<AnnArgM>) -> Result<
    (Seq<AnnArgM>, int),
    PErr,
>
    decreases t.len() - p,
{
    if !(0 <= p < t.len()) {
        Ok((args, p))
    } else {
        match t[p] {
            Tok::RParen => Ok((args, p)),
            Tok::Eof => Ok((args, p)),
            Tok::Comma => s_ann_args(t, p + 1, args),
            Tok::LBrace => {
                let (a2, p2) = s_brace_values(t, p + 1, args);
                let p3 = eat(t, p2, Tok::RBrace);
                if p < p3 <= t.len() {
                    s_ann_args(t, p3, a2)
                } else {
                    Ok((a2, p3))
                }
            },
            Tok::Str(s) => s_ann_args(t, p + 1, args.push(AnnArgM::Value(s))),
            Tok::Ident(key) => {
                let p1 = p + 1;
                if pk(t, p1) == Tok::Eq {
                    let p2 = p1 + 1;
                    if pk(t, p2) == Tok::LBrace {
                        let (a2, p3) = s_brace_named(t, p2 + 1, key, args);
                        let p4 = eat(t, p3, Tok::RBrace);
                        if p < p4 <= t.len() {
                            s_ann_args(t, p4, a2)
                        } else {
                            Ok((a2, p4))
                        }
                    } else {
                        match pk(t, p2) {
                            Tok::Str(v) => if p2 < t.len() {
                                s_ann_args(t, p2 + 1, args.push(AnnArgM::Named(key, v)))
                            } else {
                                Ok((args, p2))
                            },
                            Tok::Ident(v) => if p2 < t.len() {
                                s_ann_args(t, p2 + 1, args.push(AnnArgM::Named(key, v)))
                            } else {
                                Ok((args, p2))
                            },
                            other => Err(PErr::Unexpected("annotation value"@, other)),
                        }
                    }
                } else {
                    s_ann_args(t, p1, args)
                }
            },
            _ => s_ann_args(t, p + 1, args),
        }
    }
}

/// A run of annotations `@Name` / `@Name(args)`.
pub open spec fn s_annotations(t: Seq<Tok>, p: int, anns: Seq<AnnotationM>) -> Result<
    (Seq<AnnotationM>, int),
    PErr,
>
    decreases t.len() - p,
{
    if pk(t, p) == Tok::At {
        match s_qualified_name(t, adv(t, p)) {
            Err(e) => Err(e),
            Ok((q, p2)) => {
                let name = last_segment(q);
                if pk(t, p2) == Tok::LParen {
                    match s_ann_args(t, p2 + 1, Seq::empty()) {
                        Err(e) => Err(e),
                        Ok((args, p3)) => if pk(t, p3) == Tok::RParen {
                            if p < p3 + 1 <= t.len() {
                                s_annotations(
                                    t,
                                    p3 + 1,
                                    anns.push(AnnotationM { name: name, args: args }),
                                )
                            } else {
                                Ok((anns, p))
                            }
                        } else {
                            Err(PErr::Unexpected("')' after annotation arguments"@, pk(t, p3)))
                        },
                    }
                } else if p < p2 <= t.len() {
                    s_annotations(t, p2, anns.push(AnnotationM { name: name, args: Seq::empty() }))
                } else {
                    Ok((anns, p))
                }
            },
        }
    } else {
        Ok((anns, p))
    }
}

// ---------------------------------------------------------------------------
// Specification: skipping
// ---------------------------------------------------------------------------

pub open spec fn is_modifier(s: Seq<char>) -> bool {
    ||| s == "public"@
    ||| s == "private"@
    ||| s == "protected"@
    ||| s == "static"@
    ||| s == "final"@
    ||| s == "abstract"@
    ||| s == "synchronized"@
    ||| s == "default"@
    ||| s == "native"@
    ||| s == "strictfp"@
    ||| s == "transient"@
    ||| s == "volatile"@
}

pub open spec fn s_skip_modifiers(t: Seq<Tok>, p: int) -> int
    decreases t.len() - p,
{
    if 0 <= p < t.len() && (t[p] matches Tok::Ident(kw) && is_modifier(kw)) {
        s_skip_modifiers(t, p + 1)
    } else {
        p
    }
}

/// Skips a `<...>` group; `d` is the nesting depth so far.
pub open spec fn s_skip_angle(t: Seq<Tok>, p: int, d: nat) -> int
    decreases t.len() - p,
{
    if !(0 <= p < t.len()) {
        p
    } else {
        match t[p] {
            Tok::Eof => p + 1,
            Tok::Other(c) => if c == '<' {
                s_skip_angle(t, p + 1, d + 1)
            } else if c == '>' {
                if d <= 1 {
                    p + 1
                } else {
                    s_skip_angle(t, p + 1, (d - 1) as nat)
                }
            } else {
                s_skip_angle(t, p + 1, d)
            },
            _ => s_skip_angle(t, p + 1, d),
        }
    }
}

/// Skips to the `)` closing `d` open parentheses.
pub open spec fn s_skip_parens(t: Seq<Tok>, p: int, d: nat) -> int
    decreases t.len() - p,
{
    if d == 0 {
        p
    } else if !(0 <= p < t.len()) {
        p
    } else {
        match t[p] {
            Tok::Eof => p + 1,
            Tok::LParen => s_skip_parens(t, p + 1, d + 1),
            Tok::RParen => s_skip_parens(t, p + 1, (d - 1) as nat),
            _ => s_skip_parens(t, p + 1, d),
        }
    }
}

/// Skips a `{...}` block; `d` is the nesting depth so far.
pub open spec fn s_skip_block(t: Seq<Tok>, p: int, d: nat) -> int
    decreases t.len() - p,
{
    if !(0 <= p < t.len()) {
        p
    } else {
        match t[p] {
            Tok::Eof => p + 1,
            Tok::LBrace => s_skip_block(t, p + 1, d + 1),
            Tok::RBrace => if d <= 1 {
                p + 1
            } else {
                s_skip_block(t, p + 1, (d - 1) as nat)
            },
            _ => s_skip_block(t, p + 1, d),
        }
    }
}

pub open spec fn s_skip_body_or_semi(t: Seq<Tok>, p: int) -> int {
    match pk(t, p) {
        Tok::Semi => p + 1,
        Tok::LBrace => s_skip_block(t, p, 0),
        _ => p,
    }
}

/// Skips a field initializer up to its `;`, tolerating anonymous-class braces.
pub open spec fn s_skip_field_init(t: Seq<Tok>, p: int) -> int
    decreases t.len() - p,
{
    if !(0 <= p < t.len()) {
        p
    } else {
        match t[p] {
            Tok::Semi => p + 1,
            Tok::LBrace => {
                let p2 = s_skip_block(t, p, 0);
                eat(t, p2, Tok::Semi)
            },
            Tok::Eof => p,
            _ => s_skip_field_init(t, p + 1),
        }
    }
}

/// Skips a `throws A, B` clause.
pub open spec fn s_skip_throws(t: Seq<Tok>, p: int) -> int
    decreases t.len() - p,
{
    if 0 <= p < t.len() && (t[p] is Ident || t[p] is Comma) {
        s_skip_throws(t, p + 1)
    } else {
        p
    }
}

/// Skips to the next `{` (or the end).
pub open spec fn s_skip_to_lbrace(t: Seq<Tok>, p: int) -> int
    decreases t.len() - p,
{
    if 0 <= p < t.len() && !(t[p] is LBrace || t[p] is Eof) {
        s_skip_to_lbrace(t, p + 1)
    } else {
        p
    }
}

/// Skips to the next `;` (or the end).
pub open spec fn s_skip_to_semi(t: Seq<Tok>, p: int) -> int
    decreases t.len() - p,
{
    if 0 <= p < t.len() && !(t[p] is Semi || t[p] is Eof) {
        s_skip_to_semi(t, p + 1)
    } else {
        p
    }
}

// ---------------------------------------------------------------------------
// Specification: members
// ---------------------------------------------------------------------------

pub open spec fn token_text(t: Tok) -> Seq<char> {
    match t {
        Tok::Ident(s) => s,
        Tok::Other(c) => seq![c],
        Tok::Dot => seq!['.'],
        _ => Seq::empty(),
    }
}

/// The identifier texts in `head`, in order.
pub open spec fn idents_of(head: Seq<Tok>) -> Seq<Seq<char>>
    decreases head.len(),
{
    if head.len() == 0 {
        Seq::empty()
    } else {
        match head.last() {
            Tok::Ident(s) => idents_of(head.drop_last()).push(s),
            _ => idents_of(head.drop_last()),
        }
    }
}

/// A field from the tokens before its `;` or `=`: the first identifier is the
/// type, the last the name.
pub open spec fn s_field_from(anns: Seq<AnnotationM>, head: Seq<Tok>) -> MemberM {
    let ids = idents_of(head);
    if ids.len() >= 2 {
        MemberM::Field(FieldM { name: ids.last(), ty: ids[0], annotations: anns })
    } else {
        MemberM::Skipped
    }
}

pub open spec fn concat_all(parts: Seq<Seq<char>>) -> Seq<char>
    decreases parts.len(),
{
    if parts.len() == 0 {
        Seq::empty()
    } else {
        concat_all(parts.drop_last()) + parts.last()
    }
}

/// One parameter's type parts and name: the identifier followed by `,` or `)`
/// is the name, everything before it the type.
pub open spec fn s_param_ty(t: Seq<Tok>, p: int, parts: Seq<Seq<char>>) -> Result<
    ((Seq<char>, Seq<char>), int),
    PErr,
>
    decreases t.len() - p,
{
    if !(0 <= p < t.len()) {
        Err(PErr::Eof)
    } else {
        match t[p] {
            Tok::Ident(s) => if pk(t, p + 1) == Tok::Comma || pk(t, p + 1) == Tok::RParen {
                Ok(((s, concat_all(parts)), p + 1))
            } else {
                s_param_ty(t, p + 1, parts.push(s))
            },
            Tok::Other(c) => s_param_ty(t, p + 1, parts.push(seq![c])),
            Tok::Dot => s_param_ty(t, p + 1, parts.push(seq!['.'])),
            Tok::Eof => Err(PErr::Eof),
            _ => s_param_ty(t, p + 1, parts),
        }
    }
}

/// Parameters up to and including the closing `)`.
pub open spec fn s_params(t: Seq<Tok>, p: int, params: Seq<ParamM>) -> Result<
    (Seq<ParamM>, int),
    PErr,
>
    decreases t.len() - p,
{
    if !(0 <= p < t.len()) {
        Err(PErr::Eof)
    } else {
        match t[p] {
            Tok::RParen => Ok((params, p + 1)),
            Tok::Comma => s_params(t, p + 1, params),
            Tok::Eof => Err(PErr::Eof),
            _ => match s_annotations(t, p, Seq::empty()) {
                Err(e) => Err(e),
                Ok((anns, p1)) => match s_param_ty(t, s_skip_modifiers(t, p1), Seq::empty()) {
                    Err(e) => Err(e),
                    Ok(((name, ty), p3)) => if p < p3 <= t.len() {
                        s_params(t, p3, params.push(ParamM { name: name, ty: ty, annotations: anns }))
                    } else {
                        Ok((params, p3))
                    },
                },
            },
        }
    }
}

/// The tokens of a method body whose opening brace was consumed, `d` braces
/// being open; the closing brace is consumed, not kept.
pub open spec fn s_body_tokens(t: Seq<Tok>, p: int, d: nat, body: Seq<Tok>) -> Result<
    (Seq<Tok>, int),
    PErr,
>
    decreases t.len() - p,
{
    if d == 0 {
        Ok((body, p))
    } else if !(0 <= p < t.len()) {
        Err(PErr::Eof)
    } else {
        match t[p] {
            Tok::LBrace => s_body_tokens(t, p + 1, d + 1, body.push(Tok::LBrace)),
            Tok::RBrace => if d > 1 {
                s_body_tokens(t, p + 1, (d - 1) as nat, body.push(Tok::RBrace))
            } else {
                Ok((body, p + 1))
            },
            Tok::Eof => Err(PErr::Eof),
            other => s_body_tokens(t, p + 1, d, body.push(other)),
        }
    }
}

pub open spec fn finish_concat(ops: Seq<OperandM>) -> ExprM {
    if ops.len() == 0 {
        ExprM::Opaque
    } else {
        ExprM::Concat(ops)
    }
}

pub open spec fn tok_at(b: Seq<Tok>, i: int) -> Option<Tok> {
    if 0 <= i < b.len() {
        Some(b[i])
    } else {
        None
    }
}

/// Call arguments from `i` up to and including the closing `)`: the arguments
/// and the index after the `)`, or `None` for an unsupported shape.
pub open spec fn s_call_args(b: Seq<Tok>, i: int, args: Seq<CallArgM>) -> Option<
    (Seq<CallArgM>, int),
>
    decreases b.len() - i,
{
    if !(0 <= i < b.len()) {
        None
    } else {
        match b[i] {
            Tok::RParen => Some((args, i + 1)),
            Tok::Comma => s_call_args(b, i + 1, args),
            Tok::Str(s) => s_call_args(b, i + 1, args.push(CallArgM::Lit(s))),
            Tok::Ident(v) => s_call_args(b, i + 1, args.push(CallArgM::Var(v))),
            _ => None,
        }
    }
}

/// `ident . ident (` starting at `i`.
pub open spec fn is_call_at(b: Seq<Tok>, i: int) -> bool {
    &&& tok_at(b, i + 1) == Some(Tok::Dot)
    &&& tok_at(b, i + 2) matches Some(Tok::Ident(_))
    &&& tok_at(b, i + 3) == Some(Tok::LParen)
}

/// The operand chain `operand (+ operand)* ;` from index `i`. A token
/// out of place (anything more complex than such a chain) makes the whole
/// expression opaque, so the method is reported as not yet compilable
/// rather than evaluated on a cut-short chain.
pub open spec fn s_return_loop(b: Seq<Tok>, i: int, ops: Seq<OperandM>, expect: bool) -> ExprM
    decreases b.len() - i,
{
    if !(0 <= i < b.len()) {
        finish_concat(ops)
    } else {
        match b[i] {
            Tok::Semi => if expect {
                ExprM::Opaque
            } else {
                finish_concat(ops)
            },
            Tok::Str(s) => if expect {
                s_return_loop(b, i + 1, ops.push(OperandM::Lit(s)), false)
            } else {
                ExprM::Opaque
            },
            Tok::Ident(id) => if expect {
                if id == "null"@ {
                    ExprM::Opaque
                } else if is_call_at(b, i) {
                    let method = token_text(b[i + 2]);
                    match s_call_args(b, i + 4, Seq::empty()) {
                        Some((args, j)) => if i < j <= b.len() {
                            s_return_loop(
                                b,
                                j,
                                ops.push(OperandM::Call { receiver: id, method: method, args: args }),
                                false,
                            )
                        } else {
                            ExprM::Opaque
                        },
                        None => ExprM::Opaque,
                    }
                } else {
                    s_return_loop(b, i + 1, ops.push(OperandM::Var(id)), false)
                }
            } else {
                ExprM::Opaque
            },
            Tok::Plus => if !expect {
                s_return_loop(b, i + 1, ops, true)
            } else {
                ExprM::Opaque
            },
            _ => ExprM::Opaque,
        }
    }
}

/// The first `return` at brace depth 0 of a body, reduced to an expression.
pub open spec fn s_extract_from(b: Seq<Tok>, i: int, d: int) -> ExprM
    decreases b.len() - i,
{
    if !(0 <= i < b.len()) {
        ExprM::Opaque
    } else {
        match b[i] {
            Tok::LBrace => s_extract_from(b, i + 1, d + 1),
            Tok::RBrace => s_extract_from(b, i + 1, d - 1),
            Tok::Ident(kw) => if kw == "return"@ && d == 0 {
                s_return_loop(b, i + 1, Seq::empty(), true)
            } else {
                s_extract_from(b, i + 1, d)
            },
            _ => s_extract_from(b, i + 1, d),
        }
    }
}

pub open spec fn s_method_body(t: Seq<Tok>, p: int) -> Result<(ExprM, int), PErr> {
    if pk(t, p) == Tok::LBrace {
        match s_body_tokens(t, p + 1, 1, Seq::empty()) {
            Err(e) => Err(e),
            Ok((body, p2)) => Ok((s_extract_from(body, 0, 0), p2)),
        }
    } else {
        Err(PErr::Unexpected("'{' to open method body"@, pk(t, p)))
    }
}

/// What follows a member's `(`: a method (or a skipped constructor / odd shape).
#[verifier::opaque]
pub open spec fn s_after_lparen(
    t: Seq<Tok>,
    p1: int,
    cn: Seq<char>,
    anns: Seq<AnnotationM>,
    head: Seq<Tok>,
) -> Result<(MemberM, int), PErr> {
    if head.len() > 0 && is_ident(head.last()) {
        let name = token_text(head.last());
        let rt = if head.len() >= 2 {
            token_text(head[head.len() - 2])
        } else {
            Seq::empty()
        };
        if name == cn && rt.len() == 0 {
            Ok((MemberM::Skipped, s_skip_body_or_semi(t, s_skip_parens(t, p1, 1))))
        } else {
            match s_params(t, p1, Seq::empty()) {
                Err(e) => Err(e),
                Ok((params, p2)) => {
                    let p3 = s_skip_throws(t, p2);
                    let m = MethodM {
                        name: name,
                        return_type: rt,
                        params: params,
                        annotations: anns,
                        body: None,
                    };
                    match pk(t, p3) {
                        Tok::Semi => Ok((MemberM::Method(m), p3 + 1)),
                        Tok::LBrace => match s_method_body(t, p3) {
                            Err(e) => Err(e),
                            Ok((b, p4)) => Ok((MemberM::Method(MethodM { body: Some(b), ..m }), p4)),
                        },
                        _ => Ok((MemberM::Method(m), p3)),
                    }
                },
            }
        }
    } else {
        Ok((MemberM::Skipped, s_skip_body_or_semi(t, s_skip_parens(t, p1, 1))))
    }
}

/// Scans a member's head to its pivot: `(`, `;`, `=` or `{`.
#[verifier::opaque]
pub open spec fn s_member_head(
    t: Seq<Tok>,
    p: int,
    cn: Seq<char>,
    anns: Seq<AnnotationM>,
    head: Seq<Tok>,
) -> Result<(MemberM, int), PErr>
    decreases t.len() - p,
{
    if !(0 <= p < t.len()) {
        Ok((MemberM::Skipped, p))
    } else {
        match t[p] {
            Tok::LParen => s_after_lparen(t, p + 1, cn, anns, head),
            Tok::Semi => Ok((s_field_from(anns, head), p + 1)),
            Tok::Eq => Ok((s_field_from(anns, head), s_skip_field_init(t, p))),
            Tok::LBrace => Ok((MemberM::Skipped, s_skip_block(t, p, 0))),
            Tok::Eof => Ok((MemberM::Skipped, p)),
            other => s_member_head(t, p + 1, cn, anns, head.push(other)),
        }
    }
}

#[verifier::opaque]
pub open spec fn s_member(t: Seq<Tok>, p: int, cn: Seq<char>) -> Result<(MemberM, int), PErr> {
    match s_annotations(t, p, Seq::empty()) {
        Err(e) => Err(e),
        Ok((anns, p1)) => {
            let p2 = s_skip_modifiers(t, p1);
            let p3 = if pk(t, p2) == Tok::Other('<') {
                s_skip_angle(t, p2, 0)
            } else {
                p2
            };
            s_member_head(t, p3, cn, anns, Seq::empty())
        },
    }
}

pub open spec fn add_member(c: ClassM, m: MemberM) -> ClassM {
    match m {
        MemberM::Method(x) => ClassM { methods: c.methods.push(x), ..c },
        MemberM::Field(f) => ClassM { fields: c.fields.push(f), ..c },
        MemberM::Skipped => c,
    }
}

/// Class members up to and including the closing `}`.
#[verifier::opaque]
pub open spec fn s_class_body(t: Seq<Tok>, p: int, c: ClassM) -> Result<(ClassM, int), PErr>
    decreases t.len() - p,
{
    if !(0 <= p < t.len()) {
        Err(PErr::Eof)
    } else {
        match t[p] {
            Tok::RBrace => Ok((c, p + 1)),
            Tok::Eof => Err(PErr::Eof),
            Tok::Semi => s_class_body(t, p + 1, c),
            _ => match s_member(t, p, c.name) {
                Err(e) => Err(e),
                Ok((m, p2)) => if p < p2 <= t.len() {
                    s_class_body(t, p2, add_member(c, m))
                } else {
                    Ok((c, p2))
                },
            },
        }
    }
}

/// A class after its `class` keyword.
#[verifier::opaque]
pub open spec fn s_class(t: Seq<Tok>, p: int, anns: Seq<AnnotationM>) -> Result<(ClassM, int), PErr> {
    match s_ident(t, p) {
        Err(e) => Err(e),
        Ok((name, p1)) => {
            let p2 = s_skip_to_lbrace(t, p1);
            if pk(t, p2) == Tok::LBrace {
                s_class_body(
                    t,
                    p2 + 1,
                    ClassM {
                        name: name,
                        annotations: anns,
                        methods: Seq::empty(),
                        fields: Seq::empty(),
                    },
                )
            } else {
                Err(PErr::Unexpected("'{' to open class body"@, pk(t, p2)))
            }
        },
    }
}

/// A whole file from position `p`, with the package and classes so far.
#[verifier::opaque]
pub open spec fn s_file(t: Seq<Tok>, p: int, f: FileM) -> Result<FileM, PErr>
    decreases t.len() - p,
{
    if !(0 <= p < t.len()) || t[p] is Eof {
        Ok(f)
    } else if t[p] == Tok::Ident("package"@) {
        match s_qualified_name(t, p + 1) {
            Err(e) => Err(e),
            Ok((q, p2)) => if pk(t, p2) == Tok::Semi {
                if p < p2 + 1 <= t.len() {
                    s_file(t, p2 + 1, FileM { package: Some(q), ..f })
                } else {
                    Ok(f)
                }
            } else {
                Err(PErr::Unexpected("';' after package declaration"@, pk(t, p2)))
            },
        }
    } else if t[p] == Tok::Ident("import"@) {
        let p3 = eat(t, s_skip_to_semi(t, p + 1), Tok::Semi);
        if p < p3 <= t.len() {
            s_file(t, p3, f)
        } else {
            Ok(f)
        }
    } else {
        match s_annotations(t, p, Seq::empty()) {
            Err(e) => Err(e),
            Ok((anns, p1)) => {
                let p2 = s_skip_modifiers(t, p1);
                if pk(t, p2) == Tok::Ident("class"@) {
                    match s_class(t, p2 + 1, anns) {
                        Err(e) => Err(e),
                        Ok((c, p3)) => if p < p3 <= t.len() {
                            s_file(t, p3, FileM { classes: f.classes.push(c), ..f })
                        } else {
                            Ok(f)
                        },
                    }
                } else {
                    let p3 = adv(t, p2);
                    if p < p3 <= t.len() {
                        s_file(t, p3, f)
                    } else {
                        Ok(f)
                    }
                }
            },
        }
    }
}

/// The parse of a whole source text.
pub open spec fn parse_spec(src: Seq<char>) -> Result<FileM, PErr> {
    match lex_spec(src) {
        Err(l) => Err(PErr::Lex(l)),
        Ok(t) => s_file(t, 0, FileM { package: None, classes: Seq::empty() }),
    }
}


// ---------------------------------------------------------------------------
// Implementation
// ---------------------------------------------------------------------------

fn peek(t: &Vec<Token>, pos: usize) -> (r: Token)
    ensures
        r@ == pk(tv(t), pos as int),
{
    if pos < t.len() {
        t[pos].copy()
    } else {
        Token::Eof
    }
}

fn is_eof_at(t: &Vec<Token>, pos: usize) -> (r: bool)
    ensures
        r == (pk(tv(t), pos as int) is Eof),
        !r ==> pos < t.len(),
{
    pos >= t.len() || matches!(t[pos], Token::Eof)
}

fn bump(t: &Vec<Token>, pos: &mut usize) -> (r: Token)
    requires
        *old(pos) <= t.len(),
    ensures
        r@ == pk(tv(t), *old(pos) as int),
        *final(pos) as int == adv(tv(t), *old(pos) as int),
        *final(pos) <= t.len(),
{
    let r = peek(t, *pos);
    if *pos < t.len() {
        *pos = *pos + 1;
    }
    r
}

fn expect_ident(t: &Vec<Token>, pos: &mut usize) -> (r: Result<String, ParseError>)
    requires
        *old(pos) <= t.len(),
    ensures
        *old(pos) <= *final(pos) <= t.len(),
        match r {
            Ok(s) => s_ident(tv(t), *old(pos) as int) == Ok::<(Seq<char>, int), PErr>(
                (s@, *final(pos) as int),
            ) && *final(pos) > *old(pos),
            Err(e) => s_ident(tv(t), *old(pos) as int) == Err::<(Seq<char>, int), PErr>(e@),
        },
{
    let tok = bump(t, pos);
    match tok {
        Token::Ident(s) => Ok(s),
        other => Err(ParseError::Unexpected { expected: "identifier", found: other }),
    }
}

fn append_chars(name: &mut Vec<char>, seg: &str)
    ensures
        final(name)@ == old(name)@ + seg@,
{
    let segc = crate::text::chars_of(seg);
    let mut k: usize = 0;
    while k < segc.len()
        invariant
            k <= segc@.len(),
            segc@ == seg@,
            name@ == old(name)@ + segc@.take(k as int),
        decreases segc.len() - k,
    {
        name.push(segc[k]);
        assert(segc@.take(k + 1) =~= segc@.take(k as int).push(segc@[k as int]));
        k = k + 1;
    }
    assert(segc@.take(segc@.len() as int) =~= segc@);
}

fn parse_qualified_name(t: &Vec<Token>, pos: &mut usize) -> (r: Result<String, ParseError>)
    requires
        *old(pos) <= t.len(),
    ensures
        *old(pos) <= *final(pos) <= t.len(),
        match r {
            Ok(s) => s_qualified_name(tv(t), *old(pos) as int) == Ok::<(Seq<char>, int), PErr>(
                (s@, *final(pos) as int),
            ) && *final(pos) > *old(pos),
            Err(e) => s_qualified_name(tv(t), *old(pos) as int) == Err::<(Seq<char>, int), PErr>(
                e@,
            ),
        },
{
    let ghost p0 = *pos as int;
    let first = match expect_ident(t, pos) {
        Ok(s) => s,
        Err(e) => {
            return Err(e);
        },
    };
    let mut name: Vec<char> = crate::text::chars_of(first.as_str());
    let ghost p1 = *pos as int;
    while is_dot_at(t, *pos)
        invariant
            p0 == *old(pos) as int,
            p0 < p1 <= *pos <= t.len(),
            s_qualified_name(tv(t), p0) == s_qn_loop(tv(t), *pos as int, name@),
        decreases t.len() - *pos,
    {
        let ghost before = name@;
        bump(t, pos);
        let seg = match expect_ident(t, pos) {
            Ok(s) => s,
            Err(e) => {
                return Err(e);
            },
        };
        name.push('.');
        append_chars(&mut name, seg.as_str());
        assert(name@ =~= before + seq!['.'] + seg@);
    }
    Ok(string_from_chars(name.as_slice()))
}

fn is_dot_at(t: &Vec<Token>, pos: usize) -> (r: bool)
    ensures
        r == (pk(tv(t), pos as int) == Tok::Dot),
{
    pos < t.len() && matches!(t[pos], Token::Dot)
}


/// Whether two tokens are equal; `k` carries no text.
fn same_kind(a: &Token, k: &Token) -> (r: bool)
    requires
        !(k@ is Ident || k@ is Str || k@ is Other),
    ensures
        r == (a@ == k@),
{
    match (a, k) {
        (Token::At, Token::At) => true,
        (Token::LParen, Token::LParen) => true,
        (Token::RParen, Token::RParen) => true,
        (Token::LBrace, Token::LBrace) => true,
        (Token::RBrace, Token::RBrace) => true,
        (Token::Comma, Token::Comma) => true,
        (Token::Semi, Token::Semi) => true,
        (Token::Plus, Token::Plus) => true,
        (Token::Eq, Token::Eq) => true,
        (Token::Dot, Token::Dot) => true,
        (Token::Eof, Token::Eof) => true,
        _ => false,
    }
}

fn tok_is(t: &Vec<Token>, pos: usize, k: &Token) -> (r: bool)
    requires
        !(k@ is Ident || k@ is Str || k@ is Other),
    ensures
        r == (pk(tv(t), pos as int) == k@),
        r && !(k@ is Eof) ==> pos < t.len(),
{
    if pos < t.len() {
        same_kind(&t[pos], k)
    } else {
        matches!(k, Token::Eof)
    }
}

fn other_is(t: &Vec<Token>, pos: usize, c: char) -> (r: bool)
    ensures
        r == (pk(tv(t), pos as int) == Tok::Other(c)),
{
    if pos < t.len() {
        match &t[pos] {
            Token::Other(d) => *d == c,
            _ => false,
        }
    } else {
        false
    }
}

fn last_segment_exec(q: &String) -> (r: String)
    ensures
        r@ == last_segment(q@),
{
    let cs = crate::text::chars_of(q.as_str());
    let mut n = cs.len();
    assert(cs@.take(n as int) =~= cs@);
    assert(cs@.skip(n as int) =~= Seq::<char>::empty());
    assert(last_segment(q@) == last_segment(cs@.take(n as int)) + cs@.skip(n as int));
    while n > 0 && cs[n - 1] != '.'
        invariant
            n <= cs@.len(),
            cs@ == q@,
            last_segment(q@) == last_segment(cs@.take(n as int)) + cs@.skip(n as int),
        decreases n,
    {
        proof {
            let tk = cs@.take(n as int);
            assert(tk.drop_last() =~= cs@.take(n - 1));
            assert(tk.last() == cs@[n - 1]);
            assert(last_segment(cs@.take(n - 1)).push(cs@[n - 1]) + cs@.skip(n as int)
                =~= last_segment(cs@.take(n - 1)) + cs@.skip(n - 1));
        }
        n = n - 1;
    }
    proof {
        if n == 0 {
            assert(cs@.take(0) =~= Seq::<char>::empty());
        }
        assert(Seq::<char>::empty() + cs@.skip(n as int) =~= cs@.skip(n as int));
        assert(cs@.skip(n as int) =~= cs@.subrange(n as int, cs@.len() as int));
    }
    crate::text::string_of_range(&cs, n, cs.len())
}

fn p_brace_values(t: &Vec<Token>, pos: &mut usize, args: &mut Vec<AnnArg>)
    requires
        *old(pos) <= t.len(),
    ensures
        *old(pos) <= *final(pos) <= t.len(),
        (final(args).deep_view(), *final(pos) as int) == s_brace_values(
            tv(t),
            *old(pos) as int,
            old(args).deep_view(),
        ),
{
    let ghost p0 = *pos as int;
    let ghost a0 = args.deep_view();
    while *pos < t.len() && !matches!(t[*pos], Token::RBrace | Token::Eof)
        invariant
            p0 == *old(pos) as int,
            a0 == old(args).deep_view(),
            p0 <= *pos <= t.len(),
            s_brace_values(tv(t), p0, a0) == s_brace_values(tv(t), *pos as int, args.deep_view()),
        decreases t.len() - *pos,
    {
        let tok = bump(t, pos);
        match tok {
            Token::Str(s) => {
                push_dv(args, AnnArg::Value(s));
            },
            _ => {},
        }
    }
}

fn p_brace_named(t: &Vec<Token>, pos: &mut usize, key: &String, args: &mut Vec<AnnArg>)
    requires
        *old(pos) <= t.len(),
    ensures
        *old(pos) <= *final(pos) <= t.len(),
        (final(args).deep_view(), *final(pos) as int) == s_brace_named(
            tv(t),
            *old(pos) as int,
            key@,
            old(args).deep_view(),
        ),
{
    let ghost p0 = *pos as int;
    let ghost a0 = args.deep_view();
    while *pos < t.len() && !matches!(t[*pos], Token::RBrace | Token::Eof)
        invariant
            p0 == *old(pos) as int,
            a0 == old(args).deep_view(),
            p0 <= *pos <= t.len(),
            s_brace_named(tv(t), p0, key@, a0) == s_brace_named(
                tv(t),
                *pos as int,
                key@,
                args.deep_view(),
            ),
        decreases t.len() - *pos,
    {
        let tok = bump(t, pos);
        match tok {
            Token::Str(v) => {
                push_dv(args, AnnArg::Named(copy_string(key), v));
            },
            Token::Ident(v) => {
                push_dv(args, AnnArg::Named(copy_string(key), v));
            },
            _ => {},
        }
    }
}

fn p_ann_args(t: &Vec<Token>, pos: &mut usize) -> (r: Result<Vec<AnnArg>, ParseError>)
    requires
        *old(pos) <= t.len(),
    ensures
        *old(pos) <= *final(pos) <= t.len(),
        match r {
            Ok(a) => s_ann_args(tv(t), *old(pos) as int, Seq::empty()) == Ok::<
                (Seq<AnnArgM>, int),
                PErr,
            >((a.deep_view(), *final(pos) as int)),
            Err(e) => s_ann_args(tv(t), *old(pos) as int, Seq::empty()) == Err::<
                (Seq<AnnArgM>, int),
                PErr,
            >(e@),
        },
{
    let ghost p0 = *pos as int;
    let mut args: Vec<AnnArg> = Vec::new();
    assert(args.deep_view() =~= Seq::<AnnArgM>::empty());
    loop
        invariant
            p0 == *old(pos) as int,
            p0 <= *pos <= t.len(),
            s_ann_args(tv(t), p0, Seq::empty()) == s_ann_args(
                tv(t),
                *pos as int,
                args.deep_view(),
            ),
        decreases t.len() - *pos,
    {
        if *pos >= t.len() {
            return Ok(args);
        }
        match &t[*pos] {
            Token::RParen => {
                return Ok(args);
            },
            Token::Eof => {
                return Ok(args);
            },
            Token::Comma => {
                *pos = *pos + 1;
            },
            Token::LBrace => {
                *pos = *pos + 1;
                p_brace_values(t, pos, &mut args);
                if tok_is(t, *pos, &Token::RBrace) {
                    *pos = *pos + 1;
                }
            },
            Token::Str(s) => {
                push_dv(&mut args, AnnArg::Value(copy_string(s)));
                *pos = *pos + 1;
            },
            Token::Ident(key) => {
                let key = copy_string(key);
                *pos = *pos + 1;
                if tok_is(t, *pos, &Token::Eq) {
                    *pos = *pos + 1;
                    if tok_is(t, *pos, &Token::LBrace) {
                        *pos = *pos + 1;
                        p_brace_named(t, pos, &key, &mut args);
                        if tok_is(t, *pos, &Token::RBrace) {
                            *pos = *pos + 1;
                        }
                    } else {
                        let tok = bump(t, pos);
                        match tok {
                            Token::Str(v) => {
                                push_dv(&mut args, AnnArg::Named(key, v));
                            },
                            Token::Ident(v) => {
                                push_dv(&mut args, AnnArg::Named(key, v));
                            },
                            other => {
                                return Err(
                                    ParseError::Unexpected {
                                        expected: "annotation value",
                                        found: other,
                                    },
                                );
                            },
                        }
                    }
                }
            },
            _ => {
                *pos = *pos + 1;
            },
        }
    }
}

fn p_annotations(t: &Vec<Token>, pos: &mut usize) -> (r: Result<Vec<Annotation>, ParseError>)
    requires
        *old(pos) <= t.len(),
    ensures
        *old(pos) <= *final(pos) <= t.len(),
        match r {
            Ok(a) => s_annotations(tv(t), *old(pos) as int, Seq::empty()) == Ok::<
                (Seq<AnnotationM>, int),
                PErr,
            >((a.deep_view(), *final(pos) as int)),
            Err(e) => s_annotations(tv(t), *old(pos) as int, Seq::empty()) == Err::<
                (Seq<AnnotationM>, int),
                PErr,
            >(e@),
        },
{
    let ghost p0 = *pos as int;
    let mut anns: Vec<Annotation> = Vec::new();
    assert(anns.deep_view() =~= Seq::<AnnotationM>::empty());
    while tok_is(t, *pos, &Token::At)
        invariant
            p0 == *old(pos) as int,
            p0 <= *pos <= t.len(),
            s_annotations(tv(t), p0, Seq::empty()) == s_annotations(
                tv(t),
                *pos as int,
                anns.deep_view(),
            ),
        decreases t.len() - *pos,
    {
        bump(t, pos);
        let q = match parse_qualified_name(t, pos) {
            Ok(q) => q,
            Err(e) => {
                return Err(e);
            },
        };
        let name = last_segment_exec(&q);
        let mut args: Vec<AnnArg> = Vec::new();
        assert(args.deep_view() =~= Seq::<AnnArgM>::empty());
        if tok_is(t, *pos, &Token::LParen) {
            *pos = *pos + 1;
            args = match p_ann_args(t, pos) {
                Ok(a) => a,
                Err(e) => {
                    return Err(e);
                },
            };
            if tok_is(t, *pos, &Token::RParen) {
                *pos = *pos + 1;
            } else {
                return Err(
                    ParseError::Unexpected {
                        expected: "')' after annotation arguments",
                        found: peek(t, *pos),
                    },
                );
            }
        }
        push_dv(&mut anns, Annotation { name, args });
    }
    Ok(anns)
}

fn is_modifier_str(s: &str) -> (r: bool)
    ensures
        r == is_modifier(s@),
{
    str_eq(s, "public") || str_eq(s, "private") || str_eq(s, "protected") || str_eq(s, "static")
        || str_eq(s, "final") || str_eq(s, "abstract") || str_eq(s, "synchronized") || str_eq(
        s,
        "default",
    ) || str_eq(s, "native") || str_eq(s, "strictfp") || str_eq(s, "transient") || str_eq(
        s,
        "volatile",
    )
}

fn skip_modifiers(t: &Vec<Token>, pos: &mut usize)
    requires
        *old(pos) <= t.len(),
    ensures
        *old(pos) <= *final(pos) <= t.len(),
        *final(pos) as int == s_skip_modifiers(tv(t), *old(pos) as int),
{
    let ghost p0 = *pos as int;
    loop
        invariant
            p0 == *old(pos) as int,
            p0 <= *pos <= t.len(),
            s_skip_modifiers(tv(t), p0) == s_skip_modifiers(tv(t), *pos as int),
        decreases t.len() - *pos,
    {
        if *pos >= t.len() {
            return;
        }
        let is_mod = match &t[*pos] {
            Token::Ident(kw) => is_modifier_str(kw.as_str()),
            _ => false,
        };
        if !is_mod {
            return;
        }
        *pos = *pos + 1;
    }
}

fn skip_angle_brackets(t: &Vec<Token>, pos: &mut usize)
    requires
        *old(pos) <= t.len(),
    ensures
        *old(pos) <= *final(pos) <= t.len(),
        *final(pos) as int == s_skip_angle(tv(t), *old(pos) as int, 0),
{
    let ghost p0 = *pos as int;
    let mut d: usize = 0;
    loop
        invariant
            p0 == *old(pos) as int,
            p0 <= *pos <= t.len(),
            d <= *pos,
            s_skip_angle(tv(t), p0, 0) == s_skip_angle(tv(t), *pos as int, d as nat),
        decreases t.len() - *pos,
    {
        if *pos >= t.len() {
            return;
        }
        match &t[*pos] {
            Token::Eof => {
                *pos = *pos + 1;
                return;
            },
            Token::Other(c) => {
                if *c == '<' {
                    d = d + 1;
                } else if *c == '>' {
                    if d <= 1 {
                        *pos = *pos + 1;
                        return;
                    }
                    d = d - 1;
                }
            },
            _ => {},
        }
        *pos = *pos + 1;
    }
}

fn skip_parens(t: &Vec<Token>, pos: &mut usize)
    requires
        1 <= *old(pos) <= t.len(),
    ensures
        *old(pos) <= *final(pos) <= t.len(),
        *final(pos) as int == s_skip_parens(tv(t), *old(pos) as int, 1),
{
    let ghost p0 = *pos as int;
    let mut d: usize = 1;
    while d > 0
        invariant
            p0 == *old(pos) as int,
            p0 <= *pos <= t.len(),
            d <= *pos - p0 + 1,
            1 <= p0,
            s_skip_parens(tv(t), p0, 1) == s_skip_parens(tv(t), *pos as int, d as nat),
        decreases t.len() - *pos, d,
    {
        if *pos >= t.len() {
            return;
        }
        match &t[*pos] {
            Token::Eof => {
                *pos = *pos + 1;
                return;
            },
            Token::LParen => {
                d = d + 1;
            },
            Token::RParen => {
                d = d - 1;
            },
            _ => {},
        }
        *pos = *pos + 1;
    }
}

fn skip_block(t: &Vec<Token>, pos: &mut usize)
    requires
        *old(pos) <= t.len(),
    ensures
        *old(pos) <= *final(pos) <= t.len(),
        *final(pos) as int == s_skip_block(tv(t), *old(pos) as int, 0),
        *old(pos) < t.len() ==> *old(pos) < *final(pos),
{
    let ghost p0 = *pos as int;
    let mut d: usize = 0;
    loop
        invariant
            p0 == *old(pos) as int,
            p0 <= *pos <= t.len(),
            d <= *pos,
            p0 < t.len() && d == 0 ==> p0 == *pos || p0 < *pos,
            s_skip_block(tv(t), p0, 0) == s_skip_block(tv(t), *pos as int, d as nat),
        decreases t.len() - *pos,
    {
        if *pos >= t.len() {
            return;
        }
        match &t[*pos] {
            Token::Eof => {
                *pos = *pos + 1;
                return;
            },
            Token::LBrace => {
                d = d + 1;
            },
            Token::RBrace => {
                if d <= 1 {
                    *pos = *pos + 1;
                    return;
                }
                d = d - 1;
            },
            _ => {},
        }
        *pos = *pos + 1;
    }
}

fn skip_body_or_semi(t: &Vec<Token>, pos: &mut usize)
    requires
        *old(pos) <= t.len(),
    ensures
        *old(pos) <= *final(pos) <= t.len(),
        *final(pos) as int == s_skip_body_or_semi(tv(t), *old(pos) as int),
{
    if tok_is(t, *pos, &Token::Semi) {
        *pos = *pos + 1;
    } else if tok_is(t, *pos, &Token::LBrace) {
        skip_block(t, pos);
    }
}

fn skip_field_initializer(t: &Vec<Token>, pos: &mut usize)
    requires
        *old(pos) <= t.len(),
    ensures
        *old(pos) <= *final(pos) <= t.len(),
        *final(pos) as int == s_skip_field_init(tv(t), *old(pos) as int),
        !(pk(tv(t), *old(pos) as int) is Eof) ==> *old(pos) < *final(pos),
{
    let ghost p0 = *pos as int;
    loop
        invariant
            p0 == *old(pos) as int,
            p0 <= *pos <= t.len(),
            *pos == p0 ==> pk(tv(t), p0) == pk(tv(t), *pos as int),
            s_skip_field_init(tv(t), p0) == s_skip_field_init(tv(t), *pos as int),
        decreases t.len() - *pos,
    {
        if *pos >= t.len() {
            return;
        }
        match &t[*pos] {
            Token::Semi => {
                *pos = *pos + 1;
                return;
            },
            Token::LBrace => {
                skip_block(t, pos);
                if tok_is(t, *pos, &Token::Semi) {
                    *pos = *pos + 1;
                }
                return;
            },
            Token::Eof => {
                return;
            },
            _ => {
                *pos = *pos + 1;
            },
        }
    }
}

fn skip_throws(t: &Vec<Token>, pos: &mut usize)
    requires
        *old(pos) <= t.len(),
    ensures
        *old(pos) <= *final(pos) <= t.len(),
        *final(pos) as int == s_skip_throws(tv(t), *old(pos) as int),
{
    let ghost p0 = *pos as int;
    while *pos < t.len() && matches!(t[*pos], Token::Ident(_) | Token::Comma)
        invariant
            p0 == *old(pos) as int,
            p0 <= *pos <= t.len(),
            s_skip_throws(tv(t), p0) == s_skip_throws(tv(t), *pos as int),
        decreases t.len() - *pos,
    {
        *pos = *pos + 1;
    }
}

fn skip_to_lbrace(t: &Vec<Token>, pos: &mut usize)
    requires
        *old(pos) <= t.len(),
    ensures
        *old(pos) <= *final(pos) <= t.len(),
        *final(pos) as int == s_skip_to_lbrace(tv(t), *old(pos) as int),
{
    let ghost p0 = *pos as int;
    while *pos < t.len() && !matches!(t[*pos], Token::LBrace | Token::Eof)
        invariant
            p0 == *old(pos) as int,
            p0 <= *pos <= t.len(),
            s_skip_to_lbrace(tv(t), p0) == s_skip_to_lbrace(tv(t), *pos as int),
        decreases t.len() - *pos,
    {
        *pos = *pos + 1;
    }
}

fn skip_to_semi(t: &Vec<Token>, pos: &mut usize)
    requires
        *old(pos) <= t.len(),
    ensures
        *old(pos) <= *final(pos) <= t.len(),
        *final(pos) as int == s_skip_to_semi(tv(t), *old(pos) as int),
{
    let ghost p0 = *pos as int;
    while *pos < t.len() && !matches!(t[*pos], Token::Semi | Token::Eof)
        invariant
            p0 == *old(pos) as int,
            p0 <= *pos <= t.len(),
            s_skip_to_semi(tv(t), p0) == s_skip_to_semi(tv(t), *pos as int),
        decreases t.len() - *pos,
    {
        *pos = *pos + 1;
    }
}

fn token_text_exec(tok: &Token) -> (r: String)
    ensures
        r@ == token_text(tok@),
{
    match tok {
        Token::Ident(s) => copy_string(s),
        Token::Other(c) => {
            let v: Vec<char> = vec![*c];
            assert(v@ =~= seq![*c]);
            string_from_chars(v.as_slice())
        },
        Token::Dot => {
            let v: Vec<char> = vec!['.'];
            assert(v@ =~= seq!['.']);
            string_from_chars(v.as_slice())
        },
        _ => crate::text::new_string(),
    }
}

proof fn lemma_tv_take(h: &Vec<Token>, k: int)
    requires
        0 <= k < h@.len(),
    ensures
        tv(h).take(k + 1).drop_last() == tv(h).take(k),
        tv(h).take(k + 1).last() == h@[k]@,
        tv(h).take(k + 1).len() == k + 1,
{
    assert(tv(h).take(k + 1).drop_last() =~= tv(h).take(k));
}

fn field_from(anns: Vec<Annotation>, head: &Vec<Token>) -> (r: Member)
    ensures
        r.deep_view() == s_field_from(anns.deep_view(), tv(head)),
{
    let mut ids: Vec<String> = Vec::new();
    let mut k: usize = 0;
    assert(tv(head).take(0) =~= Seq::<Tok>::empty());
    assert(ids.deep_view() =~= Seq::<Seq<char>>::empty());
    while k < head.len()
        invariant
            k <= head@.len(),
            ids.deep_view() == idents_of(tv(head).take(k as int)),
        decreases head.len() - k,
    {
        proof {
            lemma_tv_take(head, k as int);
        }
        match &head[k] {
            Token::Ident(s) => {
                push_dv(&mut ids, copy_string(s));
            },
            _ => {},
        }
        k = k + 1;
    }
    assert(tv(head).take(head@.len() as int) =~= tv(head));
    if ids.len() >= 2 {
        let name = copy_string(&ids[ids.len() - 1]);
        let ty = copy_string(&ids[0]);
        Member::Field(FieldDecl { name, ty, annotations: anns })
    } else {
        Member::Skipped
    }
}

fn concat_strings(parts: &Vec<String>) -> (r: String)
    ensures
        r@ == concat_all(parts.deep_view()),
{
    let mut out = crate::text::new_string();
    let mut k: usize = 0;
    assert(parts.deep_view().take(0) =~= Seq::<Seq<char>>::empty());
    while k < parts.len()
        invariant
            k <= parts@.len(),
            parts.deep_view().len() == parts@.len(),
            out@ == concat_all(parts.deep_view().take(k as int)),
        decreases parts.len() - k,
    {
        assert(parts.deep_view().take(k + 1).drop_last() =~= parts.deep_view().take(k as int));
        push_str(&mut out, parts[k].as_str());
        k = k + 1;
    }
    assert(parts.deep_view().take(parts@.len() as int) =~= parts.deep_view());
    out
}

fn p_param_ty(t: &Vec<Token>, pos: &mut usize) -> (r: Result<(String, String), ParseError>)
    requires
        *old(pos) <= t.len(),
    ensures
        *old(pos) <= *final(pos) <= t.len(),
        match r {
            Ok((n, ty)) => s_param_ty(tv(t), *old(pos) as int, Seq::empty()) == Ok::<
                ((Seq<char>, Seq<char>), int),
                PErr,
            >(((n@, ty@), *final(pos) as int)) && *old(pos) < *final(pos),
            Err(e) => s_param_ty(tv(t), *old(pos) as int, Seq::empty()) == Err::<
                ((Seq<char>, Seq<char>), int),
                PErr,
            >(e@),
        },
{
    let ghost p0 = *pos as int;
    let mut parts: Vec<String> = Vec::new();
    assert(parts.deep_view() =~= Seq::<Seq<char>>::empty());
    loop
        invariant
            p0 == *old(pos) as int,
            p0 <= *pos <= t.len(),
            s_param_ty(tv(t), p0, Seq::empty()) == s_param_ty(
                tv(t),
                *pos as int,
                parts.deep_view(),
            ),
        decreases t.len() - *pos,
    {
        if *pos >= t.len() {
            return Err(ParseError::Eof);
        }
        match &t[*pos] {
            Token::Ident(s) => {
                let s = copy_string(s);
                *pos = *pos + 1;
                if tok_is(t, *pos, &Token::Comma) || tok_is(t, *pos, &Token::RParen) {
                    return Ok((s, concat_strings(&parts)));
                }
                push_dv(&mut parts, s);
            },
            Token::Other(c) => {
                let v: Vec<char> = vec![*c];
                assert(v@ =~= seq![*c]);
                push_dv(&mut parts, string_from_chars(v.as_slice()));
                *pos = *pos + 1;
            },
            Token::Dot => {
                let v: Vec<char> = vec!['.'];
                assert(v@ =~= seq!['.']);
                push_dv(&mut parts, string_from_chars(v.as_slice()));
                *pos = *pos + 1;
            },
            Token::Eof => {
                return Err(ParseError::Eof);
            },
            _ => {
                *pos = *pos + 1;
            },
        }
    }
}

fn p_params(t: &Vec<Token>, pos: &mut usize) -> (r: Result<Vec<Param>, ParseError>)
    requires
        *old(pos) <= t.len(),
    ensures
        *old(pos) <= *final(pos) <= t.len(),
        match r {
            Ok(ps) => s_params(tv(t), *old(pos) as int, Seq::empty()) == Ok::<
                (Seq<ParamM>, int),
                PErr,
            >((ps.deep_view(), *final(pos) as int)),
            Err(e) => s_params(tv(t), *old(pos) as int, Seq::empty()) == Err::<
                (Seq<ParamM>, int),
                PErr,
            >(e@),
        },
{
    let ghost p0 = *pos as int;
    let mut params: Vec<Param> = Vec::new();
    assert(params.deep_view() =~= Seq::<ParamM>::empty());
    loop
        invariant
            p0 == *old(pos) as int,
            p0 <= *pos <= t.len(),
            s_params(tv(t), p0, Seq::empty()) == s_params(tv(t), *pos as int, params.deep_view()),
        decreases t.len() - *pos,
    {
        if *pos >= t.len() {
            return Err(ParseError::Eof);
        }
        match &t[*pos] {
            Token::RParen => {
                *pos = *pos + 1;
                return Ok(params);
            },
            Token::Comma => {
                *pos = *pos + 1;
            },
            Token::Eof => {
                return Err(ParseError::Eof);
            },
            _ => {
                let anns = match p_annotations(t, pos) {
                    Ok(a) => a,
                    Err(e) => {
                        return Err(e);
                    },
                };
                skip_modifiers(t, pos);
                let (name, ty) = match p_param_ty(t, pos) {
                    Ok(x) => x,
                    Err(e) => {
                        return Err(e);
                    },
                };
                push_dv(&mut params, Param { name, ty, annotations: anns });
            },
        }
    }
}

fn p_body_tokens(t: &Vec<Token>, pos: &mut usize) -> (r: Result<Vec<Token>, ParseError>)
    requires
        1 <= *old(pos) <= t.len(),
    ensures
        *old(pos) <= *final(pos) <= t.len(),
        match r {
            Ok(b) => s_body_tokens(tv(t), *old(pos) as int, 1, Seq::empty()) == Ok::<
                (Seq<Tok>, int),
                PErr,
            >((tv(&b), *final(pos) as int)),
            Err(e) => s_body_tokens(tv(t), *old(pos) as int, 1, Seq::empty()) == Err::<
                (Seq<Tok>, int),
                PErr,
            >(e@),
        },
{
    let ghost p0 = *pos as int;
    let mut d: usize = 1;
    let mut body: Vec<Token> = Vec::new();
    assert(tv(&body) =~= Seq::<Tok>::empty());
    loop
        invariant
            p0 == *old(pos) as int,
            p0 <= *pos <= t.len(),
            1 <= d <= *pos - p0 + 1,
            1 <= p0,
            s_body_tokens(tv(t), p0, 1, Seq::empty()) == s_body_tokens(
                tv(t),
                *pos as int,
                d as nat,
                tv(&body),
            ),
        decreases t.len() - *pos,
    {
        if *pos >= t.len() {
            return Err(ParseError::Eof);
        }
        match &t[*pos] {
            Token::LBrace => {
                d = d + 1;
                proof {
                    crate::compiler::lexer::lemma_push_view(body@, Token::LBrace);
                }
                body.push(Token::LBrace);
            },
            Token::RBrace => {
                if d > 1 {
                    d = d - 1;
                    proof {
                        crate::compiler::lexer::lemma_push_view(body@, Token::RBrace);
                    }
                    body.push(Token::RBrace);
                } else {
                    *pos = *pos + 1;
                    return Ok(body);
                }
            },
            Token::Eof => {
                return Err(ParseError::Eof);
            },
            other => {
                let c = other.copy();
                proof {
                    crate::compiler::lexer::lemma_push_view(body@, c);
                }
                body.push(c);
            },
        }
        *pos = *pos + 1;
    }
}

fn p_call_args(b: &Vec<Token>, start: usize) -> (r: Option<(Vec<CallArg>, usize)>)
    requires
        start <= b.len(),
    ensures
        match r {
            None => s_call_args(tv(b), start as int, Seq::empty()) is None,
            Some((a, j)) => s_call_args(tv(b), start as int, Seq::empty()) == Some(
                (a.deep_view(), j as int),
            ) && start < j <= b.len(),
        },
{
    let mut i = start;
    let mut args: Vec<CallArg> = Vec::new();
    assert(args.deep_view() =~= Seq::<CallArgM>::empty());
    loop
        invariant
            start <= i <= b.len(),
            s_call_args(tv(b), start as int, Seq::empty()) == s_call_args(
                tv(b),
                i as int,
                args.deep_view(),
            ),
        decreases b.len() - i,
    {
        if i >= b.len() {
            return None;
        }
        match &b[i] {
            Token::RParen => {
                return Some((args, i + 1));
            },
            Token::Comma => {},
            Token::Str(s) => {
                push_dv(&mut args, CallArg::Lit(copy_string(s)));
            },
            Token::Ident(v) => {
                push_dv(&mut args, CallArg::Var(copy_string(v)));
            },
            _ => {
                return None;
            },
        }
        i = i + 1;
    }
}

fn finish_concat_exec(ops: Vec<Operand>) -> (r: Expr)
    ensures
        r.deep_view() == finish_concat(ops.deep_view()),
{
    if ops.len() == 0 {
        Expr::Opaque
    } else {
        Expr::Concat(ops)
    }
}

fn is_call_exec(b: &Vec<Token>, i: usize) -> (r: bool)
    ensures
        r == is_call_at(tv(b), i as int),
{
    if i >= b.len() || b.len() - i < 4 {
        return false;
    }
    matches!(b[i + 1], Token::Dot) && matches!(b[i + 2], Token::Ident(_)) && matches!(
        b[i + 3],
        Token::LParen
    )
}

fn p_return_expr(b: &Vec<Token>, start: usize) -> (r: Expr)
    requires
        start <= b.len(),
    ensures
        r.deep_view() == s_return_loop(tv(b), start as int, Seq::empty(), true),
{
    let mut i = start;
    let mut expect = true;
    let mut ops: Vec<Operand> = Vec::new();
    assert(ops.deep_view() =~= Seq::<OperandM>::empty());
    loop
        invariant
            start <= i <= b.len(),
            s_return_loop(tv(b), start as int, Seq::empty(), true) == s_return_loop(
                tv(b),
                i as int,
                ops.deep_view(),
                expect,
            ),
        decreases b.len() - i,
    {
        if i >= b.len() {
            return finish_concat_exec(ops);
        }
        match &b[i] {
            Token::Semi => {
                if expect {
                    return Expr::Opaque;
                }
                return finish_concat_exec(ops);
            },
            Token::Str(s) => {
                if !expect {
                    return Expr::Opaque;
                }
                push_dv(&mut ops, Operand::Lit(copy_string(s)));
                expect = false;
                i = i + 1;
            },
            Token::Ident(id) => {
                if !expect {
                    return Expr::Opaque;
                }
                if str_eq(id.as_str(), "null") {
                    return Expr::Opaque;
                }
                if is_call_exec(b, i) {
                    let method = token_text_exec(&b[i + 2]);
                    match p_call_args(b, i + 4) {
                        Some((args, j)) => {
                            push_dv(
                                &mut ops,
                                Operand::Call { receiver: copy_string(id), method, args },
                            );
                            expect = false;
                            i = j;
                        },
                        None => {
                            return Expr::Opaque;
                        },
                    }
                } else {
                    push_dv(&mut ops, Operand::Var(copy_string(id)));
                    expect = false;
                    i = i + 1;
                }
            },
            Token::Plus => {
                if expect {
                    return Expr::Opaque;
                }
                expect = true;
                i = i + 1;
            },
            _ => {
                return Expr::Opaque;
            },
        }
    }
}

fn p_extract_return(b: &Vec<Token>) -> (r: Expr)
    ensures
        r.deep_view() == s_extract_from(tv(b), 0, 0),
{
    let mut i: usize = 0;
    let mut up: usize = 0;
    let mut down: usize = 0;
    while i < b.len()
        invariant
            i <= b.len(),
            up <= i,
            down <= i,
            s_extract_from(tv(b), 0, 0) == s_extract_from(tv(b), i as int, up - down),
        decreases b.len() - i,
    {
        match &b[i] {
            Token::LBrace => {
                up = up + 1;
            },
            Token::RBrace => {
                down = down + 1;
            },
            Token::Ident(kw) => {
                if up == down && str_eq(kw.as_str(), "return") {
                    return p_return_expr(b, i + 1);
                }
            },
            _ => {},
        }
        i = i + 1;
    }
    Expr::Opaque
}

fn p_method_body(t: &Vec<Token>, pos: &mut usize) -> (r: Result<Expr, ParseError>)
    requires
        *old(pos) <= t.len(),
    ensures
        *old(pos) <= *final(pos) <= t.len(),
        match r {
            Ok(e) => s_method_body(tv(t), *old(pos) as int) == Ok::<(ExprM, int), PErr>(
                (e.deep_view(), *final(pos) as int),
            ),
            Err(e) => s_method_body(tv(t), *old(pos) as int) == Err::<(ExprM, int), PErr>(e@),
        },
{
    if !tok_is(t, *pos, &Token::LBrace) {
        return Err(
            ParseError::Unexpected { expected: "'{' to open method body", found: peek(t, *pos) },
        );
    }
    *pos = *pos + 1;
    let body = match p_body_tokens(t, pos) {
        Ok(b) => b,
        Err(e) => {
            return Err(e);
        },
    };
    Ok(p_extract_return(&body))
}

fn p_after_lparen(
    t: &Vec<Token>,
    pos: &mut usize,
    cn: &String,
    anns: Vec<Annotation>,
    head: &Vec<Token>,
) -> (r: Result<Member, ParseError>)
    requires
        1 <= *old(pos) <= t.len(),
    ensures
        *old(pos) <= *final(pos) <= t.len(),
        match r {
            Ok(m) => s_after_lparen(tv(t), *old(pos) as int, cn@, anns.deep_view(), tv(head))
                == Ok::<(MemberM, int), PErr>((m.deep_view(), *final(pos) as int)),
            Err(e) => s_after_lparen(tv(t), *old(pos) as int, cn@, anns.deep_view(), tv(head))
                == Err::<(MemberM, int), PErr>(e@),
        },
{
    proof {
        reveal(s_after_lparen);
    }
    let n = head.len();
    let is_named = n > 0 && matches!(head[n - 1], Token::Ident(_));
    if !is_named {
        skip_parens(t, pos);
        skip_body_or_semi(t, pos);
        return Ok(Member::Skipped);
    }
    let name = token_text_exec(&head[n - 1]);
    let rt = if n >= 2 {
        token_text_exec(&head[n - 2])
    } else {
        crate::text::new_string()
    };
    let rt_empty = crate::text::chars_of(rt.as_str()).len() == 0;
    if str_eq(name.as_str(), cn.as_str()) && rt_empty {
        skip_parens(t, pos);
        skip_body_or_semi(t, pos);
        return Ok(Member::Skipped);
    }
    let params = match p_params(t, pos) {
        Ok(p) => p,
        Err(e) => {
            return Err(e);
        },
    };
    skip_throws(t, pos);
    if tok_is(t, *pos, &Token::Semi) {
        *pos = *pos + 1;
        Ok(
            Member::Method(
                MethodDecl { name, return_type: rt, params, annotations: anns, body: None },
            ),
        )
    } else if tok_is(t, *pos, &Token::LBrace) {
        let b = match p_method_body(t, pos) {
            Ok(b) => b,
            Err(e) => {
                return Err(e);
            },
        };
        Ok(
            Member::Method(
                MethodDecl { name, return_type: rt, params, annotations: anns, body: Some(b) },
            ),
        )
    } else {
        Ok(
            Member::Method(
                MethodDecl { name, return_type: rt, params, annotations: anns, body: None },
            ),
        )
    }
}

fn p_member(t: &Vec<Token>, pos: &mut usize, cn: &String) -> (r: Result<Member, ParseError>)
    requires
        *old(pos) <= t.len(),
    ensures
        *old(pos) <= *final(pos) <= t.len(),
        match r {
            Ok(m) => s_member(tv(t), *old(pos) as int, cn@) == Ok::<(MemberM, int), PErr>(
                (m.deep_view(), *final(pos) as int),
            ) && (!(pk(tv(t), *old(pos) as int) is Eof) ==> *old(pos) < *final(pos)),
            Err(e) => s_member(tv(t), *old(pos) as int, cn@) == Err::<(MemberM, int), PErr>(e@),
        },
{
    let ghost p0 = *pos as int;
    proof {
        reveal(s_member);
    }
    let anns = match p_annotations(t, pos) {
        Ok(a) => a,
        Err(e) => {
            return Err(e);
        },
    };
    skip_modifiers(t, pos);
    if other_is(t, *pos, '<') {
        skip_angle_brackets(t, pos);
    }
    let mut head: Vec<Token> = Vec::new();
    assert(tv(&head) =~= Seq::<Tok>::empty());
    proof {
        reveal(s_member);
    }
    loop
        invariant
            p0 == *old(pos) as int,
            p0 <= *pos <= t.len(),
            s_member(tv(t), p0, cn@) == s_member_head(
                tv(t),
                *pos as int,
                cn@,
                anns.deep_view(),
                tv(&head),
            ),
        decreases t.len() - *pos,
    {
        proof {
            reveal(s_member_head);
        }
        if *pos >= t.len() {
            return Ok(Member::Skipped);
        }
        match &t[*pos] {
            Token::LParen => {
                *pos = *pos + 1;
                return p_after_lparen(t, pos, cn, anns, &head);
            },
            Token::Semi => {
                *pos = *pos + 1;
                return Ok(field_from(anns, &head));
            },
            Token::Eq => {
                skip_field_initializer(t, pos);
                return Ok(field_from(anns, &head));
            },
            Token::LBrace => {
                skip_block(t, pos);
                return Ok(Member::Skipped);
            },
            Token::Eof => {
                return Ok(Member::Skipped);
            },
            other => {
                let c = other.copy();
                proof {
                    crate::compiler::lexer::lemma_push_view(head@, c);
                }
                head.push(c);
                *pos = *pos + 1;
            },
        }
    }
}

fn p_class_body(t: &Vec<Token>, pos: &mut usize, init: ClassDecl) -> (r: Result<
    ClassDecl,
    ParseError,
>)
    requires
        *old(pos) <= t.len(),
    ensures
        *old(pos) <= *final(pos) <= t.len(),
        match r {
            Ok(x) => s_class_body(tv(t), *old(pos) as int, init.deep_view()) == Ok::<
                (ClassM, int),
                PErr,
            >((x.deep_view(), *final(pos) as int)),
            Err(e) => s_class_body(tv(t), *old(pos) as int, init.deep_view()) == Err::<
                (ClassM, int),
                PErr,
            >(e@),
        },
{
    let ghost p0 = *pos as int;
    let ghost c0 = init.deep_view();
    let mut c = init;
    loop
        invariant
            p0 == *old(pos) as int,
            c0 == init.deep_view(),
            p0 <= *pos <= t.len(),
            s_class_body(tv(t), p0, c0) == s_class_body(tv(t), *pos as int, c.deep_view()),
        decreases t.len() - *pos,
    {
        proof {
            reveal(s_class_body);
        }
        if *pos >= t.len() {
            return Err(ParseError::Eof);
        }
        match &t[*pos] {
            Token::RBrace => {
                *pos = *pos + 1;
                return Ok(c);
            },
            Token::Eof => {
                return Err(ParseError::Eof);
            },
            Token::Semi => {
                *pos = *pos + 1;
            },
            _ => {
                let m = match p_member(t, pos, &c.name) {
                    Ok(m) => m,
                    Err(e) => {
                        return Err(e);
                    },
                };
                match m {
                    Member::Method(x) => {
                        push_dv(&mut c.methods, x);
                    },
                    Member::Field(f) => {
                        push_dv(&mut c.fields, f);
                    },
                    Member::Skipped => {},
                }
            },
        }
    }
}

fn p_class(t: &Vec<Token>, pos: &mut usize, anns: Vec<Annotation>) -> (r: Result<
    ClassDecl,
    ParseError,
>)
    requires
        *old(pos) <= t.len(),
    ensures
        *old(pos) <= *final(pos) <= t.len(),
        match r {
            Ok(x) => s_class(tv(t), *old(pos) as int, anns.deep_view()) == Ok::<
                (ClassM, int),
                PErr,
            >((x.deep_view(), *final(pos) as int)),
            Err(e) => s_class(tv(t), *old(pos) as int, anns.deep_view()) == Err::<
                (ClassM, int),
                PErr,
            >(e@),
        },
{
    proof {
        reveal(s_class);
    }
    let name = match expect_ident(t, pos) {
        Ok(n) => n,
        Err(e) => {
            return Err(e);
        },
    };
    skip_to_lbrace(t, pos);
    if !tok_is(t, *pos, &Token::LBrace) {
        return Err(
            ParseError::Unexpected { expected: "'{' to open class body", found: peek(t, *pos) },
        );
    }
    *pos = *pos + 1;
    let methods: Vec<MethodDecl> = Vec::new();
    let fields: Vec<FieldDecl> = Vec::new();
    assert(methods.deep_view() =~= Seq::<MethodM>::empty());
    assert(fields.deep_view() =~= Seq::<FieldM>::empty());
    p_class_body(t, pos, ClassDecl { name, annotations: anns, methods, fields })
}

fn p_file(t: &Vec<Token>) -> (r: Result<JavaFile, ParseError>)
    ensures
        match r {
            Ok(f) => s_file(tv(t), 0, FileM { package: None, classes: Seq::empty() }) == Ok::<
                FileM,
                PErr,
            >(f.deep_view()),
            Err(e) => s_file(tv(t), 0, FileM { package: None, classes: Seq::empty() }) == Err::<
                FileM,
                PErr,
            >(e@),
        },
{
    let mut file = JavaFile { package: None, classes: Vec::new() };
    assert(file.classes.deep_view() =~= Seq::<ClassM>::empty());
    let mut pos: usize = 0;
    loop
        invariant
            pos <= t.len(),
            s_file(tv(t), 0, FileM { package: None, classes: Seq::empty() }) == s_file(
                tv(t),
                pos as int,
                file.deep_view(),
            ),
        decreases t.len() - pos,
    {
        proof {
            reveal(s_file);
        }
        if is_eof_at(t, pos) {
            return Ok(file);
        }
        let kw_package = match &t[pos] {
            Token::Ident(kw) => str_eq(kw.as_str(), "package"),
            _ => false,
        };
        let kw_import = match &t[pos] {
            Token::Ident(kw) => str_eq(kw.as_str(), "import"),
            _ => false,
        };
        if kw_package {
            pos = pos + 1;
            let q = match parse_qualified_name(t, &mut pos) {
                Ok(q) => q,
                Err(e) => {
                    return Err(e);
                },
            };
            if !tok_is(t, pos, &Token::Semi) {
                return Err(
                    ParseError::Unexpected {
                        expected: "';' after package declaration",
                        found: peek(t, pos),
                    },
                );
            }
            pos = pos + 1;
            file.package = Some(q);
        } else if kw_import {
            pos = pos + 1;
            skip_to_semi(t, &mut pos);
            if tok_is(t, pos, &Token::Semi) {
                pos = pos + 1;
            }
        } else {
            let anns = match p_annotations(t, &mut pos) {
                Ok(a) => a,
                Err(e) => {
                    return Err(e);
                },
            };
            skip_modifiers(t, &mut pos);
            let is_class = pos < t.len() && match &t[pos] {
                Token::Ident(kw) => str_eq(kw.as_str(), "class"),
                _ => false,
            };
            if is_class {
                pos = pos + 1;
                let c = match p_class(t, &mut pos, anns) {
                    Ok(c) => c,
                    Err(e) => {
                        return Err(e);
                    },
                };
                push_dv(&mut file.classes, c);
            } else {
                bump(t, &mut pos);
            }
        }
    }
}

/// Parses a Java source file.
pub fn parse_source(src: &str) -> (r: Result<JavaFile, ParseError>)
    requires
        src@.len() < usize::MAX,
    ensures
        match r {
            Ok(f) => parse_spec(src@) == Ok::<FileM, PErr>(f.deep_view()),
            Err(e) => parse_spec(src@) == Err::<FileM, PErr>(e@),
        },
{
    let tokens = match lex(src) {
        Ok(t) => t,
        Err(e) => {
            return Err(ParseError::Lex(e));
        },
    };
    p_file(&tokens)
}
} // verus!
