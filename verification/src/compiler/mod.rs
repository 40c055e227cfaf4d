//! Java source → route IR and bean metadata.
pub mod ast;
pub mod lexer;
pub mod parser;
pub mod compile;

use vstd::prelude::*;
use crate::compiler::ast::{ClassDecl, ClassM, FileM};
use crate::compiler::compile::{
    BeanSpec, BeanSpecM, CompiledRoute, RouteM, compile_routes, compile_routes_spec,
    extract_beans, extract_beans_spec,
};
use crate::compiler::parser::{parse_source, parse_spec, ParseError, PErr};

verus! {

/// Parses a Java source file and compiles every route it declares.
pub fn compile_source(src: &str) -> (r: Result<Vec<CompiledRoute>, ParseError>)
    requires
        src@.len() < usize::MAX,
    ensures
        match r {
            Ok(routes) => parse_spec(src@) matches Ok(f) && routes.deep_view()
                == compile_routes_spec(f),
            Err(e) => parse_spec(src@) == Err::<FileM, PErr>(e@),
        },
{
    let file = match parse_source(src) {
        Ok(f) => f,
        Err(e) => {
            return Err(e);
        },
    };
    Ok(compile_routes(&file))
}

/// Everything one source file contributes to the application.
#[derive(Debug, Clone, Default)]
pub struct Analysis {
    pub routes: Vec<CompiledRoute>,
    pub beans: Vec<BeanSpec>,
    /// All parsed classes — the DI assembler needs unannotated ones too
    /// (they can be produced by @Bean factory methods).
    pub classes: Vec<ClassDecl>,
}

pub struct AnalysisM {
    pub routes: Seq<RouteM>,
    pub beans: Seq<BeanSpecM>,
    pub classes: Seq<ClassM>,
}

impl DeepView for Analysis {
    type V = AnalysisM;

    open spec fn deep_view(&self) -> AnalysisM {
        AnalysisM {
            routes: self.routes.deep_view(),
            beans: self.beans.deep_view(),
            classes: self.classes.deep_view(),
        }
    }
}

/// What a parsed file contributes.
pub open spec fn analysis_of(f: FileM) -> AnalysisM {
    AnalysisM {
        routes: compile_routes_spec(f),
        beans: extract_beans_spec(f),
        classes: f.classes,
    }
}

/// Analysing a source and compiling its routes agree: both fail with the
/// same parse error, or both succeed and the analysis holds the same routes.
pub proof fn lemma_analyze_compile_agree(
    src: Seq<char>,
    a: Result<AnalysisM, PErr>,
    c: Result<Seq<RouteM>, PErr>,
)
    requires
        match a {
            Ok(x) => parse_spec(src) matches Ok(f) && x == analysis_of(f),
            Err(e) => parse_spec(src) == Err::<FileM, PErr>(e),
        },
        match c {
            Ok(x) => parse_spec(src) matches Ok(f) && x == compile_routes_spec(f),
            Err(e) => parse_spec(src) == Err::<FileM, PErr>(e),
        },
    ensures
        match (a, c) {
            (Ok(x), Ok(y)) => x.routes == y,
            (Err(e1), Err(e2)) => e1 == e2,
            _ => false,
        },
{
}

/// Full analysis: routes, bean definitions, and raw class declarations.
pub fn analyze_source(src: &str) -> (r: Result<Analysis, ParseError>)
    requires
        src@.len() < usize::MAX,
    ensures
        match r {
            Ok(a) => parse_spec(src@) matches Ok(f) && a.deep_view() == analysis_of(f),
            Err(e) => parse_spec(src@) == Err::<FileM, PErr>(e@),
        },
{
    let file = match parse_source(src) {
        Ok(f) => f,
        Err(e) => {
            return Err(e);
        },
    };
    let routes = compile_routes(&file);
    let beans = extract_beans(&file);
    Ok(Analysis { routes, beans, classes: file.classes })
}

} // verus!
