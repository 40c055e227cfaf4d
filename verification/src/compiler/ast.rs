//! The parsed shape of a Java source file, and its mathematical model
//! (`deep_view`), in which every string is a `Seq<char>`.
use vstd::prelude::*;
use crate::text::{copy_string, str_eq};

verus! {

#[derive(Debug, Clone, Default)]
pub struct JavaFile {
    pub package: Option<String>,
    pub classes: Vec<ClassDecl>,
}

#[derive(Debug, Clone)]
pub struct ClassDecl {
    pub name: String,
    pub annotations: Vec<Annotation>,
    pub methods: Vec<MethodDecl>,
    pub fields: Vec<FieldDecl>,
}

#[derive(Debug, Clone)]
pub struct FieldDecl {
    pub name: String,
    pub ty: String,
    pub annotations: Vec<Annotation>,
}

#[derive(Debug, Clone)]
pub struct MethodDecl {
    pub name: String,
    pub return_type: String,
    pub params: Vec<Param>,
    pub annotations: Vec<Annotation>,
    /// First top-level `return` expression, if the method has a body.
    pub body: Option<Expr>,
}

#[derive(Debug, Clone)]
pub struct Param {
    pub name: String,
    pub ty: String,
    pub annotations: Vec<Annotation>,
}

/// Result of parsing one class member.
#[derive(Debug, Clone)]
pub enum Member {
    Method(MethodDecl),
    Field(FieldDecl),
    /// Initializer blocks, constructors, nested types — parsed past, not kept.
    Skipped,
}

#[derive(Debug, Clone)]
pub struct Annotation {
    /// Simple name (last segment of a possibly-qualified name).
    pub name: String,
    pub args: Vec<AnnArg>,
}

#[derive(Debug, Clone)]
pub enum AnnArg {
    Value(String),
    Named(String, String),
}

#[derive(Debug, Clone)]
pub enum Expr {
    /// Concatenation chain of literals, variable references and method calls.
    Concat(Vec<Operand>),
    /// `return null;`, a missing return, or a body too complex for the
    /// interpreter subset.
    Opaque,
}

#[derive(Debug, Clone)]
pub enum Operand {
    Lit(String),
    Var(String),
    /// `receiver.method(arg, ...)`.
    Call { receiver: String, method: String, args: Vec<CallArg> },
}

#[derive(Debug, Clone)]
pub enum CallArg {
    Lit(String),
    Var(String),
}

// ---------------------------------------------------------------------------
// Models
// ---------------------------------------------------------------------------

pub struct FileM {
    pub package: Option<Seq<char>>,
    pub classes: Seq<ClassM>,
}

pub struct ClassM {
    pub name: Seq<char>,
    pub annotations: Seq<AnnotationM>,
    pub methods: Seq<MethodM>,
    pub fields: Seq<FieldM>,
}

pub struct FieldM {
    pub name: Seq<char>,
    pub ty: Seq<char>,
    pub annotations: Seq<AnnotationM>,
}

pub struct MethodM {
    pub name: Seq<char>,
    pub return_type: Seq<char>,
    pub params: Seq<ParamM>,
    pub annotations: Seq<AnnotationM>,
    pub body: Option<ExprM>,
}

pub struct ParamM {
    pub name: Seq<char>,
    pub ty: Seq<char>,
    pub annotations: Seq<AnnotationM>,
}

pub enum MemberM {
    Method(MethodM),
    Field(FieldM),
    Skipped,
}

pub struct AnnotationM {
    pub name: Seq<char>,
    pub args: Seq<AnnArgM>,
}

pub enum AnnArgM {
    Value(Seq<char>),
    Named(Seq<char>, Seq<char>),
}

pub enum ExprM {
    Concat(Seq<OperandM>),
    Opaque,
}

pub enum OperandM {
    Lit(Seq<char>),
    Var(Seq<char>),
    Call { receiver: Seq<char>, method: Seq<char>, args: Seq<CallArgM> },
}

pub enum CallArgM {
    Lit(Seq<char>),
    Var(Seq<char>),
}

impl DeepView for AnnArg {
    type V = AnnArgM;

    open spec fn deep_view(&self) -> AnnArgM {
        match self {
            AnnArg::Value(v) => AnnArgM::Value(v@),
            AnnArg::Named(k, v) => AnnArgM::Named(k@, v@),
        }
    }
}

impl DeepView for Annotation {
    type V = AnnotationM;

    open spec fn deep_view(&self) -> AnnotationM {
        AnnotationM { name: self.name@, args: self.args.deep_view() }
    }
}

impl DeepView for CallArg {
    type V = CallArgM;

    open spec fn deep_view(&self) -> CallArgM {
        match self {
            CallArg::Lit(v) => CallArgM::Lit(v@),
            CallArg::Var(v) => CallArgM::Var(v@),
        }
    }
}

impl DeepView for Operand {
    type V = OperandM;

    open spec fn deep_view(&self) -> OperandM {
        match self {
            Operand::Lit(v) => OperandM::Lit(v@),
            Operand::Var(v) => OperandM::Var(v@),
            Operand::Call { receiver, method, args } => OperandM::Call {
                receiver: receiver@,
                method: method@,
                args: args.deep_view(),
            },
        }
    }
}

impl DeepView for Expr {
    type V = ExprM;

    open spec fn deep_view(&self) -> ExprM {
        match self {
            Expr::Concat(ops) => ExprM::Concat(ops.deep_view()),
            Expr::Opaque => ExprM::Opaque,
        }
    }
}

impl DeepView for Param {
    type V = ParamM;

    open spec fn deep_view(&self) -> ParamM {
        ParamM { name: self.name@, ty: self.ty@, annotations: self.annotations.deep_view() }
    }
}

impl DeepView for FieldDecl {
    type V = FieldM;

    open spec fn deep_view(&self) -> FieldM {
        FieldM { name: self.name@, ty: self.ty@, annotations: self.annotations.deep_view() }
    }
}

impl DeepView for MethodDecl {
    type V = MethodM;

    open spec fn deep_view(&self) -> MethodM {
        MethodM {
            name: self.name@,
            return_type: self.return_type@,
            params: self.params.deep_view(),
            annotations: self.annotations.deep_view(),
            body: self.body.deep_view(),
        }
    }
}

impl DeepView for Member {
    type V = MemberM;

    open spec fn deep_view(&self) -> MemberM {
        match self {
            Member::Method(m) => MemberM::Method(m.deep_view()),
            Member::Field(f) => MemberM::Field(f.deep_view()),
            Member::Skipped => MemberM::Skipped,
        }
    }
}

impl DeepView for ClassDecl {
    type V = ClassM;

    open spec fn deep_view(&self) -> ClassM {
        ClassM {
            name: self.name@,
            annotations: self.annotations.deep_view(),
            methods: self.methods.deep_view(),
            fields: self.fields.deep_view(),
        }
    }
}

impl DeepView for JavaFile {
    type V = FileM;

    open spec fn deep_view(&self) -> FileM {
        FileM { package: self.package.deep_view(), classes: self.classes.deep_view() }
    }
}

// ---------------------------------------------------------------------------
// Annotation queries
// ---------------------------------------------------------------------------

/// The first positional value among `args`.
pub open spec fn first_value_of(args: Seq<AnnArgM>) -> Option<Seq<char>>
    decreases args.len(),
{
    if args.len() == 0 {
        None
    } else {
        match args[0] {
            AnnArgM::Value(v) => Some(v),
            _ => first_value_of(args.drop_first()),
        }
    }
}

/// All positional values among `args`, in order.
pub open spec fn values_of(args: Seq<AnnArgM>) -> Seq<Seq<char>>
    decreases args.len(),
{
    if args.len() == 0 {
        Seq::empty()
    } else {
        match args[0] {
            AnnArgM::Value(v) => seq![v] + values_of(args.drop_first()),
            _ => values_of(args.drop_first()),
        }
    }
}

/// The first value given under `key`.
pub open spec fn named_of(args: Seq<AnnArgM>, key: Seq<char>) -> Option<Seq<char>>
    decreases args.len(),
{
    if args.len() == 0 {
        None
    } else {
        match args[0] {
            AnnArgM::Named(k, v) => if k == key {
                Some(v)
            } else {
                named_of(args.drop_first(), key)
            },
            _ => named_of(args.drop_first(), key),
        }
    }
}

/// All values given under `key`, in order.
pub open spec fn named_all_of(args: Seq<AnnArgM>, key: Seq<char>) -> Seq<Seq<char>>
    decreases args.len(),
{
    if args.len() == 0 {
        Seq::empty()
    } else {
        match args[0] {
            AnnArgM::Named(k, v) => if k == key {
                seq![v] + named_all_of(args.drop_first(), key)
            } else {
                named_all_of(args.drop_first(), key)
            },
            _ => named_all_of(args.drop_first(), key),
        }
    }
}

/// Whether some annotation in `anns` has the given simple name.
pub open spec fn has_annotation(anns: Seq<AnnotationM>, name: Seq<char>) -> bool {
    exists|i: int| 0 <= i < anns.len() && #[trigger] anns[i].name == name
}

/// The first annotation in `anns` with the given simple name.
pub open spec fn find_annotation(anns: Seq<AnnotationM>, name: Seq<char>) -> Option<AnnotationM>
    decreases anns.len(),
{
    if anns.len() == 0 {
        None
    } else if anns[0].name == name {
        Some(anns[0])
    } else {
        find_annotation(anns.drop_first(), name)
    }
}

pub open spec fn is_injection_point_m(f: FieldM) -> bool {
    has_annotation(f.annotations, "Autowired"@)
}

/// Splitting the model of a vector at one element.
pub proof fn lemma_dv_step<T: DeepView>(v: &Vec<T>, i: int)
    requires
        0 <= i < v@.len(),
    ensures
        v.deep_view().skip(i).len() > 0,
        v.deep_view().skip(i)[0] == v@[i].deep_view(),
        v.deep_view().skip(i).drop_first() == v.deep_view().skip(i + 1),
        v.deep_view()[i] == v@[i].deep_view(),
        v.deep_view().len() == v@.len(),
{
    assert(v.deep_view().skip(i).drop_first() =~= v.deep_view().skip(i + 1));
}

/// Pushes onto a vector, keeping track of its model.
pub fn push_dv<T: DeepView>(v: &mut Vec<T>, x: T)
    ensures
        final(v)@ == old(v)@.push(x),
        final(v).deep_view() == old(v).deep_view().push(x.deep_view()),
{
    let ghost b = v@;
    let ghost bd = v.deep_view();
    v.push(x);
    assert(v.deep_view() =~= bd.push(x.deep_view())) by {
        assert(v@.len() == b.len() + 1);
        assert forall|i: int| 0 <= i < b.len() implies v.deep_view()[i] == bd[i] by {
            assert(v@[i] == b[i]);
        }
    }
}

/// The model of a vector, seen from index 0.
pub proof fn lemma_dv_skip0<T: DeepView>(v: &Vec<T>)
    ensures
        v.deep_view().skip(0) == v.deep_view(),
        v.deep_view().skip(v@.len() as int) == Seq::<T::V>::empty(),
{
    assert(v.deep_view().skip(0) =~= v.deep_view());
    assert(v.deep_view().skip(v@.len() as int) =~= Seq::<T::V>::empty());
}

impl FieldDecl {
    /// `@Autowired` marks this field as a DI injection point.
    pub fn is_injection_point(&self) -> (r: bool)
        ensures
            r == is_injection_point_m(self.deep_view()),
    {
        let r = find_annotation_exec(&self.annotations, "Autowired").is_some();
        proof {
            lemma_find_annotation(self.annotations.deep_view(), "Autowired"@);
        }
        r
    }
}

pub proof fn lemma_find_annotation(anns: Seq<AnnotationM>, name: Seq<char>)
    ensures
        find_annotation(anns, name) is Some <==> has_annotation(anns, name),
        find_annotation(anns, name) matches Some(a) ==> a.name == name,
    decreases anns.len(),
{
    if anns.len() > 0 {
        lemma_find_annotation(anns.drop_first(), name);
        if anns[0].name != name {
            if has_annotation(anns, name) {
                let i = choose|i: int| 0 <= i < anns.len() && #[trigger] anns[i].name == name;
                assert(anns.drop_first()[i - 1].name == name);
            }
            if has_annotation(anns.drop_first(), name) {
                let i = choose|i: int|
                    0 <= i < anns.drop_first().len() && #[trigger] anns.drop_first()[i].name
                        == name;
                assert(anns[i + 1].name == name);
            }
        }
    }
}

/// The first annotation with the given simple name, by reference.
pub fn find_annotation_exec<'a>(anns: &'a Vec<Annotation>, name: &str) -> (r: Option<
    &'a Annotation,
>)
    ensures
        match r {
            None => find_annotation(anns.deep_view(), name@) is None,
            Some(a) => find_annotation(anns.deep_view(), name@) == Some(a.deep_view()),
        },
{
    let mut i: usize = 0;
    proof {
        lemma_dv_skip0(anns);
    }
    while i < anns.len()
        invariant
            i <= anns@.len(),
            find_annotation(anns.deep_view(), name@) == find_annotation(
                anns.deep_view().skip(i as int),
                name@,
            ),
        decreases anns.len() - i,
    {
        proof {
            lemma_dv_step(anns, i as int);
        }
        if str_eq(anns[i].name.as_str(), name) {
            return Some(&anns[i]);
        }
        i = i + 1;
    }
    None
}

impl Annotation {
    pub fn first_value(&self) -> (r: Option<String>)
        ensures
            r.deep_view() == first_value_of(self.args.deep_view()),
    {
        let mut i: usize = 0;
        proof {
            lemma_dv_skip0(&self.args);
        }
        while i < self.args.len()
            invariant
                i <= self.args@.len(),
                first_value_of(self.args.deep_view()) == first_value_of(
                    self.args.deep_view().skip(i as int),
                ),
            decreases self.args.len() - i,
        {
            proof {
                lemma_dv_step(&self.args, i as int);
            }
            match &self.args[i] {
                AnnArg::Value(v) => {
                    return Some(copy_string(v));
                },
                _ => {},
            }
            i = i + 1;
        }
        None
    }

    /// All positional values — `@GetMapping({"/a", "/b"})` yields both.
    pub fn values(&self) -> (r: Vec<String>)
        ensures
            r.deep_view() == values_of(self.args.deep_view()),
    {
        let mut out: Vec<String> = Vec::new();
        let mut i: usize = 0;
        proof {
            lemma_dv_skip0(&self.args);
        }
        while i < self.args.len()
            invariant
                i <= self.args@.len(),
                values_of(self.args.deep_view()) == out.deep_view() + values_of(
                    self.args.deep_view().skip(i as int),
                ),
            decreases self.args.len() - i,
        {
            proof {
                lemma_dv_step(&self.args, i as int);
            }
            let ghost before = out.deep_view();
            match &self.args[i] {
                AnnArg::Value(v) => {
                    out.push(copy_string(v));
                    assert(out.deep_view() =~= before.push(v@));
                    let ghost rest = values_of(self.args.deep_view().skip(i + 1));
                    assert(before + (seq![v@] + rest) =~= out.deep_view() + rest);
                },
                _ => {},
            }
            assert(values_of(self.args.deep_view()) == out.deep_view() + values_of(
                self.args.deep_view().skip(i + 1),
            ));
            i = i + 1;
        }
        assert(out.deep_view() + Seq::<Seq<char>>::empty() =~= out.deep_view());
        out
    }

    pub fn named(&self, key: &str) -> (r: Option<String>)
        ensures
            r.deep_view() == named_of(self.args.deep_view(), key@),
    {
        let mut i: usize = 0;
        proof {
            lemma_dv_skip0(&self.args);
        }
        while i < self.args.len()
            invariant
                i <= self.args@.len(),
                named_of(self.args.deep_view(), key@) == named_of(
                    self.args.deep_view().skip(i as int),
                    key@,
                ),
            decreases self.args.len() - i,
        {
            proof {
                lemma_dv_step(&self.args, i as int);
            }
            match &self.args[i] {
                AnnArg::Named(k, v) => {
                    if str_eq(k.as_str(), key) {
                        return Some(copy_string(v));
                    }
                },
                _ => {},
            }
            i = i + 1;
        }
        None
    }

    /// All values for a key — `basePackages = {"com.a", "com.b"}` yields both.
    pub fn named_all(&self, key: &str) -> (r: Vec<String>)
        ensures
            r.deep_view() == named_all_of(self.args.deep_view(), key@),
    {
        let mut out: Vec<String> = Vec::new();
        let mut i: usize = 0;
        proof {
            lemma_dv_skip0(&self.args);
        }
        while i < self.args.len()
            invariant
                i <= self.args@.len(),
                named_all_of(self.args.deep_view(), key@) == out.deep_view() + named_all_of(
                    self.args.deep_view().skip(i as int),
                    key@,
                ),
            decreases self.args.len() - i,
        {
            proof {
                lemma_dv_step(&self.args, i as int);
            }
            let ghost before = out.deep_view();
            match &self.args[i] {
                AnnArg::Named(k, v) => {
                    if str_eq(k.as_str(), key) {
                        out.push(copy_string(v));
                        assert(out.deep_view() =~= before.push(v@));
                        let ghost rest = named_all_of(self.args.deep_view().skip(i + 1), key@);
                        assert(before + (seq![v@] + rest) =~= out.deep_view() + rest);
                    }
                },
                _ => {},
            }
            assert(named_all_of(self.args.deep_view(), key@) == out.deep_view() + named_all_of(
                self.args.deep_view().skip(i + 1),
                key@,
            ));
            i = i + 1;
        }
        assert(out.deep_view() + Seq::<Seq<char>>::empty() =~= out.deep_view());
        out
    }
}

} // verus!
