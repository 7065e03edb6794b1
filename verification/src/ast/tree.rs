//! The syntax tree of a module, as far as the analyses read it.
use vstd::prelude::*;

verus! {

/// Number of an expression, unique within a module.
#[derive(Debug, Clone, Copy, PartialEq, Eq, Structural, Hash)]
pub struct ExprId(pub u32);

/// Number of a statement, unique within a module.
#[derive(Debug, Clone, Copy, PartialEq, Eq, Structural, Hash)]
pub struct StmtId(pub u32);

/// The statement number of a definition that no statement makes: a parameter
/// or a variable bound by a pattern.
pub const NO_STMT: u32 = 0xFFFF_FFFF;

#[derive(Debug, Clone, Copy, PartialEq, Eq, Structural)]
pub enum Visibility {
    Public,
    Private,
}

/// An expression.
#[derive(Debug)]
pub struct Expr {
    pub id: ExprId,
    pub kind: ExprKind,
}

#[derive(Debug)]
pub enum ExprKind {
    IntLit,
    FloatLit,
    BoolLit(bool),
    CharLit,
    StrLit,
    NullLit,
    VoidLit,
    Ident(String),
    Unary { operand: Box<Expr> },
    RefOf(Box<Expr>),
    Deref(Box<Expr>),
    NonNullAssert(Box<Expr>),
    Propagate(Box<Expr>),
    Atomic(Box<Expr>),
    Lazy(Box<Expr>),
    Binary { lhs: Box<Expr>, rhs: Box<Expr> },
    Elvis { lhs: Box<Expr>, rhs: Box<Expr> },
    Assign { target: Box<Expr>, value: Box<Expr> },
    CompoundAssign { target: Box<Expr>, value: Box<Expr> },
    Call { callee: Box<Expr>, args: Vec<Expr> },
    MethodCall { recv: Box<Expr>, method: String, args: Vec<Expr> },
    SafeMethodCall { recv: Box<Expr>, method: String, args: Vec<Expr> },
    FieldAccess { recv: Box<Expr> },
    SafeAccess { recv: Box<Expr> },
    Index { recv: Box<Expr>, index: Box<Expr> },
    Slice { recv: Box<Expr>, start: Box<Expr>, end: Box<Expr> },
    ArrayLit { elements: Vec<Expr>, fill: Option<Box<Fill>> },
    RecordLit(Vec<FieldInit>),
    RecordExtend { base: Box<Expr>, updates: Vec<FieldInit> },
    If { cond: Box<Expr>, then_branch: Box<Expr>, else_branch: Option<Box<Expr>> },
    Block { stmts: Vec<Stmt>, trailing: Option<Box<Expr>> },
    Match { scrutinee: Box<Expr>, arms: Vec<MatchArm> },
    StrInterp(Vec<InterpolationPart>),
    Select(Vec<SelectArm>),
    Lambda { params: Vec<Param>, body: Box<Expr> },
    InlineTrait(Vec<Method>),
}

/// `[value; count]`.
#[derive(Debug)]
pub struct Fill {
    pub value: Expr,
    pub count: Expr,
}

/// A field of a record literal or of a record update.
#[derive(Debug)]
pub struct FieldInit {
    pub name: String,
    pub value: Expr,
}

#[derive(Debug)]
pub struct MatchArm {
    pub pattern: Pattern,
    pub guard: Option<Expr>,
    pub body: Expr,
}

#[derive(Debug)]
pub enum InterpolationPart {
    Text(String),
    Expression(Expr),
}

/// An arm of a `select`: what it waits for (a channel, or a duration) and its
/// body.
#[derive(Debug)]
pub enum SelectArm {
    Receive { channel_expr: Expr, body: Expr },
    Timeout { duration: Expr, body: Expr },
}

#[derive(Debug)]
pub struct Param {
    pub name: String,
}

/// A method of a type or of an inline trait; one without a body is abstract.
#[derive(Debug)]
pub struct Method {
    pub name: String,
    pub params: Vec<Param>,
    pub body: Option<Expr>,
    pub is_async: bool,
    pub visibility: Visibility,
}

#[derive(Debug)]
pub enum Pattern {
    Wildcard,
    Literal,
    Variable { name: String },
    Constructor { name: String, patterns: Vec<Pattern> },
    Record { fields: Vec<Pattern> },
    OrPattern { left: Box<Pattern>, right: Box<Pattern> },
    Guard { pattern: Box<Pattern>, condition: Box<Expr> },
}

/// A statement.
#[derive(Debug)]
pub struct Stmt {
    pub id: StmtId,
    pub kind: StmtKind,
}

#[derive(Debug)]
pub enum StmtKind {
    ValDecl { name: String, value: Expr },
    VarDecl { name: String, value: Expr },
    Assignment { target: Expr, value: Expr },
    CompoundAssignment { target: Expr, value: Expr },
    FieldAssignment { object: Expr, value: Expr },
    Expression { expr: Expr },
    Return { value: Option<Expr> },
    Defer { expr: Expr },
    Throw { expr: Expr },
    For { name: String, iterable: Expr, body: Expr },
    While { condition: Expr, body: Expr },
    Loop { body: Expr },
    LocalDecl { decl: Box<Decl> },
    Break,
    Continue,
}

#[derive(Debug)]
pub struct Attribute {
    pub name: String,
}

/// A function that a module declares.
#[derive(Debug)]
pub struct FunDecl {
    pub name: String,
    pub params: Vec<Param>,
    pub body: Expr,
    pub is_async: bool,
    pub visibility: Visibility,
    pub is_entry: bool,
    pub attributes: Vec<Attribute>,
    pub has_extern_c_body: bool,
}

/// A type that a module declares.
#[derive(Debug)]
pub struct TypeDecl {
    pub name: String,
    pub visibility: Visibility,
    pub methods: Vec<Method>,
}

#[derive(Debug)]
pub enum Decl {
    Fun(FunDecl),
    Type(TypeDecl),
    /// A statement at the top level.
    Expr { stmt: Option<Stmt> },
    /// A submodule of a package.
    Pack { name: String, visibility: Visibility },
    Import { path: Vec<String>, items: Option<Vec<String>> },
}

#[derive(Debug)]
pub struct Module {
    pub name: String,
    pub declarations: Vec<Decl>,
}

} // verus!
