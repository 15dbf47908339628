//! Syntax tree produced by the parser.
use vstd::prelude::*;

verus! {

#[derive(Debug)]
pub struct Program {
    pub imports: Vec<String>,
    pub functions: Vec<Function>,
    pub structs: Vec<StructDef>,
    pub impls: Vec<ImplBlock>,
}

/// The methods `impl Name:` attaches to the struct `Name`; each takes the
/// receiver as its first parameter, `self`.
#[derive(Debug)]
pub struct ImplBlock {
    pub name: String,
    pub methods: Vec<Function>,
    pub line: usize,
}

#[derive(Debug)]
pub struct Function {
    pub name: String,
    pub params: Vec<String>,
    /// Parallel to `params`: `None` = required, `Some(expr)` = default value.
    pub defaults: Vec<Option<Expr>>,
    pub body: Vec<Stmt>,
    pub line: usize,
}

#[derive(Debug, Clone)]
pub struct StructDef {
    pub name: String,
    pub fields: Vec<String>,
    pub line: usize,
}

/// A literal as written in the source. A float literal keeps its decimal text.
#[derive(Debug, Clone)]
pub enum Literal {
    Str(String),
    Int(i64),
    Float(String),
    Bool(bool),
    Nil,
}

#[derive(Debug, Clone, Copy, PartialEq, Eq, Structural)]
pub enum BinOp {
    Add,
    Sub,
    Mul,
    Div,
    Mod,
    Pow,
    Eq,
    Ne,
    Lt,
    Gt,
    Le,
    Ge,
    And,
    Or,
    BitAnd,
    BitOr,
    BitXor,
    Shl,
    Shr,
}

#[derive(Debug, Clone, Copy, PartialEq, Eq, Structural)]
pub enum UnaryOp {
    Neg,
    Not,
    BitNot,
}

#[derive(Debug)]
pub enum Expr {
    Lit(Literal),
    Var(String),
    List(Vec<Expr>),
    /// Command-style call, resolved against the command registry at run time.
    Call { segments: Vec<CallSegment>, line: usize },
    FnCall { name: String, args: Vec<Expr>, line: usize },
    /// Call of an arbitrary expression: `f(x)`, `arr[0](x)`.
    CallValue { callee: Box<Expr>, args: Vec<Expr>, line: usize },
    Binary { op: BinOp, lhs: Box<Expr>, rhs: Box<Expr>, line: usize },
    Unary { op: UnaryOp, expr: Box<Expr>, line: usize },
    /// `cond ? then : else`.
    Ternary { cond: Box<Expr>, then_expr: Box<Expr>, else_expr: Box<Expr>, line: usize },
    /// `{key: value, ...}`.
    MapLit { entries: Vec<(Expr, Expr)>, line: usize },
    /// `Point { x: 1, y: 2 }`.
    StructLit { name: String, fields: Vec<(String, Expr)>, line: usize },
    /// `coll[key]`.
    Index { target: Box<Expr>, key: Box<Expr>, line: usize },
    /// `target.name`.
    Field { target: Box<Expr>, name: String, line: usize },
    /// `fn(x) -> expr` or `fn(x): ... end`.
    Lambda { params: Vec<String>, body: Vec<Stmt>, line: usize },
    /// An `f"..."` literal with `{expr}` parts.
    InterpStr { parts: Vec<InterpPart>, line: usize },
}

#[derive(Debug)]
pub enum InterpPart {
    Lit(String),
    Expr(Expr),
}

/// One `words(args)` group of a command-style call. `named` holds each keyword
/// once; a repeated keyword keeps its last value.
#[derive(Debug)]
pub struct CallSegment {
    pub words: Vec<String>,
    pub positional: Vec<Expr>,
    pub named: Vec<(String, Expr)>,
}

#[derive(Debug)]
pub enum AssignTarget {
    Name(String),
    Index { target: Box<Expr>, key: Box<Expr> },
    Field { target: Box<Expr>, name: String },
}

#[derive(Debug, Clone)]
pub enum BashAction {
    Generate,
    Search,
    WebSearch,
    CompleteOrError,
}

#[derive(Debug)]
pub enum Stmt {
    Call { segments: Vec<CallSegment>, line: usize },
    Assign { target: AssignTarget, expr: Expr, is_const: bool, line: usize },
    CompoundAssign { target: AssignTarget, op: BinOp, expr: Expr, line: usize },
    IfOs { os: String, negate: bool, body: Vec<Stmt>, else_body: Option<Vec<Stmt>>, line: usize },
    If { cond: Expr, body: Vec<Stmt>, else_body: Option<Vec<Stmt>>, line: usize },
    While { cond: Expr, body: Vec<Stmt>, line: usize },
    Break { line: usize },
    Continue { line: usize },
    Try { body: Vec<Stmt>, rescue_var: Option<String>, rescue_body: Vec<Stmt>, line: usize },
    Assert { cond: Expr, message: Option<Expr>, line: usize },
    For { var: String, iter: Expr, body: Vec<Stmt>, line: usize },
    BashDsl { action: BashAction, argument: String, line: usize },
    Completed { line: usize },
    Error { code: i64, line_ref: i64, line: usize },
    AiGenerate { language: String, task: String, line: usize },
    Return { expr: Option<Expr>, line: usize },
    ExprStmt { expr: Expr, line: usize },
    Switch { expr: Expr, cases: Vec<(Vec<Expr>, Vec<Stmt>)>, default: Option<Vec<Stmt>>, line: usize },
    DoWhile { body: Vec<Stmt>, cond: Expr, line: usize },
    CFor {
        init: Option<Box<Stmt>>,
        cond: Option<Expr>,
        step: Option<Box<Stmt>>,
        body: Vec<Stmt>,
        line: usize,
    },
}

/// Display label of a bash DSL action.
pub fn bash_action_label(a: &BashAction) -> (r: &'static str)
    ensures
        r@ == match a {
            BashAction::Generate => "generate"@,
            BashAction::Search => "search"@,
            BashAction::WebSearch => "web search"@,
            BashAction::CompleteOrError => "complete or error"@,
        },
{
    match a {
        BashAction::Generate => "generate",
        BashAction::Search => "search",
        BashAction::WebSearch => "web search",
        BashAction::CompleteOrError => "complete or error",
    }
}

} // verus!
