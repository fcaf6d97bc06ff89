//! The syntax tree of a Python module as the module reader sees it: the
//! statements, expressions, decorators and imports it walks, each statement
//! with the line and column where it starts.
use vstd::prelude::*;

verus! {

/// A line and column of a module's text, both counted from 1.
#[derive(Debug, Clone, Copy, PartialEq, Eq)]
pub struct Position {
    pub line: usize,
    pub column: usize,
}

/// A comparison operator; the reader only tells `==` from the others.
#[derive(Debug, Clone, Copy, PartialEq, Eq)]
pub enum CompareOp {
    Equal,
    Different,
}

/// An expression.
#[derive(Debug, PartialEq, Eq)]
pub enum Expr {
    Name { id: String, position: Position },
    Attribute { value: Box<Expr>, attr: String, position: Position },
    Call { func: Box<Expr>, args: Vec<Expr>, keywords: Vec<Keyword>, position: Position },
    StringLiteral { value: String },
    BooleanLiteral { value: bool },
    Compare { left: Box<Expr>, ops: Vec<CompareOp>, comparators: Vec<Expr> },
    /// Any expression the reader does not look into.
    Opaque,
}

/// A keyword argument of a call: `arg=value`, or `**value` with no name.
#[derive(Debug, PartialEq, Eq)]
pub struct Keyword {
    pub arg: Option<String>,
    pub value: Expr,
    pub position: Position,
}

/// A parameter of a `def`: its name, annotation and default value.
#[derive(Debug, PartialEq, Eq)]
pub struct Parameter {
    pub name: String,
    pub annotation: Option<Expr>,
    pub default: Option<Expr>,
}

/// One name of an import: `name` or `name as asname`.
#[derive(Debug, PartialEq, Eq)]
pub struct ImportAlias {
    pub name: String,
    pub asname: Option<String>,
}

/// A decorator and where it starts.
#[derive(Debug, PartialEq, Eq)]
pub struct Decorator {
    pub expression: Expr,
    pub position: Position,
}

/// A `def` statement.
#[derive(Debug, PartialEq, Eq)]
pub struct FunctionDef {
    pub name: String,
    pub position: Position,
    pub decorators: Vec<Decorator>,
    pub parameters: Vec<Parameter>,
    pub return_annotation: Option<Expr>,
    pub body: Vec<Stmt>,
}

/// A `class` statement.
#[derive(Debug, PartialEq, Eq)]
pub struct ClassDef {
    pub name: String,
    pub position: Position,
    pub bases: Vec<Expr>,
    pub body: Vec<Stmt>,
}

/// A statement.
#[derive(Debug, PartialEq, Eq)]
pub enum Stmt {
    FunctionDef(FunctionDef),
    ClassDef(ClassDef),
    /// `import a.b as c, d`
    Import { names: Vec<ImportAlias>, position: Position },
    /// `from .a import b as c`: `level` counts the leading dots.
    ImportFrom { module: Option<String>, level: u32, names: Vec<ImportAlias>, position: Position },
    /// `if test: body`, with the bodies of its `elif` and `else` clauses,
    /// in order, as `orelse`.
    If { test: Expr, body: Vec<Stmt>, orelse: Vec<Stmt>, position: Position },
    /// `t1 = t2 = value`
    Assign { targets: Vec<Expr>, value: Expr, position: Position },
    /// `target: annotation = value`
    AnnAssign { target: Expr, annotation: Expr, value: Option<Expr>, position: Position },
    /// An expression evaluated for its effect.
    Expr { value: Expr },
    /// `return value`
    Return { value: Option<Expr> },
    /// Any statement the reader does not look into.
    Opaque,
}

/// The statements of a module, in order.
#[derive(Debug, PartialEq, Eq)]
pub struct ModuleSyntax {
    pub body: Vec<Stmt>,
}

/// The name bound by an assignment target that is a plain name.
pub open spec fn target_name(e: Expr) -> Option<Seq<char>> {
    match e {
        Expr::Name { id, .. } => Some(id@),
        _ => None,
    }
}

/// The attribute assigned by a target `self.<attr>`.
pub open spec fn self_attribute_name(e: Expr) -> Option<Seq<char>> {
    match e {
        Expr::Attribute { value, attr, .. } => match *value {
            Expr::Name { id, .. } => if id@ == "self"@ {
                Some(attr@)
            } else {
                None
            },
            _ => None,
        },
        _ => None,
    }
}

/// The test `__name__ == "__main__"` of a module's entry guard.
pub open spec fn is_main_test(test: Expr) -> bool {
    match test {
        Expr::Compare { left, ops, comparators } => {
            &&& (match *left {
                Expr::Name { id, .. } => id@ == "__name__"@,
                _ => false,
            })
            &&& ops@ == seq![CompareOp::Equal]
            &&& comparators@.len() == 1
            &&& (match comparators@[0] {
                Expr::StringLiteral { value } => value@ == "__main__"@,
                _ => false,
            })
        },
        _ => false,
    }
}

/// `target_name`, computed.
pub fn name_of_target(e: &Expr) -> (r: Option<&String>)
    ensures
        match r {
            Some(n) => target_name(*e) == Some(n@),
            None => target_name(*e) is None,
        },
{
    match e {
        Expr::Name { id, .. } => Some(id),
        _ => None,
    }
}

/// `self_attribute_name`, computed.
pub fn self_attribute_of(e: &Expr) -> (r: Option<&String>)
    ensures
        match r {
            Some(n) => self_attribute_name(*e) == Some(n@),
            None => self_attribute_name(*e) is None,
        },
{
    match e {
        Expr::Attribute { value, attr, .. } => match &**value {
            Expr::Name { id, .. } => {
                if crate::text::same_text(id.as_str(), "self") {
                    Some(attr)
                } else {
                    None
                }
            },
            _ => None,
        },
        _ => None,
    }
}

/// Whether `test` is the module entry guard `__name__ == "__main__"`.
pub fn is_main_guard(test: &Expr) -> (r: bool)
    ensures
        r == is_main_test(*test),
{
    match test {
        Expr::Compare { left, ops, comparators } => {
            let left_ok = match &**left {
                Expr::Name { id, .. } => crate::text::same_text(id.as_str(), "__name__"),
                _ => false,
            };
            if !left_ok {
                return false;
            }
            if ops.len() != 1 {
                return false;
            }
            let op_ok = match ops[0] {
                CompareOp::Equal => true,
                CompareOp::Different => false,
            };
            if !op_ok {
                assert(ops@ != seq![CompareOp::Equal]);
                return false;
            }
            assert(ops@ =~= seq![CompareOp::Equal]);
            if comparators.len() != 1 {
                return false;
            }
            match &comparators[0] {
                Expr::StringLiteral { value } => crate::text::same_text(value.as_str(), "__main__"),
                _ => false,
            }
        },
        _ => false,
    }
}

} // verus!
