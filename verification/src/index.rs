//! The symbol index: what the analyzer knows of each Python module of a
//! project, and the type bindings it records.
use vstd::prelude::*;

use crate::report::{Diagnostic, Severity, SourceSpan, SymbolKind};
use crate::text::copy_string;

verus! {

#[derive(Debug, PartialEq, Eq)]
pub struct SymbolIndex {
    pub modules: Vec<ModuleIndex>,
    pub parse_diagnostics: Vec<ParseDiagnostic>,
    pub include_tests: bool,
    pub root_groups: Vec<String>,
    pub counts_as_used_root_groups: Vec<String>,
    pub primary_root_group: String,
    pub class_surfaces: Vec<String>,
    pub route_globs: Vec<ResolvedRouteGlob>,
}

#[derive(Debug, Clone, PartialEq, Eq)]
pub struct ResolvedRouteGlob {
    pub when_function_called: String,
    pub modules: Vec<String>,
}

#[derive(Debug, PartialEq, Eq)]
pub struct ModuleIndex {
    pub module: String,
    pub file: String,
    pub symbols: Vec<IndexedSymbol>,
    pub imports: Vec<ResolvedImport>,
    pub classes: Vec<ClassInfo>,
    pub value_bindings: Vec<ValueBinding>,
    pub module_values: Vec<ModuleValue>,
    pub function_signatures: Vec<FunctionSignature>,
    pub pytest_fixtures: Vec<PytestFixture>,
    pub call_argument_types: Vec<CallArgumentType>,
    pub references: Vec<SymbolReference>,
    pub member_references: Vec<MemberReference>,
    pub unresolved_receivers: Vec<UnresolvedReceiver>,
    pub unsupported_expansions: Vec<UnsupportedExpansion>,
    pub is_test: bool,
    pub root_symbols: Vec<RootSymbol>,
}

/// The first symbol of an indexed module is the module itself: named by the
/// module's name, of kind `Module`, at line 1, column 1 of its file.
pub open spec fn heads_with_module(m: ModuleIndex) -> bool {
    &&& m.symbols@.len() > 0
    &&& m.symbols@[0].qualified_name@ == m.module@
    &&& m.symbols@[0].name@ == m.module@
    &&& m.symbols@[0].kind == SymbolKind::Module
    &&& m.symbols@[0].span.file@ == m.file@
    &&& m.symbols@[0].span.line == 1
    &&& m.symbols@[0].span.column == 1
}

#[derive(Debug, Clone, PartialEq, Eq)]
pub struct RootSymbol {
    pub group: String,
    pub symbol: String,
}

#[derive(Debug, Clone, PartialEq, Eq)]
pub struct IndexedSymbol {
    pub qualified_name: String,
    pub name: String,
    pub kind: SymbolKind,
    pub span: SourceSpan,
}

#[derive(Debug, PartialEq, Eq)]
pub struct ClassInfo {
    pub class: String,
    pub bases: Vec<TypeBinding>,
    pub type_params: Vec<String>,
    pub fields: Vec<ClassFieldInfo>,
    pub attributes: Vec<String>,
}

#[derive(Debug, PartialEq, Eq)]
pub struct ClassFieldInfo {
    pub name: String,
    pub annotation: FieldAnnotation,
}

#[derive(Debug, PartialEq, Eq)]
pub struct TypeBinding {
    pub base: String,
    pub args: Vec<TypeBinding>,
    pub external: bool,
}

#[derive(Debug, PartialEq, Eq)]
pub enum FieldAnnotation {
    Concrete(TypeBinding),
}

#[derive(Debug, PartialEq, Eq)]
pub struct ValueBinding {
    pub qualified_name: String,
    pub binding: TypeBinding,
}

#[derive(Debug, Clone, PartialEq, Eq)]
pub struct ModuleValue {
    pub qualified_name: String,
    pub name: String,
}

#[derive(Debug, PartialEq, Eq)]
pub struct FunctionSignature {
    pub function: String,
    pub parameters: Vec<FunctionParameter>,
    pub return_type: Option<TypeBinding>,
    pub concrete_return_type: Option<TypeBinding>,
    pub validated_return_types: Vec<TypeBinding>,
}

#[derive(Debug, PartialEq, Eq)]
pub struct FunctionParameter {
    pub name: String,
    pub annotation: Option<TypeBinding>,
}

#[derive(Debug, Clone, PartialEq, Eq)]
pub struct PytestFixture {
    pub name: String,
    pub function: String,
    pub autouse: bool,
}

#[derive(Debug, Clone, PartialEq, Eq)]
pub struct CallArgumentType {
    pub from: String,
    pub callee: String,
    pub position: usize,
    pub concrete_type: String,
    pub span: SourceSpan,
}

#[derive(Debug, Clone, PartialEq, Eq)]
pub struct ResolvedImport {
    pub binding: String,
    pub target: ImportTarget,
    pub span: SourceSpan,
}

#[derive(Debug, Clone, PartialEq, Eq)]
pub enum ImportTarget {
    Module { module: String, external: bool },
    Symbol { module: String, name: String, external: bool },
    Star { module: String, external: bool },
}

#[derive(Debug, Clone, PartialEq, Eq)]
pub struct SymbolReference {
    pub from: String,
    pub name: String,
    pub span: SourceSpan,
}

#[derive(Debug, Clone, PartialEq, Eq)]
pub struct MemberReference {
    pub from: String,
    pub target: String,
    pub access: AccessKind,
    pub span: SourceSpan,
}

#[derive(Debug, Clone, Copy, PartialEq, Eq, Structural)]
pub enum AccessKind {
    Read,
    Write,
    Construct,
    Call,
}

#[derive(Debug, Clone, PartialEq, Eq)]
pub struct UnresolvedReceiver {
    pub from: String,
    pub receiver: String,
    pub member: String,
    pub span: SourceSpan,
}

#[derive(Debug, Clone, PartialEq, Eq)]
pub struct UnsupportedExpansion {
    pub from: String,
    pub target: String,
    pub span: SourceSpan,
}

#[derive(Debug, Clone, PartialEq, Eq)]
pub struct ParseDiagnostic {
    pub file: String,
    pub message: String,
    pub span: SourceSpan,
}

impl ParseDiagnostic {
    /// The warning reported for a module that could not be parsed.
    pub fn into_core_diagnostic(self) -> (r: Diagnostic)
        ensures
            r.code@ == "DCF102"@,
            r.severity == Severity::Warning,
            r.message == self.message,
            r.span == self.span,
    {
        Diagnostic {
            code: String::from_str("DCF102"),
            severity: Severity::Warning,
            message: self.message,
            span: self.span,
        }
    }
}

/// Two type bindings are equal: same base, same argument bindings in order,
/// same external flag.
pub open spec fn same_type(a: TypeBinding, b: TypeBinding) -> bool
    decreases a,
{
    &&& a.base@ == b.base@
    &&& a.external == b.external
    &&& a.args@.len() == b.args@.len()
    &&& forall|i: int| 0 <= i < a.args@.len() ==> same_type(#[trigger] a.args@[i], b.args@[i])
}

impl TypeBinding {
    /// A binding with no type arguments, inside the project.
    pub fn erased(base: String) -> (r: Self)
        ensures
            r.base == base,
            r.args@.len() == 0,
            !r.external,
    {
        TypeBinding { base, args: Vec::new(), external: false }
    }

    /// An equal binding.
    pub fn duplicate(&self) -> (r: Self)
        ensures
            same_type(r, *self),
        decreases self,
    {
        let mut args: Vec<TypeBinding> = Vec::new();
        let mut i: usize = 0;
        while i < self.args.len()
            invariant
                i <= self.args@.len(),
                args@.len() == i,
                forall|j: int| 0 <= j < i ==> same_type(#[trigger] args@[j], self.args@[j]),
            decreases self.args@.len() - i,
        {
            let a = self.args[i].duplicate();
            args.push(a);
            i = i + 1;
        }
        let r = TypeBinding { base: copy_string(&self.base), args, external: self.external };
        r
    }

    /// Whether two bindings are equal (`==` on bindings).
    pub fn equals(&self, other: &TypeBinding) -> (r: bool)
        ensures
            r == same_type(*self, *other),
        decreases self,
    {
        if !crate::text::same_text(self.base.as_str(), other.base.as_str()) || self.external
            != other.external || self.args.len() != other.args.len() {
            return false;
        }
        let mut i: usize = 0;
        while i < self.args.len()
            invariant
                self.args@.len() == other.args@.len(),
                i <= self.args@.len(),
                forall|j: int| 0 <= j < i ==> same_type(#[trigger] self.args@[j], other.args@[j]),
            decreases self.args@.len() - i,
        {
            if !self.args[i].equals(&other.args[i]) {
                assert(!same_type(self.args@[i as int], other.args@[i as int]));
                return false;
            }
            i = i + 1;
        }
        true
    }
}

} // verus!
