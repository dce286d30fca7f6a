//! What the parsers report of one source file.
use vstd::prelude::*;

verus! {

/// Where the identity of a symbol comes from.
#[derive(Clone, Copy, Debug, PartialEq, Eq, Structural)]
pub enum SemanticIdProvenance {
    /// The compiler's unified symbol resolution string.
    Usr,
    /// The place of the declaration.
    DeclLocation,
}

/// A declaration of a symbol.
#[derive(Debug)]
pub struct SemanticDeclaration {
    pub stable_id: String,
    pub provenance: SemanticIdProvenance,
    pub name: String,
    /// The cursor kind that the compiler gives the declaration.
    pub kind: i32,
    pub line: usize,
    pub usr: Option<String>,
}

/// A use of a symbol.
#[derive(Debug)]
pub struct SemanticReference {
    pub stable_id: String,
    /// The cursor kind of the declaration that the use resolves to.
    pub decl_kind: i32,
    pub line: usize,
}

/// What a scope is.
#[derive(Clone, Copy, Debug, PartialEq, Eq, Structural)]
pub enum SemanticScopeKind {
    Namespace,
    Type,
    Function,
    Preprocessor,
    Template,
    Attribute,
}

/// The syntax node that opens a scope.
#[derive(Clone, Copy, Debug, PartialEq, Eq, Structural)]
pub enum ScopeNode {
    NamespaceDefinition,
    ClassSpecifier,
    StructSpecifier,
    UnionSpecifier,
    EnumSpecifier,
    FunctionDefinition,
    FunctionDeclarator,
    LambdaExpression,
    PreprocIf,
    PreprocIfdef,
    PreprocElif,
    PreprocElse,
    PreprocDef,
    PreprocFunctionDef,
    /// Any other node, by its number in the grammar.
    Other(u16),
}

/// A scope with its first and last line.
#[derive(Clone, Copy, Debug, PartialEq, Eq, Structural)]
pub struct SemanticScope {
    pub kind: SemanticScopeKind,
    pub node: ScopeNode,
    pub start_line: usize,
    pub end_line: usize,
}

/// The figures of one file.
#[derive(Clone, Copy, Debug, PartialEq, Eq, Structural)]
pub struct SemanticSummary {
    pub declaration_count: usize,
    pub reference_count: usize,
    pub usr_backed_declaration_count: usize,
    /// A fingerprint of all identities.
    pub semantic_signature: u64,
}

/// What a region of a file is.
#[derive(Clone, Copy, Debug, PartialEq, Eq, Structural)]
pub enum SemanticRegionKind {
    Preprocessor,
    Diagnostic,
    /// Any other region.
    Other,
}

/// A region of a file with its first and last line.
#[derive(Clone, Copy, Debug, PartialEq, Eq, Structural)]
pub struct SemanticRegion {
    pub kind: SemanticRegionKind,
    pub has_diagnostic_error: bool,
    pub start_line: usize,
    pub end_line: usize,
}

/// What is known of one file.
#[derive(Debug)]
pub struct SemanticFileContext {
    pub summary: SemanticSummary,
    /// Whether the compiler could read the file.
    pub clang_success: bool,
    /// Whether the syntax tree holds errors.
    pub tree_has_error: bool,
    /// How many errors the compiler reports.
    pub diagnostic_errors: usize,
    pub regions: Vec<SemanticRegion>,
    pub declarations: Vec<SemanticDeclaration>,
    pub references: Vec<SemanticReference>,
    pub scopes: Vec<SemanticScope>,
}

impl Default for SemanticFileContext {
    /// A file of which nothing is known.
    fn default() -> (r: SemanticFileContext)
        ensures
            r.summary == (SemanticSummary {
                declaration_count: 0,
                reference_count: 0,
                usr_backed_declaration_count: 0,
                semantic_signature: 0,
            }),
            !r.clang_success,
            !r.tree_has_error,
            r.diagnostic_errors == 0,
            r.regions@.len() == 0,
            r.declarations@.len() == 0,
            r.references@.len() == 0,
            r.scopes@.len() == 0,
    {
        SemanticFileContext {
            summary: SemanticSummary {
                declaration_count: 0,
                reference_count: 0,
                usr_backed_declaration_count: 0,
                semantic_signature: 0,
            },
            clang_success: false,
            tree_has_error: false,
            diagnostic_errors: 0,
            regions: Vec::new(),
            declarations: Vec::new(),
            references: Vec::new(),
            scopes: Vec::new(),
        }
    }
}

} // verus!
