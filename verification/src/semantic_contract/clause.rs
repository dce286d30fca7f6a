//! The clauses of the semantic contract.
use vstd::prelude::*;

use crate::text;
use crate::text::{normalize_label, str_eq};

verus! {

/// A clause of the semantic contract.
#[derive(Clone, Copy, Debug, PartialEq, Eq, Structural, PartialOrd, Ord, Hash)]
pub enum SemanticInvariantClause {
    ParserAvailability,
    ParseQuality,
    SymbolIdentity,
    ScopeIntegrity,
    UsageRoleConsistency,
    MacroRegionSafety,
    TouchContract,
    DeclarationReferenceIntegrity,
    EditSafety,
}

/// All clauses, in the order of their bits.
pub open spec fn all_clauses() -> Seq<SemanticInvariantClause> {
    seq![
        SemanticInvariantClause::ParserAvailability,
        SemanticInvariantClause::ParseQuality,
        SemanticInvariantClause::SymbolIdentity,
        SemanticInvariantClause::ScopeIntegrity,
        SemanticInvariantClause::UsageRoleConsistency,
        SemanticInvariantClause::MacroRegionSafety,
        SemanticInvariantClause::TouchContract,
        SemanticInvariantClause::DeclarationReferenceIntegrity,
        SemanticInvariantClause::EditSafety,
    ]
}

impl SemanticInvariantClause {
    /// The label of a clause.
    pub open spec fn label(self) -> Seq<char> {
        match self {
            SemanticInvariantClause::ParserAvailability => "parser_availability"@,
            SemanticInvariantClause::ParseQuality => "parse_quality"@,
            SemanticInvariantClause::SymbolIdentity => "symbol_identity"@,
            SemanticInvariantClause::ScopeIntegrity => "scope_integrity"@,
            SemanticInvariantClause::UsageRoleConsistency => "usage_role_consistency"@,
            SemanticInvariantClause::MacroRegionSafety => "macro_region_safety"@,
            SemanticInvariantClause::TouchContract => "touch_contract"@,
            SemanticInvariantClause::DeclarationReferenceIntegrity => "declaration_reference_integrity"@,
            SemanticInvariantClause::EditSafety => "edit_safety"@,
        }
    }

    /// The clause that a label names, if any.
    pub open spec fn of_label(label: Seq<char>) -> Option<SemanticInvariantClause> {
        if label == "parser_availability"@ {
            Some(SemanticInvariantClause::ParserAvailability)
        } else if label == "parse_quality"@ {
            Some(SemanticInvariantClause::ParseQuality)
        } else if label == "symbol_identity"@ {
            Some(SemanticInvariantClause::SymbolIdentity)
        } else if label == "scope_integrity"@ {
            Some(SemanticInvariantClause::ScopeIntegrity)
        } else if label == "usage_role_consistency"@ {
            Some(SemanticInvariantClause::UsageRoleConsistency)
        } else if label == "macro_region_safety"@ {
            Some(SemanticInvariantClause::MacroRegionSafety)
        } else if label == "touch_contract"@ {
            Some(SemanticInvariantClause::TouchContract)
        } else if label == "declaration_reference_integrity"@ {
            Some(SemanticInvariantClause::DeclarationReferenceIntegrity)
        } else if label == "edit_safety"@ {
            Some(SemanticInvariantClause::EditSafety)
        } else {
            None
        }
    }

    /// The bit that stands for a clause in a mask.
    pub open spec fn mask(self) -> u16 {
        match self {
            SemanticInvariantClause::ParserAvailability => 1u16,
            SemanticInvariantClause::ParseQuality => 2u16,
            SemanticInvariantClause::SymbolIdentity => 4u16,
            SemanticInvariantClause::ScopeIntegrity => 8u16,
            SemanticInvariantClause::UsageRoleConsistency => 16u16,
            SemanticInvariantClause::MacroRegionSafety => 32u16,
            SemanticInvariantClause::TouchContract => 64u16,
            SemanticInvariantClause::DeclarationReferenceIntegrity => 128u16,
            SemanticInvariantClause::EditSafety => 256u16,
        }
    }

    /// Whether breaking the clause forbids an edit.
    pub open spec fn is_hard(self) -> bool {
        self != SemanticInvariantClause::MacroRegionSafety
    }

    /// What a clause demands, in words.
    pub open spec fn demand(self) -> Seq<char> {
        match self {
            SemanticInvariantClause::ParserAvailability => "tree-sitter and clang parsers must both be available for semantic checks"@,
            SemanticInvariantClause::ParseQuality => "tree parse-error ratio and clang diagnostics must stay within configured budgets"@,
            SemanticInvariantClause::SymbolIdentity => "symbols must keep deterministic, stable identity without provenance drift"@,
            SemanticInvariantClause::ScopeIntegrity => "scope topology must remain stable unless explicitly tolerated"@,
            SemanticInvariantClause::UsageRoleConsistency => "reference usage roles must remain consistent with declaration kind identity"@,
            SemanticInvariantClause::MacroRegionSafety => "macro/preprocessor edits are flagged for review unless explicitly protected by policy contract"@,
            SemanticInvariantClause::TouchContract => "touch-contract must never be violated by accepted edit batches"@,
            SemanticInvariantClause::DeclarationReferenceIntegrity => "declaration-reference connectivity for stable symbols must not regress beyond tolerance"@,
            SemanticInvariantClause::EditSafety => "post-edit semantic readiness must not regress from baseline"@,
        }
    }

    pub fn as_str(&self) -> (r: &'static str)
        ensures
            r@ == self.label(),
    {
        match self {
            SemanticInvariantClause::ParserAvailability => "parser_availability",
            SemanticInvariantClause::ParseQuality => "parse_quality",
            SemanticInvariantClause::SymbolIdentity => "symbol_identity",
            SemanticInvariantClause::ScopeIntegrity => "scope_integrity",
            SemanticInvariantClause::UsageRoleConsistency => "usage_role_consistency",
            SemanticInvariantClause::MacroRegionSafety => "macro_region_safety",
            SemanticInvariantClause::TouchContract => "touch_contract",
            SemanticInvariantClause::DeclarationReferenceIntegrity => "declaration_reference_integrity",
            SemanticInvariantClause::EditSafety => "edit_safety",
        }
    }

    /// Reads a serialized clause: surrounding white space and ASCII case are
    /// ignored.
    pub fn from_serialized(value: &str) -> (r: Option<SemanticInvariantClause>)
        ensures
            r == SemanticInvariantClause::of_label(text::lower_chars(text::trimmed(value@))),
    {
        let label = normalize_label(value);
        let label = label.as_str();
        if str_eq(label, "parser_availability") {
            Some(SemanticInvariantClause::ParserAvailability)
        } else if str_eq(label, "parse_quality") {
            Some(SemanticInvariantClause::ParseQuality)
        } else if str_eq(label, "symbol_identity") {
            Some(SemanticInvariantClause::SymbolIdentity)
        } else if str_eq(label, "scope_integrity") {
            Some(SemanticInvariantClause::ScopeIntegrity)
        } else if str_eq(label, "usage_role_consistency") {
            Some(SemanticInvariantClause::UsageRoleConsistency)
        } else if str_eq(label, "macro_region_safety") {
            Some(SemanticInvariantClause::MacroRegionSafety)
        } else if str_eq(label, "touch_contract") {
            Some(SemanticInvariantClause::TouchContract)
        } else if str_eq(label, "declaration_reference_integrity") {
            Some(SemanticInvariantClause::DeclarationReferenceIntegrity)
        } else if str_eq(label, "edit_safety") {
            Some(SemanticInvariantClause::EditSafety)
        } else {
            None
        }
    }

    pub fn bit(self) -> (r: u16)
        ensures
            r == self.mask(),
    {
        match self {
            SemanticInvariantClause::ParserAvailability => 1,
            SemanticInvariantClause::ParseQuality => 2,
            SemanticInvariantClause::SymbolIdentity => 4,
            SemanticInvariantClause::ScopeIntegrity => 8,
            SemanticInvariantClause::UsageRoleConsistency => 16,
            SemanticInvariantClause::MacroRegionSafety => 32,
            SemanticInvariantClause::TouchContract => 64,
            SemanticInvariantClause::DeclarationReferenceIntegrity => 128,
            SemanticInvariantClause::EditSafety => 256,
        }
    }

    /// Reading back what `as_str` wrote gives the clause again.
    pub proof fn lemma_label_round_trip(clause: SemanticInvariantClause)
        ensures
            SemanticInvariantClause::of_label(text::lower_chars(text::trimmed(clause.label())))
                == Some(clause),
    {
        reveal_strlit("parser_availability");
        assert("parser_availability"@.len() == 19);
        reveal_strlit("parse_quality");
        assert("parse_quality"@.len() == 13);
        reveal_strlit("symbol_identity");
        assert("symbol_identity"@.len() == 15);
        reveal_strlit("scope_integrity");
        assert("scope_integrity"@.len() == 15);
        reveal_strlit("usage_role_consistency");
        assert("usage_role_consistency"@.len() == 22);
        reveal_strlit("macro_region_safety");
        assert("macro_region_safety"@.len() == 19);
        reveal_strlit("touch_contract");
        assert("touch_contract"@.len() == 14);
        reveal_strlit("declaration_reference_integrity");
        assert("declaration_reference_integrity"@.len() == 31);
        reveal_strlit("edit_safety");
        assert("edit_safety"@.len() == 11);
        assert("symbol_identity"@[1] != "scope_integrity"@[1]);
        text::lemma_plain_label(clause.label());
    }

    /// Each clause has a bit of its own.
    pub proof fn lemma_bits_disjoint(left: SemanticInvariantClause, right: SemanticInvariantClause)
        ensures
            left.mask() != 0,
            left != right ==> left.mask() & right.mask() == 0,
    {
        let a = left.mask();
        let b = right.mask();
        let x: u16 = left.position() as u16;
        let y: u16 = right.position() as u16;
        assert(a == 1u16 << x) by {
            lemma_shifts();
        }
        assert(b == 1u16 << y) by {
            lemma_shifts();
        }
        assert(x != y ==> (1u16 << x) & (1u16 << y) == 0) by (bit_vector)
            requires
                x < 9,
                y < 9,
        ;
    }

    /// The position of a clause's bit.
    pub open spec fn position(self) -> int {
        match self {
            SemanticInvariantClause::ParserAvailability => 0,
            SemanticInvariantClause::ParseQuality => 1,
            SemanticInvariantClause::SymbolIdentity => 2,
            SemanticInvariantClause::ScopeIntegrity => 3,
            SemanticInvariantClause::UsageRoleConsistency => 4,
            SemanticInvariantClause::MacroRegionSafety => 5,
            SemanticInvariantClause::TouchContract => 6,
            SemanticInvariantClause::DeclarationReferenceIntegrity => 7,
            SemanticInvariantClause::EditSafety => 8,
        }
    }
}

proof fn lemma_shifts()
    ensures
        1u16 << 0u16 == 1u16,
        1u16 << 1u16 == 2u16,
        1u16 << 2u16 == 4u16,
        1u16 << 3u16 == 8u16,
        1u16 << 4u16 == 16u16,
        1u16 << 5u16 == 32u16,
        1u16 << 6u16 == 64u16,
        1u16 << 7u16 == 128u16,
        1u16 << 8u16 == 256u16,
{
    assert(1u16 << 0u16 == 1u16) by (bit_vector);
    assert(1u16 << 1u16 == 2u16) by (bit_vector);
    assert(1u16 << 2u16 == 4u16) by (bit_vector);
    assert(1u16 << 3u16 == 8u16) by (bit_vector);
    assert(1u16 << 4u16 == 16u16) by (bit_vector);
    assert(1u16 << 5u16 == 32u16) by (bit_vector);
    assert(1u16 << 6u16 == 64u16) by (bit_vector);
    assert(1u16 << 7u16 == 128u16) by (bit_vector);
    assert(1u16 << 8u16 == 256u16) by (bit_vector);
}

/// A clause with what it demands.
#[derive(Clone, Copy, Debug)]
pub struct SemanticInvariantSpec {
    pub clause: SemanticInvariantClause,
    pub hard: bool,
    pub description: &'static str,
}

impl SemanticInvariantSpec {
    /// Whether this is the entry of a clause.
    pub open spec fn specifies(&self, clause: SemanticInvariantClause) -> bool {
        &&& self.clause == clause
        &&& self.hard == clause.is_hard()
        &&& self.description@ == clause.demand()
    }

    /// The entry of a clause.
    pub fn of(clause: SemanticInvariantClause) -> (r: SemanticInvariantSpec)
        ensures
            r.specifies(clause),
    {
        let description = match clause {
            SemanticInvariantClause::ParserAvailability => "tree-sitter and clang parsers must both be available for semantic checks",
            SemanticInvariantClause::ParseQuality => "tree parse-error ratio and clang diagnostics must stay within configured budgets",
            SemanticInvariantClause::SymbolIdentity => "symbols must keep deterministic, stable identity without provenance drift",
            SemanticInvariantClause::ScopeIntegrity => "scope topology must remain stable unless explicitly tolerated",
            SemanticInvariantClause::UsageRoleConsistency => "reference usage roles must remain consistent with declaration kind identity",
            SemanticInvariantClause::MacroRegionSafety => "macro/preprocessor edits are flagged for review unless explicitly protected by policy contract",
            SemanticInvariantClause::TouchContract => "touch-contract must never be violated by accepted edit batches",
            SemanticInvariantClause::DeclarationReferenceIntegrity => "declaration-reference connectivity for stable symbols must not regress beyond tolerance",
            SemanticInvariantClause::EditSafety => "post-edit semantic readiness must not regress from baseline",
        };
        SemanticInvariantSpec {
            clause,
            hard: clause != SemanticInvariantClause::MacroRegionSafety,
            description,
        }
    }
}

/// The clauses, in the order of their bits.
pub fn clause_list() -> (r: Vec<SemanticInvariantClause>)
    ensures
        r@ == all_clauses(),
{
    let r = vec![
        SemanticInvariantClause::ParserAvailability,
        SemanticInvariantClause::ParseQuality,
        SemanticInvariantClause::SymbolIdentity,
        SemanticInvariantClause::ScopeIntegrity,
        SemanticInvariantClause::UsageRoleConsistency,
        SemanticInvariantClause::MacroRegionSafety,
        SemanticInvariantClause::TouchContract,
        SemanticInvariantClause::DeclarationReferenceIntegrity,
        SemanticInvariantClause::EditSafety,
    ];
    assert(r@ =~= all_clauses());
    r
}

/// Every clause is in the list of clauses.
pub proof fn lemma_all_clauses_complete(clause: SemanticInvariantClause)
    ensures
        all_clauses()[clause.position()] == clause,
        0 <= clause.position() < all_clauses().len(),
{
}

/// Whether a mask holds the bit of a clause whose breach forbids an edit.
pub open spec fn touches_hard_clause(mask: u16) -> bool {
    exists|clause: SemanticInvariantClause| clause.is_hard() && mask & #[trigger] clause.mask() != 0
}

/// How strictly a policy takes part in the contract.
#[derive(Clone, Copy, Debug, PartialEq, Eq, Structural)]
pub enum PolicyGuidanceMode {
    HardInvariant,
    SoftGuideline,
}

impl PolicyGuidanceMode {
    /// The label of a mode.
    pub open spec fn label(self) -> Seq<char> {
        match self {
            PolicyGuidanceMode::HardInvariant => "hard_invariant"@,
            PolicyGuidanceMode::SoftGuideline => "soft_guideline"@,
        }
    }

    pub fn as_str(&self) -> (r: &'static str)
        ensures
            r@ == self.label(),
    {
        match self {
            PolicyGuidanceMode::HardInvariant => "hard_invariant",
            PolicyGuidanceMode::SoftGuideline => "soft_guideline",
        }
    }
}

/// A mask forbids an edit exactly where it holds one of the bits of the eight
/// clauses other than the one on macros.
pub proof fn lemma_bits_that_forbid(mask: u16)
    ensures
        touches_hard_clause(mask) <==> mask & 1 != 0 || mask & 2 != 0 || mask & 4 != 0 || mask & 8
            != 0 || mask & 16 != 0 || mask & 64 != 0 || mask & 128 != 0 || mask & 256 != 0,
{
    assert(SemanticInvariantClause::ParserAvailability.mask() == 1);
    assert(SemanticInvariantClause::ParseQuality.mask() == 2);
    assert(SemanticInvariantClause::SymbolIdentity.mask() == 4);
    assert(SemanticInvariantClause::ScopeIntegrity.mask() == 8);
    assert(SemanticInvariantClause::UsageRoleConsistency.mask() == 16);
    assert(SemanticInvariantClause::TouchContract.mask() == 64);
    assert(SemanticInvariantClause::DeclarationReferenceIntegrity.mask() == 128);
    assert(SemanticInvariantClause::EditSafety.mask() == 256);
}

} // verus!
