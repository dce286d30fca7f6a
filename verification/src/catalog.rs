//! What the engine knows of each policy: capabilities, convergence defaults
//! and behaviour.
use vstd::prelude::*;

use crate::edit_candidate::CandidateRiskTier;
use crate::policy_id;
use crate::policy_id::PolicyId;
use crate::text::str_eq;
use crate::zone::PolicyZone;

verus! {

/// The zones in which a policy may edit.
#[derive(Clone, Copy, Debug, PartialEq, Eq, Structural)]
pub enum ZoneSet {
    CodeOnly,
    CodeAndPreprocessor,
    All,
    CommentsAndPreprocessor,
}

impl ZoneSet {
    /// Whether the set holds a zone.
    pub open spec fn has(self, zone: PolicyZone) -> bool {
        match self {
            ZoneSet::CodeOnly => zone == PolicyZone::Code,
            ZoneSet::CodeAndPreprocessor => zone != PolicyZone::Comments,
            ZoneSet::All => true,
            ZoneSet::CommentsAndPreprocessor => zone != PolicyZone::Code,
        }
    }

    pub fn contains(&self, zone: PolicyZone) -> (r: bool)
        ensures
            r == self.has(zone),
    {
        match self {
            ZoneSet::CodeOnly => zone == PolicyZone::Code,
            ZoneSet::CodeAndPreprocessor => zone != PolicyZone::Comments,
            ZoneSet::All => true,
            ZoneSet::CommentsAndPreprocessor => zone != PolicyZone::Code,
        }
    }
}

/// What a policy may do to a file.
#[derive(Clone, Copy, Debug, PartialEq, Eq, Structural)]
pub struct PolicyCapabilities {
    pub whitespace_safe: bool,
    pub structural_safe: bool,
    pub semantic_rewrite: bool,
    pub clang_invalidating: bool,
    pub macro_sensitive: bool,
    pub allowed_zones: ZoneSet,
    pub risk_tier: CandidateRiskTier,
}

impl PolicyCapabilities {
    pub fn allows_zone(&self, zone: PolicyZone) -> (r: bool)
        ensures
            r == self.allowed_zones.has(zone),
    {
        self.allowed_zones.contains(zone)
    }
}

/// How a policy takes part in convergence.
#[derive(Clone, Copy, Debug, PartialEq, Eq, Structural)]
pub enum CatalogConvergenceRiskTier {
    Stabilizer,
    Balanced,
    Rewrite,
}

/// The convergence settings that a policy starts from.
#[derive(Debug)]
pub struct PolicyConvergenceDefaults {
    pub domain: String,
    pub priority: u16,
    pub impact_radius: usize,
    pub priority_weight_bp: u16,
    pub risk_tier: CatalogConvergenceRiskTier,
}

/// How the engine treats a policy.
#[derive(Clone, Copy, Debug, PartialEq, Eq, Structural)]
pub struct PolicyBehavior {
    pub needs_exact_compdb: bool,
    pub keeps_nonlocal_batch: bool,
    pub advisory_on_retry: bool,
    pub hard_invariant: bool,
    pub bypasses_line_conflict: bool,
    pub execution_priority: u8,
}

impl PolicyBehavior {
    /// The behaviour of a policy that the catalog does not know.
    pub open spec fn unknown() -> PolicyBehavior {
        PolicyBehavior {
            needs_exact_compdb: false,
            keeps_nonlocal_batch: false,
            advisory_on_retry: false,
            hard_invariant: false,
            bypasses_line_conflict: false,
            execution_priority: 80,
        }
    }
}

impl Default for PolicyBehavior {
    fn default() -> (r: PolicyBehavior)
        ensures
            r == PolicyBehavior::unknown(),
    {
        PolicyBehavior {
            needs_exact_compdb: false,
            keeps_nonlocal_batch: false,
            advisory_on_retry: false,
            hard_invariant: false,
            bypasses_line_conflict: false,
            execution_priority: 80,
        }
    }
}

/// The convergence settings of a catalog entry.
#[derive(Clone, Copy, Debug, PartialEq, Eq, Structural)]
pub struct PolicyConvergenceTemplate {
    pub priority: u16,
    pub impact_radius: usize,
    pub priority_weight_bp: u16,
    pub risk_tier: CatalogConvergenceRiskTier,
}

impl PolicyConvergenceTemplate {
    /// The settings of a policy that the catalog does not know.
    pub open spec fn unknown() -> PolicyConvergenceTemplate {
        PolicyConvergenceTemplate {
            priority: 700,
            impact_radius: 0,
            priority_weight_bp: 240,
            risk_tier: CatalogConvergenceRiskTier::Balanced,
        }
    }
}

impl Default for PolicyConvergenceTemplate {
    fn default() -> (r: PolicyConvergenceTemplate)
        ensures
            r == PolicyConvergenceTemplate::unknown(),
    {
        PolicyConvergenceTemplate {
            priority: 700,
            impact_radius: 0,
            priority_weight_bp: 240,
            risk_tier: CatalogConvergenceRiskTier::Balanced,
        }
    }
}

/// The capabilities shared by the policies that only rearrange code.
pub open spec fn structural_capabilities(zones: ZoneSet) -> PolicyCapabilities {
    PolicyCapabilities {
        whitespace_safe: false,
        structural_safe: true,
        semantic_rewrite: false,
        clang_invalidating: false,
        macro_sensitive: true,
        allowed_zones: zones,
        risk_tier: CandidateRiskTier::Medium,
    }
}

/// The capabilities shared by the policies that rewrite code.
pub open spec fn rewrite_capabilities(clang_invalidating: bool) -> PolicyCapabilities {
    PolicyCapabilities {
        whitespace_safe: false,
        structural_safe: false,
        semantic_rewrite: true,
        clang_invalidating,
        macro_sensitive: true,
        allowed_zones: ZoneSet::CodeOnly,
        risk_tier: CandidateRiskTier::High,
    }
}

/// The capabilities of a policy.
pub open spec fn capabilities_of(id: PolicyId) -> PolicyCapabilities {
    match id {
        PolicyId::DashCommentNormalizer | PolicyId::SectionTitleNormalizer => PolicyCapabilities {
            whitespace_safe: true,
            structural_safe: true,
            semantic_rewrite: false,
            clang_invalidating: false,
            macro_sensitive: false,
            allowed_zones: ZoneSet::CommentsAndPreprocessor,
            risk_tier: CandidateRiskTier::Low,
        },
        PolicyId::PragmaOnceSpacing
        | PolicyId::IncludeOrder
        | PolicyId::IncludeGuards
        | PolicyId::LuaMacroSpacing => structural_capabilities(ZoneSet::CodeAndPreprocessor),
        PolicyId::ClangFormat => structural_capabilities(ZoneSet::All),
        PolicyId::NamingConventions
        | PolicyId::SnakeCase
        | PolicyId::OperatorOverloadSpacing => rewrite_capabilities(false),
        PolicyId::FunctionVoidParams => rewrite_capabilities(true),
        _ => structural_capabilities(ZoneSet::CodeOnly),
    }
}

/// The convergence settings of a policy.
pub open spec fn convergence_of(id: PolicyId) -> PolicyConvergenceTemplate {
    PolicyConvergenceTemplate {
        priority: match id {
            PolicyId::ClangFormat => 1_000u16,
            PolicyId::SectionTitleNormalizer => 930u16,
            PolicyId::IncludeOrder => 900u16,
            PolicyId::PragmaOnceSpacing => 860u16,
            _ => 700u16,
        },
        impact_radius: match id {
            PolicyId::ClangFormat | PolicyId::IncludeOrder => 2usize,
            PolicyId::SectionTitleNormalizer => 1usize,
            _ => 0usize,
        },
        priority_weight_bp: match id {
            PolicyId::NamingConventions => 420u16,
            PolicyId::FunctionVoidParams => 300u16,
            _ => 240u16,
        },
        risk_tier: match id {
            PolicyId::ClangFormat
            | PolicyId::IncludeOrder
            | PolicyId::SectionTitleNormalizer
            | PolicyId::PragmaOnceSpacing
            | PolicyId::NamespaceEndComments
            | PolicyId::DashCommentNormalizer => CatalogConvergenceRiskTier::Stabilizer,
            PolicyId::NamingConventions
            | PolicyId::SnakeCase
            | PolicyId::FunctionVoidParams
            | PolicyId::LogicalKeywordOperators => CatalogConvergenceRiskTier::Rewrite,
            _ => CatalogConvergenceRiskTier::Balanced,
        },
    }
}

/// The behaviour of a policy.
pub open spec fn behavior_of(id: PolicyId) -> PolicyBehavior {
    PolicyBehavior {
        needs_exact_compdb: id is ClangFormat || id is IncludeOrder || id is ClassLayout
            || id is CompactDeclarations || id is DashCommentNormalizer,
        keeps_nonlocal_batch: id is ClangFormat,
        advisory_on_retry: id is ClangFormat,
        hard_invariant: false,
        bypasses_line_conflict: id is NumericLiteralSuffix || id is ClangFormat,
        execution_priority: match id {
            PolicyId::NamingConventions => 10u8,
            PolicyId::SnakeCase
            | PolicyId::FunctionVoidParams
            | PolicyId::LogicalKeywordOperators
            | PolicyId::OperatorOverloadSpacing => 20u8,
            PolicyId::PragmaOnceSpacing
            | PolicyId::IncludeGuards
            | PolicyId::IncludeOrder
            | PolicyId::LuaMacroSpacing => 40u8,
            PolicyId::CompactDeclarations
            | PolicyId::ClassLayout
            | PolicyId::NamespaceEndComments => 60u8,
            PolicyId::DashCommentNormalizer | PolicyId::SectionTitleNormalizer => 70u8,
            PolicyId::NumericLiteralSuffix => 80u8,
            PolicyId::ClangFormat => 90u8,
            PolicyId::Unknown(_) => 80u8,
        },
    }
}

/// The capabilities of the policy of a name.
pub open spec fn named_capabilities(name: Seq<char>) -> PolicyCapabilities {
    match policy_id::known_policy(name) {
        Some(id) => capabilities_of(id),
        None => structural_capabilities(ZoneSet::CodeOnly),
    }
}

/// The convergence settings of the policy of a name.
pub open spec fn named_convergence(name: Seq<char>) -> PolicyConvergenceTemplate {
    match policy_id::known_policy(name) {
        Some(id) => convergence_of(id),
        None => PolicyConvergenceTemplate::unknown(),
    }
}

/// The behaviour of the policy of a name.
pub open spec fn named_behavior(name: Seq<char>) -> PolicyBehavior {
    match policy_id::known_policy(name) {
        Some(id) => behavior_of(id),
        None => PolicyBehavior::unknown(),
    }
}

/// What the catalog holds of one known policy.
#[derive(Debug)]
pub struct PolicyCatalogEntry {
    pub name: &'static str,
    pub capabilities: PolicyCapabilities,
    pub convergence: PolicyConvergenceTemplate,
    pub behavior: PolicyBehavior,
}

impl PolicyCatalogEntry {
    /// Whether the entry is the one of a known policy.
    pub open spec fn describes(&self, id: PolicyId) -> bool {
        &&& self.name@ == id.name()
        &&& self.capabilities == capabilities_of(id)
        &&& self.convergence == convergence_of(id)
        &&& self.behavior == behavior_of(id)
    }
}

/// A name or an identifier under which the catalog can be asked.
pub trait CatalogKey {
    /// The name of the policy that is asked for.
    spec fn policy_name(&self) -> Seq<char>;

    fn to_policy_id(&self) -> (id: PolicyId)
        ensures
            id.name() == self.policy_name(),
    ;
}

impl CatalogKey for &str {
    open spec fn policy_name(&self) -> Seq<char> {
        self@
    }

    fn to_policy_id(&self) -> (id: PolicyId) {
        PolicyId::from_str_lossy(self)
    }
}

impl CatalogKey for &PolicyId {
    open spec fn policy_name(&self) -> Seq<char> {
        self.name()
    }

    fn to_policy_id(&self) -> (id: PolicyId) {
        self.copy()
    }
}

impl CatalogKey for PolicyId {
    open spec fn policy_name(&self) -> Seq<char> {
        self.name()
    }

    fn to_policy_id(&self) -> (id: PolicyId) {
        self.copy()
    }
}

/// The known policies, in the order in which the catalog holds them.
pub open spec fn known_ids() -> Seq<PolicyId> {
    seq![
        PolicyId::DashCommentNormalizer,
        PolicyId::SectionTitleNormalizer,
        PolicyId::CompactDeclarations,
        PolicyId::ClassLayout,
        PolicyId::LuaMacroSpacing,
        PolicyId::NamespaceEndComments,
        PolicyId::PragmaOnceSpacing,
        PolicyId::IncludeGuards,
        PolicyId::IncludeOrder,
        PolicyId::LogicalKeywordOperators,
        PolicyId::FunctionVoidParams,
        PolicyId::OperatorOverloadSpacing,
        PolicyId::ClangFormat,
        PolicyId::NamingConventions,
        PolicyId::SnakeCase,
        PolicyId::NumericLiteralSuffix,
    ]
}

/// The entries of all known policies.
#[derive(Debug)]
pub struct PolicyCatalog {
    pub known: Vec<PolicyCatalogEntry>,
}

impl PolicyCatalog {
    /// Whether the catalog holds each known policy, and nothing else.
    pub open spec fn wf(&self) -> bool {
        &&& self.known@.len() == known_ids().len()
        &&& forall|i: int|
            0 <= i < self.known@.len() ==> (#[trigger] self.known@[i]).describes(known_ids()[i])
    }

    pub fn build() -> (r: PolicyCatalog)
        ensures
            r.wf(),
    {
        let ids = [
            PolicyId::DashCommentNormalizer,
            PolicyId::SectionTitleNormalizer,
            PolicyId::CompactDeclarations,
            PolicyId::ClassLayout,
            PolicyId::LuaMacroSpacing,
            PolicyId::NamespaceEndComments,
            PolicyId::PragmaOnceSpacing,
            PolicyId::IncludeGuards,
            PolicyId::IncludeOrder,
            PolicyId::LogicalKeywordOperators,
            PolicyId::FunctionVoidParams,
            PolicyId::OperatorOverloadSpacing,
            PolicyId::ClangFormat,
            PolicyId::NamingConventions,
            PolicyId::SnakeCase,
            PolicyId::NumericLiteralSuffix,
        ];
        assert(ids@ =~= known_ids());
        let mut known: Vec<PolicyCatalogEntry> = Vec::new();
        let mut i: usize = 0;
        while i < 16
            invariant
                i <= 16,
                ids@ == known_ids(),
                known@.len() == i,
                forall|k: int|
                    0 <= k < i ==> (#[trigger] known@[k]).describes(known_ids()[k]),
            decreases 16 - i,
        {
            known.push(Self::entry_for_known_policy(&ids[i]));
            i += 1;
        }
        PolicyCatalog { known }
    }

    /// The catalog entry of a known policy.
    pub fn entry_for_known_policy(policy_id: &PolicyId) -> (entry: PolicyCatalogEntry)
        requires
            !(policy_id is Unknown),
        ensures
            entry.describes(*policy_id),
    {
        let name = match policy_id {
            PolicyId::DashCommentNormalizer => "dash_comment_normalizer",
            PolicyId::SectionTitleNormalizer => "section_title_normalizer",
            PolicyId::CompactDeclarations => "compact_declarations",
            PolicyId::ClassLayout => "class_layout",
            PolicyId::LuaMacroSpacing => "lua_macro_spacing",
            PolicyId::NamespaceEndComments => "namespace_end_comments",
            PolicyId::PragmaOnceSpacing => "pragma_once_spacing",
            PolicyId::IncludeGuards => "include_guards",
            PolicyId::IncludeOrder => "include_order",
            PolicyId::LogicalKeywordOperators => "logical_keyword_operators",
            PolicyId::FunctionVoidParams => "function_void_params",
            PolicyId::OperatorOverloadSpacing => "operator_overload_spacing",
            PolicyId::ClangFormat => "clang_format",
            PolicyId::NamingConventions => "naming_conventions",
            PolicyId::SnakeCase => "snake_case",
            PolicyId::NumericLiteralSuffix => "numeric_literal_suffix",
            PolicyId::Unknown(_) => "",
        };
        let comment_policy = matches!(policy_id, PolicyId::DashCommentNormalizer
            | PolicyId::SectionTitleNormalizer);
        let rewrites = matches!(policy_id, PolicyId::NamingConventions | PolicyId::SnakeCase
            | PolicyId::OperatorOverloadSpacing | PolicyId::FunctionVoidParams);
        let capabilities = PolicyCapabilities {
            whitespace_safe: comment_policy,
            structural_safe: !rewrites,
            semantic_rewrite: rewrites,
            clang_invalidating: matches!(policy_id, PolicyId::FunctionVoidParams),
            macro_sensitive: !comment_policy,
            allowed_zones: match policy_id {
                PolicyId::DashCommentNormalizer
                | PolicyId::SectionTitleNormalizer => ZoneSet::CommentsAndPreprocessor,
                PolicyId::PragmaOnceSpacing
                | PolicyId::IncludeOrder
                | PolicyId::IncludeGuards
                | PolicyId::LuaMacroSpacing => ZoneSet::CodeAndPreprocessor,
                PolicyId::ClangFormat => ZoneSet::All,
                _ => ZoneSet::CodeOnly,
            },
            risk_tier: if comment_policy {
                CandidateRiskTier::Low
            } else if rewrites {
                CandidateRiskTier::High
            } else {
                CandidateRiskTier::Medium
            },
        };
        let convergence = PolicyConvergenceTemplate {
            priority: match policy_id {
                PolicyId::ClangFormat => 1_000,
                PolicyId::SectionTitleNormalizer => 930,
                PolicyId::IncludeOrder => 900,
                PolicyId::PragmaOnceSpacing => 860,
                _ => 700,
            },
            impact_radius: match policy_id {
                PolicyId::ClangFormat | PolicyId::IncludeOrder => 2,
                PolicyId::SectionTitleNormalizer => 1,
                _ => 0,
            },
            priority_weight_bp: match policy_id {
                PolicyId::NamingConventions => 420,
                PolicyId::FunctionVoidParams => 300,
                _ => 240,
            },
            risk_tier: match policy_id {
                PolicyId::ClangFormat
                | PolicyId::IncludeOrder
                | PolicyId::SectionTitleNormalizer
                | PolicyId::PragmaOnceSpacing
                | PolicyId::NamespaceEndComments
                | PolicyId::DashCommentNormalizer => CatalogConvergenceRiskTier::Stabilizer,
                PolicyId::NamingConventions
                | PolicyId::SnakeCase
                | PolicyId::FunctionVoidParams
                | PolicyId::LogicalKeywordOperators => CatalogConvergenceRiskTier::Rewrite,
                _ => CatalogConvergenceRiskTier::Balanced,
            },
        };
        let behavior = PolicyBehavior {
            needs_exact_compdb: matches!(policy_id, PolicyId::ClangFormat | PolicyId::IncludeOrder
                | PolicyId::ClassLayout | PolicyId::CompactDeclarations
                | PolicyId::DashCommentNormalizer),
            keeps_nonlocal_batch: matches!(policy_id, PolicyId::ClangFormat),
            advisory_on_retry: matches!(policy_id, PolicyId::ClangFormat),
            hard_invariant: false,
            bypasses_line_conflict: matches!(policy_id, PolicyId::NumericLiteralSuffix
                | PolicyId::ClangFormat),
            execution_priority: match policy_id {
                PolicyId::NamingConventions => 10,
                PolicyId::SnakeCase
                | PolicyId::FunctionVoidParams
                | PolicyId::LogicalKeywordOperators
                | PolicyId::OperatorOverloadSpacing => 20,
                PolicyId::PragmaOnceSpacing
                | PolicyId::IncludeGuards
                | PolicyId::IncludeOrder
                | PolicyId::LuaMacroSpacing => 40,
                PolicyId::CompactDeclarations
                | PolicyId::ClassLayout
                | PolicyId::NamespaceEndComments => 60,
                PolicyId::DashCommentNormalizer | PolicyId::SectionTitleNormalizer => 70,
                PolicyId::NumericLiteralSuffix => 80,
                PolicyId::ClangFormat => 90,
                PolicyId::Unknown(_) => 80,
            },
        };
        PolicyCatalogEntry { name, capabilities, convergence, behavior }
    }

    /// The index of the entry of a name.
    fn find(&self, name: &str) -> (r: Option<usize>)
        requires
            self.wf(),
        ensures
            match r {
                Some(i) => i < self.known@.len() && policy_id::known_policy(name@) == Some(
                    known_ids()[i as int],
                ),
                None => policy_id::known_policy(name@) is None,
            },
    {
        let mut i: usize = 0;
        while i < self.known.len()
            invariant
                self.wf(),
                i <= self.known@.len(),
                forall|k: int| 0 <= k < i ==> (#[trigger] known_ids()[k]).name() != name@,
            decreases self.known@.len() - i,
        {
            assert(self.known@[i as int].describes(known_ids()[i as int]));
            if str_eq(self.known[i].name, name) {
                proof {
                    policy_id::lemma_known_name_round_trip(known_ids()[i as int]);
                }
                return Some(i);
            }
            i += 1;
        }
        proof {
            lemma_known_ids_complete(name@);
        }
        None
    }

    pub fn capabilities<K: CatalogKey>(&self, key: K) -> (r: PolicyCapabilities)
        requires
            self.wf(),
        ensures
            r == named_capabilities(key.policy_name()),
    {
        let id = key.to_policy_id();
        match self.find(id.as_str()) {
            Some(i) => {
                assert(self.known@[i as int].describes(known_ids()[i as int]));
                self.known[i].capabilities
            },
            None => PolicyCapabilities {
                whitespace_safe: false,
                structural_safe: true,
                semantic_rewrite: false,
                clang_invalidating: false,
                macro_sensitive: true,
                allowed_zones: ZoneSet::CodeOnly,
                risk_tier: CandidateRiskTier::Medium,
            },
        }
    }

    pub fn convergence<K: CatalogKey>(&self, key: K) -> (r: PolicyConvergenceDefaults)
        requires
            self.wf(),
        ensures
            r.domain@ == key.policy_name(),
            ({
                let defaults = named_convergence(key.policy_name());
                &&& r.priority == defaults.priority
                &&& r.impact_radius == defaults.impact_radius
                &&& r.priority_weight_bp == defaults.priority_weight_bp
                &&& r.risk_tier == defaults.risk_tier
            }),
    {
        let id = key.to_policy_id();
        let template = match self.find(id.as_str()) {
            Some(i) => {
                assert(self.known@[i as int].describes(known_ids()[i as int]));
                self.known[i].convergence
            },
            None => PolicyConvergenceTemplate::default(),
        };
        PolicyConvergenceDefaults {
            domain: id.as_str().to_owned(),
            priority: template.priority,
            impact_radius: template.impact_radius,
            priority_weight_bp: template.priority_weight_bp,
            risk_tier: template.risk_tier,
        }
    }

    pub fn behavior<K: CatalogKey>(&self, key: K) -> (r: PolicyBehavior)
        requires
            self.wf(),
        ensures
            r == named_behavior(key.policy_name()),
    {
        let id = key.to_policy_id();
        match self.find(id.as_str()) {
            Some(i) => {
                assert(self.known@[i as int].describes(known_ids()[i as int]));
                self.known[i].behavior
            },
            None => PolicyBehavior::default(),
        }
    }

    pub fn bypasses_line_conflict(&self, policy_name: &str) -> (r: bool)
        requires
            self.wf(),
        ensures
            r == named_behavior(policy_name@).bypasses_line_conflict,
    {
        self.behavior(policy_name).bypasses_line_conflict
    }

    pub fn is_semantic_rewrite<K: CatalogKey>(&self, key: K) -> (r: bool)
        requires
            self.wf(),
        ensures
            r == named_capabilities(key.policy_name()).semantic_rewrite,
    {
        self.capabilities(key).semantic_rewrite
    }
}

proof fn lemma_known_ids_complete(name: Seq<char>)
    requires
        forall|k: int|
            0 <= k < known_ids().len() ==> (#[trigger] known_ids()[k]).name() != name,
    ensures
        policy_id::known_policy(name) is None,
{
    assert(known_ids()[0].name() != name);
    assert(known_ids()[1].name() != name);
    assert(known_ids()[2].name() != name);
    assert(known_ids()[3].name() != name);
    assert(known_ids()[4].name() != name);
    assert(known_ids()[5].name() != name);
    assert(known_ids()[6].name() != name);
    assert(known_ids()[7].name() != name);
    assert(known_ids()[8].name() != name);
    assert(known_ids()[9].name() != name);
    assert(known_ids()[10].name() != name);
    assert(known_ids()[11].name() != name);
    assert(known_ids()[12].name() != name);
    assert(known_ids()[13].name() != name);
    assert(known_ids()[14].name() != name);
    assert(known_ids()[15].name() != name);
}

/// Every policy that rewrites code carries high risk, and no other does.
pub proof fn lemma_rewrites_are_high_risk(name: Seq<char>)
    ensures
        named_capabilities(name).semantic_rewrite <==> named_capabilities(name).risk_tier
            == CandidateRiskTier::High,
        named_capabilities(name).semantic_rewrite <==> !named_capabilities(name).structural_safe,
{
}

/// The catalog of the known policies.
pub fn policy_catalog() -> (r: PolicyCatalog)
    ensures
        r.wf(),
{
    PolicyCatalog::build()
}

/// The capabilities of each policy by name.
pub struct PolicyCapabilityMatrix;

impl PolicyCapabilityMatrix {
    pub fn for_policy(policy_name: &str) -> (r: PolicyCapabilities)
        ensures
            r == named_capabilities(policy_name@),
    {
        let catalog = policy_catalog();
        catalog.capabilities(policy_name)
    }
}

proof fn lemma_names_of_ids(name: Seq<char>)
    ensures
        name == "dash_comment_normalizer"@ <==> policy_id::known_policy(name) == Some(
            PolicyId::DashCommentNormalizer,
        ),
        name == "section_title_normalizer"@ <==> policy_id::known_policy(name) == Some(
            PolicyId::SectionTitleNormalizer,
        ),
        name == "compact_declarations"@ <==> policy_id::known_policy(name) == Some(
            PolicyId::CompactDeclarations,
        ),
        name == "class_layout"@ <==> policy_id::known_policy(name) == Some(PolicyId::ClassLayout),
        name == "pragma_once_spacing"@ <==> policy_id::known_policy(name) == Some(
            PolicyId::PragmaOnceSpacing,
        ),
        name == "include_guards"@ <==> policy_id::known_policy(name) == Some(
            PolicyId::IncludeGuards,
        ),
        name == "include_order"@ <==> policy_id::known_policy(name) == Some(
            PolicyId::IncludeOrder,
        ),
        name == "lua_macro_spacing"@ <==> policy_id::known_policy(name) == Some(
            PolicyId::LuaMacroSpacing,
        ),
        name == "function_void_params"@ <==> policy_id::known_policy(name) == Some(
            PolicyId::FunctionVoidParams,
        ),
        name == "operator_overload_spacing"@ <==> policy_id::known_policy(name) == Some(
            PolicyId::OperatorOverloadSpacing,
        ),
        name == "clang_format"@ <==> policy_id::known_policy(name) == Some(PolicyId::ClangFormat),
        name == "naming_conventions"@ <==> policy_id::known_policy(name) == Some(
            PolicyId::NamingConventions,
        ),
        name == "snake_case"@ <==> policy_id::known_policy(name) == Some(PolicyId::SnakeCase),
        name == "numeric_literal_suffix"@ <==> policy_id::known_policy(name) == Some(
            PolicyId::NumericLiteralSuffix,
        ),
{
    policy_id::lemma_known_name_round_trip(PolicyId::DashCommentNormalizer);
    policy_id::lemma_known_name_round_trip(PolicyId::SectionTitleNormalizer);
    policy_id::lemma_known_name_round_trip(PolicyId::CompactDeclarations);
    policy_id::lemma_known_name_round_trip(PolicyId::ClassLayout);
    policy_id::lemma_known_name_round_trip(PolicyId::PragmaOnceSpacing);
    policy_id::lemma_known_name_round_trip(PolicyId::IncludeGuards);
    policy_id::lemma_known_name_round_trip(PolicyId::IncludeOrder);
    policy_id::lemma_known_name_round_trip(PolicyId::LuaMacroSpacing);
    policy_id::lemma_known_name_round_trip(PolicyId::FunctionVoidParams);
    policy_id::lemma_known_name_round_trip(PolicyId::OperatorOverloadSpacing);
    policy_id::lemma_known_name_round_trip(PolicyId::ClangFormat);
    policy_id::lemma_known_name_round_trip(PolicyId::NamingConventions);
    policy_id::lemma_known_name_round_trip(PolicyId::SnakeCase);
    policy_id::lemma_known_name_round_trip(PolicyId::NumericLiteralSuffix);
}

/// Which policies are special: those that rename or rewrite, those that may
/// share a line with another policy, the formatter that keeps its edits
/// together, and those that need the compiler's own options. Of these, one
/// alone makes what the compiler said worthless.
pub proof fn lemma_special_policies(name: Seq<char>)
    ensures
        named_capabilities(name).semantic_rewrite <==> name == "naming_conventions"@ || name
            == "snake_case"@ || name == "operator_overload_spacing"@ || name
            == "function_void_params"@,
        named_capabilities(name).clang_invalidating <==> name == "function_void_params"@,
        named_behavior(name).bypasses_line_conflict <==> name == "clang_format"@ || name
            == "numeric_literal_suffix"@,
        named_behavior(name).keeps_nonlocal_batch <==> name == "clang_format"@,
        named_behavior(name).advisory_on_retry <==> name == "clang_format"@,
        named_behavior(name).needs_exact_compdb <==> name == "clang_format"@ || name
            == "include_order"@ || name == "class_layout"@ || name == "compact_declarations"@
            || name == "dash_comment_normalizer"@,
        !named_behavior(name).hard_invariant,
{
    lemma_names_of_ids(name);
}

/// Where policies may edit: every policy but those for comments in code, those
/// for comments and the formatter alone in comments, and in directives besides
/// them only those for directives.
pub proof fn lemma_zones_of_policies(name: Seq<char>)
    ensures
        ({
            let zones = named_capabilities(name).allowed_zones;
            let comments = name == "dash_comment_normalizer"@ || name
                == "section_title_normalizer"@;
            let directives = name == "pragma_once_spacing"@ || name == "include_order"@ || name
                == "include_guards"@ || name == "lua_macro_spacing"@;
            &&& zones.has(PolicyZone::Code) <==> !comments
            &&& zones.has(PolicyZone::Comments) <==> comments || name == "clang_format"@
            &&& zones.has(PolicyZone::Preprocessor) <==> comments || directives || name
                == "clang_format"@
            &&& named_capabilities(name).whitespace_safe <==> comments
            &&& named_capabilities(name).macro_sensitive <==> !comments
            &&& named_capabilities(name).risk_tier == CandidateRiskTier::Low <==> comments
        }),
{
    lemma_names_of_ids(name);
}

/// In which order policies come: the formatter has the last word on a line and
/// runs last, the policies that rename run first, and a policy that is not known
/// is like most others.
pub proof fn lemma_order_of_policies(name: Seq<char>)
    ensures
        ({
            let p = named_convergence(name).priority;
            &&& name == "clang_format"@ ==> p == 1_000
            &&& name == "section_title_normalizer"@ ==> p == 930
            &&& name == "include_order"@ ==> p == 900
            &&& name == "pragma_once_spacing"@ ==> p == 860
            &&& name != "clang_format"@ && name != "section_title_normalizer"@ && name
                != "include_order"@ && name != "pragma_once_spacing"@ ==> p == 700
        }),
        ({
            let place = named_behavior(name).execution_priority;
            &&& place == 10 <==> name == "naming_conventions"@
            &&& place == 90 <==> name == "clang_format"@
            &&& 10 <= place <= 90
            &&& named_capabilities(name).semantic_rewrite ==> place <= 20
        }),
        named_convergence(name).impact_radius == (if name == "clang_format"@ || name
            == "include_order"@ {
            2
        } else if name == "section_title_normalizer"@ {
            1
        } else {
            0int
        }),
{
    lemma_names_of_ids(name);
}

} // verus!
