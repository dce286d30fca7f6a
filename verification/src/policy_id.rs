//! The policies that the engine knows by name.
use vstd::prelude::*;

use crate::text::str_eq;

verus! {

/// A policy: one of the known ones, or any other by its name.
#[derive(Debug)]
pub enum PolicyId {
    DashCommentNormalizer,
    SectionTitleNormalizer,
    CompactDeclarations,
    ClassLayout,
    LuaMacroSpacing,
    NamespaceEndComments,
    PragmaOnceSpacing,
    IncludeGuards,
    IncludeOrder,
    LogicalKeywordOperators,
    FunctionVoidParams,
    OperatorOverloadSpacing,
    ClangFormat,
    NamingConventions,
    SnakeCase,
    NumericLiteralSuffix,
    Unknown(String),
}

/// The known policy of a name, if there is one.
pub open spec fn known_policy(name: Seq<char>) -> Option<PolicyId> {
    if name == "dash_comment_normalizer"@ {
        Some(PolicyId::DashCommentNormalizer)
    } else if name == "section_title_normalizer"@ {
        Some(PolicyId::SectionTitleNormalizer)
    } else if name == "compact_declarations"@ {
        Some(PolicyId::CompactDeclarations)
    } else if name == "class_layout"@ {
        Some(PolicyId::ClassLayout)
    } else if name == "lua_macro_spacing"@ {
        Some(PolicyId::LuaMacroSpacing)
    } else if name == "namespace_end_comments"@ {
        Some(PolicyId::NamespaceEndComments)
    } else if name == "pragma_once_spacing"@ {
        Some(PolicyId::PragmaOnceSpacing)
    } else if name == "include_guards"@ {
        Some(PolicyId::IncludeGuards)
    } else if name == "include_order"@ {
        Some(PolicyId::IncludeOrder)
    } else if name == "logical_keyword_operators"@ {
        Some(PolicyId::LogicalKeywordOperators)
    } else if name == "function_void_params"@ {
        Some(PolicyId::FunctionVoidParams)
    } else if name == "operator_overload_spacing"@ {
        Some(PolicyId::OperatorOverloadSpacing)
    } else if name == "clang_format"@ {
        Some(PolicyId::ClangFormat)
    } else if name == "naming_conventions"@ {
        Some(PolicyId::NamingConventions)
    } else if name == "snake_case"@ {
        Some(PolicyId::SnakeCase)
    } else if name == "numeric_literal_suffix"@ {
        Some(PolicyId::NumericLiteralSuffix)
    } else {
        None
    }
}

impl PolicyId {
    /// The name of a policy.
    pub open spec fn name(&self) -> Seq<char> {
        match self {
            PolicyId::DashCommentNormalizer => "dash_comment_normalizer"@,
            PolicyId::SectionTitleNormalizer => "section_title_normalizer"@,
            PolicyId::CompactDeclarations => "compact_declarations"@,
            PolicyId::ClassLayout => "class_layout"@,
            PolicyId::LuaMacroSpacing => "lua_macro_spacing"@,
            PolicyId::NamespaceEndComments => "namespace_end_comments"@,
            PolicyId::PragmaOnceSpacing => "pragma_once_spacing"@,
            PolicyId::IncludeGuards => "include_guards"@,
            PolicyId::IncludeOrder => "include_order"@,
            PolicyId::LogicalKeywordOperators => "logical_keyword_operators"@,
            PolicyId::FunctionVoidParams => "function_void_params"@,
            PolicyId::OperatorOverloadSpacing => "operator_overload_spacing"@,
            PolicyId::ClangFormat => "clang_format"@,
            PolicyId::NamingConventions => "naming_conventions"@,
            PolicyId::SnakeCase => "snake_case"@,
            PolicyId::NumericLiteralSuffix => "numeric_literal_suffix"@,
            PolicyId::Unknown(name) => name@,
        }
    }

    /// Whether `Unknown` is used for unknown names only.
    pub open spec fn wf(&self) -> bool {
        self matches PolicyId::Unknown(name) ==> known_policy(name@) is None
    }

    pub fn as_str(&self) -> (r: &str)
        ensures
            r@ == self.name(),
    {
        match self {
            PolicyId::DashCommentNormalizer => "dash_comment_normalizer",
            PolicyId::SectionTitleNormalizer => "section_title_normalizer",
            PolicyId::CompactDeclarations => "compact_declarations",
            PolicyId::ClassLayout => "class_layout",
            PolicyId::LuaMacroSpacing => "lua_macro_spacing",
            PolicyId::NamespaceEndComments => "namespace_end_comments",
            PolicyId::PragmaOnceSpacing => "pragma_once_spacing",
            PolicyId::IncludeGuards => "include_guards",
            PolicyId::IncludeOrder => "include_order",
            PolicyId::LogicalKeywordOperators => "logical_keyword_operators",
            PolicyId::FunctionVoidParams => "function_void_params",
            PolicyId::OperatorOverloadSpacing => "operator_overload_spacing",
            PolicyId::ClangFormat => "clang_format",
            PolicyId::NamingConventions => "naming_conventions",
            PolicyId::SnakeCase => "snake_case",
            PolicyId::NumericLiteralSuffix => "numeric_literal_suffix",
            PolicyId::Unknown(name) => name.as_str(),
        }
    }

    /// The policy of a name; a name that is not known is kept as it is.
    pub fn from_str_lossy(name: &str) -> (r: PolicyId)
        ensures
            match known_policy(name@) {
                Some(id) => r == id,
                None => r matches PolicyId::Unknown(kept) && kept@ == name@,
            },
            r.wf(),
            r.name() == name@,
    {
        if str_eq(name, "dash_comment_normalizer") {
            PolicyId::DashCommentNormalizer
        } else if str_eq(name, "section_title_normalizer") {
            PolicyId::SectionTitleNormalizer
        } else if str_eq(name, "compact_declarations") {
            PolicyId::CompactDeclarations
        } else if str_eq(name, "class_layout") {
            PolicyId::ClassLayout
        } else if str_eq(name, "lua_macro_spacing") {
            PolicyId::LuaMacroSpacing
        } else if str_eq(name, "namespace_end_comments") {
            PolicyId::NamespaceEndComments
        } else if str_eq(name, "pragma_once_spacing") {
            PolicyId::PragmaOnceSpacing
        } else if str_eq(name, "include_guards") {
            PolicyId::IncludeGuards
        } else if str_eq(name, "include_order") {
            PolicyId::IncludeOrder
        } else if str_eq(name, "logical_keyword_operators") {
            PolicyId::LogicalKeywordOperators
        } else if str_eq(name, "function_void_params") {
            PolicyId::FunctionVoidParams
        } else if str_eq(name, "operator_overload_spacing") {
            PolicyId::OperatorOverloadSpacing
        } else if str_eq(name, "clang_format") {
            PolicyId::ClangFormat
        } else if str_eq(name, "naming_conventions") {
            PolicyId::NamingConventions
        } else if str_eq(name, "snake_case") {
            PolicyId::SnakeCase
        } else if str_eq(name, "numeric_literal_suffix") {
            PolicyId::NumericLiteralSuffix
        } else {
            PolicyId::Unknown(name.to_owned())
        }
    }

    /// The same policy once more.
    pub fn copy(&self) -> (r: PolicyId)
        ensures
            r == *self,
    {
        match self {
            PolicyId::DashCommentNormalizer => PolicyId::DashCommentNormalizer,
            PolicyId::SectionTitleNormalizer => PolicyId::SectionTitleNormalizer,
            PolicyId::CompactDeclarations => PolicyId::CompactDeclarations,
            PolicyId::ClassLayout => PolicyId::ClassLayout,
            PolicyId::LuaMacroSpacing => PolicyId::LuaMacroSpacing,
            PolicyId::NamespaceEndComments => PolicyId::NamespaceEndComments,
            PolicyId::PragmaOnceSpacing => PolicyId::PragmaOnceSpacing,
            PolicyId::IncludeGuards => PolicyId::IncludeGuards,
            PolicyId::IncludeOrder => PolicyId::IncludeOrder,
            PolicyId::LogicalKeywordOperators => PolicyId::LogicalKeywordOperators,
            PolicyId::FunctionVoidParams => PolicyId::FunctionVoidParams,
            PolicyId::OperatorOverloadSpacing => PolicyId::OperatorOverloadSpacing,
            PolicyId::ClangFormat => PolicyId::ClangFormat,
            PolicyId::NamingConventions => PolicyId::NamingConventions,
            PolicyId::SnakeCase => PolicyId::SnakeCase,
            PolicyId::NumericLiteralSuffix => PolicyId::NumericLiteralSuffix,
            PolicyId::Unknown(name) => PolicyId::Unknown(name.clone()),
        }
    }
}

/// A known policy is found again under its own name.
pub proof fn lemma_known_name_round_trip(id: PolicyId)
    requires
        !(id is Unknown),
    ensures
        known_policy(id.name()) == Some(id),
{
    reveal_strlit("dash_comment_normalizer");
    reveal_strlit("section_title_normalizer");
    reveal_strlit("compact_declarations");
    reveal_strlit("class_layout");
    reveal_strlit("lua_macro_spacing");
    reveal_strlit("namespace_end_comments");
    reveal_strlit("pragma_once_spacing");
    reveal_strlit("include_guards");
    reveal_strlit("include_order");
    reveal_strlit("logical_keyword_operators");
    reveal_strlit("function_void_params");
    reveal_strlit("operator_overload_spacing");
    reveal_strlit("clang_format");
    reveal_strlit("naming_conventions");
    reveal_strlit("snake_case");
    reveal_strlit("numeric_literal_suffix");
    assert("dash_comment_normalizer"@.len() == 23);
    assert("section_title_normalizer"@.len() == 24);
    assert("compact_declarations"@.len() == 20);
    assert("class_layout"@.len() == 12);
    assert("lua_macro_spacing"@.len() == 17);
    assert("namespace_end_comments"@.len() == 22);
    assert("pragma_once_spacing"@.len() == 19);
    assert("include_guards"@.len() == 14);
    assert("include_order"@.len() == 13);
    assert("logical_keyword_operators"@.len() == 25);
    assert("function_void_params"@.len() == 20);
    assert("operator_overload_spacing"@.len() == 25);
    assert("clang_format"@.len() == 12);
    assert("naming_conventions"@.len() == 18);
    assert("snake_case"@.len() == 10);
    assert("numeric_literal_suffix"@.len() == 22);
    // Names of one length differ in one of these characters.
    assert("compact_declarations"@[0] != "function_void_params"@[0]);
    assert("class_layout"@[3] != "clang_format"@[3]);
    assert("logical_keyword_operators"@[0] != "operator_overload_spacing"@[0]);
    assert("namespace_end_comments"@[1] != "numeric_literal_suffix"@[1]);
}

} // verus!
