//! The ways in which a check after an edit can fail.
use vstd::prelude::*;

verus! {

/// A way in which the check can fail.
#[derive(Clone, Copy, Debug, PartialEq, Eq, Structural)]
pub enum PostEditFailureKind {
    ParserUnavailableTree,
    ParserUnavailableClang,
    TreeErrorRegressed,
    TreeErrorRatioRegressed,
    ClangDiagnosticsIncreased,
    SemanticReadinessRegressed,
    SemanticIdentityRegressed,
    SemanticReferenceIntegrityRegressed,
    SemanticScopeDriftRegressed,
}

impl PostEditFailureKind {
    /// The name of the kind.
    pub open spec fn name(self) -> Seq<char> {
        match self {
            PostEditFailureKind::ParserUnavailableTree => "ParserUnavailableTree"@,
            PostEditFailureKind::ParserUnavailableClang => "ParserUnavailableClang"@,
            PostEditFailureKind::TreeErrorRegressed => "TreeErrorRegressed"@,
            PostEditFailureKind::TreeErrorRatioRegressed => "TreeErrorRatioRegressed"@,
            PostEditFailureKind::ClangDiagnosticsIncreased => "ClangDiagnosticsIncreased"@,
            PostEditFailureKind::SemanticReadinessRegressed => "SemanticReadinessRegressed"@,
            PostEditFailureKind::SemanticIdentityRegressed => "SemanticIdentityRegressed"@,
            PostEditFailureKind::SemanticReferenceIntegrityRegressed => "SemanticReferenceIntegrityRegressed"@,
            PostEditFailureKind::SemanticScopeDriftRegressed => "SemanticScopeDriftRegressed"@,
        }
    }

    pub fn as_str(&self) -> (r: &'static str)
        ensures
            r@ == self.name(),
    {
        match self {
            PostEditFailureKind::ParserUnavailableTree => "ParserUnavailableTree",
            PostEditFailureKind::ParserUnavailableClang => "ParserUnavailableClang",
            PostEditFailureKind::TreeErrorRegressed => "TreeErrorRegressed",
            PostEditFailureKind::TreeErrorRatioRegressed => "TreeErrorRatioRegressed",
            PostEditFailureKind::ClangDiagnosticsIncreased => "ClangDiagnosticsIncreased",
            PostEditFailureKind::SemanticReadinessRegressed => "SemanticReadinessRegressed",
            PostEditFailureKind::SemanticIdentityRegressed => "SemanticIdentityRegressed",
            PostEditFailureKind::SemanticReferenceIntegrityRegressed => "SemanticReferenceIntegrityRegressed",
            PostEditFailureKind::SemanticScopeDriftRegressed => "SemanticScopeDriftRegressed",
        }
    }
}

/// The kinds in the order in which they are shown.
pub open spec fn kinds_in_order() -> Seq<PostEditFailureKind> {
    seq![
        PostEditFailureKind::ParserUnavailableTree,
        PostEditFailureKind::ParserUnavailableClang,
        PostEditFailureKind::TreeErrorRegressed,
        PostEditFailureKind::TreeErrorRatioRegressed,
        PostEditFailureKind::ClangDiagnosticsIncreased,
        PostEditFailureKind::SemanticReadinessRegressed,
        PostEditFailureKind::SemanticIdentityRegressed,
        PostEditFailureKind::SemanticReferenceIntegrityRegressed,
        PostEditFailureKind::SemanticScopeDriftRegressed,
    ]
}

fn kind_list() -> (r: Vec<PostEditFailureKind>)
    ensures
        r@ == kinds_in_order(),
{
    let r = vec![
        PostEditFailureKind::ParserUnavailableTree,
        PostEditFailureKind::ParserUnavailableClang,
        PostEditFailureKind::TreeErrorRegressed,
        PostEditFailureKind::TreeErrorRatioRegressed,
        PostEditFailureKind::ClangDiagnosticsIncreased,
        PostEditFailureKind::SemanticReadinessRegressed,
        PostEditFailureKind::SemanticIdentityRegressed,
        PostEditFailureKind::SemanticReferenceIntegrityRegressed,
        PostEditFailureKind::SemanticScopeDriftRegressed,
    ];
    assert(r@ =~= kinds_in_order());
    r
}

/// The names of the kinds of a set among the first `n`, behind one another.
pub open spec fn shown_names(kinds: Set<PostEditFailureKind>, n: int) -> Seq<char>
    decreases n,
{
    if n <= 0 {
        ""@
    } else {
        let head = shown_names(kinds, n - 1);
        let kind = kinds_in_order()[n - 1];
        if !kinds.contains(kind) {
            head
        } else if head.len() == 0 {
            kind.name()
        } else {
            head + ", "@ + kind.name()
        }
    }
}

/// A set of kinds as it is shown in a message.
pub open spec fn shown_kinds(kinds: Set<PostEditFailureKind>) -> Seq<char> {
    "{"@ + shown_names(kinds, 9) + "}"@
}

/// A set of failure kinds.
#[derive(Clone, Copy, Debug, PartialEq, Eq, Structural)]
pub struct FailureKinds {
    tree_unavailable: bool,
    clang_unavailable: bool,
    tree_error: bool,
    tree_ratio: bool,
    diagnostics: bool,
    readiness: bool,
    identity: bool,
    references: bool,
    scopes: bool,
}

impl View for FailureKinds {
    type V = Set<PostEditFailureKind>;

    closed spec fn view(&self) -> Set<PostEditFailureKind> {
        Set::new(|kind: PostEditFailureKind| self.has(kind))
    }
}

impl FailureKinds {
    spec fn has(&self, kind: PostEditFailureKind) -> bool {
        match kind {
            PostEditFailureKind::ParserUnavailableTree => self.tree_unavailable,
            PostEditFailureKind::ParserUnavailableClang => self.clang_unavailable,
            PostEditFailureKind::TreeErrorRegressed => self.tree_error,
            PostEditFailureKind::TreeErrorRatioRegressed => self.tree_ratio,
            PostEditFailureKind::ClangDiagnosticsIncreased => self.diagnostics,
            PostEditFailureKind::SemanticReadinessRegressed => self.readiness,
            PostEditFailureKind::SemanticIdentityRegressed => self.identity,
            PostEditFailureKind::SemanticReferenceIntegrityRegressed => self.references,
            PostEditFailureKind::SemanticScopeDriftRegressed => self.scopes,
        }
    }

    pub fn new() -> (r: FailureKinds)
        ensures
            r@ == Set::<PostEditFailureKind>::empty(),
    {
        let r = FailureKinds {
            tree_unavailable: false,
            clang_unavailable: false,
            tree_error: false,
            tree_ratio: false,
            diagnostics: false,
            readiness: false,
            identity: false,
            references: false,
            scopes: false,
        };
        assert(r@ =~= Set::empty());
        r
    }

    pub fn contains(&self, kind: PostEditFailureKind) -> (r: bool)
        ensures
            r == self@.contains(kind),
    {
        match kind {
            PostEditFailureKind::ParserUnavailableTree => self.tree_unavailable,
            PostEditFailureKind::ParserUnavailableClang => self.clang_unavailable,
            PostEditFailureKind::TreeErrorRegressed => self.tree_error,
            PostEditFailureKind::TreeErrorRatioRegressed => self.tree_ratio,
            PostEditFailureKind::ClangDiagnosticsIncreased => self.diagnostics,
            PostEditFailureKind::SemanticReadinessRegressed => self.readiness,
            PostEditFailureKind::SemanticIdentityRegressed => self.identity,
            PostEditFailureKind::SemanticReferenceIntegrityRegressed => self.references,
            PostEditFailureKind::SemanticScopeDriftRegressed => self.scopes,
        }
    }

    fn set(&mut self, kind: PostEditFailureKind, value: bool)
        ensures
            final(self)@ == if value {
                old(self)@.insert(kind)
            } else {
                old(self)@.remove(kind)
            },
    {
        match kind {
            PostEditFailureKind::ParserUnavailableTree => {
                self.tree_unavailable = value;
            },
            PostEditFailureKind::ParserUnavailableClang => {
                self.clang_unavailable = value;
            },
            PostEditFailureKind::TreeErrorRegressed => {
                self.tree_error = value;
            },
            PostEditFailureKind::TreeErrorRatioRegressed => {
                self.tree_ratio = value;
            },
            PostEditFailureKind::ClangDiagnosticsIncreased => {
                self.diagnostics = value;
            },
            PostEditFailureKind::SemanticReadinessRegressed => {
                self.readiness = value;
            },
            PostEditFailureKind::SemanticIdentityRegressed => {
                self.identity = value;
            },
            PostEditFailureKind::SemanticReferenceIntegrityRegressed => {
                self.references = value;
            },
            PostEditFailureKind::SemanticScopeDriftRegressed => {
                self.scopes = value;
            },
        }
        assert(self@ =~= if value {
            old(self)@.insert(kind)
        } else {
            old(self)@.remove(kind)
        });
    }

    pub fn insert(&mut self, kind: PostEditFailureKind)
        ensures
            final(self)@ == old(self)@.insert(kind),
    {
        self.set(kind, true);
    }

    pub fn remove(&mut self, kind: PostEditFailureKind)
        ensures
            final(self)@ == old(self)@.remove(kind),
    {
        self.set(kind, false);
    }

    pub fn is_empty(&self) -> (r: bool)
        ensures
            r == (self@ == Set::<PostEditFailureKind>::empty()),
    {
        let r = !self.tree_unavailable && !self.clang_unavailable && !self.tree_error
            && !self.tree_ratio && !self.diagnostics && !self.readiness && !self.identity
            && !self.references && !self.scopes;
        proof {
            if r {
                assert(self@ =~= Set::empty());
            } else {
                assert(self@.contains(PostEditFailureKind::ParserUnavailableTree)
                    == self.tree_unavailable);
                assert(self@.contains(PostEditFailureKind::ParserUnavailableClang)
                    == self.clang_unavailable);
                assert(self@.contains(PostEditFailureKind::TreeErrorRegressed)
                    == self.tree_error);
                assert(self@.contains(PostEditFailureKind::TreeErrorRatioRegressed)
                    == self.tree_ratio);
                assert(self@.contains(PostEditFailureKind::ClangDiagnosticsIncreased)
                    == self.diagnostics);
                assert(self@.contains(PostEditFailureKind::SemanticReadinessRegressed)
                    == self.readiness);
                assert(self@.contains(PostEditFailureKind::SemanticIdentityRegressed)
                    == self.identity);
                assert(self@.contains(PostEditFailureKind::SemanticReferenceIntegrityRegressed)
                    == self.references);
                assert(self@.contains(PostEditFailureKind::SemanticScopeDriftRegressed)
                    == self.scopes);
            }
        }
        r
    }

    /// The set as it is shown in a message.
    pub fn render(&self) -> (r: String)
        ensures
            r@ == shown_kinds(self@),
    {
        let kinds = kind_list();
        let mut names = "".to_owned();
        let mut any = false;
        let mut i: usize = 0;
        proof {
            reveal_strlit("");
        }
        while i < kinds.len()
            invariant
                i <= kinds@.len(),
                kinds@ == kinds_in_order(),
                names@ == shown_names(self@, i as int),
                any == (names@.len() > 0),
            decreases kinds@.len() - i,
        {
            let kind = kinds[i];
            if self.contains(kind) {
                if any {
                    names.append(", ");
                }
                names.append(kind.as_str());
                any = true;
                proof {
                    lemma_named(kind);
                }
            }
            i += 1;
        }
        let mut r = "{".to_owned();
        r.append(names.as_str());
        r.append("}");
        r
    }
}

proof fn lemma_named(kind: PostEditFailureKind)
    ensures
        kind.name().len() > 0,
{
    reveal_strlit("ParserUnavailableTree");
    reveal_strlit("ParserUnavailableClang");
    reveal_strlit("TreeErrorRegressed");
    reveal_strlit("TreeErrorRatioRegressed");
    reveal_strlit("ClangDiagnosticsIncreased");
    reveal_strlit("SemanticReadinessRegressed");
    reveal_strlit("SemanticIdentityRegressed");
    reveal_strlit("SemanticReferenceIntegrityRegressed");
    reveal_strlit("SemanticScopeDriftRegressed");
}

} // verus!
