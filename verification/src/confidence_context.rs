//! How far the parsers of a file can be believed.
//!
//! Ratios are fixed-point numbers in billionths.
use vstd::prelude::*;

use crate::file_context::{
    SemanticDeclaration, SemanticFileContext, SemanticIdProvenance, SemanticReference,
};
use crate::syntax;
use crate::syntax::tree_error_stats;
use crate::text::{chars_of, str_eq};

verus! {

/// One, in billionths.
pub const WHOLE: u32 = 1_000_000_000;

/// The agreement of a file of which nothing could be compared.
pub const NEUTRAL_AGREEMENT: u32 = 500_000_000;

/// What the parsers say of a file.
#[derive(Clone, Copy, Debug, PartialEq, Eq, Structural)]
pub struct ConfidenceContext {
    pub tree_available: bool,
    pub tree_error_ratio: u32,
    pub clang_success: bool,
    /// The share of declarations with an identity across files.
    pub semantic_usr_ratio: u32,
    /// How far the names in the text agree with the references that were
    /// resolved.
    pub text_scan_agreement: u32,
}

/// Whether a declaration has an identity across files.
pub open spec fn usr_backed(d: SemanticDeclaration) -> bool {
    d.usr is Some || d.provenance == SemanticIdProvenance::Usr
}

/// How many declarations have an identity across files.
pub open spec fn usr_backed_count(declarations: Seq<SemanticDeclaration>) -> nat
    decreases declarations.len(),
{
    if declarations.len() == 0 {
        0
    } else {
        usr_backed_count(declarations.drop_last()) + (if usr_backed(declarations.last()) {
            1nat
        } else {
            0
        })
    }
}

/// The share of declarations with an identity across files: none without
/// declarations.
pub open spec fn usr_ratio(declarations: Seq<SemanticDeclaration>) -> int {
    if declarations.len() == 0 {
        0
    } else {
        usr_backed_count(declarations) as int * 1_000_000_000 / (declarations.len() as int)
    }
}

/// How many references name a symbol.
pub open spec fn references_to(references: Seq<SemanticReference>, id: Seq<char>) -> nat
    decreases references.len(),
{
    if references.len() == 0 {
        0
    } else {
        references_to(references.drop_last(), id) + (if references.last().stable_id@ == id {
            1nat
        } else {
            0
        })
    }
}

/// Whether a name takes less than two bytes.
pub open spec fn is_short(name: Seq<char>) -> bool {
    name.len() == 0 || (name.len() == 1 && (name[0] as u32) < 128)
}

/// Whether a declaration can be compared with the text: it is referred to, and
/// its name is long enough to be looked for.
pub open spec fn comparable(references: Seq<SemanticReference>, d: SemanticDeclaration) -> bool {
    references_to(references, d.stable_id@) > 0 && !is_short(d.name@)
}

/// How far the references to a symbol account for its name's uses in the text:
/// wholly where at most the declaration itself is left over, and at least to a
/// tenth.
pub open spec fn agreement(semantic: nat, text: usize) -> int {
    if text <= semantic + 1 {
        1_000_000_000
    } else {
        let part = (semantic + 1) as int * 1_000_000_000 / (text as int);
        if part < 100_000_000 {
            100_000_000
        } else {
            part
        }
    }
}

/// How many declarations can be compared, and the sum of their agreements.
pub open spec fn compared(
    references: Seq<SemanticReference>,
    declarations: Seq<SemanticDeclaration>,
    uses: Seq<usize>,
) -> (int, int)
    decreases declarations.len(),
{
    if declarations.len() == 0 {
        (0, 0)
    } else {
        let (n, sum) = compared(references, declarations.drop_last(), uses);
        let d = declarations.last();
        if comparable(references, d) {
            (
                n + 1,
                sum + agreement(
                    references_to(references, d.stable_id@),
                    uses[declarations.len() - 1],
                ),
            )
        } else {
            (n, sum)
        }
    }
}

/// The mean agreement of the declarations that can be compared.
pub open spec fn mean_agreement(semantic: SemanticFileContext, uses: Option<Seq<usize>>) -> int {
    match uses {
        Some(uses) => {
            let (n, sum) = compared(semantic.references@, semantic.declarations@, uses);
            if n == 0 {
                NEUTRAL_AGREEMENT as int
            } else {
                sum / n
            }
        },
        None => NEUTRAL_AGREEMENT as int,
    }
}

fn count_references(references: &[SemanticReference], id: &str) -> (r: usize)
    ensures
        r == references_to(references@, id@),
        r <= references@.len(),
{
    let mut n: usize = 0;
    let mut i: usize = 0;
    while i < references.len()
        invariant
            n <= i <= references.len(),
            n == references_to(references@.take(i as int), id@),
        decreases references.len() - i,
    {
        assert(references@.take(i + 1).drop_last() =~= references@.take(i as int));
        if str_eq(references[i].stable_id.as_str(), id) {
            n = n + 1;
        }
        i = i + 1;
    }
    assert(references@.take(i as int) =~= references@);
    n
}

fn short_name(name: &str) -> (r: bool)
    ensures
        r == is_short(name@),
{
    let chars = chars_of(name);
    chars.len() == 0 || (chars.len() == 1 && (chars[0] as u32) < 128)
}

fn agree(semantic: usize, text: usize) -> (r: u32)
    ensures
        r == agreement(semantic as nat, text),
        100_000_000 <= r <= 1_000_000_000,
{
    let known: u128 = semantic as u128 + 1;
    if text as u128 <= known {
        return WHOLE;
    }
    assert((semantic as int + 1) * 1_000_000_000 / (text as int) < 1_000_000_000)
        by (nonlinear_arith)
        requires
            (semantic as int) + 1 < text as int,
            0 <= semantic,
    ;
    let part: u128 = known * 1_000_000_000 / text as u128;
    if part < 100_000_000 {
        100_000_000
    } else {
        part as u32
    }
}

fn usr_share(declarations: &[SemanticDeclaration]) -> (r: u32)
    ensures
        r == usr_ratio(declarations@),
        r <= WHOLE,
{
    if declarations.len() == 0 {
        return 0;
    }
    let mut n: usize = 0;
    let mut i: usize = 0;
    while i < declarations.len()
        invariant
            n <= i <= declarations.len(),
            n == usr_backed_count(declarations@.take(i as int)),
        decreases declarations.len() - i,
    {
        assert(declarations@.take(i + 1).drop_last() =~= declarations@.take(i as int));
        let d = &declarations[i];
        if d.usr.is_some() || d.provenance == SemanticIdProvenance::Usr {
            n = n + 1;
        }
        i = i + 1;
    }
    assert(declarations@.take(i as int) =~= declarations@);
    let total: usize = declarations.len();
    assert(n as int * 1_000_000_000 / (total as int) <= 1_000_000_000) by (nonlinear_arith)
        requires
            0 <= n <= total,
            0 < total,
    ;
    (n as u128 * 1_000_000_000 / total as u128) as u32
}

fn scan_agreement(semantic: &SemanticFileContext, uses: &[usize]) -> (r: u32)
    requires
        uses@.len() == semantic.declarations@.len(),
    ensures
        r == mean_agreement(*semantic, Some(uses@)),
        r <= WHOLE,
{
    let references = semantic.references.as_slice();
    let ghost declarations = semantic.declarations@;
    let mut n: u128 = 0;
    let mut sum: u128 = 0;
    let mut i: usize = 0;
    while i < semantic.declarations.len()
        invariant
            i <= declarations.len(),
            declarations == semantic.declarations@,
            references@ == semantic.references@,
            uses@.len() == declarations.len(),
            n <= i,
            sum <= n * 1_000_000_000,
            (n as int, sum as int) == compared(
                references@,
                declarations.take(i as int),
                uses@,
            ),
        decreases declarations.len() - i,
    {
        assert(declarations.take(i + 1).drop_last() =~= declarations.take(i as int));
        let d = &semantic.declarations[i];
        let known = count_references(references, d.stable_id.as_str());
        if known > 0 && !short_name(d.name.as_str()) {
            n = n + 1;
            sum = sum + agree(known, uses[i]) as u128;
        }
        i = i + 1;
    }
    assert(declarations.take(i as int) =~= declarations);
    if n == 0 {
        return NEUTRAL_AGREEMENT;
    }
    assert(sum as int / n as int <= 1_000_000_000) by (nonlinear_arith)
        requires
            sum <= n * 1_000_000_000,
            n > 0,
    ;
    (sum / n) as u32
}

impl ConfidenceContext {
    /// What is known from the tree that was parsed, whether the compiler
    /// succeeded, the semantics that were resolved, and how often the name of
    /// each declaration occurs in the code.
    pub fn from_parsers_and_semantic(
        tree: Option<&tree_sitter::Tree>,
        clang: Option<bool>,
        semantic: Option<&SemanticFileContext>,
        uses: Option<&[usize]>,
    ) -> (r: Self)
        requires
            semantic is Some && uses is Some ==> uses->Some_0@.len()
                == semantic->Some_0.declarations@.len(),
        ensures
            r.tree_available == (tree is Some || semantic is Some),
            r.tree_error_ratio == (match tree {
                Some(t) => syntax::rounded_share(
                    syntax::broken_count(syntax::tree_nodes(*t)),
                    syntax::tree_nodes(*t).len(),
                ),
                None => 0,
            }),
            r.clang_success == (clang == Some(true) || (semantic is Some
                && semantic->Some_0.clang_success)),
            r.semantic_usr_ratio == (match semantic {
                Some(s) => usr_ratio(s.declarations@),
                None => 0,
            }),
            r.text_scan_agreement == (match semantic {
                Some(s) => mean_agreement(
                    *s,
                    match uses {
                        Some(u) => Some(u@),
                        None => None,
                    },
                ),
                None => NEUTRAL_AGREEMENT as int,
            }),
            r.semantic_usr_ratio <= WHOLE,
            r.text_scan_agreement <= WHOLE,
    {
        let mut r = ConfidenceContext {
            tree_available: tree.is_some() || semantic.is_some(),
            tree_error_ratio: match tree {
                Some(t) => tree_error_stats(t).error_ratio(),
                None => 0,
            },
            clang_success: match clang {
                Some(success) => success,
                None => false,
            },
            semantic_usr_ratio: 0,
            text_scan_agreement: NEUTRAL_AGREEMENT,
        };
        if let Some(s) = semantic {
            r.clang_success = r.clang_success || s.clang_success;
            r.semantic_usr_ratio = usr_share(s.declarations.as_slice());
            if let Some(u) = uses {
                r.text_scan_agreement = scan_agreement(s, u);
            }
        }
        r
    }
}

/// One more reference never lowers the agreement of a declaration.
pub proof fn lemma_agreement_grows(semantic: nat, text: usize)
    ensures
        agreement(semantic, text) <= agreement(semantic + 1, text),
        100_000_000 <= agreement(semantic, text) <= 1_000_000_000,
{
    if text > semantic + 1 {
        assert((semantic + 1) as int * 1_000_000_000 / (text as int) <= 1_000_000_000)
            by (nonlinear_arith)
            requires
                semantic + 1 < text,
                0 <= semantic,
        ;
        assert((semantic + 1) as int * 1_000_000_000 / (text as int) <= (semantic + 2) as int
            * 1_000_000_000 / (
        text as int)) by (nonlinear_arith)
            requires
                text > 0,
        ;
    }
}

/// Whether at least half of the files have been observed often enough.
pub open spec fn enough_observed(counts: Seq<u32>, min_count: u32) -> bool {
    counts.len() > 0 && 2 * counts.filter(|n: u32| n >= min_count).len() >= counts.len()
}

/// Whether at least half of the files have been observed often enough, by how
/// often each has been. It is not so without files.
pub fn has_sufficient_observations(counts: &[u32], min_count: u32) -> (r: bool)
    ensures
        r == enough_observed(counts@, min_count),
{
    let ghost often = |n: u32| n >= min_count;
    let mut enough: usize = 0;
    let mut i: usize = 0;
    assert(counts@.take(0).filter(often) =~= Seq::empty()) by {
        reveal(Seq::filter);
    }
    while i < counts.len()
        invariant
            enough <= i <= counts.len(),
            often == |n: u32| n >= min_count,
            enough == counts@.take(i as int).filter(often).len(),
        decreases counts.len() - i,
    {
        assert(counts@.take(i + 1).drop_last() =~= counts@.take(i as int));
        reveal(Seq::filter);
        if counts[i] >= min_count {
            enough = enough + 1;
        }
        i = i + 1;
    }
    assert(counts@.take(i as int) =~= counts@);
    counts.len() > 0 && enough >= counts.len() - enough
}

/// The share of declarations with an identity across files is none where none
/// has one, and all where all have.
pub proof fn lemma_share_of_identities(declarations: Seq<SemanticDeclaration>)
    requires
        declarations.len() > 0,
    ensures
        (forall|i: int|
            0 <= i < declarations.len() ==> (#[trigger] declarations[i]).usr is Some) ==> usr_ratio(
            declarations,
        ) == 1_000_000_000,
        (forall|i: int|
            0 <= i < declarations.len() ==> (#[trigger] declarations[i]).usr is None
                && declarations[i].provenance == SemanticIdProvenance::DeclLocation) ==> usr_ratio(
            declarations,
        ) == 0,
{
    lemma_backed(declarations);
    let n = declarations.len() as int;
    assert(n * 1_000_000_000 / n == 1_000_000_000) by (nonlinear_arith)
        requires
            n > 0,
    ;
    assert(0int * 1_000_000_000 / n == 0) by (nonlinear_arith)
        requires
            n > 0,
    ;
}

proof fn lemma_backed(declarations: Seq<SemanticDeclaration>)
    ensures
        usr_backed_count(declarations) <= declarations.len(),
        (forall|i: int|
            0 <= i < declarations.len() ==> (#[trigger] declarations[i]).usr is Some)
            ==> usr_backed_count(declarations) == declarations.len(),
        (forall|i: int|
            0 <= i < declarations.len() ==> (#[trigger] declarations[i]).usr is None
                && declarations[i].provenance == SemanticIdProvenance::DeclLocation)
            ==> usr_backed_count(declarations) == 0,
    decreases declarations.len(),
{
    if declarations.len() > 0 {
        let head = declarations.drop_last();
        lemma_backed(head);
        assert(declarations[declarations.len() - 1] == declarations.last());
        if forall|i: int|
            0 <= i < declarations.len() ==> (#[trigger] declarations[i]).usr is Some {
            assert forall|i: int| 0 <= i < head.len() implies (#[trigger] head[i]).usr is Some by {
                assert(declarations[i].usr is Some);
            }
        }
        if forall|i: int|
            0 <= i < declarations.len() ==> (#[trigger] declarations[i]).usr is None
                && declarations[i].provenance == SemanticIdProvenance::DeclLocation {
            assert forall|i: int| 0 <= i < head.len() implies (#[trigger] head[i]).usr is None
                && head[i].provenance == SemanticIdProvenance::DeclLocation by {
                assert(declarations[i].usr is None);
            }
        }
    }
}

/// Where the text holds no more uses than were resolved, but for the declaration
/// itself, they agree wholly; and where it holds twice as many, by half.
pub proof fn lemma_agreement_of_uses(semantic: nat, text: usize)
    ensures
        text <= semantic + 1 ==> agreement(semantic, text) == 1_000_000_000,
        text == 2 * (semantic + 1) ==> agreement(semantic, text) == 500_000_000,
        text >= 10 * (semantic + 1) ==> agreement(semantic, text) == 100_000_000,
{
    let n = (semantic + 1) as int;
    if text == 2 * n {
        assert(n * 1_000_000_000 / (2 * n) == 500_000_000) by (nonlinear_arith)
            requires
                n > 0,
        ;
    }
    if text >= 10 * n {
        let t = text as int;
        assert(n * 1_000_000_000 / t <= 100_000_000) by (nonlinear_arith)
            requires
                n > 0,
                t >= 10 * n,
        ;
    }
}

} // verus!
