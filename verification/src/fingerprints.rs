//! Numbers that stand for texts.
use std::hash::{Hash, Hasher};
use vstd::prelude::*;

use crate::names::NameMap;

verus! {

/// `rustc_hash::FxHasher`: the number that it finishes with after it was fed a
/// string. Nothing is claimed of the number: it depends on the machine's
/// architecture.
#[verifier::external_body]
fn fx_number(value: &str) -> (r: u64) {
    let mut hasher = rustc_hash::FxHasher::default();
    value.hash(&mut hasher);
    hasher.finish()
}

/// The numbers that texts have been given. A text keeps its number.
#[derive(Debug)]
pub struct Fingerprints {
    table: NameMap<u64>,
}

impl View for Fingerprints {
    type V = Map<Seq<char>, u64>;

    closed spec fn view(&self) -> Map<Seq<char>, u64> {
        self.table@
    }
}

/// Whether the numbers are those that a table gives to the texts.
pub open spec fn are_numbers(
    table: Map<Seq<char>, u64>,
    texts: Seq<Seq<char>>,
    numbers: Seq<u64>,
) -> bool {
    numbers.len() == texts.len() && forall|i: int|
        0 <= i < texts.len() ==> table.dom().contains(#[trigger] texts[i]) && numbers[i]
            == table[texts[i]]
}

/// Whether a table gives the texts of another the same numbers.
pub open spec fn extends(more: Map<Seq<char>, u64>, less: Map<Seq<char>, u64>) -> bool {
    forall|t: Seq<char>| #[trigger]
        less.dom().contains(t) ==> more.dom().contains(t) && more[t] == less[t]
}

/// Numbers stay right when a table grows.
pub proof fn lemma_numbers_stay(
    less: Map<Seq<char>, u64>,
    more: Map<Seq<char>, u64>,
    texts: Seq<Seq<char>>,
    numbers: Seq<u64>,
)
    requires
        are_numbers(less, texts, numbers),
        extends(more, less),
    ensures
        are_numbers(more, texts, numbers),
{
    assert forall|i: int| 0 <= i < texts.len() implies more.dom().contains(#[trigger] texts[i])
        && numbers[i] == more[texts[i]] by {
        assert(less.dom().contains(texts[i]));
    }
}

/// One more text with its number.
pub proof fn lemma_next_number(
    before: Map<Seq<char>, u64>,
    after: Map<Seq<char>, u64>,
    texts: Seq<Seq<char>>,
    numbers: Seq<u64>,
    i: int,
    n: u64,
)
    requires
        0 <= i < texts.len(),
        are_numbers(before, texts.take(i), numbers),
        extends(after, before),
        after.dom().contains(texts[i]),
        after[texts[i]] == n,
    ensures
        are_numbers(after, texts.take(i + 1), numbers.push(n)),
{
    lemma_numbers_stay(before, after, texts.take(i), numbers);
    assert forall|k: int| 0 <= k < i + 1 implies after.dom().contains(
        #[trigger] texts.take(i + 1)[k],
    ) && numbers.push(n)[k] == after[texts.take(i + 1)[k]] by {
        if k < i {
            assert(texts.take(i)[k] == texts.take(i + 1)[k]);
        }
    }
}

/// Equal texts have equal numbers.
pub proof fn lemma_equal_texts(
    table: Map<Seq<char>, u64>,
    a: Seq<Seq<char>>,
    m: Seq<u64>,
    b: Seq<Seq<char>>,
    n: Seq<u64>,
    i: int,
    j: int,
)
    requires
        are_numbers(table, a, m),
        are_numbers(table, b, n),
        0 <= i < a.len(),
        0 <= j < b.len(),
        a[i] == b[j],
    ensures
        m[i] == n[j],
{
}

impl Fingerprints {
    /// No text has a number.
    pub fn new() -> (r: Fingerprints)
        ensures
            r@ == Map::<Seq<char>, u64>::empty(),
    {
        Fingerprints { table: NameMap::new() }
    }

    /// The number of a text, which is given one where it has none.
    pub fn number(self, value: &str) -> (r: (Fingerprints, u64))
        ensures
            r.0@.dom() == self@.dom().insert(value@),
            r.0@[value@] == r.1,
            extends(r.0@, self@),
    {
        match self.table.get(value) {
            Some(n) => {
                assert(self@.dom() =~= self@.dom().insert(value@));
                (self, n)
            },
            None => {
                let n = fx_number(value);
                let table = self.table.put(value, n);
                (Fingerprints { table }, n)
            },
        }
    }
}

} // verus!
