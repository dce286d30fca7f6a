//! Maps and sets whose keys are names.
use vstd::prelude::*;

use crate::text;
use crate::text::str_eq;

verus! {

/// One key with its value.
#[derive(Debug)]
pub struct NameEntry<V> {
    pub name: String,
    pub value: V,
}

/// A map from names; each name has one value.
#[derive(Debug)]
pub struct NameMap<V> {
    entries: Vec<NameEntry<V>>,
}

spec fn map_of<V>(entries: Seq<NameEntry<V>>) -> Map<Seq<char>, V>
    decreases entries.len(),
{
    if entries.len() == 0 {
        Map::empty()
    } else {
        map_of(entries.drop_last()).insert(entries.last().name@, entries.last().value)
    }
}

spec fn names_of<V>(entries: Seq<NameEntry<V>>) -> Seq<Seq<char>> {
    entries.map_values(|e: NameEntry<V>| e.name@)
}

proof fn lemma_map_of<V>(entries: Seq<NameEntry<V>>)
    requires
        names_of(entries).no_duplicates(),
    ensures
        map_of(entries).dom().finite(),
        map_of(entries).dom().len() == entries.len(),
        map_of(entries).dom() == names_of(entries).to_set(),
        forall|i: int|
            0 <= i < entries.len() ==> map_of(entries).dom().contains(
                (#[trigger] entries[i]).name@,
            ) && map_of(entries)[entries[i].name@] == entries[i].value,
    decreases entries.len(),
{
    let names = names_of(entries);
    if entries.len() == 0 {
        assert(names.to_set() =~= Set::empty());
    } else {
        let head = entries.drop_last();
        let last = entries.last();
        assert(names_of(head) =~= names.drop_last());
        lemma_map_of(head);
        assert(!names_of(head).to_set().contains(last.name@)) by {
            if names_of(head).contains(last.name@) {
                let k = choose|k: int|
                    0 <= k < names_of(head).len() && names_of(head)[k] == last.name@;
                assert(names[k] == names[entries.len() - 1]);
            }
        }
        assert(names =~= names.drop_last().push(last.name@));
        assert(names.to_set() =~= names.drop_last().to_set().insert(last.name@)) by {
            assert forall|x: Seq<char>|
                names.to_set().contains(x) <==> names.drop_last().to_set().insert(
                    last.name@,
                ).contains(x) by {
                if names.contains(x) && x != last.name@ {
                    let k = choose|k: int| 0 <= k < names.len() && names[k] == x;
                    assert(names.drop_last()[k] == x);
                }
                if names.drop_last().contains(x) {
                    let k = choose|k: int|
                        0 <= k < names.drop_last().len() && names.drop_last()[k] == x;
                    assert(names[k] == x);
                }
                assert(names[entries.len() - 1] == last.name@);
            }
        }
        assert forall|i: int| 0 <= i < entries.len() implies map_of(entries).dom().contains(
            (#[trigger] entries[i]).name@,
        ) && map_of(entries)[entries[i].name@] == entries[i].value by {
            if i < entries.len() - 1 {
                assert(head[i] == entries[i]);
                assert(names[i] != names[entries.len() - 1]);
            }
        }
    }
}

impl<V> View for NameMap<V> {
    type V = Map<Seq<char>, V>;

    closed spec fn view(&self) -> Map<Seq<char>, V> {
        map_of(self.entries@)
    }
}

proof fn lemma_map_of_finite<V>(entries: Seq<NameEntry<V>>)
    ensures
        map_of(entries).dom().finite(),
    decreases entries.len(),
{
    if entries.len() > 0 {
        lemma_map_of_finite(entries.drop_last());
    }
}

/// A map holds finitely many names.
pub proof fn lemma_map_is_finite<V>(map: NameMap<V>)
    ensures
        map@.dom().finite(),
{
    lemma_map_of_finite(map.entries@);
}

/// A set holds finitely many names.
pub proof fn lemma_set_is_finite(set: NameSet)
    ensures
        set@.finite(),
{
    lemma_map_is_finite(set.map);
}

impl<V> NameMap<V> {
    #[verifier::type_invariant]
    spec fn distinct(&self) -> bool {
        names_of(self.entries@).no_duplicates()
    }

    /// The names in the order in which they came.
    pub closed spec fn names(&self) -> Seq<Seq<char>> {
        names_of(self.entries@)
    }
}

impl<V: Copy> NameMap<V> {
    pub fn new() -> (r: NameMap<V>)
        ensures
            r@ == Map::<Seq<char>, V>::empty(),
    {
        NameMap { entries: Vec::new() }
    }

    /// How many names there are.
    pub fn len(&self) -> (n: usize)
        ensures
            n == self@.dom().len(),
            n == self.names().len(),
            self@.dom().finite(),
            self.names().no_duplicates(),
            self.names().to_set() == self@.dom(),
    {
        proof {
            use_type_invariant(self);
            lemma_map_of(self.entries@);
        }
        self.entries.len()
    }

    /// One of the names.
    pub fn name(&self, i: usize) -> (r: &str)
        requires
            i < self.names().len(),
        ensures
            r@ == self.names()[i as int],
    {
        self.entries[i].name.as_str()
    }

    fn position(&self, name: &str) -> (r: Option<usize>)
        ensures
            match r {
                Some(i) => i < self.entries@.len() && self.entries@[i as int].name@ == name@
                    && self@.dom().contains(name@) && self@[name@]
                    == self.entries@[i as int].value,
                None => !self@.dom().contains(name@) && !self.names().contains(name@),
            },
    {
        proof {
            use_type_invariant(self);
            lemma_map_of(self.entries@);
        }
        let mut i: usize = 0;
        while i < self.entries.len()
            invariant
                i <= self.entries@.len(),
                forall|k: int| 0 <= k < i ==> (#[trigger] self.entries@[k]).name@ != name@,
                self@.dom() == self.names().to_set(),
                forall|k: int|
                    0 <= k < self.entries@.len() ==> self@.dom().contains(
                        (#[trigger] self.entries@[k]).name@,
                    ) && self@[self.entries@[k].name@] == self.entries@[k].value,
            decreases self.entries@.len() - i,
        {
            if str_eq(self.entries[i].name.as_str(), name) {
                return Some(i);
            }
            i += 1;
        }
        proof {
            if self.names().contains(name@) {
                let k = choose|k: int|
                    0 <= k < self.names().len() && self.names()[k] == name@;
                assert(self.entries@[k].name@ == name@);
            }
        }
        None
    }

    /// The value of a name.
    pub fn get(&self, name: &str) -> (r: Option<V>)
        ensures
            r == if self@.dom().contains(name@) {
                Some(self@[name@])
            } else {
                None
            },
    {
        match self.position(name) {
            Some(i) => Some(self.entries[i].value),
            None => None,
        }
    }

    /// Whether the name has a value.
    pub fn contains(&self, name: &str) -> (r: bool)
        ensures
            r == self@.dom().contains(name@),
    {
        self.position(name).is_some()
    }

    /// The map in which a name has a value, in place of the one it had.
    pub fn put(self, name: &str, value: V) -> (r: NameMap<V>)
        ensures
            r@ == self@.insert(name@, value),
    {
        proof {
            use_type_invariant(&self);
            lemma_map_of(self.entries@);
        }
        let ghost was = self.entries@;
        let entry = NameEntry { name: name.to_owned(), value };
        let place = self.position(name);
        let mut entries = self.entries;
        match place {
            Some(i) => {
                entries.set(i, entry);
                proof {
                    assert(names_of(entries@) =~= names_of(was));
                    lemma_map_of(entries@);
                    let now = map_of(entries@);
                    let want = map_of(was).insert(name@, value);
                    assert(now.dom() =~= want.dom());
                    assert forall|k: Seq<char>| now.dom().contains(k) implies now[k] == want[k] by {
                        let j = choose|j: int|
                            0 <= j < names_of(was).len() && names_of(was)[j] == k;
                        assert(was[j].name@ == k);
                        assert(entries@[j].name@ == k);
                        if j != i {
                            assert(names_of(was)[j] != names_of(was)[i as int]);
                        }
                    }
                    assert(now =~= want);
                }
            },
            None => {
                entries.push(entry);
                proof {
                    let names = names_of(was);
                    assert(names_of(entries@) =~= names.push(name@));
                    assert forall|a: int, b: int|
                        0 <= a < names.len() + 1 && 0 <= b < names.len() + 1 && a
                            != b implies names.push(name@)[a] != names.push(name@)[b] by {
                        if a < names.len() {
                            assert(names.contains(names[a]));
                        }
                        if b < names.len() {
                            assert(names.contains(names[b]));
                        }
                    }
                    assert(entries@.drop_last() =~= was);
                }
            },
        }
        NameMap { entries }
    }
}

/// A set of names.
#[derive(Debug)]
pub struct NameSet {
    map: NameMap<()>,
}

impl View for NameSet {
    type V = Set<Seq<char>>;

    closed spec fn view(&self) -> Set<Seq<char>> {
        self.map@.dom()
    }
}

impl NameSet {
    /// The names in the order in which they came.
    pub closed spec fn names(&self) -> Seq<Seq<char>> {
        self.map.names()
    }

    pub fn new() -> (r: NameSet)
        ensures
            r@ == Set::<Seq<char>>::empty(),
    {
        let r = NameSet { map: NameMap::new() };
        assert(r@ =~= Set::empty());
        r
    }

    pub fn len(&self) -> (n: usize)
        ensures
            n == self@.len(),
            n == self.names().len(),
            self@.finite(),
            self.names().no_duplicates(),
            self.names().to_set() == self@,
    {
        self.map.len()
    }

    /// One of the names.
    pub fn name(&self, i: usize) -> (r: &str)
        requires
            i < self.names().len(),
        ensures
            r@ == self.names()[i as int],
    {
        self.map.name(i)
    }

    pub fn contains(&self, name: &str) -> (r: bool)
        ensures
            r == self@.contains(name@),
    {
        self.map.contains(name)
    }

    /// The names one by one.
    pub fn to_vec(&self) -> (r: Vec<String>)
        ensures
            text::views(r@) == self.names(),
            text::views(r@).to_set() == self@,
            text::views(r@).no_duplicates(),
    {
        let n = self.len();
        let mut r: Vec<String> = Vec::new();
        let mut i: usize = 0;
        assert(text::views(r@) =~= self.names().take(0));
        while i < n
            invariant
                i <= n,
                n == self.names().len(),
                text::views(r@) == self.names().take(i as int),
            decreases n - i,
        {
            let ghost was = r@;
            let name = self.name(i).to_owned();
            r.push(name);
            assert(text::views(r@) =~= text::views(was).push(self.names()[i as int]));
            assert(self.names().take(i + 1) =~= self.names().take(i as int).push(
                self.names()[i as int],
            ));
            i += 1;
        }
        assert(self.names().take(n as int) =~= self.names());
        r
    }

    /// The set with one more name.
    pub fn insert(self, name: &str) -> (r: NameSet)
        ensures
            r@ == self@.insert(name@),
    {
        let r = NameSet { map: self.map.put(name, ()) };
        assert(r@ =~= self@.insert(name@));
        r
    }
}

/// The elements of the first `i + 1` items of a list: the `i`-th joins those
/// before it.
pub proof fn lemma_take_insert(list: Seq<Seq<char>>, i: int)
    requires
        0 <= i < list.len(),
        list.no_duplicates(),
    ensures
        list.take(i + 1).to_set() == list.take(i).to_set().insert(list[i]),
        !list.take(i).to_set().contains(list[i]),
        list.take(i).to_set().finite(),
{
    let next = list.take(i + 1);
    let head = list.take(i);
    assert(next =~= head.push(list[i]));
    assert forall|x: Seq<char>|
        next.to_set().contains(x) <==> head.to_set().insert(list[i]).contains(x) by {
        if next.contains(x) {
            let k = choose|k: int| 0 <= k < next.len() && next[k] == x;
            if k < i {
                assert(head[k] == x);
            }
        }
        if head.contains(x) {
            let k = choose|k: int| 0 <= k < head.len() && head[k] == x;
            assert(next[k] == x);
        }
        assert(next[i] == list[i]);
    }
    assert(next.to_set() =~= head.to_set().insert(list[i]));
    if head.contains(list[i]) {
        let k = choose|k: int| 0 <= k < head.len() && head[k] == list[i];
        assert(list[k] == list[i]);
    }
    vstd::seq_lib::seq_to_set_is_finite(head);
}

/// The sum of a number for each name of a finite set.
pub open spec fn total(names: Set<Seq<char>>, worth: spec_fn(Seq<char>) -> nat) -> nat
    decreases names.len(),
    when names.finite()
{
    if names.len() == 0 {
        0
    } else {
        let one = names.choose();
        worth(one) + total(names.remove(one), worth)
    }
}

/// Any name of the set may be counted first.
pub proof fn lemma_total_remove(
    names: Set<Seq<char>>,
    worth: spec_fn(Seq<char>) -> nat,
    name: Seq<char>,
)
    requires
        names.finite(),
        names.contains(name),
    ensures
        total(names, worth) == worth(name) + total(names.remove(name), worth),
    decreases names.len(),
{
    let one = names.choose();
    if one != name {
        let less = names.remove(one);
        lemma_total_remove(less, worth, name);
        lemma_total_remove(names.remove(name), worth, one);
        assert(less.remove(name) =~= names.remove(name).remove(one));
    }
}

/// A name that joins the set adds what it is worth.
pub proof fn lemma_total_insert(
    names: Set<Seq<char>>,
    worth: spec_fn(Seq<char>) -> nat,
    name: Seq<char>,
)
    requires
        names.finite(),
        !names.contains(name),
    ensures
        total(names.insert(name), worth) == worth(name) + total(names, worth),
{
    lemma_total_remove(names.insert(name), worth, name);
    assert(names.insert(name).remove(name) =~= names);
}

} // verus!
