//! Short lists that are kept in place. They are the crate `smallvec`'s vectors
//! with room for four items.
use smallvec::SmallVec;
use vstd::prelude::*;

verus! {

/// How many items a list can always take: the memory for them can be
/// addressed.
pub open spec fn list_limit() -> int {
    usize::MAX as int / 64
}

/// A short list of line ranges: a `SmallVec`.
#[verifier::external_body]
#[derive(Debug)]
pub struct RangeList {
    items: SmallVec<[(usize, usize); 4]>,
}

/// What a list of ranges holds, in order.
pub uninterp spec fn range_items(list: RangeList) -> Seq<(usize, usize)>;

impl View for RangeList {
    type V = Seq<(usize, usize)>;

    open spec fn view(&self) -> Seq<(usize, usize)> {
        range_items(*self)
    }
}

/// `SmallVec::new`: an empty list.
#[verifier::external_body]
pub(crate) fn new_ranges() -> (r: RangeList)
    ensures
        range_items(r) == Seq::<(usize, usize)>::empty(),
{
    RangeList { items: SmallVec::new() }
}

/// `SmallVec::push`: one more item at the end. It would panic where the list
/// outgrows the address space.
#[verifier::external_body]
pub(crate) fn push_range(list: &mut RangeList, range: (usize, usize))
    requires
        range_items(*old(list)).len() < list_limit(),
    ensures
        range_items(*final(list)) == range_items(*old(list)).push(range),
{
    list.items.push(range);
}

/// `SmallVec::len`: the number of items.
#[verifier::external_body]
pub(crate) fn ranges_len(list: &RangeList) -> (n: usize)
    ensures
        n == range_items(*list).len(),
{
    list.items.len()
}

/// `SmallVec::index`: one item. It would panic behind the end.
#[verifier::external_body]
pub(crate) fn range_at(list: &RangeList, i: usize) -> (r: (usize, usize))
    requires
        i < range_items(*list).len(),
    ensures
        r == range_items(*list)[i as int],
{
    list.items[i]
}

/// A short list of symbol numbers: a `SmallVec`.
#[verifier::external_body]
#[derive(Debug)]
pub struct SymbolList {
    items: SmallVec<[u64; 4]>,
}

/// What a list of symbols holds, in order.
pub uninterp spec fn symbol_items(list: SymbolList) -> Seq<u64>;

impl View for SymbolList {
    type V = Seq<u64>;

    open spec fn view(&self) -> Seq<u64> {
        symbol_items(*self)
    }
}

/// `SmallVec::new`: an empty list.
#[verifier::external_body]
pub(crate) fn new_symbols() -> (r: SymbolList)
    ensures
        symbol_items(r) == Seq::<u64>::empty(),
{
    SymbolList { items: SmallVec::new() }
}

/// `SmallVec::push`: one more item at the end. It would panic where the list
/// outgrows the address space.
#[verifier::external_body]
pub(crate) fn push_symbol(list: &mut SymbolList, symbol: u64)
    requires
        symbol_items(*old(list)).len() < list_limit(),
    ensures
        symbol_items(*final(list)) == symbol_items(*old(list)).push(symbol),
{
    list.items.push(symbol);
}

/// `SmallVec::len`: the number of items.
#[verifier::external_body]
pub(crate) fn symbols_len(list: &SymbolList) -> (n: usize)
    ensures
        n == symbol_items(*list).len(),
{
    list.items.len()
}

/// `SmallVec::index`: one item. It would panic behind the end.
#[verifier::external_body]
pub(crate) fn symbol_at(list: &SymbolList, i: usize) -> (r: u64)
    requires
        i < symbol_items(*list).len(),
    ensures
        r == symbol_items(*list)[i as int],
{
    list.items[i]
}

impl RangeList {
    /// The list of some ranges.
    pub fn of(ranges: &[(usize, usize)]) -> (r: RangeList)
        requires
            ranges@.len() <= list_limit(),
        ensures
            r@ == ranges@,
    {
        let mut r = new_ranges();
        let mut i: usize = 0;
        while i < ranges.len()
            invariant
                i <= ranges@.len() <= list_limit(),
                r@ == ranges@.take(i as int),
            decreases ranges@.len() - i,
        {
            push_range(&mut r, ranges[i]);
            assert(ranges@.take(i + 1) =~= ranges@.take(i as int).push(ranges@[i as int]));
            i += 1;
        }
        assert(ranges@.take(ranges@.len() as int) =~= ranges@);
        r
    }

    pub fn len(&self) -> (n: usize)
        ensures
            n == self@.len(),
    {
        ranges_len(self)
    }

    /// The items one by one.
    pub fn to_vec(&self) -> (r: Vec<(usize, usize)>)
        ensures
            r@ == self@,
    {
        let mut r: Vec<(usize, usize)> = Vec::new();
        let n = ranges_len(self);
        let mut i: usize = 0;
        while i < n
            invariant
                i <= n,
                n == self@.len(),
                r@ == self@.take(i as int),
            decreases n - i,
        {
            r.push(range_at(self, i));
            assert(self@.take(i + 1) =~= self@.take(i as int).push(self@[i as int]));
            i += 1;
        }
        assert(self@.take(n as int) =~= self@);
        r
    }
}

impl SymbolList {
    /// The list of some symbols.
    pub fn of(symbols: &[u64]) -> (r: SymbolList)
        requires
            symbols@.len() <= list_limit(),
        ensures
            r@ == symbols@,
    {
        let mut r = new_symbols();
        let mut i: usize = 0;
        while i < symbols.len()
            invariant
                i <= symbols@.len() <= list_limit(),
                r@ == symbols@.take(i as int),
            decreases symbols@.len() - i,
        {
            push_symbol(&mut r, symbols[i]);
            assert(symbols@.take(i + 1) =~= symbols@.take(i as int).push(symbols@[i as int]));
            i += 1;
        }
        assert(symbols@.take(symbols@.len() as int) =~= symbols@);
        r
    }

    pub fn len(&self) -> (n: usize)
        ensures
            n == self@.len(),
    {
        symbols_len(self)
    }

    /// The items one by one.
    pub fn to_vec(&self) -> (r: Vec<u64>)
        ensures
            r@ == self@,
    {
        let mut r: Vec<u64> = Vec::new();
        let n = symbols_len(self);
        let mut i: usize = 0;
        while i < n
            invariant
                i <= n,
                n == self@.len(),
                r@ == self@.take(i as int),
            decreases n - i,
        {
            r.push(symbol_at(self, i));
            assert(self@.take(i + 1) =~= self@.take(i as int).push(self@[i as int]));
            i += 1;
        }
        assert(self@.take(n as int) =~= self@);
        r
    }
}

} // verus!
