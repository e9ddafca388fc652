//! The growable ordered index.
//!
//! The index maps the decimal text of a number to that number. It starts
//! empty and only grows: a whole range of numbers at a time, either given
//! outright or counted on from the current count of entries. An entry filed
//! again replaces itself, so filing a range twice changes nothing.
//!
//! Entries are kept in a tree in the order of their keys' texts. The tree
//! holds each number under its order key, which stands for the text.

use std::collections::BTreeMap;
use vstd::prelude::*;
use vstd::set_lib::{lemma_len_subset, lemma_len_union, lemma_map_size};
use crate::decimal::{decimal_text, lemma_decimal_text_injective, parse_decimal};
use crate::order::{lemma_order_key_bound, lemma_order_key_injective, order_key, order_key_of};

verus! {

/// Why a range could not be filed.
#[derive(Clone, Copy, Debug, PartialEq, Eq, Structural)]
pub enum IndexError {
    /// The end of the range, its start plus its count, is above `u64::MAX`.
    Overflow,
}

/// The numbers from `start` up to, not including, `end`.
pub open spec fn number_range(start: int, end: int) -> Set<u64> {
    Set::new(|n: u64| start <= n < end)
}

/// The numbers held after `count` numbers from `start` on are filed with
/// `numbers`.
pub open spec fn allocated(numbers: Set<u64>, start: int, count: int) -> Set<u64> {
    numbers.union(number_range(start, start + count))
}

/// The entries that stand for `numbers`: each number under its decimal text.
pub open spec fn entries_of(numbers: Set<u64>) -> Map<Seq<char>, u64> {
    Map::new(
        |key: Seq<char>| exists|n: u64| numbers.contains(n) && key == decimal_text(n as nat),
        |key: Seq<char>| choose|n: u64| numbers.contains(n) && key == decimal_text(n as nat),
    )
}

/// A range holds no more numbers than lie between its start and its end.
pub proof fn lemma_number_range_finite(start: u64, end: int)
    requires
        start <= end,
    ensures
        number_range(start as int, end).finite(),
        number_range(start as int, end).len() <= end - start,
    decreases end - start,
{
    if start == end || start == u64::MAX {
        if start == end {
            assert(number_range(start as int, end) =~= Set::<u64>::empty());
        } else {
            assert(number_range(start as int, end) =~= Set::<u64>::empty().insert(start));
        }
    } else {
        let next = (start + 1) as u64;
        lemma_number_range_finite(next, end);
        assert(number_range(start as int, end) =~= number_range(next as int, end).insert(start));
    }
}

/// Filing the same range twice in a row holds what filing it once holds.
pub proof fn lemma_allocated_twice(numbers: Set<u64>, start: int, count: int)
    ensures
        allocated(allocated(numbers, start, count), start, count) == allocated(
            numbers,
            start,
            count,
        ),
{
    assert(allocated(allocated(numbers, start, count), start, count) =~= allocated(
        numbers,
        start,
        count,
    ));
}

/// Filing a range keeps every number that was held and holds every number
/// of the range.
pub proof fn lemma_allocated_holds(numbers: Set<u64>, start: int, count: int, n: u64)
    ensures
        numbers.contains(n) ==> allocated(numbers, start, count).contains(n),
        start <= n < start + count ==> allocated(numbers, start, count).contains(n),
        allocated(numbers, start, count).contains(n) ==> numbers.contains(n) || start <= n < start
            + count,
{
}

/// A number that is held is found under its decimal text.
pub proof fn lemma_entry_found(numbers: Set<u64>, n: u64)
    requires
        numbers.contains(n),
    ensures
        entries_of(numbers).contains_key(decimal_text(n as nat)),
        entries_of(numbers)[decimal_text(n as nat)] == n,
{
    let key = decimal_text(n as nat);
    let found = choose|m: u64| numbers.contains(m) && key == decimal_text(m as nat);
    lemma_decimal_text_injective(found as nat, n as nat);
}

/// After a range is filed, each of its numbers is found under its decimal
/// text.
pub proof fn lemma_allocated_found(numbers: Set<u64>, start: int, count: int, n: u64)
    requires
        start <= n < start + count,
    ensures
        entries_of(allocated(numbers, start, count)).contains_key(decimal_text(n as nat)),
        entries_of(allocated(numbers, start, count))[decimal_text(n as nat)] == n,
{
    lemma_entry_found(allocated(numbers, start, count), n);
}

/// A key that is the decimal text of no number held is not found.
pub proof fn lemma_entry_absent(numbers: Set<u64>, key: Seq<char>)
    requires
        forall|n: u64| numbers.contains(n) ==> key != decimal_text(n as nat),
    ensures
        !entries_of(numbers).contains_key(key),
{
}

/// Every key that is found is the decimal text of the number found under it.
pub proof fn lemma_entry_key(numbers: Set<u64>, key: Seq<char>)
    requires
        entries_of(numbers).contains_key(key),
    ensures
        numbers.contains(entries_of(numbers)[key]),
        key == decimal_text(entries_of(numbers)[key] as nat),
{
}

/// There are as many entries as numbers.
pub proof fn lemma_entries_count(numbers: Set<u64>)
    requires
        numbers.finite(),
    ensures
        entries_of(numbers).dom().finite(),
        entries_of(numbers).len() == numbers.len(),
{
    let text = |n: u64| decimal_text(n as nat);
    assert forall|m: u64, n: u64| #[trigger] text(m) == #[trigger] text(n) implies m == n by {
        lemma_decimal_text_injective(m as nat, n as nat);
    }
    assert(numbers.map(text) =~= entries_of(numbers).dom());
    lemma_map_size(numbers, entries_of(numbers).dom(), text);
}

/// Whether each entry of `tree` is filed under the order key of its number.
spec fn filed_in_order(tree: Map<u128, u64>) -> bool {
    forall|k: u128| tree.contains_key(k) ==> k == order_key(#[trigger] tree[k])
}

/// The numbers of the entries of `tree`.
spec fn numbers_of(tree: Map<u128, u64>) -> Set<u64> {
    tree.dom().map(|k: u128| tree[k])
}

/// In a tree filed in order, a number is held exactly where its order key is.
proof fn lemma_number_held(tree: Map<u128, u64>, n: u64)
    requires
        filed_in_order(tree),
    ensures
        numbers_of(tree).contains(n) <==> tree.contains_key(order_key(n) as u128),
        tree.contains_key(order_key(n) as u128) ==> tree[order_key(n) as u128] == n,
{
    lemma_order_key_bound(n);
    let k = order_key(n) as u128;
    if tree.contains_key(k) {
        lemma_order_key_injective(tree[k], n);
    }
}

/// Filing a number under its order key keeps the tree in order and adds the
/// number to those held.
proof fn lemma_file_number(tree: Map<u128, u64>, n: u64)
    requires
        filed_in_order(tree),
    ensures
        filed_in_order(tree.insert(order_key(n) as u128, n)),
        numbers_of(tree.insert(order_key(n) as u128, n)) == numbers_of(tree).insert(n),
{
    lemma_order_key_bound(n);
    let k = order_key(n) as u128;
    let filed = tree.insert(k, n);
    assert forall|m: u64| numbers_of(filed).contains(m) <==> numbers_of(tree).insert(
        n,
    ).contains(m) by {
        lemma_number_held(tree, m);
        lemma_number_held(filed, m);
        lemma_order_key_bound(m);
        if order_key(m) == order_key(n) {
            lemma_order_key_injective(m, n);
        }
    }
}

/// The growable ordered index.
pub struct OrderedIndex {
    tree: BTreeMap<u128, u64>,
}

impl View for OrderedIndex {
    type V = Map<Seq<char>, u64>;

    /// The entries of the index: each number held, under its decimal text.
    open spec fn view(&self) -> Map<Seq<char>, u64> {
        entries_of(self.numbers())
    }
}

impl Default for OrderedIndex {
    /// An empty index.
    fn default() -> (index: Self)
        ensures
            index.numbers() == Set::<u64>::empty(),
            index@ == Map::<Seq<char>, u64>::empty(),
    {
        OrderedIndex::new()
    }
}

impl OrderedIndex {
    #[verifier::type_invariant]
    spec fn well_formed(self) -> bool {
        filed_in_order(self.tree@)
    }

    /// The numbers held in the index.
    pub closed spec fn numbers(&self) -> Set<u64> {
        numbers_of(self.tree@)
    }

    /// An index holds finitely many numbers.
    pub proof fn lemma_numbers_finite(&self)
        ensures
            self.numbers().finite(),
            self@.dom().finite(),
            self@.len() == self.numbers().len(),
    {
        self.tree@.dom().lemma_map_finite(|k: u128| self.tree@[k]);
        lemma_entries_count(self.numbers());
    }

    /// An empty index.
    pub fn new() -> (index: Self)
        ensures
            index.numbers() == Set::<u64>::empty(),
            index@ == Map::<Seq<char>, u64>::empty(),
    {
        let index = OrderedIndex { tree: BTreeMap::new() };
        proof {
        }
        index
    }

    /// The number of entries.
    pub fn length(&self) -> (count: usize)
        ensures
            count == self@.len(),
            count == self.numbers().len(),
    {
        proof {
            use_type_invariant(self);
            self.lemma_numbers_finite();
            let tree = self.tree@;
            let number = |k: u128| tree[k];
            assert forall|j: u128, k: u128|
                tree.dom().contains(j) && tree.dom().contains(k) && #[trigger] number(j)
                    == #[trigger] number(k) implies j == k by {}
            lemma_map_size(tree.dom(), self.numbers(), number);
        }
        self.tree.len()
    }

    /// The number filed under `key`, if there is one.
    pub fn get(&self, key: &str) -> (found: Option<u64>)
        ensures
            found == (if self@.contains_key(key@) {
                Some(self@[key@])
            } else {
                None
            }),
    {
        proof {
            use_type_invariant(self);
        }
        match parse_decimal(key) {
            Some(n) => {
                let k = order_key_of(n);
                proof {
                    lemma_number_held(self.tree@, n);
                    if self.numbers().contains(n) {
                        lemma_entry_found(self.numbers(), n);
                    } else {
                        assert forall|m: u64| self.numbers().contains(m) implies key@
                            != decimal_text(m as nat) by {
                            if key@ == decimal_text(m as nat) {
                                lemma_decimal_text_injective(m as nat, n as nat);
                            }
                        }
                    }
                }
                match self.tree.get(&k) {
                    Some(number) => Some(*number),
                    None => None,
                }
            },
            None => None,
        }
    }

    /// Files the `count` numbers from `start` on, each under its decimal
    /// text, and returns the end of the range, `start + count`.
    ///
    /// Where the end is above `u64::MAX`, nothing is filed and the error
    /// says so.
    pub fn allocate_range(&mut self, start: u64, count: u64) -> (end: Result<u64, IndexError>)
        ensures
            match end {
                Ok(end) => {
                    &&& end == start + count
                    &&& final(self).numbers() == allocated(
                        old(self).numbers(),
                        start as int,
                        count as int,
                    )
                },
                Err(error) => {
                    &&& error == IndexError::Overflow
                    &&& start + count > u64::MAX
                    &&& *final(self) == *old(self)
                },
            },
            old(self)@.len() <= final(self)@.len() <= old(self)@.len() + count,
    {
        let end = match start.checked_add(count) {
            Some(end) => end,
            None => {
                return Err(IndexError::Overflow);
            },
        };
        proof {
            use_type_invariant(&*self);
            self.lemma_numbers_finite();
        }
        let ghost before = self.numbers();
        let mut tree = BTreeMap::new();
        std::mem::swap(&mut tree, &mut self.tree);
        let mut next = start;
        while next < end
            invariant
                start <= next <= end,
                filed_in_order(tree@),
                numbers_of(tree@) == before.union(number_range(start as int, next as int)),
            decreases end - next,
        {
            let k = order_key_of(next);
            proof {
                lemma_file_number(tree@, next);
                assert(before.union(number_range(start as int, next as int)).insert(next)
                    =~= before.union(number_range(start as int, next + 1)));
            }
            tree.insert(k, next);
            next = next + 1;
        }
        self.tree = tree;
        proof {
            self.lemma_numbers_finite();
            lemma_len_subset(before, self.numbers());
            lemma_number_range_finite(start, end as int);
            lemma_len_union(before, number_range(start as int, end as int));
        }
        Ok(end)
    }

    /// Files `count` more numbers, counted on from the current count of
    /// entries, and returns the end of the range.
    ///
    /// The range starts at the count of entries, not after the largest
    /// number held. Where its end is above `u64::MAX`, nothing is filed and
    /// the error says so.
    pub fn grow_by(&mut self, count: u64) -> (end: Result<u64, IndexError>)
        ensures
            match end {
                Ok(end) => {
                    &&& end == old(self)@.len() + count
                    &&& final(self).numbers() == allocated(
                        old(self).numbers(),
                        old(self)@.len() as int,
                        count as int,
                    )
                },
                Err(error) => {
                    &&& error == IndexError::Overflow
                    &&& old(self)@.len() + count > u64::MAX
                    &&& *final(self) == *old(self)
                },
            },
            old(self)@.len() <= final(self)@.len() <= old(self)@.len() + count,
    {
        let start = self.length() as u64;
        self.allocate_range(start, count)
    }
}

} // verus!
