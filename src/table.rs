//! The hash table: a bucket array of `capacity` slots, a count of live
//! entries, linear probing, tombstone deletion and load-factor resizing.
use vstd::prelude::*;
use vstd::multiset::Multiset;
use crate::entry::{Node, Slot};
use crate::probe::{
    chain_unbroken, first_free, holds_key, home, insertion_slot, keys_of, lemma_home_bounds,
    lemma_keys_clear, lemma_keys_fill, lemma_keys_len_full, lemma_keys_none, lemma_lookup_iff,
    lemma_placed_clear, lemma_placed_fill, lemma_two_witnesses, lookup, offset, placed, probe_at,
    scan, slot_keys,
};

verus! {

broadcast use vstd::multiset::group_multiset_axioms;

/// The table grows when `count / capacity` exceeds `EXPAND_NUM / EXPAND_DEN`.
const EXPAND_NUM: u128 = 3;
const EXPAND_DEN: u128 = 4;

/// The table shrinks when `count / capacity` falls below `SHRINK_NUM / SHRINK_DEN`.
const SHRINK_NUM: u128 = 1;
const SHRINK_DEN: u128 = 2;

/// `n` is 1 doubled some number of times.
pub open spec fn is_pow2(n: nat) -> bool
    decreases n,
{
    if n <= 1 {
        n == 1
    } else {
        n % 2 == 0 && is_pow2(n / 2)
    }
}

/// The load factor `count / cap` is above the expand threshold.
pub open spec fn over_expand(count: nat, cap: nat) -> bool {
    count * 4 > cap * 3
}

/// The load factor `count / cap` is below the shrink threshold.
pub open spec fn under_shrink(count: nat, cap: nat) -> bool {
    count * 2 < cap
}

/// The capacity after a shrink: half, but never below one bucket.
pub open spec fn halved(cap: nat) -> nat {
    if cap >= 2 {
        cap / 2
    } else {
        1
    }
}

/// An open-addressing hash table with string keys.
#[derive(Debug)]
pub struct HashTable {
    size: usize,
    count: usize,
    table: Vec<Slot>,
}

/// A bucket array of `n` never-used buckets.
fn empty_slots(n: usize) -> (r: Vec<Slot>)
    ensures
        r@.len() == n,
        forall|i: int| 0 <= i < n ==> #[trigger] r@[i] is Empty,
{
    let mut v: Vec<Slot> = Vec::new();
    let mut i: usize = 0;
    while i < n
        invariant
            i <= n,
            v@.len() == i,
            forall|j: int| 0 <= j < i ==> #[trigger] v@[j] is Empty,
        decreases n - i,
    {
        v.push(Slot::Empty);
        i = i + 1;
    }
    v
}

impl HashTable {
    /// The buckets, in index order.
    pub closed spec fn slots(&self) -> Seq<Slot> {
        self.table@
    }

    /// The keys of the live entries, with their multiplicities.
    pub open spec fn keys(&self) -> Multiset<Seq<char>> {
        keys_of(self.slots())
    }

    /// The number of buckets.
    pub open spec fn spec_capacity(&self) -> nat {
        self.slots().len()
    }

    /// The number of live entries.
    pub open spec fn spec_count(&self) -> nat {
        self.keys().len()
    }

    /// No bucket is a tombstone, as after a rehash.
    pub open spec fn no_tombstones(&self) -> bool {
        forall|i: int| 0 <= i < self.spec_capacity() ==> !(#[trigger] self.slots()[i] is Deleted)
    }

    /// A search for `k` succeeds.
    pub open spec fn finds(&self, k: Seq<char>) -> bool {
        lookup(self.slots(), k) is Some
    }

    /// The table's invariant: the capacity is a power of two, the count is
    /// that of the live buckets and below the capacity, and every live entry
    /// is reachable from its home bucket.
    pub closed spec fn wf(&self) -> bool {
        &&& self.size as nat == self.table@.len()
        &&& is_pow2(self.size as nat)
        &&& self.count as nat == keys_of(self.table@).len()
        &&& self.count < self.size
        &&& placed(self.table@)
    }

    /// The invariant as it stands between an insertion and its expand check:
    /// the count may have reached the capacity.
    closed spec fn wf_filled(&self) -> bool {
        &&& self.size as nat == self.table@.len()
        &&& is_pow2(self.size as nat)
        &&& self.count as nat == keys_of(self.table@).len()
        &&& self.count <= self.size
        &&& self.size > 0
        &&& placed(self.table@)
    }

    /// An empty table of one bucket.
    pub fn new() -> (r: HashTable)
        ensures
            r.wf(),
            r.spec_capacity() == 1,
            r.keys() =~= Multiset::empty(),
            forall|i: int| 0 <= i < r.spec_capacity() ==> #[trigger] r.slots()[i] is Empty,
    {
        let table = empty_slots(1);
        proof {
            lemma_keys_none(table@);
        }
        HashTable { size: 1, count: 0, table }
    }

    /// The number of live entries.
    pub fn count(&self) -> (r: usize)
        requires
            self.wf(),
        ensures
            r == self.spec_count(),
    {
        self.count
    }

    /// The number of buckets.
    pub fn capacity(&self) -> (r: usize)
        requires
            self.wf(),
        ensures
            r == self.spec_capacity(),
    {
        self.size
    }

    /// Adds an entry, without looking for an equal key, and doubles the
    /// capacity when the load factor then exceeds three quarters.
    pub fn insert(&mut self, node: Node)
        requires
            old(self).wf(),
            old(self).spec_capacity() <= usize::MAX / 2,
        ensures
            final(self).wf(),
            final(self).keys() == old(self).keys().insert(node@),
            final(self).spec_count() == old(self).spec_count() + 1,
            final(self).finds(node@),
            forall|k: Seq<char>| old(self).finds(k) ==> #[trigger] final(self).finds(k),
            !over_expand(final(self).spec_count(), final(self).spec_capacity()),
            final(self).spec_capacity() == if over_expand(
                old(self).spec_count() + 1,
                old(self).spec_capacity(),
            ) {
                2 * old(self).spec_capacity()
            } else {
                old(self).spec_capacity()
            },
            is_pow2(final(self).spec_capacity()),
            over_expand(old(self).spec_count() + 1, old(self).spec_capacity())
                ==> final(self).no_tombstones(),
            !over_expand(old(self).spec_count() + 1, old(self).spec_capacity()) ==> final(self).slots() == old(self).slots().update(
                insertion_slot(old(self).slots(), node@),
                Slot::Occupied(node),
            ),
    {
        let ghost k = node@;
        let ghost before = *self;
        Self::insert_table(&mut self.table, node);
        self.count = self.count + 1;
        self.table_doubling();
        proof {
            lemma_lookup_iff(self.table@, k);
            assert forall|k2: Seq<char>| before.finds(k2) implies #[trigger] self.finds(k2) by {
                lemma_lookup_iff(before.table@, k2);
                lemma_lookup_iff(self.table@, k2);
            }
        }
    }

    /// Doubles the capacity and rehashes when the load factor exceeds three quarters.
    fn table_doubling(&mut self)
        requires
            old(self).wf_filled(),
            old(self).size <= usize::MAX / 2,
        ensures
            final(self).wf(),
            final(self).count == old(self).count,
            keys_of(final(self).table@) == keys_of(old(self).table@),
            forall|k: Seq<char>| old(self).finds(k) ==> #[trigger] final(self).finds(k),
            if over_expand(old(self).count as nat, old(self).size as nat) {
                final(self).size == 2 * old(self).size && final(self).no_tombstones()
            } else {
                *final(self) == *old(self)
            },
    {
        let ghost before = *self;
        if (self.count as u128) * EXPAND_DEN <= (self.size as u128) * EXPAND_NUM {
            return ;
        }
        let new_size = self.size * 2;
        self.rehash(new_size);
        proof {
            assert(is_pow2(self.size as nat));
            assert forall|k: Seq<char>| before.finds(k) implies #[trigger] self.finds(k) by {
                lemma_lookup_iff(before.table@, k);
                lemma_lookup_iff(self.table@, k);
            }
        }
    }

    /// Halves the capacity (never below one bucket) and rehashes when the
    /// load factor falls below one half.
    fn table_shrinking(&mut self)
        requires
            old(self).wf(),
        ensures
            final(self).wf(),
            final(self).count == old(self).count,
            keys_of(final(self).table@) == keys_of(old(self).table@),
            forall|k: Seq<char>| old(self).finds(k) ==> #[trigger] final(self).finds(k),
            if under_shrink(old(self).count as nat, old(self).size as nat) {
                final(self).size == halved(old(self).size as nat) && final(self).no_tombstones()
            } else {
                *final(self) == *old(self)
            },
    {
        let ghost before = *self;
        if (self.count as u128) * SHRINK_DEN >= (self.size as u128) * SHRINK_NUM {
            return ;
        }
        let new_size = if self.size >= 2 {
            self.size / 2
        } else {
            1
        };
        proof {
            if self.size >= 2 {
                assert(self.size % 2 == 0);
            }
        }
        self.rehash(new_size);
        proof {
            assert(is_pow2(self.size as nat));
            assert forall|k: Seq<char>| before.finds(k) implies #[trigger] self.finds(k) by {
                lemma_lookup_iff(before.table@, k);
                lemma_lookup_iff(self.table@, k);
            }
        }
    }

    /// Removes the entry that a search for `node`'s key finds, leaving a
    /// tombstone, and halves the capacity when the load factor then falls
    /// below one half. Does nothing when the key is absent.
    pub fn delete(&mut self, node: Node)
        requires
            old(self).wf(),
        ensures
            final(self).wf(),
            final(self).keys() == old(self).keys().remove(node@),
            old(self).finds(node@) ==> final(self).spec_count() == old(self).spec_count() - 1,
            !old(self).finds(node@) ==> *final(self) == *old(self),
            old(self).keys().count(node@) <= 1 ==> !final(self).finds(node@),
            forall|k: Seq<char>|
                k != node@ && old(self).finds(k) ==> #[trigger] final(self).finds(k),
            final(self).spec_capacity() == if old(self).finds(node@) && under_shrink(
                (old(self).spec_count() - 1) as nat,
                old(self).spec_capacity(),
            ) {
                halved(old(self).spec_capacity())
            } else {
                old(self).spec_capacity()
            },
            is_pow2(final(self).spec_capacity()),
            old(self).finds(node@) && under_shrink(
                (old(self).spec_count() - 1) as nat,
                old(self).spec_capacity(),
            ) ==> final(self).no_tombstones(),
            old(self).finds(node@) && !under_shrink(
                (old(self).spec_count() - 1) as nat,
                old(self).spec_capacity(),
            ) ==> final(self).slots() == old(self).slots().update(
                lookup(old(self).slots(), node@)->0,
                Slot::Deleted,
            ),
    {
        let ghost k = node@;
        let ghost before = *self;
        proof {
            lemma_lookup_iff(self.table@, k);
        }
        let index = self.search(&node);
        match index {
            Some(i) => {
                proof {
                    lemma_keys_clear(self.table@, i as int);
                    lemma_placed_clear(self.table@, i as int);
                }
                self.table.set(i, Slot::Deleted);
                self.count = self.count - 1;
                self.table_shrinking();
            },
            None => {
                proof {
                    assert(self.keys() =~= self.keys().remove(k));
                }
            },
        }
        proof {
            lemma_lookup_iff(self.table@, k);
            assert forall|k2: Seq<char>| k2 != k && before.finds(k2) implies #[trigger] self.finds(
                k2,
            ) by {
                lemma_lookup_iff(before.table@, k2);
                lemma_lookup_iff(self.table@, k2);
            }
        }
    }

    /// Looks for an entry with `node`'s key along its probe sequence: a live
    /// entry with another key or a tombstone is passed over, a never-used
    /// bucket or a full round ends the search.
    pub fn search(&self, node: &Node) -> (r: Option<usize>)
        requires
            self.wf(),
        ensures
            match r {
                Some(i) => lookup(self.slots(), node@) == Some(i as int),
                None => lookup(self.slots(), node@) is None,
            },
            r is Some <==> self.keys().count(node@) > 0,
            r is Some ==> r->0 < self.spec_capacity() && holds_key(
                self.slots()[r->0 as int],
                node@,
            ),
    {
        proof {
            lemma_lookup_iff(self.table@, node@);
            lemma_home_bounds(node@, self.size as nat);
        }
        let size = self.size;
        let start = (node.hash() % (size as u64)) as usize;
        let mut index = start;
        let mut j: usize = 0;
        while j < size
            invariant
                size == self.table@.len(),
                start == home(node@, size as nat),
                0 <= start < size,
                j <= size,
                index == probe_at(start as int, j as int, size as int),
                lookup(self.table@, node@) == scan(self.table@, node@, start as int, j as int),
                lookup(self.table@, node@) is Some <==> keys_of(self.table@).count(node@) > 0,
            decreases size - j,
        {
            match &self.table[index] {
                Slot::Occupied(n) => {
                    if n.same_key(node) {
                        return Some(index);
                    }
                },
                Slot::Deleted => {},
                Slot::Empty => {
                    return None;
                },
            }
            index = if index + 1 == size {
                0
            } else {
                index + 1
            };
            j = j + 1;
        }
        None
    }

    /// The bucket that an insertion of `node` takes: the first one without a
    /// live entry on the probe sequence from the key's home bucket.
    fn get_table_index(table: &Vec<Slot>, node: &Node) -> (r: usize)
        requires
            table@.len() > 0,
            keys_of(table@).len() < table@.len(),
        ensures
            r == insertion_slot(table@, node@),
            r < table@.len(),
            !(table@[r as int] is Occupied),
            chain_unbroken(
                table@,
                home(node@, table@.len()),
                offset(home(node@, table@.len()), r as int, table@.len() as int),
            ),
    {
        let size = table.len();
        let hash = node.hash();
        let start = (hash % (size as u64)) as usize;
        proof {
            lemma_home_bounds(node@, size as nat);
        }
        let mut index = start;
        let mut j: usize = 0;
        while j < size
            invariant
                size == table@.len(),
                start == home(node@, size as nat),
                0 <= start < size,
                j <= size,
                index == probe_at(start as int, j as int, size as int),
                forall|j2: int|
                    0 <= j2 < j ==> #[trigger] table@[probe_at(
                        start as int,
                        j2,
                        size as int,
                    )] is Occupied,
                first_free(table@, start as int, 0) == first_free(table@, start as int, j as int),
            decreases size - j,
        {
            match &table[index] {
                Slot::Occupied(_) => {},
                _ => {
                    return index;
                },
            }
            index = if index + 1 == size {
                0
            } else {
                index + 1
            };
            j = j + 1;
        }
        proof {
            assert forall|i: int| 0 <= i < size implies #[trigger] table@[i] is Occupied by {
                let d = offset(start as int, i, size as int);
                assert(probe_at(start as int, d, size as int) == i);
            }
            lemma_keys_len_full(table@);
        }
        start
    }

    /// Writes `node` into its insertion bucket.
    fn insert_table(table: &mut Vec<Slot>, node: Node) -> (r: usize)
        requires
            old(table)@.len() > 0,
            keys_of(old(table)@).len() < old(table)@.len(),
            placed(old(table)@),
        ensures
            r == insertion_slot(old(table)@, node@),
            r < old(table)@.len(),
            final(table)@ == old(table)@.update(r as int, Slot::Occupied(node)),
            keys_of(final(table)@) == keys_of(old(table)@).insert(node@),
            placed(final(table)@),
    {
        let index = Self::get_table_index(table, &node);
        proof {
            lemma_keys_fill(table@, index as int, node);
            lemma_placed_fill(table@, index as int, node);
        }
        table.set(index, Slot::Occupied(node));
        index
    }

    /// Rebuilds the bucket array at `new_size` buckets, reinserting every
    /// live entry and dropping every tombstone.
    fn rehash(&mut self, new_size: usize)
        requires
            new_size > 0,
            keys_of(old(self).table@).len() < new_size,
        ensures
            final(self).table@.len() == new_size,
            final(self).size == new_size,
            final(self).count == old(self).count,
            keys_of(final(self).table@) == keys_of(old(self).table@),
            placed(final(self).table@),
            forall|i: int| 0 <= i < new_size ==> !(#[trigger] final(self).table@[i] is Deleted),
    {
        let ghost all = keys_of(self.table@);
        let mut fresh = empty_slots(new_size);
        proof {
            lemma_keys_none(fresh@);
        }
        let mut rest: Vec<Slot> = Vec::new();
        std::mem::swap(&mut self.table, &mut rest);
        while rest.len() > 0
            invariant
                fresh@.len() == new_size,
                placed(fresh@),
                keys_of(fresh@).add(keys_of(rest@)) == all,
                all.len() < new_size,
                forall|i: int| 0 <= i < new_size ==> !(#[trigger] fresh@[i] is Deleted),
            decreases rest@.len(),
        {
            let ghost before = rest@;
            let popped = rest.pop();
            proof {
                assert(rest@ == before.drop_last());
                assert(keys_of(before) == keys_of(rest@).add(slot_keys(before.last())));
            }
            match popped {
                Some(Slot::Occupied(n)) => {
                    let ghost f = fresh@;
                    let index = Self::insert_table(&mut fresh, n);
                    proof {
                        assert forall|i: int| 0 <= i < new_size implies !(
                        #[trigger] fresh@[i] is Deleted) by {
                            if i != index {
                                assert(fresh@[i] == f[i]);
                            }
                        }
                        assert(keys_of(fresh@).add(keys_of(rest@)) =~= all);
                    }
                },
                _ => {
                    proof {
                        assert(keys_of(fresh@).add(keys_of(rest@)) =~= all);
                    }
                },
            }
        }
        proof {
            assert(keys_of(rest@) =~= Multiset::empty());
            assert(keys_of(fresh@) =~= all);
        }
        self.table = fresh;
        self.size = new_size;
    }
}

impl Default for HashTable {
    fn default() -> (r: HashTable)
        ensures
            r.wf(),
            r.spec_capacity() == 1,
            r.keys() =~= Multiset::empty(),
            forall|i: int| 0 <= i < r.spec_capacity() ==> #[trigger] r.slots()[i] is Empty,
    {
        HashTable::new()
    }
}

/// A search in a well-formed table succeeds exactly for the keys it holds,
/// and ends on a bucket holding the key searched for.
pub proof fn lemma_search_exact(t: HashTable, k: Seq<char>)
    requires
        t.wf(),
    ensures
        t.finds(k) <==> t.keys().count(k) > 0,
        t.finds(k) ==> 0 <= lookup(t.slots(), k)->0 < t.spec_capacity() && holds_key(
            t.slots()[lookup(t.slots(), k)->0],
            k,
        ),
{
    lemma_lookup_iff(t.table@, k);
}

/// Every well-formed table has a power-of-two capacity (one bucket doubled
/// and halved some number of times), and fewer entries than buckets, so an
/// insertion always finds a free bucket.
pub proof fn lemma_capacity_shape(t: HashTable)
    requires
        t.wf(),
    ensures
        is_pow2(t.spec_capacity()),
        t.spec_capacity() >= 1,
        t.spec_count() < t.spec_capacity(),
{
}

/// Round trip: once `k` has been inserted, a search for `k` succeeds and
/// ends on an entry whose key is `k`.
pub proof fn lemma_insert_then_search(before: HashTable, after: HashTable, k: Seq<char>)
    requires
        before.wf(),
        after.wf(),
        after.keys() == before.keys().insert(k),
    ensures
        after.finds(k),
        holds_key(after.slots()[lookup(after.slots(), k)->0], k),
{
    lemma_search_exact(after, k);
}

/// Deleting a key held once makes a later search for it fail, and lowers
/// the count by one.
pub proof fn lemma_delete_then_search(before: HashTable, after: HashTable, k: Seq<char>)
    requires
        before.wf(),
        after.wf(),
        before.keys().count(k) == 1,
        after.keys() == before.keys().remove(k),
    ensures
        !after.finds(k),
        after.spec_count() == before.spec_count() - 1,
{
    lemma_search_exact(after, k);
}

/// A tombstone in a key's home bucket does not hide the key: a search goes
/// past it and finds the key further along.
pub proof fn lemma_found_past_tombstone(t: HashTable, k: Seq<char>)
    requires
        t.wf(),
        t.keys().count(k) > 0,
        t.slots()[home(k, t.spec_capacity())] is Deleted,
    ensures
        t.finds(k),
        lookup(t.slots(), k)->0 != home(k, t.spec_capacity()),
{
    lemma_search_exact(t, k);
}

/// Inserting the same key twice adds two to the count and leaves two
/// distinct live buckets holding that key; a search finds one of them.
pub proof fn lemma_insert_twice(t0: HashTable, t1: HashTable, t2: HashTable, k: Seq<char>)
    requires
        t0.wf(),
        t1.wf(),
        t2.wf(),
        t1.keys() == t0.keys().insert(k),
        t2.keys() == t1.keys().insert(k),
    ensures
        t2.spec_count() == t0.spec_count() + 2,
        t2.finds(k),
        exists|i: int, j: int|
            0 <= i < t2.spec_capacity() && 0 <= j < t2.spec_capacity() && i != j && holds_key(
                #[trigger] t2.slots()[i],
                k,
            ) && holds_key(#[trigger] t2.slots()[j], k),
{
    lemma_search_exact(t2, k);
    let (i, j) = lemma_two_witnesses(t2.slots(), k);
    assert(holds_key(t2.slots()[i], k) && holds_key(t2.slots()[j], k));
}

/// A resize loses nothing: when a rehash leaves the keys as they were, the
/// count is unchanged and every key found before is found after, on an entry
/// holding that key.
pub proof fn lemma_resize_keeps_entries(before: HashTable, after: HashTable)
    requires
        before.wf(),
        after.wf(),
        after.keys() == before.keys(),
    ensures
        after.spec_count() == before.spec_count(),
        forall|k: Seq<char>|
            #[trigger] before.finds(k) ==> after.finds(k) && holds_key(
                after.slots()[lookup(after.slots(), k)->0],
                k,
            ),
{
    assert forall|k: Seq<char>| #[trigger] before.finds(k) implies after.finds(k) && holds_key(
        after.slots()[lookup(after.slots(), k)->0],
        k,
    ) by {
        lemma_search_exact(before, k);
        lemma_search_exact(after, k);
    }
}

} // verus!
