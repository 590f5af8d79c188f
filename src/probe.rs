//! The mathematical model of a bucket array: which keys it holds, where the
//! linear probe for a key goes, and the placement invariant that keeps every
//! live entry reachable from its home bucket.
use vstd::prelude::*;
use vstd::multiset::Multiset;
use crate::entry::{key_digest, Node, Slot};

verus! {

broadcast use vstd::multiset::group_multiset_axioms;

/// The bucket a key's probe starts at, in a table of `cap` buckets.
pub open spec fn home(k: Seq<char>, cap: nat) -> int {
    (key_digest(k) as int) % (cap as int)
}

/// The `j`-th bucket visited by a probe that starts at `h` (for `0 <= h, j < cap`).
pub open spec fn probe_at(h: int, j: int, cap: int) -> int {
    if h + j < cap {
        h + j
    } else {
        h + j - cap
    }
}

/// How many steps a probe that starts at `h` takes to reach bucket `i`.
pub open spec fn offset(h: int, i: int, cap: int) -> int {
    if i >= h {
        i - h
    } else {
        i + cap - h
    }
}

/// Whether the bucket holds a live entry with key `k`.
pub open spec fn holds_key(s: Slot, k: Seq<char>) -> bool {
    match s {
        Slot::Occupied(n) => n@ == k,
        _ => false,
    }
}

/// The key of a live bucket.
pub open spec fn key_at(s: Slot) -> Seq<char> {
    match s {
        Slot::Occupied(n) => n@,
        _ => Seq::empty(),
    }
}

/// The keys that one bucket contributes.
pub open spec fn slot_keys(s: Slot) -> Multiset<Seq<char>> {
    match s {
        Slot::Occupied(n) => Multiset::singleton(n@),
        _ => Multiset::empty(),
    }
}

/// The keys of all live entries, with their multiplicities.
pub open spec fn keys_of(s: Seq<Slot>) -> Multiset<Seq<char>>
    decreases s.len(),
{
    if s.len() == 0 {
        Multiset::empty()
    } else {
        keys_of(s.drop_last()).add(slot_keys(s.last()))
    }
}

/// The first `d` buckets of the probe from `h` are all in use (live or tombstone).
pub open spec fn chain_unbroken(s: Seq<Slot>, h: int, d: int) -> bool {
    forall|j: int| 0 <= j < d ==> !(#[trigger] s[probe_at(h, j, s.len() as int)] is Empty)
}

/// Every live entry sits on its key's probe sequence with no never-used
/// bucket between its home and itself.
pub open spec fn placed(s: Seq<Slot>) -> bool {
    forall|i: int|
        0 <= i < s.len() && #[trigger] s[i] is Occupied ==> chain_unbroken(
            s,
            home(key_at(s[i]), s.len()),
            offset(home(key_at(s[i]), s.len()), i, s.len() as int),
        )
}

/// The search for `k` from probe step `j` on: a never-used bucket stops it,
/// a tombstone or another key is passed over, and a full round ends it.
pub open spec fn scan(s: Seq<Slot>, k: Seq<char>, h: int, j: int) -> Option<int>
    decreases s.len() - j,
{
    if j < 0 || j >= s.len() {
        None
    } else {
        let i = probe_at(h, j, s.len() as int);
        match s[i] {
            Slot::Empty => None,
            Slot::Occupied(n) => if n@ == k {
                Some(i)
            } else {
                scan(s, k, h, j + 1)
            },
            Slot::Deleted => scan(s, k, h, j + 1),
        }
    }
}

/// The bucket where a search for `k` ends successfully, if any.
pub open spec fn lookup(s: Seq<Slot>, k: Seq<char>) -> Option<int> {
    scan(s, k, home(k, s.len()), 0)
}

/// The first bucket at or after probe step `j` from `h` that holds no live entry.
pub open spec fn first_free(s: Seq<Slot>, h: int, j: int) -> int
    decreases s.len() - j,
{
    if j < 0 || j >= s.len() {
        h
    } else if s[probe_at(h, j, s.len() as int)] is Occupied {
        first_free(s, h, j + 1)
    } else {
        probe_at(h, j, s.len() as int)
    }
}

/// The bucket that an insertion of `k` writes to.
pub open spec fn insertion_slot(s: Seq<Slot>, k: Seq<char>) -> int {
    first_free(s, home(k, s.len()), 0)
}

pub proof fn lemma_home_bounds(k: Seq<char>, cap: nat)
    requires
        cap > 0,
    ensures
        0 <= home(k, cap) < cap,
{
    vstd::arithmetic::div_mod::lemma_mod_bound(key_digest(k) as int, cap as int);
}

/// Overwriting one bucket swaps that bucket's key contribution for the new one.
pub proof fn lemma_keys_update(s: Seq<Slot>, p: int, x: Slot)
    requires
        0 <= p < s.len(),
    ensures
        forall|v: Seq<char>|
            #[trigger] keys_of(s.update(p, x)).count(v) + slot_keys(s[p]).count(v) == keys_of(
                s,
            ).count(v) + slot_keys(x).count(v),
    decreases s.len(),
{
    let t = s.update(p, x);
    if p == s.len() - 1 {
        assert(t.drop_last() =~= s.drop_last());
    } else {
        lemma_keys_update(s.drop_last(), p, x);
        assert(t.drop_last() =~= s.drop_last().update(p, x));
        assert(t.last() == s.last());
    }
    assert(keys_of(t) == keys_of(t.drop_last()).add(slot_keys(t.last())));
    assert(keys_of(s) == keys_of(s.drop_last()).add(slot_keys(s.last())));
}

/// Writing an entry into a bucket without a live entry adds its key.
pub proof fn lemma_keys_fill(s: Seq<Slot>, p: int, n: Node)
    requires
        0 <= p < s.len(),
        !(s[p] is Occupied),
    ensures
        keys_of(s.update(p, Slot::Occupied(n))) =~= keys_of(s).insert(n@),
{
    lemma_keys_update(s, p, Slot::Occupied(n));
}

/// Turning a live bucket into a tombstone removes one copy of its key.
pub proof fn lemma_keys_clear(s: Seq<Slot>, p: int)
    requires
        0 <= p < s.len(),
        s[p] is Occupied,
    ensures
        keys_of(s.update(p, Slot::Deleted)) =~= keys_of(s).remove(key_at(s[p])),
{
    lemma_keys_update(s, p, Slot::Deleted);
}

/// When every bucket is live, there are as many keys as buckets.
pub proof fn lemma_keys_len_full(s: Seq<Slot>)
    requires
        forall|i: int| 0 <= i < s.len() ==> #[trigger] s[i] is Occupied,
    ensures
        keys_of(s).len() == s.len(),
    decreases s.len(),
{
    if s.len() > 0 {
        let t = s.drop_last();
        assert forall|i: int| 0 <= i < t.len() implies #[trigger] t[i] is Occupied by {
            assert(t[i] == s[i]);
        }
        lemma_keys_len_full(t);
    }
}

/// A bucket array without live entries holds no keys.
pub proof fn lemma_keys_none(s: Seq<Slot>)
    requires
        forall|i: int| 0 <= i < s.len() ==> !(#[trigger] s[i] is Occupied),
    ensures
        keys_of(s) =~= Multiset::empty(),
    decreases s.len(),
{
    if s.len() > 0 {
        let t = s.drop_last();
        assert forall|i: int| 0 <= i < t.len() implies !(#[trigger] t[i] is Occupied) by {
            assert(t[i] == s[i]);
        }
        lemma_keys_none(t);
    }
}

/// A bucket holding `k` makes `k` one of the keys.
pub proof fn lemma_key_present(s: Seq<Slot>, i: int, k: Seq<char>)
    requires
        0 <= i < s.len(),
        holds_key(s[i], k),
    ensures
        keys_of(s).count(k) > 0,
    decreases s.len(),
{
    if i < s.len() - 1 {
        lemma_key_present(s.drop_last(), i, k);
    }
}

/// A key that occurs has a bucket holding it.
pub proof fn lemma_key_witness(s: Seq<Slot>, k: Seq<char>) -> (i: int)
    requires
        keys_of(s).count(k) > 0,
    ensures
        0 <= i < s.len(),
        holds_key(s[i], k),
    decreases s.len(),
{
    if s.len() == 0 {
        0
    } else if holds_key(s.last(), k) {
        s.len() - 1
    } else {
        let i = lemma_key_witness(s.drop_last(), k);
        assert(s[i] == s.drop_last()[i]);
        i
    }
}

/// A key that occurs twice is held by two distinct buckets.
pub proof fn lemma_two_witnesses(s: Seq<Slot>, k: Seq<char>) -> (r: (int, int))
    requires
        keys_of(s).count(k) >= 2,
    ensures
        0 <= r.0 < s.len(),
        0 <= r.1 < s.len(),
        r.0 != r.1,
        holds_key(s[r.0], k),
        holds_key(s[r.1], k),
    decreases s.len(),
{
    if s.len() == 0 {
        (0, 0)
    } else if holds_key(s.last(), k) {
        let i = lemma_key_witness(s.drop_last(), k);
        assert(s[i] == s.drop_last()[i]);
        (i, s.len() - 1)
    } else {
        let (i, j) = lemma_two_witnesses(s.drop_last(), k);
        assert(s[i] == s.drop_last()[i]);
        assert(s[j] == s.drop_last()[j]);
        (i, j)
    }
}

/// A search that succeeds ends on a bucket holding the key.
pub proof fn lemma_scan_hit(s: Seq<Slot>, k: Seq<char>, h: int, j: int)
    requires
        0 <= h < s.len(),
        scan(s, k, h, j) is Some,
    ensures
        0 <= scan(s, k, h, j)->0 < s.len(),
        holds_key(s[scan(s, k, h, j)->0], k),
    decreases s.len() - j,
{
    let i = probe_at(h, j, s.len() as int);
    match s[i] {
        Slot::Occupied(n) => if n@ != k {
            lemma_scan_hit(s, k, h, j + 1);
        },
        Slot::Deleted => lemma_scan_hit(s, k, h, j + 1),
        Slot::Empty => {},
    }
}

/// A search passes over in-use buckets until it reaches a bucket holding the key.
pub proof fn lemma_scan_reaches(s: Seq<Slot>, k: Seq<char>, h: int, j: int, d: int)
    requires
        0 <= h < s.len(),
        0 <= j <= d < s.len(),
        chain_unbroken(s, h, d),
        holds_key(s[probe_at(h, d, s.len() as int)], k),
    ensures
        scan(s, k, h, j) is Some,
    decreases d - j,
{
    let i = probe_at(h, j, s.len() as int);
    if j < d {
        assert(!(s[i] is Empty));
        match s[i] {
            Slot::Occupied(n) => if n@ != k {
                lemma_scan_reaches(s, k, h, j + 1, d);
            },
            _ => lemma_scan_reaches(s, k, h, j + 1, d),
        }
    }
}

/// In a table whose entries are placed, a search for `k` succeeds exactly when
/// `k` is one of the keys, and then ends on a bucket holding `k`.
pub proof fn lemma_lookup_iff(s: Seq<Slot>, k: Seq<char>)
    requires
        s.len() > 0,
        placed(s),
    ensures
        lookup(s, k) is Some <==> keys_of(s).count(k) > 0,
        lookup(s, k) is Some ==> 0 <= lookup(s, k)->0 < s.len() && holds_key(
            s[lookup(s, k)->0],
            k,
        ),
{
    let h = home(k, s.len());
    lemma_home_bounds(k, s.len());
    if lookup(s, k) is Some {
        lemma_scan_hit(s, k, h, 0);
        lemma_key_present(s, lookup(s, k)->0, k);
    }
    if keys_of(s).count(k) > 0 {
        let i = lemma_key_witness(s, k);
        assert(s[i] is Occupied);
        let d = offset(h, i, s.len() as int);
        lemma_scan_reaches(s, k, h, 0, d);
    }
}

/// Writing an entry into the first bucket without a live entry on its probe
/// sequence keeps every entry placed.
pub proof fn lemma_placed_fill(s: Seq<Slot>, p: int, n: Node)
    requires
        placed(s),
        0 <= p < s.len(),
        !(s[p] is Occupied),
        chain_unbroken(s, home(n@, s.len()), offset(home(n@, s.len()), p, s.len() as int)),
    ensures
        placed(s.update(p, Slot::Occupied(n))),
{
    let t = s.update(p, Slot::Occupied(n));
    assert forall|i: int| 0 <= i < t.len() && #[trigger] t[i] is Occupied implies chain_unbroken(
        t,
        home(key_at(t[i]), t.len()),
        offset(home(key_at(t[i]), t.len()), i, t.len() as int),
    ) by {
        let h = home(key_at(t[i]), t.len());
        let d = offset(h, i, t.len() as int);
        if i != p {
            assert(s[i] is Occupied);
        }
        assert forall|j: int| 0 <= j < d implies !(#[trigger] t[probe_at(
            h,
            j,
            t.len() as int,
        )] is Empty) by {
            assert(!(s[probe_at(h, j, s.len() as int)] is Empty));
        }
    }
}

/// Turning a live bucket into a tombstone keeps every entry placed.
pub proof fn lemma_placed_clear(s: Seq<Slot>, p: int)
    requires
        placed(s),
        0 <= p < s.len(),
    ensures
        placed(s.update(p, Slot::Deleted)),
{
    let t = s.update(p, Slot::Deleted);
    assert forall|i: int| 0 <= i < t.len() && #[trigger] t[i] is Occupied implies chain_unbroken(
        t,
        home(key_at(t[i]), t.len()),
        offset(home(key_at(t[i]), t.len()), i, t.len() as int),
    ) by {
        let h = home(key_at(t[i]), t.len());
        let d = offset(h, i, t.len() as int);
        assert(s[i] is Occupied);
        assert forall|j: int| 0 <= j < d implies !(#[trigger] t[probe_at(
            h,
            j,
            t.len() as int,
        )] is Empty) by {
            assert(!(s[probe_at(h, j, s.len() as int)] is Empty));
        }
    }
}

} // verus!
