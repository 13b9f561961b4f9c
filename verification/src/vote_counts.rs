//! The number of outstanding votes of each validator, and how signers'
//! votes are added to it and taken from it.

use crate::address_set::{ascending, lemma_ascending_len, lemma_ascending_unique, AddressSet};
use crate::primitives::{Address, Error};
use vstd::prelude::*;

verus! {

/// The votes of `a` in `m`: none where `m` does not name it.
pub open spec fn count_in(m: Map<Address, nat>, a: Address) -> nat {
    if m.contains_key(a) {
        m[a]
    } else {
        0
    }
}

/// `m` after each of `signers` has cast one more vote.
pub open spec fn with_votes(m: Map<Address, nat>, signers: Set<Address>) -> Map<Address, nat> {
    Map::new(
        |a: Address| m.contains_key(a) || signers.contains(a),
        |a: Address|
            if signers.contains(a) {
                count_in(m, a) + 1
            } else {
                count_in(m, a)
            },
    )
}

/// `m` after one vote of each of `signers` has been withdrawn; a validator
/// left without votes is no longer named.
pub open spec fn without_votes(m: Map<Address, nat>, signers: Set<Address>) -> Map<Address, nat> {
    Map::new(
        |a: Address| m.contains_key(a) && !(signers.contains(a) && m[a] <= 1),
        |a: Address|
            if signers.contains(a) {
                (m[a] - 1) as nat
            } else {
                m[a]
            },
    )
}

/// The keys of `s` stand in byte order, each once.
pub open spec fn keys_ascending(s: Seq<(Address, u64)>) -> bool {
    forall|i: int, j: int| 0 <= i < j < s.len() ==> (#[trigger] s[i]).0.precedes((#[trigger] s[j]).0)
}

/// Some entry of `s` has the key `a`.
pub open spec fn has_key(s: Seq<(Address, u64)>, a: Address) -> bool {
    exists|i: int| 0 <= i < s.len() && (#[trigger] s[i]).0 == a
}

/// The place of an entry of `s` with the key `a`.
pub open spec fn slot(s: Seq<(Address, u64)>, a: Address) -> int {
    choose|i: int| 0 <= i < s.len() && (#[trigger] s[i]).0 == a
}

/// The map that the entries of `s` spell.
pub open spec fn as_map(s: Seq<(Address, u64)>) -> Map<Address, nat> {
    Map::new(|a: Address| has_key(s, a), |a: Address| s[slot(s, a)].1 as nat)
}

/// With keys in byte order, each entry is what the map holds for its key.
pub proof fn lemma_as_map_entries(s: Seq<(Address, u64)>)
    requires
        keys_ascending(s),
    ensures
        forall|i: int|
            0 <= i < s.len() ==> as_map(s).contains_key((#[trigger] s[i]).0) && as_map(s)[s[i].0]
                == s[i].1,
{
    assert forall|i: int| 0 <= i < s.len() implies as_map(s).contains_key((#[trigger] s[i]).0)
        && as_map(s)[s[i].0] == s[i].1 by {
        let a = s[i].0;
        assert(has_key(s, a));
        let k = slot(s, a);
        if k < i {
            assert(s[k].0.precedes(s[i].0));
        } else if k > i {
            assert(s[i].0.precedes(s[k].0));
        }
    }
}

/// Entries with keys in byte order spell `m` if each entry is in `m` and
/// `m` names no other key.
pub proof fn lemma_as_map_is(s: Seq<(Address, u64)>, m: Map<Address, nat>)
    requires
        keys_ascending(s),
        forall|i: int|
            0 <= i < s.len() ==> m.contains_key((#[trigger] s[i]).0) && m[s[i].0] == s[i].1,
        forall|a: Address| m.contains_key(a) ==> has_key(s, a),
    ensures
        as_map(s) == m,
{
    lemma_as_map_entries(s);
    assert forall|a: Address| as_map(s).contains_key(a) implies m.contains_key(a) by {
        let k = slot(s, a);
        assert(s[k].0 == a);
    }
    assert forall|a: Address| m.contains_key(a) implies as_map(s).contains_key(a) && as_map(s)[a]
        == m[a] by {
        assert(has_key(s, a));
        let k = slot(s, a);
        assert(s[k].0 == a);
    }
    assert(as_map(s) =~= m);
}

/// The map of entries in byte order names as many keys as there are entries.
pub proof fn lemma_as_map_len(s: Seq<(Address, u64)>)
    requires
        keys_ascending(s),
    ensures
        as_map(s).dom().finite(),
        as_map(s).dom().len() == s.len(),
{
    let keys = Seq::new(s.len(), |i: int| s[i].0);
    assert(ascending(keys)) by {
        assert forall|i: int, j: int| 0 <= i < j < keys.len() implies (#[trigger] keys[i]).precedes(
            #[trigger] keys[j],
        ) by {
            assert(s[i].0.precedes(s[j].0));
        }
    }
    lemma_ascending_len(keys);
    assert forall|a: Address| keys.to_set().contains(a) <==> as_map(s).dom().contains(a) by {
        if keys.contains(a) {
            let k = choose|k: int| 0 <= k < keys.len() && keys[k] == a;
            assert(s[k].0 == a);
        }
        if has_key(s, a) {
            let k = slot(s, a);
            assert(keys[k] == a);
        }
    }
    assert(keys.to_set() =~= as_map(s).dom());
}

/// Two sequences with keys in byte order that spell the same map are the
/// same sequence.
pub proof fn lemma_as_map_unique(s: Seq<(Address, u64)>, t: Seq<(Address, u64)>)
    requires
        keys_ascending(s),
        keys_ascending(t),
        as_map(s) == as_map(t),
    ensures
        s == t,
{
    let ks = Seq::new(s.len(), |i: int| s[i].0);
    let kt = Seq::new(t.len(), |i: int| t[i].0);
    assert(ascending(ks)) by {
        assert forall|i: int, j: int| 0 <= i < j < ks.len() implies (#[trigger] ks[i]).precedes(
            #[trigger] ks[j],
        ) by {
            assert(s[i].0.precedes(s[j].0));
        }
    }
    assert(ascending(kt)) by {
        assert forall|i: int, j: int| 0 <= i < j < kt.len() implies (#[trigger] kt[i]).precedes(
            #[trigger] kt[j],
        ) by {
            assert(t[i].0.precedes(t[j].0));
        }
    }
    lemma_as_map_entries(s);
    lemma_as_map_entries(t);
    assert forall|a: Address| ks.to_set().contains(a) <==> kt.to_set().contains(a) by {
        if ks.contains(a) {
            let k = choose|k: int| 0 <= k < ks.len() && ks[k] == a;
            assert(as_map(s).contains_key(s[k].0));
            assert(has_key(t, a));
            assert(kt[slot(t, a)] == a);
        }
        if kt.contains(a) {
            let k = choose|k: int| 0 <= k < kt.len() && kt[k] == a;
            assert(as_map(t).contains_key(t[k].0));
            assert(has_key(s, a));
            assert(ks[slot(s, a)] == a);
        }
    }
    assert(ks.to_set() =~= kt.to_set());
    lemma_ascending_unique(ks, kt);
    assert(s.len() == t.len());
    assert forall|i: int| 0 <= i < s.len() implies s[i] == t[i] by {
        assert(ks[i] == kt[i]);
        assert(as_map(s)[s[i].0] == s[i].1);
        assert(as_map(t)[t[i].0] == t[i].1);
    }
    assert(s =~= t);
}

/// How many outstanding votes each validator has. A validator without votes
/// is not named, and the entries are held in byte order of the addresses, so
/// two equal tallies are equal values.
#[derive(Debug, PartialEq, Eq, Default)]
pub struct VoteCounts {
    entries: Vec<(Address, u64)>,
}

impl View for VoteCounts {
    type V = Map<Address, nat>;

    closed spec fn view(&self) -> Map<Address, nat> {
        as_map(self.entries@)
    }
}

impl Clone for VoteCounts {
    fn clone(&self) -> (r: VoteCounts)
        ensures
            r@ == self@,
            r.ordered() == self.ordered(),
    {
        proof {
            use_type_invariant(self);
        }
        let mut entries: Vec<(Address, u64)> = Vec::new();
        let mut i: usize = 0;
        while i < self.entries.len()
            invariant
                i <= self.entries@.len(),
                entries@ == self.entries@.subrange(0, i as int),
            decreases self.entries@.len() - i,
        {
            entries.push(self.entries[i]);
            assert(self.entries@.subrange(0, i as int).push(self.entries@[i as int])
                =~= self.entries@.subrange(0, i + 1));
            i = i + 1;
        }
        assert(entries@ =~= self.entries@);
        VoteCounts { entries }
    }
}

impl VoteCounts {
    #[verifier::type_invariant]
    spec fn in_order(self) -> bool {
        &&& keys_ascending(self.entries@)
        &&& forall|i: int| 0 <= i < self.entries@.len() ==> (#[trigger] self.entries@[i]).1 > 0
    }

    /// The entries in byte order of their addresses.
    pub closed spec fn ordered(&self) -> Seq<(Address, u64)> {
        self.entries@
    }

    /// The votes of `a`: none where it is not named.
    pub open spec fn count(&self, a: Address) -> nat {
        count_in(self@, a)
    }

    /// No votes at all.
    pub fn new() -> (r: VoteCounts)
        ensures
            r@ == Map::<Address, nat>::empty(),
    {
        let r = VoteCounts { entries: Vec::new() };
        assert(r@ =~= Map::<Address, nat>::empty());
        r
    }

    /// The number of validators with at least one vote. The entries in
    /// byte order spell the map, and every count in it is positive.
    pub fn len(&self) -> (n: usize)
        ensures
            n == self@.dom().len(),
            n == self.ordered().len(),
            self@.dom().finite(),
            self@ == as_map(self.ordered()),
            keys_ascending(self.ordered()),
            forall|a: Address| self@.contains_key(a) ==> 0 < #[trigger] self@[a] <= u64::MAX,
    {
        proof {
            use_type_invariant(self);
            lemma_as_map_len(self.entries@);
            lemma_as_map_entries(self.entries@);
            assert forall|a: Address| self@.contains_key(a) implies 0 < #[trigger] self@[a]
                <= u64::MAX by {
                let k = slot(self.entries@, a);
                assert(self.entries@[k].0 == a);
            }
        }
        self.entries.len()
    }

    /// The entry at place `i` in byte order.
    pub fn entry(&self, i: usize) -> (e: (Address, u64))
        requires
            i < self.ordered().len(),
        ensures
            e == self.ordered()[i as int],
            self@.contains_key(e.0),
            self@[e.0] == e.1,
    {
        proof {
            use_type_invariant(self);
            lemma_as_map_entries(self.entries@);
        }
        self.entries[i]
    }

    /// Whether `other` holds the same votes.
    pub fn same_as(&self, other: &VoteCounts) -> (r: bool)
        ensures
            r == (self@ == other@),
    {
        proof {
            use_type_invariant(self);
            use_type_invariant(other);
            if self@ == other@ {
                lemma_as_map_unique(self.entries@, other.entries@);
            }
        }
        let n: usize = self.entries.len();
        if other.entries.len() != n {
            return false;
        }
        let mut i: usize = 0;
        while i < n
            invariant
                i <= n,
                n == self.entries@.len(),
                n == other.entries@.len(),
                self@ == other@ ==> self.entries@ == other.entries@,
                forall|j: int| 0 <= j < i ==> self.entries@[j] == other.entries@[j],
            decreases n - i,
        {
            let mine = self.entries[i];
            let theirs = other.entries[i];
            if !(mine.0 == theirs.0 && mine.1 == theirs.1) {
                return false;
            }
            i = i + 1;
        }
        assert(self.entries@ =~= other.entries@);
        true
    }

    /// The place of the first entry whose key does not come before `a`, and
    /// whether that key is `a` itself.
    fn position(&self, a: &Address) -> (r: (usize, bool))
        ensures
            r.0 <= self.entries@.len(),
            forall|j: int| 0 <= j < r.0 ==> (#[trigger] self.entries@[j]).0.precedes(*a),
            forall|j: int|
                r.0 <= j < self.entries@.len() ==> !(#[trigger] self.entries@[j]).0.precedes(*a),
            r.1 == has_key(self.entries@, *a),
            r.1 ==> r.0 < self.entries@.len() && self.entries@[r.0 as int].0 == *a,
    {
        proof {
            use_type_invariant(self);
        }
        let n: usize = self.entries.len();
        let mut i: usize = 0;
        while i < n && self.entries[i].0.lt(a)
            invariant
                n == self.entries@.len(),
                i <= n,
                forall|j: int| 0 <= j < i ==> (#[trigger] self.entries@[j]).0.precedes(*a),
            decreases n - i,
        {
            i = i + 1;
        }
        let found = i < n && self.entries[i].0 == *a;
        proof {
            let s = self.entries@;
            assert forall|j: int| i <= j < s.len() implies !(#[trigger] s[j]).0.precedes(*a) by {
                if j > i {
                    assert(s[i as int].0.precedes(s[j].0));
                }
            }
            if found {
                assert(s[i as int].0 == *a);
            } else if has_key(s, *a) {
                let k = slot(s, *a);
                if k < i {
                    assert(s[k].0.precedes(*a));
                } else if k > i {
                    assert(s[i as int].0.precedes(s[k].0));
                }
            }
        }
        (i, found)
    }

    /// The votes of `a`; 0 where it has none.
    pub fn get(&self, a: &Address) -> (n: u64)
        ensures
            n == self.count(*a),
            (n > 0) == self@.contains_key(*a),
    {
        proof {
            use_type_invariant(self);
            lemma_as_map_entries(self.entries@);
        }
        let (p, found) = self.position(a);
        if found {
            self.entries[p].1
        } else {
            0
        }
    }

    /// Sets the votes of `a` to `n`; with `n == 0` it is no longer named.
    pub fn set(&mut self, a: Address, n: u64)
        ensures
            n == 0 ==> final(self)@ == old(self)@.remove(a),
            n > 0 ==> final(self)@ == old(self)@.insert(a, n as nat),
    {
        proof {
            use_type_invariant(&*self);
            lemma_as_map_entries(self.entries@);
        }
        let (p, found) = self.position(&a);
        let ghost before = self.entries@;
        let ghost m = as_map(before);
        let mut entries: Vec<(Address, u64)> = Vec::new();
        std::mem::swap(&mut entries, &mut self.entries);
        if found {
            if n == 0 {
                entries.remove(p);
                proof {
                    let after = entries@;
                    assert(after == before.remove(p as int));
                    assert forall|i: int, j: int| 0 <= i < j < after.len() implies (
                    #[trigger] after[i]).0.precedes((#[trigger] after[j]).0) by {
                        let i0 = if i < p { i } else { i + 1 };
                        let j0 = if j < p { j } else { j + 1 };
                        assert(before[i0].0.precedes(before[j0].0));
                    }
                    assert forall|i: int| 0 <= i < after.len() implies m.remove(a).contains_key(
                        (#[trigger] after[i]).0,
                    ) && m.remove(a)[after[i].0] == after[i].1 && after[i].1 > 0 by {
                        let i0 = if i < p { i } else { i + 1 };
                        assert(after[i] == before[i0]);
                        if i0 < p {
                            assert(before[i0].0.precedes(before[p as int].0));
                        } else {
                            assert(before[p as int].0.precedes(before[i0].0));
                        }
                    }
                    assert forall|x: Address| m.remove(a).contains_key(x) implies has_key(
                        after,
                        x,
                    ) by {
                        let k = slot(before, x);
                        assert(before[k].0 == x);
                        if k < p {
                            assert(after[k].0 == x);
                        } else {
                            assert(after[k - 1].0 == x);
                        }
                    }
                    lemma_as_map_is(after, m.remove(a));
                }
            } else {
                entries.set(p, (a, n));
                proof {
                    let after = entries@;
                    assert(after == before.update(p as int, (a, n)));
                    assert forall|i: int, j: int| 0 <= i < j < after.len() implies (
                    #[trigger] after[i]).0.precedes((#[trigger] after[j]).0) by {
                        assert(before[i].0.precedes(before[j].0));
                    }
                    assert forall|i: int| 0 <= i < after.len() implies m.insert(
                        a,
                        n as nat,
                    ).contains_key((#[trigger] after[i]).0) && m.insert(a, n as nat)[after[i].0]
                        == after[i].1 && after[i].1 > 0 by {
                        if i != p {
                            assert(after[i] == before[i]);
                            if i < p {
                                assert(before[i].0.precedes(before[p as int].0));
                            } else {
                                assert(before[p as int].0.precedes(before[i].0));
                            }
                        }
                    }
                    assert forall|x: Address| m.insert(a, n as nat).contains_key(x) implies has_key(
                        after,
                        x,
                    ) by {
                        if x == a {
                            assert(after[p as int].0 == x);
                        } else {
                            let k = slot(before, x);
                            assert(before[k].0 == x);
                            assert(after[k].0 == x);
                        }
                    }
                    lemma_as_map_is(after, m.insert(a, n as nat));
                }
            }
        } else {
            if n == 0 {
                proof {
                    assert(m.remove(a) =~= m);
                }
            } else {
                entries.insert(p, (a, n));
                proof {
                    let after = entries@;
                    assert(after == before.insert(p as int, (a, n)));
                    assert forall|j: int| p <= j < before.len() implies a.precedes(
                        (#[trigger] before[j]).0,
                    ) by {
                        assert(before[j].0 != a);
                    }
                    assert forall|i: int, j: int| 0 <= i < j < after.len() implies (
                    #[trigger] after[i]).0.precedes((#[trigger] after[j]).0) by {
                        if i < p && j > p {
                            assert(before[i].0.precedes(before[j - 1].0));
                        } else if i < p && j < p {
                            assert(before[i].0.precedes(before[j].0));
                        } else if i > p {
                            assert(before[i - 1].0.precedes(before[j - 1].0));
                        } else if i == p {
                            assert(a.precedes(before[j - 1].0));
                        }
                    }
                    assert forall|i: int| 0 <= i < after.len() implies m.insert(
                        a,
                        n as nat,
                    ).contains_key((#[trigger] after[i]).0) && m.insert(a, n as nat)[after[i].0]
                        == after[i].1 && after[i].1 > 0 by {
                        if i < p {
                            assert(after[i] == before[i]);
                        } else if i > p {
                            assert(after[i] == before[i - 1]);
                        }
                    }
                    assert forall|x: Address| m.insert(a, n as nat).contains_key(x) implies has_key(
                        after,
                        x,
                    ) by {
                        if x == a {
                            assert(after[p as int].0 == x);
                        } else {
                            let k = slot(before, x);
                            assert(before[k].0 == x);
                            if k < p {
                                assert(after[k].0 == x);
                            } else {
                                assert(after[k + 1].0 == x);
                            }
                        }
                    }
                    lemma_as_map_is(after, m.insert(a, n as nat));
                }
            }
        }
        self.entries = entries;
    }

    /// Gives `a` one more vote.
    pub fn increment(&mut self, a: Address)
        requires
            old(self).count(a) < u64::MAX,
        ensures
            final(self)@ == old(self)@.insert(a, old(self).count(a) + 1),
    {
        let n = self.get(&a);
        self.set(a, n + 1);
    }

    /// Withdraws one vote of `a`, which has one; with its last vote `a`
    /// is no longer named.
    pub fn decrement(&mut self, a: Address)
        requires
            old(self)@.contains_key(a),
        ensures
            old(self)@[a] <= 1 ==> final(self)@ == old(self)@.remove(a),
            old(self)@[a] > 1 ==> final(self)@ == old(self)@.insert(a, (old(self)@[a] - 1) as nat),
    {
        let n = self.get(&a);
        self.set(a, n - 1);
    }
}

/// Gives each of `signers` one more vote.
pub fn credit_signers(signers: &AddressSet, votes: &mut VoteCounts)
    requires
        forall|a: Address| signers@.contains(a) ==> old(votes).count(a) < u64::MAX,
    ensures
        final(votes)@ == with_votes(old(votes)@, signers@),
{
    let n: usize = signers.len();
    let ghost order = signers.ordered();
    let ghost start = votes@;
    let mut i: usize = 0;
    while i < n
        invariant
            i <= n == order.len(),
            order == signers.ordered(),
            order.to_set() == signers@,
            ascending(order),
            forall|a: Address| signers@.contains(a) ==> count_in(start, a) < u64::MAX,
            votes@ == with_votes(start, order.subrange(0, i as int).to_set()),
        decreases n - i,
    {
        let signer = signers.get(i);
        let ghost done = order.subrange(0, i as int);
        let ghost more = order.subrange(0, i + 1);
        proof {
            assert(!done.contains(signer)) by {
                if done.contains(signer) {
                    let k = choose|k: int| 0 <= k < done.len() && done[k] == signer;
                    assert(order[k].precedes(order[i as int]));
                }
            }
            assert(order.contains(signer));
        }
        votes.increment(signer);
        proof {
            assert forall|x: Address| more.to_set().contains(x) <==> done.to_set().insert(
                signer,
            ).contains(x) by {
                if more.contains(x) {
                    let k = choose|k: int| 0 <= k < more.len() && more[k] == x;
                    if k < i {
                        assert(done[k] == x);
                        assert(done.contains(x));
                    }
                }
                if done.contains(x) {
                    let k = choose|k: int| 0 <= k < done.len() && done[k] == x;
                    assert(more[k] == x);
                }
                if x == signer {
                    assert(more[i as int] == x);
                }
            }
            assert(more.to_set() =~= done.to_set().insert(signer));
            assert(votes@ =~= with_votes(start, more.to_set()));
        }
        i = i + 1;
    }
    assert(order.subrange(0, i as int) =~= order);
}

/// Gives each of `signers_to_add` one more vote, unless one of them is no
/// validator: then nothing changes.
pub fn add_signers_votes(
    validators: &AddressSet,
    signers_to_add: &AddressSet,
    votes: &mut VoteCounts,
) -> (r: Result<(), Error>)
    requires
        forall|a: Address| signers_to_add@.contains(a) ==> old(votes).count(a) < u64::MAX,
    ensures
        r is Ok <==> signers_to_add@.subset_of(validators@),
        r is Ok ==> final(votes)@ == with_votes(old(votes)@, signers_to_add@),
        r is Err ==> final(votes)@ == old(votes)@,
{
    let n: usize = signers_to_add.len();
    let ghost order = signers_to_add.ordered();
    let mut i: usize = 0;
    while i < n
        invariant
            i <= n == order.len(),
            order == signers_to_add.ordered(),
            order.to_set() == signers_to_add@,
            forall|j: int| 0 <= j < i ==> validators@.contains(#[trigger] order[j]),
        decreases n - i,
    {
        let signer = signers_to_add.get(i);
        if !validators.contains(&signer) {
            return Err(Error::NotValidator);
        }
        i = i + 1;
    }
    proof {
        assert forall|a: Address| signers_to_add@.contains(a) implies validators@.contains(a) by {
            assert(order.contains(a));
            let k = choose|k: int| 0 <= k < order.len() && order[k] == a;
            assert(validators@.contains(order[k]));
        }
    }
    credit_signers(signers_to_add, votes);
    Ok(())
}

/// Withdraws one vote of each of `signers_to_remove`, every one of which
/// has a vote.
pub fn remove_signers_votes(signers_to_remove: &AddressSet, votes: &mut VoteCounts)
    requires
        forall|a: Address| signers_to_remove@.contains(a) ==> old(votes)@.contains_key(a),
    ensures
        final(votes)@ == without_votes(old(votes)@, signers_to_remove@),
{
    let n: usize = signers_to_remove.len();
    let ghost order = signers_to_remove.ordered();
    let ghost start = votes@;
    let mut i: usize = 0;
    while i < n
        invariant
            i <= n == order.len(),
            order == signers_to_remove.ordered(),
            order.to_set() == signers_to_remove@,
            ascending(order),
            forall|a: Address| signers_to_remove@.contains(a) ==> start.contains_key(a),
            votes@ == without_votes(start, order.subrange(0, i as int).to_set()),
        decreases n - i,
    {
        let signer = signers_to_remove.get(i);
        let ghost done = order.subrange(0, i as int);
        let ghost more = order.subrange(0, i + 1);
        proof {
            assert(!done.contains(signer)) by {
                if done.contains(signer) {
                    let k = choose|k: int| 0 <= k < done.len() && done[k] == signer;
                    assert(order[k].precedes(order[i as int]));
                }
            }
            assert(order.contains(signer));
        }
        votes.decrement(signer);
        proof {
            assert forall|x: Address| more.to_set().contains(x) <==> done.to_set().insert(
                signer,
            ).contains(x) by {
                if more.contains(x) {
                    let k = choose|k: int| 0 <= k < more.len() && more[k] == x;
                    if k < i {
                        assert(done[k] == x);
                        assert(done.contains(x));
                    }
                }
                if done.contains(x) {
                    let k = choose|k: int| 0 <= k < done.len() && done[k] == x;
                    assert(more[k] == x);
                }
                if x == signer {
                    assert(more[i as int] == x);
                }
            }
            assert(more.to_set() =~= done.to_set().insert(signer));
            assert(votes@ =~= without_votes(start, more.to_set()));
        }
        i = i + 1;
    }
    assert(order.subrange(0, i as int) =~= order);
    proof {
        assert(Seq::<Address>::empty().to_set() =~= Set::<Address>::empty());
    }
}

} // verus!
