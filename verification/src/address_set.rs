//! A set of addresses, kept in byte order.

use crate::primitives::Address;
use vstd::prelude::*;

verus! {

/// Each address comes before every later one in byte order.
pub open spec fn ascending(s: Seq<Address>) -> bool {
    forall|i: int, j: int| 0 <= i < j < s.len() ==> (#[trigger] s[i]).precedes(#[trigger] s[j])
}

/// A sequence in byte order holds no address twice, so it is as long as the
/// set of its members is large.
pub proof fn lemma_ascending_len(s: Seq<Address>)
    requires
        ascending(s),
    ensures
        s.no_duplicates(),
        s.to_set().finite(),
        s.to_set().len() == s.len(),
{
    vstd::seq_lib::seq_to_set_is_finite(s);
    assert(s.no_duplicates()) by {
        assert forall|i: int, j: int| 0 <= i < s.len() && 0 <= j < s.len() && i != j implies s[i]
            != s[j] by {
            if i < j {
                assert(s[i].precedes(s[j]));
            } else {
                assert(s[j].precedes(s[i]));
            }
        }
    }
    s.unique_seq_to_set();
}

/// Two sequences in byte order with the same members are the same sequence.
pub proof fn lemma_ascending_unique(s: Seq<Address>, t: Seq<Address>)
    requires
        ascending(s),
        ascending(t),
        s.to_set() == t.to_set(),
    ensures
        s == t,
    decreases s.len(),
{
    lemma_ascending_len(s);
    lemma_ascending_len(t);
    if s.len() > 0 {
        let a = s.last();
        let b = t.last();
        assert(s.contains(a));
        assert(t.contains(b));
        assert(t.to_set().contains(a));
        assert(s.to_set().contains(b));
        let i = choose|i: int| 0 <= i < t.len() && t[i] == a;
        let j = choose|j: int| 0 <= j < s.len() && s[j] == b;
        if i < t.len() - 1 {
            assert(t[i].precedes(t[t.len() - 1]));
        }
        if j < s.len() - 1 {
            assert(s[j].precedes(s[s.len() - 1]));
        }
        assert(a == b);
        let s0 = s.drop_last();
        let t0 = t.drop_last();
        assert forall|x: Address| s0.to_set().contains(x) <==> t0.to_set().contains(x) by {
            if s0.contains(x) {
                let k = choose|k: int| 0 <= k < s0.len() && s0[k] == x;
                assert(s[k].precedes(s[s.len() - 1]));
                assert(s.contains(x));
                assert(t.to_set().contains(x));
                let m = choose|m: int| 0 <= m < t.len() && t[m] == x;
                assert(t0[m] == x);
            }
            if t0.contains(x) {
                let k = choose|k: int| 0 <= k < t0.len() && t0[k] == x;
                assert(t[k].precedes(t[t.len() - 1]));
                assert(t.contains(x));
                assert(s.to_set().contains(x));
                let m = choose|m: int| 0 <= m < s.len() && s[m] == x;
                assert(s0[m] == x);
            }
        }
        assert(s0.to_set() =~= t0.to_set());
        lemma_ascending_unique(s0, t0);
        assert(s =~= s0.push(a));
        assert(t =~= t0.push(b));
    } else {
        assert(t.len() == 0);
        assert(s =~= t);
    }
}

/// A finite set of addresses. Its members are held in byte order, so two
/// equal sets are equal values.
#[derive(Debug, PartialEq, Eq, Default)]
pub struct AddressSet {
    items: Vec<Address>,
}

impl View for AddressSet {
    type V = Set<Address>;

    closed spec fn view(&self) -> Set<Address> {
        self.items@.to_set()
    }
}

impl Clone for AddressSet {
    fn clone(&self) -> (r: AddressSet)
        ensures
            r@ == self@,
            r.ordered() == self.ordered(),
    {
        proof {
            use_type_invariant(self);
        }
        let mut items: Vec<Address> = Vec::new();
        let mut i: usize = 0;
        while i < self.items.len()
            invariant
                i <= self.items@.len(),
                items@ == self.items@.subrange(0, i as int),
            decreases self.items@.len() - i,
        {
            items.push(self.items[i]);
            assert(self.items@.subrange(0, i as int).push(self.items@[i as int])
                =~= self.items@.subrange(0, i + 1));
            i = i + 1;
        }
        assert(items@ =~= self.items@);
        AddressSet { items }
    }
}

impl AddressSet {
    #[verifier::type_invariant]
    spec fn in_order(self) -> bool {
        ascending(self.items@)
    }

    /// The members in byte order.
    pub closed spec fn ordered(&self) -> Seq<Address> {
        self.items@
    }

    /// The empty set.
    pub fn new() -> (r: AddressSet)
        ensures
            r@ == Set::<Address>::empty(),
            r.ordered() == Seq::<Address>::empty(),
    {
        let r = AddressSet { items: Vec::new() };
        assert(r.items@.to_set() =~= Set::<Address>::empty());
        r
    }

    /// The number of members. The members in byte order are exactly the
    /// set, each once.
    pub fn len(&self) -> (n: usize)
        ensures
            n == self@.len(),
            n == self.ordered().len(),
            self@.finite(),
            self.ordered().to_set() == self@,
            ascending(self.ordered()),
    {
        proof {
            use_type_invariant(self);
            lemma_ascending_len(self.items@);
        }
        self.items.len()
    }

    /// The member at place `i` in byte order.
    pub fn get(&self, i: usize) -> (a: Address)
        requires
            i < self.ordered().len(),
        ensures
            a == self.ordered()[i as int],
            self@.contains(a),
    {
        assert(self.items@.contains(self.items@[i as int]));
        self.items[i]
    }

    /// The place of the first member that does not come before `a`, and
    /// whether that member is `a` itself.
    fn position(&self, a: &Address) -> (r: (usize, bool))
        ensures
            r.0 <= self.items@.len(),
            forall|j: int| 0 <= j < r.0 ==> (#[trigger] self.items@[j]).precedes(*a),
            forall|j: int| r.0 <= j < self.items@.len() ==> !(#[trigger] self.items@[j]).precedes(*a),
            r.1 == self@.contains(*a),
            r.1 ==> r.0 < self.items@.len() && self.items@[r.0 as int] == *a,
    {
        proof {
            use_type_invariant(self);
        }
        let n: usize = self.items.len();
        let mut i: usize = 0;
        while i < n && self.items[i].lt(a)
            invariant
                n == self.items@.len(),
                i <= n,
                forall|j: int| 0 <= j < i ==> (#[trigger] self.items@[j]).precedes(*a),
            decreases n - i,
        {
            i = i + 1;
        }
        let found = i < n && self.items[i] == *a;
        proof {
            assert forall|j: int| i <= j < self.items@.len() implies !(
            #[trigger] self.items@[j]).precedes(*a) by {
                if j > i {
                    assert(self.items@[i as int].precedes(self.items@[j]));
                }
            }
            if found {
                assert(self.items@.contains(*a));
            } else if self.items@.contains(*a) {
                let k = choose|k: int| 0 <= k < self.items@.len() && self.items@[k] == *a;
                if k < i {
                    assert(self.items@[k].precedes(*a));
                } else if k > i {
                    assert(self.items@[i as int].precedes(self.items@[k]));
                }
            }
        }
        (i, found)
    }

    /// Whether `a` is a member.
    pub fn contains(&self, a: &Address) -> (r: bool)
        ensures
            r == self@.contains(*a),
    {
        self.position(a).1
    }

    /// Adds `a`; says whether it was new.
    pub fn insert(&mut self, a: Address) -> (added: bool)
        ensures
            final(self)@ == old(self)@.insert(a),
            added == !old(self)@.contains(a),
    {
        proof {
            use_type_invariant(&*self);
        }
        let (p, found) = self.position(&a);
        if found {
            assert(self@.insert(a) =~= self@);
            false
        } else {
            let ghost before = self.items@;
            let mut items: Vec<Address> = Vec::new();
            std::mem::swap(&mut items, &mut self.items);
            items.insert(p, a);
            proof {
                let after = items@;
                assert(after == before.insert(p as int, a));
                assert(!before.contains(a));
                assert forall|j: int| p <= j < before.len() implies a.precedes(
                    #[trigger] before[j],
                ) by {
                    assert(before.contains(before[j]));
                }
                assert forall|i: int, j: int| 0 <= i < j < after.len() implies (
                #[trigger] after[i]).precedes(#[trigger] after[j]) by {
                    if i < p && j > p {
                        assert(before[i].precedes(before[j - 1]));
                    } else if i < p && j < p {
                        assert(before[i].precedes(before[j]));
                    } else if i > p {
                        assert(before[i - 1].precedes(before[j - 1]));
                    } else if i == p {
                        assert(a.precedes(before[j - 1]));
                    }
                }
                assert forall|x: Address| after.to_set().contains(x) <==> before.to_set().insert(
                    a,
                ).contains(x) by {
                    if after.contains(x) {
                        let k = choose|k: int| 0 <= k < after.len() && after[k] == x;
                        if k < p {
                            assert(before[k] == x);
                            assert(before.contains(x));
                        } else if k > p {
                            assert(before[k - 1] == x);
                            assert(before.contains(x));
                        }
                    }
                    if before.contains(x) {
                        let k = choose|k: int| 0 <= k < before.len() && before[k] == x;
                        if k < p {
                            assert(after[k] == x);
                        } else {
                            assert(after[k + 1] == x);
                        }
                    }
                    if x == a {
                        assert(after[p as int] == x);
                    }
                }
                assert(after.to_set() =~= before.to_set().insert(a));
            }
            self.items = items;
            true
        }
    }

    /// The set of the addresses in `addrs`.
    pub fn from_slice(addrs: &[Address]) -> (r: AddressSet)
        ensures
            r@ == addrs@.to_set(),
    {
        let mut out = AddressSet::new();
        let mut i: usize = 0;
        while i < addrs.len()
            invariant
                i <= addrs@.len(),
                out@ == addrs@.subrange(0, i as int).to_set(),
            decreases addrs@.len() - i,
        {
            let ghost seen = addrs@.subrange(0, i as int);
            out.insert(addrs[i]);
            proof {
                let more = addrs@.subrange(0, i + 1);
                assert(more =~= seen.push(addrs@[i as int]));
                assert forall|x: Address| more.to_set().contains(x) <==> seen.to_set().insert(
                    addrs@[i as int],
                ).contains(x) by {
                    if more.contains(x) {
                        let k = choose|k: int| 0 <= k < more.len() && more[k] == x;
                        if k < i {
                            assert(seen[k] == x);
                            assert(seen.contains(x));
                        }
                    }
                    if seen.contains(x) {
                        let k = choose|k: int| 0 <= k < seen.len() && seen[k] == x;
                        assert(more[k] == x);
                    }
                    if x == addrs@[i as int] {
                        assert(more[i as int] == x);
                    }
                }
                assert(more.to_set() =~= seen.to_set().insert(addrs@[i as int]));
            }
            i = i + 1;
        }
        assert(addrs@.subrange(0, i as int) =~= addrs@);
        out
    }
}

} // verus!
