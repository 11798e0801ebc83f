//! A keyed account store: the initial snapshot handed to an executor and the
//! final state it returns, viewed in specifications as a `Map`.

use vstd::prelude::*;

use crate::types::{AccountState, Address};

verus! {

/// The map read off a sequence of key-value pairs, later pairs winning.
pub open spec fn map_of(s: Seq<(Address, AccountState)>) -> Map<Address, AccountState>
    decreases s.len(),
{
    if s.len() == 0 {
        Map::empty()
    } else {
        map_of(s.drop_last()).insert(s.last().0, s.last().1)
    }
}

/// No two pairs of `s` carry the same address.
pub open spec fn unique_keys(s: Seq<(Address, AccountState)>) -> bool {
    forall|i: int, j: int|
        0 <= i < s.len() && 0 <= j < s.len() && i != j ==> (#[trigger] s[i]).0 != (#[trigger] s[j]).0
}

pub proof fn lemma_map_of_contains(s: Seq<(Address, AccountState)>, a: Address)
    ensures
        map_of(s).dom().contains(a) <==> exists|i: int| 0 <= i < s.len() && (#[trigger] s[i]).0 == a,
    decreases s.len(),
{
    if s.len() > 0 {
        lemma_map_of_contains(s.drop_last(), a);
        if s.last().0 == a {
            assert(s[s.len() - 1].0 == a);
        } else if map_of(s).dom().contains(a) {
            let i = choose|i: int| 0 <= i < s.drop_last().len() && (#[trigger] s.drop_last()[i]).0 == a;
            assert(s[i].0 == a);
        } else {
            assert forall|i: int| 0 <= i < s.len() implies (#[trigger] s[i]).0 != a by {
                if i < s.len() - 1 {
                    assert(s.drop_last()[i] == s[i]);
                }
            }
        }
    }
}

pub proof fn lemma_map_of_get(s: Seq<(Address, AccountState)>, i: int)
    requires
        unique_keys(s),
        0 <= i < s.len(),
    ensures
        map_of(s).dom().contains(s[i].0),
        map_of(s)[s[i].0] == s[i].1,
    decreases s.len(),
{
    if i < s.len() - 1 {
        assert(s.drop_last()[i] == s[i]);
        assert(unique_keys(s.drop_last())) by {
            assert forall|p: int, q: int|
                0 <= p < s.drop_last().len() && 0 <= q < s.drop_last().len() && p != q implies (
            #[trigger] s.drop_last()[p]).0 != (#[trigger] s.drop_last()[q]).0 by {
                assert(s.drop_last()[p] == s[p]);
                assert(s.drop_last()[q] == s[q]);
            }
        }
        lemma_map_of_get(s.drop_last(), i);
        assert(s[s.len() - 1].0 != s[i].0);
    }
}

proof fn lemma_map_of_update(s: Seq<(Address, AccountState)>, i: int, v: AccountState)
    requires
        unique_keys(s),
        0 <= i < s.len(),
    ensures
        map_of(s.update(i, (s[i].0, v))) == map_of(s).insert(s[i].0, v),
    decreases s.len(),
{
    let a = s[i].0;
    let t = s.update(i, (a, v));
    if i == s.len() - 1 {
        assert(t.drop_last() =~= s.drop_last());
        assert(map_of(t) =~= map_of(s).insert(a, v));
    } else {
        assert(s.drop_last()[i] == s[i]);
        assert(unique_keys(s.drop_last())) by {
            assert forall|p: int, q: int|
                0 <= p < s.drop_last().len() && 0 <= q < s.drop_last().len() && p != q implies (
            #[trigger] s.drop_last()[p]).0 != (#[trigger] s.drop_last()[q]).0 by {
                assert(s.drop_last()[p] == s[p]);
                assert(s.drop_last()[q] == s[q]);
            }
        }
        lemma_map_of_update(s.drop_last(), i, v);
        assert(t.drop_last() =~= s.drop_last().update(i, (a, v)));
        assert(t.last() == s.last());
        assert(s.last().0 != a);
        assert(map_of(t) =~= map_of(s).insert(a, v));
    }
}

/// A finite store of account states keyed by address.
pub struct AccountMap {
    entries: Vec<(Address, AccountState)>,
}

impl View for AccountMap {
    type V = Map<Address, AccountState>;

    closed spec fn view(&self) -> Map<Address, AccountState> {
        map_of(self.entries@)
    }
}

impl AccountMap {
    /// Internal shape: no address appears twice.
    pub closed spec fn wf(self) -> bool {
        unique_keys(self.entries@)
    }

    /// An empty store.
    pub fn new() -> (r: AccountMap)
        ensures
            r.wf(),
            r@ == Map::<Address, AccountState>::empty(),
    {
        AccountMap { entries: Vec::new() }
    }

    /// Binds `a` to `st`, replacing any earlier binding.
    pub fn insert(&mut self, a: Address, st: AccountState)
        requires
            old(self).wf(),
        ensures
            final(self).wf(),
            final(self)@ == old(self)@.insert(a, st),
    {
        let n = self.entries.len();
        let ghost s = self.entries@;
        for i in 0..n
            invariant
                n == self.entries.len(),
                self.entries@ == s,
                s == old(self).entries@,
                old(self)@ == map_of(s),
                unique_keys(s),
                forall|j: int| 0 <= j < i ==> (#[trigger] s[j]).0 != a,
        {
            if self.entries[i].0 == a {
                self.entries.set(i, (a, st));
                proof {
                    lemma_map_of_update(s, i as int, st);
                    assert(self.entries@ =~= s.update(i as int, (a, st)));
                    assert forall|p: int, q: int|
                        0 <= p < self.entries@.len() && 0 <= q < self.entries@.len() && p != q implies (
                    #[trigger] self.entries@[p]).0 != (#[trigger] self.entries@[q]).0 by {
                        assert(self.entries@[p].0 == s[p].0);
                        assert(self.entries@[q].0 == s[q].0);
                    }
                }
                return ;
            }
        }
        self.entries.push((a, st));
        proof {
            assert(self.entries@.drop_last() =~= s);
            assert forall|p: int, q: int|
                0 <= p < self.entries@.len() && 0 <= q < self.entries@.len() && p != q implies (
            #[trigger] self.entries@[p]).0 != (#[trigger] self.entries@[q]).0 by {
                if p < s.len() && q < s.len() {
                    assert(s[p] == self.entries@[p]);
                    assert(s[q] == self.entries@[q]);
                }
            }
        }
    }

    /// The state bound to `a`, or `None` when the store does not mention it.
    pub fn get(&self, a: &Address) -> (r: Option<&AccountState>)
        requires
            self.wf(),
        ensures
            match r {
                Some(st) => self@.dom().contains(*a) && self@[*a] == *st,
                None => !self@.dom().contains(*a),
            },
    {
        let n = self.entries.len();
        for i in 0..n
            invariant
                n == self.entries.len(),
                unique_keys(self.entries@),
                forall|j: int| 0 <= j < i ==> (#[trigger] self.entries@[j]).0 != *a,
        {
            if self.entries[i].0 == *a {
                proof {
                    lemma_map_of_get(self.entries@, i as int);
                }
                return Some(&self.entries[i].1);
            }
        }
        proof {
            lemma_map_of_contains(self.entries@, *a);
        }
        None
    }

    /// The number of addresses the store mentions.
    pub fn len(&self) -> (r: usize)
        requires
            self.wf(),
        ensures
            r == self@.dom().len(),
    {
        proof {
            lemma_map_of_len(self.entries@);
        }
        self.entries.len()
    }

    /// The store holding exactly the given pairs.
    pub fn from_pairs(pairs: Vec<(Address, AccountState)>) -> (r: AccountMap)
        requires
            unique_keys(pairs@),
        ensures
            r.wf(),
            r@ == map_of(pairs@),
    {
        AccountMap { entries: pairs }
    }
}

proof fn lemma_map_of_len(s: Seq<(Address, AccountState)>)
    requires
        unique_keys(s),
    ensures
        map_of(s).dom().len() == s.len(),
        map_of(s).dom().finite(),
    decreases s.len(),
{
    if s.len() > 0 {
        assert forall|p: int, q: int|
            0 <= p < s.drop_last().len() && 0 <= q < s.drop_last().len() && p != q implies (
        #[trigger] s.drop_last()[p]).0 != (#[trigger] s.drop_last()[q]).0 by {
            assert(s.drop_last()[p] == s[p]);
            assert(s.drop_last()[q] == s[q]);
        }
        lemma_map_of_len(s.drop_last());
        lemma_map_of_contains(s.drop_last(), s.last().0);
        assert forall|i: int| 0 <= i < s.drop_last().len() implies (#[trigger] s.drop_last()[i]).0
            != s.last().0 by {
            assert(s.drop_last()[i] == s[i]);
        }
        assert(!map_of(s.drop_last()).dom().contains(s.last().0));
    }
}

} // verus!
