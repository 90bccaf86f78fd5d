//! A finite set of account identifiers, kept in increasing order.

use crate::keys::{increasing, lemma_take_next_set};
use crate::str_map::{lemma_increasing_unique, StrMap};
use vstd::prelude::*;

verus! {

/// The views of the strings of `items`, in the same order.
pub open spec fn views_of(items: Seq<String>) -> Seq<Seq<char>> {
    Seq::new(items.len(), |i: int| items[i]@)
}

/// A finite set of account identifiers.
#[derive(Debug)]
pub struct AccountSet {
    members: StrMap<()>,
}

impl View for AccountSet {
    type V = Set<Seq<char>>;

    closed spec fn view(&self) -> Set<Seq<char>> {
        self.members@.dom()
    }
}

impl AccountSet {
    /// The members of the set, in increasing order.
    pub closed spec fn order(&self) -> Seq<Seq<char>> {
        self.members.key_order()
    }

    /// What `order` has to do with the view: it is increasing and holds the
    /// members of the set, each once.
    pub open spec fn walkable(&self) -> bool {
        &&& increasing(self.order())
        &&& self@ == self.order().to_set()
        &&& self@.finite()
        &&& self@.len() == self.order().len()
        &&& forall|i: int| 0 <= i < self.order().len() ==> self@.contains(#[trigger] self.order()[i])
    }

    /// An empty set.
    pub fn new() -> (set: Self)
        ensures
            set@ == Set::<Seq<char>>::empty(),
    {
        let set = AccountSet { members: StrMap::new() };
        assert(set@ =~= Set::<Seq<char>>::empty());
        set
    }

    /// The number of members.
    pub fn len(&self) -> (n: usize)
        ensures
            n == self@.len(),
            self.walkable(),
    {
        self.members.len()
    }

    /// Whether the set has no member.
    pub fn is_empty(&self) -> (empty: bool)
        ensures
            empty == (self@ == Set::<Seq<char>>::empty()),
    {
        let empty = self.members.is_empty();
        proof {
            if empty {
                assert(self@ =~= Set::<Seq<char>>::empty());
            } else {
                assert(self.members@.dom() != Map::<Seq<char>, ()>::empty().dom()) by {
                    if self.members@.dom() == Map::<Seq<char>, ()>::empty().dom() {
                        assert(self.members@ =~= Map::<Seq<char>, ()>::empty());
                    }
                }
            }
        }
        empty
    }

    /// Whether `account` is a member.
    pub fn contains(&self, account: &str) -> (held: bool)
        ensures
            held == self@.contains(account@),
    {
        self.members.contains_key(account)
    }

    /// The member at index `i` of the order.
    pub fn get(&self, i: usize) -> (account: &String)
        requires
            i < self@.len(),
        ensures
            account@ == self.order()[i as int],
            self@.contains(account@),
            self.walkable(),
    {
        self.members.key_at(i)
    }

    /// Adds `account` and says whether it was new.
    pub fn insert(&mut self, account: String) -> (added: bool)
        ensures
            final(self)@ == old(self)@.insert(account@),
            added == !old(self)@.contains(account@),
    {
        let previous = self.members.insert(account, ());
        assert(self@ =~= old(self)@.insert(account@));
        previous.is_none()
    }

    /// Takes `account` out and says whether it was a member.
    pub fn remove(&mut self, account: &str) -> (removed: bool)
        ensures
            final(self)@ == old(self)@.remove(account@),
            removed == old(self)@.contains(account@),
    {
        let previous = self.members.remove(account);
        assert(self@ =~= old(self)@.remove(account@));
        previous.is_some()
    }

    /// Adds every member of `other`.
    pub fn union_with(&mut self, other: &AccountSet)
        ensures
            final(self)@ == old(self)@.union(other@),
    {
        let n = other.len();
        let mut i: usize = 0;
        while i < n
            invariant
                i <= n,
                n == other@.len(),
                other.walkable(),
                self@ == old(self)@.union(other.order().take(i as int).to_set()),
            decreases n - i,
        {
            let account = other.get(i).clone();
            self.insert(account);
            proof {
                lemma_take_next_set(other.order(), i as int);
                assert(self@ =~= old(self)@.union(other.order().take(i + 1).to_set()));
            }
            i += 1;
        }
        proof {
            assert(other.order().take(n as int) =~= other.order());
        }
    }

    /// The set of the strings in `accounts`.
    pub fn from_vec(accounts: &Vec<String>) -> (set: Self)
        ensures
            set@ == views_of(accounts@).to_set(),
    {
        let mut set = AccountSet::new();
        let n = accounts.len();
        let mut i: usize = 0;
        while i < n
            invariant
                i <= n,
                n == accounts@.len(),
                set@ == views_of(accounts@).take(i as int).to_set(),
            decreases n - i,
        {
            set.insert(accounts[i].clone());
            proof {
                lemma_take_next_set(views_of(accounts@), i as int);
            }
            i += 1;
        }
        proof {
            assert(views_of(accounts@).take(n as int) =~= views_of(accounts@));
        }
        set
    }

    /// The members as strings, in increasing order.
    pub fn to_vec(&self) -> (accounts: Vec<String>)
        ensures
            views_of(accounts@) == self.order(),
            self.walkable(),
    {
        let n = self.len();
        let mut accounts: Vec<String> = Vec::new();
        let mut i: usize = 0;
        while i < n
            invariant
                i <= n,
                n == self@.len(),
                self.walkable(),
                accounts@.len() == i,
                forall|j: int| 0 <= j < i ==> (#[trigger] accounts@[j])@ == self.order()[j],
            decreases n - i,
        {
            accounts.push(self.get(i).clone());
            i += 1;
        }
        assert(views_of(accounts@) =~= self.order());
        accounts
    }

    /// Whether both sets have the same members.
    pub fn same_as(&self, other: &AccountSet) -> (same: bool)
        ensures
            same == (self@ == other@),
    {
        let n = self.len();
        if other.len() != n {
            return false;
        }
        let mut i: usize = 0;
        while i < n
            invariant
                i <= n,
                n == self@.len(),
                n == other@.len(),
                self.walkable(),
                other.walkable(),
                forall|j: int| 0 <= j < i ==> self.order()[j] == other.order()[j],
            decreases n - i,
        {
            let equal = *self.get(i) == *other.get(i);
            if !equal {
                proof {
                    if self@ == other@ {
                        lemma_increasing_unique(self.order(), other.order());
                    }
                }
                return false;
            }
            i += 1;
        }
        proof {
            assert(self.order() =~= other.order());
        }
        true
    }
}

impl Clone for AccountSet {
    fn clone(&self) -> (copy: Self)
        ensures
            copy@ == self@,
    {
        let mut copy = AccountSet::new();
        copy.union_with(self);
        assert(copy@ =~= self@);
        copy
    }
}

impl Default for AccountSet {
    fn default() -> (set: Self)
        ensures
            set@ == Set::<Seq<char>>::empty(),
    {
        AccountSet::new()
    }
}

impl PartialEq for AccountSet {
    fn eq(&self, other: &Self) -> (same: bool) {
        self.same_as(other)
    }
}

impl vstd::std_specs::cmp::PartialEqSpecImpl for AccountSet {
    open spec fn obeys_eq_spec() -> bool {
        true
    }

    open spec fn eq_spec(&self, other: &Self) -> bool {
        self@ == other@
    }
}

} // verus!
