//! A set of capability names, kept in insertion order without repeats.
use vstd::prelude::*;

use crate::text::str_eq;

verus! {

/// A finite set of names. Each name occurs once; the order in which the
/// names were first added is kept.
#[derive(Debug)]
pub struct NameSet {
    names: Vec<String>,
}

/// The characters of each string in `v`.
pub open spec fn string_views(v: Seq<String>) -> Seq<Seq<char>> {
    v.map_values(|s: String| s@)
}

impl NameSet {
    #[verifier::type_invariant]
    closed spec fn distinct(self) -> bool {
        string_views(self.names@).no_duplicates()
    }

    /// The names, in the order in which they were first added.
    pub closed spec fn seq(&self) -> Seq<Seq<char>> {
        string_views(self.names@)
    }

    /// The empty set.
    pub fn new() -> (set: Self)
        ensures
            set.seq() == Seq::<Seq<char>>::empty(),
            set@ == Set::<Seq<char>>::empty(),
    {
        let set = NameSet { names: Vec::new() };
        assert(set.seq() =~= Seq::<Seq<char>>::empty());
        assert(set@ =~= Set::<Seq<char>>::empty());
        set
    }

    /// The number of names.
    pub fn len(&self) -> (n: usize)
        ensures
            n == self.seq().len(),
            self.seq().no_duplicates(),
            self@.len() == n,
    {
        proof {
            use_type_invariant(self);
            self.seq().unique_seq_to_set();
        }
        self.names.len()
    }

    /// The `i`-th name in insertion order.
    pub fn get(&self, i: usize) -> (name: &String)
        requires
            i < self.seq().len(),
        ensures
            name@ == self.seq()[i as int],
            self.seq().no_duplicates(),
    {
        proof {
            use_type_invariant(self);
        }
        &self.names[i]
    }

    /// Whether `name` is in the set.
    pub fn contains(&self, name: &str) -> (found: bool)
        ensures
            found == self@.contains(name@),
    {
        let n = self.names.len();
        let mut i: usize = 0;
        while i < n
            invariant
                n == self.names@.len(),
                i <= n,
                forall|k: int| 0 <= k < i ==> self.seq()[k] != name@,
            decreases n - i,
        {
            if str_eq(self.names[i].as_str(), name) {
                assert(self.seq()[i as int] == name@);
                return true;
            }
            i = i + 1;
        }
        assert(!self.seq().contains(name@));
        false
    }

    /// Adds `name` unless it is already there. Says whether it was added.
    pub fn insert(&mut self, name: String) -> (added: bool)
        ensures
            added == !old(self)@.contains(name@),
            final(self)@ == old(self)@.insert(name@),
            final(self).seq() == if added {
                old(self).seq().push(name@)
            } else {
                old(self).seq()
            },
    {
        proof {
            use_type_invariant(&*self);
        }
        if self.contains(name.as_str()) {
            assert(self@ =~= self@.insert(name@));
            false
        } else {
            let ghost before = self.seq();
            let mut names: Vec<String> = Vec::new();
            std::mem::swap(&mut names, &mut self.names);
            names.push(name);
            assert(string_views(names@) =~= before.push(name@));
            assert forall|p: int, q: int|
                0 <= p < names@.len() && 0 <= q < names@.len() && p != q implies
                string_views(names@)[p] != string_views(names@)[q] by {
                let sv = string_views(names@);
                if p < before.len() && q < before.len() {
                    assert(sv[p] == before[p] && sv[q] == before[q]);
                } else if p == before.len() {
                    assert(sv[q] == before[q]);
                    assert(before.contains(sv[q]));
                } else {
                    assert(sv[p] == before[p]);
                    assert(before.contains(sv[p]));
                }
            }
            self.names = names;
            assert(self.seq() =~= before.push(name@));
            assert(self@ =~= before.to_set().insert(name@)) by {
                assert forall|x: Seq<char>|
                    self.seq().contains(x) <==> before.contains(x) || x == name@ by {
                    if self.seq().contains(x) {
                        let k = choose|k: int| 0 <= k < self.seq().len() && self.seq()[k] == x;
                        if k < before.len() {
                            assert(before[k] == x);
                        }
                    }
                    if before.contains(x) {
                        let k = choose|k: int| 0 <= k < before.len() && before[k] == x;
                        assert(self.seq()[k] == x);
                    }
                    if x == name@ {
                        assert(self.seq()[before.len() as int] == x);
                    }
                }
            }
            true
        }
    }

    /// The set of the names in `names`, in order of first occurrence.
    pub fn from_names(names: Vec<String>) -> (set: Self)
        ensures
            set@ == string_views(names@).to_set(),
    {
        let mut set = NameSet::new();
        let n = names.len();
        let ghost all = string_views(names@);
        let mut i: usize = 0;
        while i < n
            invariant
                n == all.len(),
                all == string_views(names@),
                i <= n,
                set@ == all.take(i as int).to_set(),
            decreases n - i,
        {
            let name = names[i].clone();
            proof {
                assert(name@ == all[i as int]);
                assert(all.take(i + 1) =~= all.take(i as int).push(all[i as int]));
                lemma_push_to_set(all.take(i as int), all[i as int]);
            }
            set.insert(name);
            i = i + 1;
        }
        assert(all.take(n as int) =~= all);
        set
    }
}

impl View for NameSet {
    type V = Set<Seq<char>>;

    open spec fn view(&self) -> Set<Seq<char>> {
        self.seq().to_set()
    }
}

/// An element belongs to a sequence with `x` appended exactly when it
/// belongs to the sequence or is `x`.
pub proof fn lemma_push_contains<A>(s: Seq<A>, x: A, y: A)
    ensures
        s.push(x).contains(y) <==> s.contains(y) || y == x,
{
    if s.push(x).contains(y) {
        let k = choose|k: int| 0 <= k < s.push(x).len() && s.push(x)[k] == y;
        if k < s.len() {
            assert(s[k] == y);
        }
    }
    if s.contains(y) {
        let k = choose|k: int| 0 <= k < s.len() && s[k] == y;
        assert(s.push(x)[k] == y);
    }
    if y == x {
        assert(s.push(x)[s.len() as int] == y);
    }
}

/// Appending an element to a sequence adds it to the sequence's set.
pub proof fn lemma_push_to_set<A>(s: Seq<A>, x: A)
    ensures
        s.push(x).to_set() == s.to_set().insert(x),
{
    assert forall|y: A| #[trigger] s.push(x).to_set().contains(y) <==> s.to_set().insert(x).contains(y) by {
        lemma_push_contains(s, x, y);
        assert(s.push(x).to_set().contains(y) == s.push(x).contains(y));
        assert(s.to_set().contains(y) == s.contains(y));
    }
    assert(s.push(x).to_set() =~= s.to_set().insert(x));
}

} // verus!
