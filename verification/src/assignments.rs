//! The assignment map: variable name to boolean value, keys unique at the
//! model level. The search engine owns one such map per solve and the caller
//! reads the discovered witness back through it.

use vstd::prelude::*;

verus! {

/// The partial truth assignment built up during a solve, abstracted as a
/// map from variable name to boolean value. A later entry for the same
/// name overrides an earlier one, so the model is the usual map insert.
pub struct Assignments {
    entries: Vec<(String, bool)>,
}

/// The map an entry list denotes: inserts applied left to right.
spec fn map_of_entries(s: Seq<(String, bool)>) -> Map<Seq<char>, bool>
    decreases s.len(),
{
    if s.len() == 0 {
        Map::empty()
    } else {
        map_of_entries(s.drop_last()).insert(s.last().0@, s.last().1)
    }
}

impl View for Assignments {
    type V = Map<Seq<char>, bool>;

    closed spec fn view(&self) -> Map<Seq<char>, bool> {
        map_of_entries(self.entries@)
    }
}

/// Entries at positions `i` and beyond never bind `k`, so the map the whole
/// list denotes looks up `k` exactly as the map of the first `i` entries.
proof fn lemma_map_of_entries_skip(s: Seq<(String, bool)>, k: Seq<char>, i: int)
    requires
        0 <= i <= s.len(),
        forall|j: int| i <= j < s.len() ==> #[trigger] s[j].0@ != k,
    ensures
        map_of_entries(s).contains_key(k) == map_of_entries(s.take(i)).contains_key(k),
        map_of_entries(s).contains_key(k) ==> map_of_entries(s)[k] == map_of_entries(s.take(i))[k],
    decreases s.len() - i,
{
    if i == s.len() {
        assert(s.take(i) =~= s);
    } else {
        let shorter = s.drop_last();
        assert(s.last().0@ != k);
        assert(shorter.take(i) =~= s.take(i));
        lemma_map_of_entries_skip(shorter, k, i);
    }
}

impl Clone for Assignments {
    fn clone(&self) -> (r: Self)
        ensures
            r@ == self@,
    {
        let n = self.entries.len();
        let mut copied: Vec<(String, bool)> = Vec::new();
        let mut i: usize = 0;
        while i < n
            invariant
                0 <= i <= n,
                n == self.entries@.len(),
                copied@ =~= self.entries@.take(i as int),
            decreases n - i,
        {
            let name = self.entries[i].0.clone();
            let value = self.entries[i].1;
            copied.push((name, value));
            proof {
                assert(copied@ =~= self.entries@.take(i + 1));
            }
            i = i + 1;
        }
        proof {
            assert(copied@ =~= self.entries@);
        }
        Assignments { entries: copied }
    }
}

impl Assignments {
    /// The empty assignment: no variable has a value yet.
    pub fn new() -> (r: Assignments)
        ensures
            r@ == Map::<Seq<char>, bool>::empty(),
    {
        Assignments { entries: Vec::new() }
    }

    /// Record a value for a variable, overriding any earlier value.
    pub fn insert(&mut self, name: String, value: bool)
        ensures
            final(self)@ == old(self)@.insert(name@, value),
    {
        let ghost prev = self.entries@;
        let ghost k = name@;
        self.entries.push((name, value));
        proof {
            assert(self.entries@.drop_last() =~= prev);
            assert(self.entries@.last().0@ == k);
        }
    }

    /// Look a variable up: its recorded value, or `None` when unassigned.
    pub fn get(&self, name: &String) -> (r: Option<bool>)
        ensures
            r == if self@.dom().contains(name@) {
                Some(self@[name@])
            } else {
                None::<bool>
            },
    {
        let mut i: usize = self.entries.len();
        while i > 0
            invariant
                0 <= i <= self.entries@.len(),
                forall|j: int| i <= j < self.entries@.len() ==> #[trigger] self.entries@[j].0@ != name@,
            decreases i,
        {
            i = i - 1;
            if self.entries[i].0.eq(name) {
                proof {
                    lemma_map_of_entries_skip(self.entries@, name@, i + 1);
                    let front = self.entries@.take(i + 1);
                    assert(front.drop_last() =~= self.entries@.take(i as int));
                    assert(front.last() == self.entries@[i as int]);
                }
                return Some(self.entries[i].1);
            }
        }
        proof {
            lemma_map_of_entries_skip(self.entries@, name@, 0);
            assert(self.entries@.take(0) =~= Seq::<(String, bool)>::empty());
        }
        None
    }
}

} // verus!
