//! The hash tables the library looks names and numbers up in.

use vstd::prelude::*;

verus! {

/// A hash map from names to indices.
#[verifier::external_body]
pub struct Table {
    map: hashbrown::HashMap<String, usize>,
}

/// What a [`Table`] holds.
pub uninterp spec fn entries(t: Table) -> Map<Seq<char>, usize>;

impl Table {
    /// `hashbrown::HashMap::new` makes a map that holds nothing.
    #[verifier::external_body]
    pub(crate) fn new() -> (r: Table)
        ensures
            entries(r).dom() == Set::<Seq<char>>::empty(),
    {
        Table { map: hashbrown::HashMap::new() }
    }

    /// `hashbrown::HashMap::get` finds the value stored under an equal key,
    /// and nothing where there is none.
    #[verifier::external_body]
    pub(crate) fn get(&self, key: &str) -> (r: Option<usize>)
        ensures
            r == (if entries(*self).dom().contains(key@) {
                Some(entries(*self)[key@])
            } else {
                None
            }),
    {
        self.map.get(key).copied()
    }

    /// `hashbrown::HashMap::insert` stores a value under a key, in place of
    /// the one that was stored under it.
    #[verifier::external_body]
    pub(crate) fn insert(&mut self, key: String, value: usize)
        ensures
            entries(*final(self)) == entries(*old(self)).insert(key@, value),
    {
        self.map.insert(key, value);
    }
}

/// A hash map from numbers to indices.
#[verifier::external_body]
pub struct Links {
    map: hashbrown::HashMap<u64, usize>,
}

/// What a [`Links`] holds.
pub uninterp spec fn linked(t: Links) -> Map<u64, usize>;

impl Links {
    /// `hashbrown::HashMap::new` makes a map that holds nothing.
    #[verifier::external_body]
    pub(crate) fn new() -> (r: Links)
        ensures
            linked(r).dom() == Set::<u64>::empty(),
    {
        Links { map: hashbrown::HashMap::new() }
    }

    /// `hashbrown::HashMap::get` finds the value stored under an equal key,
    /// and nothing where there is none.
    #[verifier::external_body]
    pub(crate) fn get(&self, key: u64) -> (r: Option<usize>)
        ensures
            r == (if linked(*self).dom().contains(key) {
                Some(linked(*self)[key])
            } else {
                None
            }),
    {
        self.map.get(&key).copied()
    }

    /// `hashbrown::HashMap::insert` stores a value under a key, in place of
    /// the one that was stored under it.
    #[verifier::external_body]
    pub(crate) fn insert(&mut self, key: u64, value: usize)
        ensures
            linked(*final(self)) == linked(*old(self)).insert(key, value),
    {
        self.map.insert(key, value);
    }
}

/// The functions seen so far, told apart by crate and name and numbered in
/// the order in which they were first seen.
pub struct Groups {
    krates: Table,
    names: Vec<Table>,
    count: usize,
    keys: Ghost<Seq<(Seq<char>, Seq<char>)>>,
}

impl View for Groups {
    type V = Seq<(Seq<char>, Seq<char>)>;

    closed spec fn view(&self) -> Seq<(Seq<char>, Seq<char>)> {
        self.keys@
    }
}

impl Groups {
    spec fn knows(self, krate: Seq<char>, name: Seq<char>) -> bool {
        &&& entries(self.krates).dom().contains(krate)
        &&& entries(self.names@[entries(self.krates)[krate] as int]).dom().contains(name)
    }

    spec fn number(self, krate: Seq<char>, name: Seq<char>) -> usize {
        entries(self.names@[entries(self.krates)[krate] as int])[name]
    }

    #[verifier::type_invariant]
    spec fn wf(self) -> bool {
        &&& self.count == self.keys@.len()
        &&& forall|k: Seq<char>| #[trigger]
            entries(self.krates).dom().contains(k) ==> entries(self.krates)[k] < self.names@.len()
        &&& forall|j: Seq<char>, k: Seq<char>|
            #![trigger entries(self.krates)[j], entries(self.krates)[k]]
            entries(self.krates).dom().contains(j) && entries(self.krates).dom().contains(k)
                && entries(self.krates)[j] == entries(self.krates)[k] ==> j == k
        &&& forall|k: Seq<char>, n: Seq<char>| #[trigger]
            self.knows(k, n) ==> self.number(k, n) < self.keys@.len() && self.keys@[self.number(
                k,
                n,
            ) as int] == (k, n)
        &&& forall|i: int|
            0 <= i < self.keys@.len() ==> self.knows((#[trigger] self.keys@[i]).0, self.keys@[i].1)
                && self.number(self.keys@[i].0, self.keys@[i].1) == i
    }

    /// Starts with nothing seen.
    pub fn new() -> (r: Groups)
        ensures
            r@.len() == 0,
    {
        Groups { krates: Table::new(), names: Vec::new(), count: 0, keys: Ghost(Seq::empty()) }
    }

    /// The number of functions seen.
    pub fn len(&self) -> (r: usize)
        ensures
            r == self@.len(),
            self@.no_duplicates(),
    {
        proof {
            use_type_invariant(self);
        }
        self.count
    }

    /// The number of a function, if it has been seen.
    pub fn find(&self, krate: &str, name: &str) -> (r: Option<usize>)
        ensures
            match r {
                Some(i) => i < self@.len() && self@[i as int] == (krate@, name@),
                None => !self@.contains((krate@, name@)),
            },
    {
        proof {
            use_type_invariant(self);
        }
        match self.krates.get(krate) {
            Some(k) => match self.names[k].get(name) {
                Some(i) => {
                    assert(self.knows(krate@, name@));
                    Some(i)
                },
                None => {
                    proof {
                        if self@.contains((krate@, name@)) {
                            let i = choose|i: int|
                                0 <= i < self@.len() && self@[i] == (krate@, name@);
                            assert(self.knows(self.keys@[i].0, self.keys@[i].1));
                        }
                    }
                    None
                },
            },
            None => {
                proof {
                    if self@.contains((krate@, name@)) {
                        let i = choose|i: int| 0 <= i < self@.len() && self@[i] == (krate@, name@);
                        assert(self.knows(self.keys@[i].0, self.keys@[i].1));
                    }
                }
                None
            },
        }
    }

    /// The number of a function, which it is given if it has none yet.
    pub fn enter(self, krate: &str, name: &str) -> (r: (Groups, usize))
        requires
            self@.len() < usize::MAX,
        ensures
            r.1 < r.0@.len(),
            r.0@[r.1 as int] == (krate@, name@),
            r.0@ == (if self@.contains((krate@, name@)) {
                self@
            } else {
                self@.push((krate@, name@))
            }),
            !self@.contains((krate@, name@)) ==> r.1 == self@.len(),
            self@.no_duplicates(),
    {
        proof {
            use_type_invariant(&self);
        }
        match self.find(krate, name) {
            Some(i) => {
                assert(self@.contains((krate@, name@)));
                return (self, i);
            },
            None => {},
        }
        proof {
            use_type_invariant(&self);
        }
        let ghost before = self;
        let Groups { mut krates, mut names, count, keys } = self;
        let at: usize = match krates.get(krate) {
            Some(k) => k,
            None => {
                let fresh: usize = names.len();
                krates.insert(krate.to_owned(), fresh);
                names.push(Table::new());
                fresh
            },
        };
        names[at].insert(name.to_owned(), count);
        let ghost now = keys@.push((krate@, name@));
        proof {
            let g = Groups { krates, names, count: (count + 1) as usize, keys: Ghost(now) };
            assert forall|k: Seq<char>| #[trigger] entries(g.krates).dom().contains(k) implies entries(
                g.krates,
            )[k] < g.names@.len() by {
                if k != krate@ {
                    assert(entries(before.krates).dom().contains(k));
                }
            }
            assert forall|j: Seq<char>, k: Seq<char>|
                #![trigger entries(g.krates)[j], entries(g.krates)[k]]
                entries(g.krates).dom().contains(j) && entries(g.krates).dom().contains(k)
                    && entries(g.krates)[j] == entries(g.krates)[k] implies j == k by {
                if j != krate@ {
                    assert(entries(before.krates).dom().contains(j));
                    assert(entries(before.krates)[j] == entries(g.krates)[j]);
                }
                if k != krate@ {
                    assert(entries(before.krates).dom().contains(k));
                    assert(entries(before.krates)[k] == entries(g.krates)[k]);
                }
            }
            assert forall|k: Seq<char>, n: Seq<char>| (k, n) != (krate@, name@) implies #[trigger] g.knows(
                k,
                n,
            ) == before.knows(k, n) && (before.knows(k, n) ==> g.number(k, n) == before.number(
                k,
                n,
            )) by {
                if entries(before.krates).dom().contains(k) {
                    let i = entries(before.krates)[k];
                    assert(i < before.names@.len());
                    assert(entries(g.krates)[k] == i);
                    if k != krate@ {
                        assert(entries(g.krates)[krate@] == at);
                        assert(i != at);
                        assert(g.names@[i as int] == before.names@[i as int]);
                    }
                }
            }
            assert(g.knows(krate@, name@) && g.number(krate@, name@) == count);
            assert forall|i: int| 0 <= i < now.len() implies g.knows(
                (#[trigger] now[i]).0,
                now[i].1,
            ) && g.number(now[i].0, now[i].1) == i by {
                if i < keys@.len() {
                    assert(before.knows(keys@[i].0, keys@[i].1));
                    assert(now[i] == keys@[i]);
                    assert(now[i] != (krate@, name@)) by {
                        assert(before.keys@.contains(keys@[i]));
                    }
                }
            }
            assert(g.wf());
        }
        let made = Groups { krates, names, count: count + 1, keys: Ghost(now) };
        (made, count)
    }
}

} // verus!
