//! The set of marked paths, kept apart from any listing.
use vstd::prelude::*;

verus! {

/// A set of marked paths. Marks are keyed by path, so they outlive the
/// listing in which they were made.
// A `Vec` with a no-duplicates invariant stands in for a `HashSet`: vstd's
// `HashSet` contracts are given for keys with a known hash model, and with
// `String` keys they do not let Verus prove membership or size.
pub struct Selection {
    paths: Vec<String>,
}

impl View for Selection {
    type V = Set<Seq<char>>;

    open spec fn view(&self) -> Set<Seq<char>> {
        self.keys().to_set()
    }
}

impl Selection {
    /// The marked paths in the order in which they were marked.
    pub closed spec fn keys(&self) -> Seq<Seq<char>> {
        self.paths@.map_values(|p: String| p@)
    }

    /// No path is held twice.
    pub closed spec fn wf(&self) -> bool {
        self.keys().no_duplicates()
    }

    /// An empty selection.
    pub fn new() -> (r: Selection)
        ensures
            r.wf(),
            r@ == Set::<Seq<char>>::empty(),
    {
        let r = Selection { paths: Vec::new() };
        assert(r@ =~= Set::<Seq<char>>::empty());
        r
    }

    fn find(&self, p: &String) -> (r: Option<usize>)
        ensures
            match r {
                Some(k) => k < self.keys().len() && self.keys()[k as int] == p@,
                None => !self.keys().contains(p@),
            },
    {
        let mut k: usize = 0;
        while k < self.paths.len()
            invariant
                k <= self.paths@.len(),
                forall|i: int| 0 <= i < k ==> #[trigger] self.keys()[i] != p@,
            decreases self.paths@.len() - k,
        {
            if self.paths[k] == *p {
                return Some(k);
            }
            k = k + 1;
        }
        None
    }

    /// Whether `p` is marked.
    pub fn contains(&self, p: &String) -> (r: bool)
        ensures
            r == self@.contains(p@),
    {
        self.find(p).is_some()
    }

    /// How many paths are marked.
    pub fn count(&self) -> (r: usize)
        requires
            self.wf(),
        ensures
            r == self@.len(),
    {
        proof {
            self.keys().unique_seq_to_set();
        }
        self.paths.len()
    }

    /// Marks `p` if it was not marked, unmarks it if it was.
    pub fn toggle(&mut self, p: String)
        requires
            old(self).wf(),
        ensures
            final(self).wf(),
            final(self)@ == if old(self)@.contains(p@) {
                old(self)@.remove(p@)
            } else {
                old(self)@.insert(p@)
            },
    {
        let ghost old_keys = self.keys();
        match self.find(&p) {
            Some(k) => {
                self.paths.remove(k);
                proof {
                    let nk = self.keys();
                    assert(nk =~= old_keys.remove(k as int));
                    assert(self@ =~= old_keys.to_set().remove(p@)) by {
                        assert forall|v: Seq<char>| self@.contains(v) implies v != p@ && old_keys.contains(v) by {
                            let i = choose|i: int| 0 <= i < nk.len() && nk[i] == v;
                            if i < k {
                                assert(old_keys[i] == v);
                            } else {
                                assert(old_keys[i + 1] == v);
                            }
                        }
                        assert forall|v: Seq<char>| v != p@ && old_keys.contains(v) implies self@.contains(v) by {
                            let i = choose|i: int| 0 <= i < old_keys.len() && old_keys[i] == v;
                            if i < k {
                                assert(nk[i] == v);
                            } else {
                                assert(nk[i - 1] == v);
                            }
                        }
                    }
                }
            },
            None => {
                self.paths.push(p);
                proof {
                    assert(self.keys() =~= old_keys.push(p@));
                    assert(self@ =~= old_keys.to_set().insert(p@)) by {
                        assert(self.keys()[old_keys.len() as int] == p@);
                        assert forall|v: Seq<char>| self@.contains(v) implies v == p@ || old_keys.contains(v) by {
                            let i = choose|i: int| 0 <= i < self.keys().len() && self.keys()[i] == v;
                            if i < old_keys.len() {
                                assert(old_keys[i] == v);
                            }
                        }
                        assert forall|v: Seq<char>| old_keys.contains(v) implies self@.contains(v) by {
                            let i = choose|i: int| 0 <= i < old_keys.len() && old_keys[i] == v;
                            assert(self.keys()[i] == v);
                        }
                    }
                }
            },
        }
    }
}

} // verus!
