//! A model of the filesystem namespace that a rename batch touches: a finite
//! map from path strings to file identities. A move transfers the identity at
//! one path to another, so "no data loss" and "no silent overwrite" are
//! statements about this map.

use vstd::prelude::*;

verus! {

/// Move the entry at `src` to `dst`: what one atomic rename does to the
/// namespace.
pub open spec fn map_move(m: Map<Seq<char>, u64>, src: Seq<char>, dst: Seq<char>) -> Map<
    Seq<char>,
    u64,
> {
    m.remove(src).insert(dst, m[src])
}

/// The map that a sequence of `(path, identity)` entries denotes; a later
/// entry for the same path wins.
pub closed spec fn pairs_map(s: Seq<(String, u64)>) -> Map<Seq<char>, u64>
    decreases s.len(),
{
    if s.len() == 0 {
        Map::empty()
    } else {
        pairs_map(s.drop_last()).insert(s.last().0@, s.last().1)
    }
}

/// Entry paths are pairwise distinct.
spec fn wf_pairs(s: Seq<(String, u64)>) -> bool {
    forall|i: int, j: int| 0 <= i < j < s.len() ==> s[i].0@ != s[j].0@
}

/// Membership and lookup in `pairs_map`, in terms of the entry sequence.
proof fn lemma_pairs_map_props(s: Seq<(String, u64)>)
    ensures
        forall|p: Seq<char>|
            #[trigger] pairs_map(s).dom().contains(p) <==> exists|i: int|
                0 <= i < s.len() && s[i].0@ == p,
        wf_pairs(s) ==> forall|i: int|
            0 <= i < s.len() ==> #[trigger] pairs_map(s)[s[i].0@] == s[i].1,
    decreases s.len(),
{
    if s.len() > 0 {
        let s0 = s.drop_last();
        lemma_pairs_map_props(s0);
        assert forall|p: Seq<char>| #[trigger]
            pairs_map(s).dom().contains(p) implies exists|i: int|
            0 <= i < s.len() && s[i].0@ == p by {
            if p == s.last().0@ {
                assert(s[s.len() - 1].0@ == p);
            } else {
                assert(pairs_map(s0).dom().contains(p));
                let i = choose|i: int| 0 <= i < s0.len() && s0[i].0@ == p;
                assert(s[i].0@ == p);
            }
        }
        assert forall|p: Seq<char>|
            (exists|i: int| 0 <= i < s.len() && s[i].0@ == p) implies #[trigger] pairs_map(
            s,
        ).dom().contains(p) by {
            let i = choose|i: int| 0 <= i < s.len() && s[i].0@ == p;
            if i < s.len() - 1 {
                assert(s0[i].0@ == p);
                assert(pairs_map(s0).dom().contains(p));
            }
        }
        if wf_pairs(s) {
            assert forall|i: int| 0 <= i < s.len() implies #[trigger] pairs_map(s)[s[i].0@]
                == s[i].1 by {
                if i < s.len() - 1 {
                    assert(s0[i].0@ == s[i].0@ && s0[i].1 == s[i].1);
                    assert(s[i].0@ != s.last().0@);
                    assert(pairs_map(s0)[s0[i].0@] == s0[i].1);
                }
            }
        }
    }
}

/// Replacing the entry at `i` removes its old path and binds the new one,
/// provided no other entry holds the new path.
proof fn lemma_pairs_map_update(s: Seq<(String, u64)>, i: int, e: (String, u64))
    requires
        wf_pairs(s),
        0 <= i < s.len(),
        forall|x: int| 0 <= x < s.len() && x != i ==> s[x].0@ != e.0@,
    ensures
        wf_pairs(s.update(i, e)),
        pairs_map(s.update(i, e)) == pairs_map(s).remove(s[i].0@).insert(e.0@, e.1),
{
    let ns = s.update(i, e);
    lemma_pairs_map_props(s);
    lemma_pairs_map_props(ns);
    let rhs = pairs_map(s).remove(s[i].0@).insert(e.0@, e.1);
    assert forall|p: Seq<char>| pairs_map(ns).dom().contains(p) implies rhs.dom().contains(
        p,
    ) by {
        let x = choose|x: int| 0 <= x < ns.len() && ns[x].0@ == p;
        if x != i {
            assert(s[x].0@ == p);
            assert(pairs_map(s).dom().contains(p));
        }
    }
    assert forall|p: Seq<char>| rhs.dom().contains(p) implies pairs_map(ns).dom().contains(
        p,
    ) by {
        if p == e.0@ {
            assert(ns[i].0@ == p);
        } else {
            let x = choose|x: int| 0 <= x < s.len() && s[x].0@ == p;
            assert(x != i);
            assert(ns[x].0@ == p);
        }
    }
    assert forall|p: Seq<char>| pairs_map(ns).dom().contains(p) implies pairs_map(ns)[p]
        == rhs[p] by {
        if p == e.0@ {
            assert(ns[i].0@ == p && ns[i].1 == e.1);
            assert(pairs_map(ns)[p] == e.1);
        } else {
            let x = choose|x: int| 0 <= x < ns.len() && ns[x].0@ == p;
            assert(x != i);
            assert(s[x].0@ == p && s[x].1 == ns[x].1);
            assert(pairs_map(ns)[ns[x].0@] == ns[x].1);
            assert(pairs_map(s)[s[x].0@] == s[x].1);
        }
    }
    assert(pairs_map(ns) =~= rhs);
}

/// The filesystem namespace a batch works in, as explicit state: which paths
/// exist, and the identity of the file at each.
pub struct FsModel {
    files: Vec<(String, u64)>,
}

impl View for FsModel {
    type V = Map<Seq<char>, u64>;

    closed spec fn view(&self) -> Map<Seq<char>, u64> {
        pairs_map(self.files@)
    }
}

impl FsModel {
    /// The entries hold pairwise distinct paths, so lookups are unambiguous.
    pub closed spec fn wf(&self) -> bool {
        wf_pairs(self.files@)
    }

    /// A namespace with no files.
    pub fn empty() -> (r: Self)
        ensures
            r.wf(),
            r@ == Map::<Seq<char>, u64>::empty(),
    {
        FsModel { files: Vec::new() }
    }

    /// An identical copy of the namespace value.
    pub fn duplicate(&self) -> (r: Self)
        ensures
            r@ == self@,
            r.wf() <==> self.wf(),
    {
        let n = self.files.len();
        let mut out: Vec<(String, u64)> = Vec::new();
        let mut i: usize = 0;
        while i < n
            invariant
                i <= n,
                n == self.files@.len(),
                out@ == self.files@.subrange(0, i as int),
            decreases n - i,
        {
            let entry = (self.files[i].0.clone(), self.files[i].1);
            out.push(entry);
            proof {
                assert(out@ =~= self.files@.subrange(0, i + 1));
            }
            i = i + 1;
        }
        proof {
            assert(out@ =~= self.files@);
        }
        FsModel { files: out }
    }

    /// Index of the entry for `path`, if one exists.
    fn find_path(&self, path: &String) -> (r: Option<usize>)
        ensures
            match r {
                Some(i) => i < self.files@.len() && self.files@[i as int].0@ == path@,
                None => forall|x: int| 0 <= x < self.files@.len() ==> self.files@[x].0@ != path@,
            },
    {
        let n = self.files.len();
        let mut i: usize = 0;
        while i < n
            invariant
                i <= n,
                n == self.files@.len(),
                forall|x: int| 0 <= x < i ==> self.files@[x].0@ != path@,
            decreases n - i,
        {
            if self.files[i].0 == *path {
                return Some(i);
            }
            i = i + 1;
        }
        None
    }

    /// Whether a file exists at `path`.
    pub fn contains_path(&self, path: &str) -> (r: bool)
        ensures
            r == self@.dom().contains(path@),
    {
        proof {
            lemma_pairs_map_props(self.files@);
        }
        let p: String = path.to_owned();
        match self.find_path(&p) {
            Some(_) => true,
            None => false,
        }
    }

    /// The identity of the file at `path`, if one exists.
    pub fn get_id(&self, path: &str) -> (r: Option<u64>)
        requires
            self.wf(),
        ensures
            match r {
                Some(id) => self@.dom().contains(path@) && self@[path@] == id,
                None => !self@.dom().contains(path@),
            },
    {
        proof {
            lemma_pairs_map_props(self.files@);
        }
        let p: String = path.to_owned();
        match self.find_path(&p) {
            Some(i) => Some(self.files[i].1),
            None => None,
        }
    }

    /// Record that `path` exists and holds the file with identity `id`; an
    /// existing entry for the same path is replaced.
    pub fn insert(&mut self, path: &str, id: u64)
        requires
            old(self).wf(),
        ensures
            final(self).wf(),
            final(self)@ == old(self)@.insert(path@, id),
    {
        let p: String = path.to_owned();
        proof {
            lemma_pairs_map_props(self.files@);
        }
        let ghost s = self.files@;
        match self.find_path(&p) {
            Some(i) => {
                let entry = (path.to_owned(), id);
                self.files.set(i, entry);
                proof {
                    let ii = i as int;
                    assert forall|x: int| 0 <= x < s.len() && x != ii implies s[x].0@
                        != path@ by {
                        if s[x].0@ == path@ {
                            assert(s[x].0@ == s[ii].0@);
                        }
                    }
                    lemma_pairs_map_update(s, ii, entry);
                    assert(pairs_map(s).remove(s[ii].0@).insert(path@, id) =~= pairs_map(
                        s,
                    ).insert(path@, id));
                }
            },
            None => {
                let entry = (path.to_owned(), id);
                self.files.push(entry);
                proof {
                    assert(self.files@.drop_last() =~= s);
                    lemma_pairs_map_props(self.files@);
                }
            },
        }
    }

    /// Perform one atomic move on the namespace: the file at `src` is now at
    /// `dst` instead.
    pub fn apply_move(&mut self, src: &String, dst: &String)
        requires
            old(self).wf(),
            old(self)@.dom().contains(src@),
            !old(self)@.dom().contains(dst@),
        ensures
            final(self).wf(),
            final(self)@ == map_move(old(self)@, src@, dst@),
    {
        proof {
            lemma_pairs_map_props(self.files@);
        }
        let ghost s = self.files@;
        match self.find_path(src) {
            Some(i) => {
                let id = self.files[i].1;
                let entry = (dst.clone(), id);
                self.files.set(i, entry);
                proof {
                    let ii = i as int;
                    assert forall|x: int| 0 <= x < s.len() && x != ii implies s[x].0@
                        != dst@ by {
                        if s[x].0@ == dst@ {
                            assert(pairs_map(s).dom().contains(dst@));
                        }
                    }
                    assert(s[ii].0@ != dst@) by {
                        if s[ii].0@ == dst@ {
                            assert(pairs_map(s).dom().contains(dst@));
                        }
                    }
                    lemma_pairs_map_update(s, ii, entry);
                    assert(pairs_map(s)[s[ii].0@] == s[ii].1);
                    assert(self@ == map_move(old(self)@, src@, dst@));
                }
            },
            None => {
                proof {
                    assert(false);
                }
                // unreachable: `src` exists in the namespace
            },
        }
    }
}

} // verus!
