//! A standalone graph vertex: an identity key with a counted multiset of
//! the vertices seen beside it. Kept for callers that assemble small
//! graphs by hand; the pipeline itself works on the keyed maps.

use vstd::prelude::*;

verus! {

/// A vertex and the count of encounters with each other vertex, keyed by
/// the other vertex's identity.
#[derive(Debug)]
pub struct Vertex {
    pub user_id: String,
    pub everyone_else: Vec<(Vertex, u32)>,
}

/// Witnesses the insert-or-increment step: `j` is the first entry of `s0`
/// keyed by `uid`; in `s1` that entry keeps its vertex with its count one
/// higher, and every other entry stands unchanged.
pub open spec fn bumped_at(
    s0: Seq<(Vertex, u32)>,
    s1: Seq<(Vertex, u32)>,
    uid: Seq<char>,
    j: int,
) -> bool {
    &&& 0 <= j < s0.len()
    &&& s0[j].0.user_id@ == uid
    &&& forall|a: int| 0 <= a < j ==> (#[trigger] s0[a]).0.user_id@ != uid
    &&& s1.len() == s0.len()
    &&& s1[j].0 == s0[j].0
    &&& s1[j].1 == s0[j].1 + 1
    &&& forall|a: int| 0 <= a < s0.len() && a != j ==> (#[trigger] s1[a]) == s0[a]
}

impl Vertex {
    /// A vertex with no recorded encounters.
    pub fn new(name: &str) -> (r: Vertex)
        ensures
            r.user_id@ == name@,
            r.everyone_else@.len() == 0,
    {
        Vertex { user_id: name.to_owned(), everyone_else: Vec::new() }
    }

    /// Record one encounter with `other`: the entry carrying its identity
    /// is incremented in place, or appended with count 1. Entries are
    /// keyed by the identity alone, as the exported form hashes them.
    pub fn add(&mut self, other: Vertex)
        requires
            forall|j: int|
                0 <= j < old(self).everyone_else@.len() ==> (#[trigger] old(
                    self,
                ).everyone_else@[j]).1 < u32::MAX,
        ensures
            ({
                let s0 = old(self).everyone_else@;
                let s1 = final(self).everyone_else@;
                &&& final(self).user_id == old(self).user_id
                &&& (exists|j: int|
                    0 <= j < s0.len() && (#[trigger] s0[j]).0.user_id@ == other.user_id@)
                    ==> exists|j: int| #[trigger] bumped_at(s0, s1, other.user_id@, j)
                &&& (!(exists|j: int|
                    0 <= j < s0.len() && (#[trigger] s0[j]).0.user_id@ == other.user_id@))
                    ==> s1.len() == s0.len() + 1 && s1[s0.len() as int].0.user_id@
                    == other.user_id@ && s1[s0.len() as int].1 == 1 && (forall|a: int|
                    0 <= a < s0.len() ==> (#[trigger] s1[a]) == s0[a])
            }),
    {
        let ghost s0 = self.everyone_else@;
        let n = self.everyone_else.len();
        let mut j: usize = 0;
        while j < n
            invariant
                n == self.everyone_else@.len(),
                s0 == self.everyone_else@,
                s0 == old(self).everyone_else@,
                self.user_id == old(self).user_id,
                j <= n,
                forall|a: int|
                    0 <= a < s0.len() ==> (#[trigger] s0[a]).1 < u32::MAX,
                forall|a: int| 0 <= a < j ==> (#[trigger] s0[a]).0.user_id@ != other.user_id@,
            decreases n - j,
        {
            if self.everyone_else[j].0.user_id == other.user_id {
                let old_pair = self.everyone_else.remove(j);
                let bumped = old_pair.1 + 1;
                self.everyone_else.insert(j, (old_pair.0, bumped));
                proof {
                    let s1 = self.everyone_else@;
                    assert(s1 =~= s0.update(j as int, s1[j as int]));
                    assert(old_pair == s0[j as int]);
                    assert(s1[j as int].0 == s0[j as int].0);
                    assert(s1[j as int].1 == s0[j as int].1 + 1);
                    assert(forall|a: int| 0 <= a < s0.len() && a != j ==> s1[a] == s0[a]);
                    assert(bumped_at(s0, s1, other.user_id@, j as int));
                }
                return ;
            }
            j = j + 1;
        }
        self.everyone_else.push((other, 1));
        proof {
            let s1 = self.everyone_else@;
            assert(forall|a: int| 0 <= a < s0.len() ==> s1[a] == s0[a]);
            assert(s1[s0.len() as int].1 == 1);
        }
    }
}

} // verus!
