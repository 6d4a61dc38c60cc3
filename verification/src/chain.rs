//! The commit chain: a reverse adjacency built while walking first-parent
//! ancestry from the head backward.  Each entry maps a parent commit to its
//! descendant on the walked path, so a later forward walk can follow
//! history oldest to newest.

use vstd::prelude::*;
use crate::ids::ObjectId;

verus! {

/// Why indexing the history failed.
#[derive(Debug, Clone, Copy, PartialEq, Eq, Structural)]
pub enum IndexError {
    /// A commit identifier recurred during the backward walk; a well-formed
    /// history is acyclic, so the walk aborts rather than loop.
    CorruptHistory,
}

/// The reverse adjacency of the walked path: `pairs[i]` maps a parent
/// commit to its descendant.  `pairs` is ordered newest to oldest: the
/// first entry's descendant is the head.
#[derive(Debug, PartialEq, Eq)]
pub struct CommitChain {
    pub head: ObjectId,
    pub pairs: Vec<(ObjectId, ObjectId)>,
}

/// The mathematical value of a `CommitChain`.
#[verifier::ext_equal]
pub struct CommitChainV {
    pub head: Seq<u8>,
    pub pairs: Seq<(Seq<u8>, Seq<u8>)>,
}

pub open spec fn pair_views(ps: Seq<(ObjectId, ObjectId)>) -> Seq<(Seq<u8>, Seq<u8>)> {
    ps.map_values(|p: (ObjectId, ObjectId)| (p.0@, p.1@))
}

impl View for CommitChain {
    type V = CommitChainV;

    open spec fn view(&self) -> CommitChainV {
        CommitChainV { head: self.head@, pairs: pair_views(self.pairs@) }
    }
}

/// Well-formedness: identifiers have their length, every entry's descendant
/// is the previous entry's parent (the head for the first), no parent key
/// repeats, and the head is never a key — forward walks end there.
pub open spec fn chain_wf(c: CommitChainV) -> bool {
    &&& c.head.len() == 20
    &&& forall|i: int| 0 <= i < c.pairs.len() ==> (#[trigger] c.pairs[i]).0.len() == 20
        && c.pairs[i].1.len() == 20
    &&& forall|i: int| 0 <= i < c.pairs.len() ==> (#[trigger] c.pairs[i]).1 == (
        if i == 0 {
            c.head
        } else {
            c.pairs[i - 1].0
        }
    )
    &&& forall|i: int, j: int| 0 <= i < j < c.pairs.len() ==> (#[trigger] c.pairs[i]).0 != (
    #[trigger] c.pairs[j]).0
    &&& forall|i: int| 0 <= i < c.pairs.len() ==> (#[trigger] c.pairs[i]).0 != c.head
}

/// The position of a parent key, or a negative value when it is absent.
pub open spec fn chain_index_of(pairs: Seq<(Seq<u8>, Seq<u8>)>, key: Seq<u8>) -> int
    decreases pairs.len(),
{
    if pairs.len() == 0 {
        -1
    } else if pairs[0].0 == key {
        0
    } else {
        let r = chain_index_of(pairs.skip(1), key);
        if r < 0 {
            -1
        } else {
            r + 1
        }
    }
}

/// The descendant recorded for a commit, when the commit is a key.
pub open spec fn chain_next(pairs: Seq<(Seq<u8>, Seq<u8>)>, key: Seq<u8>) -> Option<Seq<u8>> {
    let i = chain_index_of(pairs, key);
    if i < 0 {
        None
    } else {
        Some(pairs[i].1)
    }
}

pub proof fn lemma_chain_index_of(pairs: Seq<(Seq<u8>, Seq<u8>)>, key: Seq<u8>)
    ensures
        chain_index_of(pairs, key) < 0 ==> forall|i: int| 0 <= i < pairs.len()
            ==> (#[trigger] pairs[i]).0 != key,
        chain_index_of(pairs, key) >= 0 ==> 0 <= chain_index_of(pairs, key) < pairs.len()
            && pairs[chain_index_of(pairs, key)].0 == key && (forall|i: int|
            0 <= i < chain_index_of(pairs, key) ==> (#[trigger] pairs[i]).0 != key),
    decreases pairs.len(),
{
    if pairs.len() > 0 && pairs[0].0 != key {
        lemma_chain_index_of(pairs.skip(1), key);
        let r = chain_index_of(pairs.skip(1), key);
        if r < 0 {
            assert forall|i: int| 0 <= i < pairs.len() implies (#[trigger] pairs[i]).0 != key by {
                if i > 0 {
                    assert(pairs.skip(1)[i - 1] == pairs[i]);
                }
            }
        } else {
            assert(pairs.skip(1)[r] == pairs[r + 1]);
            assert forall|i: int| 0 <= i < r + 1 implies (#[trigger] pairs[i]).0 != key by {
                if i > 0 {
                    assert(pairs.skip(1)[i - 1] == pairs[i]);
                }
            }
        }
    }
}

impl CommitChain {
    pub open spec fn wf(&self) -> bool {
        chain_wf(self@)
    }

    /// Finds the position holding a parent key, if any.
    pub fn find_key(&self, key: &ObjectId) -> (r: Option<usize>)
        ensures
            match r {
                Some(i) => i < self@.pairs.len() && chain_index_of(self@.pairs, key@) == i as int,
                None => chain_index_of(self@.pairs, key@) < 0,
            },
    {
        let ghost pv = self@.pairs;
        proof {
            lemma_chain_index_of(pv, key@);
        }
        let mut i: usize = 0;
        while i < self.pairs.len()
            invariant
                0 <= i <= self.pairs@.len(),
                pv == self@.pairs,
                pv.len() == self.pairs@.len(),
                forall|k: int| 0 <= k < i ==> (#[trigger] pv[k]).0 != key@,
                chain_index_of(pv, key@) < 0 ==> forall|k: int| 0 <= k < pv.len()
                    ==> (#[trigger] pv[k]).0 != key@,
                chain_index_of(pv, key@) >= 0 ==> 0 <= chain_index_of(pv, key@) < pv.len()
                    && pv[chain_index_of(pv, key@)].0 == key@ && (forall|k: int|
                    0 <= k < chain_index_of(pv, key@) ==> (#[trigger] pv[k]).0 != key@),
            decreases self.pairs@.len() - i,
        {
            if self.pairs[i].0.same(key) {
                proof {
                    assert(pv[i as int].0 == key@);
                    assert(chain_index_of(pv, key@) == i as int);
                }
                return Some(i);
            }
            i = i + 1;
        }
        proof {
            if chain_index_of(pv, key@) >= 0 {
                assert(pv[chain_index_of(pv, key@)].0 == key@);
                assert(false);
            }
        }
        None
    }

    /// The recorded descendant of a commit, if the commit is on the chain.
    pub fn next_of(&self, key: &ObjectId) -> (r: Option<ObjectId>)
        ensures
            match r {
                Some(c) => chain_next(self@.pairs, key@) == Some(c@),
                None => chain_next(self@.pairs, key@) is None,
            },
    {
        match self.find_key(key) {
            Some(i) => Some(self.pairs[i].1.copied()),
            None => None,
        }
    }
}

/// No entry ever maps a commit to itself.
pub proof fn lemma_chain_no_self_map(c: CommitChainV)
    requires
        chain_wf(c),
    ensures
        forall|i: int| 0 <= i < c.pairs.len() ==> (#[trigger] c.pairs[i]).0 != c.pairs[i].1,
{
    assert forall|i: int| 0 <= i < c.pairs.len() implies (#[trigger] c.pairs[i]).0 != c.pairs[i].1
        by {
        if i == 0 {
            assert(c.pairs[0].1 == c.head);
        } else {
            assert(c.pairs[i].1 == c.pairs[i - 1].0);
        }
    }
}

/// Builds the reverse adjacency step by step while the caller walks
/// first-parent ancestry backward from the head.
pub struct ChainBuilder {
    pub head: ObjectId,
    pub current: ObjectId,
    pub pairs: Vec<(ObjectId, ObjectId)>,
}

/// A commit already visited by the walk that built `pairs` under `head`.
pub open spec fn builder_seen(head: Seq<u8>, pairs: Seq<(Seq<u8>, Seq<u8>)>, id: Seq<u8>) -> bool {
    id == head || exists|i: int| 0 <= i < pairs.len() && (#[trigger] pairs[i]).0 == id
}

impl ChainBuilder {
    pub open spec fn wf(&self) -> bool {
        &&& chain_wf(CommitChainV { head: self.head@, pairs: pair_views(self.pairs@) })
        &&& self.current@ == (if self.pairs@.len() == 0 {
            self.head@
        } else {
            pair_views(self.pairs@).last().0
        })
    }

    /// Starts a walk at the head commit.
    pub fn new(head: ObjectId) -> (b: ChainBuilder)
        requires
            head.wf(),
        ensures
            b.wf(),
            b.head@ == head@,
            b.current@ == head@,
            b.pairs@.len() == 0,
    {
        let current = head.copied();
        ChainBuilder { head, current, pairs: Vec::new() }
    }

    /// Records that the first parent of the commit visited last is
    /// `parent`, and moves the walk there.  A parent already visited means
    /// the history is corrupt, and the builder is left unchanged.
    pub fn step(&mut self, parent: &ObjectId) -> (r: Result<(), IndexError>)
        requires
            old(self).wf(),
            parent.wf(),
        ensures
            final(self).head@ == old(self).head@,
            match r {
                Ok(_) => {
                    &&& final(self).wf()
                    &&& !builder_seen(old(self).head@, pair_views(old(self).pairs@), parent@)
                    &&& pair_views(final(self).pairs@) == pair_views(old(self).pairs@).push(
                        (parent@, old(self).current@),
                    )
                    &&& final(self).current@ == parent@
                },
                Err(_) => {
                    &&& final(self).wf()
                    &&& builder_seen(old(self).head@, pair_views(old(self).pairs@), parent@)
                    &&& pair_views(final(self).pairs@) == pair_views(old(self).pairs@)
                    &&& final(self).current@ == old(self).current@
                },
            },
    {
        let ghost old_pairs = pair_views(self.pairs@);
        let ghost old_chain = CommitChainV { head: old(self).head@, pairs: old_pairs };
        proof {
            assert(chain_wf(old_chain));
        }
        if parent.same(&self.head) {
            return Err(IndexError::CorruptHistory);
        }
        let mut i: usize = 0;
        while i < self.pairs.len()
            invariant
                0 <= i <= self.pairs@.len(),
                *self == *old(self),
                old_pairs == pair_views(self.pairs@),
                old_pairs.len() == self.pairs@.len(),
                old_chain == (CommitChainV { head: old(self).head@, pairs: old_pairs }),
                chain_wf(old_chain),
                old(self).wf(),
                forall|k: int| 0 <= k < i ==> (#[trigger] old_pairs[k]).0 != parent@,
            decreases self.pairs@.len() - i,
        {
            if self.pairs[i].0.same(parent) {
                proof {
                    assert(pair_views(old(self).pairs@)[i as int].0 == parent@);
                    assert(builder_seen(old(self).head@, pair_views(old(self).pairs@), parent@));
                }
                return Err(IndexError::CorruptHistory);
            }
            i = i + 1;
        }
        proof {
            assert(!builder_seen(old(self).head@, pair_views(old(self).pairs@), parent@)) by {
                if builder_seen(old(self).head@, pair_views(old(self).pairs@), parent@) {
                    if parent@ != old(self).head@ {
                        let ii = choose|ii: int|
                            0 <= ii < pair_views(old(self).pairs@).len() && (#[trigger] pair_views(
                                old(self).pairs@,
                            )[ii]).0 == parent@;
                        assert(old_pairs[ii].0 != parent@);
                    }
                }
            }
            assert(old(self).current@.len() == 20) by {
                if old_pairs.len() > 0 {
                    assert(old_chain.pairs[old_pairs.len() - 1].0.len() == 20);
                }
            }
        }
        let entry = (parent.copied(), self.current.copied());
        self.pairs.push(entry);
        self.current = parent.copied();
        proof {
            assert(pair_views(self.pairs@) =~= old_pairs.push((parent@, old(self).current@)));
            let npv = pair_views(self.pairs@);
            let n = old_pairs.len() as int;
            assert forall|i2: int| 0 <= i2 < npv.len() implies (#[trigger] npv[i2]).0.len() == 20
                && npv[i2].1.len() == 20 by {
                if i2 < n {
                    assert(npv[i2] == old_pairs[i2]);
                    assert(old_chain.pairs[i2].0.len() == 20 && old_chain.pairs[i2].1.len() == 20);
                }
            }
            assert forall|i2: int| 0 <= i2 < npv.len() implies (#[trigger] npv[i2]).1 == (
            if i2 == 0 {
                self.head@
            } else {
                npv[i2 - 1].0
            }) by {
                if i2 < n {
                    assert(npv[i2] == old_pairs[i2]);
                    assert(old_chain.pairs[i2].1 == (if i2 == 0 {
                        old_chain.head
                    } else {
                        old_chain.pairs[i2 - 1].0
                    }));
                    if i2 > 0 {
                        assert(npv[i2 - 1] == old_pairs[i2 - 1]);
                    }
                } else {
                    assert(npv[n].1 == old(self).current@);
                    if n > 0 {
                        assert(npv[n - 1] == old_pairs[n - 1]);
                        assert(old(self).current@ == old_pairs[n - 1].0);
                    }
                }
            }
            assert forall|a: int, b: int| 0 <= a < b < npv.len() implies (#[trigger] npv[a]).0 != (
            #[trigger] npv[b]).0 by {
                if b == n {
                    assert(npv[a] == old_pairs[a]);
                    assert(old_pairs[a].0 != parent@);
                } else {
                    assert(npv[a] == old_pairs[a]);
                    assert(npv[b] == old_pairs[b]);
                    assert(old_chain.pairs[a].0 != old_chain.pairs[b].0);
                }
            }
            assert forall|i2: int| 0 <= i2 < npv.len() implies (#[trigger] npv[i2]).0
                != self.head@ by {
                if i2 < n {
                    assert(npv[i2] == old_pairs[i2]);
                    assert(old_chain.pairs[i2].0 != old_chain.head);
                }
            }
        }
        Ok(())
    }

    /// Ends the walk: the walked path's reverse adjacency.
    pub fn finish(self) -> (c: CommitChain)
        requires
            self.wf(),
        ensures
            c.wf(),
            c@.head == self.head@,
            c@.pairs == pair_views(self.pairs@),
    {
        CommitChain { head: self.head, pairs: self.pairs }
    }
}

/// Builds the chain from a complete backward walk `ids`, the head first,
/// the root last.  A straight-line history of N distinct commits yields
/// exactly N - 1 entries, and no entry maps a commit to itself; a repeated
/// commit is corrupt history.
pub fn build_chain_from_walk(ids: &Vec<ObjectId>) -> (r: Result<CommitChain, IndexError>)
    requires
        ids@.len() >= 1,
        forall|i: int| 0 <= i < ids@.len() ==> (#[trigger] ids@[i]).wf(),
    ensures
        match r {
            Ok(c) => {
                &&& c.wf()
                &&& c@.head == ids@[0]@
                &&& c@.pairs.len() == ids@.len() - 1
                &&& forall|i: int| 0 <= i < c@.pairs.len() ==> #[trigger] c@.pairs[i]
                    == (ids@[i + 1]@, ids@[i]@)
                &&& forall|i: int| 0 <= i < c@.pairs.len() ==> (#[trigger] c@.pairs[i]).0
                    != c@.pairs[i].1
                &&& forall|i: int, j: int| 0 <= i < j < ids@.len() ==> ids@[i]@ != ids@[j]@
            },
            Err(_) => exists|i: int, j: int| 0 <= i < j < ids@.len() && ids@[i]@ == ids@[j]@,
        },
{
    let mut b = ChainBuilder::new(ids[0].copied());
    let mut k: usize = 1;
    while k < ids.len()
        invariant
            1 <= k <= ids@.len(),
            forall|i: int| 0 <= i < ids@.len() ==> (#[trigger] ids@[i]).wf(),
            b.wf(),
            b.head@ == ids@[0]@,
            pair_views(b.pairs@).len() == k - 1,
            forall|i: int| 0 <= i < k - 1 ==> #[trigger] pair_views(b.pairs@)[i]
                == (ids@[i + 1]@, ids@[i]@),
            b.current@ == ids@[k - 1]@,
            forall|i: int, j: int| 0 <= i < j < k ==> ids@[i]@ != ids@[j]@,
        decreases ids@.len() - k,
    {
        let ghost pv = pair_views(b.pairs@);
        match b.step(&ids[k]) {
            Ok(_) => {
            },
            Err(_) => {
                proof {
                    assert(builder_seen(ids@[0]@, pv, ids@[k as int]@));
                    if ids@[k as int]@ == ids@[0]@ {
                        assert(ids@[0]@ == ids@[k as int]@);
                    } else {
                        let i = choose|i: int| 0 <= i < pv.len() && (#[trigger] pv[i]).0
                            == ids@[k as int]@;
                        assert(pv[i] == (ids@[i + 1]@, ids@[i]@));
                        assert(ids@[i + 1]@ == ids@[k as int]@);
                    }
                }
                return Err(IndexError::CorruptHistory);
            },
        }
        proof {
            assert forall|i: int, j: int| 0 <= i < j < k + 1 implies ids@[i]@ != ids@[j]@ by {
                if j == k {
                    if i == 0 {
                        assert(!builder_seen(ids@[0]@, pv, ids@[k as int]@));
                    } else {
                        assert(pv[i - 1] == (ids@[i]@, ids@[i - 1]@));
                        assert(!builder_seen(ids@[0]@, pv, ids@[k as int]@));
                    }
                }
            }
        }
        k = k + 1;
    }
    let c = b.finish();
    proof {
        lemma_chain_no_self_map(c@);
    }
    Ok(c)
}

} // verus!
