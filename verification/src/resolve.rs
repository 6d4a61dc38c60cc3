//! Temporal fragment resolution.  Given a link recorded against a
//! historical commit, find the tracked entry's name at that commit, then
//! walk forward through the commit chain — oldest to newest — to the first
//! commit where the name's content identifier differs from the recorded
//! one, or to the head when it never does.
//!
//! The repository is consumed as plain data: for each commit of interest,
//! its tree entries in the traversal order the repository reports.  A
//! content identifier shared by several entries resolves to the first match
//! in that order — deterministic, though arbitrary.

use vstd::prelude::*;
use crate::bytes::bytes_eq;
use crate::bytes::copy_bytes;
use crate::chain::CommitChain;
use crate::chain::chain_index_of;
use crate::ids::LinkId;
use crate::ids::ObjectId;
use crate::loader::LinkSet;
use crate::parse::LinkV;

verus! {

/// One entry of a commit's tree: a name, a content identifier, and whether
/// the entry is a blob.
#[derive(Debug, PartialEq, Eq)]
pub struct TreeEntry {
    pub name: Vec<u8>,
    pub id: ObjectId,
    pub is_blob: bool,
}

/// The mathematical value of a `TreeEntry`.
#[verifier::ext_equal]
pub struct TreeEntryV {
    pub name: Seq<u8>,
    pub id: Seq<u8>,
    pub is_blob: bool,
}

impl View for TreeEntry {
    type V = TreeEntryV;

    open spec fn view(&self) -> TreeEntryV {
        TreeEntryV { name: self.name@, id: self.id@, is_blob: self.is_blob }
    }
}

/// A commit together with its tree entries, in traversal order.
#[derive(Debug, PartialEq, Eq)]
pub struct CommitTree {
    pub commit: ObjectId,
    pub entries: Vec<TreeEntry>,
}

pub open spec fn entry_views(es: Seq<TreeEntry>) -> Seq<TreeEntryV> {
    es.map_values(|e: TreeEntry| e@)
}

/// The mathematical value of a `CommitTree`.
#[verifier::ext_equal]
pub struct CommitTreeV {
    pub commit: Seq<u8>,
    pub entries: Seq<TreeEntryV>,
}

impl View for CommitTree {
    type V = CommitTreeV;

    open spec fn view(&self) -> CommitTreeV {
        CommitTreeV { commit: self.commit@, entries: entry_views(self.entries@) }
    }
}

/// The trees of the commits a resolution may visit.
#[derive(Debug, PartialEq, Eq)]
pub struct RepoTrees {
    pub trees: Vec<CommitTree>,
}

impl View for RepoTrees {
    type V = Seq<CommitTreeV>;

    open spec fn view(&self) -> Seq<CommitTreeV> {
        self.trees@.map_values(|t: CommitTree| t@)
    }
}

/// Why resolving one fragment link failed.
#[derive(Debug, PartialEq, Eq)]
pub enum ResolveError {
    /// The set's anchor commit has no entry on the chain: it is unreachable
    /// from the head, or is the head itself.
    AnchorNotOnChain,
    /// No entry at the anchor commit carries the recorded identifier.
    BlobNotFoundAtAnchor,
    /// The tracked name vanished at this commit during the forward walk.
    NameVanished(ObjectId),
    /// The repository gave no tree for this commit; the failure is
    /// propagated, never smoothed over.
    TreeUnavailable(ObjectId),
}

/// The mathematical value of a `ResolveError`.
#[verifier::ext_equal]
pub enum ResolveErrorV {
    AnchorNotOnChain,
    BlobNotFoundAtAnchor,
    NameVanished(Seq<u8>),
    TreeUnavailable(Seq<u8>),
}

impl View for ResolveError {
    type V = ResolveErrorV;

    open spec fn view(&self) -> ResolveErrorV {
        match self {
            ResolveError::AnchorNotOnChain => ResolveErrorV::AnchorNotOnChain,
            ResolveError::BlobNotFoundAtAnchor => ResolveErrorV::BlobNotFoundAtAnchor,
            ResolveError::NameVanished(c) => ResolveErrorV::NameVanished(c@),
            ResolveError::TreeUnavailable(c) => ResolveErrorV::TreeUnavailable(c@),
        }
    }
}

/// The result of resolving one fragment link: where the tracked content
/// first changed, and to what.
#[derive(Debug, PartialEq, Eq)]
pub struct Transition {
    pub link: LinkId,
    pub old_id: ObjectId,
    pub commit: ObjectId,
    pub new_id: ObjectId,
}

/// A successful resolution: either the first divergence, or the head
/// reached with the content unchanged — two distinct outcomes.
#[derive(Debug, PartialEq, Eq)]
pub enum Resolution {
    /// The identifier first differs at this transition's commit.
    Diverged(Transition),
    /// The identifier never changed up to the head; the transition's commit
    /// is the head and its new identifier equals the recorded one.
    Unchanged(Transition),
}

// ---------------------------------------------------------------------------
// Lookups over the plain-data repository, first match in order.
// ---------------------------------------------------------------------------

/// The tree of commit `c`, first match in order.
pub open spec fn tree_of(trees: Seq<CommitTreeV>, c: Seq<u8>) -> Option<Seq<TreeEntryV>>
    decreases trees.len(),
{
    if trees.len() == 0 {
        None
    } else if trees[0].commit == c {
        Some(trees[0].entries)
    } else {
        tree_of(trees.skip(1), c)
    }
}

/// The name of the first entry carrying identifier `id`.
pub open spec fn name_of_id(entries: Seq<TreeEntryV>, id: Seq<u8>) -> Option<Seq<u8>>
    decreases entries.len(),
{
    if entries.len() == 0 {
        None
    } else if entries[0].id == id {
        Some(entries[0].name)
    } else {
        name_of_id(entries.skip(1), id)
    }
}

/// The identifier of the first entry named `name`.
pub open spec fn id_of_name(entries: Seq<TreeEntryV>, name: Seq<u8>) -> Option<Seq<u8>>
    decreases entries.len(),
{
    if entries.len() == 0 {
        None
    } else if entries[0].name == name {
        Some(entries[0].id)
    } else {
        id_of_name(entries.skip(1), name)
    }
}

impl RepoTrees {
    /// Finds the tree recorded for a commit.
    pub fn find_tree<'a>(&'a self, c: &ObjectId) -> (r: Option<&'a CommitTree>)
        ensures
            match r {
                Some(t) => tree_of(self@, c@) == Some(t@.entries),
                None => tree_of(self@, c@) is None,
            },
    {
        let ghost tv = self@;
        let mut i: usize = 0;
        proof {
            assert(tv.skip(0) =~= tv);
        }
        while i < self.trees.len()
            invariant
                0 <= i <= self.trees@.len(),
                tv == self@,
                tv.len() == self.trees@.len(),
                tree_of(tv, c@) == tree_of(tv.skip(i as int), c@),
            decreases self.trees@.len() - i,
        {
            proof {
                assert(tv.skip(i as int)[0] == tv[i as int]);
                assert(tv.skip(i as int).skip(1) =~= tv.skip(i as int + 1));
            }
            if self.trees[i].commit.same(c) {
                return Some(&self.trees[i]);
            }
            i = i + 1;
        }
        proof {
            assert(tv.skip(i as int) =~= Seq::<CommitTreeV>::empty());
        }
        None
    }
}

/// Finds the name of the first entry carrying `id`, in traversal order.
pub fn lookup_name_by_id(entries: &Vec<TreeEntry>, id: &ObjectId) -> (r: Option<Vec<u8>>)
    ensures
        match r {
            Some(n) => name_of_id(entry_views(entries@), id@) == Some(n@),
            None => name_of_id(entry_views(entries@), id@) is None,
        },
{
    let ghost ev = entry_views(entries@);
    let mut i: usize = 0;
    proof {
        assert(ev.skip(0) =~= ev);
    }
    while i < entries.len()
        invariant
            0 <= i <= entries@.len(),
            ev == entry_views(entries@),
            ev.len() == entries@.len(),
            name_of_id(ev, id@) == name_of_id(ev.skip(i as int), id@),
        decreases entries@.len() - i,
    {
        proof {
            assert(ev.skip(i as int)[0] == ev[i as int]);
            assert(ev.skip(i as int).skip(1) =~= ev.skip(i as int + 1));
        }
        if entries[i].id.same(id) {
            return Some(copy_bytes(&entries[i].name));
        }
        i = i + 1;
    }
    proof {
        assert(ev.skip(i as int) =~= Seq::<TreeEntryV>::empty());
    }
    None
}

/// Finds the identifier of the first entry named `name`.
pub fn lookup_id_by_name(entries: &Vec<TreeEntry>, name: &Vec<u8>) -> (r: Option<ObjectId>)
    ensures
        match r {
            Some(found) => id_of_name(entry_views(entries@), name@) == Some(found@),
            None => id_of_name(entry_views(entries@), name@) is None,
        },
{
    let ghost ev = entry_views(entries@);
    let mut i: usize = 0;
    proof {
        assert(ev.skip(0) =~= ev);
    }
    while i < entries.len()
        invariant
            0 <= i <= entries@.len(),
            ev == entry_views(entries@),
            ev.len() == entries@.len(),
            id_of_name(ev, name@) == id_of_name(ev.skip(i as int), name@),
        decreases entries@.len() - i,
    {
        proof {
            assert(ev.skip(i as int)[0] == ev[i as int]);
            assert(ev.skip(i as int).skip(1) =~= ev.skip(i as int + 1));
        }
        if bytes_eq(&entries[i].name, name) {
            return Some(entries[i].id.copied());
        }
        i = i + 1;
    }
    proof {
        assert(ev.skip(i as int) =~= Seq::<TreeEntryV>::empty());
    }
    None
}

// ---------------------------------------------------------------------------
// The forward walk.
// ---------------------------------------------------------------------------

/// What the tracked name's identifier is at walk position `k` — the commit
/// `pairs[k].1` — or nothing when the tree or the name is absent.
pub open spec fn walked_id(
    pairs: Seq<(Seq<u8>, Seq<u8>)>,
    trees: Seq<CommitTreeV>,
    name: Seq<u8>,
    k: int,
) -> Option<Seq<u8>> {
    match tree_of(trees, pairs[k].1) {
        None => None,
        Some(entries) => id_of_name(entries, name),
    }
}

/// The forward walk from position `j` down to position 0 (the head):
/// at each visited commit, the tracked name's identifier is compared with
/// the original; the first difference stops the walk.
pub open spec fn spec_walk(
    pairs: Seq<(Seq<u8>, Seq<u8>)>,
    trees: Seq<CommitTreeV>,
    name: Seq<u8>,
    orig: Seq<u8>,
    j: int,
) -> Result<(Seq<u8>, Seq<u8>, bool), ResolveErrorV>
    decreases j,
{
    let c = pairs[j].1;
    match tree_of(trees, c) {
        None => Err(ResolveErrorV::TreeUnavailable(c)),
        Some(entries) => match id_of_name(entries, name) {
            None => Err(ResolveErrorV::NameVanished(c)),
            Some(found) => if found != orig {
                Ok((c, found, true))
            } else if j <= 0 {
                Ok((c, found, false))
            } else {
                spec_walk(pairs, trees, name, orig, j - 1)
            },
        },
    }
}

/// What resolving one fragment anchor means: find the anchor's chain entry,
/// find the tracked name at the anchor commit by its recorded identifier,
/// then walk forward from the anchor's successor.
pub open spec fn spec_resolve_fragment(
    prev: Seq<u8>,
    blob: Seq<u8>,
    pairs: Seq<(Seq<u8>, Seq<u8>)>,
    trees: Seq<CommitTreeV>,
) -> Result<(Seq<u8>, Seq<u8>, bool), ResolveErrorV> {
    let j = chain_index_of(pairs, prev);
    if j < 0 {
        Err(ResolveErrorV::AnchorNotOnChain)
    } else {
        match tree_of(trees, prev) {
            None => Err(ResolveErrorV::TreeUnavailable(prev)),
            Some(entries) => match name_of_id(entries, blob) {
                None => Err(ResolveErrorV::BlobNotFoundAtAnchor),
                Some(name) => spec_walk(pairs, trees, name, blob, j),
            },
        }
    }
}

/// The outcome a resolution result denotes: commit, new identifier, and
/// whether a divergence was found.
pub open spec fn resolution_outcome(r: Result<Resolution, ResolveError>) -> Result<
    (Seq<u8>, Seq<u8>, bool),
    ResolveErrorV,
> {
    match r {
        Ok(Resolution::Diverged(t)) => Ok((t.commit@, t.new_id@, true)),
        Ok(Resolution::Unchanged(t)) => Ok((t.commit@, t.new_id@, false)),
        Err(e) => Err(e@),
    }
}

/// Resolves one fragment anchor against the chain and the repository data.
pub fn resolve_fragment(
    link_id: &LinkId,
    blob_id: &ObjectId,
    previous_commit: &ObjectId,
    chain: &CommitChain,
    trees: &RepoTrees,
) -> (r: Result<Resolution, ResolveError>)
    ensures
        resolution_outcome(r) == spec_resolve_fragment(
            previous_commit@,
            blob_id@,
            chain@.pairs,
            trees@,
        ),
        match r {
            Ok(res) => match res {
                Resolution::Diverged(t) => t.link@ == link_id@ && t.old_id@ == blob_id@,
                Resolution::Unchanged(t) => t.link@ == link_id@ && t.old_id@ == blob_id@,
            },
            Err(_) => true,
        },
{
    let ghost pv = chain@.pairs;
    let j0 = match chain.find_key(previous_commit) {
        None => {
            return Err(ResolveError::AnchorNotOnChain);
        },
        Some(j) => j,
    };
    let anchor_tree = match trees.find_tree(previous_commit) {
        None => {
            return Err(ResolveError::TreeUnavailable(previous_commit.copied()));
        },
        Some(t) => t,
    };
    let name = match lookup_name_by_id(&anchor_tree.entries, blob_id) {
        None => {
            return Err(ResolveError::BlobNotFoundAtAnchor);
        },
        Some(n) => n,
    };
    let mut j = j0;
    loop
        invariant
            0 <= j <= j0,
            j < pv.len(),
            pv == chain@.pairs,
            pv.len() == chain.pairs@.len(),
            spec_walk(pv, trees@, name@, blob_id@, j as int) == spec_walk(
                pv,
                trees@,
                name@,
                blob_id@,
                j0 as int,
            ),
            spec_resolve_fragment(previous_commit@, blob_id@, pv, trees@) == spec_walk(
                pv,
                trees@,
                name@,
                blob_id@,
                j0 as int,
            ),
        decreases j,
    {
        let c = &chain.pairs[j].1;
        proof {
            assert(pv[j as int].1 == c@);
        }
        let tree = match trees.find_tree(c) {
            None => {
                return Err(ResolveError::TreeUnavailable(c.copied()));
            },
            Some(t) => t,
        };
        let found = match lookup_id_by_name(&tree.entries, &name) {
            None => {
                return Err(ResolveError::NameVanished(c.copied()));
            },
            Some(f) => f,
        };
        if !found.same(blob_id) {
            let t = Transition {
                link: link_id.copied(),
                old_id: blob_id.copied(),
                commit: c.copied(),
                new_id: found,
            };
            return Ok(Resolution::Diverged(t));
        }
        if j == 0 {
            let t = Transition {
                link: link_id.copied(),
                old_id: blob_id.copied(),
                commit: c.copied(),
                new_id: found,
            };
            return Ok(Resolution::Unchanged(t));
        }
        j = j - 1;
    }
}

// ---------------------------------------------------------------------------
// Resolving a whole set.
// ---------------------------------------------------------------------------

/// The outcome recorded for one fragment-anchored link of a set.
#[derive(Debug, PartialEq, Eq)]
pub struct LinkOutcome {
    pub link: LinkId,
    pub result: Result<Resolution, ResolveError>,
}

pub open spec fn outcome_views(v: Seq<LinkOutcome>) -> Seq<
    (Seq<u8>, Result<(Seq<u8>, Seq<u8>, bool), ResolveErrorV>),
> {
    v.map_values(|o: LinkOutcome| (o.link@, resolution_outcome(o.result)))
}

/// What resolving a set means: one outcome per link whose first object is a
/// fragment, in order; links whose first object is a path are skipped.
pub open spec fn spec_set_outcomes(
    links: Seq<LinkV>,
    prev: Seq<u8>,
    pairs: Seq<(Seq<u8>, Seq<u8>)>,
    trees: Seq<CommitTreeV>,
) -> Seq<(Seq<u8>, Result<(Seq<u8>, Seq<u8>, bool), ResolveErrorV>)>
    decreases links.len(),
{
    if links.len() == 0 {
        Seq::empty()
    } else {
        let rest = spec_set_outcomes(links.skip(1), prev, pairs, trees);
        match links[0].first {
            crate::parse::ObjectV::Fragment { blob_id, .. } => seq![
                (links[0].id, spec_resolve_fragment(prev, blob_id, pairs, trees)),
            ] + rest,
            crate::parse::ObjectV::Path(_) => rest,
        }
    }
}

/// Resolves every fragment-anchored link of a set.  A set whose anchor
/// commit is not on the chain fails as a whole with `AnchorNotOnChain`:
/// none of its links is silently skipped.
pub fn resolve_set(set: &LinkSet, chain: &CommitChain, trees: &RepoTrees) -> (r: Result<
    Vec<LinkOutcome>,
    ResolveError,
>)
    ensures
        chain_index_of(chain@.pairs, set@.previous_commit) < 0 ==> (r matches Err(e)
            && e@ == ResolveErrorV::AnchorNotOnChain),
        chain_index_of(chain@.pairs, set@.previous_commit) >= 0 ==> (r matches Ok(v)
            && outcome_views(v@) == spec_set_outcomes(
            set@.links,
            set@.previous_commit,
            chain@.pairs,
            trees@,
        )),
{
    let ghost lv = set@.links;
    if let None = chain.find_key(&set.previous_commit) {
        return Err(ResolveError::AnchorNotOnChain);
    }
    let mut out: Vec<LinkOutcome> = Vec::new();
    let mut k: usize = 0;
    proof {
        assert(lv.skip(0) =~= lv);
        assert(outcome_views(out@) =~= Seq::<
            (Seq<u8>, Result<(Seq<u8>, Seq<u8>, bool), ResolveErrorV>),
        >::empty());
    }
    while k < set.links.len()
        invariant
            0 <= k <= set.links@.len(),
            lv == set@.links,
            lv.len() == set.links@.len(),
            chain_index_of(chain@.pairs, set@.previous_commit) >= 0,
            spec_set_outcomes(lv, set@.previous_commit, chain@.pairs, trees@) == outcome_views(out@)
                + spec_set_outcomes(lv.skip(k as int), set@.previous_commit, chain@.pairs, trees@),
        decreases set.links@.len() - k,
    {
        proof {
            assert(lv.skip(k as int)[0] == lv[k as int]);
            assert(lv.skip(k as int).skip(1) =~= lv.skip(k as int + 1));
            assert(lv[k as int] == set.links@[k as int]@);
        }
        let link = &set.links[k];
        match &link.first {
            crate::parse::Object::Fragment { blob_id, .. } => {
                let result = resolve_fragment(
                    &link.id,
                    blob_id,
                    &set.previous_commit,
                    chain,
                    trees,
                );
                let ghost old_out = out@;
                out.push(LinkOutcome { link: link.id.copied(), result });
                proof {
                    assert(outcome_views(out@) =~= outcome_views(old_out) + seq![
                        (lv[k as int].id, spec_resolve_fragment(
                            set@.previous_commit,
                            lv[k as int].first->Fragment_blob_id,
                            chain@.pairs,
                            trees@,
                        )),
                    ]);
                    assert(outcome_views(old_out) + spec_set_outcomes(
                        lv.skip(k as int),
                        set@.previous_commit,
                        chain@.pairs,
                        trees@,
                    ) =~= outcome_views(out@) + spec_set_outcomes(
                        lv.skip(k as int + 1),
                        set@.previous_commit,
                        chain@.pairs,
                        trees@,
                    ));
                }
            },
            crate::parse::Object::Path(_) => {
                proof {
                    assert(spec_set_outcomes(
                        lv.skip(k as int),
                        set@.previous_commit,
                        chain@.pairs,
                        trees@,
                    ) == spec_set_outcomes(
                        lv.skip(k as int + 1),
                        set@.previous_commit,
                        chain@.pairs,
                        trees@,
                    ));
                }
            },
        }
        k = k + 1;
    }
    proof {
        assert(lv.skip(k as int) =~= Seq::<LinkV>::empty());
        assert(outcome_views(out@) + spec_set_outcomes(
            lv.skip(k as int),
            set@.previous_commit,
            chain@.pairs,
            trees@,
        ) =~= outcome_views(out@));
    }
    Ok(out)
}

// ---------------------------------------------------------------------------
// Laws of the walk.
// ---------------------------------------------------------------------------

/// Divergence is reported at the first commit, scanning oldest to newest:
/// every commit the walk visited before the reported one still carried the
/// original identifier, so a later divergence is never reported past an
/// earlier one.
pub proof fn lemma_first_divergence(
    pairs: Seq<(Seq<u8>, Seq<u8>)>,
    trees: Seq<CommitTreeV>,
    name: Seq<u8>,
    orig: Seq<u8>,
    j: int,
)
    requires
        0 <= j < pairs.len(),
        spec_walk(pairs, trees, name, orig, j) matches Ok(out) && out.2 == true,
    ensures
        exists|i: int|
            {
                &&& 0 <= i <= j
                &&& spec_walk(pairs, trees, name, orig, j) == Ok::<
                    (Seq<u8>, Seq<u8>, bool),
                    ResolveErrorV,
                >((pairs[i].1, walked_id(pairs, trees, name, i)->Some_0, true))
                &&& walked_id(pairs, trees, name, i) matches Some(found) && found != orig
                &&& forall|k: int| i < k <= j ==> walked_id(pairs, trees, name, k) == Some(orig)
            },
    decreases j,
{
    let found_j = walked_id(pairs, trees, name, j);
    if found_j is Some && found_j->Some_0 != orig {
        assert(spec_walk(pairs, trees, name, orig, j) == Ok::<
            (Seq<u8>, Seq<u8>, bool),
            ResolveErrorV,
        >((pairs[j].1, found_j->Some_0, true)));
        assert(forall|k: int| j < k <= j ==> walked_id(pairs, trees, name, k) == Some(orig));
    } else {
        assert(found_j == Some(orig));
        assert(j > 0);
        lemma_first_divergence(pairs, trees, name, orig, j - 1);
        let i = choose|i: int|
            {
                &&& 0 <= i <= j - 1
                &&& spec_walk(pairs, trees, name, orig, j - 1) == Ok::<
                    (Seq<u8>, Seq<u8>, bool),
                    ResolveErrorV,
                >((pairs[i].1, walked_id(pairs, trees, name, i)->Some_0, true))
                &&& walked_id(pairs, trees, name, i) matches Some(found) && found != orig
                &&& forall|k: int| i < k <= j - 1 ==> walked_id(pairs, trees, name, k)
                    == Some(orig)
            };
        assert(forall|k: int| i < k <= j ==> walked_id(pairs, trees, name, k) == Some(orig));
    }
}

/// When the tracked name carries the original identifier at every visited
/// commit, the walk succeeds with the distinct "no divergence" outcome at
/// the head — never a `NameVanished` failure.
pub proof fn lemma_unchanged_when_stable(
    pairs: Seq<(Seq<u8>, Seq<u8>)>,
    trees: Seq<CommitTreeV>,
    name: Seq<u8>,
    orig: Seq<u8>,
    j: int,
)
    requires
        0 <= j < pairs.len(),
        forall|k: int| 0 <= k <= j ==> walked_id(pairs, trees, name, k) == Some(orig),
    ensures
        spec_walk(pairs, trees, name, orig, j) == Ok::<(Seq<u8>, Seq<u8>, bool), ResolveErrorV>(
            (pairs[0].1, orig, false),
        ),
    decreases j,
{
    assert(walked_id(pairs, trees, name, j) == Some(orig));
    if j > 0 {
        lemma_unchanged_when_stable(pairs, trees, name, orig, j - 1);
    }
}

} // verus!
