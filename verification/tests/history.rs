use kupli::chain::build_chain_from_walk;
use kupli::chain::ChainBuilder;
use kupli::chain::IndexError;
use kupli::diff::events_well_ordered;
use kupli::diff::hunk_count;
use kupli::diff::DiffEvent;
use kupli::ids::parse_link_id;
use kupli::ids::parse_object_id;
use kupli::ids::LinkId;
use kupli::ids::ObjectId;
use kupli::loader::read_links;
use kupli::resolve::resolve_fragment;
use kupli::resolve::resolve_set;
use kupli::resolve::CommitTree;
use kupli::resolve::RepoTrees;
use kupli::resolve::Resolution;
use kupli::resolve::ResolveError;
use kupli::resolve::TreeEntry;

fn bytes(s: &str) -> Vec<u8> {
    s.as_bytes().to_vec()
}

fn oid(s: &str) -> ObjectId {
    parse_object_id(&bytes(s)).unwrap()
}

fn link_id() -> LinkId {
    parse_link_id(&bytes("550e8400-e29b-41d4-a716-446655440000")).unwrap()
}

const C0: &str = "c000000000000000000000000000000000000000";
const C1: &str = "c100000000000000000000000000000000000000";
const C2: &str = "c200000000000000000000000000000000000000";
const X: &str = "aaaaaaaaaaaaaaaaaaaaaaaaaaaaaaaaaaaaaaaa";
const Y: &str = "bbbbbbbbbbbbbbbbbbbbbbbbbbbbbbbbbbbbbbbb";
const D: &str = "dddddddddddddddddddddddddddddddddddddddd";

fn entry(name: &str, id: &str) -> TreeEntry {
    TreeEntry { name: bytes(name), id: oid(id), is_blob: true }
}

fn tree(commit: &str, entries: Vec<TreeEntry>) -> CommitTree {
    CommitTree { commit: oid(commit), entries }
}

/// The chain of the straight-line history C0 -> C1 -> C2, the head C2.
fn chain_c0_c1_c2() -> kupli::chain::CommitChain {
    let walk = vec![oid(C2), oid(C1), oid(C0)];
    build_chain_from_walk(&walk).unwrap()
}

#[test]
fn straight_line_chain_has_n_minus_one_entries() {
    let chain = chain_c0_c1_c2();
    assert_eq!(chain.pairs.len(), 2);
    for (parent, child) in &chain.pairs {
        assert_ne!(parent, child);
    }
    assert_eq!(chain.next_of(&oid(C1)), Some(oid(C2)));
    assert_eq!(chain.next_of(&oid(C0)), Some(oid(C1)));
    // The head ends every forward walk: it is never a key.
    assert_eq!(chain.next_of(&oid(C2)), None);
    assert_eq!(chain.next_of(&oid(D)), None);
}

#[test]
fn repeated_commit_is_corrupt_history() {
    let walk = vec![oid(C2), oid(C1), oid(C2)];
    assert_eq!(build_chain_from_walk(&walk), Err(IndexError::CorruptHistory));
}

#[test]
fn builder_steps_match_walk() {
    let mut b = ChainBuilder::new(oid(C2));
    assert_eq!(b.step(&oid(C1)), Ok(()));
    assert_eq!(b.step(&oid(C0)), Ok(()));
    let chain = b.finish();
    assert_eq!(chain, chain_c0_c1_c2());
    let mut again = ChainBuilder::new(oid(C2));
    assert_eq!(again.step(&oid(C1)), Ok(()));
    assert_eq!(again.step(&oid(C2)), Err(IndexError::CorruptHistory));
}

#[test]
fn divergence_is_reported_at_first_change() {
    // `a.txt` holds X at C0 and C1, Y at C2: the transition is at C2.
    let chain = chain_c0_c1_c2();
    let trees = RepoTrees {
        trees: vec![
            tree(C0, vec![entry("a.txt", X)]),
            tree(C1, vec![entry("other", Y), entry("a.txt", X)]),
            tree(C2, vec![entry("a.txt", Y)]),
        ],
    };
    let r = resolve_fragment(&link_id(), &oid(X), &oid(C0), &chain, &trees).unwrap();
    match r {
        Resolution::Diverged(t) => {
            assert_eq!(t.link, link_id());
            assert_eq!(t.old_id, oid(X));
            assert_eq!(t.commit, oid(C2));
            assert_eq!(t.new_id, oid(Y));
        }
        Resolution::Unchanged(_) => panic!("a divergence was expected"),
    }
}

#[test]
fn earlier_divergence_wins() {
    // `a.txt` already differs at C1; C2 differs too, but C1 is reported.
    let chain = chain_c0_c1_c2();
    let trees = RepoTrees {
        trees: vec![
            tree(C0, vec![entry("a.txt", X)]),
            tree(C1, vec![entry("a.txt", Y)]),
            tree(C2, vec![entry("a.txt", D)]),
        ],
    };
    let r = resolve_fragment(&link_id(), &oid(X), &oid(C0), &chain, &trees).unwrap();
    match r {
        Resolution::Diverged(t) => {
            assert_eq!(t.commit, oid(C1));
            assert_eq!(t.new_id, oid(Y));
        }
        Resolution::Unchanged(_) => panic!("a divergence was expected"),
    }
}

#[test]
fn vanished_name_stops_the_walk() {
    // `a.txt` is absent at C1: the walk fails there, it never reaches C2.
    let chain = chain_c0_c1_c2();
    let trees = RepoTrees {
        trees: vec![
            tree(C0, vec![entry("a.txt", X)]),
            tree(C1, vec![entry("renamed.txt", X)]),
            tree(C2, vec![entry("a.txt", Y)]),
        ],
    };
    let r = resolve_fragment(&link_id(), &oid(X), &oid(C0), &chain, &trees);
    assert_eq!(r, Err(ResolveError::NameVanished(oid(C1))));
}

#[test]
fn unchanged_content_is_a_distinct_success() {
    // X all the way to the head: success with "no divergence", at the head.
    let chain = chain_c0_c1_c2();
    let trees = RepoTrees {
        trees: vec![
            tree(C0, vec![entry("a.txt", X)]),
            tree(C1, vec![entry("a.txt", X)]),
            tree(C2, vec![entry("a.txt", X)]),
        ],
    };
    let r = resolve_fragment(&link_id(), &oid(X), &oid(C0), &chain, &trees).unwrap();
    match r {
        Resolution::Unchanged(t) => {
            assert_eq!(t.commit, oid(C2));
            assert_eq!(t.new_id, oid(X));
        }
        Resolution::Diverged(_) => panic!("no divergence was expected"),
    }
}

#[test]
fn blob_not_found_at_anchor() {
    let chain = chain_c0_c1_c2();
    let trees = RepoTrees { trees: vec![tree(C0, vec![entry("a.txt", Y)])] };
    let r = resolve_fragment(&link_id(), &oid(X), &oid(C0), &chain, &trees);
    assert_eq!(r, Err(ResolveError::BlobNotFoundAtAnchor));
}

#[test]
fn missing_tree_is_propagated() {
    let chain = chain_c0_c1_c2();
    let trees = RepoTrees {
        trees: vec![tree(C0, vec![entry("a.txt", X)]), tree(C2, vec![entry("a.txt", Y)])],
    };
    let r = resolve_fragment(&link_id(), &oid(X), &oid(C0), &chain, &trees);
    assert_eq!(r, Err(ResolveError::TreeUnavailable(oid(C1))));
}

fn set_text(header: &str) -> Vec<u8> {
    bytes(&format!(
        "{}\n550e8400-e29b-41d4-a716-446655440000 fragment {} 1 2 3 4 path a.txt\n\
         650e8400-e29b-41d4-a716-446655440000 path a.txt path b.txt\n",
        header, X
    ))
}

#[test]
fn unreachable_anchor_fails_the_whole_set() {
    let set = read_links(&set_text(D)).unwrap();
    let chain = chain_c0_c1_c2();
    let trees = RepoTrees { trees: vec![] };
    assert_eq!(
        resolve_set(&set, &chain, &trees),
        Err(ResolveError::AnchorNotOnChain)
    );
    // The head itself has no chain entry either: a set anchored at the
    // head fails the same way.
    let at_head = read_links(&set_text(C2)).unwrap();
    assert_eq!(
        resolve_set(&at_head, &chain, &trees),
        Err(ResolveError::AnchorNotOnChain)
    );
}

#[test]
fn resolve_set_skips_path_links_and_reports_fragments() {
    let set = read_links(&set_text(C0)).unwrap();
    let chain = chain_c0_c1_c2();
    let trees = RepoTrees {
        trees: vec![
            tree(C0, vec![entry("a.txt", X)]),
            tree(C1, vec![entry("a.txt", X)]),
            tree(C2, vec![entry("a.txt", Y)]),
        ],
    };
    let outcomes = resolve_set(&set, &chain, &trees).unwrap();
    assert_eq!(outcomes.len(), 1);
    assert_eq!(outcomes[0].link, link_id());
    match outcomes[0].result.as_ref().unwrap() {
        Resolution::Diverged(t) => {
            assert_eq!(t.commit, oid(C2));
            assert_eq!(t.new_id, oid(Y));
        }
        Resolution::Unchanged(_) => panic!("a divergence was expected"),
    }
}

#[test]
fn diff_event_order_is_checked() {
    let delta = DiffEvent::Delta { old_present: true, new_present: true };
    let hunk = DiffEvent::Hunk { old_start: 1, old_lines: 2, new_start: 1, new_lines: 3 };
    let line = DiffEvent::Line { origin: b'+' };
    let good = vec![delta, hunk, line, line, hunk, line];
    assert!(events_well_ordered(&good));
    assert_eq!(hunk_count(&good), 2);
    let binary_ok = vec![delta, DiffEvent::Binary];
    assert!(events_well_ordered(&binary_ok));
    assert!(!events_well_ordered(&vec![]));
    assert!(!events_well_ordered(&vec![hunk, delta]));
    assert!(!events_well_ordered(&vec![delta, line]));
    assert!(!events_well_ordered(&vec![delta, hunk, delta]));
    assert!(!events_well_ordered(&vec![delta, hunk, DiffEvent::Binary]));
}
