//! A mathematical model of a directory tree, and the laws of a whole
//! traversal run over it.
//!
//! `FsNode` is a ghost snapshot of a file or a directory: listings in
//! listing order, file contents as byte sequences. `run_records` is
//! what a run of the traversal discovers on such a snapshot — the
//! (path, fingerprint) pairs in discovery order — and `run_index` the
//! index built from them. The laws proved here: the run is a function
//! of the snapshot and the configuration alone (so an unmodified tree
//! gives identical results twice); without recursion the run sees
//! exactly the root's own eligible files; with recursion it sees
//! exactly the eligible files reachable by descent through eligible
//! directories.

use vstd::prelude::*;

use crate::hasher::fingerprint_of;
use crate::index::{
    lemma_record_all_lookup, lookup, paths_with, record_all, record_paths, GroupView,
};
use crate::walk::{eligible_dir_paths, eligible_file_paths, spec_eligible, EntryView, RunConfig};

verus! {

/// Ghost snapshot of one filesystem entry: a file with its content,
/// or a directory with its listing, in listing order.
pub ghost enum FsNode {
    File { path: Seq<char>, hidden: bool, content: Seq<u8> },
    Dir { path: Seq<char>, hidden: bool, entries: Seq<FsNode> },
}

impl FsNode {
    pub open spec fn path(self) -> Seq<char> {
        match self {
            FsNode::File { path, .. } => path,
            FsNode::Dir { path, .. } => path,
        }
    }

    pub open spec fn hidden(self) -> bool {
        match self {
            FsNode::File { hidden, .. } => hidden,
            FsNode::Dir { hidden, .. } => hidden,
        }
    }

    pub open spec fn is_dir(self) -> bool {
        self is Dir
    }

    /// A file's bytes; a directory has none.
    pub open spec fn content(self) -> Seq<u8> {
        match self {
            FsNode::File { content, .. } => content,
            FsNode::Dir { .. } => Seq::empty(),
        }
    }

    /// A directory's listing; a file has none.
    pub open spec fn children(self) -> Seq<FsNode> {
        match self {
            FsNode::File { .. } => Seq::empty(),
            FsNode::Dir { entries, .. } => entries,
        }
    }

    /// How the walker sees this node in its parent's listing.
    pub open spec fn entry_view(self) -> EntryView {
        EntryView { path: self.path(), is_dir: self.is_dir(), hidden: self.hidden() }
    }
}

/// The listing of a directory's children, as the walker would see it.
pub open spec fn listing_of(children: Seq<FsNode>) -> Seq<EntryView>
    decreases children.len(),
{
    if children.len() == 0 {
        Seq::empty()
    } else {
        listing_of(children.drop_last()).push(children.last().entry_view())
    }
}

/// Number of entries in a subtree, the node itself included.
pub open spec fn node_size(n: FsNode) -> nat
    decreases n, 0int,
{
    match n {
        FsNode::File { .. } => 1,
        FsNode::Dir { entries, .. } => 1 + forest_size(entries),
    }
}

/// Number of entries in a whole sequence of subtrees.
pub open spec fn forest_size(s: Seq<FsNode>) -> nat
    decreases s, s.len(),
{
    if s.len() == 0 {
        0
    } else {
        node_size(s.first()) + forest_size(s.subrange(1, s.len() as int))
    }
}

/// A node always holds one more entry than its own listing.
proof fn lemma_node_size_children(n: FsNode)
    ensures
        node_size(n) == 1 + forest_size(n.children()),
{
    match n {
        FsNode::File { .. } => {
            assert(forest_size(n.children()) == 0);
        },
        FsNode::Dir { .. } => {},
    }
}

/// Sizes add up over concatenation.
proof fn lemma_forest_size_concat(a: Seq<FsNode>, b: Seq<FsNode>)
    ensures
        forest_size(a + b) == forest_size(a) + forest_size(b),
    decreases a.len(),
{
    if a.len() == 0 {
        assert(a + b =~= b);
    } else {
        assert((a + b).first() == a.first());
        assert((a + b).subrange(1, (a + b).len() as int) =~= a.subrange(1, a.len() as int) + b);
        lemma_forest_size_concat(a.subrange(1, a.len() as int), b);
    }
}

/// A single node's size, as a forest of one.
proof fn lemma_forest_size_singleton(n: FsNode)
    ensures
        forest_size(seq![n]) == node_size(n),
{
    assert(seq![n].first() == n);
    assert(seq![n].subrange(1, 1) =~= Seq::<FsNode>::empty());
    assert(forest_size(Seq::<FsNode>::empty()) == 0);
    assert(forest_size(seq![n]) == node_size(n) + forest_size(seq![n].subrange(1, 1)));
}

/// Appending one node adds its size.
proof fn lemma_forest_size_push(s: Seq<FsNode>, n: FsNode)
    ensures
        forest_size(s.push(n)) == forest_size(s) + node_size(n),
{
    assert(s.push(n) =~= s + seq![n]);
    lemma_forest_size_concat(s, seq![n]);
    lemma_forest_size_singleton(n);
}

/// The eligible files of one listing, as (path, fingerprint of
/// content) records in listing order.
pub open spec fn eligible_file_records(children: Seq<FsNode>, include_hidden: bool) -> Seq<
    (Seq<char>, Seq<char>),
>
    decreases children.len(),
{
    if children.len() == 0 {
        Seq::empty()
    } else {
        let rest = eligible_file_records(children.drop_last(), include_hidden);
        let c = children.last();
        if spec_eligible(c.hidden(), include_hidden) && !c.is_dir() {
            rest.push((c.path(), fingerprint_of(c.content())))
        } else {
            rest
        }
    }
}

/// The eligible subdirectories of one listing, in listing order.
pub open spec fn eligible_subdir_nodes(children: Seq<FsNode>, include_hidden: bool) -> Seq<FsNode>
    decreases children.len(),
{
    if children.len() == 0 {
        Seq::empty()
    } else {
        let rest = eligible_subdir_nodes(children.drop_last(), include_hidden);
        let c = children.last();
        if spec_eligible(c.hidden(), include_hidden) && c.is_dir() {
            rest.push(c)
        } else {
            rest
        }
    }
}

/// The paths of a sequence of nodes, in order.
pub open spec fn node_paths(nodes: Seq<FsNode>) -> Seq<Seq<char>>
    decreases nodes.len(),
{
    if nodes.len() == 0 {
        Seq::empty()
    } else {
        node_paths(nodes.drop_last()).push(nodes.last().path())
    }
}

/// Dropping eligible subdirectories never grows the forest.
proof fn lemma_forest_size_subdirs(children: Seq<FsNode>, include_hidden: bool)
    ensures
        forest_size(eligible_subdir_nodes(children, include_hidden)) <= forest_size(children),
    decreases children.len(),
{
    if children.len() > 0 {
        let rest = children.drop_last();
        lemma_forest_size_subdirs(rest, include_hidden);
        assert(children =~= rest.push(children.last()));
        lemma_forest_size_push(rest, children.last());
        if spec_eligible(children.last().hidden(), include_hidden) && children.last().is_dir() {
            lemma_forest_size_push(
                eligible_subdir_nodes(rest, include_hidden),
                children.last(),
            );
        }
    }
}

/// `record_paths` commutes with appending one record.
proof fn lemma_record_paths_push(records: Seq<(Seq<char>, Seq<char>)>, r: (Seq<char>, Seq<char>))
    ensures
        record_paths(records.push(r)) == record_paths(records).push(r.0),
    decreases records.len(),
{
    if records.len() == 0 {
        assert(records.push(r).first() == r);
        assert(records.push(r).drop_first() =~= Seq::<(Seq<char>, Seq<char>)>::empty());
        assert(record_paths(records.push(r).drop_first()) == Seq::<Seq<char>>::empty());
        assert(record_paths(records.push(r)) =~= record_paths(records).push(r.0));
    } else {
        assert(records.push(r).first() == records.first());
        assert(records.push(r).drop_first() =~= records.drop_first().push(r));
        lemma_record_paths_push(records.drop_first(), r);
        assert(record_paths(records.push(r)) == seq![records.first().0] + record_paths(
            records.drop_first().push(r),
        ));
        assert(record_paths(records.push(r)) =~= record_paths(records).push(r.0));
    }
}

/// The model walks a listing exactly as the walker does: the files it
/// fingerprints are the eligible file paths of the listing, and the
/// directories it descends into are the eligible directory paths.
pub proof fn lemma_model_matches_walker(children: Seq<FsNode>, include_hidden: bool)
    ensures
        record_paths(eligible_file_records(children, include_hidden)) == eligible_file_paths(
            listing_of(children),
            include_hidden,
        ),
        node_paths(eligible_subdir_nodes(children, include_hidden)) == eligible_dir_paths(
            listing_of(children),
            include_hidden,
        ),
    decreases children.len(),
{
    if children.len() > 0 {
        let rest = children.drop_last();
        let c = children.last();
        lemma_model_matches_walker(rest, include_hidden);
        assert(listing_of(children).drop_last() =~= listing_of(rest));
        assert(listing_of(children).last() == c.entry_view());
        if spec_eligible(c.hidden(), include_hidden) && !c.is_dir() {
            lemma_record_paths_push(
                eligible_file_records(rest, include_hidden),
                (c.path(), fingerprint_of(c.content())),
            );
        }
        if spec_eligible(c.hidden(), include_hidden) && c.is_dir() {
            assert(eligible_subdir_nodes(children, include_hidden) == eligible_subdir_nodes(
                rest,
                include_hidden,
            ).push(c));
            assert(eligible_subdir_nodes(rest, include_hidden).push(c).drop_last()
                =~= eligible_subdir_nodes(rest, include_hidden));
        }
    }
}

/// What a breadth-first run discovers from a queue of pending
/// directories: each queue entry's eligible files in listing order,
/// front of the queue first; with recursion on, eligible
/// subdirectories join the back of the queue as they are found.
pub open spec fn bfs_records(queue: Seq<FsNode>, include_hidden: bool, recurse: bool) -> Seq<
    (Seq<char>, Seq<char>),
>
    decreases forest_size(queue),
    via bfs_records_decreases
{
    if queue.len() == 0 {
        Seq::empty()
    } else {
        let d = queue.first();
        let here = eligible_file_records(d.children(), include_hidden);
        let next = if recurse {
            queue.drop_first() + eligible_subdir_nodes(d.children(), include_hidden)
        } else {
            queue.drop_first()
        };
        here + bfs_records(next, include_hidden, recurse)
    }
}

#[via_fn]
proof fn bfs_records_decreases(queue: Seq<FsNode>, include_hidden: bool, recurse: bool) {
    if queue.len() > 0 {
        let d = queue.first();
        assert(queue.drop_first() =~= queue.subrange(1, queue.len() as int));
        lemma_node_size_children(d);
        lemma_forest_size_subdirs(d.children(), include_hidden);
        lemma_forest_size_concat(
            queue.drop_first(),
            eligible_subdir_nodes(d.children(), include_hidden),
        );
    }
}

/// Everything one run discovers, in discovery order: the queue starts
/// with the root alone, and the root is walked whatever the recurse
/// flag says.
pub open spec fn run_records(root: FsNode, config: RunConfig) -> Seq<(Seq<char>, Seq<char>)> {
    bfs_records(seq![root], config.include_hidden, config.recurse)
}

/// The index a whole run builds: its records folded into groups.
pub open spec fn run_index(root: FsNode, config: RunConfig) -> Seq<GroupView> {
    record_all(Seq::empty(), run_records(root, config))
}

/// Idempotence: a traversal is a function of the snapshot and the
/// configuration alone, so two runs over an unmodified tree yield
/// identical index contents — the same groups, the same paths inside
/// each group, in the same order.
pub proof fn lemma_traversal_idempotent(
    tree_then: FsNode,
    tree_again: FsNode,
    config: RunConfig,
)
    requires
        tree_then == tree_again,
    ensures
        run_index(tree_then, config) == run_index(tree_again, config),
{
}

/// Completeness without recursion: the run discovers exactly the
/// eligible files immediately inside the root — whatever hangs below
/// its subdirectories — and the index is exactly those records folded
/// in listing order.
pub proof fn lemma_non_recursive_completeness(root: FsNode, config: RunConfig)
    requires
        !config.recurse,
    ensures
        run_records(root, config) == eligible_file_records(
            root.children(),
            config.include_hidden,
        ),
        run_index(root, config) == record_all(
            Seq::empty(),
            eligible_file_records(root.children(), config.include_hidden),
        ),
{
    let here = eligible_file_records(root.children(), config.include_hidden);
    assert(seq![root].first() == root);
    assert(seq![root].drop_first() =~= Seq::<FsNode>::empty());
    assert(bfs_records(seq![root], config.include_hidden, false) == here + bfs_records(
        seq![root].drop_first(),
        config.include_hidden,
        false,
    ));
    assert(bfs_records(seq![root].drop_first(), config.include_hidden, false) == Seq::<
        (Seq<char>, Seq<char>),
    >::empty());
    assert(here + Seq::<(Seq<char>, Seq<char>)>::empty() =~= here);
}

/// The records reachable from one node by unlimited descent through
/// eligible directories: its listing's eligible files, and everything
/// reachable from its listing's eligible subdirectories.
pub open spec fn reachable_records(n: FsNode, include_hidden: bool) -> Set<(Seq<char>, Seq<char>)>
    decreases node_size(n), 0int,
    via reachable_records_decreases
{
    eligible_file_records(n.children(), include_hidden).to_set() + reachable_forest(
        eligible_subdir_nodes(n.children(), include_hidden),
        include_hidden,
    )
}

/// The records reachable from any of a sequence of nodes.
pub open spec fn reachable_forest(dirs: Seq<FsNode>, include_hidden: bool) -> Set<
    (Seq<char>, Seq<char>),
>
    decreases forest_size(dirs), dirs.len() as int,
    via reachable_forest_decreases
{
    if dirs.len() == 0 {
        Set::empty()
    } else {
        reachable_records(dirs.first(), include_hidden) + reachable_forest(
            dirs.drop_first(),
            include_hidden,
        )
    }
}

#[via_fn]
proof fn reachable_records_decreases(n: FsNode, include_hidden: bool) {
    lemma_node_size_children(n);
    lemma_forest_size_subdirs(n.children(), include_hidden);
}

#[via_fn]
proof fn reachable_forest_decreases(dirs: Seq<FsNode>, include_hidden: bool) {
    if dirs.len() > 0 {
        assert(dirs.drop_first() =~= dirs.subrange(1, dirs.len() as int));
    }
}

/// Membership in a concatenation of record sequences.
proof fn lemma_to_set_concat(a: Seq<(Seq<char>, Seq<char>)>, b: Seq<(Seq<char>, Seq<char>)>)
    ensures
        (a + b).to_set() == a.to_set() + b.to_set(),
{
    assert forall|x: (Seq<char>, Seq<char>)| (a + b).to_set().contains(x) implies (a.to_set()
        + b.to_set()).contains(x) by {
        let i = choose|i: int| 0 <= i < (a + b).len() && (a + b)[i] == x;
        if i < a.len() {
            assert(a[i] == x);
        } else {
            assert(b[i - a.len()] == x);
        }
    }
    assert forall|x: (Seq<char>, Seq<char>)| (a.to_set() + b.to_set()).contains(x) implies (a
        + b).to_set().contains(x) by {
        if a.to_set().contains(x) {
            let i = choose|i: int| 0 <= i < a.len() && a[i] == x;
            assert((a + b)[i] == x);
        } else {
            let i = choose|i: int| 0 <= i < b.len() && b[i] == x;
            assert((a + b)[a.len() + i] == x);
        }
    }
    assert((a + b).to_set() =~= a.to_set() + b.to_set());
}

/// Reachability distributes over concatenation of queues.
proof fn lemma_reachable_forest_concat(a: Seq<FsNode>, b: Seq<FsNode>, include_hidden: bool)
    ensures
        reachable_forest(a + b, include_hidden) == reachable_forest(a, include_hidden)
            + reachable_forest(b, include_hidden),
    decreases a.len(),
{
    if a.len() == 0 {
        assert(a + b =~= b);
        assert(reachable_forest(a, include_hidden) + reachable_forest(b, include_hidden)
            =~= reachable_forest(b, include_hidden));
    } else {
        assert((a + b).first() == a.first());
        assert((a + b).drop_first() =~= a.drop_first() + b);
        lemma_reachable_forest_concat(a.drop_first(), b, include_hidden);
        assert(reachable_forest(a + b, include_hidden) =~= reachable_forest(a, include_hidden)
            + reachable_forest(b, include_hidden));
    }
}

/// A recursive breadth-first run from any queue discovers exactly the
/// records reachable from the queue's entries.
proof fn lemma_bfs_reachable(queue: Seq<FsNode>, include_hidden: bool)
    ensures
        bfs_records(queue, include_hidden, true).to_set() == reachable_forest(
            queue,
            include_hidden,
        ),
    decreases forest_size(queue),
{
    if queue.len() == 0 {
        assert(bfs_records(queue, include_hidden, true).to_set() =~= Set::<
            (Seq<char>, Seq<char>),
        >::empty());
    } else {
        let d = queue.first();
        let here = eligible_file_records(d.children(), include_hidden);
        let subs = eligible_subdir_nodes(d.children(), include_hidden);
        let next = queue.drop_first() + subs;
        assert(queue.drop_first() =~= queue.subrange(1, queue.len() as int));
        lemma_node_size_children(d);
        lemma_forest_size_subdirs(d.children(), include_hidden);
        lemma_forest_size_concat(queue.drop_first(), subs);
        lemma_bfs_reachable(next, include_hidden);
        lemma_to_set_concat(here, bfs_records(next, include_hidden, true));
        lemma_reachable_forest_concat(queue.drop_first(), subs, include_hidden);
        assert(bfs_records(queue, include_hidden, true) == here + bfs_records(
            next,
            include_hidden,
            true,
        ));
        assert(reachable_forest(queue, include_hidden) == reachable_records(d, include_hidden)
            + reachable_forest(queue.drop_first(), include_hidden));
        assert(reachable_records(d, include_hidden) == here.to_set() + reachable_forest(
            subs,
            include_hidden,
        ));
        assert(bfs_records(queue, include_hidden, true).to_set() =~= reachable_forest(
            queue,
            include_hidden,
        ));
    }
}

/// Grouping in a run: the index a run builds lists, under each
/// fingerprint it knows, exactly the discovered files of that
/// fingerprint, in discovery order — and knows a fingerprint exactly
/// when the run discovered at least one such file.
pub proof fn lemma_run_grouping(root: FsNode, config: RunConfig, fp: Seq<char>)
    ensures
        lookup(run_index(root, config), fp) == (if paths_with(
            run_records(root, config),
            fp,
        ).len() == 0 {
            None::<Seq<Seq<char>>>
        } else {
            Some(paths_with(run_records(root, config), fp))
        }),
{
    lemma_record_all_lookup(Seq::empty(), run_records(root, config), fp);
}

/// Resilience: a pending directory that yields nothing — one whose
/// listing could not be read, modeled as a node with no listing —
/// contributes no records, and every sibling and already-queued
/// directory is walked exactly as it would have been without it; the
/// run still ends.
pub proof fn lemma_resilience(
    before: Seq<FsNode>,
    failed: FsNode,
    after: Seq<FsNode>,
    include_hidden: bool,
    recurse: bool,
)
    requires
        failed.children() == Seq::<FsNode>::empty(),
    ensures
        bfs_records(before + seq![failed] + after, include_hidden, recurse) == bfs_records(
            before + after,
            include_hidden,
            recurse,
        ),
    decreases forest_size(before + seq![failed] + after),
{
    let q = before + seq![failed] + after;
    if before.len() == 0 {
        assert(q =~= seq![failed] + after);
        assert(q.first() == failed);
        assert(eligible_file_records(failed.children(), include_hidden) == Seq::<
            (Seq<char>, Seq<char>),
        >::empty());
        assert(eligible_subdir_nodes(failed.children(), include_hidden) == Seq::<
            FsNode,
        >::empty());
        assert(q.drop_first() =~= after);
        if recurse {
            assert(q.drop_first() + eligible_subdir_nodes(failed.children(), include_hidden)
                =~= after);
        }
        assert(before + after =~= after);
        assert(Seq::<(Seq<char>, Seq<char>)>::empty() + bfs_records(
            after,
            include_hidden,
            recurse,
        ) =~= bfs_records(after, include_hidden, recurse));
    } else {
        let d = q.first();
        assert(d == before.first());
        assert((before + after).first() == d);
        let subs = eligible_subdir_nodes(d.children(), include_hidden);
        let tail_after = if recurse {
            after + subs
        } else {
            after
        };
        // The measure shrinks: the popped directory leaves, and at
        // most its own listing joins.
        assert(q.drop_first() =~= q.subrange(1, q.len() as int));
        lemma_node_size_children(d);
        lemma_forest_size_subdirs(d.children(), include_hidden);
        lemma_forest_size_concat(before.drop_first() + seq![failed] + after, subs);
        lemma_forest_size_singleton(failed);
        assert(q.drop_first() =~= before.drop_first() + seq![failed] + after);
        if recurse {
            assert(before.drop_first() + seq![failed] + tail_after =~= (before.drop_first()
                + seq![failed] + after) + subs);
        }
        lemma_resilience(before.drop_first(), failed, tail_after, include_hidden, recurse);
        if recurse {
            assert(q.drop_first() + subs =~= before.drop_first() + seq![failed] + tail_after);
            assert((before + after).drop_first() + subs =~= before.drop_first() + tail_after);
        } else {
            assert((before + after).drop_first() =~= before.drop_first() + tail_after);
        }
    }
}

/// Completeness under recursion: the run discovers exactly the
/// eligible files reachable by unlimited descent from the root.
pub proof fn lemma_recursive_completeness(root: FsNode, config: RunConfig)
    requires
        config.recurse,
    ensures
        run_records(root, config).to_set() == reachable_records(root, config.include_hidden),
{
    lemma_bfs_reachable(seq![root], config.include_hidden);
    assert(seq![root].first() == root);
    assert(seq![root].drop_first() =~= Seq::<FsNode>::empty());
    assert(reachable_forest(seq![root], config.include_hidden) == reachable_records(
        root,
        config.include_hidden,
    ) + reachable_forest(seq![root].drop_first(), config.include_hidden));
    assert(reachable_forest(seq![root].drop_first(), config.include_hidden) == Set::<
        (Seq<char>, Seq<char>),
    >::empty());
    assert(reachable_forest(seq![root], config.include_hidden) =~= reachable_records(
        root,
        config.include_hidden,
    ));
}

} // verus!
