//! The orchestrator: breadth-first traversal over a queue of pending
//! directories.
//!
//! The traversal is a state machine. The caller, who alone touches the
//! filesystem, drains it: ask for the next pending directory, hand its
//! listing back, hash the files the machine points out, and record each
//! (path, fingerprint) pair. Every transition is pinned exactly, so the
//! finished index is a function of the listings and fingerprints the
//! caller handed in. A directory that cannot be read is simply never
//! handed back; the machine carries on with the rest of the queue.

use vstd::prelude::*;

use crate::index::{record_spec, DuplicateIndex, GroupView};
use crate::walk::{classify_entries, eligible_dir_paths, eligible_file_paths, FileEntry, RunConfig};
use std::collections::VecDeque;

verus! {

/// A breadth-first traversal in progress: the run's configuration, the
/// pending directories in first-in first-out order, and the index
/// built so far.
pub struct Traversal {
    config: RunConfig,
    queue: VecDeque<String>,
    index: DuplicateIndex,
}

impl Traversal {
    /// The run's configuration.
    pub closed spec fn config(&self) -> RunConfig {
        self.config
    }

    /// The pending directory paths, front first.
    pub closed spec fn queue(&self) -> Seq<Seq<char>> {
        Seq::new(self.queue@.len(), |i: int| self.queue@[i]@)
    }

    /// The groups recorded so far.
    pub closed spec fn index(&self) -> Seq<GroupView> {
        self.index@
    }

    /// A traversal seeded with the root directory alone. The root is
    /// walked once whatever the recurse flag says.
    pub fn start(config: RunConfig, root: String) -> (t: Traversal)
        ensures
            t.config() == config,
            t.queue() == seq![root@],
            t.index() == Seq::<GroupView>::empty(),
    {
        let mut queue: VecDeque<String> = VecDeque::new();
        queue.push_back(root);
        let t = Traversal { config, queue, index: DuplicateIndex::new() };
        proof {
            assert(t.queue() =~= seq![root@]);
        }
        t
    }

    /// Pops the front of the queue: the next directory to list, or
    /// nothing when the queue is empty and the run is over.
    pub fn next_directory(&mut self) -> (r: Option<String>)
        ensures
            final(self).config() == old(self).config(),
            final(self).index() == old(self).index(),
            match r {
                Some(d) => old(self).queue().len() > 0 && d@ == old(self).queue().first()
                    && final(self).queue() == old(self).queue().drop_first(),
                None => old(self).queue().len() == 0 && final(self).queue() == old(self).queue(),
            },
    {
        let r = self.queue.pop_front();
        proof {
            if old(self).queue@.len() > 0 {
                assert(self.queue() =~= old(self).queue().drop_first());
            } else {
                assert(self.queue() =~= old(self).queue());
            }
        }
        r
    }

    /// Takes one directory's listing: hidden entries are dropped
    /// unless included, eligible subdirectories join the back of the
    /// queue when the run recurses, and the eligible files come back,
    /// in listing order, for the caller to hash.
    #[verifier::loop_isolation(false)]
    pub fn process_listing(&mut self, entries: &Vec<FileEntry>) -> (files: Vec<String>)
        ensures
            final(self).config() == old(self).config(),
            final(self).index() == old(self).index(),
            files.deep_view() == eligible_file_paths(
                entries.deep_view(),
                old(self).config().include_hidden,
            ),
            final(self).queue() == old(self).queue() + (if old(self).config().recurse {
                eligible_dir_paths(entries.deep_view(), old(self).config().include_hidden)
            } else {
                Seq::<Seq<char>>::empty()
            }),
    {
        let (files, dirs) = classify_entries(entries, self.config.include_hidden);
        if self.config.recurse {
            let ghost q0 = self.queue();
            let n = dirs.len();
            for i in 0..n
                invariant
                    n == dirs.len(),
                    self.config == old(self).config(),
                    self.index() == old(self).index(),
                    q0 == old(self).queue(),
                    dirs.deep_view() == eligible_dir_paths(
                        entries.deep_view(),
                        old(self).config().include_hidden,
                    ),
                    self.queue() == q0 + dirs.deep_view().take(i as int),
            {
                self.queue.push_back(dirs[i].clone());
                proof {
                    assert(self.queue@.len() == q0.len() + i + 1);
                    assert(forall|k: int|
                        0 <= k < q0.len() + i ==> self.queue()[k] == (q0 + dirs.deep_view().take(
                            i as int,
                        ))[k]);
                    assert(self.queue()[q0.len() + i] == dirs.deep_view()[i as int]);
                    assert(self.queue() =~~= q0 + dirs.deep_view().take(i + 1));
                }
            }
            proof {
                assert(dirs.deep_view().take(n as int) =~= dirs.deep_view());
            }
        } else {
            proof {
                assert(self.queue() =~= old(self).queue() + Seq::<Seq<char>>::empty());
            }
        }
        files
    }

    /// Records one hashed file into the index.
    pub fn record_file(&mut self, path: String, fingerprint: String)
        ensures
            final(self).config() == old(self).config(),
            final(self).queue() == old(self).queue(),
            final(self).index() == record_spec(old(self).index(), fingerprint@, path@),
    {
        self.index.record(path, fingerprint);
    }

    /// Ends the run and hands the accumulated index over.
    pub fn finish(self) -> (r: DuplicateIndex)
        ensures
            r@ == self.index(),
    {
        self.index
    }
}

} // verus!
