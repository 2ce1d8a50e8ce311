//! The duplicate index: fingerprint to ordered list of file paths.
//!
//! Groups are kept in first-seen order and the paths inside a group in
//! insertion order, so a run's report is deterministic. `record_spec`
//! is the exact mathematical statement of what recording one
//! (path, fingerprint) pair does; the executable `record` is proved
//! against it.

use vstd::prelude::*;

verus! {

/// One duplicate group: every recorded path whose content carries this
/// fingerprint, in the order the paths were recorded.
pub struct Group {
    pub fingerprint: String,
    pub paths: Vec<String>,
}

/// Mathematical image of a `Group`.
#[verifier::ext_equal]
pub ghost struct GroupView {
    pub fingerprint: Seq<char>,
    pub paths: Seq<Seq<char>>,
}

impl View for Group {
    type V = GroupView;

    open spec fn view(&self) -> GroupView {
        GroupView { fingerprint: self.fingerprint@, paths: self.paths.deep_view() }
    }
}

impl DeepView for Group {
    type V = GroupView;

    open spec fn deep_view(&self) -> GroupView {
        self@
    }
}

/// What recording one (path, fingerprint) pair does to the group list:
/// the path joins the first group with that fingerprint, or a fresh
/// group of one path is appended. Everything else stays as it was.
pub open spec fn record_spec(groups: Seq<GroupView>, fp: Seq<char>, path: Seq<char>) -> Seq<
    GroupView,
>
    decreases groups.len(),
{
    if groups.len() == 0 {
        seq![GroupView { fingerprint: fp, paths: seq![path] }]
    } else if groups.first().fingerprint == fp {
        seq![GroupView { fingerprint: fp, paths: groups.first().paths.push(path) }]
            + groups.drop_first()
    } else {
        seq![groups.first()] + record_spec(groups.drop_first(), fp, path)
    }
}

/// The path list recorded under a fingerprint, if any group carries it.
pub open spec fn lookup(groups: Seq<GroupView>, fp: Seq<char>) -> Option<Seq<Seq<char>>>
    decreases groups.len(),
{
    if groups.len() == 0 {
        None
    } else if groups.first().fingerprint == fp {
        Some(groups.first().paths)
    } else {
        lookup(groups.drop_first(), fp)
    }
}

/// A whole run's worth of recording: folds a stream of
/// (path, fingerprint) pairs into the group list, first pair first.
pub open spec fn record_all(
    groups: Seq<GroupView>,
    records: Seq<(Seq<char>, Seq<char>)>,
) -> Seq<GroupView>
    decreases records.len(),
{
    if records.len() == 0 {
        groups
    } else {
        record_all(record_spec(groups, records.first().1, records.first().0), records.drop_first())
    }
}

/// The paths of a record stream, in order.
pub open spec fn record_paths(records: Seq<(Seq<char>, Seq<char>)>) -> Seq<Seq<char>>
    decreases records.len(),
{
    if records.len() == 0 {
        Seq::empty()
    } else {
        seq![records.first().0] + record_paths(records.drop_first())
    }
}

/// The paths recorded under one fingerprint, in order.
pub open spec fn paths_with(records: Seq<(Seq<char>, Seq<char>)>, fp: Seq<char>) -> Seq<Seq<char>>
    decreases records.len(),
{
    if records.len() == 0 {
        Seq::empty()
    } else if records.first().1 == fp {
        seq![records.first().0] + paths_with(records.drop_first(), fp)
    } else {
        paths_with(records.drop_first(), fp)
    }
}

/// Recording behaves as a map update: the recorded path is appended to
/// the list under its fingerprint (a fresh one-path list if the
/// fingerprint was absent), and the list under every other fingerprint
/// stays exactly as it was.
pub proof fn lemma_record_lookup(groups: Seq<GroupView>, fp: Seq<char>, path: Seq<char>)
    ensures
        lookup(record_spec(groups, fp, path), fp) == match lookup(groups, fp) {
            Some(ps) => Some(ps.push(path)),
            None => Some(seq![path]),
        },
        forall|f2: Seq<char>|
            f2 != fp ==> lookup(record_spec(groups, fp, path), f2) == lookup(groups, f2),
    decreases groups.len(),
{
    let updated = record_spec(groups, fp, path);
    if groups.len() == 0 {
        assert forall|f2: Seq<char>| f2 != fp implies lookup(updated, f2) == lookup(
            groups,
            f2,
        ) by {
            assert(updated.drop_first() =~= Seq::<GroupView>::empty());
            assert(lookup(updated.drop_first(), f2) == None::<Seq<Seq<char>>>);
            assert(lookup(updated, f2) == lookup(updated.drop_first(), f2));
        }
    } else if groups.first().fingerprint == fp {
        assert(updated.drop_first() =~= groups.drop_first());
        assert forall|f2: Seq<char>| f2 != fp implies lookup(updated, f2) == lookup(
            groups,
            f2,
        ) by {
            assert(lookup(updated, f2) == lookup(groups.drop_first(), f2));
        }
    } else {
        lemma_record_lookup(groups.drop_first(), fp, path);
        assert(updated.drop_first() =~= record_spec(groups.drop_first(), fp, path));
        assert(updated.first() == groups.first());
        assert forall|f2: Seq<char>| f2 != fp implies lookup(updated, f2) == lookup(
            groups,
            f2,
        ) by {
            if f2 != groups.first().fingerprint {
                assert(lookup(updated, f2) == lookup(
                    record_spec(groups.drop_first(), fp, path),
                    f2,
                ));
                assert(lookup(groups, f2) == lookup(groups.drop_first(), f2));
            }
        }
    }
}

/// The duplicate groups among a group list: exactly those whose path
/// list has more than one member, in first-seen order.
pub open spec fn duplicates_of(groups: Seq<GroupView>) -> Seq<GroupView>
    decreases groups.len(),
{
    if groups.len() == 0 {
        Seq::empty()
    } else if groups.first().paths.len() > 1 {
        seq![groups.first()] + duplicates_of(groups.drop_first())
    } else {
        duplicates_of(groups.drop_first())
    }
}

/// Maps each content fingerprint to the ordered list of file paths
/// that produced it.
pub struct DuplicateIndex {
    groups: Vec<Group>,
}

impl View for DuplicateIndex {
    type V = Seq<GroupView>;

    closed spec fn view(&self) -> Seq<GroupView> {
        self.groups.deep_view()
    }
}

/// Where no group before `i` carries the fingerprint, recording leaves
/// the first `i` groups untouched and works on the rest.
proof fn lemma_record_spec_skip(groups: Seq<GroupView>, fp: Seq<char>, path: Seq<char>, i: int)
    requires
        0 <= i <= groups.len(),
        forall|j: int| 0 <= j < i ==> groups[j].fingerprint != fp,
    ensures
        record_spec(groups, fp, path) == groups.take(i) + record_spec(groups.skip(i), fp, path),
    decreases i,
{
    if i == 0 {
        assert(groups.skip(0) =~= groups);
        assert(groups.take(0) + record_spec(groups, fp, path) =~= record_spec(groups, fp, path));
    } else {
        let rest = groups.drop_first();
        lemma_record_spec_skip(rest, fp, path, i - 1);
        assert(rest.take(i - 1) =~= groups.take(i).drop_first());
        assert(rest.skip(i - 1) =~= groups.skip(i));
        assert(seq![groups.first()] + (rest.take(i - 1) + record_spec(rest.skip(i - 1), fp, path))
            =~= groups.take(i) + record_spec(groups.skip(i), fp, path));
    }
}

impl DuplicateIndex {
    /// An index with no recorded files.
    pub fn new() -> (r: DuplicateIndex)
        ensures
            r@ == Seq::<GroupView>::empty(),
    {
        DuplicateIndex { groups: Vec::new() }
    }

    /// Records one hashed file: the path joins the group of its
    /// fingerprint, or opens a new group at the end.
    pub fn record(&mut self, path: String, fingerprint: String)
        ensures
            final(self)@ == record_spec(old(self)@, fingerprint@, path@),
    {
        let ghost gs = self@;
        let ghost target = record_spec(gs, fingerprint@, path@);
        let n = self.groups.len();
        for i in 0..n
            invariant
                n == self.groups.len(),
                gs == old(self)@,
                gs == self.groups.deep_view(),
                target == record_spec(gs, fingerprint@, path@),
                forall|j: int| 0 <= j < i ==> gs[j].fingerprint != fingerprint@,
        {
            if self.groups[i].fingerprint == fingerprint {
                proof {
                    lemma_record_spec_skip(gs, fingerprint@, path@, i as int);
                    assert(gs.skip(i as int).first() == gs[i as int]);
                }
                self.groups[i].paths.push(path);
                proof {
                    assert forall|k: int| 0 <= k < gs.len() implies self.groups.deep_view()[k]
                        =~~= target[k] by {
                        if k < i {
                            assert(target[k] == gs[k]);
                        } else if k == i {
                            assert(target[k] == GroupView {
                                fingerprint: fingerprint@,
                                paths: gs[i as int].paths.push(path@),
                            });
                        } else {
                            assert(target[k] == gs.skip(i as int).drop_first()[k - i - 1]);
                            assert(gs.skip(i as int).drop_first()[k - i - 1] == gs[k]);
                        }
                    }
                    assert(self.groups.deep_view() =~~= target);
                }
                return ;
            }
        }
        proof {
            lemma_record_spec_skip(gs, fingerprint@, path@, n as int);
            assert(gs.skip(n as int) =~= Seq::<GroupView>::empty());
        }
        let mut paths: Vec<String> = Vec::new();
        paths.push(path);
        self.groups.push(Group { fingerprint, paths });
        proof {
            assert(gs.take(n as int) =~= gs);
            assert forall|k: int| 0 <= k < gs.len() + 1 implies self.groups.deep_view()[k]
                =~~= target[k] by {
                if k < gs.len() {
                    assert(target[k] == gs[k]);
                } else {
                    assert(target[k] == GroupView { fingerprint: fingerprint@, paths: seq![path@] });
                }
            }
            assert(self.groups.deep_view() =~~= target);
        }
    }

    /// How many distinct fingerprints, that is unique file contents,
    /// were recorded.
    pub fn unique_count(&self) -> (r: usize)
        ensures
            r == self@.len(),
    {
        self.groups.len()
    }

    /// Hands the accumulated groups over for reporting, in first-seen
    /// order.
    pub fn finalize(self) -> (r: Vec<Group>)
        ensures
            r.deep_view() == self@,
    {
        self.groups
    }

    /// The duplicate groups alone: every group of more than one path,
    /// in first-seen order, each with its paths in discovery order.
    pub fn duplicate_groups(self) -> (r: Vec<Group>)
        ensures
            r.deep_view() == duplicates_of(self@),
    {
        let ghost gs0 = self@;
        let mut remaining = self.groups;
        let mut out: Vec<Group> = Vec::new();
        while remaining.len() > 0
            invariant
                duplicates_of(gs0) == out.deep_view() + duplicates_of(remaining.deep_view()),
            decreases remaining.len(),
        {
            let ghost before = remaining.deep_view();
            let ghost out_before = out.deep_view();
            let g = remaining.remove(0);
            proof {
                assert(remaining.deep_view() =~= before.drop_first());
                assert(g@ == before.first());
            }
            if g.paths.len() > 1 {
                out.push(g);
                proof {
                    assert(out.deep_view() =~= out_before.push(before.first()));
                    assert(duplicates_of(before) == seq![before.first()] + duplicates_of(
                        before.drop_first(),
                    ));
                    assert(out.deep_view() + duplicates_of(remaining.deep_view())
                        =~= out_before + duplicates_of(before));
                }
            } else {
                proof {
                    assert(duplicates_of(before) == duplicates_of(before.drop_first()));
                }
            }
        }
        proof {
            assert(duplicates_of(remaining.deep_view()) == Seq::<GroupView>::empty());
            assert(out.deep_view() + Seq::<GroupView>::empty() =~= out.deep_view());
        }
        out
    }
}

/// Grouping over a whole run: in the index built from a record
/// stream, the path list under any fingerprint holds exactly the
/// paths recorded with that fingerprint, in discovery order. So N
/// files of byte-identical content give one key whose list is
/// exactly their N paths.
pub proof fn lemma_record_all_lookup(
    groups: Seq<GroupView>,
    records: Seq<(Seq<char>, Seq<char>)>,
    fp: Seq<char>,
)
    ensures
        lookup(record_all(groups, records), fp) == (match lookup(groups, fp) {
            Some(ps) => Some(ps + paths_with(records, fp)),
            None => if paths_with(records, fp).len() == 0 {
                None
            } else {
                Some(paths_with(records, fp))
            },
        }),
    decreases records.len(),
{
    if records.len() == 0 {
        if let Some(ps) = lookup(groups, fp) {
            assert(ps + paths_with(records, fp) =~= ps);
        }
    } else {
        let r = records.first();
        let stepped = record_spec(groups, r.1, r.0);
        lemma_record_lookup(groups, r.1, r.0);
        lemma_record_all_lookup(stepped, records.drop_first(), fp);
        let later = paths_with(records.drop_first(), fp);
        if fp == r.1 {
            match lookup(groups, fp) {
                Some(ps) => {
                    assert(lookup(stepped, fp) == Some(ps.push(r.0)));
                    assert(ps.push(r.0) + later =~= ps + (seq![r.0] + later));
                },
                None => {
                    assert(lookup(stepped, fp) == Some(seq![r.0]));
                    assert(seq![r.0] + later =~= paths_with(records, fp));
                },
            }
        } else {
            assert(lookup(stepped, fp) == lookup(groups, fp));
            assert(paths_with(records, fp) == later);
        }
    }
}

/// Recording pairs that all carry one fingerprint onto a single group
/// of that fingerprint extends that group's path list, in order.
proof fn lemma_grouping_from(
    fp: Seq<char>,
    paths: Seq<Seq<char>>,
    records: Seq<(Seq<char>, Seq<char>)>,
)
    requires
        forall|k: int| 0 <= k < records.len() ==> #[trigger] records[k].1 == fp,
    ensures
        record_all(seq![GroupView { fingerprint: fp, paths }], records) == seq![
            GroupView { fingerprint: fp, paths: paths + record_paths(records) },
        ],
    decreases records.len(),
{
    if records.len() == 0 {
        assert(paths + record_paths(records) =~= paths);
        assert(seq![GroupView { fingerprint: fp, paths }] =~~= seq![
            GroupView { fingerprint: fp, paths: paths + record_paths(records) },
        ]);
    } else {
        let p = records.first().0;
        let stepped = record_spec(seq![GroupView { fingerprint: fp, paths }], fp, p);
        assert(stepped =~= seq![GroupView { fingerprint: fp, paths: paths.push(p) }]);
        lemma_grouping_from(fp, paths.push(p), records.drop_first());
        assert(paths.push(p) + record_paths(records.drop_first()) =~= paths + record_paths(
            records,
        ));
    }
}

/// Grouping: a run whose recorded files all share one fingerprint
/// (byte-identical contents) produces an index with that single
/// fingerprint as its only key, listing exactly those files' paths in
/// discovery order.
pub proof fn lemma_grouping(records: Seq<(Seq<char>, Seq<char>)>, fp: Seq<char>)
    requires
        records.len() > 0,
        forall|k: int| 0 <= k < records.len() ==> #[trigger] records[k].1 == fp,
    ensures
        record_all(Seq::empty(), records) == seq![
            GroupView { fingerprint: fp, paths: record_paths(records) },
        ],
{
    let p = records.first().0;
    assert(record_spec(Seq::empty(), fp, p) =~= seq![
        GroupView { fingerprint: fp, paths: seq![p] },
    ]);
    lemma_grouping_from(fp, seq![p], records.drop_first());
    assert(seq![p] + record_paths(records.drop_first()) =~= record_paths(records));
}

} // verus!
