//! What every completed scan reports, proved over the scanner's
//! transition.
//!
//! A scan is modelled against a tree: a map from each listable canonical
//! directory path to its entries (a directory outside the map cannot be
//! listed). A run is a sequence of steps, each popping one queued
//! directory — whichever one its schedule names — and applying its listing
//! through [`step_state`]. Every interleaving of scan workers is some
//! schedule: what a step does depends only on the popped directory's own
//! listing, never on what else is queued, so workers whose pops and steps
//! overlap reach the same final state as the run that performs each pop
//! and its step together. The results of a completed run are characterized
//! exactly: they are the directories reachable from the root along policy
//! edges that hold the marker. Determinism across worker counts, soundness
//! of every reported path, absence of duplicates, non-greedy minimality
//! and greedy inclusion all follow and are stated below.

use vstd::prelude::*;
use crate::scanner::EntryView;
use crate::scanner::Policy;
use crate::scanner::ScanState;
use crate::scanner::descends;
use crate::scanner::enqueue_children;
use crate::scanner::has_marker;
use crate::scanner::init_state;
use crate::scanner::kept;
use crate::scanner::step_state;

verus! {

// ---------------------------------------------------------------------------
// The tree model
// ---------------------------------------------------------------------------

/// What listing directory `d` yields in tree `t`: its entries when it is
/// listable, `None` otherwise.
pub open spec fn listing_in(t: Map<Seq<char>, Seq<EntryView>>, d: Seq<char>) -> Option<
    Seq<EntryView>,
> {
    if t.dom().contains(d) {
        Some(t[d])
    } else {
        None
    }
}

/// Directory `d` is listable and holds the marker.
pub open spec fn marked(t: Map<Seq<char>, Seq<EntryView>>, pol: Policy, d: Seq<char>) -> bool {
    t.dom().contains(d) && has_marker(t[d], pol.stopper)
}

/// One policy edge: the traversal, standing in `p`, may enqueue `c` —
/// `p` is listable, its listing does not prune descent, and a kept entry
/// of `p` leads to `c`.
pub open spec fn edge(
    t: Map<Seq<char>, Seq<EntryView>>,
    pol: Policy,
    p: Seq<char>,
    c: Seq<char>,
) -> bool {
    &&& t.dom().contains(p)
    &&& descends(t[p], pol)
    &&& exists|k: int|
        0 <= k < t[p].len() && (#[trigger] t[p][k]).canon == Some(c) && kept(t[p][k], pol)
}

/// `d` lies at most `n` policy edges below `root`.
pub open spec fn reach_n(
    t: Map<Seq<char>, Seq<EntryView>>,
    pol: Policy,
    root: Seq<char>,
    d: Seq<char>,
    n: nat,
) -> bool
    decreases n,
{
    if d == root {
        true
    } else if n == 0 {
        false
    } else {
        exists|p: Seq<char>| #[trigger] edge(t, pol, p, d) && reach_n(t, pol, root, p, (n - 1) as nat)
    }
}

/// `d` is reachable from `root` along policy edges.
pub open spec fn reachable(
    t: Map<Seq<char>, Seq<EntryView>>,
    pol: Policy,
    root: Seq<char>,
    d: Seq<char>,
) -> bool {
    exists|n: nat| reach_n(t, pol, root, d, n)
}

/// What a scan of `t` from `root` must discover: the reachable directories
/// that hold the marker.
pub open spec fn discovered(
    t: Map<Seq<char>, Seq<EntryView>>,
    pol: Policy,
    root: Seq<char>,
) -> Set<Seq<char>> {
    Set::new(|d: Seq<char>| reachable(t, pol, root, d) && marked(t, pol, d))
}

/// A reachable directory's neighbour through an edge is reachable.
proof fn lemma_reach_edge(
    t: Map<Seq<char>, Seq<EntryView>>,
    pol: Policy,
    root: Seq<char>,
    p: Seq<char>,
    c: Seq<char>,
)
    requires
        reachable(t, pol, root, p),
        edge(t, pol, p, c),
    ensures
        reachable(t, pol, root, c),
{
    let n = choose|n: nat| reach_n(t, pol, root, p, n);
    assert(reach_n(t, pol, root, c, n + 1));
}

// ---------------------------------------------------------------------------
// Runs
// ---------------------------------------------------------------------------

/// The state after removing queue slot `i`, whose directory is about to be
/// stepped.
pub open spec fn pop_state(s: ScanState, i: int) -> ScanState {
    ScanState { pending: s.pending.remove(i), visited: s.visited, results: s.results }
}

/// One way a scan can unfold over tree `t`: at each step the schedule
/// names a queue slot; its directory is popped and its listing applied. A
/// schedule entry outside the queue does nothing, so every sequence of
/// integers is a schedule.
pub open spec fn run(
    s: ScanState,
    t: Map<Seq<char>, Seq<EntryView>>,
    pol: Policy,
    sched: Seq<int>,
) -> ScanState
    decreases sched.len(),
{
    if sched.len() == 0 {
        s
    } else {
        let i = sched[0];
        if 0 <= i < s.pending.len() {
            let d = s.pending[i];
            run(
                step_state(pop_state(s, i), pol, d, listing_in(t, d)),
                t,
                pol,
                sched.drop_first(),
            )
        } else {
            run(s, t, pol, sched.drop_first())
        }
    }
}

/// What the scanner's executable operations do is a run: popping the
/// queue's last slot and stepping its directory with its listing in `t`
/// is the run whose schedule names that slot.
pub proof fn lemma_pop_last_step_is_run(
    s: ScanState,
    t: Map<Seq<char>, Seq<EntryView>>,
    pol: Policy,
)
    requires
        s.pending.len() > 0,
    ensures
        step_state(
            ScanState { pending: s.pending.drop_last(), visited: s.visited, results: s.results },
            pol,
            s.pending.last(),
            listing_in(t, s.pending.last()),
        ) == run(s, t, pol, seq![s.pending.len() - 1]),
{
    let i = s.pending.len() - 1;
    assert(s.pending.remove(i) =~= s.pending.drop_last());
    assert(pop_state(s, i) =~= ScanState {
        pending: s.pending.drop_last(),
        visited: s.visited,
        results: s.results,
    });
    let s1 = step_state(pop_state(s, i), pol, s.pending[i], listing_in(t, s.pending[i]));
    assert(seq![i].drop_first() =~= Seq::<int>::empty());
    assert(run(s1, t, pol, seq![i].drop_first()) == s1);
}

// ---------------------------------------------------------------------------
// The run invariant
// ---------------------------------------------------------------------------

/// `v` has been popped and stepped: it was enqueued once and is queued no
/// longer.
pub open spec fn processed(s: ScanState, v: Seq<char>) -> bool {
    s.visited.contains(v) && !s.pending.contains(v)
}

/// What holds of the scan state throughout every run: the queue holds only
/// visited, reachable directories without duplicates; every processed
/// directory has all its policy children enqueued; and the results are
/// exactly the processed marker directories, each once.
pub open spec fn inv(
    s: ScanState,
    t: Map<Seq<char>, Seq<EntryView>>,
    pol: Policy,
    root: Seq<char>,
) -> bool {
    &&& s.visited.contains(root)
    &&& s.visited.no_duplicates()
    &&& s.pending.no_duplicates()
    &&& forall|i: int| 0 <= i < s.pending.len() ==> s.visited.contains(#[trigger] s.pending[i])
    &&& forall|v: Seq<char>| #[trigger] s.visited.contains(v) ==> reachable(t, pol, root, v)
    &&& forall|v: Seq<char>, c: Seq<char>|
        processed(s, v) && #[trigger] edge(t, pol, v, c) ==> s.visited.contains(c)
    &&& forall|v: Seq<char>| #[trigger] s.results.contains(v) ==> processed(s, v) && marked(t, pol, v)
    &&& forall|v: Seq<char>| #[trigger] processed(s, v) && marked(t, pol, v) ==> s.results.contains(v)
    &&& s.results.no_duplicates()
}

/// The invariant holds at the start of every scan.
proof fn lemma_init_inv(t: Map<Seq<char>, Seq<EntryView>>, pol: Policy, root: Seq<char>)
    ensures
        inv(init_state(root), t, pol, root),
{
    let s = init_state(root);
    assert(s.visited[0] == root);
    assert(s.visited.contains(root));
    assert(reach_n(t, pol, root, root, 0));
    assert forall|v: Seq<char>| #[trigger] s.visited.contains(v) implies reachable(
        t,
        pol,
        root,
        v,
    ) by {
        assert(v == root);
        assert(reach_n(t, pol, root, v, 0));
    }
    assert forall|v: Seq<char>| #[trigger] processed(s, v) implies false by {
        assert(v == root);
        assert(s.pending[0] == root);
        assert(s.pending.contains(root));
    }
}

/// What enqueueing the first `j` entries does: the results stay, the queue
/// and the visited list grow by the same fresh directories — exactly the
/// kept entries' targets not yet visited — and no duplicate appears.
proof fn lemma_enqueue_props(s: ScanState, pol: Policy, entries: Seq<EntryView>, j: int)
    requires
        0 <= j <= entries.len(),
    ensures
        ({
            let e = enqueue_children(s, pol, entries, j);
            &&& e.results == s.results
            &&& s.pending.is_prefix_of(e.pending)
            &&& e.visited == s.visited + e.pending.skip(s.pending.len() as int)
            &&& forall|v: Seq<char>|
                #[trigger] e.pending.skip(s.pending.len() as int).contains(v)
                    ==> !s.visited.contains(v)
            &&& forall|v: Seq<char>|
                #[trigger] e.visited.contains(v) ==> s.visited.contains(v) || (exists|k: int|
                    0 <= k < j && (#[trigger] entries[k]).canon == Some(v) && kept(
                        entries[k],
                        pol,
                    ))
            &&& forall|k: int|
                0 <= k < j && (#[trigger] entries[k]).canon is Some && kept(entries[k], pol)
                    ==> e.visited.contains(entries[k].canon->0)
            &&& (s.visited.no_duplicates() ==> e.visited.no_duplicates())
        }),
    decreases j,
{
    if j <= 0 {
        let e = enqueue_children(s, pol, entries, j);
        assert(e == s);
        assert(e.pending.skip(s.pending.len() as int) =~= Seq::<Seq<char>>::empty());
        assert(e.visited =~= s.visited + e.pending.skip(s.pending.len() as int));
        assert(s.pending.is_prefix_of(e.pending)) by {
            assert(e.pending.subrange(0, s.pending.len() as int) =~= s.pending);
        }
    } else {
        lemma_enqueue_props(s, pol, entries, j - 1);
        let e1 = enqueue_children(s, pol, entries, j - 1);
        let e = enqueue_children(s, pol, entries, j);
        let added1 = e1.pending.skip(s.pending.len() as int);
        let slen = s.pending.len() as int;
        let pushes = entries[j - 1].canon is Some && kept(entries[j - 1], pol)
            && !e1.visited.contains(entries[j - 1].canon->0);
        if pushes {
            let c = entries[j - 1].canon->0;
            assert(e.pending == e1.pending.push(c));
            assert(e.visited == e1.visited.push(c));
            let added = e.pending.skip(slen);
            assert(added =~= added1.push(c));
            assert(e.visited =~= s.visited + added);
            assert(s.pending.is_prefix_of(e.pending)) by {
                assert(e.pending.subrange(0, slen) =~= e1.pending.subrange(0, slen));
            }
            assert forall|v: Seq<char>| #[trigger] added.contains(v) implies !s.visited.contains(
                v,
            ) by {
                let x = choose|x: int| 0 <= x < added.len() && added[x] == v;
                if x < added1.len() {
                    assert(added1[x] == v);
                    assert(added1.contains(v));
                } else {
                    assert(v == c);
                    if s.visited.contains(c) {
                        let w = choose|w: int| 0 <= w < s.visited.len() && s.visited[w] == c;
                        assert(e1.visited[w] == c);
                        assert(e1.visited.contains(c));
                    }
                }
            }
            assert forall|v: Seq<char>| #[trigger] e.visited.contains(v) implies s.visited.contains(
                v,
            ) || (exists|k: int|
                0 <= k < j && (#[trigger] entries[k]).canon == Some(v) && kept(
                    entries[k],
                    pol,
                )) by {
                let x = choose|x: int| 0 <= x < e.visited.len() && e.visited[x] == v;
                if x < e1.visited.len() {
                    assert(e1.visited[x] == v);
                    assert(e1.visited.contains(v));
                    if !s.visited.contains(v) {
                        let k = choose|k: int|
                            0 <= k < j - 1 && (#[trigger] entries[k]).canon == Some(v) && kept(
                                entries[k],
                                pol,
                            );
                        assert(0 <= k < j && entries[k].canon == Some(v) && kept(entries[k], pol));
                    }
                } else {
                    assert(v == c);
                    assert(entries[j - 1].canon == Some(v) && kept(entries[j - 1], pol));
                }
            }
            assert forall|k: int|
                0 <= k < j && (#[trigger] entries[k]).canon is Some && kept(
                    entries[k],
                    pol,
                ) implies e.visited.contains(entries[k].canon->0) by {
                if k < j - 1 {
                    assert(e1.visited.contains(entries[k].canon->0));
                    let w = choose|w: int|
                        0 <= w < e1.visited.len() && e1.visited[w] == entries[k].canon->0;
                    assert(e.visited[w] == entries[k].canon->0);
                } else {
                    assert(e.visited[e.visited.len() - 1] == c);
                }
            }
            if s.visited.no_duplicates() {
                assert(e1.visited.no_duplicates());
                assert forall|x: int, y: int|
                    0 <= x < y < e.visited.len() implies e.visited[x] != e.visited[y] by {
                    if y < e.visited.len() - 1 {
                        assert(e1.visited[x] != e1.visited[y]);
                    } else {
                        if e1.visited[x] == c {
                            assert(e1.visited.contains(c));
                        }
                    }
                }
            }
        } else {
            assert(e == e1);
            assert forall|v: Seq<char>| #[trigger] e.visited.contains(v) implies s.visited.contains(
                v,
            ) || (exists|k: int|
                0 <= k < j && (#[trigger] entries[k]).canon == Some(v) && kept(
                    entries[k],
                    pol,
                )) by {
                if !s.visited.contains(v) {
                    let k = choose|k: int|
                        0 <= k < j - 1 && (#[trigger] entries[k]).canon == Some(v) && kept(
                            entries[k],
                            pol,
                        );
                    assert(0 <= k < j && entries[k].canon == Some(v) && kept(entries[k], pol));
                }
            }
            assert forall|k: int|
                0 <= k < j && (#[trigger] entries[k]).canon is Some && kept(
                    entries[k],
                    pol,
                ) implies e.visited.contains(entries[k].canon->0) by {
                if k == j - 1 {
                    assert(e1.visited.contains(entries[j - 1].canon->0));
                }
            }
        }
    }
}

/// Popping any queue slot and stepping its directory with its listing in
/// `t` keeps the invariant.
proof fn lemma_step_preserves_inv(
    s: ScanState,
    t: Map<Seq<char>, Seq<EntryView>>,
    pol: Policy,
    root: Seq<char>,
    i: int,
)
    requires
        inv(s, t, pol, root),
        0 <= i < s.pending.len(),
    ensures
        inv(step_state(pop_state(s, i), pol, s.pending[i], listing_in(t, s.pending[i])), t, pol, root),
{
    let d = s.pending[i];
    let s1 = pop_state(s, i);
    s.pending.remove_ensures(i);

    // After the pop: `d` is visited, no longer queued, the queue is still
    // duplicate-free and within the visited list.
    assert(s.visited.contains(d));
    assert forall|x: int| 0 <= x < s1.pending.len() implies s.pending.contains(
        #[trigger] s1.pending[x],
    ) by {
        if x < i {
            assert(s1.pending[x] == s.pending[x]);
        } else {
            assert(s1.pending[x] == s.pending[x + 1]);
        }
    }
    assert forall|x: int, y: int| 0 <= x < y < s1.pending.len() implies s1.pending[x]
        != s1.pending[y] by {
        let x1 = if x < i {
            x
        } else {
            x + 1
        };
        let y1 = if y < i {
            y
        } else {
            y + 1
        };
        assert(s1.pending[x] == s.pending[x1]);
        assert(s1.pending[y] == s.pending[y1]);
    }
    assert(!s1.pending.contains(d)) by {
        if s1.pending.contains(d) {
            let x = choose|x: int| 0 <= x < s1.pending.len() && s1.pending[x] == d;
            let x1 = if x < i {
                x
            } else {
                x + 1
            };
            assert(s.pending[x1] == d);
            assert(s.pending[i] == d);
        }
    }
    assert forall|x: int| 0 <= x < s1.pending.len() implies s1.visited.contains(
        #[trigger] s1.pending[x],
    ) by {
        assert(s.pending.contains(s1.pending[x]));
        let w = choose|w: int| 0 <= w < s.pending.len() && s.pending[w] == s1.pending[x];
        assert(s.visited.contains(s.pending[w]));
    }
    // Who is processed after the pop: exactly the old processed set and `d`.
    assert forall|v: Seq<char>| #[trigger] processed(s1, v) implies processed(s, v) || v == d by {
        if v != d && s.pending.contains(v) {
            let x1 = choose|x1: int| 0 <= x1 < s.pending.len() && s.pending[x1] == v;
            let x = if x1 < i {
                x1
            } else {
                x1 - 1
            };
            assert(s1.pending[x] == v);
        }
    }
    assert forall|v: Seq<char>| processed(s, v) implies #[trigger] processed(s1, v) by {
        if s1.pending.contains(v) {
            assert(s.pending.contains(v));
        }
    }

    match listing_in(t, d) {
        None => {
            let s2 = step_state(s1, pol, d, listing_in(t, d));
            assert(s2 == s1);
            // `d` is processed now but unlistable: it has no edges and is
            // not marked, so closure and results stand.
            assert forall|v: Seq<char>, c: Seq<char>|
                processed(s2, v) && #[trigger] edge(t, pol, v, c) implies s2.visited.contains(
                c,
            ) by {
                if v == d {
                    assert(!t.dom().contains(d));
                } else {
                    assert(processed(s, v));
                }
            }
            assert forall|v: Seq<char>| #[trigger] processed(s2, v) && marked(t, pol, v) implies s2.results.contains(
                v,
            ) by {
                if v != d {
                    assert(processed(s, v));
                }
            }
            assert forall|v: Seq<char>| #[trigger] s2.results.contains(v) implies processed(s2, v)
                && marked(t, pol, v) by {
                assert(processed(s, v));
            }
        },
        Some(entries) => {
            let found = has_marker(entries, pol.stopper);
            // `d` was queued, so it was not yet processed and so not yet
            // in the results: a marker hit is always a first report.
            assert(!s.results.contains(d)) by {
                if s.results.contains(d) {
                    assert(processed(s, d));
                    assert(s.pending.contains(d));
                }
            }
            let s2 = if found && !s1.results.contains(d) {
                ScanState {
                    pending: s1.pending,
                    visited: s1.visited,
                    results: s1.results.push(d),
                }
            } else {
                s1
            };
            let s3 = step_state(s1, pol, d, listing_in(t, d));
            assert(s3 == if descends(entries, pol) {
                enqueue_children(s2, pol, entries, entries.len() as int)
            } else {
                s2
            });

            // Results stage: still duplicate-free, and characterized over
            // the post-pop processed set.
            assert(s2.pending == s1.pending);
            assert(s2.visited == s1.visited);
            if found {
                assert(s2.results == s1.results.push(d));
                assert forall|x: int, y: int| 0 <= x < y < s2.results.len() implies s2.results[x]
                    != s2.results[y] by {
                    if y < s2.results.len() - 1 {
                        assert(s.results[x] != s.results[y]);
                    } else {
                        assert(s2.results[y] == d);
                        if s.results[x] == d {
                            assert(s.results.contains(d));
                        }
                    }
                }
            }
            assert forall|v: Seq<char>| #[trigger] s2.results.contains(v) implies processed(s1, v)
                && marked(t, pol, v) by {
                if found && v == d && !s.results.contains(v) {
                    assert(marked(t, pol, d));
                } else {
                    if s2.results.contains(v) && v != d {
                        assert(s.results.contains(v)) by {
                            if found {
                                let x = choose|x: int|
                                    0 <= x < s2.results.len() && s2.results[x] == v;
                                assert(x < s.results.len());
                            }
                        }
                        assert(processed(s, v));
                    } else {
                        if v == d {
                            assert(s2.results.contains(d));
                            if !found {
                                assert(s.results.contains(d));
                            }
                        }
                    }
                }
            }

            if descends(entries, pol) {
                lemma_enqueue_props(s2, pol, entries, entries.len() as int);
                let added = s3.pending.skip(s2.pending.len() as int);
                assert(s3.visited == s2.visited + added);
                assert(s3.results == s2.results);
                assert(s3.visited.contains(root)) by {
                    let w = choose|w: int| 0 <= w < s.visited.len() && s.visited[w] == root;
                    assert(s3.visited[w] == root);
                }

                // The queue after the step: the untouched remainder plus
                // the fresh children, all visited, none repeated.
                assert forall|x: int| 0 <= x < s3.pending.len() implies s3.visited.contains(
                    #[trigger] s3.pending[x],
                ) by {
                    if x < s2.pending.len() {
                        assert(s3.pending[x] == s2.pending[x]);
                        assert(s2.visited.contains(s2.pending[x]));
                        let w = choose|w: int|
                            0 <= w < s2.visited.len() && s2.visited[w] == s2.pending[x];
                        assert(s3.visited[w] == s2.pending[x]);
                    } else {
                        assert(added.contains(s3.pending[x])) by {
                            assert(added[x - s2.pending.len()] == s3.pending[x]);
                        }
                        let w = choose|w: int| 0 <= w < added.len() && added[w] == s3.pending[x];
                        assert(s3.visited[s2.visited.len() + w] == s3.pending[x]);
                    }
                }
                assert forall|x: int, y: int| 0 <= x < y < s3.pending.len() implies s3.pending[x]
                    != s3.pending[y] by {
                    if y < s2.pending.len() {
                        assert(s3.pending[x] == s2.pending[x] && s3.pending[y] == s2.pending[y]);
                    } else if x < s2.pending.len() {
                        assert(s3.pending[x] == s2.pending[x]);
                        assert(added[y - s2.pending.len()] == s3.pending[y]);
                        assert(added.contains(s3.pending[y]));
                        assert(!s2.visited.contains(s3.pending[y]));
                        assert(s2.visited.contains(s2.pending[x]));
                    } else {
                        // both fresh: they sit in the duplicate-free
                        // visited list
                        assert(s3.visited[s2.visited.len() + (x - s2.pending.len())]
                            == s3.pending[x]);
                        assert(s3.visited[s2.visited.len() + (y - s2.pending.len())]
                            == s3.pending[y]);
                        assert(s3.visited.no_duplicates());
                    }
                }

                // Every visited directory is reachable: the fresh ones are
                // children of `d` through kept entries, and `d` descends.
                assert forall|v: Seq<char>| #[trigger] s3.visited.contains(v) implies reachable(
                    t,
                    pol,
                    root,
                    v,
                ) by {
                    if s2.visited.contains(v) {
                    } else {
                        let k = choose|k: int|
                            0 <= k < entries.len() && (#[trigger] entries[k]).canon == Some(v)
                                && kept(entries[k], pol);
                        assert(edge(t, pol, d, v));
                        assert(s.visited.contains(d));
                        lemma_reach_edge(t, pol, root, d, v);
                    }
                }

                // Who is processed after the step: the fresh directories
                // are queued, so the processed set gains exactly `d`.
                assert forall|v: Seq<char>| #[trigger] processed(s3, v) implies processed(s1, v) by {
                    assert(s3.visited.contains(v));
                    if s2.visited.contains(v) {
                        if s2.pending.contains(v) {
                            let x = choose|x: int|
                                0 <= x < s2.pending.len() && s2.pending[x] == v;
                            assert(s3.pending[x] == v);
                        }
                    } else {
                        assert(added.contains(v));
                        let w = choose|w: int| 0 <= w < added.len() && added[w] == v;
                        assert(s3.pending[s2.pending.len() + w] == v);
                    }
                }
                assert forall|v: Seq<char>| #[trigger] processed(s1, v) implies processed(s3, v) by {
                    assert(s2.visited.contains(v));
                    let w = choose|w: int| 0 <= w < s2.visited.len() && s2.visited[w] == v;
                    assert(s3.visited[w] == v);
                    if s3.pending.contains(v) {
                        let x = choose|x: int| 0 <= x < s3.pending.len() && s3.pending[x] == v;
                        if x < s2.pending.len() {
                            assert(s2.pending[x] == v);
                        } else {
                            assert(added[x - s2.pending.len()] == v);
                            assert(added.contains(v));
                        }
                    }
                }

                // Closure: `d`'s kept children are now visited; everyone
                // else's already were.
                assert forall|v: Seq<char>, c: Seq<char>|
                    processed(s3, v) && #[trigger] edge(t, pol, v, c) implies s3.visited.contains(
                    c,
                ) by {
                    if v == d {
                        let k = choose|k: int|
                            0 <= k < t[d].len() && (#[trigger] t[d][k]).canon == Some(c) && kept(
                                t[d][k],
                                pol,
                            );
                        assert(entries[k].canon is Some);
                        assert(s3.visited.contains(entries[k].canon->0));
                    } else {
                        assert(processed(s, v));
                        assert(s.visited.contains(c));
                        let w = choose|w: int| 0 <= w < s.visited.len() && s.visited[w] == c;
                        assert(s3.visited[w] == c);
                    }
                }

                // Results: unchanged by the enqueue; the characterization
                // carries over the unchanged processed set.
                assert forall|v: Seq<char>| #[trigger] s3.results.contains(v) implies processed(
                    s3,
                    v,
                ) && marked(t, pol, v) by {
                    assert(s2.results.contains(v));
                }
                assert forall|v: Seq<char>| #[trigger] processed(s3, v) && marked(t, pol, v) implies s3.results.contains(
                    v,
                ) by {
                    assert(processed(s1, v));
                    if v == d {
                        assert(found);
                        assert(s2.results.contains(d)) by {
                            assert(s2.results == s1.results.push(d));
                            assert(s2.results[s2.results.len() - 1] == d);
                        }
                    } else {
                        assert(processed(s, v));
                        assert(s.results.contains(v));
                        if found {
                            let x = choose|x: int| 0 <= x < s.results.len() && s.results[x] == v;
                            assert(s2.results[x] == v);
                        }
                    }
                }
            } else {
                // Pruned: the marker was found and the policy is not
                // greedy, so `d` has no edges; everything else stands.
                assert(s3 == s2);
                assert forall|v: Seq<char>, c: Seq<char>|
                    processed(s3, v) && #[trigger] edge(t, pol, v, c) implies s3.visited.contains(
                    c,
                ) by {
                    assert(processed(s1, v));
                    if v == d {
                        assert(!descends(t[d], pol));
                    } else {
                        assert(processed(s, v));
                    }
                }
                assert forall|v: Seq<char>| #[trigger] processed(s3, v) && marked(t, pol, v) implies s3.results.contains(
                    v,
                ) by {
                    assert(processed(s1, v));
                    if v == d {
                        assert(found);
                        assert(s2.results == s1.results.push(d));
                        assert(s2.results[s2.results.len() - 1] == d);
                    } else {
                        assert(processed(s, v));
                        assert(s.results.contains(v));
                        if found {
                            let x = choose|x: int| 0 <= x < s.results.len() && s.results[x] == v;
                            assert(s2.results[x] == v);
                        }
                    }
                }
                assert forall|v: Seq<char>| #[trigger] s3.results.contains(v) implies processed(
                    s3,
                    v,
                ) && marked(t, pol, v) by {
                    assert(s2.results.contains(v));
                    assert(processed(s1, v));
                }
            }
        },
    }
}

// ---------------------------------------------------------------------------
// Runs keep the invariant; a completed run is characterized exactly
// ---------------------------------------------------------------------------

/// The invariant survives any run.
proof fn lemma_run_preserves_inv(
    s: ScanState,
    t: Map<Seq<char>, Seq<EntryView>>,
    pol: Policy,
    root: Seq<char>,
    sched: Seq<int>,
)
    requires
        inv(s, t, pol, root),
    ensures
        inv(run(s, t, pol, sched), t, pol, root),
    decreases sched.len(),
{
    if sched.len() > 0 {
        let i = sched[0];
        if 0 <= i < s.pending.len() {
            lemma_step_preserves_inv(s, t, pol, root, i);
            lemma_run_preserves_inv(
                step_state(pop_state(s, i), pol, s.pending[i], listing_in(t, s.pending[i])),
                t,
                pol,
                root,
                sched.drop_first(),
            );
        } else {
            lemma_run_preserves_inv(s, t, pol, root, sched.drop_first());
        }
    }
}

/// Once the queue is empty, everything reachable has been visited: the
/// visited list contains the root and is closed under policy edges.
proof fn lemma_reach_in_visited(
    s: ScanState,
    t: Map<Seq<char>, Seq<EntryView>>,
    pol: Policy,
    root: Seq<char>,
    d: Seq<char>,
    n: nat,
)
    requires
        inv(s, t, pol, root),
        s.pending.len() == 0,
        reach_n(t, pol, root, d, n),
    ensures
        s.visited.contains(d),
    decreases n,
{
    if d != root {
        let p = choose|p: Seq<char>|
            #[trigger] edge(t, pol, p, d) && reach_n(t, pol, root, p, (n - 1) as nat);
        lemma_reach_in_visited(s, t, pol, root, p, (n - 1) as nat);
        assert(!s.pending.contains(p));
        assert(processed(s, p));
    }
}

/// A completed run — one that has emptied its queue — reports exactly the
/// reachable marker directories, each once.
pub proof fn lemma_run_characterized(
    t: Map<Seq<char>, Seq<EntryView>>,
    pol: Policy,
    root: Seq<char>,
    sched: Seq<int>,
)
    requires
        run(init_state(root), t, pol, sched).pending.len() == 0,
    ensures
        run(init_state(root), t, pol, sched).results.to_set() == discovered(t, pol, root),
        run(init_state(root), t, pol, sched).results.no_duplicates(),
{
    lemma_init_inv(t, pol, root);
    lemma_run_preserves_inv(init_state(root), t, pol, root, sched);
    let sf = run(init_state(root), t, pol, sched);
    assert forall|d: Seq<char>| #[trigger] discovered(t, pol, root).contains(d) implies sf.results.contains(
        d,
    ) by {
        let n = choose|n: nat| reach_n(t, pol, root, d, n);
        lemma_reach_in_visited(sf, t, pol, root, d, n);
        assert(!sf.pending.contains(d));
        assert(processed(sf, d));
    }
    assert forall|d: Seq<char>| #[trigger] sf.results.contains(d) implies discovered(
        t,
        pol,
        root,
    ).contains(d) by {
        assert(processed(sf, d) && marked(t, pol, d));
        assert(sf.visited.contains(d));
    }
    assert(sf.results.to_set() =~= discovered(t, pol, root));
}

// ---------------------------------------------------------------------------
// The laws a scan obeys
// ---------------------------------------------------------------------------

/// Every path a completed scan reports is reachable from the root along
/// policy edges — it lies in the scanned tree below the root — and its
/// listing holds the marker.
pub proof fn lemma_scan_sound(
    t: Map<Seq<char>, Seq<EntryView>>,
    pol: Policy,
    root: Seq<char>,
    sched: Seq<int>,
    d: Seq<char>,
)
    requires
        run(init_state(root), t, pol, sched).pending.len() == 0,
        run(init_state(root), t, pol, sched).results.contains(d),
    ensures
        reachable(t, pol, root, d),
        marked(t, pol, d),
{
    lemma_run_characterized(t, pol, root, sched);
    assert(run(init_state(root), t, pol, sched).results.to_set().contains(d));
}

/// Every reachable directory holding the marker is reported by every
/// completed scan.
pub proof fn lemma_scan_complete(
    t: Map<Seq<char>, Seq<EntryView>>,
    pol: Policy,
    root: Seq<char>,
    sched: Seq<int>,
    d: Seq<char>,
)
    requires
        run(init_state(root), t, pol, sched).pending.len() == 0,
        reachable(t, pol, root, d),
        marked(t, pol, d),
    ensures
        run(init_state(root), t, pol, sched).results.contains(d),
{
    lemma_run_characterized(t, pol, root, sched);
    assert(discovered(t, pol, root).contains(d));
    assert(run(init_state(root), t, pol, sched).results.to_set().contains(d));
}

/// Determinism: two completed runs over the same tree report the same set
/// of paths, whatever order — and so whatever number of workers — popped
/// the queue.
pub proof fn lemma_scan_deterministic(
    t: Map<Seq<char>, Seq<EntryView>>,
    pol: Policy,
    root: Seq<char>,
    sched1: Seq<int>,
    sched2: Seq<int>,
)
    requires
        run(init_state(root), t, pol, sched1).pending.len() == 0,
        run(init_state(root), t, pol, sched2).pending.len() == 0,
    ensures
        run(init_state(root), t, pol, sched1).results.to_set() == run(
            init_state(root),
            t,
            pol,
            sched2,
        ).results.to_set(),
{
    lemma_run_characterized(t, pol, root, sched1);
    lemma_run_characterized(t, pol, root, sched2);
}

/// No duplicates: at every point of every run — symlink cycles and shared
/// targets included — the results hold each canonical path at most once.
pub proof fn lemma_scan_no_duplicates(
    t: Map<Seq<char>, Seq<EntryView>>,
    pol: Policy,
    root: Seq<char>,
    sched: Seq<int>,
)
    ensures
        run(init_state(root), t, pol, sched).results.no_duplicates(),
{
    lemma_init_inv(t, pol, root);
    lemma_run_preserves_inv(init_state(root), t, pol, root, sched);
}

/// Reachability in a bounded number of steps only grows with the bound.
proof fn lemma_reach_mono(
    t: Map<Seq<char>, Seq<EntryView>>,
    pol: Policy,
    root: Seq<char>,
    d: Seq<char>,
    n: nat,
    m: nat,
)
    requires
        reach_n(t, pol, root, d, n),
        n <= m,
    ensures
        reach_n(t, pol, root, d, m),
    decreases n,
{
    if d != root {
        let p = choose|p: Seq<char>|
            #[trigger] edge(t, pol, p, d) && reach_n(t, pol, root, p, (n - 1) as nat);
        lemma_reach_mono(t, pol, root, p, (n - 1) as nat, (m - 1) as nat);
    }
}

/// Reachability composes: what is reachable from a reachable directory is
/// reachable.
proof fn lemma_reach_trans(
    t: Map<Seq<char>, Seq<EntryView>>,
    pol: Policy,
    a: Seq<char>,
    b: Seq<char>,
    c: Seq<char>,
    n: nat,
    m: nat,
)
    requires
        reach_n(t, pol, a, b, n),
        reach_n(t, pol, b, c, m),
    ensures
        reach_n(t, pol, a, c, (n + m) as nat),
    decreases m,
{
    if c == b {
        lemma_reach_mono(t, pol, a, c, n, (n + m) as nat);
    } else {
        let p = choose|p: Seq<char>|
            #[trigger] edge(t, pol, p, c) && reach_n(t, pol, b, p, (m - 1) as nat);
        lemma_reach_trans(t, pol, a, b, p, n, (m - 1) as nat);
        assert(reach_n(t, pol, a, c, (n + m) as nat)) by {
            assert(edge(t, pol, p, c) && reach_n(t, pol, a, p, (n + m - 1) as nat));
        }
    }
}

/// Greedy inclusion: under the greedy policy a marker hit does not prune,
/// so when a reachable directory and one reachable from it below both hold
/// the marker, every completed scan reports both.
pub proof fn lemma_greedy_inclusion(
    t: Map<Seq<char>, Seq<EntryView>>,
    pol: Policy,
    root: Seq<char>,
    sched: Seq<int>,
    d1: Seq<char>,
    d2: Seq<char>,
)
    requires
        pol.greedy,
        run(init_state(root), t, pol, sched).pending.len() == 0,
        reachable(t, pol, root, d1),
        marked(t, pol, d1),
        reachable(t, pol, d1, d2),
        marked(t, pol, d2),
    ensures
        run(init_state(root), t, pol, sched).results.contains(d1),
        run(init_state(root), t, pol, sched).results.contains(d2),
{
    lemma_scan_complete(t, pol, root, sched, d1);
    let n = choose|n: nat| reach_n(t, pol, root, d1, n);
    let m = choose|m: nat| reach_n(t, pol, d1, d2, m);
    lemma_reach_trans(t, pol, root, d1, d2, n, m);
    assert(reachable(t, pol, root, d2));
    lemma_scan_complete(t, pol, root, sched, d2);
}

// ---------------------------------------------------------------------------
// Non-greedy minimality over sharing-free trees
// ---------------------------------------------------------------------------

/// A tree without symlink sharing: every entry's canonical path is its
/// parent's path, one separator, and the entry's own name, which is
/// non-empty and holds no separator. Two routes never meet in such a tree.
pub open spec fn plain_tree(t: Map<Seq<char>, Seq<EntryView>>) -> bool {
    forall|p: Seq<char>, k: int|
        t.dom().contains(p) && 0 <= k < t[p].len() && (#[trigger] t[p][k]).canon is Some ==> {
            &&& t[p][k].canon->0 == p + seq!['/'] + t[p][k].name
            &&& !t[p][k].name.contains('/')
            &&& t[p][k].name.len() > 0
        }
}

/// `a` names a strict ancestor directory of `b`: `b` extends `a` at a
/// separator boundary.
pub open spec fn strict_ancestor(a: Seq<char>, b: Seq<char>) -> bool {
    &&& a.len() < b.len()
    &&& b.subrange(0, a.len() as int) == a
    &&& b[a.len() as int] == '/'
}

/// In a sharing-free tree, an edge runs from a directory to one directly
/// below it.
proof fn lemma_edge_ancestor(
    t: Map<Seq<char>, Seq<EntryView>>,
    pol: Policy,
    p: Seq<char>,
    d: Seq<char>,
)
    requires
        plain_tree(t),
        edge(t, pol, p, d),
    ensures
        strict_ancestor(p, d),
{
    let k = choose|k: int|
        0 <= k < t[p].len() && (#[trigger] t[p][k]).canon == Some(d) && kept(t[p][k], pol);
    assert(d == p + seq!['/'] + t[p][k].name);
    assert(d.subrange(0, p.len() as int) =~= p);
    assert(d[p.len() as int] == '/');
}

/// Being a strict ancestor carries across a further extension.
proof fn lemma_ancestor_trans(a: Seq<char>, b: Seq<char>, c: Seq<char>)
    requires
        strict_ancestor(a, b),
        strict_ancestor(b, c),
    ensures
        strict_ancestor(a, c),
{
    assert(c.subrange(0, a.len() as int) =~= a) by {
        assert forall|x: int| 0 <= x < a.len() implies c[x] == a[x] by {
            assert(c.subrange(0, b.len() as int)[x] == c[x]);
            assert(b.subrange(0, a.len() as int)[x] == b[x]);
        }
    }
    assert(c[a.len() as int] == b[a.len() as int]) by {
        assert(c.subrange(0, b.len() as int)[a.len() as int] == c[a.len() as int]);
    }
}

/// Everything reachable in a sharing-free tree sits below the root.
proof fn lemma_root_ancestor(
    t: Map<Seq<char>, Seq<EntryView>>,
    pol: Policy,
    root: Seq<char>,
    d: Seq<char>,
    n: nat,
)
    requires
        plain_tree(t),
        reach_n(t, pol, root, d, n),
    ensures
        d == root || strict_ancestor(root, d),
    decreases n,
{
    if d != root {
        let p = choose|p: Seq<char>|
            #[trigger] edge(t, pol, p, d) && reach_n(t, pol, root, p, (n - 1) as nat);
        lemma_root_ancestor(t, pol, root, p, (n - 1) as nat);
        lemma_edge_ancestor(t, pol, p, d);
        if p != root {
            lemma_ancestor_trans(root, p, d);
        }
    }
}

/// Nothing strictly below a marked directory is reachable when the policy
/// prunes at markers: in a sharing-free tree, every route to a strict
/// descendant of `a` would have to leave `a`, and `a` has no edges.
proof fn lemma_marked_blocks_reach(
    t: Map<Seq<char>, Seq<EntryView>>,
    pol: Policy,
    root: Seq<char>,
    a: Seq<char>,
    d: Seq<char>,
    n: nat,
)
    requires
        plain_tree(t),
        !pol.greedy,
        marked(t, pol, a),
        a == root || strict_ancestor(root, a),
        strict_ancestor(a, d),
    ensures
        !reach_n(t, pol, root, d, n),
    decreases n,
{
    if reach_n(t, pol, root, d, n) {
        if d == root {
            // The root cannot strictly extend a directory that is the root
            // or strictly extends it itself.
            assert(a.len() < root.len());
            if a != root {
                assert(root.len() < a.len());
            }
        } else {
            let p = choose|p: Seq<char>|
                #[trigger] edge(t, pol, p, d) && reach_n(t, pol, root, p, (n - 1) as nat);
            let k = choose|k: int|
                0 <= k < t[p].len() && (#[trigger] t[p][k]).canon == Some(d) && kept(t[p][k], pol);
            let name = t[p][k].name;
            assert(d == p + seq!['/'] + name);
            lemma_edge_ancestor(t, pol, p, d);
            if a.len() == p.len() {
                // Both name the same prefix of d: the edge leaves `a`
                // itself, which the marker hit forbids.
                assert(a =~= p) by {
                    assert forall|x: int| 0 <= x < a.len() implies a[x] == p[x] by {
                        assert(d.subrange(0, a.len() as int)[x] == d[x]);
                        assert(d.subrange(0, p.len() as int)[x] == d[x]);
                    }
                }
                assert(descends(t[a], pol));
                assert(has_marker(t[a], pol.stopper));
            } else if a.len() < p.len() {
                // `a` already sits strictly above the edge's source.
                assert(strict_ancestor(a, p)) by {
                    assert(p.subrange(0, a.len() as int) =~= a) by {
                        assert forall|x: int| 0 <= x < a.len() implies p[x] == a[x] by {
                            assert(d.subrange(0, p.len() as int)[x] == d[x]);
                            assert(d.subrange(0, a.len() as int)[x] == d[x]);
                        }
                    }
                    assert(p[a.len() as int] == d[a.len() as int]) by {
                        assert(d.subrange(0, p.len() as int)[a.len() as int] == d[a.len() as int]);
                    }
                }
                lemma_marked_blocks_reach(t, pol, root, a, p, (n - 1) as nat);
            } else {
                // The boundary would fall inside the entry's own name,
                // which holds no separator.
                let x = a.len() - p.len() - 1;
                assert(d[a.len() as int] == '/');
                assert(d.len() == p.len() + 1 + name.len());
                assert(0 <= x < name.len());
                assert(name[x as int] == d[a.len() as int]);
                assert(name.contains('/'));
            }
        }
    }
}

/// Over a sharing-free tree, every reported path is the root or a strict
/// descendant directory of it.
pub proof fn lemma_scan_results_below_root(
    t: Map<Seq<char>, Seq<EntryView>>,
    pol: Policy,
    root: Seq<char>,
    sched: Seq<int>,
    d: Seq<char>,
)
    requires
        plain_tree(t),
        run(init_state(root), t, pol, sched).pending.len() == 0,
        run(init_state(root), t, pol, sched).results.contains(d),
    ensures
        d == root || strict_ancestor(root, d),
{
    lemma_scan_sound(t, pol, root, sched, d);
    let n = choose|n: nat| reach_n(t, pol, root, d, n);
    lemma_root_ancestor(t, pol, root, d, n);
}

/// Non-greedy minimality: over a sharing-free tree, no two paths a
/// completed non-greedy scan reports are nested — the subtree below a
/// marker hit is pruned, so of a directory and its strict descendant at
/// most one is reported.
pub proof fn lemma_nongreedy_minimal(
    t: Map<Seq<char>, Seq<EntryView>>,
    pol: Policy,
    root: Seq<char>,
    sched: Seq<int>,
    a: Seq<char>,
    d: Seq<char>,
)
    requires
        !pol.greedy,
        plain_tree(t),
        run(init_state(root), t, pol, sched).pending.len() == 0,
        run(init_state(root), t, pol, sched).results.contains(a),
        run(init_state(root), t, pol, sched).results.contains(d),
    ensures
        !strict_ancestor(a, d),
        !strict_ancestor(d, a),
{
    lemma_scan_sound(t, pol, root, sched, a);
    lemma_scan_sound(t, pol, root, sched, d);
    let na = choose|n: nat| reach_n(t, pol, root, a, n);
    let nd = choose|n: nat| reach_n(t, pol, root, d, n);
    lemma_root_ancestor(t, pol, root, a, na);
    lemma_root_ancestor(t, pol, root, d, nd);
    if strict_ancestor(a, d) {
        lemma_marked_blocks_reach(t, pol, root, a, d, nd);
    }
    if strict_ancestor(d, a) {
        lemma_marked_blocks_reach(t, pol, root, d, a, na);
    }
}

} // verus!
