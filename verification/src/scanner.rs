//! Policy-driven tree traversal.
//!
//! A scan starts from the canonical path of the root directory and works
//! through a queue of directories that still have to be examined. The
//! surrounding program owns the file system: it pops a directory from the
//! queue ([`Scanner::next_dir`]), lists it, and hands the listing back
//! ([`Scanner::step`]). The scanner applies the whole policy — marker
//! detection, ignore filtering, greedy or pruning descent, deduplication by
//! canonical path — and the scan is over when the queue is empty and no
//! listing is outstanding.
//!
//! A listing is a sequence of [`Entry`] values: the entry's name, and, when
//! the entry is a directory that can be entered (following symlinks), its
//! canonical path. A directory that cannot be listed is handed in as
//! `None`: it is skipped, and the scan goes on with its siblings.
//!
//! Deduplication works on canonical paths, so two routes to one physical
//! directory (through a symlink cycle or a shared target) enqueue it once
//! and report it once.

use vstd::prelude::*;
use crate::aggregate::Aggregator;
use crate::config::Args;
use crate::config::ConfigError;
use crate::text::contains_str;

verus! {

// ---------------------------------------------------------------------------
// Listings
// ---------------------------------------------------------------------------

/// One entry of a directory listing, as the surrounding program observed
/// it: the entry's name, and its canonical path when it is a directory
/// that can be entered.
pub struct Entry {
    /// The entry's own name, without any path.
    pub name: String,
    /// The canonical path of the directory this entry leads to, or `None`
    /// when the entry is not an enterable directory.
    pub canon: Option<String>,
}

/// The mathematical value of an [`Entry`].
#[verifier::ext_equal]
pub struct EntryView {
    pub name: Seq<char>,
    pub canon: Option<Seq<char>>,
}

impl DeepView for Entry {
    type V = EntryView;

    open spec fn deep_view(&self) -> EntryView {
        EntryView { name: self.name@, canon: self.canon.deep_view() }
    }
}

/// The value of a listing handed to [`Scanner::step`]: the entries, or
/// `None` for a directory that could not be listed.
pub open spec fn listing_view(listing: Option<&Vec<Entry>>) -> Option<Seq<EntryView>> {
    match listing {
        Some(entries) => Some(entries.deep_view()),
        None => None,
    }
}

// ---------------------------------------------------------------------------
// The policy
// ---------------------------------------------------------------------------

/// The part of the configuration that traversal decisions read.
#[verifier::ext_equal]
pub struct Policy {
    /// The marker name.
    pub stopper: Seq<char>,
    /// Entry names that are not descended into.
    pub ignores: Seq<Seq<char>>,
    /// Keep descending inside a subtree whose root already matched.
    pub greedy: bool,
}

/// The traversal policy a configuration induces.
pub open spec fn args_policy(a: Args) -> Policy {
    Policy { stopper: a.stopper@, ignores: a.ignores.deep_view(), greedy: a.greedy }
}

/// The marker occurs among the entries. Ignore patterns never hide the
/// marker, so filtering plays no part here.
pub open spec fn has_marker(entries: Seq<EntryView>, stopper: Seq<char>) -> bool {
    exists|k: int| 0 <= k < entries.len() && #[trigger] entries[k].name == stopper
}

/// The entry survives ignore filtering: the marker itself always does, any
/// other entry iff its name matches no ignore pattern.
pub open spec fn kept(e: EntryView, pol: Policy) -> bool {
    e.name == pol.stopper || !pol.ignores.contains(e.name)
}

/// Is the listed directory descended into? Only a marker hit under the
/// non-greedy policy prunes its subtree.
pub open spec fn descends(entries: Seq<EntryView>, pol: Policy) -> bool {
    !(has_marker(entries, pol.stopper) && !pol.greedy)
}

// ---------------------------------------------------------------------------
// The scan state and its transition
// ---------------------------------------------------------------------------

/// The shared state of one scan: the queue of directories still to list,
/// every canonical path ever enqueued, and the paths reported so far in
/// first-report order.
#[verifier::ext_equal]
pub struct ScanState {
    pub pending: Seq<Seq<char>>,
    pub visited: Seq<Seq<char>>,
    pub results: Seq<Seq<char>>,
}

/// The state a scan starts from: the root is enqueued and marked visited.
pub open spec fn init_state(root: Seq<char>) -> ScanState {
    ScanState { pending: seq![root], visited: seq![root], results: Seq::empty() }
}

/// Enqueue the first `i` entries' directories, in order: an entry counts
/// when it leads to a directory, survives ignore filtering and its
/// canonical path was never seen before; it is then enqueued and marked
/// visited at once.
pub open spec fn enqueue_children(
    s: ScanState,
    pol: Policy,
    entries: Seq<EntryView>,
    i: int,
) -> ScanState
    decreases i,
{
    if i <= 0 {
        s
    } else {
        let s1 = enqueue_children(s, pol, entries, i - 1);
        match entries[i - 1].canon {
            Some(c) => if kept(entries[i - 1], pol) && !s1.visited.contains(c) {
                ScanState {
                    pending: s1.pending.push(c),
                    visited: s1.visited.push(c),
                    results: s1.results,
                }
            } else {
                s1
            },
            None => s1,
        }
    }
}

/// One whole traversal step: directory `dir` was popped from the queue and
/// its listing came back. An unlistable directory changes nothing. Else the
/// directory is reported iff the marker is among its entries (first report
/// only), and its children are enqueued unless the marker hit prunes them.
pub open spec fn step_state(
    s: ScanState,
    pol: Policy,
    dir: Seq<char>,
    listing: Option<Seq<EntryView>>,
) -> ScanState {
    match listing {
        None => s,
        Some(entries) => {
            let found = has_marker(entries, pol.stopper);
            let s1 = if found && !s.results.contains(dir) {
                ScanState { pending: s.pending, visited: s.visited, results: s.results.push(dir) }
            } else {
                s
            };
            if descends(entries, pol) {
                enqueue_children(s1, pol, entries, entries.len() as int)
            } else {
                s1
            }
        },
    }
}

// ---------------------------------------------------------------------------
// Exec policy helpers
// ---------------------------------------------------------------------------

fn has_marker_exec(entries: &Vec<Entry>, stopper: &String) -> (r: bool)
    ensures
        r == has_marker(entries.deep_view(), stopper@),
{
    let len = entries.len();
    let mut i: usize = 0;
    while i < len
        invariant
            len == entries@.len(),
            i <= len,
            forall|k: int| 0 <= k < i ==> #[trigger] entries.deep_view()[k].name != stopper@,
        decreases len - i,
    {
        if entries[i].name.eq(stopper) {
            proof {
                assert(entries.deep_view()[i as int].name == stopper@);
            }
            return true;
        }
        i = i + 1;
    }
    proof {
        if has_marker(entries.deep_view(), stopper@) {
            let k = choose|k: int|
                0 <= k < entries.deep_view().len() && #[trigger] entries.deep_view()[k].name
                    == stopper@;
            assert(entries.deep_view()[k].name != stopper@);
        }
    }
    false
}

// ---------------------------------------------------------------------------
// The scanner
// ---------------------------------------------------------------------------

/// The shared state of one scan. One value serves one scan; the
/// surrounding program may hand it to several workers in turn, each
/// popping a directory, listing it without holding the state, and handing
/// the listing back.
pub struct Scanner {
    stopper: String,
    ignores: Vec<String>,
    greedy: bool,
    pending: Vec<String>,
    visited: Vec<String>,
    results: Aggregator,
}

impl View for Scanner {
    type V = ScanState;

    closed spec fn view(&self) -> ScanState {
        ScanState {
            pending: self.pending.deep_view(),
            visited: self.visited.deep_view(),
            results: self.results@,
        }
    }
}

impl Scanner {
    /// The policy this scanner applies.
    pub closed spec fn policy(&self) -> Policy {
        Policy { stopper: self.stopper@, ignores: self.ignores.deep_view(), greedy: self.greedy }
    }

    /// The scan output never holds a path twice.
    pub open spec fn wf(&self) -> bool {
        self@.results.no_duplicates()
    }

    /// Start a scan of the tree under `root`, the canonical path of the
    /// configured root directory. Fails iff the marker name or an ignore
    /// pattern is invalid; the root's existence was checked when the
    /// configuration was built.
    pub fn new(config: &Args, root: String) -> (r: Result<Scanner, ConfigError>)
        ensures
            r is Ok <==> config.valid(),
            r is Ok ==> r->Ok_0@ == init_state(root@) && r->Ok_0.policy() == args_policy(*config)
                && r->Ok_0.wf(),
            !crate::config::pattern_ok(config.stopper@) ==> r == Result::<Scanner,
            ConfigError>::Err(ConfigError::InvalidMarker),
            crate::config::pattern_ok(config.stopper@) && !config.valid() ==> r == Result::<
                Scanner,
                ConfigError,
            >::Err(ConfigError::InvalidPattern),
    {
        match config.validate() {
            Err(e) => Err(e),
            Ok(()) => {
                let c = config.clone();
                let mut pending: Vec<String> = Vec::new();
                let mut visited: Vec<String> = Vec::new();
                pending.push(root.clone());
                visited.push(root);
                let s = Scanner {
                    stopper: c.stopper,
                    ignores: c.ignores,
                    greedy: c.greedy,
                    pending,
                    visited,
                    results: Aggregator::new(),
                };
                proof {
                    assert(s@.pending =~= seq![root@]);
                    assert(s@.visited =~= seq![root@]);
                    assert(s@ =~= init_state(root@));
                    assert(s.policy() =~= args_policy(*config));
                }
                Ok(s)
            },
        }
    }

    /// Is any directory still queued?
    pub fn has_pending(&self) -> (r: bool)
        ensures
            r == (self@.pending.len() > 0),
    {
        self.pending.len() > 0
    }

    /// Pop the next directory to list, if any is queued.
    pub fn next_dir(&mut self) -> (r: Option<String>)
        ensures
            final(self).policy() == old(self).policy(),
            final(self)@.visited == old(self)@.visited,
            final(self)@.results == old(self)@.results,
            old(self)@.pending.len() == 0 ==> r is None && final(self)@ == old(self)@,
            old(self)@.pending.len() > 0 ==> (r matches Some(d) && d@ == old(
                self,
            )@.pending.last() && final(self)@.pending == old(self)@.pending.drop_last()),
    {
        let r = self.pending.pop();
        proof {
            if old(self)@.pending.len() == 0 {
                assert(final(self)@ =~= old(self)@);
            } else {
                assert(final(self)@.pending =~= old(self)@.pending.drop_last());
            }
        }
        r
    }

    /// Apply one listing: `dir` was popped from the queue, and `listing`
    /// is what the surrounding program observed for it (`None` when the
    /// directory could not be listed — that subtree is skipped and the
    /// scan goes on).
    pub fn step(&mut self, dir: &String, listing: Option<&Vec<Entry>>)
        ensures
            final(self)@ == step_state(
                old(self)@,
                old(self).policy(),
                dir@,
                listing_view(listing),
            ),
            final(self).policy() == old(self).policy(),
            old(self).wf() ==> final(self).wf(),
    {
        let entries = match listing {
            None => {
                return ;
            },
            Some(entries) => entries,
        };
        let found = has_marker_exec(entries, &self.stopper);
        if found {
            let _ = self.results.report(dir.clone());
        }
        proof {
            assert(self@ =~= (if found && !old(self)@.results.contains(dir@) {
                ScanState {
                    pending: old(self)@.pending,
                    visited: old(self)@.visited,
                    results: old(self)@.results.push(dir@),
                }
            } else {
                old(self)@
            }));
        }
        if found && !self.greedy {
            return ;
        }
        let ghost s1 = self@;
        let ghost pol = self.policy();
        let ghost ev = entries.deep_view();
        let len = entries.len();
        let mut i: usize = 0;
        while i < len
            invariant
                len == entries@.len(),
                i <= len,
                ev == entries.deep_view(),
                self@ == enqueue_children(s1, pol, ev, i as int),
                self.policy() == pol,
                self@.results == s1.results,
            decreases len - i,
        {
            let ghost before = self@;
            let e = &entries[i];
            match &e.canon {
                Some(c) => {
                    let keep = e.name.eq(&self.stopper) || !contains_str(&self.ignores, &e.name);
                    proof {
                        assert(keep == kept(ev[i as int], pol));
                    }
                    if keep && !contains_str(&self.visited, c) {
                        self.visited.push(c.clone());
                        self.pending.push(c.clone());
                        proof {
                            assert(self@.pending =~= before.pending.push(c@));
                            assert(self@.visited =~= before.visited.push(c@));
                            assert(self@ =~= enqueue_children(s1, pol, ev, i + 1));
                        }
                    } else {
                        proof {
                            assert(self@ =~= enqueue_children(s1, pol, ev, i + 1));
                        }
                    }
                },
                None => {
                    proof {
                        assert(self@ =~= enqueue_children(s1, pol, ev, i + 1));
                    }
                },
            }
            i = i + 1;
        }
    }

    /// End the scan and hand the discovered paths out, deduplicated, in
    /// first-report order. The caller sorts them.
    pub fn finish(self) -> (r: Vec<String>)
        ensures
            r.deep_view() == self@.results,
    {
        self.results.drain()
    }
}

// ---------------------------------------------------------------------------
// Per-directory policy view: Visitor
// ---------------------------------------------------------------------------

/// The directories a listing's kept entries lead to, in listing order.
pub open spec fn kept_children(entries: Seq<EntryView>, pol: Policy) -> Seq<Seq<char>>
    decreases entries.len(),
{
    if entries.len() == 0 {
        Seq::empty()
    } else {
        let rest = kept_children(entries.drop_last(), pol);
        match entries.last().canon {
            Some(c) => if kept(entries.last(), pol) {
                rest.push(c)
            } else {
                rest
            },
            None => rest,
        }
    }
}

/// Builds one [`Visitor`] per scan worker from a shared configuration.
pub struct VisitorBuilder {
    config: Args,
}

impl VisitorBuilder {
    /// The policy the built visitors apply.
    pub closed spec fn policy(&self) -> Policy {
        args_policy(self.config)
    }

    pub fn new(config: Args) -> (r: VisitorBuilder)
        ensures
            r.policy() == args_policy(config),
    {
        VisitorBuilder { config }
    }

    /// Build one worker's visitor.
    pub fn build(&self) -> (v: Visitor)
        ensures
            v.policy() == self.policy(),
            v.buffered() == Seq::<Seq<char>>::empty(),
    {
        let v = Visitor::new(self.config.clone());
        proof {
            assert(v.policy() =~= self.policy());
        }
        v
    }
}

/// One worker's view of the traversal policy: it examines one directory
/// listing at a time, buffers the directories it discovered, and says
/// which child directories the traversal may descend into. Deduplication
/// against other workers is not its business — the shared [`Scanner`] (or
/// [`Aggregator`]) does that.
pub struct Visitor {
    /// The directories this worker discovered, in discovery order.
    pub paths: Vec<String>,
    config: Args,
}

impl Visitor {
    /// The policy this visitor applies.
    pub closed spec fn policy(&self) -> Policy {
        args_policy(self.config)
    }

    /// The paths buffered so far, in discovery order.
    pub closed spec fn buffered(&self) -> Seq<Seq<char>> {
        self.paths.deep_view()
    }

    pub fn new(config: Args) -> (r: Visitor)
        ensures
            r.policy() == args_policy(config),
            r.buffered() == Seq::<Seq<char>>::empty(),
    {
        let v = Visitor { paths: Vec::new(), config };
        proof {
            assert(v.paths.deep_view() =~= Seq::<Seq<char>>::empty());
        }
        v
    }

    /// Examine one directory's listing: buffer `dir` when the marker is
    /// among its entries, and return the child directories the policy
    /// descends into — none on a listing error, none when a non-greedy
    /// marker hit prunes the subtree.
    pub fn visit(&mut self, dir: &String, listing: Option<&Vec<Entry>>) -> (descend: Vec<String>)
        ensures
            final(self).policy() == old(self).policy(),
            final(self).buffered() == match listing_view(listing) {
                Some(entries) => if has_marker(entries, old(self).policy().stopper) {
                    old(self).buffered().push(dir@)
                } else {
                    old(self).buffered()
                },
                None => old(self).buffered(),
            },
            descend.deep_view() == match listing_view(listing) {
                Some(entries) => if descends(entries, old(self).policy()) {
                    kept_children(entries, old(self).policy())
                } else {
                    Seq::<Seq<char>>::empty()
                },
                None => Seq::<Seq<char>>::empty(),
            },
    {
        let mut descend: Vec<String> = Vec::new();
        proof {
            assert(descend.deep_view() =~= Seq::<Seq<char>>::empty());
        }
        let entries = match listing {
            None => {
                return descend;
            },
            Some(entries) => entries,
        };
        let found = has_marker_exec(entries, &self.config.stopper);
        if found {
            let ghost p0 = self.paths.deep_view();
            self.paths.push(dir.clone());
            proof {
                assert(self.paths.deep_view() =~= p0.push(dir@));
            }
        }
        if found && !self.config.greedy {
            return descend;
        }
        let ghost pol = self.policy();
        let ghost ev = entries.deep_view();
        let len = entries.len();
        let mut i: usize = 0;
        while i < len
            invariant
                len == entries@.len(),
                i <= len,
                ev == entries.deep_view(),
                pol == self.policy(),
                descend.deep_view() == kept_children(ev.subrange(0, i as int), pol),
            decreases len - i,
        {
            let e = &entries[i];
            proof {
                assert(ev.subrange(0, i + 1).drop_last() =~= ev.subrange(0, i as int));
                assert(ev.subrange(0, i + 1).last() == ev[i as int]);
            }
            match &e.canon {
                Some(c) => {
                    let keep = e.name.eq(&self.config.stopper) || !contains_str(
                        &self.config.ignores,
                        &e.name,
                    );
                    proof {
                        assert(keep == kept(ev[i as int], pol));
                    }
                    if keep {
                        let ghost d0 = descend.deep_view();
                        descend.push(c.clone());
                        proof {
                            assert(descend.deep_view() =~= d0.push(c@));
                        }
                    }
                },
                None => {},
            }
            i = i + 1;
        }
        proof {
            assert(ev.subrange(0, len as int) =~= ev);
        }
        descend
    }
}

} // verus!
