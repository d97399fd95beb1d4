//! The selection model: the discovered set, the live filtered view and the
//! cursor.
//!
//! After a scan, [`App::load`] takes the discovered paths, sorts them and
//! shows them all. Every query edit recomputes the filtered view as a fresh
//! pass over the full set — only the current query and the current set
//! matter, never the edit history — and clamps the cursor. Navigation moves
//! the cursor circularly over the filtered view; on an empty view every
//! navigation and submit is a no-op and the cursor stays undefined.

use vstd::prelude::*;
use crate::config::Args;
use crate::text::clone_paths;
use crate::text::lex_sorted;
use crate::text::matches_query;
use crate::text::sort_paths;
use crate::text::str_matches_query;

verus! {

// ---------------------------------------------------------------------------
// The model's value
// ---------------------------------------------------------------------------

/// The mathematical value of the selection model.
#[verifier::ext_equal]
pub struct AppView {
    /// The full discovered set, sorted, as one scan produced it.
    pub dirs: Seq<Seq<char>>,
    /// The subsequence of `dirs` matching the query, in `dirs` order.
    pub filtered: Seq<Seq<char>>,
    /// The cursor into `filtered`; `None` iff `filtered` is empty.
    pub cursor: Option<int>,
    /// The current query.
    pub query: Seq<char>,
    /// Compare without case folding.
    pub case_sensitive: bool,
    pub should_quit: bool,
    pub submitted: bool,
}

/// The ordered subsequence of `dirs` whose members match `q`.
pub open spec fn filter_spec(dirs: Seq<Seq<char>>, q: Seq<char>, cs: bool) -> Seq<Seq<char>> {
    dirs.filter(|d: Seq<char>| matches_query(d, q, cs))
}

/// A cursor agrees with a view of this length: within bounds, and absent
/// exactly on the empty view.
pub open spec fn cursor_ok(c: Option<int>, len: nat) -> bool {
    match c {
        None => len == 0,
        Some(i) => 0 <= i < len,
    }
}

/// The cursor after a view recomputation: undefined on an empty view, else
/// kept where it was, but no further than the last row.
pub open spec fn clamped_cursor(c: Option<int>, len: nat) -> Option<int> {
    if len == 0 {
        None
    } else {
        match c {
            Some(i) => if i < len {
                Some(i)
            } else {
                Some(len - 1)
            },
            None => Some(0),
        }
    }
}

// ---------------------------------------------------------------------------
// What each command does to the model's value
// ---------------------------------------------------------------------------

/// Recompute the filtered view from the set and the query, and clamp the
/// cursor.
pub open spec fn filter_view(v: AppView) -> AppView {
    let f = filter_spec(v.dirs, v.query, v.case_sensitive);
    AppView { filtered: f, cursor: clamped_cursor(v.cursor, f.len()), ..v }
}

/// Replace the query, then recompute.
pub open spec fn set_query_view(v: AppView, q: Seq<char>) -> AppView {
    filter_view(AppView { query: q, ..v })
}

/// Advance the cursor, wrapping past the last row; a no-op on an empty view.
pub open spec fn next_view(v: AppView) -> AppView {
    match v.cursor {
        Some(i) => if v.filtered.len() > 0 {
            AppView { cursor: Some((i + 1) % v.filtered.len() as int), ..v }
        } else {
            v
        },
        None => v,
    }
}

/// Retreat the cursor, wrapping before the first row; a no-op on an empty
/// view.
pub open spec fn prev_view(v: AppView) -> AppView {
    match v.cursor {
        Some(i) => if v.filtered.len() > 0 {
            AppView {
                cursor: Some(
                    if i == 0 {
                        v.filtered.len() - 1
                    } else {
                        i - 1
                    },
                ),
                ..v
            }
        } else {
            v
        },
        None => v,
    }
}

/// Jump to the first row; a no-op on an empty view.
pub open spec fn first_view(v: AppView) -> AppView {
    if v.filtered.len() > 0 {
        AppView { cursor: Some(0), ..v }
    } else {
        v
    }
}

/// Jump to the last row; a no-op on an empty view.
pub open spec fn last_view(v: AppView) -> AppView {
    if v.filtered.len() > 0 {
        AppView { cursor: Some(v.filtered.len() - 1), ..v }
    } else {
        v
    }
}

/// Finalize the interaction; a no-op on an empty view.
pub open spec fn submit_view(v: AppView) -> AppView {
    if v.filtered.len() > 0 {
        AppView { submitted: true, should_quit: true, ..v }
    } else {
        v
    }
}

/// Leave without selecting.
pub open spec fn quit_view(v: AppView) -> AppView {
    AppView { should_quit: true, ..v }
}

/// The row under the cursor.
pub open spec fn selected_of(v: AppView) -> Seq<char>
    recommends
        v.cursor is Some,
{
    v.filtered[v.cursor->0]
}

// ---------------------------------------------------------------------------
// The model
// ---------------------------------------------------------------------------

/// The selection model. One scan's output is loaded into it; an event loop
/// then feeds it query edits and navigation commands and renders its
/// filtered view back.
pub struct App {
    /// The rows currently shown: the filtered view.
    pub filtered_dirs: Vec<String>,
    /// The event loop stops when this is set.
    pub should_quit: bool,
    /// A row was picked; [`App::get_selected`] says which.
    pub submitted: bool,
    /// The cursor into `filtered_dirs`; `None` iff the view is empty.
    pub cursor: Option<usize>,
    /// The current query.
    pub query: String,
    dirs: Vec<String>,
    config: Args,
}

impl View for App {
    type V = AppView;

    closed spec fn view(&self) -> AppView {
        AppView {
            dirs: self.dirs.deep_view(),
            filtered: self.filtered_dirs.deep_view(),
            cursor: match self.cursor {
                Some(i) => Some(i as int),
                None => None,
            },
            query: self.query@,
            case_sensitive: self.config.case_sensitive,
            should_quit: self.should_quit,
            submitted: self.submitted,
        }
    }
}

impl App {
    /// The model is consistent: the filtered view is what the set and the
    /// query say it is, and the cursor agrees with it.
    pub open spec fn wf(&self) -> bool {
        &&& self@.filtered == filter_spec(self@.dirs, self@.query, self@.case_sensitive)
        &&& cursor_ok(self@.cursor, self@.filtered.len())
    }

    /// An empty model holding the configuration; a scan's output comes in
    /// through [`App::load`].
    pub fn new(config: Args) -> (r: App)
        ensures
            r@.dirs == Seq::<Seq<char>>::empty(),
            r@.filtered == Seq::<Seq<char>>::empty(),
            r@.cursor is None,
            r@.query == Seq::<char>::empty(),
            r@.case_sensitive == config.case_sensitive,
            !r@.should_quit,
            !r@.submitted,
            r.wf(),
    {
        let r = App {
            filtered_dirs: Vec::new(),
            should_quit: false,
            submitted: false,
            cursor: None,
            query: String::new(),
            dirs: Vec::new(),
            config,
        };
        proof {
            assert(r@.dirs =~= Seq::<Seq<char>>::empty());
            assert(r@.filtered =~= Seq::<Seq<char>>::empty());
            lemma_filter_all(r@.dirs, r@.query, r@.case_sensitive);
        }
        r
    }

    /// Replace the discovered set with one scan's output: sort it, reset
    /// the query, show everything, and put the cursor on the first row of
    /// a non-empty set.
    pub fn load(&mut self, paths: Vec<String>)
        ensures
            lex_sorted(final(self)@.dirs),
            final(self)@.dirs.to_multiset() == paths.deep_view().to_multiset(),
            final(self)@.query == Seq::<char>::empty(),
            final(self)@.filtered == final(self)@.dirs,
            final(self)@.cursor == if final(self)@.dirs.len() > 0 {
                Some(0int)
            } else {
                None::<int>
            },
            final(self)@.case_sensitive == old(self)@.case_sensitive,
            final(self)@.should_quit == old(self)@.should_quit,
            final(self)@.submitted == old(self)@.submitted,
            final(self).wf(),
    {
        let sorted = sort_paths(paths);
        self.filtered_dirs = clone_paths(&sorted);
        self.dirs = sorted;
        self.query = String::new();
        self.cursor = if self.dirs.len() > 0 {
            Some(0)
        } else {
            None
        };
        proof {
            lemma_filter_all(self@.dirs, self@.query, self@.case_sensitive);
        }
    }

    /// Recompute the filtered view as a fresh pass over the full set, and
    /// clamp the cursor.
    pub fn filter(&mut self)
        ensures
            final(self)@ == filter_view(old(self)@),
            final(self).wf(),
    {
        let len = self.dirs.len();
        let mut out: Vec<String> = Vec::new();
        let mut i: usize = 0;
        while i < len
            invariant
                len == self.dirs@.len(),
                i <= len,
                out.deep_view() == filter_spec(
                    self@.dirs.subrange(0, i as int),
                    self@.query,
                    self@.case_sensitive,
                ),
            decreases len - i,
        {
            let ghost pre = self@.dirs.subrange(0, i as int);
            let ghost pre1 = self@.dirs.subrange(0, i + 1);
            let matched = str_matches_query(
                self.dirs[i].as_str(),
                self.query.as_str(),
                self.config.case_sensitive,
            );
            proof {
                assert(pre1.drop_last() =~= pre);
                assert(pre1.last() == self@.dirs[i as int]);
                reveal(Seq::filter);
            }
            if matched {
                let ghost d0 = out.deep_view();
                out.push(self.dirs[i].clone());
                proof {
                    assert(out.deep_view() =~= d0.push(self@.dirs[i as int]));
                }
            }
            i = i + 1;
        }
        proof {
            assert(self@.dirs.subrange(0, len as int) =~= self@.dirs);
        }
        let flen = out.len();
        self.filtered_dirs = out;
        self.cursor = if flen == 0 {
            None
        } else {
            match self.cursor {
                Some(c) => if c < flen {
                    Some(c)
                } else {
                    Some(flen - 1)
                },
                None => Some(0),
            }
        };
    }

    /// Replace the query and recompute the filtered view.
    pub fn set_query(&mut self, q: String)
        ensures
            final(self)@ == set_query_view(old(self)@, q@),
            final(self).wf(),
    {
        self.query = q;
        self.filter();
    }

    /// The row under the cursor.
    pub fn get_selected(&self) -> (r: &String)
        requires
            self.wf(),
            self@.filtered.len() > 0,
        ensures
            r@ == selected_of(self@),
    {
        match self.cursor {
            Some(c) => &self.filtered_dirs[c],
            None => {
                proof {
                    assert(false);
                }
                &self.filtered_dirs[0]
            },
        }
    }

    /// Advance the cursor, wrapping past the last row.
    pub fn next(&mut self)
        requires
            old(self).wf(),
        ensures
            final(self)@ == next_view(old(self)@),
            final(self).wf(),
    {
        if self.filtered_dirs.is_empty() {
            return ;
        }
        match self.cursor {
            Some(c) => {
                let len = self.filtered_dirs.len();
                proof {
                    assert(cursor_ok(self@.cursor, self@.filtered.len()));
                    assert(c < len);
                }
                self.cursor = Some((c + 1) % len);
            },
            None => {
                proof {
                    assert(false);
                }
            },
        }
    }

    /// Retreat the cursor, wrapping before the first row.
    pub fn prev(&mut self)
        requires
            old(self).wf(),
        ensures
            final(self)@ == prev_view(old(self)@),
            final(self).wf(),
    {
        if self.filtered_dirs.is_empty() {
            return ;
        }
        match self.cursor {
            Some(c) => {
                if c == 0 {
                    self.cursor = Some(self.filtered_dirs.len() - 1);
                } else {
                    self.cursor = Some(c - 1);
                }
            },
            None => {
                proof {
                    assert(false);
                }
            },
        }
    }

    /// Jump to the first row.
    pub fn first(&mut self)
        requires
            old(self).wf(),
        ensures
            final(self)@ == first_view(old(self)@),
            final(self).wf(),
    {
        if self.filtered_dirs.is_empty() {
            return ;
        }
        self.cursor = Some(0);
    }

    /// Jump to the last row.
    pub fn last(&mut self)
        requires
            old(self).wf(),
        ensures
            final(self)@ == last_view(old(self)@),
            final(self).wf(),
    {
        if self.filtered_dirs.is_empty() {
            return ;
        }
        self.cursor = Some(self.filtered_dirs.len() - 1);
    }

    /// Finalize the interaction on the row under the cursor; a no-op when
    /// nothing is shown.
    pub fn submit(&mut self)
        requires
            old(self).wf(),
        ensures
            final(self)@ == submit_view(old(self)@),
            final(self).wf(),
    {
        if self.filtered_dirs.is_empty() {
            return ;
        }
        self.submitted = true;
        self.should_quit = true;
    }

    /// Leave without selecting.
    pub fn quit(&mut self)
        ensures
            final(self)@ == quit_view(old(self)@),
            old(self).wf() ==> final(self).wf(),
    {
        self.should_quit = true;
    }

    /// Set the query and succeed iff anything matches; on success the
    /// cursor sits on the first match, which [`App::get_selected`] then
    /// yields. A non-interactive shortcut for an upfront query.
    pub fn select_first_match(&mut self, q: String) -> (r: bool)
        ensures
            r == (filter_spec(old(self)@.dirs, q@, old(self)@.case_sensitive).len() > 0),
            final(self)@ == (AppView {
                cursor: if r {
                    Some(0int)
                } else {
                    None::<int>
                },
                ..set_query_view(old(self)@, q@)
            }),
            final(self).wf(),
    {
        self.set_query(q);
        if self.filtered_dirs.len() > 0 {
            self.cursor = Some(0);
            true
        } else {
            false
        }
    }
}

// ---------------------------------------------------------------------------
// Commands
// ---------------------------------------------------------------------------

/// One already-decoded command for the model. Which physical key maps to
/// which command is the surrounding program's business.
pub enum Command {
    Next,
    Prev,
    First,
    Last,
    Submit,
    Quit,
    /// The query text after an edit.
    Query(String),
}

/// Feeds decoded commands into the model. The surrounding program polls
/// its event source with the configured timeout, decodes each key, and
/// hands the command in.
pub struct EventHandler {
    poll_timeout_ms: u64,
}

impl EventHandler {
    /// The configured poll timeout, in milliseconds.
    pub closed spec fn timeout_ms(&self) -> u64 {
        self.poll_timeout_ms
    }

    pub fn new(poll_timeout_ms: u64) -> (r: EventHandler)
        ensures
            r.timeout_ms() == poll_timeout_ms,
    {
        EventHandler { poll_timeout_ms }
    }

    /// Apply one command to the model.
    pub fn handle(&self, app: &mut App, cmd: Command)
        requires
            old(app).wf(),
        ensures
            final(app).wf(),
            final(app)@ == (match cmd {
                Command::Next => next_view(old(app)@),
                Command::Prev => prev_view(old(app)@),
                Command::First => first_view(old(app)@),
                Command::Last => last_view(old(app)@),
                Command::Submit => submit_view(old(app)@),
                Command::Quit => quit_view(old(app)@),
                Command::Query(q) => set_query_view(old(app)@, q@),
            }),
    {
        match cmd {
            Command::Next => app.next(),
            Command::Prev => app.prev(),
            Command::First => app.first(),
            Command::Last => app.last(),
            Command::Submit => app.submit(),
            Command::Quit => app.quit(),
            Command::Query(q) => app.set_query(q),
        }
    }
}

// ---------------------------------------------------------------------------
// Filtering facts
// ---------------------------------------------------------------------------

/// A filter whose predicate holds everywhere keeps the sequence as it is.
proof fn lemma_filter_all_true<A>(s: Seq<A>, pred: spec_fn(A) -> bool)
    requires
        forall|k: int| 0 <= k < s.len() ==> pred(#[trigger] s[k]),
    ensures
        s.filter(pred) == s,
    decreases s.len(),
{
    reveal(Seq::filter);
    if s.len() > 0 {
        lemma_filter_all_true(s.drop_last(), pred);
        assert(s.drop_last().push(s.last()) =~= s);
    }
}

/// Every path matches the empty query, so it keeps the full set: the
/// filtered view under the empty query is the whole ordered set.
pub proof fn lemma_filter_empty_query(dirs: Seq<Seq<char>>, cs: bool)
    ensures
        filter_spec(dirs, Seq::<char>::empty(), cs) == dirs,
{
    lemma_filter_all(dirs, Seq::<char>::empty(), cs);
}

/// Clearing the query restores the full ordered set as the filtered view.
pub proof fn lemma_empty_query_restores_all(v: AppView)
    ensures
        set_query_view(v, Seq::<char>::empty()).filtered == v.dirs,
{
    lemma_filter_empty_query(v.dirs, v.case_sensitive);
}

/// A query that nothing matches empties the view and undefines the
/// cursor; navigation in that state moves nothing.
pub proof fn lemma_no_match_noops(v: AppView, q: Seq<char>)
    requires
        filter_spec(v.dirs, q, v.case_sensitive).len() == 0,
    ensures
        set_query_view(v, q).filtered.len() == 0,
        set_query_view(v, q).cursor is None,
        next_view(set_query_view(v, q)) == set_query_view(v, q),
        prev_view(set_query_view(v, q)) == set_query_view(v, q),
{
}

/// The cursor wraps: after the last row `next` lands on the first, and
/// before the first row `prev` lands on the last.
pub proof fn lemma_cursor_wraps(v: AppView)
    requires
        v.filtered.len() > 0,
        cursor_ok(v.cursor, v.filtered.len()),
    ensures
        v.cursor == Some(v.filtered.len() - 1) ==> next_view(v).cursor == Some(0int),
        v.cursor == Some(0int) ==> prev_view(v).cursor == Some(v.filtered.len() - 1),
{
    let n = v.filtered.len() as int;
    assert(n % n == 0) by (nonlinear_arith)
        requires
            n > 0,
    ;
}

/// Every path matches the empty query — and any query that folds to the
/// empty sequence.
proof fn lemma_filter_all(dirs: Seq<Seq<char>>, q: Seq<char>, cs: bool)
    requires
        q.len() == 0,
    ensures
        filter_spec(dirs, q, cs) == dirs,
{
    assert forall|k: int| 0 <= k < dirs.len() implies matches_query(
        #[trigger] dirs[k],
        q,
        cs,
    ) by {
        let hay = crate::text::fold_seq(dirs[k], cs);
        let needle = crate::text::fold_seq(q, cs);
        assert(needle.len() == 0);
        assert(hay.subrange(0, 0) =~= needle);
        assert(crate::text::substring_at(hay, needle, 0));
    }
    lemma_filter_all_true(dirs, |d: Seq<char>| matches_query(d, q, cs));
}

} // verus!
