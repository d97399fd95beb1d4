//! Exactly-once collection of discovered paths.
//!
//! Scanner workers report every marker directory they find; the aggregator
//! keeps the first report of each path and drops the rest, so the scan
//! output never holds a path twice. One aggregator serves one scan and is
//! drained once at its end. When workers run concurrently, the surrounding
//! program serializes their access; each call here is one whole
//! check-and-insert, so no interleaving of two calls can slip a duplicate
//! in.

use vstd::prelude::*;
use crate::text::contains_str;

verus! {

/// The deduplicated paths discovered so far, in first-report order.
pub struct Aggregator {
    items: Vec<String>,
}

impl View for Aggregator {
    type V = Seq<Seq<char>>;

    closed spec fn view(&self) -> Seq<Seq<char>> {
        self.items.deep_view()
    }
}

impl Aggregator {
    /// The aggregator never holds a path twice.
    pub open spec fn wf(&self) -> bool {
        self@.no_duplicates()
    }

    /// An empty aggregator.
    pub fn new() -> (r: Aggregator)
        ensures
            r@ == Seq::<Seq<char>>::empty(),
            r.wf(),
    {
        Aggregator { items: Vec::new() }
    }

    /// Record one discovered path. Returns true and appends the path iff
    /// this is its first report; a repeated report changes nothing.
    pub fn report(&mut self, path: String) -> (first: bool)
        ensures
            first == !old(self)@.contains(path@),
            final(self)@ == if first {
                old(self)@.push(path@)
            } else {
                old(self)@
            },
            old(self).wf() ==> final(self).wf(),
    {
        if contains_str(&self.items, &path) {
            false
        } else {
            let ghost s0 = self@;
            self.items.push(path);
            proof {
                assert(self@ =~= s0.push(path@));
            }
            true
        }
    }

    /// Hand the collected paths out, in first-report order. One-shot: the
    /// aggregator is consumed.
    pub fn drain(self) -> (r: Vec<String>)
        ensures
            r.deep_view() == self@,
    {
        self.items
    }
}

} // verus!
