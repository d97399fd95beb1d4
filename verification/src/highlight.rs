//! The highlight matcher: which contiguous span of a candidate path
//! visually matches the current query.
//!
//! The algorithm is a single left-to-right sweep with one anchor shift per
//! mismatch, not an exhaustive search over all alignments: a window start
//! `l` and a scan position `r` move over the candidate; while the
//! character at `r` continues the query, `r` advances; on a mismatch — or
//! when the candidate or the query runs out — the window `[l, r)` closes,
//! is kept when it is strictly longer than the best so far, and the next
//! window starts at `r + 1`. The best window, when non-empty, becomes the
//! one span tagged as matched; the text before and after it stays plain.
//! For some candidate and query pairs this finds a shorter or earlier span
//! than a longest-common-substring search would; that is this matcher's
//! documented behaviour, not an accident to correct.
//!
//! All positions are character positions, never byte offsets, so non-ASCII
//! paths are sliced only at character boundaries.

use vstd::prelude::*;
use vstd::string::StrSliceExecFns;
use crate::text::fold_chars;
use crate::text::fold_seq;

verus! {

/// One rendered piece of a candidate path.
pub struct HighlightSpan {
    /// The slice of the candidate this span shows.
    pub text: String,
    /// Whether the span is the highlighted match.
    pub matched: bool,
}

/// The mathematical value of a [`HighlightSpan`].
#[verifier::ext_equal]
pub struct SpanView {
    pub text: Seq<char>,
    pub matched: bool,
}

impl DeepView for HighlightSpan {
    type V = SpanView;

    open spec fn deep_view(&self) -> SpanView {
        SpanView { text: self.text@, matched: self.matched }
    }
}

/// The diagonal sweep, from window start `l`, scan position `r` and best
/// window `[bl, br)`: the best window when the scan ends.
pub open spec fn sweep(
    p: Seq<char>,
    q: Seq<char>,
    l: int,
    r: int,
    bl: int,
    br: int,
) -> (int, int)
    decreases p.len() + 1 - r,
{
    if r > p.len() {
        (bl, br)
    } else if r == p.len() || !(0 <= r - l < q.len() && p[r] == q[r - l]) {
        if r - l > br - bl {
            sweep(p, q, r + 1, r + 1, l, r)
        } else {
            sweep(p, q, r + 1, r + 1, bl, br)
        }
    } else {
        sweep(p, q, l, r + 1, bl, br)
    }
}

/// The spans a best window `[bl, br)` induces on `path`: a non-empty
/// window becomes the one matched span, with the non-empty remainders
/// plain around it; without a match the whole path is one plain span.
pub open spec fn spans_of(path: Seq<char>, bl: int, br: int) -> Seq<SpanView> {
    if bl < br {
        let pre = path.subrange(0, bl);
        let post = path.subrange(br, path.len() as int);
        (if pre.len() > 0 {
            seq![SpanView { text: pre, matched: false }]
        } else {
            Seq::<SpanView>::empty()
        }) + seq![SpanView { text: path.subrange(bl, br), matched: true }] + (if post.len() > 0 {
            seq![SpanView { text: post, matched: false }]
        } else {
            Seq::<SpanView>::empty()
        })
    } else {
        seq![SpanView { text: path, matched: false }]
    }
}

/// What highlighting yields: the sweep runs over the case-folded path and
/// query, and its best window is cut out of the path as typed.
pub open spec fn highlight_spec(path: Seq<char>, query: Seq<char>, cs: bool) -> Seq<SpanView> {
    let best = sweep(fold_seq(path, cs), fold_seq(query, cs), 0, 0, 0, 0);
    spans_of(path, best.0, best.1)
}

/// The sweep's best window lies inside the scanned text.
pub proof fn lemma_sweep_bounds(p: Seq<char>, q: Seq<char>, l: int, r: int, bl: int, br: int)
    requires
        0 <= l <= r <= p.len() + 1,
        0 <= bl <= br <= p.len(),
    ensures
        0 <= sweep(p, q, l, r, bl, br).0 <= sweep(p, q, l, r, bl, br).1 <= p.len(),
    decreases p.len() + 1 - r,
{
    if r > p.len() {
    } else if r == p.len() || !(0 <= r - l < q.len() && p[r] == q[r - l]) {
        if r - l > br - bl {
            lemma_sweep_bounds(p, q, r + 1, r + 1, l, r);
        } else {
            lemma_sweep_bounds(p, q, r + 1, r + 1, bl, br);
        }
    } else {
        lemma_sweep_bounds(p, q, l, r + 1, bl, br);
    }
}

/// The concatenation of the spans' texts, in order.
pub open spec fn concat_spans(spans: Seq<SpanView>) -> Seq<char>
    decreases spans.len(),
{
    if spans.len() == 0 {
        Seq::<char>::empty()
    } else {
        concat_spans(spans.drop_last()) + spans.last().text
    }
}

proof fn lemma_concat_one(a: SpanView)
    ensures
        concat_spans(seq![a]) == a.text,
{
    assert(seq![a].drop_last() =~= Seq::<SpanView>::empty());
    assert(concat_spans(Seq::<SpanView>::empty()) == Seq::<char>::empty());
    assert(Seq::<char>::empty() + a.text =~= a.text);
}

proof fn lemma_concat_two(a: SpanView, b: SpanView)
    ensures
        concat_spans(seq![a, b]) == a.text + b.text,
{
    assert(seq![a, b].drop_last() =~= seq![a]);
    lemma_concat_one(a);
}

proof fn lemma_concat_three(a: SpanView, b: SpanView, c: SpanView)
    ensures
        concat_spans(seq![a, b, c]) == a.text + b.text + c.text,
{
    assert(seq![a, b, c].drop_last() =~= seq![a, b]);
    lemma_concat_two(a, b);
}

/// The rendered row reproduces the candidate exactly: the spans'
/// concatenated text is the path itself, and at most one span — the best
/// window, when it is non-empty — is tagged as matched.
pub proof fn lemma_highlight_covers(path: Seq<char>, query: Seq<char>, cs: bool)
    ensures
        concat_spans(highlight_spec(path, query, cs)) == path,
        forall|i: int, j: int|
            0 <= i < j < highlight_spec(path, query, cs).len() ==> !(#[trigger] highlight_spec(
                path,
                query,
                cs,
            )[i].matched && #[trigger] highlight_spec(path, query, cs)[j].matched),
{
    let p = fold_seq(path, cs);
    let q = fold_seq(query, cs);
    assert(p.len() == path.len());
    lemma_sweep_bounds(p, q, 0, 0, 0, 0);
    let best = sweep(p, q, 0, 0, 0, 0);
    let bl = best.0;
    let br = best.1;
    let spans = spans_of(path, bl, br);
    if bl < br {
        let pre = SpanView { text: path.subrange(0, bl), matched: false };
        let mid = SpanView { text: path.subrange(bl, br), matched: true };
        let post = SpanView { text: path.subrange(br, path.len() as int), matched: false };
        assert(path.subrange(0, bl) + path.subrange(bl, br) + path.subrange(
            br,
            path.len() as int,
        ) =~= path);
        if pre.text.len() > 0 && post.text.len() > 0 {
            assert(spans =~= seq![pre, mid, post]);
            lemma_concat_three(pre, mid, post);
        } else if pre.text.len() > 0 {
            assert(spans =~= seq![pre, mid]);
            lemma_concat_two(pre, mid);
            assert(pre.text + mid.text =~= path);
        } else if post.text.len() > 0 {
            assert(spans =~= seq![mid, post]);
            lemma_concat_two(mid, post);
            assert(mid.text + post.text =~= path);
        } else {
            assert(spans =~= seq![mid]);
            lemma_concat_one(mid);
            assert(mid.text =~= path);
        }
    } else {
        assert(spans =~= seq![SpanView { text: path, matched: false }]);
        lemma_concat_one(SpanView { text: path, matched: false });
    }
}

/// Compute the spans of `path` against `query`. Their concatenation is
/// `path` itself, and at most one span is tagged as matched.
pub fn highlight(path: &str, query: &str, case_sensitive: bool) -> (spans: Vec<HighlightSpan>)
    ensures
        spans.deep_view() == highlight_spec(path@, query@, case_sensitive),
{
    let pf = fold_chars(path, case_sensitive);
    let qf = fold_chars(query, case_sensitive);
    let n = pf.len();
    let qn = qf.len();
    proof {
        assert(n == path@.len());
    }
    let mut l: usize = 0;
    let mut r: usize = 0;
    let mut bl: usize = 0;
    let mut br: usize = 0;
    while r < n
        invariant
            n == pf@.len(),
            qn == qf@.len(),
            l <= r <= n,
            bl <= br <= n,
            sweep(pf@, qf@, l as int, r as int, bl as int, br as int) == sweep(
                pf@,
                qf@,
                0,
                0,
                0,
                0,
            ),
        decreases n - r,
    {
        let step_matches = r - l < qn && pf[r] == qf[r - l];
        if step_matches {
            r = r + 1;
        } else {
            if r - l > br - bl {
                bl = l;
                br = r;
            }
            r = r + 1;
            l = r;
        }
    }
    // The scan position reached the end: the sweep closes the last window
    // and stops.
    let ghost ol = l as int;
    let ghost obl = bl as int;
    let ghost obr = br as int;
    if r - l > br - bl {
        bl = l;
        br = r;
    }
    proof {
        let p = pf@;
        let q = qf@;
        assert(sweep(p, q, ol, n as int, obl, obr) == sweep(
            p,
            q,
            n + 1,
            n + 1,
            bl as int,
            br as int,
        ));
        assert(sweep(p, q, n + 1, n + 1, bl as int, br as int) == (bl as int, br as int));
        assert((bl as int, br as int) == sweep(p, q, 0, 0, 0, 0));
    }
    let mut spans: Vec<HighlightSpan> = Vec::new();
    if br > bl {
        if bl > 0 {
            spans.push(
                HighlightSpan { text: path.substring_char(0, bl).to_owned(), matched: false },
            );
        }
        spans.push(HighlightSpan { text: path.substring_char(bl, br).to_owned(), matched: true });
        if br < n {
            spans.push(
                HighlightSpan { text: path.substring_char(br, n).to_owned(), matched: false },
            );
        }
        proof {
            assert(spans.deep_view() =~= spans_of(path@, bl as int, br as int));
        }
    } else {
        spans.push(HighlightSpan { text: path.to_owned(), matched: false });
        proof {
            assert(path@.subrange(0, path@.len() as int) =~= path@);
            assert(spans.deep_view() =~= spans_of(path@, bl as int, br as int));
        }
    }
    spans
}

} // verus!
