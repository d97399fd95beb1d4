//! Case folding, substring search and lexicographic order over character
//! sequences. The selection model and the highlight matcher state their
//! contracts in these terms.

use vstd::prelude::*;
use vstd::string::StrSliceExecFns;

verus! {

// ---------------------------------------------------------------------------
// Case folding
// ---------------------------------------------------------------------------

/// The lowercase form of a character: the first character of the lowercase
/// mapping that the standard library computes for it.
pub uninterp spec fn lower_char_of(c: char) -> char;

/// Relies on `char::to_lowercase`: the lowercase mapping of a character
/// depends on the character alone. The mapping always yields at least one
/// character; its first character is taken.
#[verifier::external_body]
fn lower_char(c: char) -> (r: char)
    ensures
        r == lower_char_of(c),
{
    c.to_lowercase().next().unwrap_or(c)
}

/// The case-folded form of a character sequence: the sequence itself when
/// case sensitive, otherwise each character folded to lowercase.
pub open spec fn fold_seq(s: Seq<char>, case_sensitive: bool) -> Seq<char> {
    if case_sensitive {
        s
    } else {
        s.map_values(|c: char| lower_char_of(c))
    }
}

/// Case-fold a string into its characters.
pub fn fold_chars(s: &str, case_sensitive: bool) -> (r: Vec<char>)
    ensures
        r@ == fold_seq(s@, case_sensitive),
{
    let n = s.unicode_len();
    let mut out: Vec<char> = Vec::new();
    let mut i: usize = 0;
    while i < n
        invariant
            n == s@.len(),
            i <= n,
            out@ == fold_seq(s@, case_sensitive).subrange(0, i as int),
        decreases n - i,
    {
        let c = s.get_char(i);
        let f = if case_sensitive {
            c
        } else {
            lower_char(c)
        };
        proof {
            assert(fold_seq(s@, case_sensitive).subrange(0, i + 1) =~= fold_seq(
                s@,
                case_sensitive,
            ).subrange(0, i as int).push(fold_seq(s@, case_sensitive)[i as int]));
        }
        out.push(f);
        i = i + 1;
    }
    proof {
        assert(fold_seq(s@, case_sensitive).subrange(0, n as int) =~= fold_seq(
            s@,
            case_sensitive,
        ));
    }
    out
}

// ---------------------------------------------------------------------------
// Substring search
// ---------------------------------------------------------------------------

/// `needle` occurs in `hay` starting at position `i`.
pub open spec fn substring_at(hay: Seq<char>, needle: Seq<char>, i: int) -> bool {
    &&& 0 <= i
    &&& i + needle.len() <= hay.len()
    &&& hay.subrange(i, i + needle.len() as int) == needle
}

/// `needle` occurs contiguously somewhere in `hay`. The empty sequence
/// occurs in every sequence.
pub open spec fn is_substring(hay: Seq<char>, needle: Seq<char>) -> bool {
    exists|i: int| #[trigger] substring_at(hay, needle, i)
}

/// Directory `d` matches query `q`: the folded query occurs as a substring
/// of the folded directory.
pub open spec fn matches_query(d: Seq<char>, q: Seq<char>, case_sensitive: bool) -> bool {
    is_substring(fold_seq(d, case_sensitive), fold_seq(q, case_sensitive))
}

fn chars_match_at(hay: &Vec<char>, needle: &Vec<char>, at: usize) -> (r: bool)
    requires
        at + needle@.len() <= hay@.len(),
    ensures
        r == (hay@.subrange(at as int, at + needle@.len() as int) == needle@),
{
    let nlen = needle.len();
    let hlen = hay.len();
    let mut j: usize = 0;
    while j < nlen
        invariant
            nlen == needle@.len(),
            hlen == hay@.len(),
            at + needle@.len() <= hay@.len(),
            j <= nlen,
            forall|k: int| 0 <= k < j ==> hay@[at + k] == needle@[k],
        decreases nlen - j,
    {
        if hay[at + j] != needle[j] {
            proof {
                assert(hay@.subrange(at as int, at + needle@.len() as int)[j as int] == hay@[at
                    + j]);
            }
            return false;
        }
        j = j + 1;
    }
    proof {
        assert(hay@.subrange(at as int, at + needle@.len() as int) =~= needle@);
    }
    true
}

/// Substring search: a left-to-right scan over every start position.
pub fn chars_contain(hay: &Vec<char>, needle: &Vec<char>) -> (r: bool)
    ensures
        r == is_substring(hay@, needle@),
{
    let nlen = needle.len();
    let hlen = hay.len();
    if nlen > hlen {
        proof {
            assert forall|i: int| !substring_at(hay@, needle@, i) by {}
        }
        return false;
    }
    if nlen == 0 {
        proof {
            assert(hay@.subrange(0, 0) =~= needle@);
            assert(substring_at(hay@, needle@, 0));
        }
        return true;
    }
    let mut i: usize = 0;
    while i <= hlen - nlen
        invariant
            nlen == needle@.len(),
            hlen == hay@.len(),
            1 <= nlen <= hlen,
            i <= hlen - nlen + 1,
            forall|k: int| 0 <= k < i ==> !#[trigger] substring_at(hay@, needle@, k),
        decreases hlen - nlen + 1 - i,
    {
        if chars_match_at(hay, needle, i) {
            proof {
                assert(substring_at(hay@, needle@, i as int));
            }
            return true;
        }
        proof {
            assert(!substring_at(hay@, needle@, i as int));
        }
        i = i + 1;
    }
    proof {
        assert forall|k: int| !substring_at(hay@, needle@, k) by {
            if 0 <= k < i {
                assert(!substring_at(hay@, needle@, k));
            }
        }
    }
    false
}

/// Does `d` match `q` under the case flag, executably.
pub fn str_matches_query(d: &str, q: &str, case_sensitive: bool) -> (r: bool)
    ensures
        r == matches_query(d@, q@, case_sensitive),
{
    let df = fold_chars(d, case_sensitive);
    let qf = fold_chars(q, case_sensitive);
    chars_contain(&df, &qf)
}

/// Copy a list of paths.
pub fn clone_paths(v: &Vec<String>) -> (r: Vec<String>)
    ensures
        r.deep_view() == v.deep_view(),
{
    let len = v.len();
    let mut out: Vec<String> = Vec::new();
    let mut i: usize = 0;
    while i < len
        invariant
            len == v@.len(),
            i <= len,
            out.deep_view() == v.deep_view().subrange(0, i as int),
        decreases len - i,
    {
        let ghost d0 = out.deep_view();
        let ghost pre = out@;
        let x = v[i].clone();
        out.push(x);
        proof {
            assert(d0.len() == i);
            assert(pre.len() == d0.len());
            assert(out@ == pre.push(x));
            assert forall|k: int| 0 <= k < i + 1 implies out.deep_view()[k]
                == v.deep_view().subrange(0, i + 1)[k] by {
                if k < i {
                    assert(out@[k] == pre[k]);
                    assert(d0[k] == v.deep_view().subrange(0, i as int)[k]);
                } else {
                    assert(out@[k] == x);
                    assert(x == v@[i as int]);
                }
            }
            assert(out.deep_view() =~= v.deep_view().subrange(0, i + 1));
        }
        i = i + 1;
    }
    proof {
        assert(v.deep_view().subrange(0, len as int) =~= v.deep_view());
    }
    out
}

/// Is `s` one of the strings in `v`?
pub fn contains_str(v: &Vec<String>, s: &String) -> (r: bool)
    ensures
        r == v.deep_view().contains(s@),
{
    let len = v.len();
    let mut i: usize = 0;
    while i < len
        invariant
            len == v@.len(),
            i <= len,
            forall|k: int| 0 <= k < i ==> v.deep_view()[k] != s@,
        decreases len - i,
    {
        if v[i].eq(s) {
            proof {
                assert(v.deep_view()[i as int] == s@);
            }
            return true;
        }
        i = i + 1;
    }
    proof {
        if v.deep_view().contains(s@) {
            let k = choose|k: int| 0 <= k < v.deep_view().len() && v.deep_view()[k] == s@;
            assert(v.deep_view()[k] != s@);
        }
    }
    false
}

// ---------------------------------------------------------------------------
// Lexicographic order
// ---------------------------------------------------------------------------

/// `a` is lexicographically at most `b`, comparing characters by their
/// scalar values; a proper prefix comes before its extensions.
pub open spec fn lex_leq(a: Seq<char>, b: Seq<char>) -> bool
    decreases a.len(),
{
    if a.len() == 0 {
        true
    } else if b.len() == 0 {
        false
    } else if a[0] != b[0] {
        (a[0] as u32) < (b[0] as u32)
    } else {
        lex_leq(a.drop_first(), b.drop_first())
    }
}

/// The order is total: of any two sequences one is at most the other.
pub proof fn lemma_lex_total(a: Seq<char>, b: Seq<char>)
    ensures
        lex_leq(a, b) || lex_leq(b, a),
    decreases a.len(),
{
    if a.len() > 0 && b.len() > 0 {
        if a[0] == b[0] {
            lemma_lex_total(a.drop_first(), b.drop_first());
        } else {
            vstd::utf8::char_u32_cast(a[0], a[0] as u32);
            vstd::utf8::char_u32_cast(b[0], b[0] as u32);
        }
    }
}

/// The order is transitive.
pub proof fn lemma_lex_trans(a: Seq<char>, b: Seq<char>, c: Seq<char>)
    requires
        lex_leq(a, b),
        lex_leq(b, c),
    ensures
        lex_leq(a, c),
    decreases a.len(),
{
    if a.len() > 0 {
        assert(b.len() > 0);
        assert(c.len() > 0);
        if a[0] == b[0] && b[0] == c[0] {
            lemma_lex_trans(a.drop_first(), b.drop_first(), c.drop_first());
        } else {
            vstd::utf8::char_u32_cast(a[0], a[0] as u32);
            vstd::utf8::char_u32_cast(b[0], b[0] as u32);
            vstd::utf8::char_u32_cast(c[0], c[0] as u32);
        }
    }
}

/// Equal prefixes do not decide the order: comparison continues after them.
pub proof fn lemma_lex_common_prefix(a: Seq<char>, b: Seq<char>, i: int)
    requires
        0 <= i <= a.len(),
        i <= b.len(),
        forall|k: int| 0 <= k < i ==> a[k] == b[k],
    ensures
        lex_leq(a, b) == lex_leq(a.skip(i), b.skip(i)),
    decreases i,
{
    if i == 0 {
        assert(a.skip(0) =~= a);
        assert(b.skip(0) =~= b);
    } else {
        let a1 = a.drop_first();
        let b1 = b.drop_first();
        assert(a[0] == b[0]);
        assert forall|k: int| 0 <= k < i - 1 implies a1[k] == b1[k] by {
            assert(a[k + 1] == b[k + 1]);
        }
        lemma_lex_common_prefix(a1, b1, i - 1);
        assert(a1.skip(i - 1) =~= a.skip(i));
        assert(b1.skip(i - 1) =~= b.skip(i));
    }
}

/// Compare two strings lexicographically.
pub fn str_lex_leq(a: &str, b: &str) -> (r: bool)
    ensures
        r == lex_leq(a@, b@),
{
    let alen = a.unicode_len();
    let blen = b.unicode_len();
    let mut i: usize = 0;
    while i < alen && i < blen
        invariant
            alen == a@.len(),
            blen == b@.len(),
            i <= alen,
            i <= blen,
            forall|k: int| 0 <= k < i ==> a@[k] == b@[k],
        decreases alen - i,
    {
        let ca = a.get_char(i);
        let cb = b.get_char(i);
        if ca != cb {
            proof {
                lemma_lex_common_prefix(a@, b@, i as int);
                assert(a@.skip(i as int)[0] == ca);
                assert(b@.skip(i as int)[0] == cb);
            }
            return (ca as u32) < (cb as u32);
        }
        i = i + 1;
    }
    proof {
        lemma_lex_common_prefix(a@, b@, i as int);
        if i == alen {
            assert(a@.skip(i as int).len() == 0);
        } else {
            assert(b@.skip(i as int).len() == 0);
            assert(a@.skip(i as int).len() > 0);
        }
    }
    alen <= blen
}

// ---------------------------------------------------------------------------
// Sorting
// ---------------------------------------------------------------------------

/// Every pair of positions is ordered.
pub open spec fn lex_sorted(s: Seq<Seq<char>>) -> bool {
    forall|i: int, j: int| 0 <= i < j < s.len() ==> lex_leq(#[trigger] s[i], #[trigger] s[j])
}

/// Inserting an element anywhere adds exactly it to the multiset.
proof fn lemma_insert_to_multiset(s: Seq<Seq<char>>, p: int, x: Seq<char>)
    requires
        0 <= p <= s.len(),
    ensures
        s.insert(p, x).to_multiset() == s.to_multiset().insert(x),
{
    broadcast use vstd::multiset::group_multiset_axioms;
    broadcast use vstd::seq_lib::group_to_multiset_ensures;

    let t = s.insert(p, x);
    s.insert_ensures(p, x);
    t.remove_ensures(p);
    assert(t.remove(p) =~= s);
    assert(t.remove(p).to_multiset() =~= t.to_multiset().remove(t[p]));
    assert(t[p] == x);
    assert(t.contains(x));
    assert(t.to_multiset().count(x) > 0);
    assert forall|v: Seq<char>|
        t.to_multiset().count(v) == s.to_multiset().insert(x).count(v) by {
        assert(s.to_multiset() == t.to_multiset().remove(x));
    }
    assert(t.to_multiset() =~= s.to_multiset().insert(x));
}

/// The position where `x` belongs in the sorted `v`: everything before it
/// is at most `x`, and the entry at it (if any) is above `x`.
fn lex_lower_bound(v: &Vec<String>, x: &String) -> (p: usize)
    ensures
        p <= v@.len(),
        forall|k: int| 0 <= k < p ==> lex_leq(#[trigger] v.deep_view()[k], x@),
        p < v@.len() ==> !lex_leq(v.deep_view()[p as int], x@),
{
    let len = v.len();
    let mut p: usize = 0;
    while p < len
        invariant
            len == v@.len(),
            p <= len,
            forall|k: int| 0 <= k < p ==> lex_leq(#[trigger] v.deep_view()[k], x@),
        decreases len - p,
    {
        if !str_lex_leq(v[p].as_str(), x.as_str()) {
            return p;
        }
        p = p + 1;
    }
    p
}

/// Insert `x` into the sorted `v`, keeping it sorted.
fn insert_sorted(v: &mut Vec<String>, x: String)
    requires
        lex_sorted(old(v).deep_view()),
    ensures
        lex_sorted(final(v).deep_view()),
        final(v).deep_view().to_multiset() == old(v).deep_view().to_multiset().insert(x@),
{
    let ghost s0 = v.deep_view();
    let p = lex_lower_bound(v, &x);
    proof {
        if (p as int) < s0.len() {
            lemma_lex_total(s0[p as int], x@);
        }
    }
    v.insert(p, x);
    proof {
        let s1 = v.deep_view();
        assert(s1 =~= s0.insert(p as int, x@));
        s0.insert_ensures(p as int, x@);
        assert forall|i: int, j: int| 0 <= i < j < s1.len() implies lex_leq(
            #[trigger] s1[i],
            #[trigger] s1[j],
        ) by {
            if i < p && j < p {
                assert(s1[i] == s0[i] && s1[j] == s0[j]);
            } else if i < p && j == p {
                assert(s1[i] == s0[i]);
            } else if i < p && j > p {
                assert(s1[i] == s0[i] && s1[j] == s0[j - 1]);
            } else if i == p && j > p {
                // x is at most everything from p on: the entry once at p is
                // above x, and the tail is above that entry.
                assert(s1[j] == s0[j - 1]);
                assert(!lex_leq(s0[p as int], x@));
                if j - 1 > p {
                    lemma_lex_trans(x@, s0[p as int], s0[j - 1]);
                }
            } else {
                assert(s1[i] == s0[i - 1] && s1[j] == s0[j - 1]);
            }
        }
        lemma_insert_to_multiset(s0, p as int, x@);
    }
}

/// Sort paths lexicographically: the result is ordered and holds the same
/// paths, multiplicity included.
pub fn sort_paths(v: Vec<String>) -> (r: Vec<String>)
    ensures
        lex_sorted(r.deep_view()),
        r.deep_view().to_multiset() == v.deep_view().to_multiset(),
{
    broadcast use vstd::seq_lib::group_to_multiset_ensures;

    let len = v.len();
    let mut out: Vec<String> = Vec::new();
    let mut i: usize = 0;
    while i < len
        invariant
            len == v@.len(),
            i <= len,
            lex_sorted(out.deep_view()),
            out.deep_view().to_multiset() == v.deep_view().subrange(0, i as int).to_multiset(),
        decreases len - i,
    {
        let x = v[i].clone();
        proof {
            assert(v.deep_view().subrange(0, i + 1) =~= v.deep_view().subrange(
                0,
                i as int,
            ).push(v.deep_view()[i as int]));
            broadcast use vstd::seq_lib::group_to_multiset_ensures;

        }
        insert_sorted(&mut out, x);
        i = i + 1;
    }
    proof {
        assert(v.deep_view().subrange(0, len as int) =~= v.deep_view());
    }
    out
}

} // verus!
