//! `::`-separated Rust paths, split the way `rsplit_once("::")` splits them.
use vstd::prelude::*;
use vstd::utf8::is_ascii_chars;
use super::text::ascii_ident;

verus! {

/// Whether `p` holds `::` at positions `i` and `i + 1`.
pub open spec fn sep_at(p: Seq<char>, i: int) -> bool {
    0 <= i && i + 1 < p.len() && p[i] == ':' && p[i + 1] == ':'
}

/// Where the last `::` of `p` starts, or -1 when there is none.
pub open spec fn last_sep(p: Seq<char>) -> int
    decreases p.len(),
{
    if p.len() < 2 {
        -1
    } else if sep_at(p, p.len() - 2) {
        p.len() - 2
    } else {
        last_sep(p.drop_last())
    }
}

/// `last_sep` is -1 or the start of a `::` inside `p`, and no `::` starts
/// after it.
pub proof fn lemma_last_sep(p: Seq<char>)
    ensures
        last_sep(p) == -1 || 0 <= last_sep(p) <= p.len() - 2,
        last_sep(p) >= 0 ==> sep_at(p, last_sep(p)),
        forall|j: int| last_sep(p) < j ==> !sep_at(p, j),
    decreases p.len(),
{
    if p.len() >= 2 && !sep_at(p, p.len() - 2) {
        let q = p.drop_last();
        lemma_last_sep(q);
        assert forall|j: int| last_sep(p) < j implies !sep_at(p, j) by {
            if j < p.len() - 2 {
                assert(!sep_at(q, j));
            }
        }
    }
}

/// The segments of a path: `a::b::c` gives `a`, `b`, `c`; a leading `::`
/// gives an empty first segment.
pub open spec fn segments(p: Seq<char>) -> Seq<Seq<char>>
    decreases p.len(),
{
    let i = last_sep(p);
    if i < 0 {
        seq![p]
    } else {
        proof {
            lemma_last_sep(p);
        }
        segments(p.subrange(0, i)).push(p.subrange(i + 2, p.len() as int))
    }
}

/// A path has at least one segment.
pub proof fn lemma_segments_len(p: Seq<char>)
    ensures
        segments(p).len() >= 1,
    decreases p.len(),
{
    let i = last_sep(p);
    if i >= 0 {
        lemma_last_sep(p);
        lemma_segments_len(p.subrange(0, i));
    }
}

/// What follows the last `::` has no `::` of its own.
pub proof fn lemma_leaf_segments(p: Seq<char>)
    requires
        last_sep(p) >= 0,
    ensures
        segments(p.subrange(last_sep(p) + 2, p.len() as int)) == seq![p.subrange(last_sep(p) + 2, p.len() as int)],
{
    let i = last_sep(p);
    lemma_last_sep(p);
    let leaf = p.subrange(i + 2, p.len() as int);
    lemma_last_sep(leaf);
    if last_sep(leaf) >= 0 {
        let m = last_sep(leaf);
        assert(sep_at(p, i + 2 + m));
    }
}

/// Every segment an identifier, but the first, which may be empty (a path
/// that starts with `::`).
pub open spec fn segments_ok(segs: Seq<Seq<char>>) -> bool {
    forall|i: int|
        0 <= i < segs.len() ==> ascii_ident(#[trigger] segs[i]) || (i == 0 && segs[i].len() == 0)
}

/// A Rust path as the generator writes one: ASCII, not empty, made of
/// identifiers separated by `::`, relative or starting with `::`.
pub open spec fn valid_path(p: Seq<char>) -> bool {
    &&& p.len() > 0
    &&& is_ascii_chars(p)
    &&& segments_ok(segments(p))
}

/// Where the last `::` of an ASCII string starts.
pub fn find_last_sep(p: &str) -> (r: Option<usize>)
    requires
        is_ascii_chars(p@),
    ensures
        match r {
            Some(i) => i == last_sep(p@),
            None => last_sep(p@) < 0,
        },
{
    let b = p.as_bytes();
    proof {
        vstd::utf8::is_ascii_chars_encode_utf8(p@);
        vstd::utf8::is_ascii_chars_nat_bound(p@);
    }
    let n = b.len();
    let mut j = n;
    assert(p@.subrange(0, n as int) =~= p@);
    while j >= 2
        invariant
            j <= n,
            n == p@.len(),
            b@.len() == n,
            b@ == vstd::utf8::encode_utf8(p@),
            is_ascii_chars(p@),
            forall|k: int| 0 <= k < n ==> p@[k] as u8 == b@[k],
            forall|k: int| 0 <= k < n ==> (p@[k] as nat) < 128,
            last_sep(p@) == last_sep(p@.subrange(0, j as int)),
        decreases j,
    {
        let ghost q = p@.subrange(0, j as int);
        if b[j - 2] == 58 && b[j - 1] == 58 {
            assert(sep_at(q, j - 2));
            return Some(j - 2);
        }
        assert(!sep_at(q, j - 2));
        assert(q.drop_last() =~= p@.subrange(0, j - 1));
        j -= 1;
    }
    None
}

} // verus!
