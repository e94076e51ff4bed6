//! Token streams for emitted Rust paths.
//!
//! A `proc_macro2::TokenStream` is opaque to the verifier; its contents are
//! modelled as the sequence of its token trees, each given by its display
//! text and whether it is a punctuation character joined to the next token.
use vstd::prelude::*;
use vstd::utf8::is_ascii_chars;
use proc_macro2::{Ident, Punct, Spacing, Span, TokenStream, TokenTree};
use super::path::{find_last_sep, lemma_last_sep, lemma_segments_len, segments, segments_ok};
use super::text::{
    ascii_ident, is_keyword, is_path_keyword, lemma_keyword_not_underscore, needs_raw, path_keyword,
};

verus! {

#[verifier::external_type_specification]
#[verifier::external_body]
pub struct ExTokenStream(proc_macro2::TokenStream);

/// The token trees of a stream, in order.
pub uninterp spec fn stream_tokens(ts: TokenStream) -> Seq<(Seq<char>, bool)>;

/// `TokenStream::new`: an empty stream.
#[verifier::external_body]
pub(crate) fn empty_stream() -> (ts: TokenStream)
    ensures
        stream_tokens(ts) == Seq::<(Seq<char>, bool)>::empty(),
{
    TokenStream::new()
}

/// `Ident::new` with the call-site span, appended to the stream by
/// `TokenStream::extend`: one identifier token whose text is `name`. `Ident::new` panics on a string
/// that is not an identifier; an ASCII identifier is always accepted.
#[verifier::external_body]
pub(crate) fn push_ident(ts: &mut TokenStream, name: &str)
    requires
        ascii_ident(name@),
    ensures
        stream_tokens(*final(ts)) == stream_tokens(*old(ts)).push((name@, false)),
{
    ts.extend([TokenTree::Ident(Ident::new(name, Span::call_site()))]);
}

/// `Ident::new_raw` with the call-site span, appended to the stream by
/// `TokenStream::extend`: one raw identifier, displayed as `r#` and `name`. `Ident::new_raw` panics on
/// `_`, `self`, `super`, `Self` and `crate`.
#[verifier::external_body]
fn push_raw_ident(ts: &mut TokenStream, name: &str)
    requires
        ascii_ident(name@),
        !path_keyword(name@),
        name@ != "_"@,
    ensures
        stream_tokens(*final(ts)) == stream_tokens(*old(ts)).push((seq!['r', '#'] + name@, false)),
{
    ts.extend([TokenTree::Ident(Ident::new_raw(name, Span::call_site()))]);
}

/// `Punct::new`, appended to the stream by `TokenStream::extend`: one
/// punctuation token `ch`, joint or alone. `Punct::new` accepts `:` and `;`.
#[verifier::external_body]
pub(crate) fn push_punct(ts: &mut TokenStream, ch: char, joint: bool)
    requires
        ch == ':' || ch == ';',
    ensures
        stream_tokens(*final(ts)) == stream_tokens(*old(ts)).push((seq![ch], joint)),
{
    let spacing = if joint { Spacing::Joint } else { Spacing::Alone };
    ts.extend([TokenTree::Punct(Punct::new(ch, spacing))]);
}

/// The token of one path segment: keywords that may be raw are written
/// raw (`r#type`), everything else as it is.
pub open spec fn segment_token(seg: Seq<char>) -> (Seq<char>, bool) {
    if needs_raw(seg) {
        (seq!['r', '#'] + seg, false)
    } else {
        (seg, false)
    }
}

/// The tokens of `::`: a joint `:` then an alone `:`.
pub open spec fn sep_tokens() -> Seq<(Seq<char>, bool)> {
    seq![(seq![':'], true), (seq![':'], false)]
}

/// The tokens of a path given by its segments; an empty first segment
/// gives the leading `::`.
pub open spec fn path_tokens(segs: Seq<Seq<char>>) -> Seq<(Seq<char>, bool)>
    decreases segs.len(),
{
    if segs.len() == 0 {
        Seq::empty()
    } else if segs.len() == 1 {
        if segs[0].len() == 0 {
            Seq::empty()
        } else {
            seq![segment_token(segs[0])]
        }
    } else {
        path_tokens(segs.drop_last()) + sep_tokens() + seq![segment_token(segs.last())]
    }
}

/// The tokens of the path written `p`.
pub open spec fn tokens_of_path(p: Seq<char>) -> Seq<(Seq<char>, bool)> {
    path_tokens(segments(p))
}

/// Append the token of one segment.
pub(crate) fn push_segment(ts: &mut TokenStream, seg: &str)
    requires
        ascii_ident(seg@),
    ensures
        stream_tokens(*final(ts)) == stream_tokens(*old(ts)).push(segment_token(seg@)),
{
    if is_keyword(seg) && !is_path_keyword(seg) {
        proof {
            lemma_keyword_not_underscore(seg@);
        }
        push_raw_ident(ts, seg);
    } else {
        push_ident(ts, seg);
    }
}

/// Append the tokens of a path: its segments joined by `::`, keywords
/// escaped as raw identifiers.
pub fn push_path(ts: &mut TokenStream, path: &str)
    requires
        is_ascii_chars(path@),
        segments_ok(segments(path@)),
    ensures
        stream_tokens(*final(ts)) == stream_tokens(*old(ts)) + tokens_of_path(path@),
    decreases path@.len(),
{
    proof {
        vstd::utf8::is_ascii_chars_encode_utf8(path@);
    }
    let n = path.as_bytes().len();
    match find_last_sep(path) {
        None => {
            assert(segments(path@) == seq![path@]);
            if n > 0 {
                assert(ascii_ident(segments(path@)[0]));
                push_segment(ts, path);
            } else {
                assert(tokens_of_path(path@) == Seq::<(Seq<char>, bool)>::empty());
                assert(stream_tokens(*ts) + tokens_of_path(path@) =~= stream_tokens(*ts));
            }
        },
        Some(i) => {
            proof {
                lemma_last_sep(path@);
            }
            let parent = path.substring_ascii(0, i);
            let leaf = path.substring_ascii(i + 2, n);
            let ghost segs = segments(path@);
            assert(segs == segments(parent@).push(leaf@));
            proof {
                lemma_segments_len(parent@);
                assert(segs.drop_last() =~= segments(parent@));
                assert forall|k: int| 0 <= k < segments(parent@).len() implies
                    ascii_ident(#[trigger] segments(parent@)[k]) || (k == 0 && segments(parent@)[k].len() == 0) by {
                    assert(segments(parent@)[k] == segs[k]);
                }
                assert(ascii_ident(segs[segs.len() - 1]));
                vstd::utf8::is_ascii_chars_concat(path@, parent@, path@.subrange(i as int, n as int));
                assert(path@ =~= parent@ + path@.subrange(i as int, n as int));
            }
            push_path(ts, parent);
            push_punct(ts, ':', true);
            push_punct(ts, ':', false);
            push_segment(ts, leaf);
            proof {
                let old_ts = stream_tokens(*old(ts));
                assert(tokens_of_path(path@) == path_tokens(segments(parent@)) + sep_tokens() + seq![segment_token(leaf@)]);
                assert(stream_tokens(*ts) =~= old_ts + tokens_of_path(path@));
            }
        },
    }
}

/// Appending one segment to a path appends `::` and its token.
pub proof fn lemma_path_tokens_push(segs: Seq<Seq<char>>, seg: Seq<char>)
    requires
        segs.len() >= 1,
    ensures
        path_tokens(segs.push(seg)) == path_tokens(segs) + sep_tokens() + seq![segment_token(seg)],
{
    assert(segs.push(seg).drop_last() =~= segs);
}

/// The tokens of the absolute path `::segs[0]::segs[1]::...`.
pub(crate) fn absolute_path(segs: &[&str]) -> (ts: TokenStream)
    requires
        forall|i: int| 0 <= i < segs@.len() ==> ascii_ident(#[trigger] segs@[i]@),
    ensures
        stream_tokens(ts) == path_tokens(seq![Seq::<char>::empty()] + segs@.map_values(|s: &str| s@)),
{
    let mut ts = empty_stream();
    let ghost root = seq![Seq::<char>::empty()];
    assert(root + segs@.take(0).map_values(|s: &str| s@) =~= root);
    for i in 0..segs.len()
        invariant
            root == seq![Seq::<char>::empty()],
            forall|i: int| 0 <= i < segs@.len() ==> ascii_ident(#[trigger] segs@[i]@),
            stream_tokens(ts) == path_tokens(root + segs@.take(i as int).map_values(|s: &str| s@)),
    {
        let seg = segs[i];
        push_punct(&mut ts, ':', true);
        push_punct(&mut ts, ':', false);
        push_segment(&mut ts, seg);
        proof {
            let before = root + segs@.take(i as int).map_values(|s: &str| s@);
            lemma_path_tokens_push(before, seg@);
            assert(root + segs@.take(i + 1).map_values(|s: &str| s@) =~= before.push(seg@));
            assert(stream_tokens(ts) =~= path_tokens(before) + sep_tokens() + seq![segment_token(seg@)]);
        }
    }
    assert(segs@.take(segs@.len() as int) =~= segs@);
    ts
}

/// The tokens of a path (what the generator emits for a type path).
pub fn path_to_tokens(path: &str) -> (ts: TokenStream)
    requires
        is_ascii_chars(path@),
        segments_ok(segments(path@)),
    ensures
        stream_tokens(ts) == tokens_of_path(path@),
{
    let mut ts = empty_stream();
    push_path(&mut ts, path);
    assert(Seq::<(Seq<char>, bool)>::empty() + tokens_of_path(path@) =~= tokens_of_path(path@));
    ts
}

} // verus!
