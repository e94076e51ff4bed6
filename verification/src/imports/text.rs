//! Text helpers: identifier classes, keyword tables and the byte order of
//! strings.
use vstd::prelude::*;
use vstd::string::StringExecFns;
use vstd::utf8::{encode_utf8, encode_utf8_decode_utf8};

verus! {

// ── Identifiers ─────────────────────────────────────────────────────────

/// ASCII letters, digits and `_`.
pub open spec fn ident_char(c: char) -> bool {
    ||| 'a' <= c <= 'z'
    ||| 'A' <= c <= 'Z'
    ||| '0' <= c <= '9'
    ||| c == '_'
}

/// An ASCII identifier: not empty, not starting with a digit, made of
/// letters, digits and `_` (the identifiers of `.proto` files).
pub open spec fn ascii_ident(s: Seq<char>) -> bool {
    &&& s.len() > 0
    &&& !('0' <= s[0] <= '9')
    &&& forall|i: int| 0 <= i < s.len() ==> ident_char(#[trigger] s[i])
}

/// The keywords that may start a path and cannot be raw identifiers.
pub open spec fn path_keyword(s: Seq<char>) -> bool {
    ||| s == "self"@
    ||| s == "super"@
    ||| s == "Self"@
    ||| s == "crate"@
}

/// Strict and reserved Rust keywords.
pub open spec fn rust_keyword(s: Seq<char>) -> bool {
        ||| s == "as"@
        ||| s == "break"@
        ||| s == "const"@
        ||| s == "continue"@
        ||| s == "crate"@
        ||| s == "else"@
        ||| s == "enum"@
        ||| s == "ext"@ + "ern"@
        ||| s == "false"@
        ||| s == "fn"@
        ||| s == "for"@
        ||| s == "if"@
        ||| s == "impl"@
        ||| s == "in"@
        ||| s == "let"@
        ||| s == "loop"@
        ||| s == "match"@
        ||| s == "mod"@
        ||| s == "move"@
        ||| s == "mut"@
        ||| s == "pub"@
        ||| s == "ref"@
        ||| s == "return"@
        ||| s == "self"@
        ||| s == "Self"@
        ||| s == "static"@
        ||| s == "struct"@
        ||| s == "super"@
        ||| s == "trait"@
        ||| s == "true"@
        ||| s == "type"@
        ||| s == "unsafe"@
        ||| s == "use"@
        ||| s == "where"@
        ||| s == "while"@
        ||| s == "async"@
        ||| s == "await"@
        ||| s == "dyn"@
        ||| s == "abstract"@
        ||| s == "become"@
        ||| s == "box"@
        ||| s == "do"@
        ||| s == "final"@
        ||| s == "macro"@
        ||| s == "override"@
        ||| s == "priv"@
        ||| s == "typeof"@
        ||| s == "unsized"@
        ||| s == "virtual"@
        ||| s == "yield"@
        ||| s == "try"@
}

/// A segment that must be written as a raw identifier (`r#type`).
pub open spec fn needs_raw(s: Seq<char>) -> bool {
    rust_keyword(s) && !path_keyword(s)
}

/// No keyword is the lone underscore.
pub proof fn lemma_keyword_not_underscore(s: Seq<char>)
    requires
        rust_keyword(s),
    ensures
        s != "_"@,
{
    reveal_strlit("_");
    assert(s.len() >= 2) by {
        reveal_strlit("as");
        reveal_strlit("break");
        reveal_strlit("const");
        reveal_strlit("continue");
        reveal_strlit("crate");
        reveal_strlit("else");
        reveal_strlit("enum");
        reveal_strlit("false");
        reveal_strlit("fn");
        reveal_strlit("for");
        reveal_strlit("if");
        reveal_strlit("impl");
        reveal_strlit("in");
        reveal_strlit("let");
        reveal_strlit("loop");
        reveal_strlit("match");
        reveal_strlit("mod");
        reveal_strlit("move");
        reveal_strlit("mut");
        reveal_strlit("pub");
        reveal_strlit("ref");
        reveal_strlit("return");
        reveal_strlit("self");
        reveal_strlit("Self");
        reveal_strlit("static");
        reveal_strlit("struct");
        reveal_strlit("super");
        reveal_strlit("trait");
        reveal_strlit("true");
        reveal_strlit("type");
        reveal_strlit("unsafe");
        reveal_strlit("use");
        reveal_strlit("where");
        reveal_strlit("while");
        reveal_strlit("async");
        reveal_strlit("await");
        reveal_strlit("dyn");
        reveal_strlit("abstract");
        reveal_strlit("become");
        reveal_strlit("box");
        reveal_strlit("do");
        reveal_strlit("final");
        reveal_strlit("macro");
        reveal_strlit("override");
        reveal_strlit("priv");
        reveal_strlit("typeof");
        reveal_strlit("unsized");
        reveal_strlit("virtual");
        reveal_strlit("yield");
        reveal_strlit("try");
        reveal_strlit("ext");
        reveal_strlit("ern");
    }
}

// ── Comparing text ──────────────────────────────────────────────────────

/// Whether two strings are equal.
pub fn same_text(a: &str, b: &str) -> (r: bool)
    ensures
        r == (a@ == b@),
{
    let x = a.as_bytes();
    let y = b.as_bytes();
    proof {
        encode_utf8_decode_utf8(a@);
        encode_utf8_decode_utf8(b@);
    }
    same_bytes(x, y)
}

/// Whether `s` is the concatenation of `a` and `b`.
fn same_text_joined(s: &str, a: &str, b: &str) -> (r: bool)
    ensures
        r == (s@ == a@ + b@),
{
    let mut joined = String::from_str(a);
    joined.append(b);
    same_text(s, joined.as_str())
}

fn same_bytes(x: &[u8], y: &[u8]) -> (r: bool)
    ensures
        r == (x@ == y@),
{
    if x.len() != y.len() {
        return false;
    }
    let mut i: usize = 0;
    while i < x.len()
        invariant
            x.len() == y.len(),
            i <= x.len(),
            forall|j: int| 0 <= j < i ==> x@[j] == y@[j],
        decreases x.len() - i,
    {
        if x[i] != y[i] {
            return false;
        }
        i += 1;
    }
    assert(x@ =~= y@);
    true
}

/// Whether `s` is one of the path-position keywords.
pub fn is_path_keyword(s: &str) -> (r: bool)
    ensures
        r == path_keyword(s@),
{
    same_text(s, "self") || same_text(s, "super") || same_text(s, "Self") || same_text(s, "crate")
}

/// Whether `s` is a Rust keyword.
pub fn is_keyword(s: &str) -> (r: bool)
    ensures
        r == rust_keyword(s@),
{
    same_text(s, "as")
        || same_text(s, "break")
        || same_text(s, "const")
        || same_text(s, "continue")
        || same_text(s, "crate")
        || same_text(s, "else")
        || same_text(s, "enum")
        || same_text_joined(s, "ext", "ern")
        || same_text(s, "false")
        || same_text(s, "fn")
        || same_text(s, "for")
        || same_text(s, "if")
        || same_text(s, "impl")
        || same_text(s, "in")
        || same_text(s, "let")
        || same_text(s, "loop")
        || same_text(s, "match")
        || same_text(s, "mod")
        || same_text(s, "move")
        || same_text(s, "mut")
        || same_text(s, "pub")
        || same_text(s, "ref")
        || same_text(s, "return")
        || same_text(s, "self")
        || same_text(s, "Self")
        || same_text(s, "static")
        || same_text(s, "struct")
        || same_text(s, "super")
        || same_text(s, "trait")
        || same_text(s, "true")
        || same_text(s, "type")
        || same_text(s, "unsafe")
        || same_text(s, "use")
        || same_text(s, "where")
        || same_text(s, "while")
        || same_text(s, "async")
        || same_text(s, "await")
        || same_text(s, "dyn")
        || same_text(s, "abstract")
        || same_text(s, "become")
        || same_text(s, "box")
        || same_text(s, "do")
        || same_text(s, "final")
        || same_text(s, "macro")
        || same_text(s, "override")
        || same_text(s, "priv")
        || same_text(s, "typeof")
        || same_text(s, "unsized")
        || same_text(s, "virtual")
        || same_text(s, "yield")
        || same_text(s, "try")
}

// ── The order of `String` keys ──────────────────────────────────────────

/// Lexicographic order of byte strings, the order of `[u8]`.
pub open spec fn bytes_lt(a: Seq<u8>, b: Seq<u8>) -> bool
    decreases a.len(),
{
    if a.len() == 0 {
        b.len() > 0
    } else if b.len() == 0 {
        false
    } else if a[0] != b[0] {
        a[0] < b[0]
    } else {
        bytes_lt(a.drop_first(), b.drop_first())
    }
}

/// The order of `String`: by UTF-8 bytes.
pub open spec fn text_lt(a: Seq<char>, b: Seq<char>) -> bool {
    bytes_lt(encode_utf8(a), encode_utf8(b))
}

proof fn lemma_bytes_lt_irreflexive(a: Seq<u8>)
    ensures
        !bytes_lt(a, a),
    decreases a.len(),
{
    if a.len() > 0 {
        lemma_bytes_lt_irreflexive(a.drop_first());
    }
}

proof fn lemma_bytes_lt_transitive(a: Seq<u8>, b: Seq<u8>, c: Seq<u8>)
    requires
        bytes_lt(a, b),
        bytes_lt(b, c),
    ensures
        bytes_lt(a, c),
    decreases a.len(),
{
    if a.len() > 0 && b.len() > 0 && c.len() > 0 && a[0] == b[0] && b[0] == c[0] {
        lemma_bytes_lt_transitive(a.drop_first(), b.drop_first(), c.drop_first());
    }
}

proof fn lemma_bytes_lt_total(a: Seq<u8>, b: Seq<u8>)
    ensures
        a == b || bytes_lt(a, b) || bytes_lt(b, a),
    decreases a.len(),
{
    if a.len() > 0 && b.len() > 0 && a[0] == b[0] {
        lemma_bytes_lt_total(a.drop_first(), b.drop_first());
        if a.drop_first() == b.drop_first() {
            assert(a =~= seq![a[0]] + a.drop_first());
            assert(b =~= seq![b[0]] + b.drop_first());
        }
    } else if a.len() == 0 && b.len() == 0 {
        assert(a =~= b);
    }
}

/// No string is before itself.
pub proof fn lemma_text_lt_irreflexive(a: Seq<char>)
    ensures
        !text_lt(a, a),
{
    lemma_bytes_lt_irreflexive(encode_utf8(a));
}

/// The order of strings is transitive.
pub proof fn lemma_text_lt_transitive(a: Seq<char>, b: Seq<char>, c: Seq<char>)
    requires
        text_lt(a, b),
        text_lt(b, c),
    ensures
        text_lt(a, c),
{
    lemma_bytes_lt_transitive(encode_utf8(a), encode_utf8(b), encode_utf8(c));
}

/// Two different strings are ordered one way or the other.
pub proof fn lemma_text_lt_total(a: Seq<char>, b: Seq<char>)
    ensures
        a == b || text_lt(a, b) || text_lt(b, a),
{
    lemma_bytes_lt_total(encode_utf8(a), encode_utf8(b));
    encode_utf8_decode_utf8(a);
    encode_utf8_decode_utf8(b);
}

/// Whether `a` comes before `b` in the order of `String`.
pub fn text_less(a: &str, b: &str) -> (r: bool)
    ensures
        r == text_lt(a@, b@),
{
    let x = a.as_bytes();
    let y = b.as_bytes();
    let mut i: usize = 0;
    assert(x@.skip(0) =~= x@);
    assert(y@.skip(0) =~= y@);
    while i < x.len() && i < y.len()
        invariant
            i <= x.len(),
            i <= y.len(),
            x@ == encode_utf8(a@),
            y@ == encode_utf8(b@),
            bytes_lt(x@, y@) == bytes_lt(x@.skip(i as int), y@.skip(i as int)),
        decreases x.len() - i,
    {
        if x[i] != y[i] {
            assert(x@.skip(i as int)[0] == x@[i as int]);
            assert(y@.skip(i as int)[0] == y@[i as int]);
            assert(x@.skip(i as int).len() > 0 && y@.skip(i as int).len() > 0);
            assert(bytes_lt(x@.skip(i as int), y@.skip(i as int)) == (x@[i as int] < y@[i as int]));
            return x[i] < y[i];
        }
        assert(x@.skip(i as int).drop_first() =~= x@.skip(i + 1));
        assert(y@.skip(i as int).drop_first() =~= y@.skip(i + 1));
        i += 1;
    }
    i < y.len()
}

} // verus!
