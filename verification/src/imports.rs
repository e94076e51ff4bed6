//! Type-path emission for generated code, with an optional per-scope
//! registry of `use` directives that shortens paths where that is
//! provably unambiguous.
use vstd::prelude::*;
use proc_macro2::TokenStream;
use self::tokens::{
    absolute_path, empty_stream, path_to_tokens, path_tokens, push_ident, push_path, push_punct,
    push_segment, segment_token, sep_tokens, stream_tokens, tokens_of_path,
};
use self::text::{
    ascii_ident, is_path_keyword, lemma_text_lt_irreflexive, lemma_text_lt_total,
    lemma_text_lt_transitive, path_keyword, same_text, text_less, text_lt,
};
use self::path::{
    find_last_sep, last_sep, lemma_last_sep, lemma_leaf_segments, lemma_segments_len, segments,
    valid_path,
};

pub mod tokens;
pub mod text;
pub mod path;

verus! {

// ── Fully qualified paths ───────────────────────────────────────────────

/// Emits the paths of prelude, `alloc` and runtime types. They are always
/// fully qualified, so that no type defined by a `.proto` file can shadow
/// them and every emitted file stays valid when files are merged into one
/// module.
pub struct ImportResolver;

impl ImportResolver {
    pub fn new() -> (r: Self)
        ensures
            r == ImportResolver,
    {
        ImportResolver
    }

    /// `::core::option::Option`
    pub fn option(&self) -> (ts: TokenStream)
        ensures
            stream_tokens(ts) == path_tokens(seq![Seq::empty(), "core"@, "option"@, "Option"@]),
    {
        proof {
            reveal_strlit("core");
            reveal_strlit("option");
            reveal_strlit("Option");
        }
        let segs = ["core", "option", "Option"];
        let ts = absolute_path(&segs);
        assert(seq![Seq::<char>::empty()] + segs@.map_values(|s: &str| s@) =~= seq![Seq::empty(), "core"@, "option"@, "Option"@]);
        ts
    }

    /// `::buffa::alloc::string::String`
    pub fn string(&self) -> (ts: TokenStream)
        ensures
            stream_tokens(ts) == path_tokens(
                seq![Seq::empty(), "buffa"@, "alloc"@, "string"@, "String"@],
            ),
    {
        proof {
            reveal_strlit("buffa");
            reveal_strlit("alloc");
            reveal_strlit("string");
            reveal_strlit("String");
        }
        let segs = ["buffa", "alloc", "string", "String"];
        let ts = absolute_path(&segs);
        assert(seq![Seq::<char>::empty()] + segs@.map_values(|s: &str| s@) =~= seq![Seq::empty(), "buffa"@, "alloc"@, "string"@, "String"@]);
        ts
    }

    /// `::buffa::alloc::vec::Vec`
    pub fn vec(&self) -> (ts: TokenStream)
        ensures
            stream_tokens(ts) == path_tokens(seq![Seq::empty(), "buffa"@, "alloc"@, "vec"@, "Vec"@]),
    {
        proof {
            reveal_strlit("buffa");
            reveal_strlit("alloc");
            reveal_strlit("vec");
            reveal_strlit("Vec");
        }
        let segs = ["buffa", "alloc", "vec", "Vec"];
        let ts = absolute_path(&segs);
        assert(seq![Seq::<char>::empty()] + segs@.map_values(|s: &str| s@) =~= seq![Seq::empty(), "buffa"@, "alloc"@, "vec"@, "Vec"@]);
        ts
    }

    /// `::buffa::MessageField`
    pub fn message_field(&self) -> (ts: TokenStream)
        ensures
            stream_tokens(ts) == path_tokens(seq![Seq::empty(), "buffa"@, "MessageField"@]),
    {
        proof {
            reveal_strlit("buffa");
            reveal_strlit("MessageField");
        }
        let segs = ["buffa", "MessageField"];
        let ts = absolute_path(&segs);
        assert(seq![Seq::<char>::empty()] + segs@.map_values(|s: &str| s@) =~= seq![Seq::empty(), "buffa"@, "MessageField"@]);
        ts
    }

    /// `::buffa::EnumValue`
    pub fn enum_value(&self) -> (ts: TokenStream)
        ensures
            stream_tokens(ts) == path_tokens(seq![Seq::empty(), "buffa"@, "EnumValue"@]),
    {
        proof {
            reveal_strlit("buffa");
            reveal_strlit("EnumValue");
        }
        let segs = ["buffa", "EnumValue"];
        let ts = absolute_path(&segs);
        assert(seq![Seq::<char>::empty()] + segs@.map_values(|s: &str| s@) =~= seq![Seq::empty(), "buffa"@, "EnumValue"@]);
        ts
    }

    /// `::buffa::__private::HashMap`
    pub fn hashmap(&self) -> (ts: TokenStream)
        ensures
            stream_tokens(ts) == path_tokens(seq![Seq::empty(), "buffa"@, "__private"@, "HashMap"@]),
    {
        proof {
            reveal_strlit("buffa");
            reveal_strlit("__private");
            reveal_strlit("HashMap");
        }
        let segs = ["buffa", "__private", "HashMap"];
        let ts = absolute_path(&segs);
        assert(seq![Seq::<char>::empty()] + segs@.map_values(|s: &str| s@) =~= seq![Seq::empty(), "buffa"@, "__private"@, "HashMap"@]);
        ts
    }
}

// ── Per-scope import registry ───────────────────────────────────────────

/// Names a scope never claims as a short name, whatever the scope defines:
/// every name that generated code in a per-message module refers to bare
/// (prelude traits and types, derive paths, primitive types and the one
/// crate referenced by a bare path). A `use` claiming one of them would
/// change what that code means.
pub open spec fn scope_reserved_names() -> Seq<Seq<char>> {
    seq![
        "Box"@,
        "Clone"@,
        "Copy"@,
        "Debug"@,
        "Default"@,
        "Eq"@,
        "From"@,
        "Hash"@,
        "Into"@,
        "None"@,
        "Option"@,
        "PartialEq"@,
        "Result"@,
        "Self"@,
        "Send"@,
        "Some"@,
        "String"@,
        "Sync"@,
        "Vec"@,
        "bool"@,
        "f32"@,
        "f64"@,
        "i32"@,
        "i64"@,
        "serde"@,
        "str"@,
        "u8"@,
        "u32"@,
        "u64"@,
    ]
}

/// Names that generated code in a per-message module uses bare: prelude
/// traits and types, derive paths, primitive types, and the `serde` crate.
pub open spec fn referenced_bare(name: Seq<char>) -> bool {
    ||| name == "Box"@
    ||| name == "Clone"@
    ||| name == "Copy"@
    ||| name == "Debug"@
    ||| name == "Default"@
    ||| name == "Eq"@
    ||| name == "From"@
    ||| name == "Hash"@
    ||| name == "Into"@
    ||| name == "None"@
    ||| name == "Option"@
    ||| name == "PartialEq"@
    ||| name == "Result"@
    ||| name == "Self"@
    ||| name == "Send"@
    ||| name == "Some"@
    ||| name == "String"@
    ||| name == "Sync"@
    ||| name == "Vec"@
    ||| name == "bool"@
    ||| name == "f32"@
    ||| name == "f64"@
    ||| name == "i32"@
    ||| name == "i64"@
    ||| name == "serde"@
    ||| name == "str"@
    ||| name == "u8"@
    ||| name == "u32"@
    ||| name == "u64"@
}

/// Every fixed reserved name is among `reserved`.
pub open spec fn fixed_names_reserved(reserved: Seq<Seq<char>>) -> bool {
    forall|i: int| 0 <= i < scope_reserved_names().len() ==> reserved.contains(
        #[trigger] scope_reserved_names()[i],
    )
}

/// Whether a name can be the short side of a `use`: not empty and not a
/// path-position keyword.
pub open spec fn importable(name: Seq<char>) -> bool {
    name.len() > 0 && !path_keyword(name)
}

/// Claims (short name, full path) as a registry holds them: ordered by
/// name, none reserved, each name importable and the last segment of the
/// valid path it is bound to (so `use <path>;` brings exactly that name into
/// scope).
pub open spec fn claims_wf(reserved: Seq<Seq<char>>, c: Seq<(Seq<char>, Seq<char>)>) -> bool {
    &&& forall|i: int, j: int| 0 <= i < j < c.len() ==> text_lt(#[trigger] c[i].0, #[trigger] c[j].0)
    &&& forall|i: int| 0 <= i < c.len() ==> !reserved.contains(#[trigger] c[i].0)
    &&& forall|i: int|
        0 <= i < c.len() ==> {
            &&& importable(#[trigger] c[i].0)
            &&& valid_path(c[i].1)
            &&& segments(c[i].1).last() == c[i].0
        }
}

/// Whether `name` is claimed.
pub open spec fn is_claimed(c: Seq<(Seq<char>, Seq<char>)>, name: Seq<char>) -> bool {
    exists|i: int| 0 <= i < c.len() && (#[trigger] c[i]).0 == name
}

/// Where `name` is claimed, when it is.
pub open spec fn claim_index(c: Seq<(Seq<char>, Seq<char>)>, name: Seq<char>) -> int {
    choose|i: int| 0 <= i < c.len() && (#[trigger] c[i]).0 == name
}

/// The path `name` is bound to, if it is claimed.
pub open spec fn bound_path(c: Seq<(Seq<char>, Seq<char>)>, name: Seq<char>) -> Option<Seq<char>> {
    if is_claimed(c, name) {
        Some(c[claim_index(c, name)].1)
    } else {
        None
    }
}

/// Claiming `name` for `path`: whether it succeeds, and whether it adds a
/// claim. A reserved name fails; a claimed name succeeds only for the same
/// path and adds nothing; a free name is claimed.
pub open spec fn claim_result(
    reserved: Seq<Seq<char>>,
    c: Seq<(Seq<char>, Seq<char>)>,
    name: Seq<char>,
    path: Seq<char>,
) -> (bool, bool) {
    if reserved.contains(name) {
        (false, false)
    } else {
        match bound_path(c, name) {
            Some(p) => (p == path, false),
            None => (true, true),
        }
    }
}

/// `after` is `before` with `added`, if any, inserted at some position (the
/// registry's invariant then makes it the one that keeps names ordered).
pub open spec fn claims_updated(
    before: Seq<(Seq<char>, Seq<char>)>,
    added: Option<(Seq<char>, Seq<char>)>,
    after: Seq<(Seq<char>, Seq<char>)>,
) -> bool {
    if added is Some {
        exists|k: int| 0 <= k <= before.len() && after == #[trigger] before.insert(k, added->0)
    } else {
        after == before
    }
}

/// What `resolve` does with `path`: the segments it emits and the claim it
/// adds.
///
/// Disabled, for a bare path, or when the last segment cannot be imported:
/// the path as it is. Otherwise the bare last segment when it can be claimed
/// for the path; else the parent module's last segment and the last segment
/// when the former can be claimed for the parent; else the path as it is.
pub open spec fn resolve_plan(
    enabled: bool,
    reserved: Seq<Seq<char>>,
    c: Seq<(Seq<char>, Seq<char>)>,
    path: Seq<char>,
) -> (Seq<Seq<char>>, Option<(Seq<char>, Seq<char>)>) {
    let segs = segments(path);
    let n = segs.len();
    if !enabled || n < 2 || !importable(segs[n - 1]) {
        (segs, None)
    } else {
        let leaf = segs[n - 1];
        let first = claim_result(reserved, c, leaf, path);
        if first.0 {
            (seq![leaf], if first.1 { Some((leaf, path)) } else { None })
        } else {
            let parent_leaf = segs[n - 2];
            let parent = path.subrange(0, last_sep(path));
            let second = claim_result(reserved, c, parent_leaf, parent);
            if importable(parent_leaf) && second.0 {
                (seq![parent_leaf, leaf], if second.1 { Some((parent_leaf, parent)) } else { None })
            } else {
                (segs, None)
            }
        }
    }
}

/// The tokens of `use <path>;` for each claim, in order.
pub open spec fn use_block(c: Seq<(Seq<char>, Seq<char>)>) -> Seq<(Seq<char>, bool)>
    decreases c.len(),
{
    if c.len() == 0 {
        Seq::empty()
    } else {
        use_block(c.drop_last()) + seq![("use"@, false)] + tokens_of_path(c.last().1) + seq![
            (seq![';'], false),
        ]
    }
}

/// Ordered names are distinct.
proof fn lemma_claim_names_distinct(c: Seq<(Seq<char>, Seq<char>)>, i: int, j: int)
    requires
        forall|a: int, b: int| 0 <= a < b < c.len() ==> text_lt(#[trigger] c[a].0, #[trigger] c[b].0),
        0 <= i < c.len(),
        0 <= j < c.len(),
        i != j,
    ensures
        c[i].0 != c[j].0,
{
    lemma_text_lt_irreflexive(c[i].0);
}

/// In ordered claims, the one entry with a given name gives its bound path.
proof fn lemma_bound_path_at(c: Seq<(Seq<char>, Seq<char>)>, k: int, name: Seq<char>)
    requires
        forall|a: int, b: int| 0 <= a < b < c.len() ==> text_lt(#[trigger] c[a].0, #[trigger] c[b].0),
        0 <= k < c.len(),
        c[k].0 == name,
    ensures
        bound_path(c, name) == Some(c[k].1),
{
    assert(0 <= k < c.len() && c[k].0 == name);
    assert(is_claimed(c, name));
    let i = claim_index(c, name);
    assert(0 <= i < c.len() && c[i].0 == name);
    if i != k {
        lemma_claim_names_distinct(c, i, k);
    }
}

/// Inserting an entry between its neighbours keeps claims ordered.
proof fn lemma_insert_ordered(c: Seq<(Seq<char>, Seq<char>)>, k: int, e: (Seq<char>, Seq<char>))
    requires
        forall|a: int, b: int| 0 <= a < b < c.len() ==> text_lt(#[trigger] c[a].0, #[trigger] c[b].0),
        0 <= k <= c.len(),
        forall|j: int| 0 <= j < k ==> text_lt(#[trigger] c[j].0, e.0),
        k < c.len() ==> text_lt(e.0, c[k].0),
    ensures
        forall|a: int, b: int|
            0 <= a < b < c.insert(k, e).len() ==> text_lt(
                #[trigger] c.insert(k, e)[a].0,
                #[trigger] c.insert(k, e)[b].0,
            ),
{
    let d = c.insert(k, e);
    assert forall|a: int, b: int| 0 <= a < b < d.len() implies text_lt(
        #[trigger] d[a].0,
        #[trigger] d[b].0,
    ) by {
        if b < k {
            assert(d[a] == c[a] && d[b] == c[b]);
        } else if b == k {
            assert(d[a] == c[a]);
        } else if a < k {
            assert(d[a] == c[a] && d[b] == c[b - 1]);
            lemma_text_lt_transitive(c[a].0, e.0, c[k].0);
            if b - 1 > k {
                lemma_text_lt_transitive(c[a].0, c[k].0, c[b - 1].0);
            }
        } else if a == k {
            assert(d[b] == c[b - 1]);
            if b - 1 > k {
                lemma_text_lt_transitive(e.0, c[k].0, c[b - 1].0);
            }
        } else {
            assert(d[a] == c[a - 1] && d[b] == c[b - 1]);
        }
    }
}

/// Inserting `e` at any position is an update that adds `e`.
proof fn lemma_claims_inserted(c: Seq<(Seq<char>, Seq<char>)>, e: (Seq<char>, Seq<char>), k: int)
    requires
        0 <= k <= c.len(),
    ensures
        claims_updated(c, Some(e), c.insert(k, e)),
{
    assert(Some(e) is Some);
    assert(Some(e)->0 == e);
    assert(c.insert(k, e) == c.insert(k, Some(e)->0));
}

// ── Laws of the registry ────────────────────────────────────────────────

/// After inserting a new claim, lookups find it, and every other name is
/// bound as before.
proof fn lemma_bound_path_after_insert(
    c: Seq<(Seq<char>, Seq<char>)>,
    k: int,
    e: (Seq<char>, Seq<char>),
    name: Seq<char>,
)
    requires
        0 <= k <= c.len(),
        forall|a: int, b: int|
            0 <= a < b < c.insert(k, e).len() ==> text_lt(
                #[trigger] c.insert(k, e)[a].0,
                #[trigger] c.insert(k, e)[b].0,
            ),
    ensures
        bound_path(c.insert(k, e), name) == if name == e.0 {
            Some(e.1)
        } else {
            bound_path(c, name)
        },
{
    let d = c.insert(k, e);
    if name == e.0 {
        lemma_bound_path_at(d, k, name);
    } else if is_claimed(c, name) {
        let i = claim_index(c, name);
        let j = if i < k { i } else { i + 1 };
        assert(d[j] == c[i]);
        lemma_bound_path_at(d, j, name);
    } else {
        if is_claimed(d, name) {
            let j = claim_index(d, name);
            assert(d[j] == c[if j < k { j } else { j - 1 }]);
        }
    }
}

/// Repeating a claim just made gives the same answer and adds nothing: an
/// identical existing claim is confirmed, a refused one stays refused.
pub proof fn lemma_claim_idempotent(
    reserved: Seq<Seq<char>>,
    before: Seq<(Seq<char>, Seq<char>)>,
    after: Seq<(Seq<char>, Seq<char>)>,
    name: Seq<char>,
    path: Seq<char>,
)
    requires
        claims_wf(reserved, before),
        claims_wf(reserved, after),
        claims_updated(
            before,
            if claim_result(reserved, before, name, path).1 {
                Some((name, path))
            } else {
                None
            },
            after,
        ),
    ensures
        claim_result(reserved, after, name, path) == (
            claim_result(reserved, before, name, path).0,
            false,
        ),
{
    if claim_result(reserved, before, name, path).1 {
        let e = (name, path);
        let k = choose|k: int| 0 <= k <= before.len() && after == #[trigger] before.insert(k, e);
        lemma_bound_path_after_insert(before, k, e, name);
    }
}

/// Resolving a path twice gives the same tokens, and the second time
/// records nothing: identical types resolve to identical tokens.
pub proof fn lemma_resolve_idempotent(
    enabled: bool,
    reserved: Seq<Seq<char>>,
    before: Seq<(Seq<char>, Seq<char>)>,
    after: Seq<(Seq<char>, Seq<char>)>,
    path: Seq<char>,
)
    requires
        claims_wf(reserved, before),
        claims_wf(reserved, after),
        valid_path(path),
        claims_updated(before, resolve_plan(enabled, reserved, before, path).1, after),
    ensures
        resolve_plan(enabled, reserved, after, path) == (
            resolve_plan(enabled, reserved, before, path).0,
            None::<(Seq<char>, Seq<char>)>,
        ),
{
    let first = resolve_plan(enabled, reserved, before, path);
    let segs = segments(path);
    let n = segs.len();
    if !enabled || n < 2 || !importable(segs[n - 1]) {
        return;
    }
    if first.1 is Some {
        let e = first.1->0;
        let k = choose|k: int| 0 <= k <= before.len() && after == #[trigger] before.insert(k, e);
        lemma_bound_path_after_insert(before, k, e, segs[n - 1]);
        lemma_bound_path_after_insert(before, k, e, segs[n - 2]);
    }
}

/// When `resolve` shortens a path, reading the first emitted segment
/// through the `use` it recorded gives back the path it was given; otherwise
/// it emits the path as it is.
pub proof fn lemma_resolve_restores_path(
    enabled: bool,
    reserved: Seq<Seq<char>>,
    before: Seq<(Seq<char>, Seq<char>)>,
    after: Seq<(Seq<char>, Seq<char>)>,
    path: Seq<char>,
)
    requires
        claims_wf(reserved, before),
        claims_wf(reserved, after),
        valid_path(path),
        claims_updated(before, resolve_plan(enabled, reserved, before, path).1, after),
    ensures
        ({
            let emitted = resolve_plan(enabled, reserved, before, path).0;
            ||| emitted == segments(path)
            ||| bound_path(after, emitted[0]) matches Some(full) && segments(full) + emitted.drop_first()
                == segments(path)
        }),
{
    let plan = resolve_plan(enabled, reserved, before, path);
    let segs = segments(path);
    let n = segs.len();
    if !enabled || n < 2 || !importable(segs[n - 1]) {
        return;
    }
    let leaf = segs[n - 1];
    let parent_leaf = segs[n - 2];
    let parent = path.subrange(0, last_sep(path));
    if plan.1 is Some {
        let e = plan.1->0;
        let k = choose|k: int| 0 <= k <= before.len() && after == #[trigger] before.insert(k, e);
        lemma_bound_path_after_insert(before, k, e, plan.0[0]);
    }
    if plan.0 == seq![leaf] {
        assert(segs + plan.0.drop_first() =~= segs);
    } else if plan.0 == seq![parent_leaf, leaf] {
        lemma_last_sep(path);
        assert(segs == segments(parent).push(leaf));
        assert(segments(parent) + plan.0.drop_first() =~= segs);
    }
}

/// A `use` is recorded only by the call that emits its short name: every
/// recorded import is referenced.
pub proof fn lemma_recorded_use_is_referenced(
    enabled: bool,
    reserved: Seq<Seq<char>>,
    before: Seq<(Seq<char>, Seq<char>)>,
    path: Seq<char>,
)
    requires
        valid_path(path),
    ensures
        resolve_plan(enabled, reserved, before, path).1 matches Some(e) ==> e.0
            == resolve_plan(enabled, reserved, before, path).0[0],
{
}

/// Every claim kept before an update is kept after it.
pub proof fn lemma_claims_kept(
    before: Seq<(Seq<char>, Seq<char>)>,
    added: Option<(Seq<char>, Seq<char>)>,
    after: Seq<(Seq<char>, Seq<char>)>,
)
    requires
        claims_updated(before, added, after),
    ensures
        forall|i: int| 0 <= i < before.len() ==> after.contains(#[trigger] before[i]),
{
    if added is Some {
        let e = added->0;
        let k = choose|k: int| 0 <= k <= before.len() && after == #[trigger] before.insert(k, e);
        assert forall|i: int| 0 <= i < before.len() implies after.contains(#[trigger] before[i]) by {
            let j = if i < k { i } else { i + 1 };
            assert(after[j] == before[i]);
        }
    }
}

/// A short name claimed within a scope.
struct Binding {
    /// The full path this short name was imported from.
    path: String,
}

/// Per-module-scope import registry for generated code.
///
/// One registry serves one per-message module, whose contents are fully
/// known when it is generated. [`resolve`](Self::resolve) takes the Rust
/// path of a referenced type and returns the tokens to emit at the use
/// site, shortening the path when the short form is unambiguous and
/// recording the `use` directive that backs it:
///
/// 1. the bare last segment, backed by `use <path>;`;
/// 2. failing that, the parent module's last segment and the leaf, backed
///    by `use <parent>;`;
/// 3. failing that, the path as it is.
///
/// A short name is never claimed if it is reserved (defined in the scope,
/// or one of [`scope_reserved_names`]), and it binds to one path only.
/// When disabled, `resolve` emits every path as it is.
pub struct ScopeImports {
    enabled: bool,
    /// Names defined in this scope and the fixed reserved names.
    reserved: Vec<String>,
    /// Claimed short names with their bindings, in name order.
    bindings: Vec<(String, Binding)>,
}

impl ScopeImports {
    /// Whether shortening is on.
    pub closed spec fn is_enabled(&self) -> bool {
        self.enabled
    }

    /// The names that are never claimed.
    pub closed spec fn reserved_names(&self) -> Seq<Seq<char>> {
        self.reserved@.map_values(|n: String| n@)
    }

    /// The claimed short names with their full paths, in name order.
    pub closed spec fn claims(&self) -> Seq<(Seq<char>, Seq<char>)> {
        self.bindings@.map_values(|e: (String, Binding)| (e.0@, e.1.path@))
    }

    pub closed spec fn wf(&self) -> bool {
        &&& claims_wf(self.reserved_names(), self.claims())
        &&& fixed_names_reserved(self.reserved_names())
    }

    /// In every registry, short names come in strictly increasing order (so
    /// each binds one path and the `use` block is sorted), none is
    /// reserved, and each is importable and the last segment of the valid
    /// path it is bound to.
    pub proof fn lemma_registry_invariant(&self)
        requires
            self.wf(),
        ensures
            claims_wf(self.reserved_names(), self.claims()),
            fixed_names_reserved(self.reserved_names()),
    {
    }

    /// No registry ever claims a name that generated code in the scope
    /// refers to bare: not `Result`, `Option`, `Box`, a prelude trait, a
    /// primitive type, nor `serde`.
    pub proof fn lemma_prelude_names_never_claimed(&self)
        requires
            self.wf(),
        ensures
            forall|i: int|
                0 <= i < self.claims().len() ==> !referenced_bare(#[trigger] self.claims()[i].0),
    {
        let r = self.reserved_names();
        let fixed = scope_reserved_names();
        assert forall|i: int| 0 <= i < self.claims().len() implies !referenced_bare(
            #[trigger] self.claims()[i].0,
        ) by {
            let n = self.claims()[i].0;
            assert(!r.contains(n));
            if referenced_bare(n) {
                assert(exists|j: int| 0 <= j < fixed.len() && fixed[j] == n);
                let j = choose|j: int| 0 <= j < fixed.len() && fixed[j] == n;
                assert(r.contains(fixed[j]));
            }
        }
    }

    /// Create a registry for one scope. `scope_names` are the item names
    /// the scope defines; the fixed reserved names are added to them.
    pub fn new(enabled: bool, scope_names: &[String]) -> (s: Self)
        ensures
            s.wf(),
            s.is_enabled() == enabled,
            s.claims().len() == 0,
            s.reserved_names() == scope_names@.map_values(|n: String| n@) + scope_reserved_names(),
    {
        let mut reserved: Vec<String> = Vec::new();
        for i in 0..scope_names.len()
            invariant
                reserved@.map_values(|n: String| n@) == scope_names@.take(i as int).map_values(
                    |n: String| n@,
                ),
        {
            reserved.push(scope_names[i].clone());
            assert(scope_names@.take(i + 1).map_values(|n: String| n@) =~= scope_names@.take(
                i as int,
            ).map_values(|n: String| n@).push(scope_names@[i as int]@));
            assert(reserved@.map_values(|n: String| n@) =~= scope_names@.take(i as int).map_values(
                |n: String| n@,
            ).push(scope_names@[i as int]@));
        }
        assert(scope_names@.take(scope_names@.len() as int) =~= scope_names@);
        let ghost named = reserved@.map_values(|n: String| n@);
        let fixed = ["Box", "Clone", "Copy", "Debug", "Default", "Eq", "From", "Hash", "Into", "None", "Option", "PartialEq", "Result", "Self", "Send", "Some", "String", "Sync", "Vec", "bool", "f32", "f64", "i32", "i64", "serde", "str", "u8", "u32", "u64"];
        for i in 0..fixed.len()
            invariant
                reserved@.map_values(|n: String| n@) == named + fixed@.take(i as int).map_values(
                    |n: &str| n@,
                ),
        {
            let ghost before = reserved@.map_values(|n: String| n@);
            reserved.push(fixed[i].to_owned());
            assert(reserved@.map_values(|n: String| n@) =~= before.push(fixed@[i as int]@));
            assert(fixed@.take(i + 1).map_values(|n: &str| n@) =~= fixed@.take(i as int).map_values(
                |n: &str| n@,
            ).push(fixed@[i as int]@));
            assert(reserved@.map_values(|n: String| n@) =~= named + fixed@.take(i + 1).map_values(
                |n: &str| n@,
            ));
        }
        assert(fixed@.take(fixed@.len() as int).map_values(|n: &str| n@) =~= scope_reserved_names());
        let s = ScopeImports { enabled, reserved, bindings: Vec::new() };
        assert(s.claims() =~= Seq::<(Seq<char>, Seq<char>)>::empty());
        assert forall|i: int| 0 <= i < scope_reserved_names().len() implies s.reserved_names().contains(
            #[trigger] scope_reserved_names()[i],
        ) by {
            assert(s.reserved_names()[named.len() + i] == scope_reserved_names()[i]);
        }
        s
    }

    /// Whether `name` can be the short side of a `use` binding: not empty
    /// and not a path-position keyword (`self`, `super`, `Self`, `crate`,
    /// which cannot be raw identifiers).
    pub fn importable_name(name: &str) -> (r: bool)
        ensures
            r == importable(name@),
    {
        name.as_bytes().len() > 0 && !is_path_keyword(name)
    }

    /// Resolve a type path to the tokens to emit at the use site, recording
    /// an import when the path is shortened.
    ///
    /// `path` is a `::`-separated Rust path, relative
    /// (`super::super::super::Foo`) or absolute (`::buffa_types::Foo`).
    pub fn resolve(&mut self, path: &str) -> (ts: TokenStream)
        requires
            old(self).wf(),
            valid_path(path@),
        ensures
            final(self).wf(),
            final(self).is_enabled() == old(self).is_enabled(),
            final(self).reserved_names() == old(self).reserved_names(),
            stream_tokens(ts) == path_tokens(
                resolve_plan(
                    old(self).is_enabled(),
                    old(self).reserved_names(),
                    old(self).claims(),
                    path@,
                ).0,
            ),
            claims_updated(
                old(self).claims(),
                resolve_plan(
                    old(self).is_enabled(),
                    old(self).reserved_names(),
                    old(self).claims(),
                    path@,
                ).1,
                final(self).claims(),
            ),
            !old(self).is_enabled() ==> stream_tokens(ts) == tokens_of_path(path@)
                && final(self).claims() == old(self).claims(),
    {
        let ghost c = self.claims();
        let ghost res = self.reserved_names();
        let ghost segs = segments(path@);
        if !self.enabled {
            return path_to_tokens(path);
        }
        let i = match find_last_sep(path) {
            Some(i) => i,
            None => {
                assert(segs == seq![path@]);
                return path_to_tokens(path);
            },
        };
        proof {
            lemma_last_sep(path@);
            vstd::utf8::is_ascii_chars_encode_utf8(path@);
        }
        let n = path.as_bytes().len();
        let leaf = path.substring_ascii(i + 2, n);
        let parent = path.substring_ascii(0, i);
        let ghost k = segs.len() - 1;
        assert(segs == segments(parent@).push(leaf@));
        proof {
            lemma_segments_len(parent@);
            lemma_leaf_segments(path@);
        }
        assert(segs[k] == leaf@);
        if !Self::importable_name(leaf) {
            return path_to_tokens(path);
        }
        assert(ascii_ident(segs[k]));
        if self.try_claim(leaf, path) {
            assert(segments(leaf@) == seq![leaf@]);
            return path_to_tokens(leaf);
        }
        assert(self.claims() == c);
        let start = match find_last_sep(parent) {
            Some(j) => {
                proof {
                    lemma_last_sep(parent@);
                }
                j + 2
            },
            None => 0,
        };
        let parent_leaf = parent.substring_ascii(start, i);
        assert(segments(parent@).last() == parent_leaf@);
        assert(segs[k - 1] == parent_leaf@);
        if Self::importable_name(parent_leaf) {
            assert(ascii_ident(segs[k - 1]));
            proof {
                let ps = segments(parent@);
                assert forall|m: int| 0 <= m < ps.len() implies ascii_ident(#[trigger] ps[m]) || (m == 0
                    && ps[m].len() == 0) by {
                    assert(ps[m] == segs[m]);
                }
                vstd::utf8::is_ascii_chars_concat(path@, parent@, path@.subrange(i as int, n as int));
                assert(path@ =~= parent@ + path@.subrange(i as int, n as int));
            }
            if self.try_claim(parent_leaf, parent) {
                let mut ts = empty_stream();
                push_segment(&mut ts, parent_leaf);
                push_punct(&mut ts, ':', true);
                push_punct(&mut ts, ':', false);
                push_segment(&mut ts, leaf);
                proof {
                    let short = seq![parent_leaf@, leaf@];
                    assert(short.drop_last() =~= seq![parent_leaf@]);
                    assert(path_tokens(seq![parent_leaf@]) == seq![segment_token(parent_leaf@)]);
                    assert(path_tokens(short) == seq![segment_token(parent_leaf@)] + sep_tokens() + seq![
                        segment_token(leaf@),
                    ]);
                    assert(stream_tokens(ts) =~= path_tokens(short));
                }
                return ts;
            }
        }
        path_to_tokens(path)
    }

    /// The `use` directives recorded by [`resolve`](Self::resolve), in order
    /// of their short names.
    pub fn use_items(&self) -> (ts: TokenStream)
        requires
            self.wf(),
        ensures
            stream_tokens(ts) == use_block(self.claims()),
    {
        let ghost c = self.claims();
        let mut out = empty_stream();
        assert(c.take(0) =~= Seq::<(Seq<char>, Seq<char>)>::empty());
        for i in 0..self.bindings.len()
            invariant
                self.wf(),
                c == self.claims(),
                stream_tokens(out) == use_block(c.take(i as int)),
        {
            proof {
                reveal_strlit("use");
                assert(c[i as int].1 == self.bindings@[i as int].1.path@);
                assert(importable(c[i as int].0));
                assert(valid_path(c[i as int].1));
            }
            push_ident(&mut out, "use");
            push_path(&mut out, self.bindings[i].1.path.as_str());
            push_punct(&mut out, ';', false);
            proof {
                assert(c.take(i + 1).drop_last() =~= c.take(i as int));
                assert(stream_tokens(out) =~= use_block(c.take(i + 1)));
            }
        }
        assert(c.take(c.len() as int) =~= c);
        out
    }

    /// Claim `name` for `path`, or confirm an identical existing claim.
    fn try_claim(&mut self, name: &str, path: &str) -> (r: bool)
        requires
            old(self).wf(),
            importable(name@),
            valid_path(path@),
            segments(path@).last() == name@,
        ensures
            final(self).wf(),
            final(self).is_enabled() == old(self).is_enabled(),
            final(self).reserved_names() == old(self).reserved_names(),
            r == claim_result(old(self).reserved_names(), old(self).claims(), name@, path@).0,
            claims_updated(
                old(self).claims(),
                if claim_result(old(self).reserved_names(), old(self).claims(), name@, path@).1 {
                    Some((name@, path@))
                } else {
                    None
                },
                final(self).claims(),
            ),
    {
        let ghost c = self.claims();
        let ghost res = self.reserved_names();
        let mut i: usize = 0;
        while i < self.reserved.len()
            invariant
                i <= self.reserved.len(),
                *self == *old(self),
                self.wf(),
                res == self.reserved@.map_values(|n: String| n@),
                forall|j: int| 0 <= j < i ==> res[j] != name@,
            decreases self.reserved.len() - i,
        {
            if same_text(self.reserved[i].as_str(), name) {
                assert(res[i as int] == name@);
                return false;
            }
            i += 1;
        }
        assert(!res.contains(name@));
        let mut k: usize = 0;
        while k < self.bindings.len() && text_less(self.bindings[k].0.as_str(), name)
            invariant
                k <= self.bindings.len(),
                *self == *old(self),
                c == self.claims(),
                forall|j: int| 0 <= j < k ==> text_lt(#[trigger] c[j].0, name@),
            decreases self.bindings.len() - k,
        {
            k += 1;
        }
        if k < self.bindings.len() && same_text(self.bindings[k].0.as_str(), name) {
            proof {
                lemma_bound_path_at(c, k as int, name@);
            }
            return same_text(self.bindings[k].1.path.as_str(), path);
        }
        proof {
            if k < c.len() {
                lemma_text_lt_total(c[k as int].0, name@);
            }
            assert forall|j: int| 0 <= j < c.len() implies c[j].0 != name@ by {
                lemma_text_lt_irreflexive(name@);
                if j > k {
                    lemma_text_lt_transitive(name@, c[k as int].0, c[j].0);
                }
            }
            lemma_insert_ordered(c, k as int, (name@, path@));
        }
        let entry = (name.to_owned(), Binding { path: path.to_owned() });
        self.bindings.insert(k, entry);
        proof {
            assert(self.claims() =~= c.insert(k as int, (name@, path@)));
            assert(c == old(self).claims());
            assert(res == old(self).reserved_names());
            assert(bound_path(c, name@) is None);
            assert(claim_result(res, c, name@, path@) == (true, true));
            lemma_claims_inserted(c, (name@, path@), k as int);
            let d = self.claims();
            assert forall|j: int| 0 <= j < d.len() implies !res.contains(#[trigger] d[j].0) by {
                if j != k {
                    assert(d[j] == c[if j < k { j } else { j - 1 }]);
                }
            }
            assert forall|j: int| 0 <= j < d.len() implies {
                &&& importable(#[trigger] d[j].0)
                &&& valid_path(d[j].1)
                &&& segments(d[j].1).last() == d[j].0
            } by {
                if j != k {
                    assert(d[j] == c[if j < k { j } else { j - 1 }]);
                }
            }
        }
        true
    }
}

} // verus!
