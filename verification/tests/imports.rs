use buffa::imports::text::{is_keyword, same_text, text_less};
use buffa::imports::tokens::path_to_tokens;
use buffa::imports::{ImportResolver, ScopeImports};

fn scope(names: &[&str]) -> ScopeImports {
    let set: Vec<String> = names.iter().map(|s| s.to_string()).collect();
    ScopeImports::new(true, &set)
}

#[test]
fn disabled_is_passthrough() {
    let mut s = ScopeImports::new(false, &[]);
    assert_eq!(
        s.resolve("super::super::super::Foo").to_string(),
        path_to_tokens("super::super::super::Foo").to_string()
    );
    assert!(s.use_items().is_empty());
}

#[test]
fn same_package_binds_bare_with_use() {
    let mut s = scope(&[]);
    assert_eq!(s.resolve("super::super::super::Foo").to_string(), "Foo");
    assert_eq!(s.use_items().to_string(), "use super :: super :: super :: Foo ;");
}

#[test]
fn extern_path_binds_bare_with_use() {
    let mut s = scope(&[]);
    assert_eq!(
        s.resolve("::buffa_types::google::protobuf::Timestamp").to_string(),
        "Timestamp"
    );
    assert_eq!(
        s.use_items().to_string(),
        "use :: buffa_types :: google :: protobuf :: Timestamp ;"
    );
}

#[test]
fn reserved_name_stays_qualified_when_parent_is_super() {
    let mut s = scope(&["Foo"]);
    // Leaf reserved and the parent rung has no importable segment
    // (`super` chains only): fully qualified.
    assert_eq!(
        s.resolve("super::super::super::Foo").to_string(),
        "super :: super :: super :: Foo"
    );
    assert!(s.use_items().is_empty());
}

#[test]
fn reserved_leaf_falls_to_parent_module() {
    let mut s = scope(&["Inner"]);
    assert_eq!(
        s.resolve("super::super::super::outer::Inner").to_string(),
        "outer :: Inner"
    );
    assert_eq!(s.use_items().to_string(), "use super :: super :: super :: outer ;");
}

#[test]
fn prelude_names_never_claimed() {
    let mut s = scope(&[]);
    // A type named `From` must not shadow the prelude trait; it falls to
    // parent-module qualification instead.
    assert_eq!(
        s.resolve("super::super::super::other::From").to_string(),
        "other :: From"
    );
    assert_eq!(s.use_items().to_string(), "use super :: super :: super :: other ;");
}

#[test]
fn duplicate_leaf_falls_to_parent_module() {
    let mut s = scope(&[]);
    assert_eq!(
        s.resolve("super::super::super::outer_a::Inner").to_string(),
        "Inner"
    );
    // Second `Inner` from a different parent: qualify via that parent.
    assert_eq!(
        s.resolve("super::super::super::outer_b::Inner").to_string(),
        "outer_b :: Inner"
    );
    assert_eq!(
        s.use_items().to_string(),
        "use super :: super :: super :: outer_a :: Inner ; \
         use super :: super :: super :: outer_b ;"
    );
}

#[test]
fn serde_module_never_claimed() {
    // A module named `serde` would shadow the crate that generated code
    // refers to by a bare path: it must stay qualified.
    let mut s = scope(&["Inner"]);
    assert_eq!(
        s.resolve("super::super::super::serde::Inner").to_string(),
        "super :: super :: super :: serde :: Inner"
    );
    assert!(s.use_items().is_empty());
}

#[test]
fn parent_rung_works_for_extern_paths() {
    let mut s = scope(&["Foo"]);
    assert_eq!(s.resolve("::ext::sub::Foo").to_string(), "sub :: Foo");
    assert_eq!(s.use_items().to_string(), "use :: ext :: sub ;");
}

#[test]
fn parent_collision_falls_fully_qualified() {
    let mut s = scope(&["Inner", "outer_b"]);
    assert_eq!(
        s.resolve("super::super::super::outer_b::Inner").to_string(),
        "super :: super :: super :: outer_b :: Inner"
    );
    assert!(s.use_items().is_empty());
}

#[test]
fn same_path_resolves_consistently() {
    let mut s = scope(&[]);
    let first = s.resolve("::ext::Foo").to_string();
    let second = s.resolve("::ext::Foo").to_string();
    assert_eq!(first, second);
    assert_eq!(s.use_items().to_string(), "use :: ext :: Foo ;");
}

#[test]
fn keyword_segments_survive() {
    // Paths arrive unescaped (`type`, not `r#type`); the leaf binds bare
    // and the recorded use path gets the raw-identifier escaping.
    let mut s = scope(&[]);
    assert_eq!(
        s.resolve("super::super::super::type::LatLng").to_string(),
        "LatLng"
    );
    assert_eq!(
        s.use_items().to_string(),
        "use super :: super :: super :: r#type :: LatLng ;"
    );
}

#[test]
fn use_items_are_sorted_by_short_name() {
    let mut s = scope(&[]);
    s.resolve("::ext::Zebra");
    s.resolve("::ext::Alpha");
    assert_eq!(
        s.use_items().to_string(),
        "use :: ext :: Alpha ; use :: ext :: Zebra ;"
    );
}

#[test]
fn bare_path_is_passthrough() {
    let mut s = scope(&[]);
    assert_eq!(s.resolve("Foo").to_string(), "Foo");
    assert!(s.use_items().is_empty());
}

// ── Further cases ───────────────────────────────────────────────────────

#[test]
fn resolver_paths_are_fully_qualified() {
    let r = ImportResolver::new();
    assert_eq!(r.option().to_string(), ":: core :: option :: Option");
    assert_eq!(r.string().to_string(), ":: buffa :: alloc :: string :: String");
    assert_eq!(r.vec().to_string(), ":: buffa :: alloc :: vec :: Vec");
    assert_eq!(r.message_field().to_string(), ":: buffa :: MessageField");
    assert_eq!(r.enum_value().to_string(), ":: buffa :: EnumValue");
    assert_eq!(r.hashmap().to_string(), ":: buffa :: __private :: HashMap");
}

#[test]
fn path_tokens_escape_keywords_but_not_path_keywords() {
    assert_eq!(
        path_to_tokens("self::super::crate::Self::type::fn::async").to_string(),
        "self :: super :: crate :: Self :: r#type :: r#fn :: r#async"
    );
    assert_eq!(path_to_tokens("::a").to_string(), ":: a");
}

#[test]
fn path_keyword_leaf_is_never_shortened() {
    let mut s = scope(&[]);
    assert_eq!(s.resolve("super::super").to_string(), "super :: super");
    assert!(s.use_items().is_empty());
}

#[test]
fn shortened_parent_is_reused() {
    let mut s = scope(&["Inner", "Other"]);
    assert_eq!(s.resolve("::ext::m::Inner").to_string(), "m :: Inner");
    // Same parent module, another reserved leaf: the `m` claim is confirmed.
    assert_eq!(s.resolve("::ext::m::Other").to_string(), "m :: Other");
    assert_eq!(s.use_items().to_string(), "use :: ext :: m ;");
}

#[test]
fn claimed_leaf_name_blocks_other_parent_of_same_name() {
    let mut s = scope(&[]);
    assert_eq!(s.resolve("::a::m").to_string(), "m");
    // `m` is bound to `::a::m`, so `::b::m::X` can only use its leaf.
    assert_eq!(s.resolve("::b::m::X").to_string(), "X");
    // A second `X` under `::c::m`: leaf taken, parent name `m` taken by
    // another path, so it stays fully qualified.
    assert_eq!(s.resolve("::c::m::X").to_string(), ":: c :: m :: X");
    // Ordered by short name: `X` before `m`.
    assert_eq!(s.use_items().to_string(), "use :: b :: m :: X ; use :: a :: m ;");
}

#[test]
fn keyword_leaf_binds_raw() {
    let mut s = scope(&[]);
    assert_eq!(s.resolve("::ext::type").to_string(), "r#type");
    assert_eq!(s.use_items().to_string(), "use :: ext :: r#type ;");
}

#[test]
fn importable_names() {
    assert!(ScopeImports::importable_name("Foo"));
    assert!(!ScopeImports::importable_name(""));
    assert!(!ScopeImports::importable_name("self"));
    assert!(!ScopeImports::importable_name("super"));
    assert!(!ScopeImports::importable_name("Self"));
    assert!(!ScopeImports::importable_name("crate"));
}

#[test]
fn text_helpers() {
    assert!(text_less("Alpha", "Zebra"));
    assert!(text_less("Zebra", "alpha"));
    assert!(text_less("ab", "abc"));
    assert!(!text_less("abc", "ab"));
    assert!(!text_less("ab", "ab"));
    assert!(same_text("ab", "ab"));
    assert!(!same_text("ab", "abc"));
    assert!(is_keyword("type"));
    assert!(is_keyword(&["ext", "ern"].concat()));
    assert!(!is_keyword("Type"));
}
