use tag_registry::{TagError, TagId, TagRegistry, MAX_TAGS};

#[test]
fn register_is_idempotent() {
    let mut reg = TagRegistry::new();
    let first = reg.register("Ability.Magic").unwrap();
    let count = reg.len();
    let second = reg.register("Ability.Magic").unwrap();
    assert_eq!(first, second);
    assert_eq!(reg.len(), count);
}

#[test]
fn prefixes_are_registered_and_distinct() {
    let mut reg = TagRegistry::new();
    reg.register("A.B.C").unwrap();
    assert_eq!(reg.len(), 3);
    let a = reg.id_of("A").unwrap();
    let ab = reg.id_of("A.B").unwrap();
    let abc = reg.id_of("A.B.C").unwrap();
    assert_ne!(a, ab);
    assert_ne!(a, abc);
    assert_ne!(ab, abc);
}

#[test]
fn shared_prefixes_are_reused() {
    let mut reg = TagRegistry::new();
    reg.register("Ability.Magic.Fireball").unwrap();
    assert_eq!(reg.len(), 3);
    reg.register("Ability.Magic.Lightning").unwrap();
    assert_eq!(reg.len(), 4);
}

#[test]
fn case_insensitive_resolution() {
    let mut reg = TagRegistry::new();
    let id = reg.register("Ability.Magic").unwrap();
    assert_eq!(reg.id_of("ability.MAGIC"), Some(id));
    assert_eq!(reg.id_of("AbIlItY.mAgIc"), Some(id));
    let again = reg.register("ABILITY.magic").unwrap();
    assert_eq!(again, id);
    assert_eq!(reg.len(), 2);
}

#[test]
fn lookup_miss_is_not_an_error() {
    let reg = TagRegistry::new();
    assert!(reg.id_of("never.registered").is_none());
}

#[test]
fn matching_is_a_partial_order() {
    let mut reg = TagRegistry::new();
    let child = reg.register("a.b").unwrap();
    let parent = reg.id_of("a").unwrap();
    let sibling = reg.register("a.c").unwrap();
    let other_root = reg.register("d").unwrap();
    assert!(reg.is_match(child, child));
    assert!(reg.is_match(parent, parent));
    assert!(reg.is_match(child, parent));
    assert!(!reg.is_match(parent, child));
    assert!(!reg.is_match(child, sibling));
    assert!(!reg.is_match(sibling, child));
    assert!(!reg.is_match(child, other_root));
    assert!(!reg.is_match(other_root, child));
}

#[test]
fn matching_is_transitive_down_a_chain() {
    let mut reg = TagRegistry::new();
    let leaf = reg.register("w.x.y.z").unwrap();
    let top = reg.id_of("w").unwrap();
    let mid = reg.id_of("w.x").unwrap();
    assert!(reg.is_match(leaf, mid));
    assert!(reg.is_match(mid, top));
    assert!(reg.is_match(leaf, top));
}

#[test]
fn segment_boundaries_matter() {
    let mut reg = TagRegistry::new();
    let abc = reg.register("ab.cd").unwrap();
    let abcd = reg.register("abxy").unwrap();
    let ab = reg.id_of("ab").unwrap();
    assert!(reg.is_match(abc, ab));
    // "ab" is a string prefix of "abxy" but not an ancestor category
    assert!(!reg.is_match(abcd, ab));
}

#[test]
fn default_capacity_is_max_tags() {
    let reg = TagRegistry::new();
    assert_eq!(reg.capacity(), MAX_TAGS);
    assert_eq!(reg.len(), 0);
}

#[test]
fn capacity_boundary_raises_and_keeps_state() {
    let mut reg = TagRegistry::with_capacity(5);
    let c = reg.register("a.b.c").unwrap();
    reg.register("d.e").unwrap();
    assert_eq!(reg.len(), 5);
    let err = reg.register("f").unwrap_err();
    assert_eq!(err, TagError::CapacityExceeded);
    // prior lookups are unaffected
    assert_eq!(reg.len(), 5);
    assert_eq!(reg.id_of("a.b.c"), Some(c));
    assert!(reg.id_of("a.b").is_some());
    assert!(reg.id_of("f").is_none());
    // a path that is already present still registers fine
    assert_eq!(reg.register("a.b.c").unwrap(), c);
}

#[test]
fn failed_registration_commits_no_partial_prefix() {
    let mut reg = TagRegistry::with_capacity(2);
    let err = reg.register("x.y.z").unwrap_err();
    assert_eq!(err, TagError::CapacityExceeded);
    assert_eq!(reg.len(), 0);
    assert!(reg.id_of("x").is_none());
    assert!(reg.id_of("x.y").is_none());
}

#[test]
fn ids_are_dense_in_registration_order() {
    let mut reg = TagRegistry::new();
    let a = reg.register("a").unwrap();
    let b = reg.register("b").unwrap();
    let c = reg.register("c").unwrap();
    assert_eq!(a, TagId::from(0u16));
    assert_eq!(b, TagId::from(1u16));
    assert_eq!(c, TagId::from(2u16));
}

#[test]
fn tag_ids_are_totally_ordered() {
    let a = TagId::from(1u16);
    let b = TagId::from(2u16);
    assert!(a < b);
    assert!(a == TagId::from(1u16));
    let mut v = vec![b, a];
    v.sort();
    assert_eq!(v, vec![a, b]);
}

#[test]
fn matching_works_past_one_bitset_word() {
    let mut reg = TagRegistry::with_capacity(256);
    for i in 0..70u32 {
        reg.register(&format!("root{}", i)).unwrap();
    }
    let child = reg.register("root69.child").unwrap();
    let parent = reg.id_of("root69").unwrap();
    let stranger = reg.id_of("root0").unwrap();
    assert!(reg.is_match(child, parent));
    assert!(reg.is_match(child, child));
    assert!(!reg.is_match(child, stranger));
    assert!(!reg.is_match(parent, child));
}
