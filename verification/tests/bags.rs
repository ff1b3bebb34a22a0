use tag_registry::{TagId, TagList, TagRegistry};

#[test]
fn bag_add_is_deduplicating() {
    let mut bag = TagList::new();
    let a = TagId::from(3u16);
    let b = TagId::from(7u16);
    assert!(bag.add(a));
    assert!(!bag.add(a));
    assert!(bag.add(b));
    assert_eq!(bag.len(), 2);
    assert!(bag.has(a));
    assert!(bag.has(b));
    assert!(!bag.has(TagId::from(9u16)));
}

#[test]
fn bag_remove_takes_first_occurrence() {
    let ids = vec![
        TagId::from(1u16),
        TagId::from(2u16),
        TagId::from(1u16),
        TagId::from(3u16),
    ];
    let mut bag = TagList::from_ids(&ids);
    assert!(bag.remove(TagId::from(1u16)));
    assert_eq!(bag.len(), 3);
    assert_eq!(bag.get(0), TagId::from(2u16));
    assert_eq!(bag.get(1), TagId::from(1u16));
    assert_eq!(bag.get(2), TagId::from(3u16));
    assert!(!bag.remove(TagId::from(9u16)));
    assert_eq!(bag.len(), 3);
}

#[test]
fn bag_from_ids_keeps_duplicates_and_order() {
    let ids = vec![TagId::from(5u16), TagId::from(2u16), TagId::from(5u16)];
    let bag = TagList::from_ids(&ids);
    assert_eq!(bag.len(), 3);
    assert_eq!(bag.get(0), TagId::from(5u16));
    assert_eq!(bag.get(1), TagId::from(2u16));
    assert_eq!(bag.get(2), TagId::from(5u16));
}

#[test]
fn bag_spills_past_inline_capacity() {
    let mut bag = TagList::new();
    for i in 0..20u16 {
        assert!(bag.add(TagId::from(i)));
    }
    assert_eq!(bag.len(), 20);
    for i in 0..20u16 {
        assert_eq!(bag.get(i as usize), TagId::from(i));
    }
}

#[test]
fn default_bag_is_empty() {
    let bag = TagList::default();
    assert_eq!(bag.len(), 0);
    assert!(!bag.has(TagId::from(0u16)));
}

fn demo_registry() -> (TagRegistry, TagId, TagId, TagId, TagId) {
    let mut reg = TagRegistry::new();
    let fireball = reg.register("Ability.Magic.Fireball").unwrap();
    let lightning = reg.register("Ability.Magic.Lightning").unwrap();
    let attack = reg.register("Input.Attack").unwrap();
    let magic = reg.id_of("Ability.Magic").unwrap();
    (reg, fireball, lightning, attack, magic)
}

#[test]
fn concrete_scenario() {
    let (reg, fireball, lightning, attack, magic) = demo_registry();
    assert_eq!(reg.len(), 6);
    assert!(reg.is_match(fireball, magic));
    assert!(reg.is_match(lightning, magic));
    assert!(!reg.is_match(lightning, fireball));
    assert!(!reg.is_match(lightning, attack));

    let mut bag = TagList::new();
    bag.add(fireball);
    bag.add(lightning);
    assert!(reg.any_match(&bag, magic));
    assert!(reg.none_match(&bag, attack));
    let mut magic_bag = TagList::new();
    magic_bag.add(magic);
    assert!(reg.all_match_from(&bag, &magic_bag));
}

#[test]
fn bag_side_combinators_agree_with_registry_side() {
    let (reg, fireball, lightning, attack, magic) = demo_registry();
    let mut bag = TagList::new();
    bag.add(fireball);
    bag.add(lightning);
    let mut magic_bag = TagList::new();
    magic_bag.add(magic);
    let mut attack_bag = TagList::new();
    attack_bag.add(attack);

    assert!(bag.any_match(magic, &reg));
    assert!(bag.none_match(attack, &reg));
    assert!(bag.all_match_from(&magic_bag, &reg));
    assert!(bag.any_match_from(&magic_bag, &reg));
    assert!(bag.none_match_from(&attack_bag, &reg));
    assert_eq!(
        bag.any_match(magic, &reg),
        reg.any_match(&bag, magic)
    );
}

#[test]
fn any_and_none_are_dual() {
    let (reg, fireball, lightning, attack, magic) = demo_registry();
    let ability = reg.id_of("Ability").unwrap();
    let mut bag = TagList::new();
    bag.add(fireball);
    bag.add(lightning);
    for &t in &[fireball, lightning, attack, magic, ability] {
        assert_eq!(reg.any_match(&bag, t), !reg.none_match(&bag, t));
    }
    let mut other = TagList::new();
    other.add(magic);
    other.add(attack);
    assert_eq!(
        reg.any_match_from(&bag, &other),
        !reg.none_match_from(&bag, &other)
    );
}

#[test]
fn all_match_from_needs_every_tag_matched() {
    let (reg, fireball, lightning, attack, magic) = demo_registry();
    let mut bag = TagList::new();
    bag.add(fireball);
    bag.add(lightning);
    let mut wanted = TagList::new();
    wanted.add(magic);
    wanted.add(attack);
    // `attack` is matched by nothing in the bag
    assert!(!reg.all_match_from(&bag, &wanted));
    assert!(reg.any_match_from(&bag, &wanted));
    let empty = TagList::new();
    // vacuously true over an empty demand
    assert!(reg.all_match_from(&bag, &empty));
    assert!(!reg.any_match_from(&bag, &empty));
}
