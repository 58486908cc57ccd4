use botc_randomizer::character::{Character, Type};
use botc_randomizer::condition::{Condition, ExtraCharacters, TypeCond};
use botc_randomizer::validate::{validate_list, TypeCounts};

fn character(name: &str, category: Type, conditions: Vec<Condition>) -> Character {
    Character {
        name: name.to_string(),
        description: String::new(),
        category,
        icon: None,
        conditions: if conditions.is_empty() { None } else { Some(conditions) },
    }
}

fn plain(name: &str, category: Type) -> Character {
    character(name, category, Vec::new())
}

fn counts(outsider: i16, minion: i16, demon: i16) -> TypeCounts {
    TypeCounts {
        townsfolk: None,
        outsider: Some(vec![outsider]),
        minion: Some(vec![minion]),
        demon: Some(vec![demon]),
        fabled: None,
        traveller: None,
    }
}

fn make_set(townsfolk: usize, outsider: usize, minion: usize, demon: usize) -> Vec<Character> {
    let mut v = Vec::new();
    for i in 0..townsfolk {
        v.push(plain(&format!("Town {}", (b'a' + i as u8) as char), Type::Townsfolk));
    }
    for i in 0..outsider {
        v.push(plain(&format!("Out {}", (b'a' + i as u8) as char), Type::Outsider));
    }
    for i in 0..minion {
        v.push(plain(&format!("Min {}", (b'a' + i as u8) as char), Type::Minion));
    }
    for i in 0..demon {
        v.push(plain(&format!("Dem {}", (b'a' + i as u8) as char), Type::Demon));
    }
    v
}

fn evaluate(cs: &[Character], base: &TypeCounts) -> (bool, u128) {
    let refs: Vec<&Character> = cs.iter().collect();
    validate_list(&refs, base)
}

#[test]
fn no_rules_valid_iff_counts_match_base() {
    let base = counts(0, 2, 1);
    assert_eq!(evaluate(&make_set(7, 0, 2, 1), &base), (true, 0));
    assert_eq!(evaluate(&make_set(3, 0, 2, 1), &base), (true, 0));
    assert_eq!(evaluate(&make_set(7, 1, 2, 1), &base), (false, 0));
    assert_eq!(evaluate(&make_set(7, 0, 1, 1), &base), (false, 0));
    assert_eq!(evaluate(&make_set(7, 0, 2, 0), &base), (false, 0));
}

#[test]
fn ten_players_default_counts_scenario() {
    let base = counts(0, 2, 1);
    let set = make_set(7, 0, 2, 1);
    let (valid, extra) = evaluate(&set, &base);
    assert!(valid);
    assert_eq!(set.len() as u128, 10 + extra);
    assert!(!evaluate(&make_set(6, 1, 2, 1), &base).0);
    assert!(!evaluate(&make_set(8, 0, 1, 1), &base).0);
}

#[test]
fn offset_on_outsiders_scenario() {
    let base = counts(0, 2, 1);
    let baron = character(
        "Baron",
        Type::Minion,
        vec![Condition::Type { category: Type::Outsider, amount: TypeCond::Add(vec![1]) }],
    );
    let mut without = make_set(7, 0, 1, 1);
    without.push(baron.clone());
    assert!(!evaluate(&without, &base).0);
    let mut with_one = make_set(6, 1, 1, 1);
    with_one.push(baron);
    assert!(evaluate(&with_one, &base).0);
}

#[test]
fn forbidden_needs_zero_and_skips_count() {
    let base = counts(1, 1, 1);
    let rule = Condition::Type { category: Type::Outsider, amount: TypeCond::Forbidden };
    let mut none = make_set(5, 0, 0, 1);
    none.push(character("Ward", Type::Minion, vec![rule.clone()]));
    assert!(evaluate(&none, &base).0);
    let mut one = make_set(5, 1, 0, 1);
    one.push(character("Ward", Type::Minion, vec![rule]));
    assert!(!evaluate(&one, &base).0);
}

#[test]
fn unconstrained_skips_count_check() {
    let base = counts(0, 1, 1);
    let rule = Condition::Type { category: Type::Outsider, amount: TypeCond::Any };
    for outsiders in 0..4 {
        let mut set = make_set(5, outsiders, 0, 1);
        set.push(character("Free", Type::Minion, vec![rule.clone()]));
        assert!(evaluate(&set, &base).0);
    }
}

#[test]
fn forbidden_overrides_offsets_on_same_category() {
    let base = counts(0, 1, 1);
    let c = character(
        "Mixed",
        Type::Minion,
        vec![
            Condition::Type { category: Type::Outsider, amount: TypeCond::Add(vec![3]) },
            Condition::Type { category: Type::Outsider, amount: TypeCond::Forbidden },
        ],
    );
    let mut set = make_set(5, 0, 0, 1);
    set.push(c);
    assert!(evaluate(&set, &base).0);
}

#[test]
fn offsets_give_same_verdicts_in_either_order() {
    let base = counts(0, 1, 1);
    let a = Condition::Type { category: Type::Outsider, amount: TypeCond::Add(vec![1]) };
    let b = Condition::Type { category: Type::Outsider, amount: TypeCond::Add(vec![-1, 2]) };
    for outsiders in 0..6 {
        let mut first = make_set(5, outsiders, 0, 1);
        first.push(character("Ab", Type::Minion, vec![a.clone(), b.clone()]));
        let mut second = make_set(5, outsiders, 0, 1);
        second.push(character("Ba", Type::Minion, vec![b.clone(), a.clone()]));
        assert_eq!(evaluate(&first, &base), evaluate(&second, &base));
        assert_eq!(evaluate(&first, &base).0, outsiders == 0 || outsiders == 3);
    }
}

#[test]
fn offset_on_unset_category_uses_the_deltas() {
    let base = counts(0, 1, 1);
    let c = character(
        "Crowd",
        Type::Minion,
        vec![Condition::Type { category: Type::Townsfolk, amount: TypeCond::Add(vec![2, 4]) }],
    );
    for townsfolk in 0..6 {
        let mut set = make_set(townsfolk, 0, 0, 1);
        set.push(c.clone());
        assert_eq!(evaluate(&set, &base).0, townsfolk == 2 || townsfolk == 4);
    }
}

#[test]
fn negative_offset_is_unmatchable() {
    let base = counts(0, 1, 1);
    let c = character(
        "Less",
        Type::Minion,
        vec![Condition::Type { category: Type::Outsider, amount: TypeCond::Add(vec![-1]) }],
    );
    for outsiders in 0..3 {
        let mut set = make_set(5, outsiders, 0, 1);
        set.push(c.clone());
        assert!(!evaluate(&set, &base).0);
    }
}

#[test]
fn saturating_reduce_floors_at_zero() {
    let base = counts(0, 2, 1);
    let c = character(
        "Shrink",
        Type::Demon,
        vec![Condition::Type { category: Type::Minion, amount: TypeCond::SaturatingSub(vec![5]) }],
    );
    let mut zero = make_set(5, 0, 0, 0);
    zero.push(c.clone());
    assert!(evaluate(&zero, &base).0);
    let mut one = make_set(5, 0, 1, 0);
    one.push(c);
    assert!(!evaluate(&one, &base).0);
}

#[test]
fn saturating_reduce_by_zero_keeps_counts() {
    let base = counts(0, 2, 1);
    let c = character(
        "Same",
        Type::Demon,
        vec![Condition::Type { category: Type::Minion, amount: TypeCond::SaturatingSub(vec![0]) }],
    );
    let mut two = make_set(5, 0, 2, 0);
    two.push(c.clone());
    assert!(evaluate(&two, &base).0);
    let mut one = make_set(5, 0, 1, 0);
    one.push(c);
    assert!(!evaluate(&one, &base).0);
}

#[test]
fn reductions_are_pooled_after_offsets() {
    let base = counts(0, 1, 1);
    let c = character(
        "Order",
        Type::Demon,
        vec![
            Condition::Type { category: Type::Outsider, amount: TypeCond::SaturatingSub(vec![1]) },
            Condition::Type { category: Type::Outsider, amount: TypeCond::Add(vec![2]) },
            Condition::Type { category: Type::Outsider, amount: TypeCond::SaturatingSub(vec![2]) },
        ],
    );
    // {0} + 2 = {2}; reduced by {1, 2}: {1, 0}.
    for outsiders in 0..4 {
        let mut set = make_set(5, outsiders, 1, 0);
        set.push(c.clone());
        assert_eq!(evaluate(&set, &base).0, outsiders <= 1);
    }
}

#[test]
fn required_character_must_be_present() {
    let base = counts(0, 1, 1);
    let needy = character(
        "Needy",
        Type::Minion,
        vec![Condition::Character { character: "towna".to_string() }],
    );
    let mut with = make_set(1, 0, 0, 1);
    with.push(needy.clone());
    assert!(evaluate(&with, &base).0);
    let mut without = make_set(0, 0, 0, 1);
    without.push(needy);
    assert!(!evaluate(&without, &base).0);
}

#[test]
fn relative_extras_take_the_maximum() {
    let base = counts(0, 1, 1);
    let c = character(
        "Grow",
        Type::Minion,
        vec![
            Condition::ExtraCharacters { extra_characters: ExtraCharacters::Type(Type::Townsfolk, 5) },
            Condition::ExtraCharacters { extra_characters: ExtraCharacters::Type(Type::Townsfolk, 3) },
        ],
    );
    let mut set = make_set(7, 0, 0, 1);
    set.push(c);
    assert_eq!(evaluate(&set, &base), (true, 4));
}

#[test]
fn relative_extra_with_negative_subtrahend() {
    let base = counts(0, 1, 1);
    let c = character(
        "More",
        Type::Minion,
        vec![Condition::ExtraCharacters { extra_characters: ExtraCharacters::Type(Type::Demon, -2) }],
    );
    let mut set = make_set(3, 0, 0, 1);
    set.push(c);
    assert_eq!(evaluate(&set, &base).1, 3);
}

#[test]
fn constant_extras_add_up() {
    let base = counts(0, 1, 1);
    let c = character(
        "Plus",
        Type::Minion,
        vec![
            Condition::ExtraCharacters { extra_characters: ExtraCharacters::Const(1) },
            Condition::ExtraCharacters { extra_characters: ExtraCharacters::Const(2) },
        ],
    );
    let d = character(
        "Plus Too",
        Type::Demon,
        vec![Condition::ExtraCharacters { extra_characters: ExtraCharacters::Const(4) }],
    );
    let set = vec![c, d];
    assert_eq!(evaluate(&set, &base), (true, 7));
}

#[test]
fn evaluation_is_repeatable() {
    let base = counts(0, 2, 1);
    let mut set = make_set(7, 0, 1, 1);
    set.push(character(
        "Baron",
        Type::Minion,
        vec![Condition::Type { category: Type::Outsider, amount: TypeCond::Add(vec![2]) }],
    ));
    let first = evaluate(&set, &base);
    let second = evaluate(&set, &base);
    assert_eq!(first, second);
}

#[test]
fn empty_set_against_empty_base() {
    let base = TypeCounts {
        townsfolk: None,
        outsider: None,
        minion: None,
        demon: None,
        fabled: None,
        traveller: None,
    };
    assert_eq!(evaluate(&[], &base), (true, 0));
    assert_eq!(evaluate(&[], &counts(0, 1, 1)), (false, 0));
}

#[test]
fn id_keeps_lowercased_letters_only() {
    assert_eq!(plain("Fortune Teller", Type::Townsfolk).id(), "fortuneteller");
    assert_eq!(plain("Al-Hadikhia 2", Type::Demon).id(), "alhadikhia");
    assert_eq!(plain("", Type::Demon).id(), "");
}

#[test]
fn type_names_and_icons() {
    assert_eq!(Type::Townsfolk.plural_str(), "Townsfolk");
    assert_eq!(Type::Outsider.plural_str(), "Outsiders");
    assert_eq!(Type::Minion.plural_str(), "Minions");
    assert_eq!(Type::Demon.plural_str(), "Demons");
    assert_eq!(Type::Fabled.plural_str(), "Fabled");
    assert_eq!(Type::Traveller.plural_str(), "Travellers");
    assert!(Type::Demon.icon().ends_with("Generic_demon.png"));
    assert!(Type::Traveller.icon().ends_with("Generic_traveller.png"));
}

#[test]
fn type_counts_get_returns_the_slot() {
    let base = counts(3, 2, 1);
    assert_eq!(base.get(Type::Outsider), &Some(vec![3]));
    assert_eq!(base.get(Type::Townsfolk), &None);
}

#[test]
fn candidate_order_does_not_matter() {
    let base = counts(0, 2, 1);
    let mut set = make_set(6, 1, 1, 1);
    set.push(character(
        "Baron",
        Type::Minion,
        vec![
            Condition::Type { category: Type::Outsider, amount: TypeCond::Add(vec![1]) },
            Condition::ExtraCharacters { extra_characters: ExtraCharacters::Type(Type::Outsider, 0) },
        ],
    ));
    set.push(character(
        "Host",
        Type::Townsfolk,
        vec![
            Condition::Type { category: Type::Outsider, amount: TypeCond::SaturatingSub(vec![0, 1]) },
            Condition::ExtraCharacters { extra_characters: ExtraCharacters::Const(2) },
        ],
    ));
    let forward = evaluate(&set, &base);
    set.reverse();
    assert_eq!(evaluate(&set, &base), forward);
    set.swap(0, 5);
    assert_eq!(evaluate(&set, &base), forward);
    assert_eq!(forward, (true, 3));
}
