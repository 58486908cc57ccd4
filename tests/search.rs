use botc_randomizer::character::{Character, Type};
use botc_randomizer::condition::{Condition, ExtraCharacters};
use botc_randomizer::search::{evaluate_draw, picked_ids, same_ids, search, try_draw};
use botc_randomizer::validate::{validate_list, TypeCounts};
use rand::rngs::StdRng;
use rand::SeedableRng;

fn plain(name: &str, category: Type) -> Character {
    Character {
        name: name.to_string(),
        description: String::new(),
        category,
        icon: None,
        conditions: None,
    }
}

fn counts(outsider: i16, minion: i16, demon: i16) -> TypeCounts {
    TypeCounts {
        townsfolk: None,
        outsider: Some(vec![outsider]),
        minion: Some(vec![minion]),
        demon: Some(vec![demon]),
        fabled: None,
        traveller: None,
    }
}

fn names(prefix: &str, n: usize, category: Type) -> Vec<Character> {
    (0..n).map(|i| plain(&format!("{prefix} {}", (b'a' + i as u8) as char), category)).collect()
}

#[test]
fn search_with_zero_budget_is_exhausted() {
    let pool = names("Town", 8, Type::Townsfolk);
    let refs: Vec<&Character> = pool.iter().collect();
    let mut rng = StdRng::seed_from_u64(7);
    for want in 0..4 {
        assert!(search(&refs, &[], want, &counts(0, 0, 0), &Vec::new(), 0, &mut rng).is_none());
    }
}

#[test]
fn search_finds_a_valid_set() {
    let mut pool = names("Town", 10, Type::Townsfolk);
    pool.extend(names("Out", 3, Type::Outsider));
    pool.extend(names("Min", 4, Type::Minion));
    pool.extend(names("Dem", 2, Type::Demon));
    let refs: Vec<&Character> = pool.iter().collect();
    let base = counts(0, 2, 1);
    let mut rng = StdRng::seed_from_u64(42);
    let (sweeps, ids) = search(&refs, &[], 10, &base, &Vec::new(), 10_000, &mut rng).unwrap();
    assert!(sweeps >= 1);
    assert_eq!(ids.len(), 10);
    let chosen: Vec<&Character> = pool.iter().filter(|c| ids.contains(&c.id())).collect();
    assert_eq!(chosen.len(), 10);
    assert_eq!(validate_list(&chosen, &base), (true, 0));
    let towns = chosen.iter().filter(|c| c.category == Type::Townsfolk).count();
    assert_eq!(towns, 7);
}

#[test]
fn search_keeps_locked_and_follows_extra_slots() {
    let mut pool = names("Town", 10, Type::Townsfolk);
    pool.extend(names("Min", 3, Type::Minion));
    let mut host = plain("Host", Type::Demon);
    host.conditions =
        Some(vec![Condition::ExtraCharacters { extra_characters: ExtraCharacters::Const(1) }]);
    let refs: Vec<&Character> = pool.iter().collect();
    let locked = vec![&host];
    let base = counts(0, 1, 1);
    let mut rng = StdRng::seed_from_u64(3);
    let (_, ids) = search(&refs, &locked, 5, &base, &Vec::new(), 10_000, &mut rng).unwrap();
    // 5 players, one locked, one extra slot: 5 drawn.
    assert_eq!(ids.len(), 5);
    let mut chosen: Vec<&Character> = pool.iter().filter(|c| ids.contains(&c.id())).collect();
    chosen.push(&host);
    assert_eq!(validate_list(&chosen, &base), (true, 1));
}

#[test]
fn search_never_returns_the_previous_draw() {
    let pool = names("Town", 2, Type::Townsfolk);
    let refs: Vec<&Character> = pool.iter().collect();
    let base = counts(0, 0, 0);
    let previous = vec!["townb".to_string(), "towna".to_string()];
    let mut rng = StdRng::seed_from_u64(11);
    assert!(search(&refs, &[], 2, &base, &previous, 50, &mut rng).is_none());

    let pool = names("Town", 3, Type::Townsfolk);
    let refs: Vec<&Character> = pool.iter().collect();
    let previous = vec!["towna".to_string(), "townb".to_string()];
    let (_, ids) = search(&refs, &[], 2, &base, &previous, 10_000, &mut rng).unwrap();
    assert_eq!(ids.len(), 2);
    assert!(!same_ids(&ids, &previous));
}

#[test]
fn search_with_too_small_pool_draws_fewer() {
    let pool = names("Town", 2, Type::Townsfolk);
    let refs: Vec<&Character> = pool.iter().collect();
    let mut rng = StdRng::seed_from_u64(5);
    assert!(search(&refs, &[], 5, &counts(1, 0, 0), &Vec::new(), 20, &mut rng).is_none());
}

#[test]
fn evaluate_draw_joins_locked_and_picks() {
    let pool = names("Town", 4, Type::Townsfolk);
    let refs: Vec<&Character> = pool.iter().collect();
    let demon = plain("Imp", Type::Demon);
    let locked = vec![&demon];
    assert_eq!(evaluate_draw(&refs, &locked, &vec![0, 2], &counts(0, 0, 1)), (true, 0));
    assert_eq!(evaluate_draw(&refs, &[], &vec![1], &counts(0, 0, 1)), (false, 0));
}

#[test]
fn picked_ids_follow_the_picks() {
    let pool = names("Town", 4, Type::Townsfolk);
    let refs: Vec<&Character> = pool.iter().collect();
    assert_eq!(picked_ids(&refs, &vec![3, 0]), vec!["townd".to_string(), "towna".to_string()]);
}

#[test]
fn same_ids_ignores_order() {
    let a = vec!["x".to_string(), "y".to_string()];
    let b = vec!["y".to_string(), "x".to_string(), "x".to_string()];
    let c = vec!["x".to_string()];
    assert!(same_ids(&a, &b));
    assert!(!same_ids(&a, &c));
    assert!(same_ids(&Vec::new(), &Vec::new()));
}

#[test]
fn try_draw_accepts_only_new_valid_fixed_points() {
    let pool = names("Town", 4, Type::Townsfolk);
    let refs: Vec<&Character> = pool.iter().collect();
    let demon = plain("Imp", Type::Demon);
    let locked = vec![&demon];
    let base = counts(0, 0, 1);
    let picks = vec![0, 2];
    let (found, extras) = try_draw(&refs, &locked, &picks, 0, &base, &Vec::new());
    assert_eq!(found, Some(vec!["towna".to_string(), "townc".to_string()]));
    assert_eq!(extras, 0);
    let previous = vec!["townc".to_string(), "towna".to_string()];
    assert_eq!(try_draw(&refs, &locked, &picks, 0, &base, &previous), (None, 0));
    assert_eq!(try_draw(&refs, &locked, &picks, 1, &base, &Vec::new()), (None, 0));
    assert_eq!(try_draw(&refs, &[], &picks, 0, &base, &Vec::new()), (None, 0));
}

#[test]
fn search_succeeds_at_once_when_the_whole_pool_fits() {
    let pool = names("Town", 3, Type::Townsfolk);
    let refs: Vec<&Character> = pool.iter().collect();
    let demon = plain("Imp", Type::Demon);
    let locked = vec![&demon];
    let mut rng = StdRng::seed_from_u64(4);
    let (sweeps, ids) = search(&refs, &locked, 4, &counts(0, 0, 1), &Vec::new(), 1, &mut rng).unwrap();
    assert_eq!(sweeps, 1);
    assert_eq!(ids, vec!["towna".to_string(), "townb".to_string(), "townc".to_string()]);
}
