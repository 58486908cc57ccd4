use botc_randomizer::character::{Character, Type};
use botc_randomizer::condition::{Condition, ExtraCharacters};
use botc_randomizer::data::{script_from_entries, IncludedData, Script, ScriptEntry, UserData};
use botc_randomizer::state::{group_characters_by_type, Selected, State};
use rand::rngs::StdRng;
use rand::SeedableRng;

fn plain(name: &str, category: Type) -> Character {
    Character {
        name: name.to_string(),
        description: String::new(),
        category,
        icon: None,
        conditions: None,
    }
}

fn names(prefix: &str, n: usize, category: Type) -> Vec<Character> {
    (0..n).map(|i| plain(&format!("{prefix} {}", (b'a' + i as u8) as char), category)).collect()
}

fn catalog() -> Vec<Character> {
    let mut v = names("Town", 10, Type::Townsfolk);
    v.extend(names("Out", 3, Type::Outsider));
    v.extend(names("Min", 4, Type::Minion));
    v.extend(names("Dem", 2, Type::Demon));
    v
}

fn state_with(characters: Vec<Character>, script_ids: Vec<String>) -> State {
    State {
        script: "Base".to_string(),
        selected: Vec::new(),
        player_count: 10,
        type_counts_locked: true,
        outsider_count: 0,
        minion_count: 2,
        demon_count: 1,
        included_data: IncludedData {
            characters,
            scripts: vec![Script { name: "Base".to_string(), characters: script_ids }],
        },
        user_data: UserData::default(),
        expanded_script_menu: false,
        script_rename_input: String::new(),
        script_input: String::new(),
    }
}

fn base_state() -> State {
    let cs = catalog();
    let ids = cs.iter().map(|c| c.id()).collect();
    state_with(cs, ids)
}

fn select(state: &mut State, id: &str, locked: bool) {
    state.selected.push((id.to_string(), Selected { locked }));
}

#[test]
fn townsfolk_count_saturates() {
    let mut s = base_state();
    assert_eq!(s.townsfolk_count(), 7);
    s.player_count = 3;
    s.outsider_count = 2;
    s.minion_count = 2;
    assert_eq!(s.townsfolk_count(), 0);
}

#[test]
fn default_counts_follow_player_count() {
    let mut s = base_state();
    let expected = [(5, 0, 1), (6, 1, 1), (7, 0, 1), (8, 1, 1), (9, 2, 1), (10, 0, 2), (13, 0, 3), (15, 2, 3)];
    for (players, outsiders, minions) in expected {
        s.set_player_count(players);
        assert_eq!((s.outsider_count, s.minion_count, s.demon_count), (outsiders, minions, 1));
    }
    s.set_player_count(4);
    assert_eq!((s.outsider_count, s.minion_count, s.demon_count), (2, 3, 1));
    s.set_type_counts_locked(false);
    s.outsider_count = 4;
    s.set_player_count(7);
    assert_eq!((s.outsider_count, s.minion_count), (4, 3));
    s.set_type_counts_locked(true);
    assert_eq!((s.outsider_count, s.minion_count), (0, 1));
}

#[test]
fn valid_list_needs_rules_and_size() {
    let mut s = base_state();
    for id in ["towna", "townb", "townc", "townd", "towne", "townf", "towng", "mina", "minb", "dema"] {
        select(&mut s, id, false);
    }
    assert!(s.is_valid_character_list());
    select(&mut s, "townh", false);
    assert!(!s.is_valid_character_list());
    s.selected.pop();
    s.selected.pop();
    select(&mut s, "outa", false);
    assert!(!s.is_valid_character_list());
}

#[test]
fn constant_extra_slot_needs_eleven() {
    let mut cs = catalog();
    let mut guest = plain("Guest", Type::Townsfolk);
    guest.conditions =
        Some(vec![Condition::ExtraCharacters { extra_characters: ExtraCharacters::Const(1) }]);
    cs.push(guest);
    let ids = cs.iter().map(|c| c.id()).collect();
    let mut s = state_with(cs, ids);
    for id in ["guest", "towna", "townb", "townc", "townd", "towne", "townf", "mina", "minb", "dema"] {
        select(&mut s, id, false);
    }
    assert!(!s.is_valid_character_list());
    select(&mut s, "towng", false);
    assert!(s.is_valid_character_list());
    select(&mut s, "townh", false);
    assert!(!s.is_valid_character_list());
}

#[test]
fn unknown_ids_are_dropped() {
    let mut s = base_state();
    s.included_data.scripts[0].characters = vec!["towna".to_string(), "nobody".to_string(), "dema".to_string()];
    let chars: Vec<String> = s.script_characters().iter().map(|c| c.id()).collect();
    assert_eq!(chars, vec!["towna".to_string(), "dema".to_string()]);
    select(&mut s, "nobody", true);
    select(&mut s, "minb", true);
    let chosen: Vec<String> = s.selected_characters().iter().map(|c| c.id()).collect();
    assert_eq!(chosen, vec!["minb".to_string()]);
    assert!(s.get_character(&"nobody".to_string()).is_none());
    assert_eq!(s.get_character(&"outc".to_string()).unwrap().name, "Out c");
}

#[test]
fn scripts_resolve_against_catalog() {
    let mut s = base_state();
    s.user_data.scripts.push(Script {
        name: "Mine".to_string(),
        characters: vec!["dema".to_string(), "ghost".to_string()],
    });
    let scripts = s.scripts();
    assert_eq!(scripts.len(), 2);
    assert_eq!(scripts[1].name, "Mine");
    assert_eq!(scripts[1].characters, vec!["dema".to_string()]);
    assert!(s.get_current_script().is_some());
    s.set_script("Missing".to_string());
    assert!(s.get_current_script().is_none());
    assert!(s.script_characters().is_empty());
}

#[test]
fn import_gives_unique_names() {
    let mut s = base_state();
    s.import_script(Script { name: "Base".to_string(), characters: vec!["towna".to_string()] });
    s.import_script(Script { name: "Base".to_string(), characters: Vec::new() });
    s.import_script(Script { name: "Other".to_string(), characters: Vec::new() });
    let names: Vec<&str> = s.user_data.scripts.iter().map(|x| x.name.as_str()).collect();
    assert_eq!(names, vec!["Base (1)", "Base (2)", "Other"]);
    assert_eq!(s.user_data.scripts[0].characters, vec!["towna".to_string()]);
}

#[test]
fn script_from_export_entries() {
    let entries = vec![
        ScriptEntry::Object { id: Some("_meta".to_string()), name: Some("Night Fall".to_string()) },
        ScriptEntry::Object { id: Some("fortune_teller".to_string()), name: None },
        ScriptEntry::Id("scarlet-woman".to_string()),
        ScriptEntry::Object { id: Some("".to_string()), name: None },
        ScriptEntry::Object { id: Some("_hidden".to_string()), name: None },
        ScriptEntry::Other,
        ScriptEntry::Object { id: Some("imp".to_string()), name: Some("Imp".to_string()) },
    ];
    let script = script_from_entries(&entries);
    assert_eq!(script.name, "Night Fall");
    assert_eq!(
        script.characters,
        vec!["fortuneteller".to_string(), "imp".to_string(), "scarletwoman".to_string()]
    );
}

#[test]
fn script_from_export_without_name() {
    let entries = vec![
        ScriptEntry::Object { id: Some("_meta".to_string()), name: Some(String::new()) },
        ScriptEntry::Object { id: Some("_meta".to_string()), name: Some("Late".to_string()) },
    ];
    assert_eq!(script_from_entries(&entries).name, "My Script");
    assert_eq!(script_from_entries(&Vec::new()).name, "My Script");
    assert!(script_from_entries(&Vec::new()).characters.is_empty());
}

#[test]
fn toggling_selection_and_locks() {
    let mut s = base_state();
    s.toggle("towna".to_string());
    s.toggle("dema".to_string());
    s.toggle("mina".to_string());
    let ids: Vec<&str> = s.selected.iter().map(|(id, _)| id.as_str()).collect();
    assert_eq!(ids, vec!["dema", "mina", "towna"]);
    assert!(s.selected.iter().all(|(_, sel)| sel.locked));
    s.toggle_lock(&"towna".to_string());
    assert!(!s.selected[2].1.locked);
    assert!(s.selected[0].1.locked);
    s.toggle("mina".to_string());
    s.toggle("towna".to_string());
    assert_eq!(s.selected, vec![("dema".to_string(), Selected { locked: true })]);
    s.set_lock_for_all(false);
    assert!(!s.selected[0].1.locked);
    s.set_script("Base".to_string());
    assert!(s.selected.is_empty());
    assert!(!Selected::default().locked);
}

#[test]
fn deleting_user_script_returns_to_default() {
    let mut s = base_state();
    s.user_data.scripts.push(Script { name: "Mine".to_string(), characters: Vec::new() });
    s.user_data.scripts.push(Script { name: "Keep".to_string(), characters: Vec::new() });
    s.script = "Mine".to_string();
    s.expanded_script_menu = true;
    s.delete_script();
    assert_eq!(s.user_data.scripts.len(), 1);
    assert_eq!(s.user_data.scripts[0].name, "Keep");
    assert_eq!(s.script, "Trouble Brewing");
    assert!(!s.expanded_script_menu);
}

#[test]
fn randomize_keeps_locked_and_yields_valid_list() {
    let mut s = base_state();
    select(&mut s, "dema", true);
    select(&mut s, "towna", false);
    let mut rng = StdRng::seed_from_u64(9);
    let sweeps = s.randomize_unlocked(&mut rng);
    assert!(sweeps.is_some());
    assert_eq!(s.selected[0], ("dema".to_string(), Selected { locked: true }));
    assert_eq!(s.selected.len(), 10);
    assert!(s.selected[1..].iter().all(|(_, sel)| !sel.locked));
    assert!(s.is_valid_character_list());
    let ids: Vec<&String> = s.selected.iter().map(|(id, _)| id).collect();
    let mut sorted = ids.clone();
    sorted.sort();
    sorted.dedup();
    assert_eq!(ids, sorted);
    let chosen: Vec<String> = s.selected_characters().iter().map(|c| c.id()).collect();
    assert_eq!(chosen.iter().collect::<Vec<_>>(), sorted);
    let before: Vec<String> = s.selected[1..].iter().map(|(id, _)| id.clone()).collect();
    s.randomize_unlocked(&mut rng).unwrap();
    let after: Vec<String> = s.selected[1..].iter().map(|(id, _)| id.clone()).collect();
    let mut b = before.clone();
    b.sort();
    let mut a = after.clone();
    a.sort();
    assert_ne!(a, b);
}

#[test]
fn randomize_failure_keeps_only_locked() {
    let mut s = base_state();
    s.included_data.scripts[0].characters = vec!["towna".to_string()];
    select(&mut s, "towna", false);
    select(&mut s, "mina", true);
    let mut rng = StdRng::seed_from_u64(1);
    assert!(s.randomize_unlocked(&mut rng).is_none());
    assert_eq!(s.selected, vec![("mina".to_string(), Selected { locked: true })]);
}

#[test]
fn groups_by_category_in_display_order() {
    let cs = vec![
        plain("Imp", Type::Demon),
        plain("Empath", Type::Townsfolk),
        plain("Baron", Type::Minion),
        plain("Chef", Type::Townsfolk),
        plain("Chambermaid", Type::Townsfolk),
    ];
    let refs: Vec<&Character> = cs.iter().collect();
    let groups = group_characters_by_type(&refs);
    let shape: Vec<(Type, Vec<&str>)> =
        groups.iter().map(|(t, g)| (*t, g.iter().map(|c| c.name.as_str()).collect())).collect();
    assert_eq!(
        shape,
        vec![
            (Type::Townsfolk, vec!["Chambermaid", "Chef", "Empath"]),
            (Type::Minion, vec!["Baron"]),
            (Type::Demon, vec!["Imp"]),
        ]
    );
    assert!(group_characters_by_type(&Vec::new()).is_empty());
}

#[test]
fn randomize_takes_whole_pool_in_one_sweep() {
    let mut cs = names("Town", 3, Type::Townsfolk);
    cs.extend(names("Dem", 1, Type::Demon));
    let ids = cs.iter().map(|c| c.id()).collect();
    let mut s = state_with(cs, ids);
    s.player_count = 4;
    s.minion_count = 0;
    select(&mut s, "dema", true);
    let mut rng = StdRng::seed_from_u64(2);
    assert_eq!(s.randomize_unlocked(&mut rng), Some(1));
    let ids: Vec<&str> = s.selected.iter().map(|(id, _)| id.as_str()).collect();
    assert_eq!(ids, vec!["dema", "towna", "townb", "townc"]);
}

#[test]
fn import_numbers_past_nine() {
    let mut s = base_state();
    for _ in 0..12 {
        s.import_script(Script { name: "Base".to_string(), characters: Vec::new() });
    }
    assert_eq!(s.user_data.scripts[9].name, "Base (10)");
    assert_eq!(s.user_data.scripts[11].name, "Base (12)");
}
