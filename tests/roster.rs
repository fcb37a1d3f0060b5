use meeting_dice::fold::{identity_key, same_identity};
use meeting_dice::roster::{sole_match_index, Data};

fn roster(names: &[&str]) -> Data {
    let mut d = Data::new();
    d.members = names.iter().map(|n| n.to_string()).collect();
    d
}

fn strings(names: &[&str]) -> Vec<String> {
    names.iter().map(|n| n.to_string()).collect()
}

#[test]
fn identity_key_lowers_case() {
    assert_eq!(identity_key("AnA"), "ana");
    assert_eq!(identity_key(""), "");
}

#[test]
fn same_identity_ignores_case() {
    assert!(same_identity("Ana", "aNA"));
    assert!(!same_identity("Ana", "Ben"));
}

#[test]
fn sole_match_index_finds_single_key() {
    let keys = strings(&["ana", "ben", "cleo"]);
    assert_eq!(sole_match_index(&keys, &"ben".to_string()), Some(1));
    assert_eq!(sole_match_index(&keys, &"dan".to_string()), None);
    let dup = strings(&["ana", "ben", "ana"]);
    assert_eq!(sole_match_index(&dup, &"ana".to_string()), None);
    assert_eq!(sole_match_index(&dup, &"ben".to_string()), Some(1));
}

#[test]
fn find_is_case_insensitive() {
    let d = roster(&["Ana", "Ben", "Cleo"]);
    assert_eq!(d.get_member_id("cleo"), Some(2));
    assert_eq!(d.get_member_id("ANA"), Some(0));
    assert_eq!(d.get_member_id("Dan"), None);
}

#[test]
fn find_reports_ambiguous_as_none() {
    let d = roster(&["Ana", "Ben", "ANA"]);
    assert_eq!(d.get_member_id("ana"), None);
    assert_eq!(d.get_member_id("ben"), Some(1));
}

#[test]
fn find_on_empty_roster() {
    let d = Data::default();
    assert_eq!(d.get_member_id("Ana"), None);
}

#[test]
fn change_last_chair_known_and_unknown() {
    let mut d = roster(&["Ana", "Ben"]);
    assert!(d.change_last_chair("ben").is_ok());
    assert_eq!(d.last_chair.as_deref(), Some("ben"));
    let e = d.change_last_chair("Dan").unwrap_err();
    assert_eq!(e.name, "Dan");
    assert_eq!(d.last_chair.as_deref(), Some("ben"));
}

#[test]
fn change_last_note_taker_known_and_unknown() {
    let mut d = roster(&["Ana", "Ben"]);
    assert!(d.change_last_note_taker("Ana").is_ok());
    assert_eq!(d.last_note_taker.as_deref(), Some("Ana"));
    let e = d.change_last_note_taker("Zed").unwrap_err();
    assert_eq!(e.name, "Zed");
    assert_eq!(d.last_note_taker.as_deref(), Some("Ana"));
}

#[test]
fn add_members_twice_in_one_call() {
    let mut d = Data::new();
    d.add_members(strings(&["Ana", "ana"]));
    assert_eq!(d.members, strings(&["Ana"]));
}

#[test]
fn add_present_name_is_noop() {
    let mut d = roster(&["Ana", "Ben"]);
    d.add_members(strings(&["BEN"]));
    assert_eq!(d.members, strings(&["Ana", "Ben"]));
    d.add_members(strings(&["Cleo"]));
    assert_eq!(d.members, strings(&["Ana", "Ben", "Cleo"]));
}

#[test]
fn remove_last_chair_clears_it() {
    let mut d = roster(&["Ana", "Ben"]);
    d.last_chair = Some("Ana".to_string());
    d.remove_members(strings(&["Ana"]));
    assert_eq!(d.last_chair, None);
    assert_eq!(d.members, strings(&["Ben"]));
    assert_eq!(d.get_member_id("Ana"), None);
}

#[test]
fn remove_clears_role_whatever_the_case() {
    let mut d = roster(&["Ana", "Ben"]);
    d.last_note_taker = Some("ana".to_string());
    d.remove_members(strings(&["ANA"]));
    assert_eq!(d.last_note_taker, None);
}

#[test]
fn remove_other_participant_keeps_roles() {
    let mut d = roster(&["Ana", "Ben", "Cleo"]);
    d.last_chair = Some("Ana".to_string());
    d.last_note_taker = Some("Ben".to_string());
    d.remove_members(strings(&["Cleo", "Dan"]));
    assert_eq!(d.last_chair.as_deref(), Some("Ana"));
    assert_eq!(d.last_note_taker.as_deref(), Some("Ben"));
    assert_eq!(d.members, strings(&["Ana", "Ben"]));
}
