use meeting_dice::engine::{
    answer_of_key, decide, draw, eligible_positions, hidden_ids, parse_answer, previous_holder,
    propose, start_round, Answer, Proposal, Role, RoundError, Step,
};
use meeting_dice::roster::Data;
use meeting_dice::run::{run, Cli};

fn roster(names: &[&str]) -> Data {
    let mut d = Data::new();
    d.members = names.iter().map(|n| n.to_string()).collect();
    d
}

fn strings(names: &[&str]) -> Vec<String> {
    names.iter().map(|n| n.to_string()).collect()
}

fn cli() -> Cli {
    Cli {
        list: false,
        last_chair: None,
        last_note_taker: None,
        add_members: Vec::new(),
        hide_members: Vec::new(),
        remove_members: Vec::new(),
        note_taker: false,
        run: false,
    }
}

#[test]
fn eligible_excludes_hidden_and_previous() {
    assert_eq!(eligible_positions(5, &vec![1, 3], Some(4)), vec![0, 2]);
    assert_eq!(eligible_positions(3, &vec![], None), vec![0, 1, 2]);
    assert_eq!(eligible_positions(0, &vec![], None), Vec::<usize>::new());
}

#[test]
fn previous_holder_ignored_when_hidden() {
    let d = roster(&["Ana", "Ben", "Cleo"]);
    let holder = Some("ben".to_string());
    assert_eq!(previous_holder(&d, &holder, &vec![]), Some(1));
    assert_eq!(previous_holder(&d, &holder, &vec![1]), None);
    assert_eq!(previous_holder(&d, &Some("Dan".to_string()), &vec![]), None);
    assert_eq!(previous_holder(&d, &None, &vec![]), None);
}

#[test]
fn hidden_ids_skip_unknown_names() {
    let d = roster(&["Ana", "Ben", "Cleo"]);
    assert_eq!(hidden_ids(&d, &strings(&["cleo", "Dan", "ANA"])), vec![2, 0]);
}

#[test]
fn chair_never_repeats() {
    let mut d = roster(&["Ana", "Ben", "Cleo"]);
    d.last_chair = Some("Ana".to_string());
    let round = start_round(&d, &vec![], false).ok().unwrap();
    assert_eq!(round.chair_pool, vec![1, 2]);
    assert!(round.note_taker_pool.is_none());
    for _ in 0..200 {
        let p = propose(&round);
        assert!(p.chair == 1 || p.chair == 2);
        assert_eq!(p.note_taker, None);
    }
}

#[test]
fn sole_previous_chair_fails_round() {
    let mut d = roster(&["Ana"]);
    d.last_chair = Some("Ana".to_string());
    let r = start_round(&d, &vec![], false);
    assert!(matches!(r, Err(RoundError::NoEligibleCandidate(Role::Chair))));
    assert_eq!(d.last_chair.as_deref(), Some("Ana"));
}

#[test]
fn empty_roster_fails_round() {
    let d = Data::new();
    assert!(matches!(start_round(&d, &vec![], true), Err(RoundError::EmptyRoster)));
}

#[test]
fn hidden_previous_chair_may_be_drawn_again() {
    let mut d = roster(&["Ana", "Ben"]);
    d.last_chair = Some("Ana".to_string());
    let round = start_round(&d, &vec![0], false).ok().unwrap();
    assert_eq!(round.chair_pool, vec![1]);
    let r = start_round(&d, &vec![1], false);
    assert!(matches!(r, Err(RoundError::NoEligibleCandidate(Role::Chair))));
}

#[test]
fn note_taker_without_candidate_fails_round() {
    let mut d = roster(&["Ana", "Ben"]);
    d.last_note_taker = Some("Ben".to_string());
    let r = start_round(&d, &vec![0], true);
    assert!(matches!(r, Err(RoundError::NoEligibleCandidate(Role::NoteTaker))));
}

#[test]
fn note_taker_is_drawn_when_asked() {
    let mut d = roster(&["Ana", "Ben", "Cleo"]);
    d.last_note_taker = Some("Cleo".to_string());
    let round = start_round(&d, &vec![], true).ok().unwrap();
    assert_eq!(round.note_taker_pool, Some(vec![0, 1]));
    for _ in 0..100 {
        let p = propose(&round);
        let n = p.note_taker.unwrap();
        assert!(n == 0 || n == 1);
    }
}

#[test]
fn draw_stays_in_pool() {
    let pool = vec![4, 7, 9];
    for _ in 0..100 {
        let k = draw(&pool);
        assert!(pool.contains(&k));
    }
}

#[test]
fn answers_ignore_case() {
    assert_eq!(parse_answer("Y"), Answer::Yes);
    assert_eq!(parse_answer("YES"), Answer::Yes);
    assert_eq!(parse_answer("yes"), Answer::Yes);
    assert_eq!(parse_answer("N"), Answer::No);
    assert_eq!(parse_answer("No"), Answer::No);
    assert_eq!(parse_answer("maybe"), Answer::Invalid);
    assert_eq!(parse_answer(""), Answer::Invalid);
    assert_eq!(answer_of_key("YES"), Answer::Invalid);
    assert_eq!(answer_of_key("no"), Answer::No);
}

#[test]
fn decide_commits_only_on_yes() {
    let mut d = roster(&["Ana", "Ben", "Cleo"]);
    d.last_chair = Some("ana".to_string());
    let p = Proposal { chair: 2, note_taker: Some(1) };
    assert_eq!(decide(&mut d, &p, Answer::Invalid), Step::Ask);
    assert_eq!(d.last_chair.as_deref(), Some("ana"));
    assert_eq!(decide(&mut d, &p, Answer::No), Step::Redraw);
    assert_eq!(d.last_chair.as_deref(), Some("ana"));
    assert_eq!(d.last_note_taker, None);
    assert_eq!(decide(&mut d, &p, Answer::Yes), Step::Commit);
    assert_eq!(d.last_chair.as_deref(), Some("Cleo"));
    assert_eq!(d.last_note_taker.as_deref(), Some("Ben"));
}

#[test]
fn decide_without_note_taker_keeps_it() {
    let mut d = roster(&["Ana", "Ben"]);
    d.last_note_taker = Some("Ana".to_string());
    let p = Proposal { chair: 1, note_taker: None };
    assert_eq!(decide(&mut d, &p, Answer::Yes), Step::Commit);
    assert_eq!(d.last_chair.as_deref(), Some("Ben"));
    assert_eq!(d.last_note_taker.as_deref(), Some("Ana"));
}

#[test]
fn run_applies_edits_in_order() {
    let mut d = roster(&["Ana", "Ben"]);
    let mut c = cli();
    c.last_chair = Some("ben".to_string());
    c.add_members = strings(&["Cleo", "ana"]);
    c.remove_members = strings(&["Ben"]);
    c.hide_members = strings(&["cleo", "Zed"]);
    let hidden = run(&c, &mut d).ok().unwrap();
    assert_eq!(d.members, strings(&["Ana", "Cleo"]));
    assert_eq!(d.last_chair, None);
    assert_eq!(hidden, vec![1]);
}

#[test]
fn run_rejects_unknown_override() {
    let mut d = roster(&["Ana"]);
    let mut c = cli();
    c.last_note_taker = Some("Dan".to_string());
    let e = run(&c, &mut d).err().unwrap();
    assert_eq!(e.name, "Dan");
    let mut c = cli();
    c.last_chair = Some("Eve".to_string());
    c.last_note_taker = Some("Dan".to_string());
    assert_eq!(run(&c, &mut d).err().unwrap().name, "Eve");
}
