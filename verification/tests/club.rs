use social_schedule::database::{Database, Email};
use social_schedule::schedule::Schedule;

#[test]
fn email_parses_address_with_one_at() {
    let e = Email::parse_string("ann@example.org").unwrap().unwrap();
    assert_eq!(e.to_string(), "ann@example.org");
}

#[test]
fn email_empty_is_none() {
    assert!(matches!(Email::parse_string(""), Ok(None)));
}

#[test]
fn email_rejects_bad_addresses() {
    assert!(Email::parse_string("no-at-sign").is_err());
    assert!(Email::parse_string("@host").is_err());
    assert!(Email::parse_string("user@").is_err());
    assert!(Email::parse_string("a@b@c").is_err());
}

#[test]
fn players_get_first_free_numbers() {
    let mut db = Database::new();
    db.add_player("Ann".to_string(), None);
    db.add_player("Bob".to_string(), None);
    assert!(db.contains_player(0));
    assert!(db.contains_player(1));
    assert_eq!(db.get_player(1).unwrap().name, "Bob");
    assert_eq!(db.get_players().len(), 2);
    db.remove_player(0);
    // one player left: the search starts at 1, which is taken, so 2 is used
    db.add_player("Cid".to_string(), None);
    assert!(db.contains_player(2));
    assert!(!db.contains_player(0));
}

#[test]
fn removing_a_player_takes_it_out_of_groups() {
    let mut db = Database::new();
    db.add_player("Ann".to_string(), None);
    db.add_player("Bob".to_string(), None);
    let g = db.add_group("Tuesday".to_string());
    assert_eq!(g, 0);
    db.add_player_to_group(g, 0);
    db.add_player_to_group(g, 1);
    db.add_player_to_group(g, 7);
    let mut members = db.get_group(g).unwrap().get_players();
    members.sort();
    assert_eq!(members, vec![0, 1]);
    let removed = db.remove_player(1).unwrap();
    assert_eq!(removed.name, "Bob");
    assert_eq!(db.get_group(g).unwrap().get_players(), vec![0]);
    assert!(db.remove_player(1).is_none());
}

#[test]
fn renaming_players_and_groups() {
    let mut db = Database::new();
    db.add_player("Ann".to_string(), None);
    db.change_player_name(0, "Anna".to_string());
    db.change_player_email(0, Email::parse_string("anna@club.org").unwrap());
    let p = db.get_player(0).unwrap();
    assert_eq!(p.name, "Anna");
    assert_eq!(p.email.as_ref().unwrap().to_string(), "anna@club.org");
    let g = db.add_group("A".to_string());
    db.change_group_name(g, "B".to_string());
    assert_eq!(db.get_group(g).unwrap().name, "B");
    assert!(db.remove_group(g).is_some());
    assert!(db.get_group(g).is_none());
    assert_eq!(db.get_groups().len(), 0);
}

#[test]
fn matches_and_events() {
    let mut db = Database::new();
    assert_eq!(db.add_match(vec![3, 4]), 0);
    assert_eq!(db.add_match(vec![5]), 1);
    assert_eq!(db.get_match(1).unwrap().s, vec![5]);
    let schedule = Schedule::new(4, 2);
    db.add_event("Open".to_string(), "2024-01-01".to_string(), schedule, vec![0, 1, 2, 3], 2);
    assert_eq!(db.get_events().len(), 1);
    db.set_matches(0, vec![vec![0, 1]]);
    assert_eq!(db.get_event(0).unwrap().matches, vec![vec![0, 1]]);
    db.remove_event(0);
    assert!(db.get_event(0).is_none());
}
