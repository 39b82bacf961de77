use imessage_gateway::contacts::{require_contact, Contact, ContactsManager, GatewayError};

fn contact(name: &str, phone: &str) -> Contact {
    Contact {
        name: name.to_string(),
        phone: phone.to_string(),
        relationship_type: None,
        notes: None,
    }
}

#[test]
fn blank_queries_resolve_to_nothing() {
    // the middle name contains the whitespace-only queries as substrings, so
    // only the blank check keeps them from resolving
    let mgr = ContactsManager::new(vec![
        contact("Alice", "111"),
        contact("a   b", "333"),
        contact("Bob", "222"),
    ]);
    assert!(mgr.resolve("").is_none());
    assert!(mgr.resolve("   ").is_none());
    assert!(mgr.resolve(" ").is_none());
    let empty = ContactsManager::new(vec![]);
    assert!(empty.resolve("").is_none());
    assert!(empty.resolve("alice").is_none());
}

#[test]
fn exact_match_beats_substring_and_order() {
    let mgr = ContactsManager::new(vec![
        contact("Johnny Appleseed", "111"),
        contact("JOHN", "222"),
    ]);
    let r = mgr.resolve("john").unwrap();
    assert_eq!(r.name, "JOHN");
    assert_eq!(r.phone, "222");
}

#[test]
fn substring_stage_takes_first_in_list_order() {
    let mgr = ContactsManager::new(vec![
        contact("Johnny Appleseed", "111"),
        contact("Little John", "222"),
    ]);
    let r = mgr.resolve("ohn").unwrap();
    assert_eq!(r.name, "Johnny Appleseed");
}

#[test]
fn similarity_stage_accepts_close_names() {
    // strsim documents jaro_winkler("cheeseburger", "cheese fries") near 0.866
    let mgr = ContactsManager::new(vec![contact("Cheeseburger", "111")]);
    let r = mgr.resolve("cheese fries").unwrap();
    assert_eq!(r.name, "Cheeseburger");
}

#[test]
fn similarity_stage_rejects_distant_names() {
    let mgr = ContactsManager::new(vec![contact("Cheeseburger", "111")]);
    assert!(mgr.resolve("zzzz").is_none());
}

#[test]
fn phone_suffix_rule_matches_both_directions() {
    let a = ContactsManager::new(vec![contact("Alice", "+1 (555) 123-4567")]);
    assert_eq!(a.get_by_phone("5551234567").unwrap().name, "Alice");
    let b = ContactsManager::new(vec![contact("Bob", "5551234567")]);
    assert_eq!(b.get_by_phone("+1 (555) 123-4567").unwrap().name, "Bob");
}

#[test]
fn empty_normalized_phone_never_matches() {
    let mgr = ContactsManager::new(vec![contact("NoDigits", "call me"), contact("Alice", "111")]);
    assert!(mgr.get_by_phone("").is_none());
    assert!(mgr.get_by_phone("xyz").is_none());
    assert_eq!(mgr.get_by_phone("111").unwrap().name, "Alice");
}

#[test]
fn get_by_phone_returns_first_match() {
    let mgr = ContactsManager::new(vec![contact("First", "555111"), contact("Second", "555111")]);
    assert_eq!(mgr.get_by_phone("555111").unwrap().name, "First");
}

#[test]
fn all_returns_the_whole_list_in_order() {
    let mgr = ContactsManager::new(vec![contact("Alice", "111"), contact("Bob", "222")]);
    let all = mgr.all();
    assert_eq!(all.len(), 2);
    assert_eq!(all[0].name, "Alice");
    assert_eq!(all[1].name, "Bob");
}

#[test]
fn require_contact_reports_not_found_with_the_query() {
    let mgr = ContactsManager::new(vec![contact("Alice", "111")]);
    assert_eq!(require_contact(&mgr, "alice").unwrap().name, "Alice");
    match require_contact(&mgr, "nobody at all") {
        Ok(_) => panic!("expected an error"),
        Err(GatewayError::NotFound { query }) => assert_eq!(query, "nobody at all"),
        Err(_) => panic!("expected the not-found kind"),
    }
}

#[test]
fn case_insensitive_exact_match() {
    let mgr = ContactsManager::new(vec![contact("Alice Wonder", "111")]);
    assert_eq!(mgr.resolve("ALICE WONDER").unwrap().name, "Alice Wonder");
    assert_eq!(mgr.resolve("alice wonder").unwrap().name, "Alice Wonder");
}
