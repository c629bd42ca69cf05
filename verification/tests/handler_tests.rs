use pathfinder::handlers::{classify_message, HandlerSet, ServerAction};

fn b(s: &str) -> Vec<u8> {
    s.as_bytes().to_vec()
}

#[test]
fn exact_subscription_matches_exactly() {
    let mut h = HandlerSet::new();
    assert!(!h.is_listening(&b("Pathfinding:Calc")));
    h.listen(b("Pathfinding:Calc"));
    assert!(h.is_listening(&b("Pathfinding:Calc")));
    assert!(!h.is_listening(&b("Pathfinding:CalcX")));
    assert!(!h.is_listening(&b("Pathfinding:Cal")));
}

#[test]
fn prefix_subscription_matches_by_prefix() {
    let mut h = HandlerSet::new();
    h.listen(b("*Pathfinding:"));
    assert!(h.is_listening(&b("Pathfinding:Calc")));
    assert!(h.is_listening(&b("Pathfinding:")));
    assert!(!h.is_listening(&b("Other:Calc")));
    assert!(!h.is_listening(&b("Pathfinding")));
}

#[test]
fn unlisten_withdraws_each_kind() {
    let mut h = HandlerSet::new();
    h.listen(b("A"));
    h.listen(b("*B"));
    assert!(h.is_listening(&b("A")));
    assert!(h.is_listening(&b("Bee")));
    h.unlisten(b("A"));
    assert!(!h.is_listening(&b("A")));
    assert!(h.is_listening(&b("Bee")));
    h.unlisten(b("*B"));
    assert!(!h.is_listening(&b("Bee")));
}

#[test]
fn duplicate_listens_are_one_subscription() {
    let mut h = HandlerSet::new();
    h.listen(b("A"));
    h.listen(b("A"));
    h.unlisten(b("A"));
    assert!(!h.is_listening(&b("A")));
}

#[test]
fn an_empty_name_is_an_exact_subscription() {
    let mut h = HandlerSet::new();
    h.listen(b(""));
    assert!(h.is_listening(&b("")));
    assert!(!h.is_listening(&b("x")));
}

#[test]
fn classify_control_names() {
    assert_eq!(classify_message(&"_Heartbeat".to_string()), ServerAction::RespondHeartbeat);
    assert_eq!(classify_message(&"_Listen".to_string()), ServerAction::Listen);
    assert_eq!(classify_message(&"_Unlisten".to_string()), ServerAction::Unlisten);
    assert_eq!(classify_message(&"_Disconnect".to_string()), ServerAction::Disconnect);
    assert_eq!(classify_message(&"Pathfinding:Calc".to_string()), ServerAction::Broadcast);
    assert_eq!(classify_message(&"".to_string()), ServerAction::Broadcast);
}
