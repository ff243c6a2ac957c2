use chat_registry::pallet::Pallet;
use chat_registry::types::Event;

fn blob(fill: u8) -> [u8; 1000] {
    [fill; 1000]
}

#[test]
fn upsert_inserts_and_reads_back() {
    let mut p = Pallet::new();
    let addr = blob(1);
    let name = blob(2);
    assert!(p.upsert_contact(1, name, addr).is_ok());
    assert!(p.contains_contact(1, &addr));
    assert_eq!(p.get_contact_by_account_id(1, &addr).name, name);
    // Other owners and other addresses are untouched.
    assert!(!p.contains_contact(2, &addr));
    assert!(!p.contains_contact(1, &blob(3)));
}

#[test]
fn upsert_overwrites_existing_record() {
    let mut p = Pallet::new();
    let addr = blob(1);
    let name1 = blob(2);
    let name2 = blob(3);
    assert!(p.upsert_contact(1, name1, addr).is_ok());
    assert!(p.upsert_contact(1, name2, addr).is_ok());
    assert!(p.contains_contact(1, &addr));
    assert_eq!(p.get_contact_by_account_id(1, &addr).name, name2);
}

#[test]
fn upsert_is_idempotent() {
    let mut p = Pallet::new();
    let addr = blob(1);
    let name = blob(2);
    assert!(p.upsert_contact(1, name, addr).is_ok());
    assert!(p.upsert_contact(1, name, addr).is_ok());
    assert!(p.contains_contact(1, &addr));
    assert_eq!(p.get_contact_by_account_id(1, &addr).name, name);
}

#[test]
fn remove_deletes_record() {
    let mut p = Pallet::new();
    let addr = blob(1);
    assert!(p.upsert_contact(1, blob(2), addr).is_ok());
    assert!(p.remove_contact(1, addr).is_ok());
    assert!(!p.contains_contact(1, &addr));
    assert_eq!(p.get_contact_by_account_id(1, &addr).name, [0u8; 1000]);
}

#[test]
fn remove_of_absent_key_succeeds_and_changes_nothing() {
    let mut p = Pallet::new();
    let addr = blob(1);
    let kept = blob(4);
    assert!(p.upsert_contact(1, blob(5), kept).is_ok());
    assert!(p.remove_contact(1, addr).is_ok());
    assert!(!p.contains_contact(1, &addr));
    assert_eq!(p.get_contact_by_account_id(1, &kept).name, blob(5));
}

#[test]
fn removing_twice_equals_removing_once() {
    let mut p = Pallet::new();
    let addr = blob(1);
    assert!(p.upsert_contact(1, blob(2), addr).is_ok());
    assert!(p.remove_contact(1, addr).is_ok());
    assert!(p.remove_contact(1, addr).is_ok());
    assert!(!p.contains_contact(1, &addr));
}

#[test]
fn offer_chat_emits_exactly_one_offer_event() {
    let mut p = Pallet::new();
    let welcome = [7u8; 300];
    let payload = [8u8; 2048];
    assert!(p.offer_chat(1, welcome, payload, 2).is_ok());
    assert_eq!(p.events_len(), 1);
    match p.event_at(0) {
        Event::Offer { offer, offered_by, offered_to, welcome_msg } => {
            assert_eq!(*offer, payload);
            assert_eq!(*offered_by, 1);
            assert_eq!(*offered_to, 2);
            assert_eq!(*welcome_msg, welcome);
        }
        Event::Answer { .. } => panic!("expected an Offer event"),
    }
    // No store is touched by signaling.
    assert!(!p.contains_account_id(1));
    assert!(!p.contains_contact(1, &blob(0)));
}

#[test]
fn answer_chat_emits_exactly_one_answer_event() {
    let mut p = Pallet::new();
    let payload = [9u8; 2048];
    assert!(p.answer_chat(3, payload, 4).is_ok());
    assert_eq!(p.events_len(), 1);
    match p.event_at(0) {
        Event::Answer { answer, answer_from, answer_to } => {
            assert_eq!(*answer, payload);
            assert_eq!(*answer_from, 3);
            assert_eq!(*answer_to, 4);
        }
        Event::Offer { .. } => panic!("expected an Answer event"),
    }
}

#[test]
fn store_operations_emit_no_events() {
    let mut p = Pallet::new();
    assert!(p.register(1, [1u8; 21], [1u8; 32]).is_ok());
    assert!(p.upsert_contact(1, blob(1), blob(2)).is_ok());
    assert!(p.remove_contact(1, blob(2)).is_ok());
    assert_eq!(p.events_len(), 0);
}

#[test]
fn contact_books_are_independent_per_owner() {
    let mut p = Pallet::new();
    let addr = blob(1);
    assert!(p.upsert_contact(1, blob(2), addr).is_ok());
    assert!(p.upsert_contact(2, blob(3), addr).is_ok());
    assert!(p.remove_contact(1, addr).is_ok());
    assert!(!p.contains_contact(1, &addr));
    assert!(p.contains_contact(2, &addr));
    assert_eq!(p.get_contact_by_account_id(2, &addr).name, blob(3));
}

#[test]
fn events_are_logged_in_call_order() {
    let mut p = Pallet::new();
    assert!(p.offer_chat(1, [0u8; 300], [1u8; 2048], 2).is_ok());
    assert!(p.answer_chat(2, [2u8; 2048], 1).is_ok());
    assert_eq!(p.events_len(), 2);
    assert!(matches!(p.event_at(0), Event::Offer { .. }));
    assert!(matches!(p.event_at(1), Event::Answer { .. }));
}
