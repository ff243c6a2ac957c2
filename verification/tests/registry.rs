use chat_registry::pallet::Pallet;
use chat_registry::types::{bytes_eq, ContactByAccountId, Error, ItemByAccountId};

fn nickname_of(text: &[u8]) -> [u8; 21] {
    let mut nick = [0u8; 21];
    nick[..text.len()].copy_from_slice(text);
    nick
}

#[test]
fn register_binds_both_directions() {
    let mut p = Pallet::new();
    let nick = nickname_of(b"alice");
    let addr = [0x01u8; 32];
    assert!(p.register(1, nick, addr).is_ok());
    assert!(p.contains_account_id(1));
    assert_eq!(p.get_address_by_nickname(&nick), Some(1));
    let rec = p.get_address_by_account_id(1);
    assert_eq!(rec.address, addr);
    assert_eq!(rec.nickname, nick);
}

#[test]
fn register_rejects_second_binding_for_same_identity() {
    let mut p = Pallet::new();
    assert!(p.register(1, nickname_of(b"alice"), [0x01u8; 32]).is_ok());
    let r = p.register(1, nickname_of(b"allie"), [0x02u8; 32]);
    assert_eq!(r.unwrap_err(), Error::AccountIdAlreadyRegistered);
}

#[test]
fn register_rejects_taken_nickname() {
    let mut p = Pallet::new();
    let nick = nickname_of(b"alice");
    assert!(p.register(1, nick, [0x01u8; 32]).is_ok());
    let r = p.register(2, nick, [0x02u8; 32]);
    assert_eq!(r.unwrap_err(), Error::NicknameAlreadyRegistered);
}

#[test]
fn identity_check_comes_before_nickname_check() {
    let mut p = Pallet::new();
    let nick = nickname_of(b"alice");
    assert!(p.register(1, nick, [0x01u8; 32]).is_ok());
    // Both rejections apply here; the identity one is reported.
    let r = p.register(1, nick, [0x02u8; 32]);
    assert_eq!(r.unwrap_err(), Error::AccountIdAlreadyRegistered);
}

#[test]
fn failed_register_mutates_nothing() {
    let mut p = Pallet::new();
    let nick = nickname_of(b"alice");
    let addr = [0x01u8; 32];
    assert!(p.register(1, nick, addr).is_ok());

    let other = nickname_of(b"bob");
    assert!(p.register(1, other, [0x09u8; 32]).is_err());
    assert!(p.register(2, nick, [0x09u8; 32]).is_err());

    // The sole binding is exactly what the successful call wrote.
    assert_eq!(p.get_address_by_nickname(&nick), Some(1));
    assert_eq!(p.get_address_by_nickname(&other), None);
    assert!(!p.contains_account_id(2));
    let rec = p.get_address_by_account_id(1);
    assert_eq!(rec.address, addr);
    assert_eq!(rec.nickname, nick);
    assert_eq!(p.events_len(), 0);
}

#[test]
fn rival_registration_rejected_and_binding_stands() {
    // Identity A claims "alice" with address 0x01..; B tries the same
    // nickname with a different address and is turned away.
    let mut p = Pallet::new();
    let nick = nickname_of(b"alice");
    let addr_a = [0x01u8; 32];
    assert!(p.register(10, nick, addr_a).is_ok());

    let r = p.register(11, nick, [0x02u8; 32]);
    assert_eq!(r.unwrap_err(), Error::NicknameAlreadyRegistered);

    assert_eq!(p.get_address_by_nickname(&nick), Some(10));
    let rec = p.get_address_by_account_id(10);
    assert_eq!(rec.address, addr_a);
    assert_eq!(rec.nickname, nick);
    assert!(!p.contains_account_id(11));
}

#[test]
fn unregistered_identity_reads_zero_record() {
    let p = Pallet::new();
    assert!(!p.contains_account_id(5));
    let rec = p.get_address_by_account_id(5);
    assert_eq!(rec.address, [0u8; 32]);
    assert_eq!(rec.nickname, [0u8; 21]);
    assert_eq!(p.get_address_by_nickname(&nickname_of(b"nobody")), None);
}

#[test]
fn default_records_are_all_zero() {
    let item = ItemByAccountId::default();
    assert_eq!(item.address, [0u8; 32]);
    assert_eq!(item.nickname, [0u8; 21]);
    let contact = ContactByAccountId::default();
    assert_eq!(contact.name, [0u8; 1000]);
}

#[test]
fn byte_arrays_compare_by_content() {
    let a = nickname_of(b"alice");
    let b = nickname_of(b"alice");
    let c = nickname_of(b"alicf");
    assert!(bytes_eq(&a, &b));
    assert!(!bytes_eq(&a, &c));
}
