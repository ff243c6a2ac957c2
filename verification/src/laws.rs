//! The registry's laws, stated and proved once over the mathematical models
//! that the operations' contracts speak of.

use vstd::prelude::*;
use crate::pallet::Pallet;
use crate::types::{Identity, ItemByAccountId};

verus! {

/// Uniqueness: in a well-formed registry the nickname↔identity binding is 1:1
/// in both directions. At most one identity maps to a given nickname because
/// `by_nickname` is a map; this lemma gives the converse: two nicknames bound
/// to the same identity are the same nickname. Since every operation
/// preserves well-formedness, this holds after any sequence of calls.
pub proof fn lemma_registry_uniqueness(p: Pallet, n1: Seq<u8>, n2: Seq<u8>)
    requires
        p.wf(),
        p.by_nickname().dom().contains(n1),
        p.by_nickname().dom().contains(n2),
        p.by_nickname()[n1] == p.by_nickname()[n2],
    ensures
        n1 == n2,
{
    let bi = p.by_identity();
    assert(bi[p.by_nickname()[n1]].nickname@ == n1);
    assert(bi[p.by_nickname()[n2]].nickname@ == n2);
}

/// Write-once registration: a successful `register` (its contract says both
/// maps gain the new binding by insertion) leaves the identity and the
/// nickname bound. By `register`'s contract, any later `register` by the same
/// identity is then rejected with `AccountIdAlreadyRegistered`, and any later
/// `register` of the same nickname with `NicknameAlreadyRegistered`, whatever
/// the other arguments are.
pub proof fn lemma_register_write_once(
    before: Pallet,
    after: Pallet,
    owner: Identity,
    nickname: Seq<u8>,
    record: ItemByAccountId,
)
    requires
        after.by_nickname() == before.by_nickname().insert(nickname, owner),
        after.by_identity() == before.by_identity().insert(owner, record),
    ensures
        after.by_identity().dom().contains(owner),
        after.by_nickname().dom().contains(nickname),
        after.by_nickname()[nickname] == owner,
        after.by_identity()[owner] == record,
{
}

/// A successful `register` touches no existing binding: every nickname and
/// every identity bound before is bound to the same thing after. Together
/// with write-once this pins the concrete scenario: after a rival's rejected
/// attempt (which changes nothing at all) and even after unrelated successful
/// registrations, an earlier binding stands unchanged.
pub proof fn lemma_register_preserves_existing(
    before: Pallet,
    after: Pallet,
    owner: Identity,
    nickname: Seq<u8>,
    record: ItemByAccountId,
)
    requires
        !before.by_identity().dom().contains(owner),
        !before.by_nickname().dom().contains(nickname),
        after.by_nickname() == before.by_nickname().insert(nickname, owner),
        after.by_identity() == before.by_identity().insert(owner, record),
    ensures
        forall|n: Seq<u8>| #[trigger] before.by_nickname().dom().contains(n)
            ==> after.by_nickname().dom().contains(n)
                && after.by_nickname()[n] == before.by_nickname()[n],
        forall|id: Identity| #[trigger] before.by_identity().dom().contains(id)
            ==> after.by_identity().dom().contains(id)
                && after.by_identity()[id] == before.by_identity()[id],
{
}

/// Idempotent removal: removing a contact key that holds no record leaves the
/// book unchanged, and removing the same key twice in a row is the same as
/// removing it once. `remove_contact`'s contract maps every call to exactly
/// `contacts().remove(key)`, so this transfers to the operation itself.
pub proof fn lemma_remove_contact_idempotent(
    contacts: Map<(Identity, Seq<u8>), Seq<u8>>,
    key: (Identity, Seq<u8>),
)
    ensures
        contacts.remove(key).remove(key) == contacts.remove(key),
        !contacts.dom().contains(key) ==> contacts.remove(key) == contacts,
{
    assert(contacts.remove(key).remove(key) =~= contacts.remove(key));
    if !contacts.dom().contains(key) {
        assert(contacts.remove(key) =~= contacts);
    }
}

/// Upsert overwrite: two upserts at the same key leave exactly one record
/// there, holding the second value; every other key is untouched. With equal
/// values this also gives upsert's idempotence. `upsert_contact`'s contract
/// maps every call to exactly `contacts().insert(key, name)`, so this
/// transfers to the operation itself.
pub proof fn lemma_upsert_overwrite(
    contacts: Map<(Identity, Seq<u8>), Seq<u8>>,
    key: (Identity, Seq<u8>),
    name1: Seq<u8>,
    name2: Seq<u8>,
)
    ensures
        contacts.insert(key, name1).insert(key, name2) == contacts.insert(key, name2),
{
    assert(contacts.insert(key, name1).insert(key, name2) =~= contacts.insert(key, name2));
}

} // verus!
