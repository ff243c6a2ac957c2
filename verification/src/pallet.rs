//! The registry itself: three keyed stores and an event log behind one value.
//!
//! `Pallet` owns an identity↔nickname registry (two coupled maps, write-once),
//! a per-owner contact book keyed by peer address (upsert/remove, no
//! constraints beyond the composite key), and a log of emitted signaling
//! events. The caller identity is supplied pre-authenticated by the
//! surrounding dispatcher; calls are assumed serialized, so each operation
//! runs against a consistent snapshot of all stores.

use vstd::prelude::*;
use crate::assoc::{assoc_map, distinct_keys, has_key, lemma_assoc_map_dom, lemma_assoc_map_get,
    lemma_assoc_map_push, lemma_assoc_map_remove, lemma_distinct_keys_push};
use crate::types::{Address, AnswerPayload, ContactByAccountId, EncodedContactAddr,
    EncodedContactName, Error, Event, Identity, ItemByAccountId, Nickname, OfferPayload,
    WelcomeMsg, bytes_eq};

verus! {

/// The two registry maps agree: every nickname binding points at an identity
/// whose stored record carries that nickname, and every registered identity's
/// nickname points back at it. This is what makes the binding 1:1 in both
/// directions.
pub open spec fn registry_consistent(
    bn: Map<Seq<u8>, Identity>,
    bi: Map<Identity, ItemByAccountId>,
) -> bool {
    &&& forall|n: Seq<u8>| #[trigger] bn.dom().contains(n)
        ==> bi.dom().contains(bn[n]) && bi[bn[n]].nickname@ == n
    &&& forall|id: Identity| #[trigger] bi.dom().contains(id)
        ==> bn.dom().contains(bi[id].nickname@) && bn[bi[id].nickname@] == id
}

/// The directory and signaling registry: nickname→identity and
/// identity→record maps (coupled, write-once), the contact book, and the log
/// of emitted events.
pub struct Pallet {
    nickname_entries: Vec<(Nickname, Identity)>,
    identity_entries: Vec<(Identity, ItemByAccountId)>,
    contact_entries: Vec<((Identity, EncodedContactAddr), ContactByAccountId)>,
    event_log: Vec<Event>,
}

impl Pallet {
    /// The nickname store's entries, keyed by nickname bytes.
    pub closed spec fn nickname_seq(self) -> Seq<(Seq<u8>, Identity)> {
        Seq::new(
            self.nickname_entries@.len(),
            |i: int| (self.nickname_entries@[i].0@, self.nickname_entries@[i].1),
        )
    }

    /// The identity store's entries, keyed by identity.
    pub closed spec fn identity_seq(self) -> Seq<(Identity, ItemByAccountId)> {
        self.identity_entries@
    }

    /// The contact book's entries, keyed by (owner, peer-address bytes),
    /// valued by the stored name bytes.
    pub closed spec fn contact_seq(self) -> Seq<((Identity, Seq<u8>), Seq<u8>)> {
        Seq::new(
            self.contact_entries@.len(),
            |i: int| (
                (self.contact_entries@[i].0.0, self.contact_entries@[i].0.1@),
                self.contact_entries@[i].1.name@,
            ),
        )
    }

    /// The nickname→identity map.
    pub open spec fn by_nickname(self) -> Map<Seq<u8>, Identity> {
        assoc_map(self.nickname_seq())
    }

    /// The identity→record map.
    pub open spec fn by_identity(self) -> Map<Identity, ItemByAccountId> {
        assoc_map(self.identity_seq())
    }

    /// The contact book as a map from (owner, peer-address bytes) to stored
    /// name bytes.
    pub open spec fn contacts(self) -> Map<(Identity, Seq<u8>), Seq<u8>> {
        assoc_map(self.contact_seq())
    }

    /// The events emitted so far, oldest first.
    pub closed spec fn events(self) -> Seq<Event> {
        self.event_log@
    }

    /// Each store holds at most one entry per key.
    pub closed spec fn stores_distinct(self) -> bool {
        &&& distinct_keys(self.nickname_seq())
        &&& distinct_keys(self.identity_seq())
        &&& distinct_keys(self.contact_seq())
    }

    /// Well-formedness: distinct keys in every store, and the two registry
    /// maps consistent with each other. Established by [`Pallet::new`] and
    /// preserved by every operation.
    pub open spec fn wf(self) -> bool {
        &&& self.stores_distinct()
        &&& registry_consistent(self.by_nickname(), self.by_identity())
    }

    /// An empty registry: no bindings, no contacts, no events.
    pub fn new() -> (p: Pallet)
        ensures
            p.wf(),
            p.by_nickname() == Map::<Seq<u8>, Identity>::empty(),
            p.by_identity() == Map::<Identity, ItemByAccountId>::empty(),
            p.contacts() == Map::<(Identity, Seq<u8>), Seq<u8>>::empty(),
            p.events() == Seq::<Event>::empty(),
    {
        let p = Pallet {
            nickname_entries: Vec::new(),
            identity_entries: Vec::new(),
            contact_entries: Vec::new(),
            event_log: Vec::new(),
        };
        proof {
            assert(p.nickname_seq() =~= Seq::<(Seq<u8>, Identity)>::empty());
            assert(p.contact_seq() =~= Seq::<((Identity, Seq<u8>), Seq<u8>)>::empty());
            assert(p.events() =~= Seq::<Event>::empty());
        }
        p
    }

    /// Index of the entry for `nickname`, if the nickname store has one.
    fn nickname_index(&self, nickname: &Nickname) -> (r: Option<usize>)
        ensures
            match r {
                Some(i) => 0 <= i < self.nickname_seq().len()
                    && self.nickname_seq()[i as int].0 == nickname@,
                None => !has_key(self.nickname_seq(), nickname@),
            },
    {
        let n = self.nickname_entries.len();
        let mut i: usize = 0;
        while i < n
            invariant
                n == self.nickname_entries@.len(),
                0 <= i <= n,
                forall|j: int| 0 <= j < i ==> (#[trigger] self.nickname_seq()[j]).0 != nickname@,
            decreases n - i,
        {
            if bytes_eq(&self.nickname_entries[i].0, nickname) {
                return Some(i);
            }
            i += 1;
        }
        None
    }

    /// Index of the entry for `owner`, if the identity store has one.
    fn identity_index(&self, owner: Identity) -> (r: Option<usize>)
        ensures
            match r {
                Some(i) => 0 <= i < self.identity_seq().len()
                    && self.identity_seq()[i as int].0 == owner,
                None => !has_key(self.identity_seq(), owner),
            },
    {
        let n = self.identity_entries.len();
        let mut i: usize = 0;
        while i < n
            invariant
                n == self.identity_entries@.len(),
                0 <= i <= n,
                forall|j: int| 0 <= j < i ==> (#[trigger] self.identity_seq()[j]).0 != owner,
            decreases n - i,
        {
            if self.identity_entries[i].0 == owner {
                return Some(i);
            }
            i += 1;
        }
        None
    }

    /// Index of the entry for `(owner, contact_addr)`, if the contact book
    /// has one.
    fn contact_index(&self, owner: Identity, contact_addr: &EncodedContactAddr) -> (r: Option<
        usize,
    >)
        ensures
            match r {
                Some(i) => 0 <= i < self.contact_seq().len()
                    && self.contact_seq()[i as int].0 == (owner, contact_addr@),
                None => !has_key(self.contact_seq(), (owner, contact_addr@)),
            },
    {
        let n = self.contact_entries.len();
        let mut i: usize = 0;
        while i < n
            invariant
                n == self.contact_entries@.len(),
                0 <= i <= n,
                forall|j: int| 0 <= j < i
                    ==> (#[trigger] self.contact_seq()[j]).0 != (owner, contact_addr@),
            decreases n - i,
        {
            if self.contact_entries[i].0.0 == owner && bytes_eq(
                &self.contact_entries[i].0.1,
                contact_addr,
            ) {
                return Some(i);
            }
            i += 1;
        }
        None
    }

    /// Claim `nickname` for `owner` and store its record, write-once in both
    /// directions.
    ///
    /// Rejects with `AccountIdAlreadyRegistered` if `owner` already has a
    /// record (checked first), with `NicknameAlreadyRegistered` if the
    /// nickname is already bound; a rejection leaves every store untouched.
    /// On success both registry maps gain exactly the new binding, as one
    /// atomic unit; the contact book and the event log never change.
    pub fn register(&mut self, owner: Identity, nickname: Nickname, address: Address) -> (r:
        Result<(), Error>)
        requires
            old(self).wf(),
        ensures
            final(self).wf(),
            final(self).contacts() == old(self).contacts(),
            final(self).events() == old(self).events(),
            old(self).by_identity().dom().contains(owner)
                ==> r == Err::<(), Error>(Error::AccountIdAlreadyRegistered)
                    && *final(self) == *old(self),
            !old(self).by_identity().dom().contains(owner)
                && old(self).by_nickname().dom().contains(nickname@)
                ==> r == Err::<(), Error>(Error::NicknameAlreadyRegistered)
                    && *final(self) == *old(self),
            !old(self).by_identity().dom().contains(owner)
                && !old(self).by_nickname().dom().contains(nickname@) ==> {
                &&& r == Ok::<(), Error>(())
                &&& final(self).by_nickname() == old(self).by_nickname().insert(
                    nickname@,
                    owner,
                )
                &&& final(self).by_identity() == old(self).by_identity().insert(
                    owner,
                    (ItemByAccountId { address, nickname }),
                )
            },
    {
        proof {
            lemma_assoc_map_dom(self.identity_seq());
            lemma_assoc_map_dom(self.nickname_seq());
        }
        if self.identity_index(owner).is_some() {
            return Err(Error::AccountIdAlreadyRegistered);
        }
        if self.nickname_index(&nickname).is_some() {
            return Err(Error::NicknameAlreadyRegistered);
        }
        let record = ItemByAccountId { address, nickname };
        self.nickname_entries.push((nickname, owner));
        self.identity_entries.push((owner, record));
        proof {
            let bn = old(self).by_nickname();
            let bi = old(self).by_identity();
            assert(self.nickname_seq() =~= old(self).nickname_seq().push((nickname@, owner)));
            assert(self.identity_seq() == old(self).identity_seq().push((owner, record)));
            assert(self.contact_seq() =~= old(self).contact_seq());
            lemma_assoc_map_push(old(self).nickname_seq(), nickname@, owner);
            lemma_assoc_map_push(old(self).identity_seq(), owner, record);
            lemma_distinct_keys_push(old(self).nickname_seq(), nickname@, owner);
            lemma_distinct_keys_push(old(self).identity_seq(), owner, record);
            let bn2 = bn.insert(nickname@, owner);
            let bi2 = bi.insert(owner, record);
            assert forall|n: Seq<u8>| #[trigger] bn2.dom().contains(n) implies
                bi2.dom().contains(bn2[n]) && bi2[bn2[n]].nickname@ == n by {
                if n == nickname@ {
                    assert(bn2[n] == owner);
                    assert(bi2[owner] == record);
                } else {
                    assert(bn.dom().contains(n));
                    assert(bi.dom().contains(bn[n]) && bi[bn[n]].nickname@ == n);
                    assert(bn[n] != owner);
                }
            }
            assert forall|id: Identity| #[trigger] bi2.dom().contains(id) implies
                bn2.dom().contains(bi2[id].nickname@) && bn2[bi2[id].nickname@] == id by {
                if id == owner {
                    assert(bi2[id] == record);
                } else {
                    assert(bi.dom().contains(id));
                    assert(bn.dom().contains(bi[id].nickname@) && bn[bi[id].nickname@] == id);
                    assert(bi[id].nickname@ != nickname@);
                }
            }
        }
        Ok(())
    }

    /// Insert or overwrite the contact record at `(who, contact_addr)`.
    /// Always succeeds; no other store and no event changes. Repeating the
    /// same call leaves the same state.
    pub fn upsert_contact(
        &mut self,
        who: Identity,
        contact_name: EncodedContactName,
        contact_addr: EncodedContactAddr,
    ) -> (r: Result<(), ()>)
        requires
            old(self).wf(),
        ensures
            final(self).wf(),
            r == Ok::<(), ()>(()),
            final(self).contacts() == old(self).contacts().insert(
                (who, contact_addr@),
                contact_name@,
            ),
            final(self).by_nickname() == old(self).by_nickname(),
            final(self).by_identity() == old(self).by_identity(),
            final(self).events() == old(self).events(),
    {
        let ghost k = (who, contact_addr@);
        match self.contact_index(who, &contact_addr) {
            Some(i) => {
                let _ = self.contact_entries.remove(i);
                proof {
                    assert(self.contact_seq() =~= old(self).contact_seq().remove(i as int));
                    lemma_assoc_map_remove(old(self).contact_seq(), i as int);
                    lemma_assoc_map_dom(self.contact_seq());
                }
            },
            None => {},
        }
        let ghost mid = *self;
        proof {
            assert(!has_key(mid.contact_seq(), k)) by {
                lemma_assoc_map_dom(mid.contact_seq());
            }
        }
        self.contact_entries.push(((who, contact_addr), ContactByAccountId { name: contact_name }));
        proof {
            assert(self.contact_seq() =~= mid.contact_seq().push((k, contact_name@)));
            lemma_assoc_map_push(mid.contact_seq(), k, contact_name@);
            lemma_distinct_keys_push(mid.contact_seq(), k, contact_name@);
            assert(self.contacts() =~= old(self).contacts().insert(k, contact_name@));
            assert(self.nickname_seq() =~= old(self).nickname_seq());
            assert(self.identity_seq() == old(self).identity_seq());
        }
        Ok(())
    }

    /// Delete the contact record at `(who, contact_addr)` if present.
    /// Deleting an absent key is a no-op and still succeeds; no other store
    /// and no event changes.
    pub fn remove_contact(&mut self, who: Identity, contact_addr: EncodedContactAddr) -> (r:
        Result<(), ()>)
        requires
            old(self).wf(),
        ensures
            final(self).wf(),
            r == Ok::<(), ()>(()),
            final(self).contacts() == old(self).contacts().remove((who, contact_addr@)),
            final(self).by_nickname() == old(self).by_nickname(),
            final(self).by_identity() == old(self).by_identity(),
            final(self).events() == old(self).events(),
    {
        let ghost k = (who, contact_addr@);
        match self.contact_index(who, &contact_addr) {
            Some(i) => {
                let _ = self.contact_entries.remove(i);
                proof {
                    assert(self.contact_seq() =~= old(self).contact_seq().remove(i as int));
                    lemma_assoc_map_remove(old(self).contact_seq(), i as int);
                    assert(self.nickname_seq() =~= old(self).nickname_seq());
                    assert(self.identity_seq() == old(self).identity_seq());
                }
            },
            None => {
                proof {
                    lemma_assoc_map_dom(self.contact_seq());
                    assert(self.contacts() =~= self.contacts().remove(k));
                }
            },
        }
        Ok(())
    }

    /// Emit exactly one `Offer` event carrying the given payloads, addressed
    /// from `who` to `to`. Always succeeds; no store changes.
    pub fn offer_chat(
        &mut self,
        who: Identity,
        welcome_msg: WelcomeMsg,
        offer: OfferPayload,
        to: Identity,
    ) -> (r: Result<(), Error>)
        requires
            old(self).wf(),
        ensures
            final(self).wf(),
            r == Ok::<(), Error>(()),
            final(self).events() == old(self).events().push(
                (Event::Offer { offer, offered_by: who, offered_to: to, welcome_msg }),
            ),
            final(self).by_nickname() == old(self).by_nickname(),
            final(self).by_identity() == old(self).by_identity(),
            final(self).contacts() == old(self).contacts(),
    {
        self.event_log.push(Event::Offer { offer, offered_by: who, offered_to: to, welcome_msg });
        proof {
            assert(self.nickname_seq() =~= old(self).nickname_seq());
            assert(self.identity_seq() == old(self).identity_seq());
            assert(self.contact_seq() =~= old(self).contact_seq());
        }
        Ok(())
    }

    /// Emit exactly one `Answer` event carrying the given payload, addressed
    /// from `who` to `to`. Always succeeds; no store changes.
    pub fn answer_chat(&mut self, who: Identity, answer: AnswerPayload, to: Identity) -> (r: Result<
        (),
        Error,
    >)
        requires
            old(self).wf(),
        ensures
            final(self).wf(),
            r == Ok::<(), Error>(()),
            final(self).events() == old(self).events().push(
                (Event::Answer { answer, answer_from: who, answer_to: to }),
            ),
            final(self).by_nickname() == old(self).by_nickname(),
            final(self).by_identity() == old(self).by_identity(),
            final(self).contacts() == old(self).contacts(),
    {
        self.event_log.push(Event::Answer { answer, answer_from: who, answer_to: to });
        proof {
            assert(self.nickname_seq() =~= old(self).nickname_seq());
            assert(self.identity_seq() == old(self).identity_seq());
            assert(self.contact_seq() =~= old(self).contact_seq());
        }
        Ok(())
    }

    /// Whether `owner` has a registered record: the explicit existence check
    /// beside the value-query read below.
    pub fn contains_account_id(&self, owner: Identity) -> (r: bool)
        ensures
            r <==> self.by_identity().dom().contains(owner),
    {
        proof {
            lemma_assoc_map_dom(self.identity_seq());
        }
        self.identity_index(owner).is_some()
    }

    /// The record registered for `owner`; a value-query read: an identity
    /// that was never registered yields the all-zero default record.
    pub fn get_address_by_account_id(&self, owner: Identity) -> (r: ItemByAccountId)
        requires
            self.wf(),
        ensures
            self.by_identity().dom().contains(owner) ==> r == self.by_identity()[owner],
            !self.by_identity().dom().contains(owner) ==> r.is_zero(),
    {
        proof {
            lemma_assoc_map_dom(self.identity_seq());
        }
        match self.identity_index(owner) {
            Some(i) => {
                proof {
                    lemma_assoc_map_get(self.identity_seq(), i as int);
                }
                self.identity_entries[i].1
            },
            None => ItemByAccountId::default(),
        }
    }

    /// The identity that owns `nickname`, if any; an option-query read.
    pub fn get_address_by_nickname(&self, nickname: &Nickname) -> (r: Option<Identity>)
        requires
            self.wf(),
        ensures
            self.by_nickname().dom().contains(nickname@)
                ==> r == Some(self.by_nickname()[nickname@]),
            !self.by_nickname().dom().contains(nickname@) ==> r is None,
    {
        proof {
            lemma_assoc_map_dom(self.nickname_seq());
        }
        match self.nickname_index(nickname) {
            Some(i) => {
                proof {
                    lemma_assoc_map_get(self.nickname_seq(), i as int);
                }
                Some(self.nickname_entries[i].1)
            },
            None => None,
        }
    }

    /// Whether the contact book holds a record at `(owner, contact_addr)`:
    /// the explicit existence check beside the value-query read below.
    pub fn contains_contact(&self, owner: Identity, contact_addr: &EncodedContactAddr) -> (r: bool)
        ensures
            r <==> self.contacts().dom().contains((owner, contact_addr@)),
    {
        proof {
            lemma_assoc_map_dom(self.contact_seq());
        }
        self.contact_index(owner, contact_addr).is_some()
    }

    /// The contact record at `(owner, contact_addr)`; a value-query read: an
    /// absent key yields the all-zero default record.
    pub fn get_contact_by_account_id(&self, owner: Identity, contact_addr: &EncodedContactAddr)
        -> (r: ContactByAccountId)
        requires
            self.wf(),
        ensures
            self.contacts().dom().contains((owner, contact_addr@))
                ==> r.name@ == self.contacts()[(owner, contact_addr@)],
            !self.contacts().dom().contains((owner, contact_addr@)) ==> r.is_zero(),
    {
        proof {
            lemma_assoc_map_dom(self.contact_seq());
        }
        match self.contact_index(owner, contact_addr) {
            Some(i) => {
                proof {
                    lemma_assoc_map_get(self.contact_seq(), i as int);
                }
                self.contact_entries[i].1
            },
            None => ContactByAccountId::default(),
        }
    }

    /// How many events have been emitted.
    pub fn events_len(&self) -> (n: usize)
        ensures
            n == self.events().len(),
    {
        self.event_log.len()
    }

    /// The `i`-th emitted event, oldest first.
    pub fn event_at(&self, i: usize) -> (e: &Event)
        requires
            i < self.events().len(),
        ensures
            *e == self.events()[i as int],
    {
        &self.event_log[i]
    }
}

} // verus!
