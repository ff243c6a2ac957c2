//! Core data types: fixed-width byte payloads, stored records, events and
//! errors, plus exec equality for the byte arrays used as store keys.

use vstd::prelude::*;

verus! {

/// An opaque, comparable, orderable account handle. The execution environment
/// authenticates callers and supplies their identity; the library only
/// consumes it as a map key and as event payload.
pub type Identity = u64;

/// A human-chosen unique handle, exactly 21 bytes, zero-padded.
pub type Nickname = [u8; 21];

/// An account's registered address, exactly 32 bytes.
pub type Address = [u8; 32];

/// An encoded contact name, exactly 1000 bytes, opaque to the library.
pub type EncodedContactName = [u8; 1000];

/// An encoded contact address, exactly 1000 bytes, opaque to the library.
pub type EncodedContactAddr = [u8; 1000];

/// An offer payload, exactly 2048 bytes.
pub type OfferPayload = [u8; 2048];

/// An answer payload, exactly 2048 bytes.
pub type AnswerPayload = [u8; 2048];

/// A welcome message attached to an offer, exactly 300 bytes.
pub type WelcomeMsg = [u8; 300];

/// The record stored against an identity once registered: its address and
/// the nickname it owns.
#[derive(Clone, Copy)]
pub struct ItemByAccountId {
    pub address: Address,
    pub nickname: Nickname,
}

/// The record stored in a contact book under (owner, peer address): an
/// opaque encoded name.
#[derive(Clone, Copy)]
pub struct ContactByAccountId {
    pub name: EncodedContactName,
}

/// A sequence of `n` zero bytes: the default, empty state of every
/// fixed-width payload.
pub open spec fn zero_bytes(n: nat) -> Seq<u8> {
    Seq::new(n, |i: int| 0u8)
}

impl ItemByAccountId {
    /// The default record a value-query read yields for an identity that was
    /// never registered: address and nickname all zero.
    pub open spec fn is_zero(self) -> bool {
        self.address@ == zero_bytes(32) && self.nickname@ == zero_bytes(21)
    }
}

impl Default for ItemByAccountId {
    /// The empty record: all-zero address, all-zero nickname.
    fn default() -> (r: Self)
        ensures
            r.is_zero(),
    {
        let r = ItemByAccountId { address: [0u8; 32], nickname: [0u8; 21] };
        proof {
            assert(r.address@ =~= zero_bytes(32));
            assert(r.nickname@ =~= zero_bytes(21));
        }
        r
    }
}

impl ContactByAccountId {
    /// The default record a value-query read yields for an absent contact:
    /// 1000 zero bytes.
    pub open spec fn is_zero(self) -> bool {
        self.name@ == zero_bytes(1000)
    }
}

impl Default for ContactByAccountId {
    /// The empty record: a name of 1000 zero bytes.
    fn default() -> (r: Self)
        ensures
            r.is_zero(),
    {
        let r = ContactByAccountId { name: [0u8; 1000] };
        proof {
            assert(r.name@ =~= zero_bytes(1000));
        }
        r
    }
}

/// A transient signaling notification; constructed at call time, recorded
/// once, never persisted in any store.
pub enum Event {
    Offer {
        offer: OfferPayload,
        offered_by: Identity,
        offered_to: Identity,
        welcome_msg: WelcomeMsg,
    },
    Answer {
        answer: AnswerPayload,
        answer_from: Identity,
        answer_to: Identity,
    },
}

/// Why a registration was rejected. Every rejection leaves all stores
/// untouched.
#[derive(Clone, Copy, Debug, PartialEq, Eq, Structural)]
pub enum Error {
    /// The calling identity already owns a nickname binding.
    AccountIdAlreadyRegistered,
    /// The requested nickname is already owned by some identity.
    NicknameAlreadyRegistered,
}

/// Byte-for-byte equality of two fixed-width byte arrays.
pub fn bytes_eq<const N: usize>(a: &[u8; N], b: &[u8; N]) -> (r: bool)
    ensures
        r <==> a@ == b@,
{
    let mut i: usize = 0;
    while i < N
        invariant
            0 <= i <= N,
            forall|j: int| 0 <= j < i ==> a@[j] == b@[j],
        decreases N - i,
    {
        if a[i] != b[i] {
            proof {
                assert(a@[i as int] != b@[i as int]);
                assert(a@ != b@);
            }
            return false;
        }
        i += 1;
    }
    proof {
        assert(a@ =~= b@);
    }
    true
}

} // verus!
