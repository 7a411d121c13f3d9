//! Record Deriver: the deterministic mapping from (namespace, identity) to a
//! storage address.
//!
//! Two namespaces exist: one player record per owner identity, and a single
//! global leaderboard. An address is a composite key, so determinism is
//! immediate and distinct inputs can be proved to yield distinct addresses.

use vstd::prelude::*;
use crate::types::Identity;

verus! {

/// A storage address, as the Record Deriver produces it.
pub enum RecordAddress {
    /// The address of the record owned by `owner`.
    PlayerRecord { owner: Identity },
    /// The address of the global leaderboard singleton.
    LeaderboardSingleton,
}

/// Derives the address of `owner`'s player record. Pure: the same owner
/// always yields the same address.
pub fn derive_player_address(owner: &Identity) -> (a: RecordAddress)
    ensures
        a == (RecordAddress::PlayerRecord { owner: *owner }),
{
    RecordAddress::PlayerRecord { owner: *owner }
}

/// Derives the address of the leaderboard singleton. Takes no key: there is
/// one canonical instance.
pub fn derive_leaderboard_address() -> (a: RecordAddress)
    ensures
        a == RecordAddress::LeaderboardSingleton,
{
    RecordAddress::LeaderboardSingleton
}

/// The owner bytes a player-record address is keyed by; `None` for the
/// leaderboard singleton, which takes no key.
pub open spec fn spec_addressed_player(addr: RecordAddress) -> Option<Seq<u8>> {
    match addr {
        RecordAddress::PlayerRecord { owner } => Option::Some(owner@),
        RecordAddress::LeaderboardSingleton => Option::None,
    }
}

/// Collision resistance of the deriver: distinct identities address distinct
/// player records, and no player record shares an address with the
/// leaderboard singleton.
pub proof fn lemma_derive_collision_free(o1: Identity, o2: Identity)
    ensures
        o1@ != o2@ ==> (RecordAddress::PlayerRecord { owner: o1 }) != (RecordAddress::PlayerRecord {
            owner: o2,
        }),
        (RecordAddress::PlayerRecord { owner: o1 }) != RecordAddress::LeaderboardSingleton,
{
}

} // verus!
