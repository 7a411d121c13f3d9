//! Record schema: identities, player records, leaderboard records, and the
//! error taxonomy shared by every operation.

use vstd::prelude::*;

verus! {

/// Byte budget for a display name (its encoded length).
pub const MAX_NAME_LEN: usize = 32;

/// Maximum number of entries the leaderboard retains.
pub const MAX_ENTRIES: usize = 10;

/// Why an operation was aborted. Every failure leaves the state unchanged.
#[derive(Clone, Copy, Debug, PartialEq, Eq, Structural)]
pub enum GameError {
    /// A creation targeted an address that already holds a record.
    AlreadyExists,
    /// The operation targeted an address with no record behind it.
    NotFound,
    /// The caller's identity does not match the record's recorded owner.
    Unauthorized,
    /// A display name exceeds its fixed byte budget.
    CapacityExceeded,
    /// An encoded record would exceed its pre-allocated storage space.
    SerializationOverflow,
}

/// An opaque fixed-size public identity, externally verified by the
/// substrate that executes the operations.
#[derive(Clone, Copy)]
pub struct Identity {
    pub bytes: [u8; 32],
}

impl View for Identity {
    type V = Seq<u8>;

    open spec fn view(&self) -> Seq<u8> {
        self.bytes@
    }
}

/// Equality of identities, byte for byte.
pub fn identity_eq(a: &Identity, b: &Identity) -> (r: bool)
    ensures
        r == (a@ == b@),
{
    let mut i: usize = 0;
    while i < 32
        invariant
            i <= 32,
            forall|j: int| 0 <= j < i ==> a.bytes@[j] == b.bytes@[j],
        decreases 32 - i,
    {
        if a.bytes[i] != b.bytes[i] {
            assert(a@[i as int] != b@[i as int]);
            return false;
        }
        i += 1;
    }
    assert(a@ =~= b@);
    true
}

/// The per-player persistent record.
pub struct PlayerAccount {
    /// The identity that owns the record; only it may submit scores.
    pub authority: Identity,
    /// Display name, at most [`MAX_NAME_LEN`] bytes.
    pub name: Vec<u8>,
    /// Best score seen so far; monotonically non-decreasing.
    pub high_score: u32,
    /// Number of successful submissions; grows by exactly one per call.
    pub games_played: u32,
}

/// Mathematical image of a [`PlayerAccount`].
#[verifier::ext_equal]
pub struct PlayerAccountView {
    pub authority: Seq<u8>,
    pub name: Seq<u8>,
    pub high_score: u32,
    pub games_played: u32,
}

impl View for PlayerAccount {
    type V = PlayerAccountView;

    open spec fn view(&self) -> PlayerAccountView {
        PlayerAccountView {
            authority: self.authority@,
            name: self.name@,
            high_score: self.high_score,
            games_played: self.games_played,
        }
    }
}

/// A snapshot of one player taken at merge time; it is not kept in sync with
/// the player's record afterward.
pub struct LeaderboardEntry {
    pub player: Identity,
    pub name: Vec<u8>,
    pub score: u32,
}

/// Mathematical image of a [`LeaderboardEntry`].
#[verifier::ext_equal]
pub struct LeaderboardEntryView {
    pub player: Seq<u8>,
    pub name: Seq<u8>,
    pub score: u32,
}

impl View for LeaderboardEntry {
    type V = LeaderboardEntryView;

    open spec fn view(&self) -> LeaderboardEntryView {
        LeaderboardEntryView { player: self.player@, name: self.name@, score: self.score }
    }
}

/// The singleton ranked list.
pub struct Leaderboard {
    /// The identity that created the leaderboard (informational only).
    pub authority: Identity,
    /// At most [`MAX_ENTRIES`] entries, sorted descending by score.
    pub top_scores: Vec<LeaderboardEntry>,
}

/// Mathematical image of the [`Leaderboard`].
#[verifier::ext_equal]
pub struct LeaderboardView {
    pub authority: Seq<u8>,
    pub top_scores: Seq<LeaderboardEntryView>,
}

/// The images of a run of entries, in order.
pub open spec fn entry_views(s: Seq<LeaderboardEntry>) -> Seq<LeaderboardEntryView> {
    Seq::new(s.len(), |i: int| s[i]@)
}

impl View for Leaderboard {
    type V = LeaderboardView;

    open spec fn view(&self) -> LeaderboardView {
        LeaderboardView { authority: self.authority@, top_scores: entry_views(self.top_scores@) }
    }
}

/// Copies a byte string; used where a record field is snapshotted.
pub fn copy_bytes(src: &Vec<u8>) -> (r: Vec<u8>)
    ensures
        r@ == src@,
{
    let mut r: Vec<u8> = Vec::new();
    let mut i: usize = 0;
    while i < src.len()
        invariant
            i <= src.len(),
            r@ == src@.subrange(0, i as int),
        decreases src.len() - i,
    {
        r.push(src[i]);
        assert(r@ =~= src@.subrange(0, i as int + 1));
        i += 1;
    }
    assert(r@ =~= src@);
    r
}

} // verus!
