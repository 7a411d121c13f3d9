//! Player Record Store, Authorization Gate, and the operations a caller can
//! invoke: creating a player record, submitting a score, creating the
//! leaderboard singleton, and merging a player into it.
//!
//! [`GameState`] models the substrate's per-record storage: every record
//! lives at the address the Record Deriver assigns it, so there is at most
//! one player record per owner identity and one leaderboard. Each operation
//! either applies fully or fails with an error and leaves the state
//! unchanged.

use vstd::prelude::*;
use crate::addressing::{RecordAddress, derive_player_address};
use crate::leaderboard::{
    board_entries_ok, entry_of, lemma_merge_bounded_sorted, lemma_merge_names_ok, merge_entries,
    merge_into,
};
use crate::types::{
    GameError, Identity, Leaderboard, LeaderboardView, MAX_NAME_LEN, PlayerAccount,
    PlayerAccountView, identity_eq,
};

verus! {

/// All player records keyed by the owner identity's bytes, plus the
/// leaderboard singleton if it has been created.
#[verifier::ext_equal]
pub struct StateView {
    pub players: Map<Seq<u8>, PlayerAccountView>,
    pub board: Option<LeaderboardView>,
}

/// No two stored records share an owner, so each lives at its own derived
/// address.
pub open spec fn distinct_owners(s: Seq<PlayerAccount>) -> bool {
    forall|i: int, j: int| 0 <= i < j < s.len() ==> s[i].authority@ != s[j].authority@
}

/// The index of the record owned by `k`, when one exists.
pub open spec fn player_index_of(s: Seq<PlayerAccount>, k: Seq<u8>) -> int {
    choose|i: int| 0 <= i < s.len() && s[i].authority@ == k
}

/// The stored records as a map from owner bytes to record.
pub open spec fn players_map(s: Seq<PlayerAccount>) -> Map<Seq<u8>, PlayerAccountView> {
    Map::new(
        |k: Seq<u8>| exists|i: int| 0 <= i < s.len() && s[i].authority@ == k,
        |k: Seq<u8>| s[player_index_of(s, k)]@,
    )
}

/// The record a successful `submit_score` leaves behind: one more game
/// played, and the high score raised to the submission if it beats it.
pub open spec fn bumped(p: PlayerAccountView, score: u32) -> PlayerAccountView
    recommends
        p.games_played < u32::MAX,
{
    PlayerAccountView {
        authority: p.authority,
        name: p.name,
        high_score: if score > p.high_score {
            score
        } else {
            p.high_score
        },
        games_played: (p.games_played + 1) as u32,
    }
}

/// The whole persistent state. Operations take it by exclusive reference,
/// so conflicting writes to one record are serialized by construction, as
/// the substrate's single-writer transaction boundary would do.
pub struct GameState {
    players: Vec<PlayerAccount>,
    leaderboard: Option<Leaderboard>,
}

impl View for GameState {
    type V = StateView;

    closed spec fn view(&self) -> StateView {
        StateView {
            players: players_map(self.players@),
            board: match self.leaderboard {
                Option::Some(b) => Option::Some(b@),
                Option::None => Option::None,
            },
        }
    }
}

/// Indexing the stored records at a present owner yields that owner's
/// record, and the index is the one the record sits at.
proof fn lemma_map_index(s: Seq<PlayerAccount>, i: int)
    requires
        distinct_owners(s),
        0 <= i < s.len(),
    ensures
        players_map(s).contains_key(s[i].authority@),
        player_index_of(s, s[i].authority@) == i,
        players_map(s)[s[i].authority@] == s[i]@,
{
    let k = s[i].authority@;
    assert(0 <= i < s.len() && s[i].authority@ == k);
    let j = player_index_of(s, k);
    if j != i {
        if j < i {
            assert(s[j].authority@ != s[i].authority@);
        } else {
            assert(s[i].authority@ != s[j].authority@);
        }
    }
}

/// An owner no stored record carries is absent from the map.
proof fn lemma_map_not_contains(s: Seq<PlayerAccount>, k: Seq<u8>)
    requires
        forall|i: int| 0 <= i < s.len() ==> s[i].authority@ != k,
    ensures
        !players_map(s).contains_key(k),
{
}

/// Appending a record for a fresh owner inserts it into the map.
proof fn lemma_map_push(s: Seq<PlayerAccount>, p: PlayerAccount)
    requires
        distinct_owners(s),
        forall|i: int| 0 <= i < s.len() ==> s[i].authority@ != p.authority@,
    ensures
        distinct_owners(s.push(p)),
        players_map(s.push(p)) == players_map(s).insert(p.authority@, p@),
{
    let s2 = s.push(p);
    assert forall|i: int, j: int| 0 <= i < j < s2.len() implies s2[i].authority@
        != s2[j].authority@ by {
        if j < s.len() {
        } else {
            assert(s2[j] == p);
            assert(s2[i] == s[i]);
        }
    }
    let m1 = players_map(s2);
    let m2 = players_map(s).insert(p.authority@, p@);
    assert forall|k: Seq<u8>| #[trigger] m1.contains_key(k) implies m2.contains_key(k) && m1[k]
        == m2[k] by {
        let i = choose|i: int| 0 <= i < s2.len() && s2[i].authority@ == k;
        lemma_map_index(s2, i);
        if i < s.len() {
            assert(s2[i] == s[i]);
            lemma_map_index(s, i);
            assert(k != p.authority@);
        } else {
            assert(s2[i] == p);
        }
    }
    assert forall|k: Seq<u8>| #[trigger] m2.contains_key(k) implies m1.contains_key(k) by {
        if k == p.authority@ {
            assert(s2[s.len() as int] == p);
            lemma_map_index(s2, s.len() as int);
        } else {
            let i = choose|i: int| 0 <= i < s.len() && s[i].authority@ == k;
            assert(s2[i] == s[i]);
            lemma_map_index(s2, i);
        }
    }
    assert(m1 =~= m2);
}

/// Replacing a record by one with the same owner updates the map at that
/// owner and nothing else.
proof fn lemma_map_update(s: Seq<PlayerAccount>, i: int, p: PlayerAccount)
    requires
        distinct_owners(s),
        0 <= i < s.len(),
        p.authority@ == s[i].authority@,
    ensures
        distinct_owners(s.update(i, p)),
        players_map(s.update(i, p)) == players_map(s).insert(p.authority@, p@),
{
    let s2 = s.update(i, p);
    assert forall|x: int, y: int| 0 <= x < y < s2.len() implies s2[x].authority@
        != s2[y].authority@ by {
        assert(s2[x].authority@ == s[x].authority@);
        assert(s2[y].authority@ == s[y].authority@);
    }
    let m1 = players_map(s2);
    let m2 = players_map(s).insert(p.authority@, p@);
    assert forall|k: Seq<u8>| #[trigger] m1.contains_key(k) implies m2.contains_key(k) && m1[k]
        == m2[k] by {
        let j = choose|j: int| 0 <= j < s2.len() && s2[j].authority@ == k;
        lemma_map_index(s2, j);
        if j == i {
            assert(s2[j] == p);
        } else {
            assert(s2[j] == s[j]);
            lemma_map_index(s, j);
            assert(k != p.authority@);
        }
    }
    assert forall|k: Seq<u8>| #[trigger] m2.contains_key(k) implies m1.contains_key(k) by {
        if k == p.authority@ {
            assert(s2[i] == p);
            lemma_map_index(s2, i);
        } else {
            let j = choose|j: int| 0 <= j < s.len() && s[j].authority@ == k;
            assert(s2[j] == s[j]);
            lemma_map_index(s2, j);
        }
    }
    assert(m1 =~= m2);
}

impl GameState {
    /// Everything the operations preserve: records are keyed consistently,
    /// display names respect their budget, and the leaderboard (once
    /// created) is bounded and sorted.
    pub closed spec fn wf(self) -> bool {
        &&& distinct_owners(self.players@)
        &&& forall|i: int|
            0 <= i < self.players@.len() ==> #[trigger] self.players@[i].name@.len()
                <= MAX_NAME_LEN
        &&& match self.leaderboard {
            Option::Some(b) => board_entries_ok(b@.top_scores),
            Option::None => true,
        }
    }

    /// A fresh substrate with no records at any address.
    pub fn new() -> (s: GameState)
        ensures
            s.wf(),
            s@.players == Map::<Seq<u8>, PlayerAccountView>::empty(),
            s@.board is None,
    {
        let s = GameState { players: Vec::new(), leaderboard: Option::None };
        proof {
            assert(players_map(s.players@) =~= Map::<Seq<u8>, PlayerAccountView>::empty());
        }
        s
    }

    /// Looks the player record up at `addr`; `None` when the address holds
    /// no player record (in particular, at the leaderboard's address).
    fn find_player(&self, addr: &RecordAddress) -> (r: Option<usize>)
        ensures
            match r {
                Option::Some(i) => {
                    &&& i < self.players@.len()
                    &&& Option::Some(self.players@[i as int].authority@)
                        == crate::addressing::spec_addressed_player(*addr)
                },
                Option::None => forall|j: int|
                    0 <= j < self.players@.len() ==> Option::Some(
                        #[trigger] self.players@[j].authority@,
                    ) != crate::addressing::spec_addressed_player(*addr),
            },
    {
        let target = match addr {
            RecordAddress::PlayerRecord { owner } => owner,
            RecordAddress::LeaderboardSingleton => {
                return Option::None;
            },
        };
        let mut i: usize = 0;
        while i < self.players.len()
            invariant
                i <= self.players@.len(),
                Option::Some(target@) == crate::addressing::spec_addressed_player(*addr),
                forall|j: int| 0 <= j < i ==> #[trigger] self.players@[j].authority@ != target@,
            decreases self.players@.len() - i,
        {
            if identity_eq(&self.players[i].authority, target) {
                return Option::Some(i);
            }
            i += 1;
        }
        Option::None
    }

    /// Creates `authority`'s player record at its derived address, with no
    /// games played and a zero high score. Fails with `CapacityExceeded` on
    /// an oversized name and with `AlreadyExists` when the address is
    /// occupied; every failure leaves the state unchanged.
    pub fn initialize_player(&mut self, authority: Identity, player_name: Vec<u8>) -> (r: Result<
        (),
        GameError,
    >)
        requires
            old(self).wf(),
        ensures
            final(self).wf(),
            player_name@.len() > MAX_NAME_LEN ==> r == Err::<(), GameError>(
                GameError::CapacityExceeded,
            ) && final(self)@ == old(self)@,
            player_name@.len() <= MAX_NAME_LEN && old(self)@.players.contains_key(authority@)
                ==> r == Err::<(), GameError>(GameError::AlreadyExists)
                && final(self)@ == old(self)@,
            player_name@.len() <= MAX_NAME_LEN && !old(self)@.players.contains_key(authority@)
                ==> r == Ok::<(), GameError>(()) && final(self)@ == (StateView {
                players: old(self)@.players.insert(
                    authority@,
                    (PlayerAccountView {
                        authority: authority@,
                        name: player_name@,
                        high_score: 0,
                        games_played: 0,
                    }),
                ),
                board: old(self)@.board,
            }),
    {
        if player_name.len() > MAX_NAME_LEN {
            return Err(GameError::CapacityExceeded);
        }
        let addr = derive_player_address(&authority);
        match self.find_player(&addr) {
            Option::Some(i) => {
                proof {
                    lemma_map_index(self.players@, i as int);
                }
                Err(GameError::AlreadyExists)
            },
            Option::None => {
                proof {
                    lemma_map_not_contains(self.players@, authority@);
                    lemma_map_push(
                        self.players@,
                        (PlayerAccount {
                            authority,
                            name: player_name,
                            high_score: 0,
                            games_played: 0,
                        }),
                    );
                }
                let record = PlayerAccount {
                    authority,
                    name: player_name,
                    high_score: 0,
                    games_played: 0,
                };
                self.players.push(record);
                proof {
                    assert(final(self)@ =~= (StateView {
                        players: old(self)@.players.insert(
                            authority@,
                            (PlayerAccountView {
                                authority: authority@,
                                name: player_name@,
                                high_score: 0,
                                games_played: 0,
                            }),
                        ),
                        board: old(self)@.board,
                    }));
                }
                Ok(())
            },
        }
    }

    /// Records one more game for the record at `owner`'s derived address and
    /// raises its high score to `score` if that beats it. Authorization
    /// comes first: the `signer`, whom the substrate has authenticated, must
    /// equal the record's recorded owner. Fails with `NotFound` when no
    /// record exists and with `Unauthorized` for any other signer; every
    /// failure leaves the state unchanged.
    pub fn submit_score(&mut self, signer: Identity, owner: Identity, score: u32) -> (r: Result<
        (),
        GameError,
    >)
        requires
            old(self).wf(),
            old(self)@.players.contains_key(owner@) ==> old(self)@.players[owner@].games_played
                < u32::MAX,
        ensures
            final(self).wf(),
            !old(self)@.players.contains_key(owner@) ==> r == Err::<(), GameError>(
                GameError::NotFound,
            ) && final(self)@ == old(self)@,
            old(self)@.players.contains_key(owner@) && signer@
                != old(self)@.players[owner@].authority ==> r == Err::<(), GameError>(
                GameError::Unauthorized,
            ) && final(self)@ == old(self)@,
            old(self)@.players.contains_key(owner@) && signer@
                == old(self)@.players[owner@].authority ==> r == Ok::<(), GameError>(())
                && final(self)@ == (StateView {
                players: old(self)@.players.insert(
                    owner@,
                    bumped(old(self)@.players[owner@], score),
                ),
                board: old(self)@.board,
            }),
    {
        let addr = derive_player_address(&owner);
        match self.find_player(&addr) {
            Option::None => {
                proof {
                    lemma_map_not_contains(self.players@, owner@);
                }
                Err(GameError::NotFound)
            },
            Option::Some(i) => {
                proof {
                    lemma_map_index(self.players@, i as int);
                }
                if !identity_eq(&signer, &self.players[i].authority) {
                    return Err(GameError::Unauthorized);
                }
                let ghost s0 = self.players@;
                let ghost rec0 = self.players@[i as int];
                if score > self.players[i].high_score {
                    self.players[i].high_score = score;
                }
                self.players[i].games_played = self.players[i].games_played + 1;
                proof {
                    let rec1 = self.players@[i as int];
                    assert(self.players@ =~= s0.update(i as int, rec1));
                    assert(rec1@ =~= bumped(rec0@, score));
                    lemma_map_update(s0, i as int, rec1);
                    assert(final(self)@ =~= (StateView {
                        players: old(self)@.players.insert(
                            owner@,
                            bumped(old(self)@.players[owner@], score),
                        ),
                        board: old(self)@.board,
                    }));
                }
                Ok(())
            },
        }
    }

    /// Creates the leaderboard singleton at its derived address, empty, and
    /// records its creator. Fails with `AlreadyExists` (leaving the state
    /// unchanged) when the singleton was already created.
    pub fn initialize_leaderboard(&mut self, authority: Identity) -> (r: Result<(), GameError>)
        requires
            old(self).wf(),
        ensures
            final(self).wf(),
            old(self)@.board is Some ==> r == Err::<(), GameError>(GameError::AlreadyExists)
                && final(self)@ == old(self)@,
            old(self)@.board is None ==> r == Ok::<(), GameError>(()) && final(self)@ == (StateView {
                players: old(self)@.players,
                board: Option::Some(
                    (LeaderboardView { authority: authority@, top_scores: Seq::empty() }),
                ),
            }),
    {
        match &self.leaderboard {
            Option::Some(_) => Err(GameError::AlreadyExists),
            Option::None => {
                let board = Leaderboard { authority, top_scores: Vec::new() };
                self.leaderboard = Option::Some(board);
                proof {
                    assert(final(self)@ =~= (StateView {
                        players: old(self)@.players,
                        board: Option::Some(
                            (LeaderboardView { authority: authority@, top_scores: Seq::empty() }),
                        ),
                    }));
                }
                Ok(())
            },
        }
    }

    /// Reads the record at `player`'s derived address and folds its current
    /// snapshot into the leaderboard: the entry is ranked by the record's
    /// high score and the list is truncated to its bound. Fails with
    /// `NotFound` (leaving the state unchanged) when the leaderboard or the
    /// player record is missing.
    pub fn update_leaderboard(&mut self, player: Identity) -> (r: Result<(), GameError>)
        requires
            old(self).wf(),
        ensures
            final(self).wf(),
            match final(self)@.board {
                Option::Some(b) => board_entries_ok(b.top_scores),
                Option::None => true,
            },
            old(self)@.board is None || !old(self)@.players.contains_key(player@) ==> r == Err::<
                (),
                GameError,
            >(GameError::NotFound) && final(self)@ == old(self)@,
            old(self)@.board is Some && old(self)@.players.contains_key(player@) ==> r == Ok::<
                (),
                GameError,
            >(()) && final(self)@ == (StateView {
                players: old(self)@.players,
                board: Option::Some(
                    (LeaderboardView {
                        authority: old(self)@.board.unwrap().authority,
                        top_scores: merge_entries(
                            old(self)@.board.unwrap().top_scores,
                            entry_of(old(self)@.players[player@]),
                        ),
                    }),
                ),
            }),
    {
        let paddr = derive_player_address(&player);
        let idx = match self.find_player(&paddr) {
            Option::None => {
                proof {
                    lemma_map_not_contains(self.players@, player@);
                }
                return Err(GameError::NotFound);
            },
            Option::Some(i) => i,
        };
        proof {
            lemma_map_index(self.players@, idx as int);
        }
        let ghost players0 = self.players@;
        match &mut self.leaderboard {
            Option::None => Err(GameError::NotFound),
            Option::Some(board) => {
                let ghost entries0 = board@.top_scores;
                proof {
                    lemma_merge_bounded_sorted(entries0, entry_of(players0[idx as int]@));
                    lemma_merge_names_ok(entries0, entry_of(players0[idx as int]@));
                }
                merge_into(board, &self.players[idx]);
                proof {
                    assert(final(self)@ =~= (StateView {
                        players: old(self)@.players,
                        board: Option::Some(
                            (LeaderboardView {
                                authority: old(self)@.board.unwrap().authority,
                                top_scores: merge_entries(
                                    old(self)@.board.unwrap().top_scores,
                                    entry_of(old(self)@.players[player@]),
                                ),
                            }),
                        ),
                    }));
                }
                Ok(())
            },
        }
    }

    /// The record at `owner`'s derived address, if one exists.
    pub fn get_player(&self, owner: &Identity) -> (r: Option<&PlayerAccount>)
        requires
            self.wf(),
        ensures
            match r {
                Option::Some(p) => self@.players.contains_key(owner@) && p@ == self@.players[owner@],
                Option::None => !self@.players.contains_key(owner@),
            },
    {
        let addr = derive_player_address(owner);
        match self.find_player(&addr) {
            Option::Some(i) => {
                proof {
                    lemma_map_index(self.players@, i as int);
                }
                Option::Some(&self.players[i])
            },
            Option::None => {
                proof {
                    lemma_map_not_contains(self.players@, owner@);
                }
                Option::None
            },
        }
    }

    /// The leaderboard singleton, if it has been created.
    pub fn get_leaderboard(&self) -> (r: Option<&Leaderboard>)
        ensures
            match r {
                Option::Some(b) => self@.board == Option::Some(b@),
                Option::None => self@.board is None,
            },
    {
        match &self.leaderboard {
            Option::Some(b) => Option::Some(b),
            Option::None => Option::None,
        }
    }
}

} // verus!
