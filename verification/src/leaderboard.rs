//! Leaderboard Aggregator: merging one player's snapshot into the bounded
//! ranked list and re-establishing its order and size invariants.
//!
//! The merge reproduces a push followed by a stable descending sort and a
//! truncation to the bound: the new entry lands after every entry with an
//! equal or higher score, then anything past the bound is dropped. No
//! deduplication by player identity is performed: merging the same player
//! twice yields two entries until truncation evicts one.

use vstd::prelude::*;
use crate::types::{
    Leaderboard, LeaderboardEntry, LeaderboardEntryView, MAX_ENTRIES, MAX_NAME_LEN,
    PlayerAccount, PlayerAccountView, copy_bytes,
};

verus! {

/// Entries are in non-increasing score order.
pub open spec fn sorted_desc(s: Seq<LeaderboardEntryView>) -> bool {
    forall|i: int, j: int| 0 <= i < j < s.len() ==> s[i].score >= s[j].score
}

/// Every entry respects the display-name byte budget.
pub open spec fn entries_name_ok(s: Seq<LeaderboardEntryView>) -> bool {
    forall|i: int| 0 <= i < s.len() ==> s[i].name.len() <= MAX_NAME_LEN
}

/// A well-formed ranked list: bounded, sorted, names within budget.
pub open spec fn board_entries_ok(s: Seq<LeaderboardEntryView>) -> bool {
    &&& s.len() <= MAX_ENTRIES
    &&& sorted_desc(s)
    &&& entries_name_ok(s)
}

/// The entry built from a player's record at merge time: a snapshot of the
/// record's owner, name and current high score.
pub open spec fn entry_of(p: PlayerAccountView) -> LeaderboardEntryView {
    LeaderboardEntryView { player: p.authority, name: p.name, score: p.high_score }
}

/// The index at which an entry of score `score` lands: the first index
/// holding a strictly smaller score. A push followed by a stable descending
/// sort puts the pushed entry exactly there.
pub open spec fn insert_pos(s: Seq<LeaderboardEntryView>, score: u32) -> int
    decreases s.len(),
{
    if s.len() == 0 {
        0
    } else if s[0].score < score {
        0
    } else {
        1 + insert_pos(s.drop_first(), score)
    }
}

/// The ranked list after folding entry `e` in: `e` inserted at its position,
/// then the list truncated to the bound if it grew past it.
pub open spec fn merge_entries(
    s: Seq<LeaderboardEntryView>,
    e: LeaderboardEntryView,
) -> Seq<LeaderboardEntryView> {
    let t = s.insert(insert_pos(s, e.score), e);
    if t.len() > MAX_ENTRIES {
        t.take(MAX_ENTRIES as int)
    } else {
        t
    }
}

/// The insertion index is in range, every entry before it scores at least
/// `score`, and the entry at it (if any) scores strictly less.
pub proof fn lemma_insert_pos_bounds(s: Seq<LeaderboardEntryView>, score: u32)
    ensures
        0 <= insert_pos(s, score) <= s.len(),
        forall|j: int| 0 <= j < insert_pos(s, score) ==> s[j].score >= score,
        insert_pos(s, score) < s.len() ==> s[insert_pos(s, score)].score < score,
    decreases s.len(),
{
    if s.len() == 0 {
    } else if s[0].score < score {
    } else {
        lemma_insert_pos_bounds(s.drop_first(), score);
        let p = insert_pos(s, score);
        assert forall|j: int| 0 <= j < p implies s[j].score >= score by {
            if j > 0 {
                assert(s.drop_first()[j - 1] == s[j]);
            }
        }
        if p < s.len() {
            assert(s.drop_first()[p - 1] == s[p]);
        }
    }
}

/// Any index with those three properties is the insertion index.
pub proof fn lemma_insert_pos_char(s: Seq<LeaderboardEntryView>, score: u32, p: int)
    requires
        0 <= p <= s.len(),
        forall|j: int| 0 <= j < p ==> s[j].score >= score,
        p < s.len() ==> s[p].score < score,
    ensures
        p == insert_pos(s, score),
    decreases s.len(),
{
    if s.len() == 0 {
    } else if s[0].score < score {
        assert(p == 0);
    } else {
        assert(p >= 1);
        assert forall|j: int| 0 <= j < p - 1 implies s.drop_first()[j].score >= score by {
            assert(s.drop_first()[j] == s[j + 1]);
        }
        if p - 1 < s.len() - 1 {
            assert(s.drop_first()[p - 1] == s[p]);
        }
        lemma_insert_pos_char(s.drop_first(), score, p - 1);
    }
}

/// After any merge the list holds at most the bound many entries, and a
/// sorted list stays sorted: the size and order invariants survive every
/// `update_leaderboard` call.
pub proof fn lemma_merge_bounded_sorted(s: Seq<LeaderboardEntryView>, e: LeaderboardEntryView)
    requires
        sorted_desc(s),
    ensures
        merge_entries(s, e).len() <= MAX_ENTRIES,
        merge_entries(s, e).len() == if s.len() < MAX_ENTRIES {
            s.len() + 1
        } else {
            MAX_ENTRIES as nat
        },
        sorted_desc(merge_entries(s, e)),
{
    lemma_insert_pos_bounds(s, e.score);
    let p = insert_pos(s, e.score);
    let t = s.insert(p, e);
    assert(t.len() == s.len() + 1);
    assert forall|i: int, j: int| 0 <= i < j < t.len() implies t[i].score >= t[j].score by {
        assert(forall|k: int| 0 <= k < p ==> t[k] == s[k]);
        assert(t[p] == e);
        assert(forall|k: int| p < k < t.len() ==> t[k] == s[k - 1]);
        if i < p && j < p {
        } else if i < p && j == p {
            assert(s[i].score >= e.score);
        } else if i < p && j > p {
            assert(s[i].score >= s[j - 1].score);
        } else if i == p && j > p {
            assert(p < s.len());
            assert(s[p].score < e.score);
            if j - 1 > p {
                assert(s[p].score >= s[j - 1].score);
            }
        } else {
            assert(i > p && j > p);
            assert(s[i - 1].score >= s[j - 1].score);
        }
    }
    if t.len() > MAX_ENTRIES {
        assert forall|i: int, j: int|
            0 <= i < j < t.take(MAX_ENTRIES as int).len() implies t.take(MAX_ENTRIES as int)[i].score
            >= t.take(MAX_ENTRIES as int)[j].score by {
            assert(t.take(MAX_ENTRIES as int)[i] == t[i]);
            assert(t.take(MAX_ENTRIES as int)[j] == t[j]);
        }
    }
}

/// A merged list keeps every name within budget if the list and the new
/// entry respect it.
pub proof fn lemma_merge_names_ok(s: Seq<LeaderboardEntryView>, e: LeaderboardEntryView)
    requires
        entries_name_ok(s),
        e.name.len() <= MAX_NAME_LEN,
    ensures
        entries_name_ok(merge_entries(s, e)),
{
    lemma_insert_pos_bounds(s, e.score);
    let p = insert_pos(s, e.score);
    let t = s.insert(p, e);
    assert forall|i: int| 0 <= i < t.len() implies t[i].name.len() <= MAX_NAME_LEN by {
        if i < p {
            assert(t[i] == s[i]);
        } else if i == p {
            assert(t[i] == e);
        } else {
            assert(t[i] == s[i - 1]);
        }
    }
    if t.len() > MAX_ENTRIES {
        assert forall|i: int| 0 <= i < t.take(MAX_ENTRIES as int).len() implies t.take(
            MAX_ENTRIES as int,
        )[i].name.len() <= MAX_NAME_LEN by {
            assert(t.take(MAX_ENTRIES as int)[i] == t[i]);
        }
    }
}

/// If the merged entry's score strictly exceeds every current entry's score,
/// the merged entry ranks first after the merge.
pub proof fn lemma_merge_top(s: Seq<LeaderboardEntryView>, e: LeaderboardEntryView)
    requires
        forall|i: int| 0 <= i < s.len() ==> s[i].score < e.score,
    ensures
        merge_entries(s, e).len() > 0,
        merge_entries(s, e)[0] == e,
{
    assert(insert_pos(s, e.score) == 0);
    let t = s.insert(0, e);
    assert(t[0] == e);
}

/// Folds `player`'s current snapshot into the ranked list: the executable
/// counterpart of [`merge_entries`].
pub fn merge_into(board: &mut Leaderboard, player: &PlayerAccount)
    ensures
        final(board)@.authority == old(board)@.authority,
        final(board)@.top_scores == merge_entries(old(board)@.top_scores, entry_of(player@)),
{
    let ghost s0 = board@.top_scores;
    let entry = LeaderboardEntry {
        player: player.authority,
        name: copy_bytes(&player.name),
        score: player.high_score,
    };
    assert(entry@ == entry_of(player@));
    let n = board.top_scores.len();
    let mut pos: usize = 0;
    while pos < n && board.top_scores[pos].score >= entry.score
        invariant
            pos <= n,
            n == board.top_scores.len(),
            board@.top_scores == s0,
            entry@ == entry_of(player@),
            forall|j: int| 0 <= j < pos ==> s0[j].score >= entry.score,
        decreases n - pos,
    {
        assert(s0[pos as int].score == board.top_scores@[pos as int]@.score);
        pos += 1;
    }
    proof {
        if pos < n {
            assert(s0[pos as int].score == board.top_scores@[pos as int]@.score);
        }
        lemma_insert_pos_char(s0, entry.score, pos as int);
    }
    board.top_scores.insert(pos, entry);
    assert(board@.top_scores =~= s0.insert(pos as int, entry@));
    if board.top_scores.len() > MAX_ENTRIES {
        board.top_scores.truncate(MAX_ENTRIES);
        assert(board@.top_scores =~= s0.insert(pos as int, entry@).take(MAX_ENTRIES as int));
    }
}

} // verus!
