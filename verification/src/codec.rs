//! Persisted record layout: byte-oriented, little-endian numeric fields,
//! independent of any particular storage engine.
//!
//! A player record serializes as discriminator(8) + owner identity(32) +
//! display name (4-byte length prefix + bytes) + high score(4) + games
//! played(4). The leaderboard serializes as discriminator(8) + administrator
//! identity(32) + entry count(4) + entries, each entry being player
//! identity(32) + name (4-byte length prefix + bytes) + score(4). Records
//! live in pre-sized storage, so encoding rejects any value whose image
//! would exceed its space budget.

use vstd::prelude::*;
use crate::types::{
    GameError, Identity, Leaderboard, LeaderboardEntry, LeaderboardEntryView, LeaderboardView,
    MAX_ENTRIES, MAX_NAME_LEN, PlayerAccount, PlayerAccountView, entry_views,
};

verus! {

/// Discriminator stored ahead of every player record: the bytes `playerac`.
pub const PLAYER_RECORD_TAG: u64 = 0x6361726579616c70;

/// Discriminator stored ahead of the leaderboard record: the bytes
/// `leaderbd`.
pub const LEADERBOARD_TAG: u64 = 0x646272656461656c;

/// Space pre-allocated for a player record.
pub const PLAYER_RECORD_SPACE: usize = 8 + 32 + 4 + 32 + 4 + 4;

/// Space pre-allocated for the leaderboard.
pub const LEADERBOARD_SPACE: usize = 8 + 32 + 4 + 10 * (32 + 4 + 32 + 4);

/// Size of a player record's image: everything but the name is fixed.
pub const PLAYER_RECORD_FIXED: usize = 8 + 32 + 4 + 4 + 4;

/// Size of an entry's image beyond its name bytes.
pub const ENTRY_FIXED: usize = 32 + 4 + 4;

/// The four little-endian bytes of a 32-bit number.
pub open spec fn u32_le_bytes(n: u32) -> Seq<u8> {
    seq![
        (n & 0xff) as u8,
        ((n >> 8) & 0xff) as u8,
        ((n >> 16) & 0xff) as u8,
        ((n >> 24) & 0xff) as u8,
    ]
}

/// The eight little-endian bytes of a 64-bit number.
pub open spec fn u64_le_bytes(n: u64) -> Seq<u8> {
    seq![
        (n & 0xff) as u8,
        ((n >> 8) & 0xff) as u8,
        ((n >> 16) & 0xff) as u8,
        ((n >> 24) & 0xff) as u8,
        ((n >> 32) & 0xff) as u8,
        ((n >> 40) & 0xff) as u8,
        ((n >> 48) & 0xff) as u8,
        ((n >> 56) & 0xff) as u8,
    ]
}

/// A record view that some real record can carry: a full-size identity and
/// a name within budget.
pub open spec fn valid_player(v: PlayerAccountView) -> bool {
    &&& v.authority.len() == 32
    &&& v.name.len() <= MAX_NAME_LEN
}

/// The byte image of a player record.
pub open spec fn spec_encode_player(v: PlayerAccountView) -> Seq<u8> {
    u64_le_bytes(PLAYER_RECORD_TAG) + v.authority + u32_le_bytes(v.name.len() as u32) + v.name
        + u32_le_bytes(v.high_score) + u32_le_bytes(v.games_played)
}

/// The byte image of one leaderboard entry.
pub open spec fn spec_encode_entry(e: LeaderboardEntryView) -> Seq<u8> {
    e.player + u32_le_bytes(e.name.len() as u32) + e.name + u32_le_bytes(e.score)
}

/// The byte images of a run of entries, in order.
pub open spec fn entries_bytes(s: Seq<LeaderboardEntryView>) -> Seq<u8>
    decreases s.len(),
{
    if s.len() == 0 {
        Seq::empty()
    } else {
        spec_encode_entry(s[0]) + entries_bytes(s.drop_first())
    }
}

/// The byte image of the leaderboard.
pub open spec fn spec_encode_board(b: LeaderboardView) -> Seq<u8> {
    u64_le_bytes(LEADERBOARD_TAG) + b.authority + u32_le_bytes(b.top_scores.len() as u32)
        + entries_bytes(b.top_scores)
}

/// Appends the little-endian bytes of `n`.
fn push_u32_le(out: &mut Vec<u8>, n: u32)
    ensures
        final(out)@ == old(out)@ + u32_le_bytes(n),
{
    out.push((n & 0xff) as u8);
    out.push(((n >> 8) & 0xff) as u8);
    out.push(((n >> 16) & 0xff) as u8);
    out.push(((n >> 24) & 0xff) as u8);
    assert(out@ =~= old(out)@ + u32_le_bytes(n));
}

/// Appends the little-endian bytes of `n`.
fn push_u64_le(out: &mut Vec<u8>, n: u64)
    ensures
        final(out)@ == old(out)@ + u64_le_bytes(n),
{
    out.push((n & 0xff) as u8);
    out.push(((n >> 8) & 0xff) as u8);
    out.push(((n >> 16) & 0xff) as u8);
    out.push(((n >> 24) & 0xff) as u8);
    out.push(((n >> 32) & 0xff) as u8);
    out.push(((n >> 40) & 0xff) as u8);
    out.push(((n >> 48) & 0xff) as u8);
    out.push(((n >> 56) & 0xff) as u8);
    assert(out@ =~= old(out)@ + u64_le_bytes(n));
}

/// Appends an identity's 32 bytes.
fn push_identity(out: &mut Vec<u8>, id: &Identity)
    ensures
        final(out)@ == old(out)@ + id@,
{
    let mut i: usize = 0;
    while i < 32
        invariant
            i <= 32,
            out@ == old(out)@ + id@.subrange(0, i as int),
        decreases 32 - i,
    {
        out.push(id.bytes[i]);
        assert(out@ =~= old(out)@ + id@.subrange(0, i as int + 1));
        i += 1;
    }
    assert(out@ =~= old(out)@ + id@);
}

/// Appends a byte string as it stands.
fn push_bytes(out: &mut Vec<u8>, src: &Vec<u8>)
    ensures
        final(out)@ == old(out)@ + src@,
{
    let mut i: usize = 0;
    while i < src.len()
        invariant
            i <= src@.len(),
            out@ == old(out)@ + src@.subrange(0, i as int),
        decreases src@.len() - i,
    {
        out.push(src[i]);
        assert(out@ =~= old(out)@ + src@.subrange(0, i as int + 1));
        i += 1;
    }
    assert(out@ =~= old(out)@ + src@);
}

/// Encodes a player record for its pre-sized storage. Rejects a record
/// whose name is over budget, since its image would not fit the space.
pub fn encode_player_account(p: &PlayerAccount) -> (r: Result<Vec<u8>, GameError>)
    ensures
        match r {
            Ok(b) => {
                &&& p@.name.len() <= MAX_NAME_LEN
                &&& b@ == spec_encode_player(p@)
                &&& b@.len() == PLAYER_RECORD_FIXED + p@.name.len()
                &&& b@.len() <= PLAYER_RECORD_SPACE
            },
            Err(e) => p@.name.len() > MAX_NAME_LEN && e == GameError::SerializationOverflow,
        },
{
    if p.name.len() > MAX_NAME_LEN {
        return Err(GameError::SerializationOverflow);
    }
    let mut out: Vec<u8> = Vec::new();
    push_u64_le(&mut out, PLAYER_RECORD_TAG);
    push_identity(&mut out, &p.authority);
    push_u32_le(&mut out, p.name.len() as u32);
    push_bytes(&mut out, &p.name);
    push_u32_le(&mut out, p.high_score);
    push_u32_le(&mut out, p.games_played);
    assert(out@ =~= spec_encode_player(p@));
    Ok(out)
}

/// Encodes the leaderboard for its pre-sized storage. Rejects a board whose
/// image would not fit: more entries than the bound, or an entry name over
/// budget.
pub fn encode_leaderboard(board: &Leaderboard) -> (r: Result<Vec<u8>, GameError>)
    ensures
        match r {
            Ok(b) => {
                &&& board@.top_scores.len() <= MAX_ENTRIES
                &&& crate::leaderboard::entries_name_ok(board@.top_scores)
                &&& b@ == spec_encode_board(board@)
                &&& b@.len() <= LEADERBOARD_SPACE
            },
            Err(e) => {
                &&& (board@.top_scores.len() > MAX_ENTRIES || !crate::leaderboard::entries_name_ok(
                    board@.top_scores,
                ))
                &&& e == GameError::SerializationOverflow
            },
        },
{
    if board.top_scores.len() > MAX_ENTRIES {
        return Err(GameError::SerializationOverflow);
    }
    let ghost entries = board@.top_scores;
    let mut out: Vec<u8> = Vec::new();
    push_u64_le(&mut out, LEADERBOARD_TAG);
    push_identity(&mut out, &board.authority);
    push_u32_le(&mut out, board.top_scores.len() as u32);
    let ghost header = out@;
    let mut i: usize = 0;
    while i < board.top_scores.len()
        invariant
            i <= entries.len(),
            entries.len() <= MAX_ENTRIES,
            entries == board@.top_scores,
            header == u64_le_bytes(LEADERBOARD_TAG) + board@.authority + u32_le_bytes(
                entries.len() as u32,
            ),
            out@ == header + entries_bytes(entries.take(i as int)),
            forall|j: int| 0 <= j < i ==> #[trigger] entries[j].name.len() <= MAX_NAME_LEN,
            out@.len() == header.len() + entries_lens(entries.take(i as int)),
        decreases entries.len() - i,
    {
        let entry = &board.top_scores[i];
        if entry.name.len() > MAX_NAME_LEN {
            return Err(GameError::SerializationOverflow);
        }
        let ghost out0 = out@;
        push_identity(&mut out, &entry.player);
        push_u32_le(&mut out, entry.name.len() as u32);
        push_bytes(&mut out, &entry.name);
        push_u32_le(&mut out, entry.score);
        proof {
            assert(out@ =~= out0 + spec_encode_entry(entries[i as int]));
            lemma_entries_bytes_snoc(entries, i as int);
            assert(out@ =~= header + entries_bytes(entries.take(i as int + 1)));
        }
        i += 1;
    }
    proof {
        assert(entries.take(entries.len() as int) =~= entries);
        assert(forall|j: int| 0 <= j < entries.len() ==> #[trigger] entries[j].player.len() == 32);
        lemma_entries_lens_bound(entries);
        assert(ENTRY_FIXED + MAX_NAME_LEN == 72);
        let ghost ec = entries.len();
        assert(ec * 72 <= 720) by (nonlinear_arith)
            requires
                ec <= 10,
        ;
        assert(header.len() == 44);
    }
    assert(out@ =~= spec_encode_board(board@));
    Ok(out)
}

/// The little-endian bytes of a 32-bit number reassemble to it.
proof fn lemma_u32_le_identity(n: u32)
    ensures
        (n & 0xff) | (((n >> 8) & 0xff) << 8) | (((n >> 16) & 0xff) << 16) | (((n >> 24) & 0xff)
            << 24) == n,
{
    assert((n & 0xff) | (((n >> 8) & 0xff) << 8) | (((n >> 16) & 0xff) << 16) | (((n >> 24) & 0xff)
        << 24) == n) by (bit_vector);
}

/// Each little-endian byte of a 32-bit number is below 256, and survives
/// the round trip through a byte value.
proof fn lemma_le_byte_casts(m: u32)
    ensures
        ((m & 0xff) as u8) as u32 == m & 0xff,
        (((m >> 8) & 0xff) as u8) as u32 == (m >> 8) & 0xff,
        (((m >> 16) & 0xff) as u8) as u32 == (m >> 16) & 0xff,
        (((m >> 24) & 0xff) as u8) as u32 == (m >> 24) & 0xff,
{
    assert(((m & 0xff) as u8) as u32 == m & 0xff && (((m >> 8) & 0xff) as u8) as u32 == (m >> 8)
        & 0xff && (((m >> 16) & 0xff) as u8) as u32 == (m >> 16) & 0xff && (((m >> 24)
        & 0xff) as u8) as u32 == (m >> 24) & 0xff) by (bit_vector);
}

/// A byte value survives the round trip through a 32-bit number.
proof fn lemma_byte_widen_round(x: u8)
    ensures
        (x as u32) as u8 == x,
{
    assert((x as u32) as u8 == x) by (bit_vector);
}

/// A 32-bit number assembled from four byte values hands each of them back.
proof fn lemma_u32_le_assemble(b0: u32, b1: u32, b2: u32, b3: u32)
    requires
        b0 < 256,
        b1 < 256,
        b2 < 256,
        b3 < 256,
    ensures
        (b0 | (b1 << 8) | (b2 << 16) | (b3 << 24)) & 0xff == b0,
        ((b0 | (b1 << 8) | (b2 << 16) | (b3 << 24)) >> 8) & 0xff == b1,
        ((b0 | (b1 << 8) | (b2 << 16) | (b3 << 24)) >> 16) & 0xff == b2,
        ((b0 | (b1 << 8) | (b2 << 16) | (b3 << 24)) >> 24) & 0xff == b3,
{
    assert(b0 < 256 && b1 < 256 && b2 < 256 && b3 < 256 ==> ((b0 | (b1 << 8) | (b2 << 16) | (b3
        << 24)) & 0xff == b0 && ((b0 | (b1 << 8) | (b2 << 16) | (b3 << 24)) >> 8) & 0xff == b1 && ((
    b0 | (b1 << 8) | (b2 << 16) | (b3 << 24)) >> 16) & 0xff == b2 && ((b0 | (b1 << 8) | (b2 << 16)
        | (b3 << 24)) >> 24) & 0xff == b3)) by (bit_vector);
}

/// Where each field of a player record sits in its image.
proof fn lemma_encode_player_parts(v: PlayerAccountView)
    requires
        v.authority.len() == 32,
    ensures
        spec_encode_player(v).len() == PLAYER_RECORD_FIXED + v.name.len(),
        forall|k: int|
            0 <= k < 8 ==> #[trigger] spec_encode_player(v)[k] == u64_le_bytes(
                PLAYER_RECORD_TAG,
            )[k],
        forall|k: int|
            8 <= k < 40 ==> #[trigger] spec_encode_player(v)[k] == v.authority[k - 8],
        forall|k: int|
            40 <= k < 44 ==> #[trigger] spec_encode_player(v)[k] == u32_le_bytes(
                v.name.len() as u32,
            )[k - 40],
        forall|k: int|
            44 <= k < 44 + v.name.len() ==> #[trigger] spec_encode_player(v)[k] == v.name[k - 44],
        forall|k: int|
            44 + v.name.len() <= k < 48 + v.name.len() ==> #[trigger] spec_encode_player(v)[k]
                == u32_le_bytes(v.high_score)[k - 44 - v.name.len()],
        forall|k: int|
            48 + v.name.len() <= k < 52 + v.name.len() ==> #[trigger] spec_encode_player(v)[k]
                == u32_le_bytes(v.games_played)[k - 48 - v.name.len()],
{
}

/// The layout is unambiguous: two storable records with the same image are
/// the same record.
pub proof fn lemma_encode_player_injective(a: PlayerAccountView, b: PlayerAccountView)
    requires
        valid_player(a),
        valid_player(b),
        spec_encode_player(a) == spec_encode_player(b),
    ensures
        a == b,
{
    lemma_encode_player_parts(a);
    lemma_encode_player_parts(b);
    assert(a.name.len() == b.name.len());
    assert forall|k: int| 0 <= k < 32 implies a.authority[k] == b.authority[k] by {
        assert(spec_encode_player(a)[k + 8] == a.authority[k]);
        assert(spec_encode_player(b)[k + 8] == b.authority[k]);
    }
    assert(a.authority =~= b.authority);
    assert forall|k: int| 0 <= k < a.name.len() implies a.name[k] == b.name[k] by {
        assert(spec_encode_player(a)[k + 44] == a.name[k]);
        assert(spec_encode_player(b)[k + 44] == b.name[k]);
    }
    assert(a.name =~= b.name);
    let nl = a.name.len() as int;
    assert forall|j: int| 0 <= j < 4 implies u32_le_bytes(a.high_score)[j] == u32_le_bytes(
        b.high_score,
    )[j] && u32_le_bytes(a.games_played)[j] == u32_le_bytes(b.games_played)[j] by {
        assert(spec_encode_player(a)[44 + nl + j] == u32_le_bytes(a.high_score)[j]);
        assert(spec_encode_player(b)[44 + nl + j] == u32_le_bytes(b.high_score)[j]);
        assert(spec_encode_player(a)[48 + nl + j] == u32_le_bytes(a.games_played)[j]);
        assert(spec_encode_player(b)[48 + nl + j] == u32_le_bytes(b.games_played)[j]);
    }
    lemma_u32_le_bytes_injective(a.high_score, b.high_score);
    lemma_u32_le_bytes_injective(a.games_played, b.games_played);
    assert(a =~= b);
}

/// Equal little-endian images mean equal numbers.
proof fn lemma_u32_le_bytes_injective(x: u32, y: u32)
    requires
        forall|j: int| 0 <= j < 4 ==> u32_le_bytes(x)[j] == u32_le_bytes(y)[j],
    ensures
        x == y,
{
    assert(u32_le_bytes(x)[0] == u32_le_bytes(y)[0]);
    assert(u32_le_bytes(x)[1] == u32_le_bytes(y)[1]);
    assert(u32_le_bytes(x)[2] == u32_le_bytes(y)[2]);
    assert(u32_le_bytes(x)[3] == u32_le_bytes(y)[3]);
    assert((x & 0xff) as u8 == (y & 0xff) as u8);
    assert(((x >> 8) & 0xff) as u8 == ((y >> 8) & 0xff) as u8);
    assert(((x >> 16) & 0xff) as u8 == ((y >> 16) & 0xff) as u8);
    assert(((x >> 24) & 0xff) as u8 == ((y >> 24) & 0xff) as u8);
    assert((x & 0xff) as u8 == (y & 0xff) as u8 && ((x >> 8) & 0xff) as u8 == ((y >> 8)
        & 0xff) as u8 && ((x >> 16) & 0xff) as u8 == ((y >> 16) & 0xff) as u8 && ((x >> 24)
        & 0xff) as u8 == ((y >> 24) & 0xff) as u8 ==> x == y) by (bit_vector);
}

/// Reads a player record back from its pre-sized storage: the exact inverse
/// of [`encode_player_account`]. `None` exactly when the bytes are not the
/// image of any storable record.
pub fn decode_player_account(bytes: &Vec<u8>) -> (r: Option<PlayerAccount>)
    ensures
        match r {
            Option::Some(p) => valid_player(p@) && bytes@ == spec_encode_player(p@),
            Option::None => forall|v: PlayerAccountView|
                valid_player(v) ==> bytes@ != #[trigger] spec_encode_player(v),
        },
{
    let n = bytes.len();
    if n < PLAYER_RECORD_FIXED {
        proof {
            assert forall|v: PlayerAccountView| valid_player(v) implies bytes@
                != #[trigger] spec_encode_player(v) by {
                lemma_encode_player_parts(v);
            }
        }
        return Option::None;
    }
    let t = PLAYER_RECORD_TAG;
    if bytes[0] != (t & 0xff) as u8 || bytes[1] != ((t >> 8) & 0xff) as u8 || bytes[2] != ((t
        >> 16) & 0xff) as u8 || bytes[3] != ((t >> 24) & 0xff) as u8 || bytes[4] != ((t >> 32)
        & 0xff) as u8 || bytes[5] != ((t >> 40) & 0xff) as u8 || bytes[6] != ((t >> 48)
        & 0xff) as u8 || bytes[7] != ((t >> 56) & 0xff) as u8 {
        proof {
            assert forall|v: PlayerAccountView| valid_player(v) implies bytes@
                != #[trigger] spec_encode_player(v) by {
                lemma_encode_player_parts(v);
                if bytes@ == spec_encode_player(v) {
                    assert(bytes@[0] == u64_le_bytes(PLAYER_RECORD_TAG)[0]);
                    assert(bytes@[1] == u64_le_bytes(PLAYER_RECORD_TAG)[1]);
                    assert(bytes@[2] == u64_le_bytes(PLAYER_RECORD_TAG)[2]);
                    assert(bytes@[3] == u64_le_bytes(PLAYER_RECORD_TAG)[3]);
                    assert(bytes@[4] == u64_le_bytes(PLAYER_RECORD_TAG)[4]);
                    assert(bytes@[5] == u64_le_bytes(PLAYER_RECORD_TAG)[5]);
                    assert(bytes@[6] == u64_le_bytes(PLAYER_RECORD_TAG)[6]);
                    assert(bytes@[7] == u64_le_bytes(PLAYER_RECORD_TAG)[7]);
                }
            }
        }
        return Option::None;
    }
    let b0 = bytes[40] as u32;
    let b1 = bytes[41] as u32;
    let b2 = bytes[42] as u32;
    let b3 = bytes[43] as u32;
    let nl_u32 = b0 | (b1 << 8) | (b2 << 16) | (b3 << 24);
    proof {
        lemma_u32_le_assemble(b0, b1, b2, b3);
        assert forall|v: PlayerAccountView|
            valid_player(v) && bytes@ == spec_encode_player(v) implies nl_u32
            == v.name.len() as u32 by {
            lemma_encode_player_parts(v);
            let m = v.name.len() as u32;
            assert(bytes@[40] == u32_le_bytes(m)[0]);
            assert(bytes@[41] == u32_le_bytes(m)[1]);
            assert(bytes@[42] == u32_le_bytes(m)[2]);
            assert(bytes@[43] == u32_le_bytes(m)[3]);
            lemma_le_byte_casts(m);
            assert(b0 == m & 0xff);
            assert(b1 == (m >> 8) & 0xff);
            assert(b2 == (m >> 16) & 0xff);
            assert(b3 == (m >> 24) & 0xff);
            lemma_u32_le_identity(m);
        }
    }
    let name_len = nl_u32 as usize;
    if name_len > MAX_NAME_LEN {
        proof {
            assert forall|v: PlayerAccountView| valid_player(v) implies bytes@
                != #[trigger] spec_encode_player(v) by {
                if bytes@ == spec_encode_player(v) {
                    assert(nl_u32 == v.name.len() as u32);
                }
            }
        }
        return Option::None;
    }
    if n != PLAYER_RECORD_FIXED + name_len {
        proof {
            assert forall|v: PlayerAccountView| valid_player(v) implies bytes@
                != #[trigger] spec_encode_player(v) by {
                lemma_encode_player_parts(v);
                if bytes@ == spec_encode_player(v) {
                    assert(nl_u32 == v.name.len() as u32);
                }
            }
        }
        return Option::None;
    }
    let mut auth: [u8; 32] = [0u8; 32];
    let mut i: usize = 0;
    while i < 32
        invariant
            i <= 32,
            bytes@.len() >= 52,
            forall|j: int| 0 <= j < i ==> auth@[j] == bytes@[8 + j],
        decreases 32 - i,
    {
        auth[i] = bytes[8 + i];
        i += 1;
    }
    let mut name: Vec<u8> = Vec::new();
    let mut j: usize = 0;
    while j < name_len
        invariant
            j <= name_len,
            name_len <= MAX_NAME_LEN,
            bytes@.len() == PLAYER_RECORD_FIXED + name_len,
            name@ =~= bytes@.subrange(44, 44 + j as int),
        decreases name_len - j,
    {
        name.push(bytes[44 + j]);
        assert(name@ =~= bytes@.subrange(44, 44 + j as int + 1));
        j += 1;
    }
    let h0 = bytes[44 + name_len] as u32;
    let h1 = bytes[45 + name_len] as u32;
    let h2 = bytes[46 + name_len] as u32;
    let h3 = bytes[47 + name_len] as u32;
    let high_score = h0 | (h1 << 8) | (h2 << 16) | (h3 << 24);
    let g0 = bytes[48 + name_len] as u32;
    let g1 = bytes[49 + name_len] as u32;
    let g2 = bytes[50 + name_len] as u32;
    let g3 = bytes[51 + name_len] as u32;
    let games_played = g0 | (g1 << 8) | (g2 << 16) | (g3 << 24);
    let record = PlayerAccount {
        authority: Identity { bytes: auth },
        name,
        high_score,
        games_played,
    };
    proof {
        lemma_u32_le_assemble(h0, h1, h2, h3);
        lemma_u32_le_assemble(g0, g1, g2, g3);
        lemma_u32_le_assemble(b0, b1, b2, b3);
        lemma_encode_player_parts(record@);
        let nl = name_len as int;
        lemma_byte_widen_round(bytes@[40]);
        lemma_byte_widen_round(bytes@[41]);
        lemma_byte_widen_round(bytes@[42]);
        lemma_byte_widen_round(bytes@[43]);
        lemma_byte_widen_round(bytes@[44 + nl]);
        lemma_byte_widen_round(bytes@[45 + nl]);
        lemma_byte_widen_round(bytes@[46 + nl]);
        lemma_byte_widen_round(bytes@[47 + nl]);
        lemma_byte_widen_round(bytes@[48 + nl]);
        lemma_byte_widen_round(bytes@[49 + nl]);
        lemma_byte_widen_round(bytes@[50 + nl]);
        lemma_byte_widen_round(bytes@[51 + nl]);
        assert(u32_le_bytes(nl_u32)[0] == bytes@[40]);
        assert(u32_le_bytes(nl_u32)[1] == bytes@[41]);
        assert(u32_le_bytes(nl_u32)[2] == bytes@[42]);
        assert(u32_le_bytes(nl_u32)[3] == bytes@[43]);
        assert(u32_le_bytes(high_score)[0] == bytes@[44 + nl]);
        assert(u32_le_bytes(high_score)[1] == bytes@[45 + nl]);
        assert(u32_le_bytes(high_score)[2] == bytes@[46 + nl]);
        assert(u32_le_bytes(high_score)[3] == bytes@[47 + nl]);
        assert(u32_le_bytes(games_played)[0] == bytes@[48 + nl]);
        assert(u32_le_bytes(games_played)[1] == bytes@[49 + nl]);
        assert(u32_le_bytes(games_played)[2] == bytes@[50 + nl]);
        assert(u32_le_bytes(games_played)[3] == bytes@[51 + nl]);
        assert(bytes@[0] == u64_le_bytes(PLAYER_RECORD_TAG)[0]);
        assert(bytes@[1] == u64_le_bytes(PLAYER_RECORD_TAG)[1]);
        assert(bytes@[2] == u64_le_bytes(PLAYER_RECORD_TAG)[2]);
        assert(bytes@[3] == u64_le_bytes(PLAYER_RECORD_TAG)[3]);
        assert(bytes@[4] == u64_le_bytes(PLAYER_RECORD_TAG)[4]);
        assert(bytes@[5] == u64_le_bytes(PLAYER_RECORD_TAG)[5]);
        assert(bytes@[6] == u64_le_bytes(PLAYER_RECORD_TAG)[6]);
        assert(bytes@[7] == u64_le_bytes(PLAYER_RECORD_TAG)[7]);
        assert forall|k: int| 0 <= k < bytes@.len() implies bytes@[k] == spec_encode_player(
            record@,
        )[k] by {
            if k < 8 {
            } else if k < 40 {
                assert(auth@[k - 8] == bytes@[k]);
            } else if k < 44 {
                assert(record@.name.len() as u32 == nl_u32);
                assert(u32_le_bytes(nl_u32)[k - 40] == bytes@[k]);
            } else if k < 44 + nl {
                assert(record@.name[k - 44] == bytes@[k]);
            } else if k < 48 + nl {
                assert(u32_le_bytes(high_score)[k - 44 - nl] == bytes@[k]);
            } else {
                assert(u32_le_bytes(games_played)[k - 48 - nl] == bytes@[k]);
            }
        }
        assert(bytes@ =~= spec_encode_player(record@));
    }
    Option::Some(record)
}

/// Total length of a run of entry images.
pub open spec fn entries_lens(s: Seq<LeaderboardEntryView>) -> nat
    decreases s.len(),
{
    if s.len() == 0 {
        0
    } else {
        spec_encode_entry(s[0]).len() + entries_lens(s.drop_first())
    }
}

/// Extending a run of entries by one appends that entry's image.
proof fn lemma_entries_bytes_snoc(s: Seq<LeaderboardEntryView>, i: int)
    requires
        0 <= i < s.len(),
    ensures
        entries_bytes(s.take(i + 1)) == entries_bytes(s.take(i)) + spec_encode_entry(s[i]),
        entries_lens(s.take(i + 1)) == entries_lens(s.take(i)) + spec_encode_entry(s[i]).len(),
    decreases i,
{
    if i == 0 {
        assert(s.take(1).drop_first() =~= Seq::<LeaderboardEntryView>::empty());
        assert(s.take(0) =~= Seq::<LeaderboardEntryView>::empty());
        assert(entries_bytes(s.take(1)) =~= spec_encode_entry(s[0]));
    } else {
        lemma_entries_bytes_snoc(s.drop_first(), i - 1);
        assert(s.take(i + 1).drop_first() =~= s.drop_first().take(i));
        assert(s.take(i).drop_first() =~= s.drop_first().take(i - 1));
        assert(s.take(i + 1)[0] == s[0]);
        assert(s.take(i)[0] == s[0]);
        assert(s.drop_first()[i - 1] == s[i]);
        assert(entries_bytes(s.take(i + 1)) =~= entries_bytes(s.take(i)) + spec_encode_entry(
            s[i],
        ));
    }
}

/// A run of entries with full-size identities and names in budget fits its
/// share of the space.
proof fn lemma_entries_lens_bound(s: Seq<LeaderboardEntryView>)
    requires
        forall|j: int| 0 <= j < s.len() ==> #[trigger] s[j].name.len() <= MAX_NAME_LEN,
        forall|j: int| 0 <= j < s.len() ==> #[trigger] s[j].player.len() == 32,
    ensures
        entries_bytes(s).len() == entries_lens(s),
        entries_lens(s) <= s.len() * (ENTRY_FIXED + MAX_NAME_LEN),
    decreases s.len(),
{
    if s.len() == 0 {
    } else {
        assert forall|j: int|
            0 <= j < s.drop_first().len() implies #[trigger] s.drop_first()[j].name.len()
            <= MAX_NAME_LEN && #[trigger] s.drop_first()[j].player.len() == 32 by {
            assert(s.drop_first()[j] == s[j + 1]);
        }
        lemma_entries_lens_bound(s.drop_first());
        assert(spec_encode_entry(s[0]).len() == ENTRY_FIXED + s[0].name.len());
        assert((s.len() - 1) * (ENTRY_FIXED + MAX_NAME_LEN) + (ENTRY_FIXED + MAX_NAME_LEN)
            == s.len() * (ENTRY_FIXED + MAX_NAME_LEN)) by (nonlinear_arith);
    }
}

/// An entry view that some real entry can carry.
pub open spec fn valid_entry(e: LeaderboardEntryView) -> bool {
    &&& e.player.len() == 32
    &&& e.name.len() <= MAX_NAME_LEN
}

/// A board view that some real leaderboard in its pre-sized storage can
/// carry.
pub open spec fn valid_board(v: LeaderboardView) -> bool {
    &&& v.authority.len() == 32
    &&& v.top_scores.len() <= MAX_ENTRIES
    &&& forall|i: int| 0 <= i < v.top_scores.len() ==> valid_entry(#[trigger] v.top_scores[i])
}

/// A run of entry images is as long as its parts say.
proof fn lemma_entries_bytes_len(s: Seq<LeaderboardEntryView>)
    ensures
        entries_bytes(s).len() == entries_lens(s),
    decreases s.len(),
{
    if s.len() == 0 {
    } else {
        lemma_entries_bytes_len(s.drop_first());
    }
}

/// Where each field of one entry sits in its image.
proof fn lemma_encode_entry_parts(e: LeaderboardEntryView)
    requires
        e.player.len() == 32,
    ensures
        spec_encode_entry(e).len() == ENTRY_FIXED + e.name.len(),
        forall|k: int| 0 <= k < 32 ==> #[trigger] spec_encode_entry(e)[k] == e.player[k],
        forall|k: int|
            32 <= k < 36 ==> #[trigger] spec_encode_entry(e)[k] == u32_le_bytes(
                e.name.len() as u32,
            )[k - 32],
        forall|k: int|
            36 <= k < 36 + e.name.len() ==> #[trigger] spec_encode_entry(e)[k] == e.name[k - 36],
        forall|k: int|
            36 + e.name.len() <= k < 40 + e.name.len() ==> #[trigger] spec_encode_entry(e)[k]
                == u32_le_bytes(e.score)[k - 36 - e.name.len()],
{
}

/// Extending a run of entries by one appends that entry's image.
proof fn lemma_entries_bytes_push(s: Seq<LeaderboardEntryView>, e: LeaderboardEntryView)
    ensures
        entries_bytes(s.push(e)) == entries_bytes(s) + spec_encode_entry(e),
        entries_lens(s.push(e)) == entries_lens(s) + spec_encode_entry(e).len(),
    decreases s.len(),
{
    if s.len() == 0 {
        assert(s.push(e)[0] == e);
        assert(s.push(e).drop_first() =~= Seq::<LeaderboardEntryView>::empty());
        assert(entries_bytes(Seq::<LeaderboardEntryView>::empty()) == Seq::<u8>::empty());
        assert(entries_lens(Seq::<LeaderboardEntryView>::empty()) == 0);
        assert(entries_bytes(s.push(e)) == spec_encode_entry(e) + Seq::<u8>::empty());
        assert(entries_lens(s.push(e)) == spec_encode_entry(e).len());
        assert(entries_bytes(s.push(e)) =~= entries_bytes(s) + spec_encode_entry(e));
    } else {
        lemma_entries_bytes_push(s.drop_first(), e);
        assert(s.push(e).drop_first() =~= s.drop_first().push(e));
        assert(s.push(e)[0] == s[0]);
        assert(entries_bytes(s.push(e)) == spec_encode_entry(s[0]) + entries_bytes(
            s.drop_first().push(e),
        ));
        assert(entries_lens(s.push(e)) == spec_encode_entry(s[0]).len() + entries_lens(
            s.drop_first().push(e),
        ));
        assert(entries_bytes(s.push(e)) =~= entries_bytes(s) + spec_encode_entry(e));
    }
}

/// Where each field of the leaderboard sits in its image.
proof fn lemma_encode_board_parts(v: LeaderboardView)
    requires
        v.authority.len() == 32,
    ensures
        spec_encode_board(v).len() == 44 + entries_lens(v.top_scores),
        forall|k: int|
            0 <= k < 8 ==> #[trigger] spec_encode_board(v)[k] == u64_le_bytes(LEADERBOARD_TAG)[k],
        forall|k: int| 8 <= k < 40 ==> #[trigger] spec_encode_board(v)[k] == v.authority[k - 8],
        forall|k: int|
            40 <= k < 44 ==> #[trigger] spec_encode_board(v)[k] == u32_le_bytes(
                v.top_scores.len() as u32,
            )[k - 40],
        forall|k: int|
            44 <= k < 44 + entries_lens(v.top_scores) ==> #[trigger] spec_encode_board(v)[k]
                == entries_bytes(v.top_scores)[k - 44],
{
    lemma_entries_bytes_len(v.top_scores);
}

/// Runs of storable entries with the same image are the same run.
proof fn lemma_entries_bytes_injective(s1: Seq<LeaderboardEntryView>, s2: Seq<LeaderboardEntryView>)
    requires
        forall|i: int| 0 <= i < s1.len() ==> valid_entry(#[trigger] s1[i]),
        forall|i: int| 0 <= i < s2.len() ==> valid_entry(#[trigger] s2[i]),
        s1.len() == s2.len(),
        entries_bytes(s1) == entries_bytes(s2),
    ensures
        s1 == s2,
    decreases s1.len(),
{
    if s1.len() == 0 {
        assert(s1 =~= s2);
    } else {
        let h1 = s1[0];
        let h2 = s2[0];
        lemma_encode_entry_parts(h1);
        lemma_encode_entry_parts(h2);
        let b = entries_bytes(s1);
        let t1 = entries_bytes(s1.drop_first());
        let t2 = entries_bytes(s2.drop_first());
        assert(b == spec_encode_entry(h1) + t1);
        assert(entries_bytes(s2) == spec_encode_entry(h2) + t2);
        let m1 = h1.name.len() as u32;
        let m2 = h2.name.len() as u32;
        assert forall|j: int| 0 <= j < 4 implies u32_le_bytes(m1)[j] == u32_le_bytes(m2)[j] by {
            assert(b[32 + j] == spec_encode_entry(h1)[32 + j]);
            assert(b[32 + j] == spec_encode_entry(h2)[32 + j]);
        }
        lemma_u32_le_bytes_injective(m1, m2);
        assert(h1.name.len() == h2.name.len());
        let nl = h1.name.len() as int;
        assert forall|k: int| 0 <= k < 32 implies h1.player[k] == h2.player[k] by {
            assert(b[k] == spec_encode_entry(h1)[k]);
            assert(b[k] == spec_encode_entry(h2)[k]);
        }
        assert(h1.player =~= h2.player);
        assert forall|k: int| 0 <= k < nl implies h1.name[k] == h2.name[k] by {
            assert(b[36 + k] == spec_encode_entry(h1)[36 + k]);
            assert(b[36 + k] == spec_encode_entry(h2)[36 + k]);
        }
        assert(h1.name =~= h2.name);
        assert forall|j: int| 0 <= j < 4 implies u32_le_bytes(h1.score)[j] == u32_le_bytes(
            h2.score,
        )[j] by {
            assert(b[36 + nl + j] == spec_encode_entry(h1)[36 + nl + j]);
            assert(b[36 + nl + j] == spec_encode_entry(h2)[36 + nl + j]);
        }
        lemma_u32_le_bytes_injective(h1.score, h2.score);
        assert(h1 =~= h2);
        assert(spec_encode_entry(h1) == spec_encode_entry(h2));
        let hl = spec_encode_entry(h1).len() as int;
        assert(t1.len() == t2.len());
        assert forall|q: int| 0 <= q < t1.len() implies t1[q] == t2[q] by {
            assert(b[hl + q] == t1[q]);
            assert((spec_encode_entry(h2) + t2)[hl + q] == t2[q]);
        }
        assert(t1 =~= t2);
        assert forall|i: int| 0 <= i < s1.drop_first().len() implies valid_entry(
            #[trigger] s1.drop_first()[i],
        ) by {
            assert(s1.drop_first()[i] == s1[i + 1]);
        }
        assert forall|i: int| 0 <= i < s2.drop_first().len() implies valid_entry(
            #[trigger] s2.drop_first()[i],
        ) by {
            assert(s2.drop_first()[i] == s2[i + 1]);
        }
        lemma_entries_bytes_injective(s1.drop_first(), s2.drop_first());
        assert forall|i: int| 0 <= i < s1.len() implies s1[i] == s2[i] by {
            if i > 0 {
                assert(s1.drop_first()[i - 1] == s1[i]);
                assert(s2.drop_first()[i - 1] == s2[i]);
            }
        }
        assert(s1 =~= s2);
    }
}

/// The layout is unambiguous for the leaderboard too: two storable boards
/// with the same image are the same board.
pub proof fn lemma_encode_board_injective(a: LeaderboardView, b: LeaderboardView)
    requires
        valid_board(a),
        valid_board(b),
        spec_encode_board(a) == spec_encode_board(b),
    ensures
        a == b,
{
    lemma_encode_board_parts(a);
    lemma_encode_board_parts(b);
    lemma_entries_bytes_len(a.top_scores);
    lemma_entries_bytes_len(b.top_scores);
    let img = spec_encode_board(a);
    let ma = a.top_scores.len() as u32;
    let mb = b.top_scores.len() as u32;
    assert forall|j: int| 0 <= j < 4 implies u32_le_bytes(ma)[j] == u32_le_bytes(mb)[j] by {
        assert(img[40 + j] == u32_le_bytes(ma)[j]);
        assert(img[40 + j] == u32_le_bytes(mb)[j]);
    }
    lemma_u32_le_bytes_injective(ma, mb);
    assert(a.top_scores.len() == b.top_scores.len());
    assert forall|k: int| 0 <= k < 32 implies a.authority[k] == b.authority[k] by {
        assert(img[8 + k] == a.authority[k]);
        assert(img[8 + k] == b.authority[k]);
    }
    assert(a.authority =~= b.authority);
    assert(entries_bytes(a.top_scores).len() == entries_bytes(b.top_scores).len());
    assert forall|k: int| 0 <= k < entries_bytes(a.top_scores).len() implies entries_bytes(
        a.top_scores,
    )[k] == entries_bytes(b.top_scores)[k] by {
        assert(img[44 + k] == entries_bytes(a.top_scores)[k]);
        assert(img[44 + k] == entries_bytes(b.top_scores)[k]);
    }
    assert(entries_bytes(a.top_scores) =~= entries_bytes(b.top_scores));
    lemma_entries_bytes_injective(a.top_scores, b.top_scores);
    assert(a =~= b);
}

/// Reads the leaderboard back from its pre-sized storage: the exact inverse
/// of [`encode_leaderboard`]. `None` exactly when the bytes are not the
/// image of any storable leaderboard.
#[verifier::rlimit(80)]
pub fn decode_leaderboard(bytes: &Vec<u8>) -> (r: Option<Leaderboard>)
    ensures
        match r {
            Option::Some(b) => valid_board(b@) && bytes@ == spec_encode_board(b@),
            Option::None => forall|v: LeaderboardView|
                valid_board(v) ==> bytes@ != #[trigger] spec_encode_board(v),
        },
{
    let n = bytes.len();
    if n < 44 {
        proof {
            assert forall|v: LeaderboardView| valid_board(v) implies bytes@
                != #[trigger] spec_encode_board(v) by {
                lemma_encode_board_parts(v);
            }
        }
        return Option::None;
    }
    let t = LEADERBOARD_TAG;
    if bytes[0] != (t & 0xff) as u8 || bytes[1] != ((t >> 8) & 0xff) as u8 || bytes[2] != ((t
        >> 16) & 0xff) as u8 || bytes[3] != ((t >> 24) & 0xff) as u8 || bytes[4] != ((t >> 32)
        & 0xff) as u8 || bytes[5] != ((t >> 40) & 0xff) as u8 || bytes[6] != ((t >> 48)
        & 0xff) as u8 || bytes[7] != ((t >> 56) & 0xff) as u8 {
        proof {
            assert forall|v: LeaderboardView| valid_board(v) implies bytes@
                != #[trigger] spec_encode_board(v) by {
                lemma_encode_board_parts(v);
                if bytes@ == spec_encode_board(v) {
                    assert(bytes@[0] == u64_le_bytes(LEADERBOARD_TAG)[0]);
                    assert(bytes@[1] == u64_le_bytes(LEADERBOARD_TAG)[1]);
                    assert(bytes@[2] == u64_le_bytes(LEADERBOARD_TAG)[2]);
                    assert(bytes@[3] == u64_le_bytes(LEADERBOARD_TAG)[3]);
                    assert(bytes@[4] == u64_le_bytes(LEADERBOARD_TAG)[4]);
                    assert(bytes@[5] == u64_le_bytes(LEADERBOARD_TAG)[5]);
                    assert(bytes@[6] == u64_le_bytes(LEADERBOARD_TAG)[6]);
                    assert(bytes@[7] == u64_le_bytes(LEADERBOARD_TAG)[7]);
                }
            }
        }
        return Option::None;
    }
    proof {
        assert(bytes@.subrange(0, 8) =~= u64_le_bytes(LEADERBOARD_TAG));
    }
    let mut auth: [u8; 32] = [0u8; 32];
    let mut j: usize = 0;
    while j < 32
        invariant
            j <= 32,
            bytes@.len() >= 44,
            forall|q: int| 0 <= q < j ==> auth@[q] == bytes@[8 + q],
        decreases 32 - j,
    {
        auth[j] = bytes[8 + j];
        j += 1;
    }
    let c0 = bytes[40] as u32;
    let c1 = bytes[41] as u32;
    let c2 = bytes[42] as u32;
    let c3 = bytes[43] as u32;
    let cnt_u32 = c0 | (c1 << 8) | (c2 << 16) | (c3 << 24);
    proof {
        lemma_u32_le_assemble(c0, c1, c2, c3);
        assert forall|v: LeaderboardView|
            valid_board(v) && bytes@ == #[trigger] spec_encode_board(v) implies cnt_u32
            == v.top_scores.len() as u32 by {
            lemma_encode_board_parts(v);
            let m = v.top_scores.len() as u32;
            assert(bytes@[40] == u32_le_bytes(m)[0]);
            assert(bytes@[41] == u32_le_bytes(m)[1]);
            assert(bytes@[42] == u32_le_bytes(m)[2]);
            assert(bytes@[43] == u32_le_bytes(m)[3]);
            lemma_le_byte_casts(m);
            assert(c0 == m & 0xff);
            assert(c1 == (m >> 8) & 0xff);
            assert(c2 == (m >> 16) & 0xff);
            assert(c3 == (m >> 24) & 0xff);
            lemma_u32_le_identity(m);
        }
    }
    if cnt_u32 > MAX_ENTRIES as u32 {
        proof {
            assert forall|v: LeaderboardView| valid_board(v) implies bytes@
                != #[trigger] spec_encode_board(v) by {
                if bytes@ == spec_encode_board(v) {
                    assert(cnt_u32 == v.top_scores.len() as u32);
                }
            }
        }
        return Option::None;
    }
    let count = cnt_u32 as usize;
    proof {
        assert forall|v: LeaderboardView|
            valid_board(v) && bytes@ == #[trigger] spec_encode_board(v) implies v.top_scores.len()
            == count && bytes@.subrange(44, n as int) == entries_bytes(v.top_scores.skip(0)) by {
            lemma_encode_board_parts(v);
            lemma_entries_bytes_len(v.top_scores);
            assert(v.top_scores.skip(0) =~= v.top_scores);
            assert forall|k: int| 0 <= k < n - 44 implies bytes@.subrange(44, n as int)[k]
                == entries_bytes(v.top_scores)[k] by {
                assert(bytes@[44 + k] == spec_encode_board(v)[44 + k]);
            }
            assert(bytes@.subrange(44, n as int) =~= entries_bytes(v.top_scores));
        }
    }
    let mut entries: Vec<LeaderboardEntry> = Vec::new();
    let mut off: usize = 44;
    let mut i: usize = 0;
    proof {
        assert(entry_views(entries@) =~= Seq::<LeaderboardEntryView>::empty());
        assert(bytes@.subrange(44, 44) =~= entries_bytes(entry_views(entries@)));
    }
    while i < count
        invariant
            i <= count,
            count <= MAX_ENTRIES,
            n == bytes@.len(),
            44 <= off <= n,
            entries@.len() == i,
            forall|q: int|
                0 <= q < i ==> #[trigger] entry_views(entries@)[q].name.len() <= MAX_NAME_LEN,
            bytes@.subrange(44, off as int) == entries_bytes(entry_views(entries@)),
            off == 44 + entries_lens(entry_views(entries@)),
            forall|v: LeaderboardView|
                valid_board(v) && bytes@ == #[trigger] spec_encode_board(v) ==> {
                    &&& v.top_scores.len() == count
                    &&& v.top_scores.take(i as int) == entry_views(entries@)
                    &&& bytes@.subrange(off as int, n as int) == entries_bytes(
                        v.top_scores.skip(i as int),
                    )
                },
        decreases count - i,
    {
        if n - off < ENTRY_FIXED {
            proof {
                assert forall|v: LeaderboardView| valid_board(v) implies bytes@
                    != #[trigger] spec_encode_board(v) by {
                    if bytes@ == spec_encode_board(v) {
                        let ts = v.top_scores;
                        let rest = ts.skip(i as int);
                        assert(rest[0] == ts[i as int]);
                        assert(rest.drop_first() =~= ts.skip(i as int + 1));
                        lemma_encode_entry_parts(ts[i as int]);
                        lemma_entries_bytes_len(ts.skip(i as int + 1));
                        assert(bytes@.subrange(off as int, n as int).len() == n - off);
                    }
                }
            }
            return Option::None;
        }
        let mut ep: [u8; 32] = [0u8; 32];
        let mut j2: usize = 0;
        while j2 < 32
            invariant
                j2 <= 32,
                n == bytes@.len(),
                44 <= off <= n,
                n - off >= ENTRY_FIXED,
                forall|q: int| 0 <= q < j2 ==> ep@[q] == bytes@[off + q],
            decreases 32 - j2,
        {
            ep[j2] = bytes[off + j2];
            j2 += 1;
        }
        let e0 = bytes[off + 32] as u32;
        let e1 = bytes[off + 33] as u32;
        let e2 = bytes[off + 34] as u32;
        let e3 = bytes[off + 35] as u32;
        let enl_u32 = e0 | (e1 << 8) | (e2 << 16) | (e3 << 24);
        proof {
            lemma_u32_le_assemble(e0, e1, e2, e3);
            assert forall|v: LeaderboardView|
                valid_board(v) && bytes@ == #[trigger] spec_encode_board(v) implies enl_u32
                == v.top_scores[i as int].name.len() as u32 by {
                let ts = v.top_scores;
                let rest = ts.skip(i as int);
                assert(rest[0] == ts[i as int]);
                lemma_encode_entry_parts(ts[i as int]);
                let m = ts[i as int].name.len() as u32;
                assert(bytes@.subrange(off as int, n as int)[32] == entries_bytes(rest)[32]);
                assert(bytes@.subrange(off as int, n as int)[33] == entries_bytes(rest)[33]);
                assert(bytes@.subrange(off as int, n as int)[34] == entries_bytes(rest)[34]);
                assert(bytes@.subrange(off as int, n as int)[35] == entries_bytes(rest)[35]);
                assert(spec_encode_entry(ts[i as int])[32] == u32_le_bytes(m)[0]);
                assert(spec_encode_entry(ts[i as int])[33] == u32_le_bytes(m)[1]);
                assert(spec_encode_entry(ts[i as int])[34] == u32_le_bytes(m)[2]);
                assert(spec_encode_entry(ts[i as int])[35] == u32_le_bytes(m)[3]);
                assert(bytes@[off + 32] == u32_le_bytes(m)[0]);
                assert(bytes@[off + 33] == u32_le_bytes(m)[1]);
                assert(bytes@[off + 34] == u32_le_bytes(m)[2]);
                assert(bytes@[off + 35] == u32_le_bytes(m)[3]);
                lemma_le_byte_casts(m);
                lemma_u32_le_identity(m);
            }
        }
        if enl_u32 > MAX_NAME_LEN as u32 {
            proof {
                assert forall|v: LeaderboardView| valid_board(v) implies bytes@
                    != #[trigger] spec_encode_board(v) by {
                    if bytes@ == spec_encode_board(v) {
                        assert(enl_u32 == v.top_scores[i as int].name.len() as u32);
                    }
                }
            }
            return Option::None;
        }
        let enl = enl_u32 as usize;
        if n - off < ENTRY_FIXED + enl {
            proof {
                assert forall|v: LeaderboardView| valid_board(v) implies bytes@
                    != #[trigger] spec_encode_board(v) by {
                    if bytes@ == spec_encode_board(v) {
                        let ts = v.top_scores;
                        let rest = ts.skip(i as int);
                        assert(rest[0] == ts[i as int]);
                        assert(rest.drop_first() =~= ts.skip(i as int + 1));
                        lemma_encode_entry_parts(ts[i as int]);
                        lemma_entries_bytes_len(ts.skip(i as int + 1));
                        assert(enl_u32 == ts[i as int].name.len() as u32);
                        assert(bytes@.subrange(off as int, n as int).len() == n - off);
                    }
                }
            }
            return Option::None;
        }
        let mut ename: Vec<u8> = Vec::new();
        let mut k2: usize = 0;
        while k2 < enl
            invariant
                k2 <= enl,
                n == bytes@.len(),
                44 <= off <= n,
                n - off >= ENTRY_FIXED + enl,
                ename@ =~= bytes@.subrange(off as int + 36, off as int + 36 + k2 as int),
            decreases enl - k2,
        {
            ename.push(bytes[off + 36 + k2]);
            assert(ename@ =~= bytes@.subrange(off as int + 36, off as int + 36 + k2 as int + 1));
            k2 += 1;
        }
        let s0 = bytes[off + 36 + enl] as u32;
        let s1 = bytes[off + 37 + enl] as u32;
        let s2 = bytes[off + 38 + enl] as u32;
        let s3 = bytes[off + 39 + enl] as u32;
        let score = s0 | (s1 << 8) | (s2 << 16) | (s3 << 24);
        let entry = LeaderboardEntry { player: Identity { bytes: ep }, name: ename, score };
        let ghost prev_views = entry_views(entries@);
        let ghost off0 = off as int;
        let ghost elen = (ENTRY_FIXED + enl) as int;
        proof {
            lemma_u32_le_assemble(s0, s1, s2, s3);
            lemma_byte_widen_round(bytes@[off0 + 32]);
            lemma_byte_widen_round(bytes@[off0 + 33]);
            lemma_byte_widen_round(bytes@[off0 + 34]);
            lemma_byte_widen_round(bytes@[off0 + 35]);
            lemma_byte_widen_round(bytes@[off0 + 36 + enl]);
            lemma_byte_widen_round(bytes@[off0 + 37 + enl]);
            lemma_byte_widen_round(bytes@[off0 + 38 + enl]);
            lemma_byte_widen_round(bytes@[off0 + 39 + enl]);
            lemma_encode_entry_parts(entry@);
            assert(u32_le_bytes(enl_u32)[0] == bytes@[off0 + 32]);
            assert(u32_le_bytes(enl_u32)[1] == bytes@[off0 + 33]);
            assert(u32_le_bytes(enl_u32)[2] == bytes@[off0 + 34]);
            assert(u32_le_bytes(enl_u32)[3] == bytes@[off0 + 35]);
            assert(u32_le_bytes(score)[0] == bytes@[off0 + 36 + enl]);
            assert(u32_le_bytes(score)[1] == bytes@[off0 + 37 + enl]);
            assert(u32_le_bytes(score)[2] == bytes@[off0 + 38 + enl]);
            assert(u32_le_bytes(score)[3] == bytes@[off0 + 39 + enl]);
            assert(entry@.name.len() == enl);
            assert forall|q: int| 0 <= q < elen implies bytes@[off0 + q] == spec_encode_entry(
                entry@,
            )[q] by {
                if q < 32 {
                    assert(ep@[q] == bytes@[off0 + q]);
                } else if q < 36 {
                    assert(spec_encode_entry(entry@)[q] == u32_le_bytes(enl_u32)[q - 32]);
                } else if q < 36 + enl {
                    assert(entry@.name[q - 36] == bytes@.subrange(
                        off0 + 36,
                        off0 + 36 + enl as int,
                    )[q - 36]);
                } else {
                    assert(spec_encode_entry(entry@)[q] == u32_le_bytes(score)[q - 36 - enl]);
                }
            }
            assert(bytes@.subrange(off0, off0 + elen) =~= spec_encode_entry(entry@));
            // The parsed entry matches the corresponding entry of any board
            // this image could carry, so the prefix facts carry over.
            assert forall|v: LeaderboardView|
                valid_board(v) && bytes@ == #[trigger] spec_encode_board(v) implies {
                &&& v.top_scores.take(i as int + 1) == prev_views.push(entry@)
                &&& bytes@.subrange(off0 + elen, n as int) == entries_bytes(
                    v.top_scores.skip(i as int + 1),
                )
            } by {
                let ts = v.top_scores;
                let rest = ts.skip(i as int);
                assert(rest[0] == ts[i as int]);
                assert(rest.drop_first() =~= ts.skip(i as int + 1));
                lemma_encode_entry_parts(ts[i as int]);
                assert(enl_u32 == ts[i as int].name.len() as u32);
                assert(ts[i as int].name.len() == enl);
                assert forall|q: int| 0 <= q < elen implies spec_encode_entry(ts[i as int])[q]
                    == bytes@[off0 + q] by {
                    assert(bytes@.subrange(off0, n as int)[q] == entries_bytes(rest)[q]);
                }
                assert forall|q: int| 0 <= q < 32 implies entry@.player[q]
                    == ts[i as int].player[q] by {
                    assert(spec_encode_entry(ts[i as int])[q] == ts[i as int].player[q]);
                    assert(spec_encode_entry(entry@)[q] == entry@.player[q]);
                }
                assert(entry@.player =~= ts[i as int].player);
                assert forall|q: int| 0 <= q < enl implies entry@.name[q]
                    == ts[i as int].name[q] by {
                    assert(spec_encode_entry(ts[i as int])[36 + q] == ts[i as int].name[q]);
                    assert(spec_encode_entry(entry@)[36 + q] == entry@.name[q]);
                }
                assert(entry@.name =~= ts[i as int].name);
                assert forall|q: int| 0 <= q < 4 implies u32_le_bytes(score)[q] == u32_le_bytes(
                    ts[i as int].score,
                )[q] by {
                    assert(spec_encode_entry(ts[i as int])[36 + enl + q] == u32_le_bytes(
                        ts[i as int].score,
                    )[q]);
                    assert(spec_encode_entry(entry@)[36 + enl + q] == u32_le_bytes(score)[q]);
                }
                lemma_u32_le_bytes_injective(score, ts[i as int].score);
                assert(entry@ =~= ts[i as int]);
                assert(ts.take(i as int + 1) =~= ts.take(i as int).push(ts[i as int]));
                assert(ts.take(i as int) == prev_views);
                assert(ts.take(i as int + 1) =~= prev_views.push(entry@));
                lemma_entries_bytes_len(ts.skip(i as int + 1));
                assert forall|q: int|
                    #![trigger entries_bytes(ts.skip(i as int + 1))[q]]
                    0 <= q < n - off0 - elen implies bytes@.subrange(off0 + elen, n as int)[q]
                    == entries_bytes(ts.skip(i as int + 1))[q] by {
                    assert(bytes@.subrange(off0, n as int)[elen + q] == entries_bytes(rest)[elen
                        + q]);
                    assert(entries_bytes(rest)[elen + q] == entries_bytes(
                        ts.skip(i as int + 1),
                    )[elen + q - spec_encode_entry(rest[0]).len()]);
                }
                assert(bytes@.subrange(off0 + elen, n as int) =~= entries_bytes(
                    ts.skip(i as int + 1),
                ));
            }
        }
        entries.push(entry);
        off = off + ENTRY_FIXED + enl;
        i = i + 1;
        proof {
            assert(entry_views(entries@) =~= prev_views.push(entry@));
            lemma_entries_bytes_push(prev_views, entry@);
            assert forall|q: int| 0 <= q < off - 44 implies bytes@.subrange(44, off as int)[q]
                == entries_bytes(entry_views(entries@))[q] by {
                if q < off0 - 44 {
                    assert(bytes@.subrange(44, off0)[q] == entries_bytes(prev_views)[q]);
                } else {
                    assert(bytes@.subrange(off0, off0 + elen)[q - (off0 - 44)]
                        == spec_encode_entry(entry@)[q - (off0 - 44)]);
                }
            }
            assert(bytes@.subrange(44, off as int) =~= entries_bytes(entry_views(entries@)));
        }
    }
    if off != n {
        proof {
            assert forall|v: LeaderboardView| valid_board(v) implies bytes@
                != #[trigger] spec_encode_board(v) by {
                if bytes@ == spec_encode_board(v) {
                    assert(v.top_scores.skip(count as int) =~= Seq::<
                        LeaderboardEntryView,
                    >::empty());
                    assert(bytes@.subrange(off as int, n as int).len() == 0);
                }
            }
        }
        return Option::None;
    }
    let board = Leaderboard { authority: Identity { bytes: auth }, top_scores: entries };
    proof {
        lemma_encode_board_parts(board@);
        lemma_u32_le_assemble(c0, c1, c2, c3);
        lemma_byte_widen_round(bytes@[40]);
        lemma_byte_widen_round(bytes@[41]);
        lemma_byte_widen_round(bytes@[42]);
        lemma_byte_widen_round(bytes@[43]);
        assert(board@.top_scores == entry_views(entries@));
        assert(board@.top_scores.len() == count);
        assert(count as u32 == cnt_u32);
        assert(u32_le_bytes(cnt_u32)[0] == bytes@[40]);
        assert(u32_le_bytes(cnt_u32)[1] == bytes@[41]);
        assert(u32_le_bytes(cnt_u32)[2] == bytes@[42]);
        assert(u32_le_bytes(cnt_u32)[3] == bytes@[43]);
        assert forall|k: int| 0 <= k < n implies bytes@[k] == spec_encode_board(board@)[k] by {
            if k < 8 {
                assert(bytes@.subrange(0, 8)[k] == u64_le_bytes(LEADERBOARD_TAG)[k]);
            } else if k < 40 {
                assert(auth@[k - 8] == bytes@[k]);
            } else if k < 44 {
                assert(spec_encode_board(board@)[k] == u32_le_bytes(cnt_u32)[k - 40]);
            } else {
                assert(bytes@.subrange(44, off as int)[k - 44] == entries_bytes(
                    entry_views(entries@),
                )[k - 44]);
            }
        }
        assert(bytes@ =~= spec_encode_board(board@));
    }
    Option::Some(board)
}

} // verus!
