use snake_game::codec::{
    decode_leaderboard, decode_player_account, encode_leaderboard, encode_player_account,
    LEADERBOARD_SPACE, PLAYER_RECORD_SPACE,
};
use snake_game::types::{GameError, Identity, Leaderboard, LeaderboardEntry, PlayerAccount};

fn ident(tag: u8) -> Identity {
    Identity { bytes: [tag; 32] }
}

fn player(tag: u8, name: &str, high_score: u32, games_played: u32) -> PlayerAccount {
    PlayerAccount {
        authority: ident(tag),
        name: name.as_bytes().to_vec(),
        high_score,
        games_played,
    }
}

#[test]
fn player_image_layout() {
    let p = player(1, "Bob", 7, 2);
    let bytes = encode_player_account(&p).expect("within budget");
    let mut expected: Vec<u8> = Vec::new();
    expected.extend_from_slice(b"playerac");
    expected.extend_from_slice(&[1u8; 32]);
    expected.extend_from_slice(&[3, 0, 0, 0]);
    expected.extend_from_slice(b"Bob");
    expected.extend_from_slice(&[7, 0, 0, 0]);
    expected.extend_from_slice(&[2, 0, 0, 0]);
    assert_eq!(bytes, expected);
    assert!(bytes.len() <= PLAYER_RECORD_SPACE);
}

#[test]
fn player_image_numeric_fields_little_endian() {
    let p = player(5, "", 0x01020304, 0xA1B2C3D4);
    let bytes = encode_player_account(&p).unwrap();
    assert_eq!(bytes.len(), 52);
    assert_eq!(&bytes[40..44], &[0, 0, 0, 0]);
    assert_eq!(&bytes[44..48], &[0x04, 0x03, 0x02, 0x01]);
    assert_eq!(&bytes[48..52], &[0xD4, 0xC3, 0xB2, 0xA1]);
}

#[test]
fn oversized_player_name_overflows() {
    let p = player(1, core::str::from_utf8(&[b'x'; 40]).unwrap(), 0, 0);
    assert_eq!(
        encode_player_account(&p),
        Err(GameError::SerializationOverflow)
    );
}

#[test]
fn player_round_trip() {
    let p = player(9, "Round Trip", 123456, 42);
    let bytes = encode_player_account(&p).unwrap();
    let q = decode_player_account(&bytes).expect("a fresh image decodes");
    assert_eq!(q.authority.bytes, p.authority.bytes);
    assert_eq!(q.name, p.name);
    assert_eq!(q.high_score, p.high_score);
    assert_eq!(q.games_played, p.games_played);
}

#[test]
fn decode_rejects_short_buffer() {
    let bytes = vec![0u8; 51];
    assert!(decode_player_account(&bytes).is_none());
}

#[test]
fn decode_rejects_wrong_discriminator() {
    let p = player(3, "Eve", 1, 1);
    let mut bytes = encode_player_account(&p).unwrap();
    bytes[0] ^= 0xFF;
    assert!(decode_player_account(&bytes).is_none());
}

#[test]
fn decode_rejects_oversized_name_length() {
    let p = player(3, "Eve", 1, 1);
    let mut bytes = encode_player_account(&p).unwrap();
    bytes[40] = 33;
    assert!(decode_player_account(&bytes).is_none());
}

#[test]
fn decode_rejects_inconsistent_length() {
    let p = player(3, "Eve", 1, 1);
    let mut bytes = encode_player_account(&p).unwrap();
    bytes.push(0);
    assert!(decode_player_account(&bytes).is_none());
    let mut short = encode_player_account(&p).unwrap();
    short.pop();
    assert!(decode_player_account(&short).is_none());
}

#[test]
fn empty_board_image_layout() {
    let board = Leaderboard {
        authority: ident(2),
        top_scores: Vec::new(),
    };
    let bytes = encode_leaderboard(&board).unwrap();
    let mut expected: Vec<u8> = Vec::new();
    expected.extend_from_slice(b"leaderbd");
    expected.extend_from_slice(&[2u8; 32]);
    expected.extend_from_slice(&[0, 0, 0, 0]);
    assert_eq!(bytes, expected);
}

#[test]
fn board_image_with_entries() {
    let board = Leaderboard {
        authority: ident(2),
        top_scores: vec![
            LeaderboardEntry {
                player: ident(7),
                name: b"Ada".to_vec(),
                score: 300,
            },
            LeaderboardEntry {
                player: ident(8),
                name: b"Bea".to_vec(),
                score: 5,
            },
        ],
    };
    let bytes = encode_leaderboard(&board).unwrap();
    let mut expected: Vec<u8> = Vec::new();
    expected.extend_from_slice(b"leaderbd");
    expected.extend_from_slice(&[2u8; 32]);
    expected.extend_from_slice(&[2, 0, 0, 0]);
    expected.extend_from_slice(&[7u8; 32]);
    expected.extend_from_slice(&[3, 0, 0, 0]);
    expected.extend_from_slice(b"Ada");
    expected.extend_from_slice(&[44, 1, 0, 0]);
    expected.extend_from_slice(&[8u8; 32]);
    expected.extend_from_slice(&[3, 0, 0, 0]);
    expected.extend_from_slice(b"Bea");
    expected.extend_from_slice(&[5, 0, 0, 0]);
    assert_eq!(bytes, expected);
    assert!(bytes.len() <= LEADERBOARD_SPACE);
}

#[test]
fn board_round_trip() {
    let board = Leaderboard {
        authority: ident(6),
        top_scores: vec![
            LeaderboardEntry {
                player: ident(7),
                name: b"first".to_vec(),
                score: 900,
            },
            LeaderboardEntry {
                player: ident(8),
                name: Vec::new(),
                score: 0,
            },
        ],
    };
    let bytes = encode_leaderboard(&board).unwrap();
    let back = decode_leaderboard(&bytes).expect("a fresh image decodes");
    assert_eq!(back.authority.bytes, board.authority.bytes);
    assert_eq!(back.top_scores.len(), 2);
    for (a, b) in back.top_scores.iter().zip(board.top_scores.iter()) {
        assert_eq!(a.player.bytes, b.player.bytes);
        assert_eq!(a.name, b.name);
        assert_eq!(a.score, b.score);
    }
}

#[test]
fn board_decode_rejects_corruption() {
    let board = Leaderboard {
        authority: ident(6),
        top_scores: vec![LeaderboardEntry {
            player: ident(7),
            name: b"one".to_vec(),
            score: 3,
        }],
    };
    let good = encode_leaderboard(&board).unwrap();
    assert!(decode_leaderboard(&good).is_some());
    let mut bad_tag = good.clone();
    bad_tag[7] ^= 0x01;
    assert!(decode_leaderboard(&bad_tag).is_none());
    let mut bad_count = good.clone();
    bad_count[40] = 2;
    assert!(decode_leaderboard(&bad_count).is_none());
    let mut trailing = good.clone();
    trailing.push(0);
    assert!(decode_leaderboard(&trailing).is_none());
    let mut truncated = good;
    truncated.pop();
    assert!(decode_leaderboard(&truncated).is_none());
    assert!(decode_leaderboard(&vec![0u8; 43]).is_none());
}

#[test]
fn overfull_board_overflows() {
    let entries: Vec<LeaderboardEntry> = (0..11u8)
        .map(|i| LeaderboardEntry {
            player: ident(i),
            name: b"slot".to_vec(),
            score: i as u32,
        })
        .collect();
    let board = Leaderboard {
        authority: ident(1),
        top_scores: entries,
    };
    assert_eq!(
        encode_leaderboard(&board),
        Err(GameError::SerializationOverflow)
    );
}

#[test]
fn oversized_entry_name_overflows() {
    let board = Leaderboard {
        authority: ident(1),
        top_scores: vec![LeaderboardEntry {
            player: ident(4),
            name: vec![b'z'; 33],
            score: 1,
        }],
    };
    assert_eq!(
        encode_leaderboard(&board),
        Err(GameError::SerializationOverflow)
    );
}
