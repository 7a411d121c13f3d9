use snake_game::addressing::{derive_leaderboard_address, derive_player_address, RecordAddress};
use snake_game::types::{copy_bytes, identity_eq, Identity};

fn ident(tag: u8) -> Identity {
    Identity { bytes: [tag; 32] }
}

#[test]
fn player_address_carries_owner() {
    match derive_player_address(&ident(1)) {
        RecordAddress::PlayerRecord { owner } => assert_eq!(owner.bytes, [1u8; 32]),
        RecordAddress::LeaderboardSingleton => panic!("player record address expected"),
    }
}

#[test]
fn leaderboard_address_takes_no_key() {
    assert!(matches!(
        derive_leaderboard_address(),
        RecordAddress::LeaderboardSingleton
    ));
}

#[test]
fn identity_equality_is_bytewise() {
    assert!(identity_eq(&ident(5), &ident(5)));
    assert!(!identity_eq(&ident(5), &ident(6)));
    let mut close = ident(5);
    close.bytes[31] = 6;
    assert!(!identity_eq(&ident(5), &close));
}

#[test]
fn copied_bytes_match() {
    let src = vec![1u8, 2, 3, 250];
    assert_eq!(copy_bytes(&src), src);
    let empty: Vec<u8> = Vec::new();
    assert_eq!(copy_bytes(&empty), empty);
}
