use snake_game::state::GameState;
use snake_game::types::{GameError, Identity};

fn ident(tag: u8) -> Identity {
    Identity { bytes: [tag; 32] }
}

fn name_of(s: &str) -> Vec<u8> {
    s.as_bytes().to_vec()
}

#[test]
fn initialize_then_duplicate() {
    let mut st = GameState::new();
    let a = ident(1);
    assert_eq!(st.initialize_player(a, name_of("Alice")), Ok(()));
    let rec = st.get_player(&a).expect("record must exist");
    assert_eq!(rec.authority.bytes, [1u8; 32]);
    assert_eq!(rec.name, name_of("Alice"));
    assert_eq!(rec.high_score, 0);
    assert_eq!(rec.games_played, 0);
    assert_eq!(
        st.initialize_player(a, name_of("Alice again")),
        Err(GameError::AlreadyExists)
    );
}

#[test]
fn oversized_name_rejected() {
    let mut st = GameState::new();
    let a = ident(2);
    let long_name = vec![b'x'; 33];
    assert_eq!(
        st.initialize_player(a, long_name),
        Err(GameError::CapacityExceeded)
    );
    assert!(st.get_player(&a).is_none());
}

#[test]
fn name_at_budget_accepted() {
    let mut st = GameState::new();
    let a = ident(3);
    let name = vec![b'y'; 32];
    assert_eq!(st.initialize_player(a, name.clone()), Ok(()));
    assert_eq!(st.get_player(&a).unwrap().name, name);
}

#[test]
fn submit_score_tracks_max() {
    let mut st = GameState::new();
    let a = ident(4);
    st.initialize_player(a, name_of("Max")).unwrap();
    assert_eq!(st.submit_score(a, a, 50), Ok(()));
    let rec = st.get_player(&a).unwrap();
    assert_eq!((rec.high_score, rec.games_played), (50, 1));
    assert_eq!(st.submit_score(a, a, 30), Ok(()));
    let rec = st.get_player(&a).unwrap();
    assert_eq!((rec.high_score, rec.games_played), (50, 2));
    assert_eq!(st.submit_score(a, a, 50), Ok(()));
    let rec = st.get_player(&a).unwrap();
    assert_eq!((rec.high_score, rec.games_played), (50, 3));
    assert_eq!(st.submit_score(a, a, 60), Ok(()));
    let rec = st.get_player(&a).unwrap();
    assert_eq!((rec.high_score, rec.games_played), (60, 4));
}

#[test]
fn submit_requires_owner() {
    let mut st = GameState::new();
    let a = ident(5);
    let b = ident(6);
    st.initialize_player(a, name_of("Owner")).unwrap();
    st.submit_score(a, a, 10).unwrap();
    assert_eq!(st.submit_score(b, a, 99), Err(GameError::Unauthorized));
    let rec = st.get_player(&a).unwrap();
    assert_eq!((rec.high_score, rec.games_played), (10, 1));
}

#[test]
fn submit_to_missing_record() {
    let mut st = GameState::new();
    let a = ident(7);
    assert_eq!(st.submit_score(a, a, 5), Err(GameError::NotFound));
}

#[test]
fn leaderboard_created_once() {
    let mut st = GameState::new();
    let admin = ident(9);
    assert!(st.get_leaderboard().is_none());
    assert_eq!(st.initialize_leaderboard(admin), Ok(()));
    let board = st.get_leaderboard().unwrap();
    assert_eq!(board.authority.bytes, [9u8; 32]);
    assert!(board.top_scores.is_empty());
    assert_eq!(
        st.initialize_leaderboard(admin),
        Err(GameError::AlreadyExists)
    );
}

#[test]
fn update_without_leaderboard() {
    let mut st = GameState::new();
    let a = ident(10);
    st.initialize_player(a, name_of("Early")).unwrap();
    assert_eq!(st.update_leaderboard(a), Err(GameError::NotFound));
}

#[test]
fn update_for_missing_player() {
    let mut st = GameState::new();
    let admin = ident(11);
    st.initialize_leaderboard(admin).unwrap();
    assert_eq!(st.update_leaderboard(ident(12)), Err(GameError::NotFound));
}

#[test]
fn scenario_alice() {
    let mut st = GameState::new();
    let a = ident(13);
    let admin = ident(14);
    st.initialize_player(a, name_of("Alice")).unwrap();
    let rec = st.get_player(&a).unwrap();
    assert_eq!((rec.high_score, rec.games_played), (0, 0));
    st.submit_score(a, a, 50).unwrap();
    let rec = st.get_player(&a).unwrap();
    assert_eq!((rec.high_score, rec.games_played), (50, 1));
    st.submit_score(a, a, 30).unwrap();
    let rec = st.get_player(&a).unwrap();
    assert_eq!((rec.high_score, rec.games_played), (50, 2));
    st.initialize_leaderboard(admin).unwrap();
    assert!(st.get_leaderboard().unwrap().top_scores.is_empty());
    st.update_leaderboard(a).unwrap();
    let board = st.get_leaderboard().unwrap();
    assert_eq!(board.top_scores.len(), 1);
    assert_eq!(board.top_scores[0].player.bytes, [13u8; 32]);
    assert_eq!(board.top_scores[0].name, name_of("Alice"));
    assert_eq!(board.top_scores[0].score, 50);
}

#[test]
fn eleven_players_evict_lowest() {
    let mut st = GameState::new();
    let admin = ident(100);
    st.initialize_leaderboard(admin).unwrap();
    for i in 1..=11u8 {
        let p = ident(i);
        st.initialize_player(p, name_of("player")).unwrap();
        st.submit_score(p, p, i as u32).unwrap();
        st.update_leaderboard(p).unwrap();
    }
    let board = st.get_leaderboard().unwrap();
    assert_eq!(board.top_scores.len(), 10);
    let scores: Vec<u32> = board.top_scores.iter().map(|e| e.score).collect();
    assert_eq!(scores, vec![11, 10, 9, 8, 7, 6, 5, 4, 3, 2]);
    assert!(!scores.contains(&1));
}

#[test]
fn highest_score_ranks_first() {
    let mut st = GameState::new();
    let admin = ident(20);
    st.initialize_leaderboard(admin).unwrap();
    for (tag, score) in [(21u8, 5u32), (22, 3)] {
        let p = ident(tag);
        st.initialize_player(p, name_of("mid")).unwrap();
        st.submit_score(p, p, score).unwrap();
        st.update_leaderboard(p).unwrap();
    }
    let champ = ident(23);
    st.initialize_player(champ, name_of("champ")).unwrap();
    st.submit_score(champ, champ, 10).unwrap();
    st.update_leaderboard(champ).unwrap();
    let board = st.get_leaderboard().unwrap();
    assert_eq!(board.top_scores[0].player.bytes, [23u8; 32]);
    assert_eq!(board.top_scores[0].score, 10);
}

#[test]
fn repeated_merge_takes_two_slots() {
    // The merge never deduplicates by player identity: merging the same
    // player twice leaves two entries.
    let mut st = GameState::new();
    let admin = ident(30);
    let a = ident(31);
    st.initialize_leaderboard(admin).unwrap();
    st.initialize_player(a, name_of("twice")).unwrap();
    st.submit_score(a, a, 8).unwrap();
    st.update_leaderboard(a).unwrap();
    st.update_leaderboard(a).unwrap();
    let board = st.get_leaderboard().unwrap();
    assert_eq!(board.top_scores.len(), 2);
    assert_eq!(board.top_scores[0].player.bytes, [31u8; 32]);
    assert_eq!(board.top_scores[1].player.bytes, [31u8; 32]);
}

#[test]
fn equal_scores_keep_merge_order() {
    let mut st = GameState::new();
    let admin = ident(40);
    let first = ident(41);
    let second = ident(42);
    st.initialize_leaderboard(admin).unwrap();
    for p in [first, second] {
        st.initialize_player(p, name_of("tied")).unwrap();
        st.submit_score(p, p, 7).unwrap();
        st.update_leaderboard(p).unwrap();
    }
    let board = st.get_leaderboard().unwrap();
    assert_eq!(board.top_scores.len(), 2);
    assert_eq!(board.top_scores[0].player.bytes, [41u8; 32]);
    assert_eq!(board.top_scores[1].player.bytes, [42u8; 32]);
}
