use connect_4_ai::Position;

fn mirror_digits(s: &str) -> String {
    s.chars().map(|c| (b'8' - (c as u8 - b'0')) as char).collect()
}

#[test]
fn key3_matches_mirrored_transcript() {
    let a = Position::parse("4455454513231");
    let b = Position::parse(&mirror_digits("4455454513231"));
    assert_eq!(a.key3(), b.key3());

    let a = Position::parse("1234567");
    let b = Position::parse(&mirror_digits("1234567"));
    assert_eq!(a.key3(), b.key3());

    let a = Position::parse("112");
    let b = Position::parse("776");
    assert_eq!(a.key3(), b.key3());
}

#[test]
fn keys_differ_for_distinct_positions() {
    let mut keys = Vec::new();
    for s in ["1", "2", "3", "12", "21", "112", "211", "1221", "2112"] {
        keys.push(Position::parse(s).key());
    }
    for i in 0..keys.len() {
        for j in 0..keys.len() {
            if i != j {
                assert_ne!(keys[i], keys[j]);
            }
        }
    }
}

#[test]
fn parse_round_trip_move_count() {
    assert_eq!(Position::parse("4455454513231").moves, 13);
    assert_eq!(Position::parse("7").moves, 1);
    assert_eq!(Position::new().moves, 0);
    assert_eq!(Position::parse_safe("0123456").unwrap().moves, 7);
}

#[test]
fn parse_safe_rejects_long_and_bad_strings() {
    // forty-three characters can never be a legal transcript
    let long: String = "01".repeat(21) + "0";
    assert_eq!(long.len(), 43);
    assert!(Position::parse_safe(&long).is_none());
    // a stray letter or an eighth column is rejected
    assert!(Position::parse_safe("01a").is_none());
    assert!(Position::parse_safe("7").is_none());
    assert!(Position::parse_safe("").is_some());
}

#[test]
fn winning_move_detection_matches_hand_boards() {
    // vertical: three stones of the mover stacked in column one
    assert!(Position::parse("121212").has_winning_move());
    assert!(Position::parse("121212").is_winning_move(0));
    // horizontal: three stones of the mover on the bottom row
    assert!(Position::parse("112233").has_winning_move());
    assert!(Position::parse("112233").is_winning_move(3));
    assert!(!Position::parse("112233").is_winning_move(5));
    // too few stones anywhere
    assert!(!Position::parse("12").has_winning_move());
    assert!(!Position::new().has_winning_move());
    // the mover's three in a row, but the landing cell is a row too high
    assert!(!Position::parse("1212").is_winning_move(0));
}

#[test]
fn move_score_counts_created_threats() {
    // dropping into an empty board threatens nothing at once
    let empty = Position::new();
    assert_eq!(empty.move_score(1), 0);
    // with stones on columns four to six, taking column seven gives
    // two cells that would complete a row: the landing cell itself and
    // the cell left of the run
    let pos = Position::parse("445566");
    assert_eq!(pos.move_score(1u64 << 42), 2);
}

#[test]
fn score_and_draw_bookkeeping() {
    let pos = Position::parse("4455");
    assert_eq!(pos.calc_score(), 19);
    assert_eq!(pos.get_current_player(), 1);
    assert_eq!(Position::parse("445").get_current_player(), 2);
    assert!(!pos.is_draw());
}

#[test]
fn can_play_only_while_column_has_room() {
    let pos = Position::parse("111111");
    assert!(!pos.can_play(0));
    assert!(pos.can_play(1));
    let next = pos.next_pos(1);
    assert_eq!(next.moves, 7);
}
