use connect_4_ai::{Position, Solver};

#[test]
fn analyse_and_solve_are_antisymmetric() {
    let mut solver = Solver::new();
    let pos = Position::parse("2737772244262123677516643354");
    let scores = solver.analyse(&pos, false);
    assert_eq!(scores.len(), 7);
    for col in 0..7 {
        if !pos.can_play(col) {
            assert!(scores[col].is_none());
        } else if !pos.is_winning_move(col) {
            let after = pos.next_pos(col);
            assert_eq!(solver.solve(&after, false), -scores[col].unwrap());
        }
    }
}

#[test]
fn analyse_reports_immediate_wins() {
    let mut solver = Solver::new();
    // the mover has three stones stacked in column one
    let pos = Position::parse("121212");
    let scores = solver.analyse(&pos, true);
    assert_eq!(scores[0], Some(((42 + 1 - pos.moves) / 2) as isize));
}

#[test]
fn weak_solving_agrees_on_the_outcome_sign() {
    let mut solver = Solver::new();
    let pos = Position::parse("1233722555341451114725221333");
    let strong = solver.solve(&pos, false);
    solver.reset();
    assert_eq!(solver.node_count, 0);
    let weak = solver.solve(&pos, true);
    assert_eq!(strong, -1);
    assert!(weak < 0);
}

#[test]
fn solve_returns_fastest_win_score_on_immediate_wins() {
    let mut solver = Solver::new();
    let pos = Position::parse("112233");
    assert_eq!(solver.solve(&pos, false), ((42 + 1 - pos.moves) / 2) as isize);
}

#[test]
fn node_count_tracks_search_work() {
    let mut solver = Solver::new();
    assert_eq!(solver.node_count, 0);
    // an immediate win is answered without visiting any node
    let won = Position::parse("112233");
    solver.solve(&won, false);
    assert_eq!(solver.node_count, 0);
    // a real search visits at least the root
    let pos = Position::parse("2737772244262123677516643354");
    solver.solve(&pos, false);
    assert!(solver.node_count > 0);
}

#[test]
fn strong_solving_is_deterministic() {
    // the strong result is the game value of the position, so repeated
    // solves agree, table reuse or not
    let mut solver = Solver::new();
    let pos = Position::parse("1233722555341451114725221333");
    let first = solver.solve(&pos, false);
    let again = solver.solve(&pos, false);
    assert_eq!(first, again);
    let mut fresh = Solver::new();
    assert_eq!(fresh.solve(&pos, false), first);
}

#[test]
fn full_column_is_never_analysed() {
    let mut solver = Solver::new();
    let pos = Position::parse("1111112222223333334444445555556666667777");
    let scores = solver.analyse(&pos, false);
    for col in 0..6 {
        assert!(scores[col].is_none());
    }
    assert!(scores[6].is_some());
}
