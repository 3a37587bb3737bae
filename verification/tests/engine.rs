use backgammon::GameState;
use backgammon::MoveError;
use backgammon::SPECIAL_MOVE;
use backgammon::Tile;
use backgammon::evaluator::Evaluator;
use backgammon::generator::MoveBuffer;

fn empty_tiles() -> [Tile; 24] {
    [Tile::Empty; 24]
}

fn side_total(s: &GameState, dark: bool) -> u32 {
    let mut on_board: u32 = 0;
    for i in 0..24 {
        match (s.tile_at(i), dark) {
            (Tile::Light(n), false) => on_board += n as u32,
            (Tile::Dark(n), true) => on_board += n as u32,
            _ => {},
        }
    }
    on_board + s.captured_count(dark) as u32 + s.finished_count(dark) as u32
}

fn replay(start: &GameState, turn: bool, moves: &arrayvec::ArrayVec<(u8, u8), 4>) -> GameState {
    let mut cur = *start;
    for &(from, die) in moves.iter() {
        cur = cur.do_move(turn, from, die).expect("recorded move must be legal");
    }
    cur
}

#[test]
fn standard_setup_counts() {
    let s = GameState::new_with_default_setup();
    assert_eq!(side_total(&s, false), 15);
    assert_eq!(side_total(&s, true), 15);
    assert_eq!(s.tile_at(0), Tile::Light(2));
    assert_eq!(s.tile_at(5), Tile::Dark(5));
    assert_eq!(s.tile_at(7), Tile::Dark(3));
    assert_eq!(s.tile_at(11), Tile::Light(5));
    assert_eq!(s.tile_at(12), Tile::Dark(5));
    assert_eq!(s.tile_at(16), Tile::Light(3));
    assert_eq!(s.tile_at(18), Tile::Light(5));
    assert_eq!(s.tile_at(23), Tile::Dark(2));
}

#[test]
fn standard_pip_distance() {
    let s = GameState::new_with_default_setup();
    let (light, dark) = s.get_tot_dist();
    assert_eq!(light, 167);
    assert_eq!(dark, 167);
    assert_eq!(s.get_net_dist(), 0);
}

#[test]
fn conservation_across_moves() {
    // Every legal move, hits included, keeps each side at 15 checkers.
    let s = GameState::new_with_default_setup();
    let s1 = s.do_move(false, 0, 6).unwrap();
    let s2 = s1.do_move(false, 11, 2).unwrap();
    let s3 = s2.do_move(true, 23, 3).unwrap();
    for st in [&s1, &s2, &s3] {
        assert_eq!(side_total(st, false), 15);
        assert_eq!(side_total(st, true), 15);
    }
}

#[test]
fn hit_sends_checker_to_bar() {
    // A lone Light checker on point 4 is hit by Dark playing 5 -> 4.
    let mut tiles = empty_tiles();
    tiles[4] = Tile::Light(1);
    tiles[10] = Tile::Light(14);
    tiles[5] = Tile::Dark(15);
    let s = GameState { tiles, captured: [0, 0], finished: [0, 0] };
    let hit = s.do_move(true, 5, 1).unwrap();
    assert_eq!(hit.tile_at(4), Tile::Dark(1));
    assert_eq!(hit.captured_count(false), 1);
    assert_eq!(side_total(&hit, false), 15);
    assert_eq!(side_total(&hit, true), 15);
}

#[test]
fn error_no_piece_to_move() {
    let s = GameState::new_with_default_setup();
    assert_eq!(s.do_move(false, 1, 3), Err(MoveError::NoPieceToMove));
    // No captured checker: entering from the bar is also NoPieceToMove.
    assert_eq!(s.do_move(false, SPECIAL_MOVE, 3), Err(MoveError::NoPieceToMove));
}

#[test]
fn error_target_occupied() {
    let s = GameState::new_with_default_setup();
    // Light 0 -> 5 runs into Dark's made point.
    assert_eq!(s.do_move(false, 0, 5), Err(MoveError::TargetOccupiedByOpponent));
}

#[test]
fn error_bear_off_not_allowed() {
    let s = GameState::new_with_default_setup();
    // Light 18 -> past the edge while checkers remain outside home.
    assert_eq!(s.do_move(false, 18, 6), Err(MoveError::BearOffNotAllowed));
}

#[test]
fn error_bear_off_blocked() {
    // Light checkers on 18 and 20, the rest borne off: overshooting from 20
    // is illegal while 18 is occupied.
    let mut tiles = empty_tiles();
    tiles[18] = Tile::Light(1);
    tiles[20] = Tile::Light(1);
    tiles[0] = Tile::Dark(15);
    let s = GameState { tiles, captured: [0, 0], finished: [13, 0] };
    assert!(s.is_all_home(false));
    assert_eq!(s.do_move(false, 20, 6), Err(MoveError::BearOffBlocked));
    // The farthest-back checker may overshoot.
    let off = s.do_move(false, 18, 6).unwrap();
    assert_eq!(off.finished_count(false), 14);
}

#[test]
fn error_illegal_origin() {
    let s = GameState::new_with_default_setup();
    assert_eq!(s.do_move(false, 50, 3), Err(MoveError::IllegalOrigin));
}

#[test]
fn exact_bear_off_allowed_with_checkers_behind() {
    // Bearing off with the exact pip count is legal even when a checker
    // sits farther back.
    let mut tiles = empty_tiles();
    tiles[18] = Tile::Light(1);
    tiles[20] = Tile::Light(1);
    tiles[0] = Tile::Dark(15);
    let s = GameState { tiles, captured: [0, 0], finished: [13, 0] };
    let off = s.do_move(false, 20, 4).unwrap();
    assert_eq!(off.finished_count(false), 14);
}

#[test]
fn single_die_lists_are_complete() {
    let s = GameState::new_with_default_setup();
    let mut moves: Vec<(u8, u8)> = Vec::new();
    let wasteful = s.get_possible_moves(false, 6, &mut moves);
    assert!(!wasteful);
    // Light with a 6 from the start: 0 -> 6, 11 -> 17, 16 -> 22 are legal;
    // 18 -> 24 would be a bear-off and is not.
    let mut froms: Vec<u8> = moves.iter().map(|m| m.0).collect();
    froms.sort();
    assert_eq!(froms, vec![0, 11, 16]);
    for &(from, to) in &moves {
        let next = s.do_move(false, from, 6).unwrap();
        assert_eq!(side_total(&next, false), 15);
        assert!(to < 24);
    }
}

#[test]
fn bar_entry_has_priority() {
    // With a checker on the bar, only entries are generated.
    let mut tiles = empty_tiles();
    tiles[10] = Tile::Light(14);
    tiles[23] = Tile::Dark(15);
    let s = GameState { tiles, captured: [1, 0], finished: [0, 0] };
    let mut mb = MoveBuffer::new();
    mb.generate(false, s, [2, 3]);
    assert!(mb.results.len() > 0);
    for rec in &mb.results {
        assert_eq!(rec.moves[0].0, SPECIAL_MOVE);
    }
}

#[test]
fn generator_scenario_six_five() {
    // Standard layout, Light to move, dice [6, 5]: every returned turn uses
    // both dice without waste, and running the back checker 0 -> 6 -> 11 is
    // among them. No single-die (shorter) result is returned.
    let s = GameState::new_with_default_setup();
    let mut mb = MoveBuffer::new();
    mb.generate(false, s, [6, 5]);
    assert_eq!(mb.used, 2);
    assert_eq!(mb.waste, 0);
    assert!(mb.results.len() > 0);
    let run = s.do_move(false, 0, 6).unwrap().do_move(false, 6, 5).unwrap();
    let mut found = false;
    for rec in &mb.results {
        assert_eq!(rec.moves.len(), 2);
        // Legality closure: the recorded moves replay to the recorded state.
        let replayed = replay(&s, false, &rec.moves);
        assert!(replayed.same_position(&rec.state));
        assert_eq!(side_total(&rec.state, false), 15);
        assert_eq!(side_total(&rec.state, true), 15);
        if rec.state.same_position(&run) {
            found = true;
        }
    }
    assert!(found);
    // Playing the 5 first from point 0 is blocked by Dark's made point.
    assert!(s.do_move(false, 0, 5).is_err());
    // Resulting positions are pairwise distinct.
    for i in 0..mb.results.len() {
        for j in (i + 1)..mb.results.len() {
            assert!(!mb.results[i].state.same_position(&mb.results[j].state));
        }
    }
}

#[test]
fn generator_scenario_doubles_bear_off() {
    // One Light checker two pips from the exit, all others borne off,
    // rolling [1, 1]: two of the four dice are usable (22 -> 23 -> off);
    // the unusable remainder lands the turn in a shorter bucket instead of
    // failing.
    let mut tiles = empty_tiles();
    tiles[22] = Tile::Light(1);
    let s = GameState { tiles, captured: [0, 0], finished: [14, 15] };
    assert!(s.is_all_home(false));
    let mut mb = MoveBuffer::new();
    mb.generate(false, s, [1, 1]);
    assert_eq!(mb.used, 2);
    assert_eq!(mb.waste, 0);
    assert_eq!(mb.results.len(), 1);
    assert_eq!(mb.results[0].state.finished_count(false), 15);
    // The evaluator copes as well: every roll bears the checker off.
    let mut ev = Evaluator::new();
    assert_eq!(ev.get_brute_force_eval(s, false, 1), Ok(0));
}

#[test]
fn wasteful_only_when_forced() {
    // Light on 20 and 22, rest borne off, dice [5, 3]: playing 20 -> 23
    // first leaves only a wasteful overshoot from 22, one wasted move in
    // all; bearing off 20 with the 5 first wastes two. The generator
    // returns only the less wasteful turn.
    let mut tiles = empty_tiles();
    tiles[20] = Tile::Light(1);
    tiles[22] = Tile::Light(1);
    tiles[0] = Tile::Dark(15);
    let s = GameState { tiles, captured: [0, 0], finished: [13, 0] };
    let mut mb = MoveBuffer::new();
    mb.generate(false, s, [5, 3]);
    assert_eq!(mb.used, 2);
    assert_eq!(mb.waste, 1);
    assert_eq!(mb.results.len(), 1);
    let rec = &mb.results[0];
    assert_eq!(rec.state.finished_count(false), 14);
    assert_eq!(rec.state.tile_at(23), Tile::Light(1));
}

#[test]
fn state_iterator_yields_all_results() {
    let s = GameState::new_with_default_setup();
    let mut mb = MoveBuffer::new();
    mb.generate(false, s, [6, 5]);
    let mut it = mb.state_iterator();
    let mut n = 0;
    while let Some(st) = it.next() {
        assert!(st.same_position(&mb.results[n].state));
        n += 1;
    }
    assert_eq!(n, mb.results.len());
}

#[test]
fn generate_is_deterministic() {
    // Identical inputs give identical outputs, regardless of buffer reuse.
    let s = GameState::new_with_default_setup();
    let mut a = MoveBuffer::new();
    let mut b = MoveBuffer::new();
    a.generate(false, s, [6, 5]);
    b.generate(true, s, [2, 2]);
    b.generate(false, s, [6, 5]);
    assert_eq!(a.used, b.used);
    assert_eq!(a.waste, b.waste);
    assert_eq!(a.results.len(), b.results.len());
    for i in 0..a.results.len() {
        assert!(a.results[i].state.same_position(&b.results[i].state));
    }
}

#[test]
fn evaluate_is_deterministic() {
    let s = GameState::new_with_default_setup();
    let mut ev = Evaluator::new();
    let first = ev.get_brute_force_eval(s, false, 2);
    let second = ev.get_brute_force_eval(s, false, 2);
    assert_eq!(first, second);
    assert!(first.is_ok());
}

#[test]
fn depth_zero_standard_is_balanced() {
    let s = GameState::new_with_default_setup();
    let mut ev = Evaluator::new();
    assert_eq!(ev.get_brute_force_eval(s, false, 0), Ok(0));
    assert_eq!(ev.get_brute_force_eval(s, true, 0), Ok(0));
}

#[test]
fn mirror_negates_evaluation() {
    // An asymmetric position and its side-swapped mirror evaluate to
    // opposite values, at depth 0 and deeper.
    let s = GameState::new_with_default_setup();
    let adv = s.do_move(false, 0, 6).unwrap().do_move(false, 6, 5).unwrap();
    let mir = adv.mirrored();
    assert_eq!(mir.get_net_dist(), -adv.get_net_dist());
    let mut ev = Evaluator::new();
    for depth in 0..3 {
        let v = ev.get_brute_force_eval(adv, true, depth);
        let w = ev.get_brute_force_eval(mir, false, depth);
        match (v, w) {
            (Ok(a), Ok(b)) => assert_eq!(b, -a),
            // A stuck roll somewhere in the tree aborts both searches alike.
            (other_v, other_w) => assert_eq!(other_v, other_w),
        }
    }
    assert_eq!(ev.get_brute_force_eval(adv, true, 1).unwrap(), -ev
        .get_brute_force_eval(mir, false, 1)
        .unwrap());
    // The standard layout is its own mirror.
    let std_mir = s.mirrored();
    assert!(std_mir.same_position(&s));
}

#[test]
fn best_move_value_matches_its_state() {
    let s = GameState::new_with_default_setup();
    let mut ev = Evaluator::new();
    let (best, v) = ev.get_best_move(s, false, [3, 1], 1).unwrap();
    let direct = ev.get_brute_force_eval(best, true, 0).unwrap();
    assert_eq!(v, direct);
    assert_eq!(side_total(&best, false), 15);
    assert_eq!(side_total(&best, true), 15);
}

#[test]
fn fully_blocked_entry_is_no_legal_moves() {
    // Light waits on the bar while Dark holds every entry point: no roll
    // offers a move, which the search reports as NoLegalMoves.
    let mut tiles = empty_tiles();
    for i in 0..6 {
        tiles[i] = Tile::Dark(2);
    }
    tiles[23] = Tile::Dark(3);
    tiles[10] = Tile::Light(14);
    let s = GameState { tiles, captured: [1, 0], finished: [0, 0] };
    let mut mb = MoveBuffer::new();
    mb.generate(false, s, [3, 4]);
    assert_eq!(mb.used, 0);
    assert_eq!(mb.results.len(), 0);
    let mut ev = Evaluator::new();
    assert_eq!(ev.get_best_move(s, false, [3, 4], 1), Err(MoveError::NoLegalMoves));
    assert_eq!(ev.get_brute_force_eval(s, false, 1), Err(MoveError::NoLegalMoves));
}

#[test]
fn doubles_use_all_four_when_possible() {
    let s = GameState::new_with_default_setup();
    let mut mb = MoveBuffer::new();
    mb.generate(false, s, [3, 3]);
    assert_eq!(mb.used, 4);
    assert_eq!(mb.waste, 0);
    for rec in &mb.results {
        assert_eq!(rec.moves.len(), 4);
        let replayed = replay(&s, false, &rec.moves);
        assert!(replayed.same_position(&rec.state));
    }
}

#[test]
fn dark_moves_mirror_light_moves() {
    let s = GameState::new_with_default_setup();
    let mut light = MoveBuffer::new();
    let mut dark = MoveBuffer::new();
    light.generate(false, s, [6, 5]);
    dark.generate(true, s, [6, 5]);
    assert_eq!(light.used, dark.used);
    assert_eq!(light.waste, dark.waste);
    assert_eq!(light.results.len(), dark.results.len());
    // Each Dark result is the mirror of some Light result.
    for rec in &dark.results {
        let m = rec.state.mirrored();
        assert!(light.results.iter().any(|lr| lr.state.same_position(&m)));
    }
}
