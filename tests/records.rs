use takpy::game::{Game, Reserves};
use takpy::ptn::{ParsePtnError, Ptn, RecordResult};
use takpy::tps::ParseTpsError;
use takpy::types::{Color, Move, MoveKind, Piece};

fn play_all(size: usize, moves: &[&str]) -> Game {
    let mut game = Game::new(size, 0).unwrap();
    for m in moves {
        game.play(&Move::parse(m).unwrap()).unwrap();
    }
    game
}

#[test]
fn tps_reads_position() {
    let text = "x4,1/x5/x5/x5/21S,x,2C,x2 2 3";
    let g = Game::from_tps(5, text, 0).unwrap();
    assert_eq!(g.to_tps(), text);
    let plain = "x,x,x,x,1/x,x,x,x,x/x,x,x,x,x/x,x,x,x,x/21S,x,2C,x,x 2 3";
    assert_eq!(Game::from_tps(5, plain, 0).unwrap(), g);
    assert_eq!(g.ply, 5);
    assert_eq!(g.to_move, Color::Black);
    assert_eq!(g.white_reserves, Reserves { stones: 19, caps: 1 });
    assert_eq!(g.black_reserves, Reserves { stones: 20, caps: 0 });
    assert_eq!(g.board[0].piece, Piece::Wall);
    assert_eq!(g.board[0].colors, vec![Color::Black, Color::White]);
    let played = play_all(5, &["a1", "e5", "Sb1", "Cc1", "b1<"]);
    assert_eq!(played.to_tps(), text);
    assert_eq!(played.white_reserves, g.white_reserves);
    assert_eq!(played.black_reserves, g.black_reserves);
}

#[test]
fn tps_runs_of_empty_squares() {
    let g = Game::from_tps(5, "x5/x5/x5/x5/x5 1 1", 0).unwrap();
    assert_eq!(g.to_tps(), Game::new(5, 0).unwrap().to_tps());
    assert_eq!(g.ply, 0);
    let g = Game::from_tps(4, "x4/x2,1,x/x,2S,x2/x4 1 12", 4).unwrap();
    assert_eq!(g.to_tps(), "x4/x2,1,x/x,2S,x2/x4 1 12");
    assert_eq!(g.ply, 22);
    assert_eq!(g.half_komi, 4);
}

#[test]
fn tps_errors() {
    assert_eq!(Game::from_tps(9, "x5/x5/x5/x5/x5 1 1", 0).unwrap_err(), ParseTpsError::Unsupported);
    assert_eq!(Game::from_tps(5, "x5/x5/x5/x5/x5 1 1", 3).unwrap_err(), ParseTpsError::Unsupported);
    assert_eq!(Game::from_tps(5, "x5/x5/x5/x5 1 1", 0).unwrap_err(), ParseTpsError::BadBoard);
    assert_eq!(Game::from_tps(5, "x5/x5/x5/x5/x4,3 1 1", 0).unwrap_err(), ParseTpsError::BadBoard);
    assert_eq!(Game::from_tps(5, "x5/x5/x5/x5/x5 3 1", 0).unwrap_err(), ParseTpsError::BadColor);
    assert_eq!(Game::from_tps(5, "x5/x5/x5/x5/x5 1 0", 0).unwrap_err(), ParseTpsError::BadMoveNumber);
    assert_eq!(Game::from_tps(5, "x5/x5/x5/x5/x5 1 01", 0).unwrap_err(), ParseTpsError::BadMoveNumber);
    assert_eq!(Game::from_tps(3, "11111111111,x,x/x3/x3 2 1", 0).unwrap_err(), ParseTpsError::InconsistentReserves);
    assert_eq!(Game::from_tps(3, "1C,x,x/x3/x3 2 1", 0).unwrap_err(), ParseTpsError::InconsistentReserves);
}

#[test]
fn tps_round_trip_after_play() {
    for seed in [1usize, 7, 29] {
        let mut g = Game::new(6, 0).unwrap();
        for _ in 0..30 {
            let moves = g.possible_moves();
            if moves.is_empty() {
                break;
            }
            g.play(&moves[seed % moves.len()]).unwrap();
            let back = Game::from_tps(6, &g.to_tps(), 0).unwrap();
            assert_eq!(back.to_tps(), g.to_tps());
            assert_eq!(back.ply, g.ply);
            assert_eq!(back.to_move, g.to_move);
            assert_eq!(back.white_reserves, g.white_reserves);
            assert_eq!(back.black_reserves, g.black_reserves);
        }
    }
}

#[test]
fn ptn_reads_record() {
    let text = "[Site \"PlayTak.com\"]\n[Player1 \"a \\\"b\\\"\"]\n[Size \"5\"]\n\n1. a1 e5 {opening}\n2. Cc3 d4'\n3. c3< {nice!} R-0\n";
    let p = Ptn::parse(text).unwrap();
    assert_eq!(p.tags.len(), 3);
    assert_eq!(p.tags[0], ("Site".to_string(), "PlayTak.com".to_string()));
    assert_eq!(p.tags[1], ("Player1".to_string(), "a \"b\"".to_string()));
    let moves: Vec<String> = p.moves.iter().map(|m| m.to_text()).collect();
    assert_eq!(moves, vec!["a1", "e5", "Cc3", "d4", "c3<"]);
    assert!(matches!(p.moves[2].kind, MoveKind::Place(Piece::Cap)));
    assert_eq!(p.comments.len(), 6);
    assert_eq!(p.comments[2], vec!["opening".to_string()]);
    assert_eq!(p.comments[5], vec!["nice!".to_string()]);
    assert!(p.comments[0].is_empty());
    assert_eq!(p.result, RecordResult::WhiteWin);
}

#[test]
fn ptn_results_and_errors() {
    assert_eq!(Ptn::parse("1. a1 b1 0-F").unwrap().result, RecordResult::BlackWin);
    assert_eq!(Ptn::parse("1. a1 b1 1/2-1/2").unwrap().result, RecordResult::Draw);
    let p = Ptn::parse("1. a1 b1").unwrap();
    assert_eq!(p.result, RecordResult::Ongoing);
    assert_eq!(p.moves.len(), 2);
    assert!(Ptn::parse("").unwrap().moves.is_empty());
    assert_eq!(Ptn::parse("[Site PlayTak]").unwrap_err(), ParsePtnError::BadTag);
    assert_eq!(Ptn::parse("1. a1 {oops").unwrap_err(), ParsePtnError::UnclosedComment);
    assert!(matches!(Ptn::parse("1. a1 z9").unwrap_err(), ParsePtnError::BadMove(_)));
}

#[test]
fn tps_small_board_round_trip() {
    let text = "x3/2,2,x/1,1,x 1 3";
    let g = Game::from_tps(3, text, 0).unwrap();
    assert_eq!(g.size, 3);
    assert_eq!(g.ply, 4);
    assert_eq!(g.to_move, Color::White);
    assert_eq!(g.to_tps(), text);
    assert_eq!(g.result(), takpy::game::GameResult::Ongoing);
    assert_eq!(g.white_reserves.stones, 8);
    assert_eq!(g.black_reserves.stones, 8);
}
