use takpy::game::{Game, GameResult, PlayError, Reason, Reserves};
use takpy::notation::ParseMoveError;
use takpy::types::{Color, Direction, Move, MoveKind, Piece, Square};

fn mv(s: &str) -> Move {
    Move::parse(s).unwrap()
}

fn play_all(size: usize, half_komi: i8, moves: &[&str]) -> Game {
    let mut game = Game::new(size, half_komi).unwrap();
    for m in moves {
        game.play(&mv(m)).unwrap();
    }
    game
}

#[test]
fn move_parse_place() {
    let m = mv("Sc3");
    assert_eq!(m.square, Square::new(2, 2));
    assert!(matches!(m.kind, MoveKind::Place(Piece::Wall)));
    assert!(matches!(mv("a1").kind, MoveKind::Place(Piece::Flat)));
    assert!(matches!(mv("Fa1").kind, MoveKind::Place(Piece::Flat)));
    assert!(matches!(mv("Ch8").kind, MoveKind::Place(Piece::Cap)));
}

#[test]
fn move_parse_spread() {
    let m = mv("3c2<12");
    assert_eq!(m.square, Square::new(1, 2));
    match m.kind {
        MoveKind::Spread(d, drops) => {
            assert_eq!(d, Direction::Left);
            assert_eq!(drops, vec![1, 2]);
        }
        _ => panic!("not a spread"),
    }
    match mv("a1+").kind {
        MoveKind::Spread(d, drops) => {
            assert_eq!(d, Direction::Up);
            assert_eq!(drops, vec![1]);
        }
        _ => panic!("not a spread"),
    }
    match mv("4b2>").kind {
        MoveKind::Spread(_, drops) => assert_eq!(drops, vec![4]),
        _ => panic!("not a spread"),
    }
}

#[test]
fn move_parse_errors() {
    assert_eq!(Move::parse("").unwrap_err(), ParseMoveError::BadSquare);
    assert_eq!(Move::parse("i1").unwrap_err(), ParseMoveError::BadSquare);
    assert_eq!(Move::parse("a9").unwrap_err(), ParseMoveError::BadSquare);
    assert_eq!(Move::parse("3a1").unwrap_err(), ParseMoveError::TruncatedSpread);
    assert_eq!(Move::parse("Sa1>").unwrap_err(), ParseMoveError::BadPlacement);
    assert_eq!(Move::parse("a1*").unwrap_err(), ParseMoveError::BadDirection);
    assert_eq!(Move::parse("3a1>21x").unwrap_err(), ParseMoveError::BadPattern);
    assert_eq!(Move::parse("3a1>11").unwrap_err(), ParseMoveError::CountMismatch);
    assert_eq!(Move::parse("a1>9").unwrap_err(), ParseMoveError::BadPattern);
}

#[test]
fn move_text_round_trip() {
    for s in ["a1", "Sb2", "Ch8", "a1>", "2c3-", "3c2<12", "8a1+1111112", "5e5<221"] {
        let m = mv(s);
        assert_eq!(m.to_text(), s);
        assert_eq!(Move::parse(&m.to_text()).unwrap(), m);
    }
    let m = Move { square: Square::new(0, 0), kind: MoveKind::Spread(Direction::Right, vec![1]) };
    assert_eq!(m.to_text(), "a1>");
    assert_eq!(mv("1a1>1"), m);
}

#[test]
fn move_symmetries() {
    let syms = mv("a1").symmetries(5).unwrap();
    let texts: Vec<String> = syms.iter().map(|m| m.to_text()).collect();
    assert_eq!(texts, vec!["a1", "a5", "e5", "e1", "a5", "e5", "e1", "a1"]);
    let syms = mv("2b1>11").symmetries(5).unwrap();
    let texts: Vec<String> = syms.iter().map(|m| m.to_text()).collect();
    assert_eq!(texts[0], "2b1>11");
    assert_eq!(texts[1], "2a4-11");
    assert_eq!(texts[4], "2b5>11");
    assert!(mv("a1").symmetries(9).is_none());
    assert!(mv("f1").symmetries(5).is_none());
}

#[test]
fn new_game_sizes() {
    assert!(Game::new(2, 0).is_none());
    assert!(Game::new(9, 0).is_none());
    assert!(Game::new(5, 1).is_none());
    let g = Game::new(6, 4).unwrap();
    assert_eq!(g.size, 6);
    assert_eq!(g.half_komi, 4);
    assert_eq!(g.white_reserves, Reserves { stones: 30, caps: 1 });
    assert_eq!(Game::new(3, 0).unwrap().black_reserves, Reserves { stones: 10, caps: 0 });
    assert_eq!(Game::new(8, 0).unwrap().black_reserves, Reserves { stones: 50, caps: 2 });
    assert_eq!(g.ply, 0);
    assert_eq!(g.to_move, Color::White);
    assert_eq!(g.result(), GameResult::Ongoing);
}

#[test]
fn opening_swap_rule() {
    let g = Game::new(5, 0).unwrap();
    let moves = g.possible_moves();
    assert_eq!(moves.len(), 25);
    assert!(moves.iter().all(|m| matches!(m.kind, MoveKind::Place(Piece::Flat))));
    let mut g2 = g.clone_and_play(&moves[7]).unwrap();
    assert_eq!(g2.ply, 1);
    assert_eq!(g2.to_move, Color::Black);
    let i = moves[7].square.row as usize * 5 + moves[7].square.column as usize;
    assert_eq!(g2.board[i].colors, vec![Color::Black]);
    assert_eq!(g2.black_reserves.stones, 20);
    assert_eq!(g2.white_reserves.stones, 21);
    assert_eq!(g2.play(&mv("Sa1")), Err(PlayError::OpeningNonFlat));
    assert_eq!(g2.play(&mv("Ca1")), Err(PlayError::OpeningNonFlat));
    let moves = g2.possible_moves();
    assert_eq!(moves.len(), 24);
    assert!(moves.iter().all(|m| matches!(m.kind, MoveKind::Place(Piece::Flat))));
}

#[test]
fn road_wins_immediately() {
    let g = play_all(3, 0, &["c3", "a1", "b1", "c2", "c1"]);
    assert_eq!(g.result(), GameResult::Winner(Color::White, Reason::Road));
    assert!(g.white_reserves.stones > 0);
    assert!(g.possible_moves().is_empty());
    let mut g = g;
    assert_eq!(g.play(&mv("b2")), Err(PlayError::GameOver));
}

#[test]
fn board_fill_flat_count() {
    let moves = [
        "a1", "a2", "b1", "b2", "c2", "c1", "d1", "d2", "d3", "c3", "b3", "a3", "a4", "b4", "c4", "d4",
    ];
    let g = play_all(4, 0, &moves);
    assert_eq!(g.result(), GameResult::Draw(Reason::BoardFill));
    let g = play_all(4, 4, &moves);
    assert_eq!(g.result(), GameResult::Winner(Color::Black, Reason::BoardFill));
}

#[test]
fn spread_from_opponent_wall() {
    let mut g = play_all(5, 0, &["e5", "a5", "b1", "Sc1"]);
    let before = g.to_tps();
    assert_eq!(g.play(&mv("c1<")), Err(PlayError::StackNotOwned));
    assert_eq!(g.to_tps(), before);
    assert_eq!(g.ply, 4);
    assert_eq!(g.play(&mv("c3<")), Err(PlayError::EmptySquare));
    assert_eq!(g.play(&mv("b1<")), Ok(()));
}

#[test]
fn capstone_flattens_wall() {
    let g = play_all(5, 0, &["e5", "a5", "b1", "Sc1", "Cb2", "e4", "b2-", "e3"]);
    assert_eq!(g.board[1].piece, Piece::Cap);
    assert_eq!(g.board[1].colors, vec![Color::White, Color::White]);
    assert_eq!(g.clone_and_play(&mv("2b1>")).unwrap_err(), PlayError::StackOnWall);
    assert_eq!(g.clone_and_play(&mv("2b1>11")).unwrap_err(), PlayError::StackOnWall);
    let after = g.clone_and_play(&mv("b1>")).unwrap();
    assert_eq!(after.board[2].piece, Piece::Cap);
    assert_eq!(after.board[2].colors, vec![Color::Black, Color::White]);
    assert_eq!(after.board[1].piece, Piece::Flat);
    assert_eq!(after.board[1].colors, vec![Color::White]);
    assert_eq!(after.reversible_plies, 1);
    let mut g2 = play_all(5, 0, &["e5", "a5", "b1", "Sc1", "d1", "e4"]);
    assert_eq!(g2.play(&mv("d1<")), Err(PlayError::StackOnWall));
}

#[test]
fn spread_errors() {
    let mut g = play_all(5, 0, &["e5", "a5", "b1", "Cc1"]);
    assert_eq!(g.play(&mv("b1>")), Err(PlayError::StackOnCap));
    assert_eq!(g.play(&mv("b1-")), Err(PlayError::SpreadOutOfBounds));
    assert_eq!(g.play(&mv("2b1+")), Err(PlayError::StackSize));
    assert_eq!(g.play(&mv("b1")), Err(PlayError::AlreadyOccupied));
    let bad = Move { square: Square::new(0, 1), kind: MoveKind::Spread(Direction::Up, vec![]) };
    assert_eq!(g.play(&bad), Err(PlayError::InvalidPattern));
    let bad = Move { square: Square::new(0, 1), kind: MoveKind::Spread(Direction::Up, vec![0, 1]) };
    assert_eq!(g.play(&bad), Err(PlayError::InvalidPattern));
    let bad = Move { square: Square::new(0, 1), kind: MoveKind::Spread(Direction::Up, vec![3, 3]) };
    assert_eq!(g.play(&bad), Err(PlayError::CarryLimit));
    let off = Move { square: Square::new(7, 1), kind: MoveKind::Place(Piece::Flat) };
    assert_eq!(g.play(&off), Err(PlayError::OutOfBounds));
    assert_eq!(g.play(&mv("Cd1")), Ok(()));
    assert_eq!(g.play(&mv("Ce1")), Err(PlayError::NoCapstone));
}

#[test]
fn possible_moves_all_play() {
    for seed in [3usize, 17, 101] {
        let mut g = Game::new(5, 0).unwrap();
        for _ in 0..40 {
            let moves = g.possible_moves();
            if moves.is_empty() {
                break;
            }
            for m in &moves {
                assert!(g.clone_and_play(m).is_ok());
            }
            let m = &moves[seed % moves.len()];
            g.play(m).unwrap();
        }
    }
}

#[test]
fn reserves_count_down() {
    let g = play_all(5, 0, &["e5", "a5", "Sb1", "Cc1"]);
    assert_eq!(g.white_reserves, Reserves { stones: 19, caps: 1 });
    assert_eq!(g.black_reserves, Reserves { stones: 20, caps: 0 });
}

#[test]
fn position_text() {
    let g = Game::new(5, 0).unwrap();
    assert_eq!(g.to_tps(), "x5/x5/x5/x5/x5 1 1");
    let g = play_all(5, 0, &["a1", "e5", "Sb1", "Cc1", "b1<"]);
    assert_eq!(g.to_tps(), "x4,1/x5/x5/x5/21S,x,2C,x2 2 3");
}

#[test]
fn symmetries_keep_result() {
    let g = play_all(3, 0, &["c3", "a1", "b1", "c2", "c1"]);
    let syms = g.symmetries();
    assert_eq!(syms.len(), 8);
    for s in &syms {
        assert_eq!(s.result(), g.result());
        assert_eq!(s.ply, g.ply);
    }
    assert_eq!(syms[0].to_tps(), g.to_tps());
}

#[test]
fn canonical_is_idempotent() {
    let g = play_all(5, 0, &["a1", "e5", "Sb1", "Cc1", "b1<"]);
    let c = g.canonical();
    let cc = c.canonical();
    assert_eq!(c.to_tps(), cc.to_tps());
    for s in g.symmetries() {
        assert!(s.to_tps() >= c.to_tps());
        assert_eq!(s.canonical().to_tps(), c.to_tps());
    }
}

#[test]
fn color_next() {
    assert_eq!(Color::White.next(), Color::Black);
    assert_eq!(Color::Black.next(), Color::White);
    assert_eq!(GameResult::Winner(Color::Black, Reason::Road).color(), Some(Color::Black));
    assert_eq!(GameResult::Draw(Reason::BoardFill).color(), None);
}

#[test]
fn reserves_depleted_flat_count() {
    let g = Game::from_tps(3, "1111,x,x/x,x,x/111,x,111 1 10", 0).unwrap();
    assert_eq!(g.white_reserves, Reserves { stones: 0, caps: 0 });
    assert_eq!(g.black_reserves, Reserves { stones: 10, caps: 0 });
    assert_eq!(g.result(), GameResult::Winner(Color::White, Reason::ReservesDepleted));
    let g = Game::from_tps(3, "1111,x,x/x,x,x/112,x,122 1 10", 4).unwrap();
    assert_eq!(g.white_reserves.stones, 3);
    assert_eq!(g.result(), GameResult::Ongoing);
    let g = Game::from_tps(3, "1111,x,2/x,x,x/111,x,111 1 10", 0).unwrap();
    assert_eq!(g.result(), GameResult::Winner(Color::White, Reason::ReservesDepleted));
    let g = Game::from_tps(3, "1111,2,2/x,x,x/111,2,111 1 10", 4).unwrap();
    assert_eq!(g.result(), GameResult::Winner(Color::Black, Reason::ReservesDepleted));
    let g = Game::from_tps(3, "1111,2,2/x,2,x/111,2,111 1 10", 0).unwrap();
    assert_eq!(g.result(), GameResult::Winner(Color::Black, Reason::Road));
}

#[test]
fn mover_wins_double_road() {
    let mut g = Game::from_tps(3, "21,x,x/x,2,1/x,2,1 1 4", 0).unwrap();
    assert_eq!(g.result(), GameResult::Ongoing);
    g.play(&mv("2a3>11")).unwrap();
    assert_eq!(g.result(), GameResult::Winner(Color::White, Reason::Road));
}

#[test]
fn capstones_count_as_flats() {
    let g = Game::from_tps(5, "x5/x5/x5/x5/1C,2,2S,x,x 2 3", 0).unwrap();
    assert_eq!(g.black_reserves.stones, 19);
    assert_eq!(g.white_reserves.caps, 0);
    let full = Game::from_tps(3, "1,2,1/2,1S,2/1,2,2S 1 6", 0).unwrap();
    assert_eq!(full.result(), GameResult::Winner(Color::Black, Reason::BoardFill));
    let capped = Game::from_tps(5, "x,x,x,x,2/x5/x5/x5/1111111111111111111111C,x4 1 12", 0).unwrap();
    assert_eq!(capped.white_reserves, Reserves { stones: 0, caps: 0 });
    assert_eq!(capped.result(), GameResult::Draw(Reason::ReservesDepleted));
}

fn on_board(g: &Game, c: Color) -> (u32, u32) {
    let mut stones = 0;
    let mut caps = 0;
    for s in &g.board {
        for (i, col) in s.colors.iter().enumerate() {
            if *col == c {
                if i + 1 == s.colors.len() && s.piece == Piece::Cap {
                    caps += 1;
                } else {
                    stones += 1;
                }
            }
        }
    }
    (stones, caps)
}

#[test]
fn reserves_conserved_during_play() {
    for seed in [2usize, 13, 57] {
        let mut g = Game::new(6, 0).unwrap();
        for _ in 0..60 {
            for c in [Color::White, Color::Black] {
                let (stones, caps) = on_board(&g, c);
                let r = if c == Color::White { g.white_reserves } else { g.black_reserves };
                assert_eq!(stones + r.stones as u32, 30);
                assert_eq!(caps + r.caps as u32, 1);
            }
            let moves = g.possible_moves();
            if moves.is_empty() {
                break;
            }
            g.play(&moves[seed % moves.len()]).unwrap();
        }
    }
}

#[test]
fn symmetric_positions_have_symmetric_moves() {
    let g = play_all(5, 0, &["a1", "e5", "Sb1", "Cc1", "b1<", "d4", "c2", "c1<"]);
    let moves = g.possible_moves();
    for k in 0..8u8 {
        let s = g.symmetry(k);
        assert_eq!(s.result(), g.result());
        let mut theirs: Vec<String> = s.possible_moves().iter().map(|m| m.to_text()).collect();
        let mut mapped: Vec<String> =
            moves.iter().map(|m| m.symmetries(5).unwrap()[k as usize].to_text()).collect();
        theirs.sort();
        mapped.sort();
        assert_eq!(theirs, mapped);
    }
}

#[test]
fn game_equality() {
    let g = play_all(5, 0, &["a1", "e5", "Sb1", "Cc1", "b1<", "d4"]);
    assert_eq!(g.reversible_plies, 0);
    assert_eq!(Game::from_tps(5, &g.to_tps(), 0).unwrap(), g);
    let c = g.canonical();
    assert_eq!(c.canonical(), c);
    assert!(g.duplicate() == g);
    assert!(g.clone_and_play(&mv("a2")).unwrap() != g);
    assert_eq!(g.symmetry(0), g);
}

#[test]
fn new_game_moves_listed_once() {
    let g = Game::new(5, 0).unwrap();
    let moves = g.possible_moves();
    assert_eq!(moves.len(), 25);
    let mut squares: Vec<(u8, u8)> = moves.iter().map(|m| (m.square.row, m.square.column)).collect();
    squares.sort();
    squares.dedup();
    assert_eq!(squares.len(), 25);
    for seed in [4usize, 9] {
        let mut g = Game::new(6, 0).unwrap();
        for _ in 0..40 {
            let moves = g.possible_moves();
            if moves.is_empty() {
                break;
            }
            for i in 0..moves.len() {
                for j in i + 1..moves.len() {
                    assert!(moves[i] != moves[j]);
                }
            }
            g.play(&moves[seed % moves.len()]).unwrap();
        }
    }
}
