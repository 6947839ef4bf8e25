use fast_tak::takparse::{Move as FastMove, Tps};
use fast_tak::Reserves as FastReserves;
use takpy::game::{Game, GameResult};
use takpy::types::Move;

fn walk<const N: usize>(seed: usize)
where
    FastReserves<N>: Default,
{
    let mut ours = Game::new(N, 0).unwrap();
    let mut theirs = fast_tak::Game::<N, 0>::default();
    for _ in 0..80 {
        if ours.result() != GameResult::Ongoing || theirs.result() != fast_tak::GameResult::Ongoing {
            break;
        }
        let mut a: Vec<String> = ours.possible_moves().iter().map(|m| m.to_text()).collect();
        let mut found = Vec::new();
        theirs.possible_moves(&mut found);
        let mut b: Vec<String> = found.iter().map(|m| m.to_string()).collect();
        a.sort();
        b.sort();
        assert_eq!(a, b);
        let pick = a[seed % a.len()].clone();
        ours.play(&Move::parse(&pick).unwrap()).unwrap();
        theirs.play(pick.parse::<FastMove>().unwrap()).unwrap();
        let text = Tps::from(theirs.clone()).to_string();
        assert_eq!(ours.to_tps(), text);
        assert_eq!(Game::from_tps(N, &text, 0).unwrap().to_tps(), text);
        assert_eq!(ours.white_reserves.stones, theirs.white_reserves.stones);
        assert_eq!(ours.black_reserves.caps, theirs.black_reserves.caps);
    }
}

#[test]
fn same_moves_as_fast_tak_small_boards() {
    for seed in [5usize, 11, 42, 97] {
        walk::<3>(seed);
        walk::<4>(seed);
        walk::<5>(seed);
    }
}

#[test]
fn same_moves_as_fast_tak_large_boards() {
    for seed in [3usize, 23, 71] {
        walk::<6>(seed);
        walk::<7>(seed);
        walk::<8>(seed);
    }
}
