use rand::prng::IsaacRng;
use rand::SeedableRng;
use xcg::model::{
    border_to_point, copy_shuffled_permutation, create_default_field, create_default_permutation,
    create_origins, create_origins_n, Cell, GameState, ParseError, Player, Point, Stats,
};

const TWO_PLAYERS: &str = "
    *.*.*.*.*.
    *. a A B*.
    *.0.1. b*.
    *.*.*.*.*.
";

#[test]
fn border_points_go_clockwise() {
    assert_eq!(border_to_point(5, 5, 0), Point(0, 0));
    assert_eq!(border_to_point(5, 5, 4), Point(0, 4));
    assert_eq!(border_to_point(5, 5, 5), Point(1, 4));
    assert_eq!(border_to_point(5, 5, 7), Point(3, 4));
    assert_eq!(border_to_point(5, 5, 8), Point(4, 4));
    assert_eq!(border_to_point(5, 5, 12), Point(4, 0));
    assert_eq!(border_to_point(5, 5, 13), Point(3, 0));
    assert_eq!(border_to_point(5, 5, 15), Point(1, 0));
    assert_eq!(border_to_point(5, 5, 16), Point(0, 0));
    assert_eq!(border_to_point(3, 6, 9), Point(2, 3));
}

#[test]
fn default_permutation_is_identity() {
    assert_eq!(create_default_permutation(0), Vec::<u8>::new());
    assert_eq!(create_default_permutation(4), vec![0, 1, 2, 3]);
}

#[test]
fn origins_in_corners() {
    assert_eq!(create_origins(5, 5, vec![0, 1]), vec![Point(0, 0), Point(4, 4)]);
    assert_eq!(create_origins(5, 5, vec![1, 0]), vec![Point(4, 4), Point(0, 0)]);
    assert_eq!(
        create_origins_n(4, 6, 4),
        vec![Point(0, 0), Point(3, 5), Point(0, 5), Point(3, 0)]
    );
    assert_eq!(create_origins_n(4, 6, 0), vec![]);
}

#[test]
fn origins_along_the_border() {
    assert_eq!(
        create_origins(5, 5, vec![0, 1, 2, 3, 4]),
        vec![Point(0, 0), Point(0, 3), Point(2, 4), Point(4, 3), Point(4, 0)]
    );
    assert_eq!(
        create_origins(5, 5, vec![4, 3, 2, 1, 0]),
        vec![Point(4, 0), Point(4, 3), Point(2, 4), Point(0, 3), Point(0, 0)]
    );
}

#[test]
fn default_field_has_border() {
    let f = create_default_field(3, 4);
    assert_eq!(f.m, 3);
    assert_eq!(f.n, 4);
    assert_eq!(f.cells[0], vec![Cell::Border; 4]);
    assert_eq!(f.cells[1], vec![Cell::Border, Cell::Empty, Cell::Empty, Cell::Border]);
    assert_eq!(f.cells[2], vec![Cell::Border; 4]);
}

#[test]
fn shuffled_copy_is_a_permutation() {
    let xs: Vec<u8> = vec![0, 1, 2, 3, 4, 5, 6];
    let mut rng = IsaacRng::seed_from_u64(9);
    let mut ys = copy_shuffled_permutation(&xs, &mut rng);
    assert_eq!(ys.len(), xs.len());
    ys.sort();
    assert_eq!(ys, xs);
}

#[test]
fn parse_board_without_metadata() {
    let gs = GameState::parse_string(TWO_PLAYERS).unwrap();
    assert_eq!(gs.field.m, 4);
    assert_eq!(gs.field.n, 5);
    assert_eq!(gs.field.cells[1], vec![Cell::Border, Cell::Empty, Cell::Empty, Cell::Empty, Cell::Border]);
    assert_eq!(
        gs.field.cells[2],
        vec![Cell::Border, Cell::Owned(0), Cell::Owned(1), Cell::Empty, Cell::Border]
    );
    assert_eq!(
        gs.players,
        vec![Player(vec![Point(1, 1), Point(1, 2)]), Player(vec![Point(2, 3), Point(1, 3)])]
    );
    assert_eq!(gs.player_names, vec!["player-0".to_string(), "player-1".to_string()]);
    assert_eq!(gs.reordering, vec![0, 1]);
    assert_eq!(gs.origins, vec![Point(0, 0), Point(3, 4)]);
    assert_eq!(
        gs.stats,
        Stats {
            iteration: 0,
            filled_count: 16,
            head_to_head_count: 0,
            ouroboros_count: 0,
            bite_count: 0,
            scores: vec![1, 1],
        }
    );
}

#[test]
fn parse_board_with_metadata() {
    let text = format!(
        "{}\nreordering=[1,0]\nstats=Stats(7,20,1,2,3,[5,6])\norigins=[(4,4),(0,0)]\n",
        TWO_PLAYERS
    );
    let gs = GameState::parse_string(&text).unwrap();
    assert_eq!(gs.reordering, vec![1, 0]);
    assert_eq!(gs.origins, vec![Point(4, 4), Point(0, 0)]);
    assert_eq!(
        gs.stats,
        Stats {
            iteration: 7,
            filled_count: 20,
            head_to_head_count: 1,
            ouroboros_count: 2,
            bite_count: 3,
            scores: vec![5, 6],
        }
    );
    let plain = GameState::parse_string(TWO_PLAYERS).unwrap();
    assert_eq!(gs.field, plain.field);
    assert_eq!(gs.players, plain.players);
}

#[test]
fn metadata_text_round_trip() {
    let gs = GameState::parse_string(TWO_PLAYERS).unwrap();
    let mut edited = gs.clone();
    edited.reordering = vec![1, 0];
    edited.origins = vec![Point(2, 3), Point(0, 4)];
    edited.stats = Stats {
        iteration: 12,
        filled_count: 17,
        head_to_head_count: 0,
        ouroboros_count: 4,
        bite_count: 1,
        scores: vec![3, 2],
    };
    let text = edited.to_text();
    assert!(text.starts_with("*.*.*.*.*.\n*. a A B*.\n"));
    assert!(text.ends_with(
        "reordering=[1,0]\nstats=Stats(12,17,0,4,1,[3,2])\norigins=[(2,3),(0,4)]"
    ));
    assert_eq!(GameState::parse_string(&text).unwrap(), edited);
    // the default metadata survives the trip as well
    assert_eq!(GameState::parse_string(&gs.to_text()).unwrap(), gs);
}

#[test]
fn metadata_only_lines() {
    let rest = vec!["reordering = [ 2, 0 ,1 ]", "unknown=5", "origins=[(1,2),(3,4),(5,6)]"];
    let r = GameState::parse_string_rest(3, &rest).unwrap();
    assert_eq!(r.reordering, Some(vec![2, 0, 1]));
    assert_eq!(r.origins, Some(vec![Point(1, 2), Point(3, 4), Point(5, 6)]));
    assert_eq!(r.stats, None);
    let none = GameState::parse_string_rest(3, &vec![]).unwrap();
    assert_eq!(none.reordering, None);
}

#[test]
fn metadata_errors() {
    assert_eq!(GameState::parse_string_rest(2, &vec!["reordering=[0]"]), Err(ParseError));
    assert_eq!(GameState::parse_string_rest(2, &vec!["reordering=[0,0]"]), Err(ParseError));
    assert_eq!(GameState::parse_string_rest(2, &vec!["reordering=[0,x]"]), Err(ParseError));
    assert_eq!(GameState::parse_string_rest(2, &vec!["no separator"]), Err(ParseError));
    assert_eq!(GameState::parse_string_rest(1, &vec!["origins=[(99999,1)]"]), Err(ParseError));
    assert_eq!(GameState::parse_string_rest(1, &vec!["origins=[(1,1),(2,2)]"]), Err(ParseError));
    assert_eq!(GameState::parse_string_rest(1, &vec!["stats=Stats(1,2,3,4,5,[1,2])"]), Err(ParseError));
    assert_eq!(GameState::parse_string_rest(1, &vec!["stats=Stats(70000,2,3,4,5,[1])"]), Err(ParseError));
}

#[test]
fn board_errors() {
    assert_eq!(GameState::parse_string("*.*.*.\n*.*."), Err(ParseError));
    assert_eq!(GameState::parse_string("*.3.*."), Err(ParseError));
    assert_eq!(GameState::parse_string("*.*.\nfoo"), Err(ParseError));
    assert_eq!(
        GameState::parse_string(&format!("{}\nreordering=[0]", TWO_PLAYERS)),
        Err(ParseError)
    );
    assert_eq!(ParseError.message(), "Cannot parse the string to GameState");
}

#[test]
fn empty_text_is_an_empty_board() {
    let gs = GameState::parse_string("").unwrap();
    assert_eq!(gs.field.m, 0);
    assert_eq!(gs.field.n, 0);
    assert!(gs.players.is_empty());
    assert!(gs.origins.is_empty());
}

#[test]
fn shuffled_copy_depends_on_the_seed_only() {
    let xs: Vec<u8> = (0..20).collect();
    let mut a = IsaacRng::seed_from_u64(77);
    let mut b = IsaacRng::seed_from_u64(77);
    assert_eq!(copy_shuffled_permutation(&xs, &mut a), copy_shuffled_permutation(&xs, &mut b));
    assert_eq!(copy_shuffled_permutation(&xs, &mut a), copy_shuffled_permutation(&xs, &mut b));
}
