use rand::prng::IsaacRng;
use rand::SeedableRng;
use xcg::bot::{border_or_owned_partial, cell_of, choose_target, draw_points, find_closest, keep_empty, player, sort_by_distance_to, Bot2, Planner};
use xcg::geometry::{build_path, direction, distance, may_be_selected, to_cartesian, to_grid, P};
use xcg::model::{create_default_field, Cell, GameState, Move, Player, Point};

fn adjacent(p: &P, q: &P) -> bool {
    (p.0 - q.0).abs() + (p.1 - q.1).abs() == 1
}

#[test]
fn coordinates_round_trip() {
    let m = 7usize;
    for row in 0..7i16 {
        for col in 0..9i16 {
            let p = Point(row, col);
            let c = to_cartesian(&p, m);
            assert_eq!(c, P(col, 6 - row));
            assert_eq!(to_grid(&c, m), p);
        }
    }
}

#[test]
fn build_path_is_a_walk_to_dst() {
    let pts = [P(0, 0), P(3, 3), P(3, 0), P(0, 5), P(5, 1), P(2, 2)];
    for src in pts.iter() {
        for dst in pts.iter() {
            for &hf in [true, false].iter() {
                let path = build_path(src, dst, hf);
                let d = distance(src, dst) as usize;
                assert_eq!(path.len(), d);
                if src == dst {
                    assert!(path.is_empty());
                    continue;
                }
                assert_eq!(path.last(), Some(dst));
                assert!(adjacent(src, &path[0]));
                for w in path.windows(2) {
                    assert!(adjacent(&w[0], &w[1]));
                }
                for i in 0..path.len() {
                    for j in (i + 1)..path.len() {
                        assert_ne!(path[i], path[j]);
                    }
                }
            }
        }
    }
}

#[test]
fn build_path_axis_order() {
    assert_eq!(build_path(&P(0, 0), &P(2, 1), true), vec![P(1, 0), P(2, 0), P(2, 1)]);
    assert_eq!(build_path(&P(0, 0), &P(2, 1), false), vec![P(0, 1), P(1, 1), P(2, 1)]);
    assert_eq!(build_path(&P(3, 3), &P(1, 3), true), vec![P(2, 3), P(1, 3)]);
    assert_eq!(build_path(&P(3, 3), &P(3, 0), false), vec![P(3, 2), P(3, 1), P(3, 0)]);
}

#[test]
fn direction_examples() {
    assert_eq!(direction(&P(3, 3), &P(3, 7)), Move::Up);
    assert_eq!(direction(&P(3, 3), &P(3, 0)), Move::Down);
    assert_eq!(direction(&P(3, 3), &P(3, 3)), Move::Down);
    assert_eq!(direction(&P(3, 3), &P(7, 3)), Move::Right);
    assert_eq!(direction(&P(3, 3), &P(0, 3)), Move::Left);
    // diagonal steps are classified by their horizontal part
    assert_eq!(direction(&P(3, 3), &P(4, 9)), Move::Right);
    assert_eq!(direction(&P(3, 3), &P(1, 0)), Move::Left);
}

#[test]
fn direction_of_grid_points() {
    let m = 8usize;
    let src = to_cartesian(&Point(3, 3), m);
    assert_eq!(direction(&src, &to_cartesian(&Point(3, 7), m)), Move::Right);
    assert_eq!(direction(&src, &to_cartesian(&Point(3, 0), m)), Move::Left);
    assert_eq!(direction(&src, &to_cartesian(&Point(3, 3), m)), Move::Down);
}

#[test]
fn distance_examples() {
    assert_eq!(distance(&P(0, 0), &P(3, 4)), 7);
    assert_eq!(distance(&P(5, 1), &P(2, 6)), 8);
    assert_eq!(distance(&P(2, 2), &P(2, 2)), 0);
}

#[test]
fn visibility_guard_octants() {
    let base = P(2, 2);
    // heading right: anything not left of the arrow
    assert!(may_be_selected(&base, &P(4, 2), &P(4, 0)));
    assert!(!may_be_selected(&base, &P(4, 2), &P(3, 9)));
    // heading up-right: the quadrant above and right of the arrow
    assert!(may_be_selected(&base, &P(3, 3), &P(3, 4)));
    assert!(!may_be_selected(&base, &P(3, 3), &P(2, 4)));
    // heading down
    assert!(may_be_selected(&base, &P(2, 0), &P(9, 0)));
    assert!(!may_be_selected(&base, &P(2, 0), &P(2, 1)));
    // heading up-left
    assert!(may_be_selected(&base, &P(1, 3), &P(0, 3)));
    assert!(!may_be_selected(&base, &P(1, 3), &P(1, 2)));
    // no heading at all
    assert!(may_be_selected(&base, &base, &P(3, 3)));
    assert!(!may_be_selected(&base, &base, &P(2, 5)));
}

#[test]
fn cells_in_cartesian_space() {
    let f = create_default_field(4, 6);
    assert_eq!(cell_of(&f, &P(0, 0)), Cell::Border);
    assert_eq!(cell_of(&f, &P(2, 1)), Cell::Empty);
    assert_eq!(cell_of(&f, &P(5, 2)), Cell::Border);
    assert!(border_or_owned_partial(&f, &P(2, 1), &P(3, 1), &P(5, 1)));
    assert!(!border_or_owned_partial(&f, &P(2, 1), &P(3, 1), &P(4, 1)));
}

#[test]
fn ring_search_first_ring() {
    let f = create_default_field(5, 5);
    // a border cell right above: found on the first ring
    let r = find_closest(&f, &P(2, 3), &P(2, 1), &P(2, 3));
    assert_eq!(r, Some(P(2, 4)));
    // heading right from (1,2) to (3,2): the nearest border cell to the right
    let r = find_closest(&f, &P(3, 2), &P(1, 2), &P(3, 2));
    assert_eq!(r, Some(P(4, 2)));
}

#[test]
fn ring_search_farther_rings_and_clamping() {
    let f = create_default_field(7, 7);
    // from the centre heading right, the first legal point is two steps away
    let r = find_closest(&f, &P(3, 3), &P(2, 3), &P(3, 3));
    let c = r.unwrap();
    assert_eq!(distance(&c, &P(3, 3)), 3);
    assert_eq!(cell_of(&f, &c), Cell::Border);
    assert!(c.0 >= 3);
    // off-board candidates are clamped back onto the left edge
    let f5 = create_default_field(5, 5);
    let r = find_closest(&f5, &P(0, 2), &P(0, 2), &P(0, 2));
    assert_eq!(r, Some(P(1, 0)));
}

#[test]
fn ring_search_nothing_legal() {
    let mut f = create_default_field(4, 4);
    for row in f.cells.iter_mut() {
        for c in row.iter_mut() {
            *c = Cell::Empty;
        }
    }
    assert_eq!(find_closest(&f, &P(1, 1), &P(0, 1), &P(1, 1)), None);
}

#[test]
fn sampler_keeps_unclaimed_in_order() {
    let f = create_default_field(5, 5);
    let pts = vec![P(0, 0), P(1, 1), P(4, 2), P(3, 3), P(2, 1)];
    assert_eq!(keep_empty(&f, &pts), vec![P(1, 1), P(3, 3), P(2, 1)]);
}

#[test]
fn sort_by_distance_is_stable() {
    let pts = vec![P(3, 3), P(2, 1), P(1, 1), P(4, 2), P(2, 3)];
    let sorted = sort_by_distance_to(&P(2, 2), &pts, 5, 5);
    assert_eq!(sorted, vec![P(2, 1), P(2, 3), P(3, 3), P(1, 1), P(4, 2)]);
}

#[test]
fn target_is_fifth_closest_or_farthest() {
    let f = create_default_field(5, 5);
    let head = P(2, 2);
    let pts = vec![P(1, 1), P(3, 1), P(1, 3), P(3, 3), P(2, 1)];
    assert_eq!(choose_target(&f, &head, &pts), Some(P(3, 3)));
    let few = vec![P(1, 1), P(2, 1), P(0, 0)];
    assert_eq!(choose_target(&f, &head, &few), Some(P(1, 1)));
    let none = vec![P(0, 0), P(4, 4)];
    assert_eq!(choose_target(&f, &head, &none), None);
}

#[test]
fn scenario_plan_on_small_board() {
    let f = create_default_field(5, 5);
    let head = P(2, 2);
    let samples = vec![P(1, 1), P(3, 1), P(1, 3), P(3, 3), P(2, 1)];
    for &coin in [true, false].iter() {
        let mut planner = Planner::new();
        let mv = planner.step(&f, vec![head], &samples, coin);
        assert_eq!(mv, Move::Right);
        // outbound leg: horizontal first, ending at the farthest candidate
        assert_eq!(planner.path[0], P(3, 2));
        assert_eq!(planner.path[1], P(3, 3));
        // closing leg: ends on a border cell on the permitted side
        let end = *planner.path.last().unwrap();
        assert_eq!(end, P(3, 4));
        assert_eq!(cell_of(&f, &end), Cell::Border);
        assert!(may_be_selected(&head, &P(3, 3), &end));
        assert_eq!(planner.next_head_pos, 1);
        // the next turns follow the route
        let mv = planner.step(&f, vec![P(3, 2), head], &samples, coin);
        assert_eq!(mv, Move::Up);
        assert_eq!(planner.next_head_pos, 2);
    }
}

#[test]
fn empty_body_stops() {
    let f = create_default_field(5, 5);
    let mut planner = Planner::new();
    let samples = vec![P(1, 1), P(2, 2)];
    assert_eq!(planner.step(&f, vec![], &samples, true), Move::Stop);
    assert!(planner.path.is_empty());
}

#[test]
fn no_unclaimed_sample_stops() {
    let f = create_default_field(5, 5);
    let mut planner = Planner::new();
    let samples = vec![P(0, 0), P(4, 4), P(0, 3)];
    assert_eq!(planner.step(&f, vec![P(2, 2)], &samples, true), Move::Stop);
}

#[test]
fn shrunk_body_replans() {
    let f = create_default_field(7, 7);
    let samples = vec![P(1, 1), P(5, 1), P(1, 5), P(5, 5), P(3, 1), P(2, 2)];
    let mut planner = Planner::new();
    let body = vec![P(3, 3), P(3, 2), P(3, 1)];
    planner.step(&f, body.clone(), &samples, false);
    assert!(!planner.path.is_empty());
    // an unrelated route is committed before the body shrinks
    planner.path = vec![P(3, 4), P(3, 5)];
    planner.next_head_pos = 0;
    let shrunk = vec![P(3, 3), P(3, 2)];
    let other = vec![P(1, 5), P(2, 5), P(5, 5)];
    let mv = planner.step(&f, shrunk.clone(), &other, true);
    let mut fresh = Planner { cur_me: body.clone(), last_me: vec![], path: vec![], next_head_pos: 0 };
    let expected = fresh.step(&f, shrunk, &other, true);
    assert_eq!(mv, expected);
    assert_eq!(planner.path, fresh.path);
    assert_ne!(mv, Move::Up);
}

fn board_with_player(body: Vec<Point>) -> GameState {
    let mut gs = GameState::parse_string("*.*.*.*.*.*.*.\n*. . . . . .*.\n*. . . . . .*.\n*. . . . . .*.\n*. . . . . .*.\n*. . . . . .*.\n*.*.*.*.*.*.*.").unwrap();
    gs.players = vec![Player(body)];
    gs
}

#[test]
fn bot_stops_without_body() {
    let gs = board_with_player(vec![]);
    let mut bot = Bot2::new(0);
    bot.reset(&gs, 0, 7);
    assert_eq!(bot.do_move(&gs), Move::Stop);
}

#[test]
fn bot_is_deterministic_for_a_seed() {
    let gs = board_with_player(vec![Point(3, 2), Point(3, 3)]);
    let body = player(&gs, 0);
    assert_eq!(body, vec![P(3, 3), P(2, 3)]);
    for seed in [1u64, 42, 2216562425439805338].iter() {
        let mut a = Bot2::new(0);
        let mut b = Bot2::new(0);
        a.reset(&gs, 0, *seed);
        b.reset(&gs, 0, *seed);
        let ma: Vec<Move> = (0..12).map(|_| a.do_move(&gs)).collect();
        let mb: Vec<Move> = (0..12).map(|_| b.do_move(&gs)).collect();
        assert_eq!(ma, mb);
    }
}

#[test]
fn sampler_draws_on_the_board() {
    let mut a = IsaacRng::seed_from_u64(5);
    let mut b = IsaacRng::seed_from_u64(5);
    let pa = draw_points(&mut a, 4, 7, 50);
    let pb = draw_points(&mut b, 4, 7, 50);
    assert_eq!(pa.len(), 50);
    assert_eq!(pa, pb);
    assert!(pa.iter().all(|p| 0 <= p.0 && p.0 < 7 && 0 <= p.1 && p.1 < 4));
}
