use patrol::grid::Cell;
use patrol::oracle::calc_dist_to_start;
use patrol::route::{serialize_route, solve};
use patrol::search::{bfs, check_all_watched, dfs};
use patrol::view::{make_intersection, make_view};
use patrol::watch::WatchedCount;

fn grid(rows: &[&str]) -> Vec<Vec<Cell>> {
    rows.iter().map(|r| r.bytes().map(Cell::from_byte).collect()).collect()
}

/// Replays a move string over the grid: returns the visited cells (after
/// the start) and the total cost of entering them, and asserts that no move
/// leaves the grid or lands on a block.
fn replay(map: &Vec<Vec<Cell>>, start: (usize, usize), moves: &[u8]) -> (Vec<(usize, usize)>, u64) {
    let (mut x, mut y) = start;
    let mut cost: u64 = 0;
    let mut visited = Vec::new();
    for &m in moves {
        match m {
            b'U' => y -= 1,
            b'D' => y += 1,
            b'L' => x -= 1,
            b'R' => x += 1,
            _ => panic!("bad move byte"),
        }
        assert!(y < map.len() && x < map[y].len(), "walked off the grid");
        match map[y][x] {
            Cell::Block => panic!("walked onto a block"),
            Cell::Road(w) => cost += w as u64,
        }
        visited.push((x, y));
    }
    (visited, cost)
}

fn ring() -> Vec<Vec<Cell>> {
    grid(&["#####", "#111#", "#1#1#", "#111#", "#####"])
}

#[test]
fn cell_from_byte_parses() {
    assert!(matches!(Cell::from_byte(b'#'), Cell::Block));
    assert!(matches!(Cell::from_byte(b'0'), Cell::Road(0)));
    assert!(matches!(Cell::from_byte(b'9'), Cell::Road(9)));
    assert!(Cell::from_byte(b'#').is_block());
    assert!(!Cell::from_byte(b'3').is_block());
}

#[test]
fn cell_flag_reports_open_sides() {
    let m = ring();
    // (1,1): right and down open
    assert_eq!(patrol::grid::cell_flag(&m, 1, 1), 2 + 8);
    // (3,3): left and up open
    assert_eq!(patrol::grid::cell_flag(&m, 3, 3), 1 + 4);
    // (2,1): left and right open
    assert_eq!(patrol::grid::cell_flag(&m, 2, 1), 1 + 2);
}

#[test]
fn watch_incr_decr_restores_exactly() {
    let samples = [
        WatchedCount::Corner(0),
        WatchedCount::Corner(3),
        WatchedCount::J { h: 1, v: 0 },
        WatchedCount::T1 { h: 2 },
        WatchedCount::T2 { v: 5 },
    ];
    for &s in samples.iter() {
        let mut c = s;
        c.incr_h();
        c.decr_h();
        assert_eq!(c, s);
        let mut c = s;
        c.incr_v();
        c.decr_v();
        assert_eq!(c, s);
    }
}

#[test]
fn watch_predicate_monotone_under_increment() {
    let samples = [
        WatchedCount::Corner(1),
        WatchedCount::J { h: 1, v: 1 },
        WatchedCount::T1 { h: 1 },
        WatchedCount::T2 { v: 1 },
    ];
    for &s in samples.iter() {
        assert!(s.is_watched());
        let mut c = s;
        c.incr_h();
        assert!(c.is_watched());
        let mut c = s;
        c.incr_v();
        assert!(c.is_watched());
    }
}

#[test]
fn ring_classifies_four_corners() {
    let m = ring();
    let (isect, watched) = make_intersection(&m);
    assert_eq!(isect.position, vec![(1, 1), (3, 1), (1, 3), (3, 3)]);
    assert_eq!(watched.len(), 4);
    for w in watched {
        assert!(matches!(w, WatchedCount::Corner(0)));
    }
}

#[test]
fn full_cross_is_classified() {
    let m = grid(&["#####", "##1##", "#111#", "##1##", "#####"]);
    let (isect, watched) = make_intersection(&m);
    assert_eq!(isect.position, vec![(2, 2)]);
    assert!(matches!(watched[0], WatchedCount::J { h: 0, v: 0 }));
}

#[test]
fn t_junctions_are_classified() {
    let m = grid(&["#####", "#111#", "##1##", "##1##", "#####"]);
    let (isect, watched) = make_intersection(&m);
    // (2,1) has left, right and down open: a T missing one vertical side.
    assert!(isect.position.contains(&(2, 1)));
    let i = isect.position.iter().position(|&p| p == (2, 1)).unwrap();
    assert!(matches!(watched[i], WatchedCount::T1 { h: 0 }));
}

#[test]
fn make_view_lists_visible_intersections_in_cost_order() {
    let m = ring();
    let (isect, _) = make_intersection(&m);
    // From (1,1): rightwards (3,1) at cost 2, downwards (1,3) at cost 2.
    let v = make_view(&m, &isect.position, 1, 1);
    assert_eq!(v.0, vec![(1, 2)]);
    assert_eq!(v.1, vec![(2, 2)]);
    // A view of a plain road cell also works: from (2,1).
    let v2 = make_view(&m, &isect.position, 2, 1);
    assert_eq!(v2.0, vec![(1, 1), (0, 1)]);
    assert!(v2.1.is_empty());
}

/// The oracle's distances equal an independently computed reference
/// shortest-path distance over the raw grid.
#[test]
fn oracle_matches_reference_shortest_paths() {
    let m = grid(&["#####", "#123#", "#4#5#", "#678#", "#####"]);
    let (isect, _) = make_intersection(&m);
    let start = (1, 1);
    let (dist, paths) = calc_dist_to_start(&m, &isect.position, start);

    // Reference: Bellman-Ford over all road cells.
    let n = m.len();
    let mut ref_d = vec![vec![u64::MAX; n]; n];
    ref_d[start.1][start.0] = 0;
    for _ in 0..n * n {
        for y in 0..n {
            for x in 0..n {
                if ref_d[y][x] == u64::MAX {
                    continue;
                }
                let mut relax = |nx: usize, ny: usize| {
                    if let Cell::Road(w) = m[ny][nx] {
                        let nd = ref_d[y][x] + w as u64;
                        if nd < ref_d[ny][nx] {
                            ref_d[ny][nx] = nd;
                        }
                    }
                };
                if x > 0 {
                    relax(x - 1, y);
                }
                if x + 1 < n {
                    relax(x + 1, y);
                }
                if y > 0 {
                    relax(x, y - 1);
                }
                if y + 1 < n {
                    relax(x, y + 1);
                }
            }
        }
    }
    for (i, &(px, py)) in isect.position.iter().enumerate() {
        assert_eq!(dist[i], ref_d[py][px], "distance mismatch at {:?}", (px, py));
        // The stored return leg really walks back to start for that cost.
        let (visited, _) = replay(&m, (px, py), &paths[i]);
        if !paths[i].is_empty() {
            assert_eq!(*visited.last().unwrap(), start);
        }
    }
}

/// Rescue search reaches the nearest unsatisfied intersection at minimal
/// view-graph cost.
#[test]
fn rescue_search_finds_nearest_unwatched() {
    let m = ring();
    let (isect, mut watched) = make_intersection(&m);
    // Satisfy everything but (3,3).
    let target = isect.position.iter().position(|&p| p == (3, 3)).unwrap();
    for (i, w) in watched.iter_mut().enumerate() {
        if i != target {
            w.incr_h();
            w.incr_v();
        }
    }
    let from = isect.position.iter().position(|&p| p == (1, 1)).unwrap();
    let (d, path) = bfs(&isect, &watched, from).expect("an unsatisfied node exists");
    assert_eq!(d, 4, "minimal cost over the view graph");
    assert_eq!(*path.last().unwrap(), target);
    assert_eq!(path[0], from);
}

/// An unsatisfied start node is itself the nearest unsatisfied node: the
/// rescue search returns it at distance zero.
#[test]
fn rescue_search_returns_unwatched_start_immediately() {
    let m = ring();
    let (isect, watched) = make_intersection(&m);
    // Nothing credited yet: every corner, the start node included, is
    // unsatisfied.
    let from = isect.position.iter().position(|&p| p == (3, 1)).unwrap();
    let (d, path) = bfs(&isect, &watched, from).expect("start node is unsatisfied");
    assert_eq!(d, 0);
    assert_eq!(path, vec![from]);
}

#[test]
fn rescue_search_none_when_all_satisfied_unreachable() {
    // Two separate road components; the unsatisfied corner is unreachable
    // over the view graph from the first one.
    let m = grid(&[
        "#######",
        "#11#11#",
        "#1##1##",
        "#11#11#",
        "#######",
        "#######",
        "#######",
    ]);
    let (isect, mut watched) = make_intersection(&m);
    // Satisfy every intersection of the left component.
    for (i, &(px, _)) in isect.position.iter().enumerate() {
        if px < 3 {
            watched[i].incr_h();
            watched[i].incr_v();
        }
    }
    // The unsatisfied intersections all lie in the right component, which
    // the view graph cannot reach from the left one.
    let from = isect.position.iter().position(|&p| p.0 < 3).unwrap();
    assert!(bfs(&isect, &watched, from).is_none());
}

/// The watch array is returned bit for bit unchanged by a complete search
/// call.
#[test]
fn dfs_restores_watch_state() {
    let m = ring();
    let (isect, mut watched) = make_intersection(&m);
    let (dist, _) = calc_dist_to_start(&m, &isect.position, (1, 1));
    let sv = make_view(&m, &isect.position, 1, 1);
    for &(i, _) in sv.0.iter() {
        watched[i].incr_h();
    }
    for &(i, _) in sv.1.iter() {
        watched[i].incr_v();
    }
    let snapshot = watched.clone();
    let mut best_path = Vec::new();
    let mut path = vec![sv.0[0].0];
    let r = dfs(&isect, &dist, &mut watched, u64::MAX, sv.0[0].1, &mut path, &mut best_path);
    assert_eq!(watched, snapshot);
    assert_eq!(path, vec![sv.0[0].0]);
    assert!(r < u64::MAX);
}

#[test]
fn check_all_watched_counts_every_entry() {
    let mut wc = vec![WatchedCount::Corner(1), WatchedCount::T2 { v: 0 }];
    assert!(!check_all_watched(&wc));
    wc[1].incr_v();
    assert!(check_all_watched(&wc));
    assert!(check_all_watched(&Vec::new()));
}

#[test]
fn serializer_emits_straight_segments_and_return_leg() {
    let pos = vec![(3, 1), (1, 1), (1, 4)];
    let path = vec![0, 1, 2];
    let ret = vec![b'U'];
    let s = serialize_route(&pos, &path, (1, 1), &ret).unwrap();
    assert_eq!(s, b"RRLLDDDU".to_vec());
    // A diagonal pair cannot be serialized.
    let bad = vec![(3, 1), (2, 2)];
    assert!(serialize_route(&bad, &vec![0, 1], (1, 1), &ret).is_none());
}

/// The ring tour: the emitted move string is a closed walk over roads that
/// observes all four corners, and its cost equals the minimal total the
/// search reports.
#[test]
fn solve_ring_round_trip() {
    let m = ring();
    let s = solve(&m, (1, 1)).expect("a tour exists");
    let (visited, cost) = replay(&m, (1, 1), &s);
    assert_eq!(*visited.last().unwrap(), (1, 1), "the tour is closed");
    assert_eq!(cost, 8, "minimal tour cost");
    assert!(visited.contains(&(3, 3)), "the far corner is visited");
}

/// One full cross directly adjacent to start in one direction only: the
/// rescue fallback must produce the go-and-return tour of twice the edge
/// weight, with both axes of the cross credited.
#[test]
fn solve_single_cross_uses_rescue() {
    let m = grid(&["#####", "##1##", "#111#", "##1##", "#####"]);
    let s = solve(&m, (1, 2)).expect("a tour exists");
    assert_eq!(s, b"RL".to_vec());
    let (visited, cost) = replay(&m, (1, 2), &s);
    assert_eq!(cost, 2, "twice the edge weight");
    assert_eq!(*visited.last().unwrap(), (1, 2));
}

/// Two corners on the start's row at distances 3 and 7: the nearer one
/// completes a cheaper tour, and the search must keep it.
#[test]
fn solve_prefers_cheaper_corner() {
    let m = grid(&[
        "#############",
        "#11111111111#",
        "#1#########1#",
        "#############",
        "#############",
        "#############",
        "#############",
        "#############",
        "#############",
        "#############",
        "#############",
        "#############",
        "#############",
    ]);
    let s = solve(&m, (4, 1)).expect("a tour exists");
    assert_eq!(s, b"LLLRRR".to_vec());
    let (_, cost) = replay(&m, (4, 1), &s);
    assert_eq!(cost, 6);
}

#[test]
fn solve_none_without_intersections() {
    let m = grid(&["###", "#1#", "###"]);
    assert!(solve(&m, (1, 1)).is_none());
}
