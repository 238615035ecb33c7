use graph_layout::graph::{Edge, Graph};
use graph_layout::layout::{place_vertices, random_layout, Point};
use graph_layout::spring::{Simulator, SpringError, SpringParams};
use rand::rngs::StdRng;
use rand::SeedableRng;

fn square_graph() -> Graph {
    Graph::from_adjacency_list(&vec![vec![1, 3], vec![0, 2], vec![1, 3], vec![2, 0]]).unwrap()
}

fn pt(x: i64, y: i64) -> Point {
    Point { x, y }
}

fn params(k: u16, rest_length: u32, damping: u16) -> SpringParams {
    SpringParams { k, rest_length, damping }
}

#[test]
fn random_layout_is_reproducible_from_a_seed() {
    let g = square_graph();
    let (a, ea) = random_layout(&g, 600, 400, &mut StdRng::seed_from_u64(7));
    let (b, eb) = random_layout(&g, 600, 400, &mut StdRng::seed_from_u64(7));
    let (c, ec) = random_layout(&g, 600, 400, &mut StdRng::seed_from_u64(8));
    assert_eq!(a, b);
    assert_ne!(a, c);
    assert_eq!(a.len(), 4);
    assert_eq!(c.len(), 4);
    assert_eq!(ea, eb);
    assert_eq!(ea, ec);
    assert_eq!(ea, g.edges());
}

#[test]
fn random_layout_stays_in_the_rectangle() {
    let g = square_graph();
    let mut rng = StdRng::seed_from_u64(1);
    for _ in 0..50 {
        let (pts, _) = random_layout(&g, 3, 2, &mut rng);
        for p in pts {
            assert!(0 <= p.x && p.x < 3);
            assert!(0 <= p.y && p.y < 2);
        }
    }
}

#[test]
fn stretched_spring_pulls_endpoints_together() {
    let edges = vec![Edge { start: 0, end: 1 }];
    let mut sim = Simulator::new(vec![pt(100, 100), pt(1100, 100)], edges, params(100, 500, 1000), 10000, 10000, 10);
    assert_eq!(sim.tick(), Ok(()));
    assert_eq!(sim.positions, vec![pt(150, 100), pt(1050, 100)]);
}

#[test]
fn compressed_spring_pushes_endpoints_apart() {
    let edges = vec![Edge { start: 0, end: 1 }];
    let mut sim = Simulator::new(vec![pt(100, 100), pt(103, 104)], edges, params(1000, 15, 500), 10000, 10000, 10);
    assert_eq!(sim.tick(), Ok(()));
    // distance 5, stretch -10, force (-10 * 0.5) * (3, 4) / 5 = (-3, -4)
    assert_eq!(sim.positions, vec![pt(97, 96), pt(106, 108)]);
}

#[test]
fn spring_forces_are_equal_and_opposite() {
    let edges = vec![Edge { start: 0, end: 1 }, Edge { start: 1, end: 2 }];
    let start = vec![pt(200, 300), pt(900, 750), pt(400, 420)];
    let mut sim = Simulator::new(start.clone(), edges, params(370, 120, 410), 100000, 100000, 10);
    assert_eq!(sim.tick(), Ok(()));
    let sum = |v: &Vec<Point>| v.iter().fold((0, 0), |a, p| (a.0 + p.x, a.1 + p.y));
    assert_eq!(sum(&sim.positions), sum(&start));
    assert_ne!(sim.positions, start);
}

#[test]
fn coincident_endpoints_feel_no_force() {
    let edges = vec![Edge { start: 0, end: 1 }];
    let mut sim = Simulator::new(vec![pt(40, 40), pt(40, 40)], edges, params(1000, 100, 1000), 500, 500, 10);
    assert_eq!(sim.tick(), Ok(()));
    assert_eq!(sim.positions, vec![pt(40, 40), pt(40, 40)]);
}

#[test]
fn positions_are_clamped_after_the_pass() {
    let edges = vec![Edge { start: 0, end: 1 }];
    let mut sim = Simulator::new(vec![pt(10, 50), pt(30, 50)], edges, params(1000, 100, 1000), 60, 100, 10);
    assert_eq!(sim.tick(), Ok(()));
    // each endpoint is pushed 80 units away from the other, then clamped
    assert_eq!(sim.positions, vec![pt(0, 50), pt(60, 50)]);
}

#[test]
fn overflowing_pass_keeps_positions() {
    let edges = vec![Edge { start: 0, end: 1 }];
    let start = vec![pt(-0x8000_0000, 0), pt(0x8000_0000, 0)];
    let mut sim = Simulator::new(start.clone(), edges, params(u16::MAX, 0, u16::MAX), 1000, 1000, 10);
    assert_eq!(sim.tick(), Err(SpringError::Overflow));
    assert_eq!(sim.positions, start);
}

#[test]
fn paused_ticks_change_nothing() {
    let edges = vec![Edge { start: 0, end: 1 }];
    let start = vec![pt(100, 100), pt(1100, 100)];
    let mut sim = Simulator::new(start.clone(), edges, params(100, 500, 1000), 10000, 10000, 10);
    sim.toggle_pause();
    for _ in 0..10 {
        assert_eq!(sim.tick(), Ok(()));
        assert_eq!(sim.positions, start);
    }
    sim.pointer(Some(pt(105, 98)), true);
    assert_eq!(sim.held, Some(0));
    assert_eq!(sim.positions, vec![pt(105, 98), pt(1100, 100)]);
    sim.toggle_pause();
    assert_eq!(sim.tick(), Ok(()));
    assert_ne!(sim.positions[1], pt(1100, 100));
}

#[test]
fn pointer_grabs_first_vertex_in_reach_and_drags_it() {
    let mut sim = Simulator::new(vec![pt(0, 0), pt(50, 50), pt(52, 50)], vec![], params(0, 0, 0), 100, 100, 5);
    sim.pointer(Some(pt(51, 51)), true);
    assert_eq!(sim.held, Some(1));
    assert_eq!(sim.positions[1], pt(51, 51));
    sim.pointer(Some(pt(200, -7)), true);
    assert_eq!(sim.held, Some(1));
    assert_eq!(sim.positions[1], pt(100, 0));
    sim.pointer(None, true);
    assert_eq!(sim.held, Some(1));
    sim.pointer(Some(pt(3, 3)), false);
    assert_eq!(sim.held, None);
    assert_eq!(sim.positions[1], pt(100, 0));
}

#[test]
fn pointer_out_of_reach_grabs_nothing() {
    let mut sim = Simulator::new(vec![pt(0, 0), pt(50, 50)], vec![], params(0, 0, 0), 100, 100, 5);
    sim.pointer(Some(pt(53, 54)), true);
    assert_eq!(sim.held, None);
    assert_eq!(sim.positions, vec![pt(0, 0), pt(50, 50)]);
}

#[test]
fn relaxation_pass_alone_does_not_clamp() {
    // (0,0)-(100,0) at ten units per pixel, rest 150, k = 0.1, damping 0.5
    let edges = vec![Edge { start: 0, end: 1 }];
    let mut sim = Simulator::new(vec![pt(0, 0), pt(1000, 0)], edges, params(100, 1500, 500), 6000, 6000, 10);
    assert_eq!(sim.relax_pass(), Ok(()));
    assert_eq!(sim.positions, vec![pt(-25, 0), pt(1025, 0)]);
    sim.clamp_to_viewport();
    assert_eq!(sim.positions, vec![pt(0, 0), pt(1025, 0)]);
}

#[test]
fn tick_clamps_after_the_pass() {
    let edges = vec![Edge { start: 0, end: 1 }];
    let mut sim = Simulator::new(vec![pt(0, 0), pt(1000, 0)], edges, params(100, 1500, 500), 6000, 6000, 10);
    assert_eq!(sim.tick(), Ok(()));
    assert_eq!(sim.positions, vec![pt(0, 0), pt(1025, 0)]);
}

#[test]
fn held_vertex_is_exempt_from_spring_forces() {
    let edges = vec![Edge { start: 0, end: 1 }, Edge { start: 1, end: 0 }];
    let mut sim = Simulator::new(vec![pt(100, 0), pt(1100, 0)], edges, params(100, 1500, 500), 6000, 6000, 10);
    sim.pointer(Some(pt(100, 0)), true);
    assert_eq!(sim.held, Some(0));
    assert_eq!(sim.relax_pass(), Ok(()));
    // each edge pushes only the free end: 25 units, then 23 more (rounded toward zero) as the gap grows
    assert_eq!(sim.positions[0], pt(100, 0));
    assert_eq!(sim.positions[1], pt(1148, 0));
    sim.pointer(None, false);
    assert_eq!(sim.held, None);
}

#[test]
fn clamping_is_per_axis() {
    let mut sim = Simulator::new(vec![pt(-5, 30), pt(70, -1), pt(20, 200)], vec![], params(0, 0, 0), 50, 100, 1);
    sim.clamp_to_viewport();
    assert_eq!(sim.positions, vec![pt(0, 30), pt(50, 0), pt(20, 100)]);
}

#[test]
fn empty_graph_lays_out_nothing_in_any_rectangle() {
    let g = Graph::from_matrix(vec![]).unwrap();
    let (pts, edges) = random_layout(&g, 0, -3, &mut StdRng::seed_from_u64(3));
    assert!(pts.is_empty());
    assert!(edges.is_empty());
}

#[test]
fn drawn_coordinates_are_placed_by_index() {
    let g = square_graph();
    let (pts, edges) = place_vertices(&g, &vec![1, 2, 3, 4], &vec![9, 8, 7, 6]);
    assert_eq!(pts, vec![pt(1, 9), pt(2, 8), pt(3, 7), pt(4, 6)]);
    assert_eq!(edges, g.edges());
}
