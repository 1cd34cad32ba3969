use graph_lib::graph::{DoesNotContainError, Graph};
use graph_lib::point::Point;
use graph_lib::search::{State, Status};

/// The three-city scenario: A(0,0), B(0,3), C(4,3) with edges A-B
/// (weight 3) and B-C (weight 4).
fn triangle() -> Graph {
    let mut g = Graph::new();
    g.add_node("A", Point::new(0, 0));
    g.add_node("B", Point::new(0, 3));
    g.add_node("C", Point::new(4, 3));
    g.add_edge("A", "B");
    g.add_edge("B", "C");
    g
}

fn as_pairs(p: &[(String, u64)]) -> Vec<(&str, u64)> {
    p.iter().map(|(id, d)| (id.as_str(), *d)).collect()
}

#[test]
fn bfs_triangle_cumulative_distances() {
    let g = triangle();
    let path = g.breadth_first_search("A", "C").unwrap().unwrap();
    assert_eq!(as_pairs(&path), vec![("A", 0), ("B", 3), ("C", 7)]);
}

#[test]
fn dijkstra_triangle_cumulative_distances() {
    let g = triangle();
    let path = g.shortest_path("A", "C").unwrap().unwrap();
    assert_eq!(as_pairs(&path), vec![("A", 0), ("B", 3), ("C", 7)]);
}

#[test]
fn dfs_triangle_reports_raw_last_hop() {
    let g = triangle();
    let path = g.depth_first_search("A", "C").unwrap().unwrap();
    // same node sequence, but the final step carries 4, not 7
    assert_eq!(as_pairs(&path), vec![("A", 0), ("B", 3), ("C", 4)]);
}

#[test]
fn disconnected_nodes_are_not_found() {
    let mut g = Graph::new();
    g.add_node("A", Point::new(0, 0));
    g.add_node("B", Point::new(5, 5));
    assert_eq!(g.breadth_first_search("A", "B").unwrap(), None);
    assert_eq!(g.depth_first_search("A", "B").unwrap(), None);
    assert_eq!(g.shortest_path("A", "B").unwrap(), None);
}

#[test]
fn missing_ids_are_rejected_before_searching() {
    let g = triangle();
    assert_eq!(g.breadth_first_search("A", "Z"), Err(DoesNotContainError));
    assert_eq!(g.depth_first_search("Z", "C"), Err(DoesNotContainError));
    assert_eq!(g.shortest_path("Z", "Y"), Err(DoesNotContainError));
    assert_eq!(
        DoesNotContainError.message(),
        "Graph does not contain that node."
    );
}

#[test]
fn search_to_self_finds_trivial_path() {
    let g = triangle();
    let path = g.breadth_first_search("A", "A").unwrap().unwrap();
    assert_eq!(as_pairs(&path), vec![("A", 0)]);
}

/// Two routes between the ends: a two-hop detour of total weight 140 and
/// a three-hop chain of total weight 100.
fn two_routes() -> Graph {
    let mut g = Graph::new();
    g.add_node("A", Point::new(0, 0));
    g.add_node("B", Point::new(0, 100));
    g.add_node("X", Point::new(50, 50));
    g.add_node("u", Point::new(1, 33));
    g.add_node("v", Point::new(1, 66));
    g.add_edge("A", "X");
    g.add_edge("X", "B");
    g.add_edge("A", "u");
    g.add_edge("u", "v");
    g.add_edge("v", "B");
    g
}

#[test]
fn bfs_takes_fewest_hops() {
    let g = two_routes();
    let path = g.breadth_first_search("A", "B").unwrap().unwrap();
    assert_eq!(as_pairs(&path), vec![("A", 0), ("X", 70), ("B", 140)]);
}

#[test]
fn dijkstra_takes_lightest_route() {
    let g = two_routes();
    let path = g.shortest_path("A", "B").unwrap().unwrap();
    assert_eq!(
        as_pairs(&path),
        vec![("A", 0), ("u", 33), ("v", 66), ("B", 100)]
    );
    // lighter than what hop-count-minimal traversal reported
    let hops = g.breadth_first_search("A", "B").unwrap().unwrap();
    assert!(path.last().unwrap().1 <= hops.last().unwrap().1);
}

#[test]
fn dijkstra_equals_bfs_on_equal_weights() {
    // a straight chain with all weights 3
    let mut g = Graph::new();
    g.add_node("A", Point::new(0, 0));
    g.add_node("B", Point::new(0, 3));
    g.add_node("C", Point::new(0, 6));
    g.add_edge("A", "B");
    g.add_edge("B", "C");
    let b = g.breadth_first_search("A", "C").unwrap().unwrap();
    let d = g.shortest_path("A", "C").unwrap().unwrap();
    assert_eq!(b, d);
    assert_eq!(b.last().unwrap().1, 6);
}

#[test]
fn dfs_path_is_simple() {
    let g = two_routes();
    let path = g.depth_first_search("A", "B").unwrap().unwrap();
    assert_eq!(path.first().unwrap().0, "A");
    assert_eq!(path.last().unwrap().0, "B");
    for i in 0..path.len() {
        for j in (i + 1)..path.len() {
            assert_ne!(path[i].0, path[j].0);
        }
    }
}

#[test]
fn stepwise_bfs_exposes_progress() {
    let g = triangle();
    let mut s = g.step_breadth_first_search("A", "C");
    assert_eq!(s.state(), State::Pop);
    assert_eq!(s.current(), "");
    assert_eq!(s.visible().len(), 1);
    assert_eq!(s.visible()[0].0, "A");
    // pop A
    assert_eq!(s.next(), Status::Searching);
    assert_eq!(s.state(), State::Push);
    assert_eq!(s.current(), "A");
    assert_eq!(s.visited().len(), 1);
    // expand A's neighbors
    assert_eq!(s.next(), Status::Searching);
    assert_eq!(s.state(), State::Pop);
    assert_eq!(s.visible().len(), 1);
    assert_eq!(s.visible()[0].0, "B");
    assert_eq!((s.visible()[0].1).0, "A");
    assert_eq!((s.visible()[0].1).1, 3);
    // pop B, expand B, pop C
    assert_eq!(s.next(), Status::Searching);
    assert_eq!(s.next(), Status::Searching);
    assert_eq!(s.next(), Status::Found);
    assert_eq!(s.state(), State::Done(Status::Found));
    let path = s.result().unwrap();
    assert_eq!(as_pairs(&path), vec![("A", 0), ("B", 3), ("C", 7)]);
}

#[test]
fn stepwise_dfs_exposes_stack() {
    let g = triangle();
    let mut s = g.step_depth_first_search("A", "C");
    assert_eq!(s.stack().len(), 1);
    assert!(s.result().is_none());
    assert_eq!(s.next(), Status::Searching);
    assert_eq!(s.next(), Status::Searching);
    assert_eq!(s.stack()[0].0, "B");
    while s.next() == Status::Searching {}
    assert_eq!(s.state(), State::Done(Status::Found));
}

#[test]
fn done_status_is_idempotent() {
    let g = triangle();
    let mut s = g.step_breadth_first_search("A", "C");
    while s.next() == Status::Searching {}
    let visited_before = s.visited();
    let visible_before = s.visible();
    for _ in 0..5 {
        assert_eq!(s.next(), Status::Found);
    }
    assert_eq!(s.state(), State::Done(Status::Found));
    assert_eq!(s.visited(), visited_before);
    assert_eq!(s.visible(), visible_before);

    let mut d = g.step_shortest_path("C", "B");
    while d.next() == Status::Searching {}
    let dv = d.visited();
    for _ in 0..5 {
        assert_eq!(d.next(), Status::Found);
    }
    assert_eq!(d.visited(), dv);

    let mut n = g.step_depth_first_search("A", "A");
    while n.next() == Status::Searching {}
    for _ in 0..5 {
        assert_eq!(n.next(), Status::Found);
    }
}

#[test]
fn not_found_status_is_idempotent() {
    let mut g = Graph::new();
    g.add_node("A", Point::new(0, 0));
    g.add_node("B", Point::new(9, 9));
    let mut s = g.step_shortest_path("A", "B");
    while s.next() == Status::Searching {}
    assert_eq!(s.state(), State::Done(Status::NotFound));
    for _ in 0..5 {
        assert_eq!(s.next(), Status::NotFound);
    }
    assert!(s.result().is_none());
}

#[test]
fn step_constructors_seed_the_frontier() {
    let g = triangle();
    let seed = vec![("A".to_string(), ("".to_string(), 0u64))];
    let b = g.step_breadth_first_search("A", "C");
    assert_eq!(b.visible(), seed);
    assert_eq!(b.current(), "");
    let d = g.step_depth_first_search("A", "C");
    assert_eq!(d.visible(), seed);
    assert_eq!(d.current(), "");
    let s = g.step_shortest_path("A", "C");
    assert_eq!(s.visible(), seed);
    assert_eq!(s.current(), "");
}

#[test]
fn status_messages() {
    assert_eq!(Status::Found.message(), "Found");
    assert_eq!(Status::NotFound.message(), "Not Found");
    assert_eq!(Status::Searching.message(), "Searching");
}

fn lookup(visited: &[(String, (String, u64))], id: &str) -> (String, u64) {
    let e = visited.iter().find(|e| e.0 == id).expect("visited entry");
    ((e.1).0.clone(), (e.1).1)
}

#[test]
fn result_matches_manual_predecessor_walk() {
    let g = two_routes();
    let mut s = g.step_shortest_path("A", "B");
    while s.next() == Status::Searching {}
    let result = s.result().unwrap();
    let visited = s.visited();
    // reconstruct from `visited` by walking predecessors back from the end
    let mut back: Vec<(String, u64)> = Vec::new();
    let mut id = "B".to_string();
    loop {
        let (prev, dist) = lookup(&visited, &id);
        back.push((id.clone(), dist));
        if prev.is_empty() {
            break;
        }
        id = prev;
    }
    back.reverse();
    assert_eq!(back, result);
    // re-walking start to end reproduces each link and distance
    for i in 0..back.len() - 1 {
        let (prev, dist) = lookup(&visited, &back[i + 1].0);
        assert_eq!(prev, back[i].0);
        assert_eq!(dist, back[i + 1].1);
    }
}

#[test]
fn dijkstra_relaxes_to_a_better_route() {
    // D is first reached expensively through X, then improved through v
    let g = two_routes();
    let path = g.shortest_path("u", "B").unwrap().unwrap();
    assert_eq!(as_pairs(&path), vec![("u", 0), ("v", 33), ("B", 67)]);
}
