use paxos::graph::Graph;

fn sample() -> Graph {
    let mut g = Graph::new(5);
    g.add_edge(0, 1);
    g.add_edge(0, 4);
    g.add_edge(1, 2);
    g.add_edge(1, 3);
    g.add_edge(1, 4);
    g.add_edge(2, 3);
    g.add_edge(3, 4);
    g
}

#[test]
fn test_transpose() {
    let g = sample();
    let t = g.transpose();
    assert_eq!(t.len(), 5);
    assert_eq!(t.edges(0), &Vec::<usize>::new());
    assert_eq!(t.edges(1), &vec![0]);
    assert_eq!(t.edges(2), &vec![1]);
    assert_eq!(t.edges(3), &vec![1, 2]);
    assert_eq!(t.edges(4), &vec![0, 1, 3]);
}

#[test]
fn in_degs_counts_incoming_edges() {
    let mut g = sample();
    assert_eq!(g.in_degs(), vec![0, 1, 1, 2, 3]);
    g.add_edge(4, 4);
    g.add_edge(0, 4);
    assert_eq!(g.in_degs(), vec![0, 1, 1, 2, 5]);
    assert_eq!(Graph::new(0).in_degs(), Vec::<usize>::new());
}

#[test]
fn transpose_keeps_parallel_edges() {
    let mut g = Graph::new(3);
    g.add_edge(2, 0);
    g.add_edge(1, 0);
    g.add_edge(2, 0);
    g.add_edge(0, 0);
    let t = g.transpose();
    assert_eq!(t.edges(0), &vec![0, 1, 2, 2]);
    assert_eq!(t.transpose().edges(2), &vec![0, 0]);
}

use paxos::graph::all_true;
use paxos::graph::dfs;
use paxos::graph::dfs_recur;
use paxos::graph::mark_reachable;
use paxos::graph::sc::is_sc;
use paxos::graph::topo::toposort_dfs;
use paxos::graph::topo::toposort_kahn;

#[test]
fn test_is_sc() {
    let mut g1 = Graph::new(5);
    g1.add_edge(0, 1);
    g1.add_edge(1, 2);
    g1.add_edge(2, 3);
    g1.add_edge(3, 0);
    g1.add_edge(2, 4);
    g1.add_edge(4, 2);
    println!("g1 is_sc {}", is_sc(&g1));
    assert!(is_sc(&g1));
    let mut g2 = Graph::new(4);
    g2.add_edge(0, 1);
    g2.add_edge(1, 2);
    g2.add_edge(2, 3);
    println!("g2 is_sc {}", is_sc(&g2));
    assert!(!is_sc(&g2));
}

#[test]
fn single_vertex_is_strongly_connected() {
    assert!(is_sc(&Graph::new(1)));
    let mut g = Graph::new(2);
    g.add_edge(1, 0);
    assert!(!is_sc(&g));
    g.add_edge(0, 1);
    assert!(is_sc(&g));
}

fn get_g1() -> Graph {
    let mut g = Graph::new(5);
    g.add_edge(2, 4);
    g.add_edge(0, 3);
    g.add_edge(0, 1);
    g.add_edge(3, 4);
    g.add_edge(1, 2);
    g.add_edge(3, 2);
    g.add_edge(1, 3);
    g
}

fn is_topo(g: &Graph, topo: &[usize]) -> bool {
    for (i, v) in topo.iter().enumerate() {
        for w in g.edges(*v).iter() {
            match topo.iter().position(|x| x == w) {
                Some(j) => {
                    if j <= i {
                        return false;
                    }
                }
                None => return false,
            }
        }
    }
    true
}

#[test]
fn test_toposort_kahn() {
    let g1 = get_g1();
    let topo = toposort_kahn(&g1);
    println!("{:?}", topo);
    assert_eq!(topo, vec![0, 1, 3, 2, 4]);
    assert!(is_topo(&g1, &topo));
}

#[test]
fn test_toposort_dfs() {
    let g1 = get_g1();
    let topo = toposort_dfs(&g1);
    println!("{:?}", topo);
    assert_eq!(topo, Some(vec![0, 1, 3, 2, 4]));
}

#[test]
fn toposorts_stop_at_cycles() {
    let mut g = Graph::new(5);
    g.add_edge(0, 1);
    g.add_edge(1, 2);
    g.add_edge(2, 1);
    g.add_edge(2, 3);
    g.add_edge(4, 0);
    assert_eq!(toposort_kahn(&g), vec![4, 0]);
    assert_eq!(toposort_dfs(&g), None);
    let mut looped = Graph::new(1);
    looped.add_edge(0, 0);
    assert_eq!(toposort_kahn(&looped), Vec::<usize>::new());
    assert_eq!(toposort_dfs(&looped), None);
    assert_eq!(toposort_dfs(&Graph::new(0)), Some(vec![]));
    assert_eq!(toposort_dfs(&Graph::new(3)), Some(vec![2, 1, 0]));
    assert_eq!(toposort_kahn(&Graph::new(3)), vec![0, 1, 2]);
}

#[test]
fn dfs_lists_what_is_reached() {
    let g = sample();
    assert_eq!(dfs(&g, 0), vec![0, 1, 2, 3, 4]);
    assert_eq!(dfs(&g, 2), vec![2, 3, 4]);
    assert_eq!(dfs(&g, 4), vec![4]);
    assert_eq!(mark_reachable(&g, 2), vec![false, false, true, true, true]);
    assert!(all_true(&mark_reachable(&g, 0)));
    assert!(!all_true(&mark_reachable(&g, 1)));
    assert!(all_true(&Vec::new()));
}

#[test]
fn dfs_recur_skips_marked_vertices() {
    let g = sample();
    let mut visited = vec![false, false, true, false, false];
    let mut order = vec![9];
    dfs_recur(&g, 1, &mut visited, &mut order);
    assert_eq!(order, vec![9, 1, 3, 4]);
    assert_eq!(visited, vec![false, true, true, true, true]);
}

use paxos::graph::sc::tarjan_scc;

#[test]
fn test_tarjan_scc() {
    let mut g1 = Graph::new(5);
    g1.add_edge(0, 1);
    g1.add_edge(1, 2);
    g1.add_edge(2, 3);
    g1.add_edge(3, 0);
    g1.add_edge(2, 4);
    let scc = tarjan_scc(&g1);
    println!("scc = {:?}", scc);
    assert_eq!(scc, vec![vec![4], vec![3, 2, 1, 0]]);
}

#[test]
fn tarjan_parts_graphs_into_components() {
    assert_eq!(tarjan_scc(&Graph::new(0)), Vec::<Vec<usize>>::new());
    assert_eq!(tarjan_scc(&Graph::new(3)), vec![vec![0], vec![1], vec![2]]);
    let mut g = Graph::new(8);
    for (a, b) in [(0, 1), (1, 2), (2, 0), (3, 1), (3, 2), (3, 4), (4, 3), (4, 5), (5, 2), (5, 6),
        (6, 5), (7, 4), (7, 6), (7, 7)]
    {
        g.add_edge(a, b);
    }
    let mut found: Vec<Vec<usize>> = tarjan_scc(&g)
        .into_iter()
        .map(|mut c| {
            c.sort();
            c
        })
        .collect();
    found.sort();
    assert_eq!(found, vec![vec![0, 1, 2], vec![3, 4], vec![5, 6], vec![7]]);
}

use paxos::graph::bfs;

#[test]
fn bfs_lists_what_is_reached() {
    let g = sample();
    assert_eq!(bfs(&g, 0), vec![0, 1, 4, 2, 3, 4, 3]);
    assert_eq!(bfs(&g, 3), vec![3, 4]);
    assert_eq!(bfs(&g, 4), vec![4]);
    let mut ring = Graph::new(3);
    ring.add_edge(0, 1);
    ring.add_edge(1, 2);
    ring.add_edge(2, 0);
    ring.add_edge(1, 1);
    assert_eq!(bfs(&ring, 1), vec![1, 2, 0]);
}
