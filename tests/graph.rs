use sedgewick::graph::directed_graph::{Digraph, DirectedBFP, DirectedCycle, DirectedDFP, DirectedDFS};
use sedgewick::graph::strong_connected::SCC;
use sedgewick::graph::topological::{DepthFirstOrder, Topological};
use sedgewick::graph::undirected_graph::{BreadthFirstPaths, DepthFirstPaths, DepthFirstSearch, Graph, Paths, Search};

const TINY_DG: [(usize, usize); 22] = [
    (4, 2), (2, 3), (3, 2), (6, 0), (0, 1), (2, 0), (11, 12), (12, 9), (9, 10), (9, 11), (7, 9),
    (10, 12), (11, 4), (4, 3), (3, 5), (6, 8), (8, 6), (5, 4), (0, 5), (6, 4), (6, 9), (7, 6),
];

const TINY_G: [(usize, usize); 13] = [
    (0, 5), (4, 3), (0, 1), (9, 12), (6, 4), (5, 4), (0, 2), (11, 12), (9, 10), (0, 6), (7, 8),
    (9, 11), (5, 3),
];

const TINY_CG: [(usize, usize); 8] = [(0, 5), (2, 4), (2, 3), (1, 2), (0, 1), (3, 4), (3, 5), (0, 2)];

fn digraph(n: usize, edges: &[(usize, usize)]) -> Digraph {
    Digraph::from_edges(n, &edges.to_vec())
}

fn graph_of(n: usize, edges: &[(usize, usize)]) -> Graph {
    Graph::from_edges(n, &edges.to_vec())
}

fn sorted(mut v: Vec<usize>) -> Vec<usize> {
    v.sort();
    v
}

fn is_walk_d(g: &Digraph, p: &[usize]) -> bool {
    p.windows(2).all(|e| g.adj(e[0]).contains(&e[1]))
}

#[test]
fn create() {
    let g = digraph(13, &TINY_DG);
    assert_eq!(g.num_vertices(), 13);
    assert_eq!(g.num_edges(), 22);
    assert_eq!(g.adj(6), vec![9, 4, 8, 0]);
    let r = g.reverse();
    assert_eq!(r.num_vertices(), 13);
    assert_eq!(r.num_edges(), 22);
    assert_eq!(sorted(r.adj(4)), vec![5, 6, 11]);
    assert_eq!(g.vertices(), (0..13).collect::<Vec<usize>>());
}

#[test]
fn directed_graph_dfs() {
    let g = digraph(13, &TINY_DG);
    let dfs = DirectedDFS::new(&g, 6);
    let reached: Vec<usize> = (0..g.num_vertices()).filter(|&v| dfs.marked(v)).collect();
    assert_eq!(reached, vec![0, 1, 2, 3, 4, 5, 6, 8, 9, 10, 11, 12]);
}

#[test]
fn path() {
    let g = digraph(13, &TINY_DG);
    let dfp = DirectedDFP::new(&g, 7);
    let bfp = DirectedBFP::new(&g, 7);
    for v in 0..g.num_vertices() {
        let d = dfp.path_to(v).unwrap();
        let b = bfp.path_to(v).unwrap();
        assert_eq!(d[0], 7);
        assert_eq!(*d.last().unwrap(), v);
        assert!(is_walk_d(&g, &d));
        assert!(is_walk_d(&g, &b));
        assert!(b.len() <= d.len());
    }
    assert_eq!(bfp.path_to(7).unwrap(), vec![7]);
    assert_eq!(bfp.path_to(1).unwrap(), vec![7, 6, 0, 1]);
    let from_one = DirectedBFP::new(&g, 1);
    assert_eq!(from_one.path_to(0), None);
}

#[test]
fn cycle() {
    let g = digraph(13, &TINY_DG);
    let dc = DirectedCycle::new(&g);
    let c = dc.cycle.clone().unwrap();
    assert!(!c.is_empty());
    for i in 0..c.len() {
        let a = c[i];
        let b = c[(i + 1) % c.len()];
        assert!(g.adj(a).contains(&b));
    }
    assert_eq!(dc.cycle(), &dc.cycle);
}

#[test]
fn self_loop_cycle() {
    let g = digraph(2, &[(0, 1), (1, 1)]);
    let dc = DirectedCycle::new(&g);
    assert_eq!(dc.cycle, Some(vec![1]));
}

#[test]
fn acyclic_has_no_cycle() {
    let g = digraph(4, &[(0, 1), (0, 2), (1, 3), (2, 3)]);
    assert_eq!(DirectedCycle::new(&g).cycle, None);
}

#[test]
fn scc() {
    let g = digraph(13, &TINY_DG);
    let scc = SCC::new(&g);
    assert_eq!(scc.count, 5);
    assert!(scc.strongly_connected(0, 5));
    assert!(scc.strongly_connected(2, 4));
    assert!(scc.strongly_connected(9, 12));
    assert!(scc.strongly_connected(6, 8));
    assert!(!scc.strongly_connected(6, 7));
    assert!(!scc.strongly_connected(0, 9));
    assert_eq!(scc.id(1), scc.id(1));
    let mut sizes = vec![0usize; scc.count];
    for v in 0..13 {
        sizes[scc.id(v)] += 1;
    }
    assert_eq!(sorted(sizes), vec![1, 1, 2, 4, 5]);
}

#[test]
fn depth_first_order_covers_every_vertex() {
    let g = digraph(13, &TINY_DG);
    let order = DepthFirstOrder::new(&g).reverse_post();
    assert_eq!(sorted(order), (0..13).collect::<Vec<usize>>());
}

#[test]
fn graph() {
    let g = graph_of(13, &TINY_G);
    assert_eq!(g.num_vertices(), 13);
    assert_eq!(g.num_edges(), 13);
    assert_eq!(g.adj(0), vec![5, 1, 2, 6]);
    assert_eq!(g.degree(0), 4);
    assert_eq!(g.max_degree(), 4);
    assert_eq!(g.average_degree(), 2);
}

#[test]
fn undirected_graph_dfs() {
    let g = graph_of(13, &TINY_G);
    let dfs = DepthFirstSearch::new(&g, 0);
    let reached: Vec<usize> = (0..g.num_vertices()).filter(|&v| dfs.marked(v)).collect();
    assert_eq!(reached, vec![0, 1, 2, 3, 4, 5, 6]);
    assert_eq!(dfs.count(), 7);
    assert!(dfs.count() != g.num_vertices());
}

#[test]
fn dfp() {
    let g = graph_of(13, &TINY_G);
    let dfp = DepthFirstPaths::new(&g, 0);
    assert_eq!(dfp.path_to(3), Some(vec![0, 5, 4, 3]));
    assert_eq!(dfp.path_to(0), Some(vec![0]));
    assert_eq!(dfp.path_to(7), None);
}

#[test]
fn bfp() {
    let g = graph_of(6, &TINY_CG);
    let bfp = BreadthFirstPaths::new(&g, 0);
    assert_eq!(bfp.path_to(0), Some(vec![0]));
    assert_eq!(bfp.path_to(1), Some(vec![0, 1]));
    assert_eq!(bfp.path_to(2), Some(vec![0, 2]));
    assert_eq!(bfp.path_to(3), Some(vec![0, 5, 3]));
    assert_eq!(bfp.path_to(4), Some(vec![0, 2, 4]));
    assert_eq!(bfp.path_to(5), Some(vec![0, 5]));
}

#[test]
fn undirected_adjacency_is_symmetric() {
    let g = graph_of(13, &TINY_G);
    for v in 0..13 {
        for w in 0..13 {
            assert_eq!(g.adj(v).contains(&w), g.adj(w).contains(&v));
        }
    }
    let mut loops = Graph::new(2);
    loops.add_edge(1, 1);
    assert_eq!(loops.adj(1), vec![1, 1]);
}

#[test]
fn reverse_twice_keeps_arcs() {
    let g = digraph(13, &TINY_DG);
    let rr = g.reverse().reverse();
    for v in 0..13 {
        assert_eq!(sorted(rr.adj(v)), sorted(g.adj(v)));
    }
}

#[test]
fn bfs_not_longer_than_dfs() {
    let g = graph_of(6, &TINY_CG);
    let d = DepthFirstPaths::new(&g, 0);
    let b = BreadthFirstPaths::new(&g, 0);
    for v in 0..6 {
        let dp = d.path_to(v).unwrap();
        let bp = b.path_to(v).unwrap();
        assert!(bp.len() <= dp.len());
        assert!(dp.len() <= 6);
    }
    assert_eq!(d.path_to(3), Some(vec![0, 5, 3]));
}

#[test]
fn topological_order_respects_arcs() {
    let g = digraph(4, &[(0, 1), (0, 2), (1, 3), (2, 3)]);
    let order = Topological::new(&g).order().clone().unwrap();
    let pos = |x: usize| order.iter().position(|&y| y == x).unwrap();
    assert!(pos(0) < pos(1));
    assert!(pos(0) < pos(2));
    assert!(pos(1) < pos(3));
    assert!(pos(2) < pos(3));
    assert_eq!(order.len(), 4);
}

#[test]
fn topological_none_on_cycle() {
    let g = digraph(13, &TINY_DG);
    assert_eq!(Topological::new(&g).order(), &None);
}

#[test]
fn two_cycles_with_bridge() {
    let g = digraph(13, &[(0, 1), (1, 2), (2, 0), (3, 4), (4, 5), (5, 3), (2, 3)]);
    let dc = DirectedCycle::new(&g);
    assert!(!dc.cycle.clone().unwrap().is_empty());
    let scc = SCC::new(&g);
    let mut sizes = vec![0usize; scc.count];
    for v in 0..13 {
        sizes[scc.id(v)] += 1;
    }
    let threes = sizes.iter().filter(|&&s| s == 3).count();
    assert_eq!(threes, 2);
    assert!(scc.strongly_connected(0, 2));
    assert!(scc.strongly_connected(3, 5));
    assert!(!scc.strongly_connected(2, 3));
}

#[test]
fn chain_paths_coincide() {
    let g = graph_of(4, &[(0, 1), (1, 2), (2, 3)]);
    assert_eq!(BreadthFirstPaths::new(&g, 0).path_to(3), Some(vec![0, 1, 2, 3]));
    assert_eq!(DepthFirstPaths::new(&g, 0).path_to(3), Some(vec![0, 1, 2, 3]));
}

#[test]
fn isolated_vertex() {
    let g = Digraph::new(1);
    assert!(DirectedDFS::new(&g, 0).marked(0));
    assert_eq!(DirectedDFP::new(&g, 0).path_to(0), Some(vec![0]));
    let scc = SCC::new(&g);
    assert_eq!(scc.count, 1);
    assert_eq!(scc.id(0), 0);
}

#[test]
fn from_edges_matches_adding_one_by_one() {
    let mut g = Digraph::new(13);
    let mut u = Graph::new(13);
    for &(v, w) in TINY_DG.iter() {
        g.add_edge(v, w);
    }
    for &(v, w) in TINY_G.iter() {
        u.add_edge(v, w);
    }
    let h = digraph(13, &TINY_DG);
    let k = graph_of(13, &TINY_G);
    for v in 0..13 {
        assert_eq!(g.adj(v), h.adj(v));
        assert_eq!(u.adj(v), k.adj(v));
    }
    assert_eq!(h.num_edges(), 22);
    assert_eq!(k.num_edges(), 13);
}

#[test]
fn empty_graphs() {
    let g = Digraph::new(0);
    assert_eq!(g.num_vertices(), 0);
    assert_eq!(SCC::new(&g).count, 0);
    assert_eq!(Topological::new(&g).order(), &Some(vec![]));
    assert_eq!(Graph::new(0).max_degree(), 0);
}

#[test]
fn parallel_arcs_and_self_loops_are_kept() {
    let g = digraph(2, &[(0, 1), (0, 1), (1, 1), (0, 0)]);
    assert_eq!(g.num_edges(), 4);
    assert_eq!(g.adj(0), vec![0, 1, 1]);
    assert_eq!(g.adj(1), vec![1]);
    let r = g.reverse();
    assert_eq!(r.num_edges(), 4);
    assert_eq!(sorted(r.adj(1)), vec![0, 0, 1]);
    assert_eq!(r.adj(0), vec![0]);
    let mut u = Graph::new(2);
    u.add_edge(0, 1);
    u.add_edge(0, 1);
    assert_eq!(u.num_edges(), 2);
    assert_eq!(u.degree(0), 2);
    assert_eq!(u.adj(1), vec![0, 0]);
}
