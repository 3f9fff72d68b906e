use sedgewick::graph::directed_symbol_graph::SymbolDigraph;
use sedgewick::graph::topological::Topological;
use sedgewick::graph::undirected_graph::{BreadthFirstPaths, Paths};
use sedgewick::graph::undirected_symbol_graph::SymbolGraph;

const JOBS: [&str; 9] = [
    "Algorithms/Theoretical CS/Databases/Scientific Computing",
    "Introduction to CS/Advanced Programming/Algorithms",
    "Advanced Programming/Scientific Computing",
    "Scientific Computing/Computational Biology",
    "Theoretical CS/Computational Biology/Artificial Intelligence",
    "Linear Algebra/Theoretical CS",
    "Calculus/Linear Algebra",
    "Artificial Intelligence/Neural Networks/Robotics/Machine Learning",
    "Machine Learning/Neural Networks",
];

fn records(lines: &[&str], delim: &str) -> Vec<Vec<String>> {
    lines.iter().map(|l| l.split(delim).map(str::to_string).collect()).collect()
}

#[test]
fn courses() {
    let sg = SymbolDigraph::new(&records(&JOBS, "/"));
    assert_eq!(sg.g().num_vertices(), 13);
    assert_eq!(sg.name(0), "Algorithms");
    assert_eq!(sg.index("Theoretical CS"), 1);
    assert!(sg.contains("Calculus"));
    assert!(!sg.contains("Cooking"));
    let order = Topological::new(sg.g()).order().clone().unwrap();
    let pos = |name: &str| order.iter().position(|&v| v == sg.index(name)).unwrap();
    assert!(pos("Calculus") < pos("Linear Algebra"));
    assert!(pos("Linear Algebra") < pos("Theoretical CS"));
    assert!(pos("Introduction to CS") < pos("Algorithms"));
    assert!(pos("Machine Learning") < pos("Neural Networks"));
    let names: Vec<&str> = order.iter().map(|&v| sg.name(v)).collect();
    assert_eq!(names.len(), 13);
}

#[test]
fn symbol_digraph_arcs_follow_records() {
    let sg = SymbolDigraph::new(&records(&["a b c", "b c", "d"], " "));
    let g = sg.g();
    assert_eq!(g.num_vertices(), 4);
    assert_eq!(g.num_edges(), 3);
    assert_eq!(g.adj(sg.index("a")), vec![sg.index("c"), sg.index("b")]);
    assert_eq!(g.adj(sg.index("d")), Vec::<usize>::new());
    assert_eq!(sg.index("d"), 3);
}

#[test]
fn symbol_graph_degrees_of_separation() {
    let routes = ["JFK MCO", "ORD DEN", "ORD HOU", "DFW PHX", "JFK ATL", "ORD DFW", "ORD PHX", "ATL HOU",
        "DEN PHX", "PHX LAX", "JFK ORD", "DEN LAS", "DFW HOU", "ORD ATL", "LAS LAX", "ATL MCO", "HOU MCO",
        "LAS PHX"];
    let sg = SymbolGraph::new(&records(&routes, " "));
    assert_eq!(sg.g().num_vertices(), 10);
    assert_eq!(sg.g().num_edges(), 18);
    let bfs = BreadthFirstPaths::new(sg.g(), sg.index("JFK"));
    let path: Vec<&str> = bfs.path_to(sg.index("LAS")).unwrap().iter().map(|&v| sg.name(v)).collect();
    assert_eq!(path.len(), 4);
    assert_eq!(path[0], "JFK");
    assert_eq!(path[1], "ORD");
    assert_eq!(path[3], "LAS");
    assert!(sg.g().adj(sg.index("LAX")).contains(&sg.index("LAS")));
}
