use ferrite_core::markdown::mermaid::flowchart::parse_flowchart;
use ferrite_core::markdown::mermaid::layering::LayerGraph;

fn layered(src: &str) -> LayerGraph {
    let f = parse_flowchart(src).unwrap();
    let mut g = LayerGraph::from_flowchart(&f);
    g.detect_cycles_and_mark_back_edges();
    g.assign_layers();
    g.build_layers();
    g
}

#[test]
fn layering_adjacency_from_flowchart() {
    let f = parse_flowchart("flowchart TD\n    A --> B\n    B --> C\n    A --> C\n    X --> Y").unwrap();
    let g = LayerGraph::from_flowchart(&f);
    assert_eq!(g.outgoing, vec![vec![1, 2], vec![2], vec![], vec![4], vec![]]);
    assert_eq!(g.incoming, vec![vec![], vec![0], vec![1, 0], vec![], vec![3]]);
    assert!(g.back_edges.is_empty());
    assert_eq!(g.node_layers, vec![0, 0, 0, 0, 0]);
}

#[test]
fn layering_cycle_gets_a_back_edge() {
    let g = layered("flowchart TD\n    A --> B\n    B --> C\n    C --> A\n    A --> D");
    assert_eq!(g.back_edges, vec![(2, 0)]);
    assert_eq!(g.node_layers, vec![0, 1, 2, 1]);
    assert_eq!(g.layers, vec![vec![0], vec![1, 3], vec![2]]);
}

#[test]
fn layering_self_loop_is_a_back_edge() {
    let g = layered("flowchart LR\n    A --> A\n    A --> B");
    assert_eq!(g.back_edges, vec![(0, 0)]);
    assert_eq!(g.node_layers, vec![0, 1]);
}

#[test]
fn layering_longest_path_wins() {
    // C is reached directly from A and through B: it goes below B
    let g = layered("flowchart TD\n    A --> C\n    A --> B\n    B --> C");
    assert_eq!(g.node_layers, vec![0, 2, 1]);
    assert_eq!(g.layers, vec![vec![0], vec![2], vec![1]]);
}

#[test]
fn layering_orders_a_layer_by_edge_declaration() {
    // B and C are both in layer 1; A declared its edge to C first
    let g = layered("flowchart TD\n    A --> C\n    A --> B");
    assert_eq!(g.node_layers, vec![0, 1, 1]);
    assert_eq!(g.layers, vec![vec![0], vec![1, 2]]);
    assert_eq!(g.get_min_incoming_edge_position(1), 0);
    assert_eq!(g.get_min_incoming_edge_position(2), 1);
    assert_eq!(g.get_min_incoming_edge_position(0), 0);
}

#[test]
fn layering_every_other_edge_goes_down() {
    let g = layered(
        "flowchart TD\n    A --> B\n    B --> C\n    C --> B\n    C --> D\n    D --> A\n    E --> D\n    B --> E",
    );
    for (u, targets) in g.outgoing.iter().enumerate() {
        for &w in targets {
            if !g.back_edges.contains(&(u, w)) {
                assert!(g.node_layers[u] < g.node_layers[w], "edge {} -> {}", u, w);
            }
        }
    }
    for (l, row) in g.layers.iter().enumerate() {
        for &v in row {
            assert_eq!(g.node_layers[v], l);
        }
    }
}

#[test]
fn layering_raises_layers_to_meet_edges() {
    let mut g = LayerGraph {
        outgoing: vec![vec![1], vec![2], vec![]],
        incoming: vec![vec![], vec![0], vec![1]],
        back_edges: vec![],
        node_layers: vec![5, 0, 0],
        layers: vec![],
        node_subgraph: vec![None, None, None],
        subgraph_info: vec![],
    };
    g.ensure_layer_constraints();
    assert_eq!(g.node_layers, vec![5, 6, 7]);
}

#[test]
fn layering_empty_flowchart() {
    let mut g = LayerGraph {
        outgoing: vec![],
        incoming: vec![],
        back_edges: vec![],
        node_layers: vec![],
        layers: vec![],
        node_subgraph: vec![],
        subgraph_info: vec![],
    };
    g.detect_cycles_and_mark_back_edges();
    g.assign_layers();
    g.build_layers();
    assert_eq!(g.layers, vec![Vec::<usize>::new()]);
}

#[test]
fn layering_subgraph_membership_and_layers() {
    let src = "flowchart TD\n    A --> B\n    B --> C\n    subgraph S\n        P --> Q\n    end\n    C --> Q";
    let f = parse_flowchart(src).unwrap();
    let mut g = LayerGraph::from_flowchart(&f);
    assert_eq!(
        g.node_subgraph,
        vec![None, None, None, Some("S".to_string()), Some("S".to_string())]
    );
    assert_eq!(g.subgraph_info, vec![("S".to_string(), vec![3, 4])]);
    g.detect_cycles_and_mark_back_edges();
    g.assign_layers();
    g.build_layers();
    assert_eq!(g.node_layers, vec![0, 1, 2, 0, 3]);
    assert_eq!(g.layers, vec![vec![0, 3], vec![1], vec![2], vec![4]]);
}

#[test]
fn layering_search_order_decides_back_edge() {
    // The search starts from the first node, so of the two edges of the
    // cycle the one back into A is reversed, and A lies above B.
    let g = layered("flowchart TD\n    A --> B\n    B --> A");
    assert_eq!(g.back_edges, vec![(1, 0)]);
    assert_eq!(g.node_layers, vec![0, 1]);
    // Declared the other way round, B is searched first.
    let g = layered("flowchart TD\n    B --> A\n    A --> B");
    assert_eq!(g.back_edges, vec![(1, 0)]);
    assert_eq!(g.node_layers, vec![0, 1]);
}
