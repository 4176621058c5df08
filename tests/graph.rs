use std::collections::HashMap;

use simple_graph::{MGraph, Node, SimpleGraph, VGraph};

fn vgraph(adj: Vec<Vec<usize>>) -> VGraph<usize> {
    let mut nodes = Vec::new();
    for (i, a) in adj.into_iter().enumerate() {
        nodes.push(Node::new(i, a));
    }
    VGraph::new(nodes)
}

// a ring of `n` nodes where node i has the one child i + 1
fn uni_circle(n: usize) -> VGraph<usize> {
    vgraph((0..n).map(|i| vec![(i + 1) % n]).collect())
}

// a ring of `n` nodes where node i has the children i - 1 and i + 1
fn bi_circle(n: usize) -> VGraph<usize> {
    vgraph((0..n).map(|i| vec![(i + n - 1) % n, (i + 1) % n]).collect())
}

// the capitals keyed by country, without edges
fn capitals() -> MGraph<&'static str, &'static str> {
    let mut m = HashMap::new();
    m.insert("Italy", Node::new("Rome", Vec::new()));
    m.insert("France", Node::new("Paris", Vec::new()));
    m.insert("Germany", Node::new("Mallorca", Vec::new()));
    MGraph::new(m)
}

#[test]
fn trait_uni_circle_children_ok() {
    let circle = uni_circle(6);
    assert_eq!(circle.children(0)[0], 1);
    assert_eq!(circle.children(1)[0], 2);
    assert_eq!(circle.children(2)[0], 3);
    assert_eq!(circle.children(3)[0], 4);
    assert_eq!(circle.children(4)[0], 5);
    assert_eq!(circle.children(5)[0], 0);
}

#[test]
fn trait_uni_circle_ancestors_ok() {
    let circle = uni_circle(6);
    assert_eq!(circle.ancestors(0)[0], 5);
    assert_eq!(circle.ancestors(1)[0], 0);
    assert_eq!(circle.ancestors(2)[0], 1);
    assert_eq!(circle.ancestors(3)[0], 2);
    assert_eq!(circle.ancestors(4)[0], 3);
    assert_eq!(circle.ancestors(5)[0], 4);
}

#[test]
fn trait_bi_circle_children_ok() {
    let circle = bi_circle(6);
    assert_eq!(circle.children(0), vec![5, 1]);
    assert_eq!(circle.children(1), vec![0, 2]);
    assert_eq!(circle.children(2), vec![1, 3]);
    assert_eq!(circle.children(3), vec![2, 4]);
    assert_eq!(circle.children(4), vec![3, 5]);
    assert_eq!(circle.children(5), vec![4, 0]);
}

#[test]
fn trait_bi_circle_ancestors_ok() {
    let circle = bi_circle(6);
    assert_eq!(circle.ancestors(0), vec![1, 5]);
    assert_eq!(circle.ancestors(1), vec![0, 2]);
    assert_eq!(circle.ancestors(2), vec![1, 3]);
    assert_eq!(circle.ancestors(3), vec![2, 4]);
    assert_eq!(circle.ancestors(4), vec![3, 5]);
    assert_eq!(circle.ancestors(5), vec![0, 4]);
}

#[test]
fn uni_circle_has_no_order() {
    let circle = uni_circle(6);
    assert_eq!(circle.children(0), vec![1]);
    assert_eq!(circle.ancestors(0), vec![5]);
    assert_eq!(circle.get_topological_order(), Err("Circular dependency detected!"));
}

#[test]
fn chain_is_ordered() {
    let g = vgraph(vec![vec![1], vec![2], vec![3], vec![4], vec![5], vec![]]);
    assert_eq!(g.get_topological_order(), Ok(vec![0, 1, 2, 3, 4, 5]));
}

#[test]
fn bi_circle_has_no_order() {
    let circle = bi_circle(6);
    assert_eq!(circle.ancestors(0), vec![1, 5]);
    assert!(circle.get_topological_order().is_err());
}

#[test]
fn empty_graph() {
    let g = vgraph(vec![]);
    assert_eq!(g.ancestors(0), Vec::<usize>::new());
    assert_eq!(g.ancestors(7), Vec::<usize>::new());
    assert_eq!(g.get_topological_order(), Ok(vec![]));
}

#[test]
fn keyed_graph_without_edges() {
    let g = capitals();
    let order = g.get_topological_order().unwrap();
    assert_eq!(order.len(), 3);
    for k in ["Italy", "France", "Germany"] {
        assert!(order.contains(&k));
        assert_eq!(g.ancestors(k), Vec::<&str>::new());
    }
    assert_eq!(g.get_topological_order(), Ok(order));
}

#[test]
fn multi_edges_count_in_degree() {
    // 0 -> 1 twice, 0 -> 2, 2 -> 1
    let g = vgraph(vec![vec![1, 1, 2], vec![], vec![1]]);
    assert_eq!(g.ancestors(1), vec![0, 0, 2]);
    assert_eq!(g.ancestors(2), vec![0]);
    assert_eq!(g.ancestors(0), Vec::<usize>::new());
    assert_eq!(g.get_topological_order(), Ok(vec![0, 2, 1]));
}

#[test]
fn latest_ready_node_goes_first() {
    // 0 and 1 have no parents; 1 is found last and placed first
    let g = vgraph(vec![vec![2], vec![2], vec![]]);
    assert_eq!(g.get_topological_order(), Ok(vec![1, 0, 2]));
}

#[test]
fn order_puts_parents_first() {
    let g = vgraph(vec![vec![3], vec![0, 3], vec![1], vec![], vec![2, 3]]);
    let order = g.get_topological_order().unwrap();
    assert_eq!(order.len(), 5);
    let at = |x: usize| order.iter().position(|&y| y == x).unwrap();
    for a in 0..5 {
        for b in g.children(a) {
            assert!(at(a) < at(b));
        }
    }
    assert_eq!(order, vec![4, 2, 1, 0, 3]);
}

#[test]
fn self_loop_is_a_cycle() {
    let g = vgraph(vec![vec![1], vec![1]]);
    assert_eq!(g.get_topological_order(), Err("Circular dependency detected!"));
}

#[test]
fn edges_to_missing_nodes_are_ignored() {
    let g = vgraph(vec![vec![1, 9], vec![]]);
    assert_eq!(g.ancestors(9), vec![0]);
    assert_eq!(g.get_topological_order(), Ok(vec![0, 1]));
}

#[test]
fn children_and_ancestors_agree() {
    let g = vgraph(vec![vec![1, 2, 2], vec![2], vec![0], vec![3]]);
    for a in 0..4usize {
        for b in 0..4usize {
            let down = g.children(a).iter().filter(|&&x| x == b).count();
            let up = g.ancestors(b).iter().filter(|&&x| x == a).count();
            assert_eq!(down, up);
        }
    }
}

#[test]
fn vgraph_children_are_its_adjacency() {
    let g = vgraph(vec![vec![2, 1], vec![], vec![0]]);
    assert_eq!(g.children(0), vec![2, 1]);
    assert_eq!(g.children(1), Vec::<usize>::new());
    assert_eq!(g.nodes().len(), 3);
}

#[test]
fn keyed_graph_with_edges() {
    let mut m = HashMap::new();
    m.insert(30u32, Node::new('c', vec![]));
    m.insert(10u32, Node::new('a', vec![20, 30]));
    m.insert(20u32, Node::new('b', vec![30]));
    let g = MGraph::new(m);
    assert_eq!(g.children(10), vec![20, 30]);
    assert_eq!(g.ancestors(10), Vec::<u32>::new());
    assert_eq!(g.ancestors(20), vec![10]);
    let mut up = g.ancestors(30);
    up.sort();
    assert_eq!(up, vec![10, 20]);
    assert_eq!(g.get_topological_order(), Ok(vec![10, 20, 30]));
}
