use algorithm_playground::{binary_search, linear_search, Graph, TreeNode};
use std::collections::HashSet;

#[derive(Debug, PartialEq, Eq, PartialOrd, Ord)]
struct Point {
    x: i32,
    y: i32,
}

#[test]
fn test_linear_search() {
    let arr_int = vec![1, 2, 3, 4, 5];
    assert_eq!(linear_search(&arr_int, &3), Some(2));

    let arr_str = vec!["apple", "banana", "cherry", "date"];
    assert_eq!(linear_search(&arr_str, &"cherry"), Some(2));

    let arr_char = vec!['a', 'b', 'c', 'd', 'e'];
    assert_eq!(linear_search(&arr_char, &'c'), Some(2));

    let arr_custom = vec![Point { x: 1, y: 1 }, Point { x: 2, y: 2 }, Point { x: 3, y: 3 }];
    assert_eq!(linear_search(&arr_custom, &Point { x: 3, y: 3 }), Some(2));
}

#[test]
fn test_binary_search() {
    let arr_int = vec![1, 2, 3, 4, 5];
    assert_eq!(binary_search(&arr_int, &3), Some(2));

    let arr_str = vec!["apple", "banana", "cherry", "date"];
    assert_eq!(binary_search(&arr_str, &"cherry"), Some(2));

    let arr_char = vec!['a', 'b', 'c', 'd', 'e'];
    assert_eq!(binary_search(&arr_char, &'c'), Some(2));

    let arr_custom = vec![Point { x: 1, y: 1 }, Point { x: 2, y: 2 }, Point { x: 3, y: 3 }];
    assert_eq!(binary_search(&arr_custom, &Point { x: 3, y: 3 }), Some(2));
}

#[test]
fn test_graph_dfs_and_bfs() {
    let mut graph_usize = Graph::new(5);
    graph_usize.add_edge(0, 1);
    graph_usize.add_edge(0, 2);
    graph_usize.add_edge(1, 3);
    graph_usize.add_edge(2, 4);
    assert!(graph_usize.dfs(0, 4));
    assert!(graph_usize.bfs(0, 4));

    let mut graph_char = Graph::new(5);
    graph_char.add_edge(0, 1);
    graph_char.add_edge(0, 2);
    graph_char.add_edge(1, 3);
    graph_char.add_edge(2, 4);
    assert!(graph_char.dfs(0, 4));
    assert!(graph_char.bfs(0, 4));
}

#[test]
fn test_tree_contains() {
    let mut root_usize = TreeNode::new(5);
    let left_child_usize = TreeNode::new(3);
    let right_child_usize = TreeNode::new(7);
    root_usize.left = Some(Box::new(left_child_usize));
    root_usize.right = Some(Box::new(right_child_usize));
    assert!(root_usize.contains(&3));
    assert!(!root_usize.contains(&4));

    let mut root_char = TreeNode::new('c');
    let left_child_char = TreeNode::new('b');
    let right_child_char = TreeNode::new('d');
    root_char.left = Some(Box::new(left_child_char));
    root_char.right = Some(Box::new(right_child_char));
    assert!(root_char.contains(&'b'));
    assert!(!root_char.contains(&'a'));
}

#[test]
fn linear_search_returns_first_match() {
    let arr = vec![4, 7, 7, 1, 7];
    assert_eq!(linear_search(&arr, &7), Some(1));
    assert_eq!(linear_search(&arr, &9), None);
    let empty: Vec<i32> = vec![];
    assert_eq!(linear_search(&empty, &1), None);
}

#[test]
fn binary_search_empty_and_missing() {
    let empty: Vec<i32> = vec![];
    assert_eq!(binary_search(&empty, &1), None);
    let arr = vec![1, 3, 5, 7, 9];
    assert_eq!(binary_search(&arr, &0), None);
    assert_eq!(binary_search(&arr, &4), None);
    assert_eq!(binary_search(&arr, &10), None);
    assert_eq!(binary_search(&arr, &1), Some(0));
    assert_eq!(binary_search(&arr, &9), Some(4));
}

#[test]
fn binary_search_finds_each_element() {
    let arr: Vec<u32> = (0..50).map(|x| x * 2).collect();
    for (i, v) in arr.iter().enumerate() {
        assert_eq!(binary_search(&arr, v), Some(i));
        assert_eq!(binary_search(&arr, &(v + 1)), None);
    }
}

#[test]
fn graph_traversals_agree_with_cycles_and_self_loops() {
    let mut g = Graph::new(7);
    g.add_edge(0, 1);
    g.add_edge(1, 2);
    g.add_edge(2, 0);
    g.add_edge(3, 3);
    g.add_edge(4, 5);
    g.add_edge(5, 4);
    for s in 0..7 {
        for t in 0..7 {
            let expected = s == t || (s < 3 && t < 3) || ((s == 4 || s == 5) && (t == 4 || t == 5));
            assert_eq!(g.dfs(s, t), expected, "dfs {} {}", s, t);
            assert_eq!(g.bfs(s, t), expected, "bfs {} {}", s, t);
        }
    }
    assert!(!g.dfs(0, 100));
    assert!(!g.bfs(0, 100));
}

#[test]
fn graph_add_edge_is_symmetric() {
    let mut g = Graph::new(3);
    g.add_edge(0, 2);
    g.add_edge(1, 1);
    assert_eq!(g.edges[0], vec![2]);
    assert_eq!(g.edges[2], vec![0]);
    assert_eq!(g.edges[1], vec![1, 1]);
    assert!(g.dfs(2, 0));
    assert!(g.bfs(2, 0));
    assert!(!g.dfs(0, 1));
    assert!(!g.bfs(0, 1));
}

#[test]
fn graph_without_edges() {
    let g = Graph::new(4);
    assert_eq!(g.edges.len(), 4);
    assert!(g.dfs(2, 2));
    assert!(g.bfs(2, 2));
    assert!(!g.dfs(0, 3));
    assert!(!g.bfs(0, 3));
}

#[test]
fn tree_deeper_search() {
    let mut root = TreeNode::new(8);
    let mut left = TreeNode::new(4);
    left.left = Some(Box::new(TreeNode::new(2)));
    left.right = Some(Box::new(TreeNode::new(6)));
    let mut right = TreeNode::new(12);
    right.right = Some(Box::new(TreeNode::new(14)));
    root.left = Some(Box::new(left));
    root.right = Some(Box::new(right));
    for v in [2, 4, 6, 8, 12, 14] {
        assert!(root.contains(&v));
    }
    for v in [1, 3, 5, 7, 9, 13, 15] {
        assert!(!root.contains(&v));
    }
    let leaf = TreeNode::new(1);
    assert!(leaf.contains(&1));
    assert!(!leaf.contains(&0));
    assert!(leaf.left.is_none() && leaf.right.is_none());
}

#[test]
fn tree_off_path_value_not_found() {
    // 9 sits left of 5, against the ordering, so the walk never meets it
    let mut root = TreeNode::new(5);
    root.left = Some(Box::new(TreeNode::new(9)));
    assert!(!root.contains(&9));
    assert!(root.contains(&5));
}

#[test]
fn traversal_start_outside_graph_equal_to_target() {
    let g = Graph::new(3);
    assert!(g.dfs(10, 10));
    assert!(g.bfs(10, 10));
}

#[test]
fn dfs_recursive_respects_visited_set() {
    let mut g = Graph::new(3);
    g.add_edge(0, 1);
    g.add_edge(1, 2);

    // the target itself may already be visited
    let mut visited: HashSet<usize> = HashSet::new();
    visited.insert(1);
    assert!(g.dfs_recursive(0, 1, &mut visited));

    // a visited node blocks the only way on
    let mut visited: HashSet<usize> = HashSet::new();
    visited.insert(1);
    assert!(!g.dfs_recursive(0, 2, &mut visited));
    let expected: HashSet<usize> = [0, 1].into_iter().collect();
    assert_eq!(visited, expected);

    // with nothing visited, everything reachable gets marked
    let mut visited: HashSet<usize> = HashSet::new();
    assert!(!g.dfs_recursive(0, 7, &mut visited));
    let expected: HashSet<usize> = [0, 1, 2].into_iter().collect();
    assert_eq!(visited, expected);
}
