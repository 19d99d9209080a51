use fib_heap::graph::Graph;
use fib_heap::graph::Matrix;
use fib_heap::graph::VectorMatrix;

#[test]
fn test_matrix_impl() {
    let mut matrix: VectorMatrix = Matrix::zero(2, 2);
    let mut res = matrix.set(1, 1, 4);
    assert!(res.is_ok());
    res = matrix.at(1, 1);
    assert!(res.is_ok());
    let n = res.ok().unwrap();
    assert_eq!(4, n);
}

#[test]
fn test_matrix_set_bounds() {
    let mut matrix: VectorMatrix = Matrix::zero(2, 2);
    assert!(matrix.set(2, 2, 5).is_err());
}

#[test]
fn test_graph_neighbors() {
    let mut graph: VectorMatrix = Graph::new(3);
    assert!(!graph.adjacent(1, 2).ok().unwrap());
    let mut res = graph.add(0, 1, 1);
    assert!(res.is_ok());
    res = graph.add(0, 2, 1);
    assert!(res.is_ok());
    let neighbors = graph.neighbors(0);
    assert_eq!(neighbors.len(), 2);
    assert_eq!(neighbors[0], 1);
    assert_eq!(neighbors[1], 2);
}

#[test]
fn test_graph_adjacent() {
    let mut graph: VectorMatrix = Graph::new(3);
    assert!(!graph.adjacent(1, 2).ok().unwrap());
    let mut res = graph.add(0, 1, 1);
    assert!(res.is_ok());
    res = graph.add(0, 2, 1);
    assert!(res.is_ok());
    assert!(graph.adjacent(0, 1).ok().unwrap());
    assert!(graph.adjacent(0, 2).ok().unwrap());
}

/*
 *  Graph:
 *  V 0 1 2 3 4
 *  0 0 1 1 0 0
 *  1 0 0 0 0 1
 *  2 0 0 0 1 1
 *  3 1 0 0 0 0
 *  4 0 0 0 1 0
 */
#[test]
#[allow(non_snake_case)]
fn test_graph_DFS() {
    let mut graph: VectorMatrix = Graph::new(5);
    let mut res = graph.add(0, 1, 1);
    assert!(res.is_ok());
    res = graph.add(0, 2, 1);
    assert!(res.is_ok());
    res = graph.add(2, 3, 1);
    assert!(res.is_ok());
    res = graph.add(2, 4, 1);
    assert!(res.is_ok());
    res = graph.add(1, 4, 1);
    assert!(res.is_ok());
    res = graph.add(4, 3, 1);
    assert!(res.is_ok());
    res = graph.add(3, 0, 1);
    assert!(res.is_ok());
    let dfs_vec = graph.depth_first_search(0);
    for v in dfs_vec.iter() {
        println!("closure called on vertex {}\n", v);
    }
    let correct_vec: Vec<usize> = vec![0, 2, 4, 3, 1];
    assert_eq!(dfs_vec.len(), correct_vec.len());
    let zip_iter = dfs_vec.iter().zip(correct_vec.iter());
    for (&dfs, &cor) in zip_iter {
        assert_eq!(dfs, cor);
    }
}

/*
 *  Graph:
 *  V 0 1 2 3 4
 *  0 0 1 1 0 0
 *  1 0 0 0 0 1
 *  2 0 0 0 1 1
 *  3 1 0 0 0 0
 *  4 0 0 0 1 0
 */
#[test]
#[allow(non_snake_case)]
fn test_graph_BFS() {
    let mut graph: VectorMatrix = Graph::new(5);
    let mut res = graph.add(0, 1, 1);
    assert!(res.is_ok());
    res = graph.add(0, 2, 1);
    assert!(res.is_ok());
    res = graph.add(2, 3, 1);
    assert!(res.is_ok());
    res = graph.add(2, 4, 1);
    assert!(res.is_ok());
    res = graph.add(1, 4, 1);
    assert!(res.is_ok());
    res = graph.add(4, 3, 1);
    assert!(res.is_ok());
    res = graph.add(3, 0, 1);
    assert!(res.is_ok());
    let bfs_vec = graph.breadth_first_search(0);
    for v in bfs_vec.iter() {
        println!("closure called on vertex {}\n", v);
    }
    let correct_vec: Vec<usize> = vec![0, 1, 2, 4, 3];
    assert_eq!(bfs_vec.len(), correct_vec.len());
    let zip_iter = bfs_vec.iter().zip(correct_vec.iter());
    for (&bfs, &cor) in zip_iter {
        assert_eq!(bfs, cor);
    }
}

#[test]
fn test_matrix_at_bounds() {
    let matrix: VectorMatrix = Matrix::zero(3, 2);
    assert!(matrix.at(0, 2).is_err());
    assert!(matrix.at(3, 0).is_err());
    assert!(matrix.at(2, 1).is_ok());
    assert_eq!(matrix.height(), 3);
    assert_eq!(matrix.width(), 2);
}

#[test]
fn test_graph_delete_edge() {
    let mut graph: VectorMatrix = Graph::new(3);
    assert!(graph.add(0, 1, 7).is_ok());
    assert_eq!(graph.get_edge_value(0, 1).unwrap(), 7);
    assert!(graph.set_edge_value(0, 1, 9).is_ok());
    assert_eq!(graph.get_edge_value(0, 1).unwrap(), 9);
    assert!(graph.delete(0, 1).is_ok());
    assert!(!graph.adjacent(0, 1).unwrap());
    assert!(graph.adjacent(3, 0).is_err());
}
