use load_balancer::{
    loads, max_loaded_index, median_load_doubled, migrate, min_loaded_index, place_on,
    scaled_variance, ClusterError, SlaveNode, Task,
};

fn cluster(n: usize) -> Vec<SlaveNode> {
    let names = ["Node 0", "Node 1", "Node 2", "Node 3", "Node 4", "Node 5"];
    let mut nodes = Vec::new();
    for i in 0..n {
        nodes.push(SlaveNode::new(names[i]));
    }
    nodes
}

fn cluster_with_loads(ls: &[u8]) -> Vec<SlaveNode> {
    let mut nodes = cluster(ls.len());
    for (i, w) in ls.iter().enumerate() {
        place_on(&mut nodes, i, Task::new(format!("t{}", i), *w)).unwrap();
    }
    nodes
}

fn weights(n: &SlaveNode) -> Vec<u8> {
    n.tasks().iter().map(|t| t.weight).collect()
}

fn names(n: &SlaveNode) -> Vec<String> {
    n.tasks().iter().map(|t| t.name.clone()).collect()
}

#[test]
fn task_new_keeps_fields() {
    let t = Task::new("job".to_string(), 7);
    assert_eq!(t.name, "job");
    assert_eq!(t.weight, 7);
}

#[test]
fn new_node_is_empty() {
    let n = SlaveNode::new("Node 0");
    assert_eq!(n.name(), "Node 0");
    assert!(n.tasks().is_empty());
    assert_eq!(n.get_load(), 0);
}

#[test]
fn place_keeps_weight_order() {
    let mut n = SlaveNode::new("a");
    for w in [5u8, 3, 4, 9, 1, 4] {
        n.place(Task::new(format!("w{}", w), w));
        let ws = weights(&n);
        assert!(ws.windows(2).all(|p| p[0] <= p[1]));
    }
    assert_eq!(weights(&n), vec![1, 3, 4, 4, 5, 9]);
}

#[test]
fn place_keeps_arrival_order_of_equal_weights() {
    let mut n = SlaveNode::new("a");
    n.place(Task::new("first".to_string(), 2));
    n.place(Task::new("light".to_string(), 1));
    n.place(Task::new("second".to_string(), 2));
    n.place(Task::new("heavy".to_string(), 3));
    n.place(Task::new("third".to_string(), 2));
    assert_eq!(names(&n), vec!["light", "first", "second", "third", "heavy"]);
}

#[test]
fn pop_fattest_returns_heaviest() {
    let mut n = SlaveNode::new("a");
    for w in [2u8, 8, 5] {
        n.place(Task::new(format!("w{}", w), w));
    }
    let t = n.pop_fattest().unwrap();
    assert_eq!(t.weight, 8);
    assert_eq!(t.name, "w8");
    assert_eq!(weights(&n), vec![2, 5]);
}

#[test]
fn pop_fattest_on_empty_is_none() {
    let mut n = SlaveNode::new("a");
    assert_eq!(n.pop_fattest(), None);
    assert_eq!(n.get_load(), 0);
}

#[test]
fn load_tracks_place_and_pop() {
    let mut n = SlaveNode::new("a");
    n.place(Task::new("x".to_string(), 5));
    assert_eq!(n.get_load(), 5);
    n.place(Task::new("y".to_string(), 3));
    assert_eq!(n.get_load(), 8);
    let t = n.pop_fattest().unwrap();
    assert_eq!(t.weight, 5);
    assert_eq!(n.get_load(), 3);
}

#[test]
fn load_exceeds_one_byte() {
    let mut n = SlaveNode::new("a");
    for _ in 0..3 {
        n.place(Task::new("big".to_string(), 255));
    }
    assert_eq!(n.get_load(), 765);
}

#[test]
fn median_of_even_count() {
    let nodes = cluster_with_loads(&[6, 4, 2, 4]);
    let m = median_load_doubled(&nodes).unwrap();
    assert_eq!(m, 8);
    assert_eq!(m as f64 / 2.0, 4.0);
}

#[test]
fn median_of_odd_count() {
    let nodes = cluster_with_loads(&[9, 1, 2]);
    let m = median_load_doubled(&nodes).unwrap();
    assert_eq!(m, 4);
    assert_eq!(m as f64 / 2.0, 2.0);
}

#[test]
fn median_of_even_count_with_fraction() {
    let nodes = cluster_with_loads(&[1, 4]);
    assert_eq!(median_load_doubled(&nodes), Ok(5));
}

#[test]
fn deviation_of_equal_loads_is_zero() {
    let nodes = cluster_with_loads(&[2, 2, 2, 2]);
    let v = scaled_variance(&nodes).unwrap();
    assert_eq!(v, 0);
    assert_eq!((v as f64).sqrt() / 4.0, 0.0);
}

#[test]
fn deviation_of_two_loads() {
    let nodes = cluster_with_loads(&[0, 4]);
    let v = scaled_variance(&nodes).unwrap();
    assert_eq!(v, 16);
    assert_eq!((v as f64).sqrt() / 2.0, 2.0);
}

#[test]
fn statistics_of_empty_cluster_fail() {
    let nodes: Vec<SlaveNode> = Vec::new();
    assert_eq!(min_loaded_index(&nodes), Err(ClusterError::EmptyCluster));
    assert_eq!(max_loaded_index(&nodes), Err(ClusterError::EmptyCluster));
    assert_eq!(median_load_doubled(&nodes), Err(ClusterError::EmptyCluster));
    assert_eq!(scaled_variance(&nodes), Err(ClusterError::EmptyCluster));
}

#[test]
fn min_and_max_take_first_of_ties() {
    let nodes = cluster_with_loads(&[3, 1, 5, 1, 5]);
    assert_eq!(min_loaded_index(&nodes), Ok(1));
    assert_eq!(max_loaded_index(&nodes), Ok(2));
}

#[test]
fn single_node_cluster() {
    let nodes = cluster_with_loads(&[7]);
    assert_eq!(min_loaded_index(&nodes), Ok(0));
    assert_eq!(max_loaded_index(&nodes), Ok(0));
    assert_eq!(median_load_doubled(&nodes), Ok(14));
    assert_eq!(scaled_variance(&nodes), Ok(0));
}

#[test]
fn place_on_out_of_range_fails() {
    let mut nodes = cluster(2);
    let r = place_on(&mut nodes, 2, Task::new("x".to_string(), 1));
    assert_eq!(r, Err(ClusterError::IndexOutOfRange));
    assert_eq!(loads(&nodes), vec![0, 0]);
}

#[test]
fn migrate_out_of_range_fails() {
    let mut nodes = cluster_with_loads(&[3, 1]);
    assert_eq!(migrate(&mut nodes, 2, 0), Err(ClusterError::IndexOutOfRange));
    assert_eq!(migrate(&mut nodes, 0, 5), Err(ClusterError::IndexOutOfRange));
    assert_eq!(loads(&nodes), vec![3, 1]);
}

#[test]
fn migrate_conserves_load() {
    let mut nodes = cluster(3);
    for w in [4u8, 2, 6] {
        place_on(&mut nodes, 0, Task::new(format!("w{}", w), w)).unwrap();
    }
    place_on(&mut nodes, 2, Task::new("z".to_string(), 1)).unwrap();
    assert_eq!(migrate(&mut nodes, 0, 2), Ok(()));
    assert_eq!(loads(&nodes), vec![6, 0, 7]);
    assert_eq!(weights(&nodes[2]), vec![1, 6]);
}

#[test]
fn migrate_from_empty_changes_nothing() {
    let mut nodes = cluster_with_loads(&[0, 5]);
    for _ in 0..3 {
        assert_eq!(migrate(&mut nodes, 0, 1), Ok(()));
        assert_eq!(loads(&nodes), vec![0, 5]);
    }
    let mut drained = cluster(2);
    place_on(&mut drained, 0, Task::new("only".to_string(), 2)).unwrap();
    assert_eq!(migrate(&mut drained, 0, 1), Ok(()));
    for _ in 0..3 {
        assert_eq!(migrate(&mut drained, 0, 1), Ok(()));
        assert_eq!(loads(&drained), vec![0, 2]);
    }
}

#[test]
fn migrate_to_self_keeps_queue() {
    let mut nodes = cluster(1);
    for w in [1u8, 3, 3] {
        place_on(&mut nodes, 0, Task::new(format!("w{}", w), w)).unwrap();
    }
    assert_eq!(migrate(&mut nodes, 0, 0), Ok(()));
    assert_eq!(weights(&nodes[0]), vec![1, 3, 3]);
    assert_eq!(loads(&nodes), vec![7]);
}

#[test]
fn end_to_end_five_nodes() {
    let mut nodes = cluster(5);
    for w in [5u8, 3, 4] {
        place_on(&mut nodes, 0, Task::new(format!("w{}", w), w)).unwrap();
    }
    assert_eq!(loads(&nodes), vec![12, 0, 0, 0, 0]);
    let max = max_loaded_index(&nodes).unwrap();
    let min = min_loaded_index(&nodes).unwrap();
    assert_eq!(max, 0);
    assert_eq!(min, 1);
    migrate(&mut nodes, max, min).unwrap();
    assert_eq!(nodes[0].get_load(), 7);
    assert_eq!(nodes[min].get_load(), 5);
    assert_eq!(names(&nodes[min]), vec!["w5"]);
}
