use nexora::api::traversal::traversal::{BfsWalk, DfsWalk, Traversal};
use nexora::graph::edge::error::NexoraGraphEdgeError;
use nexora::graph::graphstore::error::NexoraGraphStoreError;
use nexora::graph::graphstore::graphstore::GraphStore;
use nexora::graph::node::error::NexoraGraphNodeError;
use nexora::storage::page_store::PageStore;
use nexora::storage::storage_manager::StorageManager;

fn new_graph() -> GraphStore {
    GraphStore::new(StorageManager::from_page_store(PageStore::create()).unwrap())
}

/// A graph with `n` nodes labelled "N" and the given edges.
fn graph_with(n: u64, edges: &[(u64, u64)]) -> GraphStore {
    let mut g = new_graph();
    for i in 0..n {
        assert_eq!(g.insert_node("N").unwrap(), i);
    }
    for (k, &(a, b)) in edges.iter().enumerate() {
        assert_eq!(g.insert_edge(a, b, "E", 1.0f64.to_bits()).unwrap(), k as u64);
    }
    g
}

fn outgoing(g: &mut GraphStore, node: u64) -> Vec<u64> {
    let mut cursor = g.outgoing_cursor(node).unwrap();
    let mut out = Vec::new();
    while let Some(e) = g.next_outgoing(&mut cursor).unwrap() {
        out.push(e.dst_node_id());
    }
    out
}

fn bfs_order(g: &mut GraphStore, start: u64, max_depth: usize) -> Vec<(u64, usize)> {
    let mut walk = BfsWalk::new(start, max_depth);
    let mut seen = Vec::new();
    while let Some((node, depth)) = walk.next(g).unwrap() {
        seen.push((node.id, depth));
        walk.expand(g, node.id, depth).unwrap();
    }
    seen
}

fn dfs_order(g: &mut GraphStore, start: u64, max_depth: usize) -> Vec<(u64, usize)> {
    let mut walk = DfsWalk::new(start, max_depth);
    let mut seen = Vec::new();
    while let Some((node, depth)) = walk.next(g).unwrap() {
        seen.push((node.id, depth));
        walk.expand(g, node.id, depth).unwrap();
    }
    seen
}

#[test]
fn inserted_node_reads_back_with_its_label() {
    let mut g = new_graph();
    let alice = g.insert_node("Person").unwrap();
    let paris = g.insert_node("City").unwrap();
    assert_eq!((alice, paris), (0, 1));
    let n = g.get_node(alice).unwrap();
    assert_eq!(n.id, 0);
    assert_eq!(n.label, "Person");
    assert_eq!(g.get_node(paris).unwrap().label, "City");
}

#[test]
fn missing_node_is_not_found() {
    let mut g = new_graph();
    g.insert_node("Person").unwrap();
    assert_eq!(g.get_node(5).err(), Some(NexoraGraphStoreError::Node(NexoraGraphNodeError::NodeNotFound)));
}

#[test]
fn many_nodes_span_several_pages() {
    let mut g = new_graph();
    for i in 0..250u64 {
        assert_eq!(g.insert_node("N").unwrap(), i);
    }
    assert_eq!(g.get_node(0).unwrap().id, 0);
    assert_eq!(g.get_node(101).unwrap().id, 101);
    assert_eq!(g.get_node(249).unwrap().label, "N");
    let mut cursor = g.all_nodes_cursor();
    let mut count = 0u64;
    while let Some(rec) = g.next_node(&mut cursor).unwrap() {
        assert_eq!(rec.node_id, count);
        count += 1;
    }
    assert_eq!(count, 250);
}

#[test]
fn newest_edge_heads_the_outgoing_list() {
    let mut g = graph_with(3, &[(0, 1), (0, 2)]);
    assert_eq!(outgoing(&mut g, 0), vec![2, 1]);
    assert_eq!(outgoing(&mut g, 1), Vec::<u64>::new());
    let mut cursor = g.incoming_cursor(2).unwrap();
    let e = g.next_incoming(&mut cursor).unwrap().unwrap();
    assert_eq!((e.src_node_id(), e.dst_node_id(), e.edge_id()), (0, 2, 1));
    assert_eq!(f64::from_bits(e.weight()), 1.0);
    assert!(g.next_incoming(&mut cursor).unwrap().is_none());
}

#[test]
fn edge_to_missing_node_is_refused() {
    let mut g = graph_with(1, &[]);
    assert_eq!(
        g.insert_edge(0, 9, "E", 0),
        Err(NexoraGraphStoreError::Edge(NexoraGraphEdgeError::NodeNotFound))
    );
}

#[test]
fn edge_scan_visits_every_edge() {
    let mut g = graph_with(3, &[(0, 1), (1, 2), (2, 0)]);
    let mut cursor = g.all_edges_cursor();
    let mut ids = Vec::new();
    while let Some(e) = g.next_edge(&mut cursor).unwrap() {
        ids.push(e.edge_id());
    }
    assert_eq!(ids, vec![0, 1, 2]);
}

#[test]
fn has_path_follows_edges_in_their_direction() {
    let mut g = graph_with(4, &[(0, 1), (1, 2)]);
    let mut t = Traversal::new(&mut g);
    assert_eq!(t.has_path(0, 2), Ok(true));
    assert_eq!(t.has_path(2, 0), Ok(false));
    assert_eq!(t.has_path(0, 3), Ok(false));
    assert_eq!(t.has_path(3, 3), Ok(true));
}

#[test]
fn has_path_through_a_cycle() {
    let mut g = graph_with(4, &[(0, 1), (1, 2), (2, 0), (2, 3)]);
    let mut t = Traversal::new(&mut g);
    assert_eq!(t.has_path(1, 3), Ok(true));
    assert_eq!(t.has_path(3, 1), Ok(false));
}

#[test]
fn has_path_from_a_missing_node_is_an_error() {
    let mut g = graph_with(2, &[(0, 1)]);
    let mut t = Traversal::new(&mut g);
    assert_eq!(t.has_path(7, 1), Err(NexoraGraphStoreError::Edge(NexoraGraphEdgeError::NodeNotFound)));
}

#[test]
fn shortest_path_takes_the_fewest_edges() {
    let mut g = graph_with(5, &[(0, 1), (1, 2), (2, 3), (0, 4), (4, 3)]);
    let mut t = Traversal::new(&mut g);
    assert_eq!(t.shortest_path(0, 3), Ok(Some(vec![0, 4, 3])));
    assert_eq!(t.shortest_path(0, 2), Ok(Some(vec![0, 1, 2])));
    assert_eq!(t.shortest_path(3, 0), Ok(None));
    assert_eq!(t.shortest_path(2, 2), Ok(Some(vec![2])));
}

#[test]
fn a_node_reaches_itself_even_when_it_is_missing() {
    let mut g = graph_with(2, &[(0, 1)]);
    let mut t = Traversal::new(&mut g);
    assert_eq!(t.has_path(9, 9), Ok(true));
    assert_eq!(t.shortest_path(9, 9), Ok(Some(vec![9])));
}

#[test]
fn shortest_path_from_a_missing_node_is_an_error() {
    let mut g = graph_with(2, &[(0, 1)]);
    let mut t = Traversal::new(&mut g);
    assert_eq!(t.shortest_path(7, 1), Err(NexoraGraphStoreError::Edge(NexoraGraphEdgeError::NodeNotFound)));
}

#[test]
fn bfs_visits_by_depth_and_respects_max_depth() {
    let mut g = graph_with(5, &[(0, 1), (0, 2), (1, 3), (3, 4)]);
    assert_eq!(bfs_order(&mut g, 0, 10), vec![(0, 0), (2, 1), (1, 1), (3, 2), (4, 3)]);
    assert_eq!(bfs_order(&mut g, 0, 1), vec![(0, 0), (2, 1), (1, 1)]);
    assert_eq!(bfs_order(&mut g, 0, 0), vec![(0, 0)]);
}

#[test]
fn bfs_visits_each_node_once() {
    let mut g = graph_with(3, &[(0, 1), (0, 2), (1, 2), (2, 0)]);
    assert_eq!(bfs_order(&mut g, 0, 10), vec![(0, 0), (2, 1), (1, 1)]);
}

#[test]
fn dfs_goes_deep_first_in_list_order() {
    let mut g = graph_with(5, &[(0, 1), (0, 2), (1, 3), (2, 4)]);
    assert_eq!(dfs_order(&mut g, 0, 10), vec![(0, 0), (2, 1), (4, 2), (1, 1), (3, 2)]);
    assert_eq!(dfs_order(&mut g, 0, 1), vec![(0, 0), (2, 1), (1, 1)]);
}

#[test]
fn graph_survives_close_and_reopen() {
    let mut g = graph_with(3, &[(0, 1), (1, 2)]);
    g.close().unwrap();
    let GraphStore { storage } = g;
    let store = storage.into_store();
    let mut bytes = Vec::new();
    for i in 0..store.page_count() {
        bytes.extend_from_slice(store.page_bytes(i));
    }
    let mut g2 = GraphStore::new(StorageManager::from_page_store(PageStore::from_bytes(&bytes)).unwrap());
    assert_eq!(g2.get_node(2).unwrap().label, "N");
    assert_eq!(outgoing(&mut g2, 1), vec![2]);
    assert_eq!(g2.insert_node("M").unwrap(), 3);
}

#[test]
fn same_label_name_gets_the_same_label_id() {
    let mut g = new_graph();
    g.insert_node("Person").unwrap();
    g.insert_node("City").unwrap();
    g.insert_node("Person").unwrap();
    assert_eq!(g.storage.footer.label_pages_count, 2);
    assert_eq!(g.label_id_for(b"Person"), Ok(0));
    assert_eq!(g.label_id_for(b"City"), Ok(1));
    assert_eq!(g.get_node(2).unwrap().label, "Person");
    assert_eq!(g.label_id_for(b"Road"), Ok(2));
    assert_eq!(g.storage.footer.label_pages_count, 3);
}

#[test]
fn node_with_label_matches_the_label_text() {
    let mut g = new_graph();
    g.insert_node("Person").unwrap();
    g.insert_node("City").unwrap();
    let n = g.node_with_label(0, "Person").unwrap().unwrap();
    assert_eq!((n.id, n.label.as_str()), (0, "Person"));
    assert_eq!(g.node_with_label(1, "Person").map(|o| o.is_none()), Ok(true));
    assert_eq!(g.node_with_label(1, "City").unwrap().unwrap().label, "City");
    assert_eq!(g.node_with_label(5, "City").map(|o| o.is_none()), Err(NexoraGraphStoreError::Node(NexoraGraphNodeError::NodeNotFound)));
}

#[test]
fn label_text_reads_a_label_by_id() {
    let mut g = new_graph();
    g.insert_node("Person").unwrap();
    g.insert_node("City").unwrap();
    assert_eq!(g.label_text(1), Ok("City".to_string()));
    assert_eq!(g.label_text(0), Ok("Person".to_string()));
    assert_eq!(g.label_text(4).is_err(), true);
}

#[test]
fn has_path_and_shortest_path_agree_on_every_pair() {
    let mut g = graph_with(5, &[(0, 1), (1, 2), (2, 0), (3, 4)]);
    let mut t = Traversal::new(&mut g);
    for a in 0..5u64 {
        for b in 0..5u64 {
            let h = t.has_path(a, b).unwrap();
            let p = t.shortest_path(a, b).unwrap();
            assert_eq!(h, p.is_some());
        }
    }
    assert_eq!(t.shortest_path(2, 1), Ok(Some(vec![2, 0, 1])));
    assert_eq!(t.has_path(4, 3), Ok(false));
}
