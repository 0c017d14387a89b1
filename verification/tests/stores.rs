use nexora::graph::edge::error::NexoraGraphEdgeError;
use nexora::graph::edge::graph_edge_store::GraphEdgeStore;
use nexora::graph::label::error::NexoraGraphLabelError;
use nexora::graph::label::graph_label_store::LabelStore;
use nexora::graph::node::error::NexoraGraphNodeError;
use nexora::graph::node::graph_node_store::GraphNodeStore;
use nexora::graph::property::error::NexoraGraphPropertyError;
use nexora::graph::property::graph_property_store::PropertyStore;
use nexora::graph::property::page::PropertyPageRecord;
use nexora::graph::record::types::PackedPtr;
use nexora::graph::string::error::NexoraGraphStringError;
use nexora::graph::string::graph_string_store::StringStore;
use nexora::graph::string::page::get_graph_string_page_buffer_size;
use nexora::storage::page_store::PageStore;
use nexora::storage::storage_manager::StorageManager;

fn manager() -> StorageManager {
    StorageManager::from_page_store(PageStore::create()).unwrap()
}

#[test]
fn string_reads_back() {
    let mut m = manager();
    let ptr = StringStore::new(&mut m).insert(b"hello graph").unwrap();
    let mut out = [0u8; 32];
    let n = StringStore::new(&mut m).get(ptr, &mut out).unwrap();
    assert_eq!(&out[..n as usize], b"hello graph");
}

#[test]
fn long_string_spans_chunks_and_reads_back() {
    let mut m = manager();
    let data: Vec<u8> = (0..10_000u32).map(|i| (i % 251) as u8).collect();
    let ptr = StringStore::new(&mut m).insert(&data).unwrap();
    let mut out = vec![0u8; 10_000];
    let n = StringStore::new(&mut m).get(ptr, &mut out).unwrap();
    assert_eq!(n, 10_000);
    assert_eq!(out, data);
}

#[test]
fn several_strings_share_pages() {
    let mut m = manager();
    let a = StringStore::new(&mut m).insert(b"alpha").unwrap();
    let b = StringStore::new(&mut m).insert(b"beta").unwrap();
    assert_eq!(a.page_id(), b.page_id());
    let mut out = [0u8; 8];
    let n = StringStore::new(&mut m).get(b, &mut out).unwrap();
    assert_eq!(&out[..n as usize], b"beta");
    let n = StringStore::new(&mut m).get(a, &mut out).unwrap();
    assert_eq!(&out[..n as usize], b"alpha");
}

#[test]
fn strings_read_back_when_freed_pages_are_reused() {
    let mut m = manager();
    let a = m.allocate_page().unwrap();
    let b = m.allocate_page().unwrap();
    m.free_page(a).unwrap();
    m.free_page(b).unwrap();
    let first: Vec<u8> = (0..9000u32).map(|i| (i % 251) as u8).collect();
    let p1 = StringStore::new(&mut m).insert(&first).unwrap();
    assert_eq!(m.footer.free_pages_count, 0);
    let p2 = StringStore::new(&mut m).insert(b"after the free list ran out").unwrap();
    let mut out = vec![0u8; 9000];
    assert_eq!(StringStore::new(&mut m).get(p1, &mut out), Ok(9000));
    assert_eq!(out, first);
    let mut out = [0u8; 64];
    let n = StringStore::new(&mut m).get(p2, &mut out).unwrap();
    assert_eq!(&out[..n as usize], b"after the free list ran out");
}

#[test]
fn string_errors() {
    let mut m = manager();
    let ptr = StringStore::new(&mut m).insert(b"twelve bytes").unwrap();
    let mut small = [7u8; 4];
    assert_eq!(StringStore::new(&mut m).get(ptr, &mut small), Err(NexoraGraphStringError::BufferTooSmall));
    assert_eq!(small, [7u8; 4]);
    let too_long = vec![0u8; 65_536];
    assert_eq!(StringStore::new(&mut m).insert(&too_long), Err(NexoraGraphStringError::StringTooLong));
    assert_eq!(get_graph_string_page_buffer_size(), 4000);
}

#[test]
fn empty_string_is_the_null_pointer() {
    let mut m = manager();
    let ptr = StringStore::new(&mut m).insert(b"").unwrap();
    assert!(ptr.is_null());
    let mut out = [0u8; 1];
    assert_eq!(StringStore::new(&mut m).get(ptr, &mut out), Ok(0));
}

#[test]
fn labels_get_ids_in_order_and_read_back() {
    let mut m = manager();
    let a = LabelStore::new(&mut m).insert_label(b"Person").unwrap();
    let b = LabelStore::new(&mut m).insert_label(b"City").unwrap();
    assert_eq!((a, b), (0, 1));
    let mut out = [0u8; 16];
    let n = LabelStore::new(&mut m).get_label(1, &mut out).unwrap();
    assert_eq!(&out[..n as usize], b"City");
    let n = LabelStore::new(&mut m).get_label(0, &mut out).unwrap();
    assert_eq!(&out[..n as usize], b"Person");
    assert_eq!(LabelStore::new(&mut m).get_label(7, &mut out), Err(NexoraGraphLabelError::LabelNotFound));
}

#[test]
fn inserting_a_label_name_again_gives_its_id_and_changes_nothing() {
    let mut m = manager();
    let a = LabelStore::new(&mut m).insert_label(b"Person").unwrap();
    let b = LabelStore::new(&mut m).insert_label(b"City").unwrap();
    let count = m.footer.label_pages_count;
    let pages: Vec<Vec<u8>> = (0..m.store.page_count()).map(|i| m.store.page_bytes(i).to_vec()).collect();
    assert_eq!(LabelStore::new(&mut m).insert_label(b"Person"), Ok(a));
    assert_eq!(LabelStore::new(&mut m).insert_label(b"City"), Ok(b));
    assert_eq!(m.footer.label_pages_count, count);
    let after: Vec<Vec<u8>> = (0..m.store.page_count()).map(|i| m.store.page_bytes(i).to_vec()).collect();
    assert_eq!(after, pages);
    assert_eq!(LabelStore::new(&mut m).insert_label(b"Road"), Ok(2));
}

#[test]
fn labels_fill_more_than_one_page() {
    let mut m = manager();
    for i in 0..300u32 {
        let name = format!("L{i}");
        assert_eq!(LabelStore::new(&mut m).insert_label(name.as_bytes()).unwrap(), i);
    }
    let mut out = [0u8; 16];
    let n = LabelStore::new(&mut m).get_label(299, &mut out).unwrap();
    assert_eq!(&out[..n as usize], b"L299");
    let n = LabelStore::new(&mut m).get_label(5, &mut out).unwrap();
    assert_eq!(&out[..n as usize], b"L5");
}

#[test]
fn node_store_updates_and_deletes() {
    let mut m = manager();
    let mut nodes = GraphNodeStore::new(&mut m);
    let id = nodes.insert_node(3, PackedPtr::null()).unwrap();
    assert_eq!(id, 0);
    nodes.update_label(id, 9).unwrap();
    nodes.update_properties(id, PackedPtr::new(5, 2)).unwrap();
    let rec = nodes.get_node(id).unwrap();
    assert_eq!(rec.label_id, 9);
    assert_eq!(rec.properties, PackedPtr::new(5, 2));
    assert!(rec.first_out_edge.is_null());
    nodes.delete_node(id).unwrap();
    assert_eq!(nodes.get_node(id), Err(NexoraGraphNodeError::NodeNotFound));
    assert_eq!(nodes.delete_node(id), Err(NexoraGraphNodeError::NodeNotFound));
    assert_eq!(nodes.update_label(id, 1), Err(NexoraGraphNodeError::NodeNotFound));
    assert_eq!(m.footer.node_count, 0);
    assert_eq!(m.footer.next_node_id, 1);
}

#[test]
fn nodes_and_edges_take_freed_pages_and_read_back() {
    let mut m = manager();
    let a = m.allocate_page().unwrap();
    let b = m.allocate_page().unwrap();
    let c = m.allocate_page().unwrap();
    let d = m.allocate_page().unwrap();
    m.free_page(a).unwrap();
    m.free_page(b).unwrap();
    m.free_page(c).unwrap();
    m.free_page(d).unwrap();
    {
        let mut nodes = GraphNodeStore::new(&mut m);
        assert_eq!(nodes.insert_node(5, PackedPtr::null()), Ok(0));
        assert_eq!(nodes.insert_node(6, PackedPtr::null()), Ok(1));
    }
    assert_eq!(m.footer.free_pages_count, 2);
    let mut edges = GraphEdgeStore::new(&mut m);
    assert_eq!(edges.insert_edge(0, 1, 4, 0), Ok(0));
    let rec = edges.get_edge(0).unwrap();
    assert_eq!((rec.src_node_id(), rec.dst_node_id(), rec.label_id()), (0, 1, 4));
    assert_eq!(m.footer.free_pages_count, 1);
    let mut nodes = GraphNodeStore::new(&mut m);
    assert_eq!(nodes.get_node(0).unwrap().label_id, 5);
    assert_eq!(nodes.get_node(1).unwrap().label_id, 6);
}

#[test]
fn deleted_nodes_are_skipped_by_the_scan() {
    let mut m = manager();
    let mut nodes = GraphNodeStore::new(&mut m);
    for _ in 0..4 {
        nodes.insert_node(0, PackedPtr::null()).unwrap();
    }
    nodes.delete_node(1).unwrap();
    let mut cursor = nodes.scan_cursor().unwrap();
    let mut ids = Vec::new();
    while let Some(rec) = nodes.cursor_next_node(&mut cursor).unwrap() {
        ids.push(rec.node_id);
    }
    assert_eq!(ids, vec![0, 2, 3]);
}

#[test]
fn edge_store_get_update_delete() {
    let mut m = manager();
    {
        let mut nodes = GraphNodeStore::new(&mut m);
        nodes.insert_node(0, PackedPtr::null()).unwrap();
        nodes.insert_node(0, PackedPtr::null()).unwrap();
    }
    let mut edges = GraphEdgeStore::new(&mut m);
    let e0 = edges.insert_edge(0, 1, 4, 2.5f64.to_bits()).unwrap();
    let e1 = edges.insert_edge(1, 0, 4, 0).unwrap();
    assert_eq!((e0, e1), (0, 1));
    let rec = edges.get_edge(e0).unwrap();
    assert_eq!((rec.src_node_id(), rec.dst_node_id(), rec.label_id()), (0, 1, 4));
    assert_eq!(f64::from_bits(rec.weight()), 2.5);
    edges.update_label_and_weight(e0, 8, 7.0f64.to_bits()).unwrap();
    edges.update_edge_properties(e0, PackedPtr::new(9, 3)).unwrap();
    let rec = edges.get_edge(e0).unwrap();
    assert_eq!(rec.label_id(), 8);
    assert_eq!(f64::from_bits(rec.weight()), 7.0);
    assert_eq!(rec.properties(), PackedPtr::new(9, 3));
    edges.delete_edge(e0).unwrap();
    assert_eq!(edges.get_edge(e0), Err(NexoraGraphEdgeError::EdgeNotFound));
    assert_eq!(edges.delete_edge(e0), Err(NexoraGraphEdgeError::EdgeNotFound));
    assert_eq!(edges.get_edge(99), Err(NexoraGraphEdgeError::EdgeNotFound));
    let mut cursor = edges.outgoing_cursor(0).unwrap();
    assert!(edges.cursor_next_outgoing(&mut cursor).unwrap().is_none());
    let mut cursor = edges.outgoing_cursor(1).unwrap();
    assert_eq!(edges.cursor_next_outgoing(&mut cursor).unwrap().unwrap().edge_id(), 1);
    assert_eq!(m.footer.edge_count, 1);
}

#[test]
fn deleting_a_middle_edge_keeps_the_list_linked() {
    let mut m = manager();
    {
        let mut nodes = GraphNodeStore::new(&mut m);
        for _ in 0..4 {
            nodes.insert_node(0, PackedPtr::null()).unwrap();
        }
    }
    let mut edges = GraphEdgeStore::new(&mut m);
    edges.insert_edge(0, 1, 0, 0).unwrap();
    edges.insert_edge(0, 2, 0, 0).unwrap();
    edges.insert_edge(0, 3, 0, 0).unwrap();
    edges.delete_edge(1).unwrap();
    let mut cursor = edges.outgoing_cursor(0).unwrap();
    let mut dsts = Vec::new();
    while let Some(e) = edges.cursor_next_outgoing(&mut cursor).unwrap() {
        dsts.push(e.dst_node_id());
    }
    assert_eq!(dsts, vec![3, 1]);
}

#[test]
fn property_records_read_back_and_update() {
    let mut m = manager();
    let mut props = PropertyStore::new(&mut m);
    let k = PackedPtr::new(10, 1);
    let v = PackedPtr::new(11, 2);
    let p = props.insert(k, v).unwrap();
    assert_eq!(
        props.get(p).unwrap(),
        PropertyPageRecord { key: k, value: v, next: PackedPtr::null(), flags: 0 }
    );
    let q = props.insert_chained(v, k, p).unwrap();
    assert_eq!(props.get(q).unwrap().next, p);
    props.update_value(p, PackedPtr::new(12, 0)).unwrap();
    props.update_next(p, q).unwrap();
    let rec = props.get(p).unwrap();
    assert_eq!((rec.value, rec.next), (PackedPtr::new(12, 0), q));
    props.delete(p).unwrap();
    assert_eq!(props.get(p), Err(NexoraGraphPropertyError::RecordNotFound));
    assert!(props.get(q).is_ok());
}

#[test]
fn freed_property_slot_is_reused() {
    let mut m = manager();
    let mut props = PropertyStore::new(&mut m);
    let a = props.insert(PackedPtr::new(1, 0), PackedPtr::new(2, 0)).unwrap();
    let b = props.insert(PackedPtr::new(3, 0), PackedPtr::new(4, 0)).unwrap();
    props.delete(a).unwrap();
    let c = props.insert(PackedPtr::new(5, 0), PackedPtr::new(6, 0)).unwrap();
    assert_eq!(c, a);
    assert_ne!(b, a);
}

#[test]
fn nodes_read_back_across_page_boundaries_with_pages_freed_between_inserts() {
    let mut m = manager();
    let a = m.allocate_page().unwrap();
    let x = m.allocate_page().unwrap();
    m.free_page(a).unwrap();
    {
        let mut nodes = GraphNodeStore::new(&mut m);
        for i in 0..50u32 {
            assert_eq!(nodes.insert_node(i, PackedPtr::null()), Ok(i as u64));
        }
    }
    // the first node page came off the free list
    assert_eq!(m.footer.first_node_page, a.as_u64());
    assert_eq!(m.footer.free_pages_count, 0);
    m.free_page(x).unwrap();
    {
        let mut nodes = GraphNodeStore::new(&mut m);
        for i in 50..250u32 {
            assert_eq!(nodes.insert_node(i, PackedPtr::null()), Ok(i as u64));
        }
    }
    // the second node page took the page freed between the inserts
    assert_eq!(m.footer.free_pages_count, 0);
    let mut nodes = GraphNodeStore::new(&mut m);
    for i in 0..250u64 {
        let rec = nodes.get_node(i).unwrap();
        assert_eq!((rec.node_id, rec.label_id), (i, i as u32));
    }
    assert_eq!(nodes.get_node(250), Err(NexoraGraphNodeError::NodeNotFound));
}

#[test]
fn labels_stay_in_order_over_many_inserts() {
    let mut m = manager();
    for i in 0..300u32 {
        let name = format!("name-{i}");
        assert_eq!(LabelStore::new(&mut m).insert_label(name.as_bytes()), Ok(i));
        // an earlier name, and the one just added, still give their ids
        if i % 50 == 0 || i == 253 {
            for j in [0, i / 2, i] {
                let earlier = format!("name-{j}");
                assert_eq!(LabelStore::new(&mut m).insert_label(earlier.as_bytes()), Ok(j));
            }
        }
    }
    assert_eq!(m.footer.label_pages_count, 300);
    let mut out = [0u8; 16];
    for i in [0u32, 252, 253, 254, 299] {
        let n = LabelStore::new(&mut m).get_label(i, &mut out).unwrap();
        assert_eq!(&out[..n as usize], format!("name-{i}").as_bytes());
    }
}
