//! Walks over the graph along outgoing edges.
//!
//! The graph seen by a walk is the one the pages describe: node `a` has an
//! edge to `b` when walking the outgoing list of `a` from its head reads an
//! edge to `b`. A list that cannot be read to its end (a page that fails its
//! checksum, a node that does not exist, a list that loops) stops the walk
//! that needs it with that error.
use vstd::prelude::*;
use vstd::set_lib::lemma_len_subset;
use vstd::utf8::{valid_utf8, decode_utf8};
use std::collections::{HashMap, HashSet, VecDeque};

use crate::storage::error::NexoraStorageError;
use crate::storage::models::NexoraFooter;
use crate::graph::edge::constants::MAX_EDGE_RECORD_COUNT;
use crate::graph::edge::error::NexoraGraphEdgeError;
use crate::graph::edge::graph_edge_store::{edge_chain_fuel, node_list_head, spec_next_in_list};
use crate::graph::graphstore::error::NexoraGraphStoreError;
use crate::graph::graphstore::graphstore::{GraphStore, spec_node_label_bytes};
use crate::graph::models::Node;
use crate::graph::record::types::{PackedPtr, RecordCursor, ptr_is_null, ptr_page_id};

verus! {

/// Walking an outgoing list from `ptr`: the destinations read, in list
/// order, and the error that stops the walk (none when it reaches the end).
pub open spec fn list_prefix(pages: Seq<Seq<u8>>, ptr: PackedPtr, fuel: nat) -> (Seq<u64>, Option<NexoraGraphStoreError>)
    decreases fuel,
{
    if ptr_is_null(ptr) {
        (Seq::empty(), None)
    } else if fuel == 0 {
        (Seq::empty(), Some(NexoraGraphStoreError::Edge(NexoraGraphEdgeError::Storage(NexoraStorageError::CorruptPage(ptr_page_id(ptr))))))
    } else {
        let st = spec_next_in_list(pages, ptr, true);
        match st.0 {
            Err(e) => (Seq::empty(), Some(NexoraGraphStoreError::Edge(e))),
            Ok(None) => (Seq::empty(), None),
            Ok(Some(edge)) => {
                let rest = list_prefix(pages, st.1, (fuel - 1) as nat);
                (seq![edge.dst_node_id] + rest.0, rest.1)
            },
        }
    }
}

/// The outgoing list of node `n`: the destinations read and the error that
/// stops the walk, if any.
pub open spec fn out_list(pages: Seq<Seq<u8>>, f: NexoraFooter, n: u64) -> (Seq<u64>, Option<NexoraGraphStoreError>) {
    match node_list_head(pages, f, n, true) {
        Err(e) => (Seq::empty(), Some(NexoraGraphStoreError::Edge(e))),
        Ok(h) => list_prefix(pages, h, edge_chain_fuel(pages.len())),
    }
}

/// Node `a` has an edge to `b`.
pub open spec fn edge_to(pages: Seq<Seq<u8>>, f: NexoraFooter, a: u64, b: u64) -> bool {
    out_list(pages, f, a).0.contains(b)
}

/// The outgoing list of `a` reads to its end.
pub open spec fn list_ok(pages: Seq<Seq<u8>>, f: NexoraFooter, a: u64) -> bool {
    out_list(pages, f, a).1 is None
}

/// `p` is a path: consecutive nodes are joined by edges.
pub open spec fn is_path(pages: Seq<Seq<u8>>, f: NexoraFooter, p: Seq<u64>) -> bool {
    &&& p.len() >= 1
    &&& forall|i: int| 0 <= i < p.len() - 1 ==> #[trigger] edge_to(pages, f, p[i], p[i + 1])
}

/// There is a path from `a` to `b`.
pub open spec fn reachable(pages: Seq<Seq<u8>>, f: NexoraFooter, a: u64, b: u64) -> bool {
    exists|p: Seq<u64>| #[trigger] is_path(pages, f, p) && p[0] == a && p.last() == b
}

/// A path followed by an edge out of its last node is a path.
pub proof fn lemma_path_extend(pages: Seq<Seq<u8>>, f: NexoraFooter, p: Seq<u64>, b: u64)
    requires
        is_path(pages, f, p),
        edge_to(pages, f, p.last(), b),
    ensures
        is_path(pages, f, p.push(b)),
        p.push(b)[0] == p[0],
        p.push(b).last() == b,
{
    let q = p.push(b);
    assert forall|i: int| 0 <= i < q.len() - 1 implies #[trigger] edge_to(pages, f, q[i], q[i + 1]) by {
        if i < p.len() - 1 {
            assert(q[i] == p[i] && q[i + 1] == p[i + 1]);
        } else {
            assert(q[i] == p.last() && q[i + 1] == b);
        }
    }
}

/// A set that holds the start of a path and is closed under edges holds the
/// whole path.
proof fn lemma_closed_holds_path(pages: Seq<Seq<u8>>, f: NexoraFooter, vis: Set<u64>, p: Seq<u64>, k: int)
    requires
        is_path(pages, f, p),
        0 <= k < p.len(),
        vis.contains(p[0]),
        forall|v: u64, b: u64| vis.contains(v) && #[trigger] edge_to(pages, f, v, b) ==> vis.contains(b),
    ensures
        vis.contains(p[k]),
    decreases k,
{
    if k > 0 {
        lemma_closed_holds_path(pages, f, vis, p, k - 1);
        let i = k - 1;
        assert(edge_to(pages, f, p[i], p[i + 1]));
    }
}

/// Parents found by a breadth-first search from `src`: every node but `src`
/// with a parent is one edge further from `src` than its parent.
pub open spec fn parent_tree(pages: Seq<Seq<u8>>, f: NexoraFooter, src: u64, pred: Map<u64, u64>, rank: Map<u64, nat>) -> bool {
    &&& !pred.contains_key(src)
    &&& rank.contains_key(src)
    &&& rank[src] == 0
    &&& forall|v: u64| #[trigger] pred.contains_key(v) ==> {
        &&& rank.contains_key(v)
        &&& rank.contains_key(pred[v])
        &&& rank[pred[v]] + 1 == rank[v]
        &&& edge_to(pages, f, pred[v], v)
        &&& (pred[v] == src || pred.contains_key(pred[v]))
    }
}

/// In a breadth-first search, a node on a path from `src` that is no further
/// along than the current level has been reached, no deeper than its place
/// on the path.
proof fn lemma_bfs_layers(
    pages: Seq<Seq<u8>>,
    f: NexoraFooter,
    vis: Set<u64>,
    rank: Map<u64, nat>,
    done: Set<u64>,
    r0: nat,
    q: Seq<u64>,
    i: int,
)
    requires
        is_path(pages, f, q),
        vis.contains(q[0]),
        rank.contains_key(q[0]),
        rank[q[0]] == 0,
        forall|v: u64| vis.contains(v) ==> rank.contains_key(v),
        forall|v: u64| #[trigger] vis.contains(v) && rank[v] < r0 ==> done.contains(v),
        forall|v: u64, b: u64| done.contains(v) && #[trigger] edge_to(pages, f, v, b) ==> vis.contains(b) && rank[b] <= rank[v] + 1,
        0 <= i < q.len(),
        i <= r0,
    ensures
        vis.contains(q[i]),
        rank[q[i]] <= i,
    decreases i,
{
    if i > 0 {
        lemma_bfs_layers(pages, f, vis, rank, done, r0, q, i - 1);
        let j = i - 1;
        assert(edge_to(pages, f, q[j], q[j + 1]));
        assert(vis.contains(q[j]));
    }
}

/// The reverse of a sequence, built with a loop.
fn reversed(v: &Vec<u64>) -> (r: Vec<u64>)
    ensures
        r@ == v@.reverse(),
{
    let mut r: Vec<u64> = Vec::new();
    let mut i: usize = v.len();
    while i > 0
        invariant
            i <= v@.len(),
            r@.len() == v@.len() - i,
            forall|j: int| 0 <= j < r@.len() ==> #[trigger] r@[j] == v@[v@.len() - 1 - j],
        decreases i,
    {
        i = i - 1;
        r.push(v[i]);
    }
    assert(r@ =~= v@.reverse());
    r
}

/// The bound on a walk along one outgoing list.
fn list_fuel(store: &GraphStore) -> (r: u64)
    ensures
        r == edge_chain_fuel(store.storage.store@.len()),
{
    let n: u64 = store.storage.store.page_count() as u64;
    match n.checked_mul(MAX_EDGE_RECORD_COUNT as u64) {
        Some(v) => v,
        None => u64::MAX,
    }
}

/// What `has_path` answers on a store: `true` from a node to itself; where
/// every adjacency list reachable from `src` reads, whether `dst` is
/// reachable; the error of `src`'s own list when it does not read; and in
/// any case no answer that contradicts reachability, and an error only when
/// some reachable list does not read.
pub open spec fn has_path_answer(pages: Seq<Seq<u8>>, f: NexoraFooter, src: u64, dst: u64, r: Result<bool, NexoraGraphStoreError>) -> bool {
    &&& src == dst ==> r == Ok::<bool, NexoraGraphStoreError>(true)
    &&& (forall|n: u64| reachable(pages, f, src, n) ==> #[trigger] list_ok(pages, f, n))
        ==> r == Ok::<bool, NexoraGraphStoreError>(reachable(pages, f, src, dst))
    &&& src != dst && node_list_head(pages, f, src, true) is Err
        ==> r == Err::<bool, NexoraGraphStoreError>(NexoraGraphStoreError::Edge(node_list_head(pages, f, src, true)->Err_0))
    &&& r == Ok::<bool, NexoraGraphStoreError>(true) ==> reachable(pages, f, src, dst)
    &&& r == Ok::<bool, NexoraGraphStoreError>(false) ==> !reachable(pages, f, src, dst)
    &&& r is Err ==> exists|n: u64| reachable(pages, f, src, n) && !list_ok(pages, f, n)
}

/// A path result with the path taken by its view.
pub open spec fn path_view(r: Result<Option<Vec<u64>>, NexoraGraphStoreError>) -> Result<Option<Seq<u64>>, NexoraGraphStoreError> {
    match r {
        Ok(Some(p)) => Ok(Some(p@)),
        Ok(None) => Ok(None),
        Err(e) => Err(e),
    }
}

/// What `shortest_path` answers on a store: a path from `src` to `dst` no
/// longer than any other, just `src` from a node to itself; where every
/// adjacency list reachable from `src` reads, a path exactly when `dst` is
/// reachable; the error of `src`'s own list when it does not read; and an
/// error only when some reachable list does not read.
pub open spec fn shortest_path_answer(
    pages: Seq<Seq<u8>>,
    f: NexoraFooter,
    src: u64,
    dst: u64,
    r: Result<Option<Seq<u64>>, NexoraGraphStoreError>,
) -> bool {
    &&& r matches Ok(Some(p)) ==> {
        &&& is_path(pages, f, p)
        &&& p[0] == src
        &&& p.last() == dst
        &&& forall|q: Seq<u64>| #[trigger] is_path(pages, f, q) && q[0] == src && q.last() == dst ==> p.len() <= q.len()
    }
    &&& src == dst ==> (r matches Ok(Some(p)) && p == seq![src])
    &&& (forall|n: u64| reachable(pages, f, src, n) ==> #[trigger] list_ok(pages, f, n))
        ==> (r matches Ok(o) && (o is Some <==> reachable(pages, f, src, dst)))
    &&& src != dst && node_list_head(pages, f, src, true) is Err
        ==> (r matches Err(e) && e == NexoraGraphStoreError::Edge(node_list_head(pages, f, src, true)->Err_0))
    &&& r matches Ok(None) ==> !reachable(pages, f, src, dst)
    &&& r is Err ==> exists|n: u64| reachable(pages, f, src, n) && !list_ok(pages, f, n)
}

/// `has_path` and `shortest_path` agree on one store: where every adjacency
/// list reachable from `src` reads, both answer, and a path is found exactly
/// when `has_path` answers `true`; neither contradicts the other; and where
/// the list of `src` does not read, both give its error.
pub proof fn lemma_has_path_agrees_with_shortest_path(
    pages: Seq<Seq<u8>>,
    f: NexoraFooter,
    src: u64,
    dst: u64,
    h: Result<bool, NexoraGraphStoreError>,
    sp: Result<Option<Seq<u64>>, NexoraGraphStoreError>,
)
    requires
        has_path_answer(pages, f, src, dst, h),
        shortest_path_answer(pages, f, src, dst, sp),
    ensures
        (forall|n: u64| reachable(pages, f, src, n) ==> #[trigger] list_ok(pages, f, n))
            ==> h is Ok && sp is Ok && (h == Ok::<bool, NexoraGraphStoreError>(true) <==> sp matches Ok(Some(_))),
        h == Ok::<bool, NexoraGraphStoreError>(true) ==> sp != Ok::<Option<Seq<u64>>, NexoraGraphStoreError>(None),
        h == Ok::<bool, NexoraGraphStoreError>(false) ==> !(sp matches Ok(Some(_))),
        src != dst && node_list_head(pages, f, src, true) is Err ==> h is Err && sp is Err && h->Err_0 == sp->Err_0,
{
    if let Ok(Some(p)) = sp {
        assert(is_path(pages, f, p) && p[0] == src && p.last() == dst);
        assert(reachable(pages, f, src, dst));
    }
}


pub struct Traversal<'a> {
    pub store: &'a mut GraphStore,
}

impl<'a> Traversal<'a> {
    /// The graph store as it stands now.
    pub open spec fn gs(&self) -> GraphStore {
        *self.store
    }

    pub fn new(store: &'a mut GraphStore) -> (r: Self)
        ensures
            *r.store == *old(store),
            *final(r.store) == *final(store),
    {
        Traversal { store }
    }

    /// Whether `dst` can be reached from `src` along outgoing edges, by a
    /// breadth-first search from `src`.
    pub fn has_path(&mut self, src: u64, dst: u64) -> (r: Result<bool, NexoraGraphStoreError>)
        requires
            old(self).gs().storage.inv(),
        ensures
            final(self).gs().storage == old(self).gs().storage,
            *final(final(self).store) == *final(old(self).store),
            has_path_answer(old(self).gs().storage.store@, old(self).gs().storage.footer, src, dst, r),
    {
        let ghost pages = self.store.storage.store@;
        let ghost f = self.store.storage.footer;
        let ghost st0 = self.store.storage;
        if src == dst {
            proof {
                assert(is_path(pages, f, seq![src]));
            }
            return Ok(true);
        }
        let fuel0 = list_fuel(self.store);
        let mut visited: HashSet<u64> = HashSet::new();
        let mut queue: VecDeque<u64> = VecDeque::new();
        let ghost mut paths: Map<u64, Seq<u64>> = Map::empty().insert(src, seq![src]);
        visited.insert(src);
        queue.push_back(src);
        proof {
            assert(is_path(pages, f, seq![src]));
            lemma_len_subset(visited@, Set::<u64>::full());
            assert(queue@[0] == src);
        }
        loop
            invariant
                self.gs().storage == st0,
                st0 == old(self).gs().storage,
                st0.inv(),
                pages == st0.store@,
                f == st0.footer,
                *final(self.store) == *final(old(self).store),
                fuel0 == edge_chain_fuel(pages.len()),
                src != dst,
                node_list_head(pages, f, src, true) is Err ==> queue@ == seq![src],
                visited@.finite(),
                visited@.len() <= Set::<u64>::full().len(),
                visited@.contains(src),
                !visited@.contains(dst),
                queue@.no_duplicates(),
                forall|i: int| 0 <= i < queue@.len() ==> visited@.contains(#[trigger] queue@[i]),
                forall|v: u64| #[trigger] visited@.contains(v) ==> paths.contains_key(v) && is_path(pages, f, paths[v])
                    && paths[v][0] == src && paths[v].last() == v,
                forall|v: u64| #[trigger] visited@.contains(v) && !queue@.contains(v) ==> list_ok(pages, f, v)
                    && forall|b: u64| #[trigger] edge_to(pages, f, v, b) ==> visited@.contains(b),
            decreases Set::<u64>::full().len() - visited@.len(), queue@.len(),
        {
            let ghost v_start = visited@;
            let ghost q_start = queue@;
            let node_id = match queue.pop_front() {
                Some(n) => n,
                None => {
                    proof {
                        assert forall|v: u64, b: u64| visited@.contains(v) && #[trigger] edge_to(pages, f, v, b) implies visited@.contains(b) by {
                            assert(!queue@.contains(v));
                        }
                        assert forall|p: Seq<u64>| #[trigger] is_path(pages, f, p) && p[0] == src implies p.last() != dst by {
                            lemma_closed_holds_path(pages, f, visited@, p, p.len() - 1);
                        }
                    }
                    return Ok(false);
                },
            };
            let ghost q_rest = queue@;
            proof {
                assert forall|v: u64| q_start.contains(v) implies v == node_id || q_rest.contains(v) by {
                    let j = choose|j: int| 0 <= j < q_start.len() && q_start[j] == v;
                    if j > 0 {
                        assert(q_rest[j - 1] == v);
                    }
                }
                assert(q_start[0] == node_id);
                assert(!q_rest.contains(node_id)) by {
                    if q_rest.contains(node_id) {
                        let j = choose|j: int| 0 <= j < q_rest.len() && q_rest[j] == node_id;
                        assert(q_start[j + 1] == node_id);
                    }
                }
                assert(visited@.contains(node_id));
            }
            let mut cursor = match self.store.outgoing_cursor(node_id) {
                Ok(c) => c,
                Err(e) => {
                    proof {
                        assert(!list_ok(pages, f, node_id));
                        assert(is_path(pages, f, paths[node_id]));
                    }
                    return Err(e);
                },
            };
            let ghost head = cursor.next_ptr;
            let mut lf = fuel0;
            let ghost mut seen: Seq<u64> = Seq::empty();
            let ghost mut added: nat = 0;
            while !cursor.is_done()
                invariant
                    self.gs().storage == st0,
                    st0 == old(self).gs().storage,
                    st0.inv(),
                    pages == st0.store@,
                    f == st0.footer,
                    *final(self.store) == *final(old(self).store),
                    src != dst,
                    node_list_head(pages, f, node_id, true) == Ok::<PackedPtr, NexoraGraphEdgeError>(head),
                    node_list_head(pages, f, src, true) is Ok,
                    ({
                        let a = list_prefix(pages, head, edge_chain_fuel(pages.len()));
                        let b = list_prefix(pages, cursor.next_ptr, lf as nat);
                        a.0 == seen + b.0 && a.1 == b.1
                    }),
                    forall|i: int| 0 <= i < seen.len() ==> visited@.contains(#[trigger] seen[i]),
                    visited@.finite(),
                    visited@.len() <= Set::<u64>::full().len(),
                    v_start.subset_of(visited@),
                    visited@.len() == v_start.len() + added,
                    queue@.len() == q_rest.len() + added,
                    visited@.contains(src),
                    visited@.contains(node_id),
                    !visited@.contains(dst),
                    queue@.no_duplicates(),
                    !queue@.contains(node_id),
                    forall|i: int| 0 <= i < queue@.len() ==> visited@.contains(#[trigger] queue@[i]),
                    forall|v: u64| #[trigger] visited@.contains(v) ==> paths.contains_key(v) && is_path(pages, f, paths[v])
                        && paths[v][0] == src && paths[v].last() == v,
                    forall|v: u64| #[trigger] visited@.contains(v) && !queue@.contains(v) && v != node_id ==> list_ok(pages, f, v)
                        && forall|b: u64| #[trigger] edge_to(pages, f, v, b) ==> visited@.contains(b),
                decreases lf,
            {
                if lf == 0 {
                    proof {
                        assert(!list_ok(pages, f, node_id));
                    }
                    return Err(NexoraGraphStoreError::Edge(NexoraGraphEdgeError::Storage(NexoraStorageError::CorruptPage(cursor.ptr().page_id()))));
                }
                let ghost before = cursor.next_ptr;
                match self.store.next_outgoing(&mut cursor) {
                    Err(e) => {
                        proof {
                            assert(!list_ok(pages, f, node_id));
                        }
                        return Err(e);
                    },
                    Ok(None) => {},
                    Ok(Some(edge)) => {
                        let d = edge.dst_node_id;
                        proof {
                            let rest = list_prefix(pages, cursor.next_ptr, (lf - 1) as nat);
                            assert(list_prefix(pages, before, lf as nat).0 == seq![d] + rest.0);
                            assert(seen + (seq![d] + rest.0) =~= seen.push(d) + rest.0);
                            assert(edge_to(pages, f, node_id, d)) by {
                                assert(out_list(pages, f, node_id).0[seen.len() as int] == d);
                            }
                        }
                        if d == dst {
                            proof {
                                lemma_path_extend(pages, f, paths[node_id], dst);
                            }
                            return Ok(true);
                        }
                        let ghost old_q = queue@;
                        if visited.insert(d) {
                            proof {
                                lemma_path_extend(pages, f, paths[node_id], d);
                                paths = paths.insert(d, paths[node_id].push(d));
                                lemma_len_subset(visited@, Set::<u64>::full());
                                added = added + 1;
                            }
                            queue.push_back(d);
                            proof {
                                assert(queue@ == old_q.push(d));
                                assert forall|v: u64| old_q.contains(v) implies queue@.contains(v) by {
                                    let j = choose|j: int| 0 <= j < old_q.len() && old_q[j] == v;
                                    assert(queue@[j] == v);
                                }
                                assert(queue@.contains(d)) by {
                                    assert(queue@[queue@.len() - 1] == d);
                                }
                                assert(queue@.no_duplicates()) by {
                                    assert forall|i: int, j: int| 0 <= i < j < queue@.len() implies queue@[i] != queue@[j] by {
                                        if j == queue@.len() - 1 {
                                            assert(visited@.contains(old_q[i]));
                                        }
                                    }
                                }
                            }
                        }
                        proof {
                            seen = seen.push(d);
                        }
                    },
                }
                lf = lf - 1;
            }
            proof {
                assert(list_prefix(pages, cursor.next_ptr, lf as nat) == (Seq::<u64>::empty(), None::<NexoraGraphStoreError>));
                assert(seen + Seq::<u64>::empty() =~= seen);
                assert(list_ok(pages, f, node_id));
                assert forall|b: u64| #[trigger] edge_to(pages, f, node_id, b) implies visited@.contains(b) by {
                    let j = choose|j: int| 0 <= j < seen.len() && seen[j] == b;
                    assert(visited@.contains(seen[j]));
                }
                lemma_len_subset(visited@, Set::<u64>::full());
            }
        }
    }

    /// A breadth-first search from `src` that records the node each reached
    /// node was first reached from, and stops once `dst` is reached.
    fn bfs_parents(&mut self, src: u64, dst: u64) -> (r: Result<(bool, HashMap<u64, u64>, Ghost<Map<u64, nat>>), NexoraGraphStoreError>)
        requires
            old(self).gs().storage.inv(),
            src != dst,
        ensures
            final(self).gs().storage == old(self).gs().storage,
            *final(final(self).store) == *final(old(self).store),
            ({
                let pages = old(self).gs().storage.store@;
                let f = old(self).gs().storage.footer;
                &&& match r {
                    Ok((found, pred, rank)) => {
                        &&& parent_tree(pages, f, src, pred@, rank@)
                        &&& found ==> pred@.contains_key(dst) && forall|q: Seq<u64>|
                            #[trigger] is_path(pages, f, q) && q[0] == src && q.last() == dst ==> rank@[dst] + 1 <= q.len()
                        &&& !found ==> !pred@.contains_key(dst) && !reachable(pages, f, src, dst)
                    },
                    Err(e) => {
                        &&& exists|n: u64| reachable(pages, f, src, n) && !list_ok(pages, f, n)
                        &&& node_list_head(pages, f, src, true) is Err
                            ==> e == NexoraGraphStoreError::Edge(node_list_head(pages, f, src, true)->Err_0)
                    },
                }
                &&& node_list_head(pages, f, src, true) is Err ==> r is Err
            }),
    {
        let ghost pages = self.store.storage.store@;
        let ghost f = self.store.storage.footer;
        let ghost st0 = self.store.storage;
        let fuel0 = list_fuel(self.store);
        let mut visited: HashSet<u64> = HashSet::new();
        let mut pred: HashMap<u64, u64> = HashMap::new();
        let mut queue: VecDeque<u64> = VecDeque::new();
        let ghost mut paths: Map<u64, Seq<u64>> = Map::empty().insert(src, seq![src]);
        let ghost mut rank: Map<u64, nat> = Map::empty().insert(src, 0nat);
        let ghost mut lvl: nat = 0;
        visited.insert(src);
        queue.push_back(src);
        proof {
            assert(is_path(pages, f, seq![src]));
            lemma_len_subset(visited@, Set::<u64>::full());
            assert(queue@[0] == src);
        }
        loop
            invariant
                self.gs().storage == st0,
                st0 == old(self).gs().storage,
                st0.inv(),
                pages == st0.store@,
                f == st0.footer,
                *final(self.store) == *final(old(self).store),
                fuel0 == edge_chain_fuel(pages.len()),
                src != dst,
                node_list_head(pages, f, src, true) is Err ==> queue@ == seq![src],
                visited@.finite(),
                visited@.len() <= Set::<u64>::full().len(),
                visited@.contains(src),
                !visited@.contains(dst),
                forall|v: u64| #[trigger] visited@.contains(v) ==> rank.contains_key(v) && rank[v] <= lvl + 1,
                rank.contains_key(src),
                rank[src] == 0,
                forall|v: u64| #[trigger] pred@.contains_key(v) <==> (visited@.contains(v) && v != src),
                forall|v: u64| #[trigger] pred@.contains_key(v) ==> visited@.contains(pred@[v]) && rank[pred@[v]] + 1 == rank[v]
                    && edge_to(pages, f, pred@[v], v),
                queue@.no_duplicates(),
                forall|i: int| 0 <= i < queue@.len() ==> visited@.contains(#[trigger] queue@[i]) && lvl <= rank[queue@[i]],
                forall|i: int, j: int| 0 <= i < j < queue@.len() ==> rank[#[trigger] queue@[i]] <= rank[#[trigger] queue@[j]],
                forall|v: u64| #[trigger] visited@.contains(v) ==> paths.contains_key(v) && is_path(pages, f, paths[v])
                    && paths[v][0] == src && paths[v].last() == v,
                forall|v: u64| #[trigger] visited@.contains(v) && !queue@.contains(v) ==> list_ok(pages, f, v) && rank[v] <= lvl
                    && forall|b: u64| #[trigger] edge_to(pages, f, v, b) ==> visited@.contains(b) && rank[b] <= rank[v] + 1,
            decreases Set::<u64>::full().len() - visited@.len(), queue@.len(),
        {
            let ghost v_start = visited@;
            let ghost q_start = queue@;
            let node_id = match queue.pop_front() {
                Some(n) => n,
                None => {
                    proof {
                        assert forall|v: u64, b: u64| visited@.contains(v) && #[trigger] edge_to(pages, f, v, b) implies visited@.contains(b) by {
                            assert(!queue@.contains(v));
                        }
                        assert forall|q: Seq<u64>| #[trigger] is_path(pages, f, q) && q[0] == src implies q.last() != dst by {
                            lemma_closed_holds_path(pages, f, visited@, q, q.len() - 1);
                        }
                    }
                    return Ok((false, pred, Ghost(rank)));
                },
            };
            let ghost q_rest = queue@;
            proof {
                assert forall|v: u64| q_start.contains(v) implies v == node_id || q_rest.contains(v) by {
                    let j = choose|j: int| 0 <= j < q_start.len() && q_start[j] == v;
                    if j > 0 {
                        assert(q_rest[j - 1] == v);
                    }
                }
                assert(q_start[0] == node_id);
                assert(!q_rest.contains(node_id)) by {
                    if q_rest.contains(node_id) {
                        let j = choose|j: int| 0 <= j < q_rest.len() && q_rest[j] == node_id;
                        assert(q_start[j + 1] == node_id);
                    }
                }
                assert(visited@.contains(node_id));
                assert forall|i: int| 0 <= i < q_rest.len() implies rank[node_id] <= rank[#[trigger] q_rest[i]] by {
                    assert(q_rest[i] == q_start[i + 1]);
                }
                lvl = rank[node_id];
            }
            let mut cursor = match self.store.outgoing_cursor(node_id) {
                Ok(c) => c,
                Err(e) => {
                    proof {
                        assert(!list_ok(pages, f, node_id));
                        assert(is_path(pages, f, paths[node_id]));
                    }
                    return Err(e);
                },
            };
            let ghost head = cursor.next_ptr;
            let mut lf = fuel0;
            let ghost mut seen: Seq<u64> = Seq::empty();
            let ghost mut added: nat = 0;
            while !cursor.is_done()
                invariant
                    self.gs().storage == st0,
                    st0 == old(self).gs().storage,
                    st0.inv(),
                    pages == st0.store@,
                    f == st0.footer,
                    *final(self.store) == *final(old(self).store),
                    src != dst,
                    node_list_head(pages, f, node_id, true) == Ok::<PackedPtr, NexoraGraphEdgeError>(head),
                    node_list_head(pages, f, src, true) is Ok,
                    ({
                        let a = list_prefix(pages, head, edge_chain_fuel(pages.len()));
                        let b = list_prefix(pages, cursor.next_ptr, lf as nat);
                        a.0 == seen + b.0 && a.1 == b.1
                    }),
                    forall|i: int| 0 <= i < seen.len() ==> visited@.contains(#[trigger] seen[i]),
                    visited@.finite(),
                    visited@.len() <= Set::<u64>::full().len(),
                    v_start.subset_of(visited@),
                    visited@.len() == v_start.len() + added,
                    queue@.len() == q_rest.len() + added,
                    visited@.contains(src),
                    visited@.contains(node_id),
                    !visited@.contains(dst),
                    lvl == rank[node_id],
                    forall|v: u64| #[trigger] visited@.contains(v) ==> rank.contains_key(v) && rank[v] <= lvl + 1,
                    rank.contains_key(src),
                    rank[src] == 0,
                    forall|v: u64| #[trigger] pred@.contains_key(v) <==> (visited@.contains(v) && v != src),
                    forall|v: u64| #[trigger] pred@.contains_key(v) ==> visited@.contains(pred@[v]) && rank[pred@[v]] + 1 == rank[v]
                        && edge_to(pages, f, pred@[v], v),
                    queue@.no_duplicates(),
                    !queue@.contains(node_id),
                    forall|i: int| 0 <= i < queue@.len() ==> visited@.contains(#[trigger] queue@[i]) && lvl <= rank[queue@[i]],
                    forall|i: int, j: int| 0 <= i < j < queue@.len() ==> rank[#[trigger] queue@[i]] <= rank[#[trigger] queue@[j]],
                    forall|v: u64| #[trigger] visited@.contains(v) ==> paths.contains_key(v) && is_path(pages, f, paths[v])
                        && paths[v][0] == src && paths[v].last() == v,
                    forall|v: u64| #[trigger] visited@.contains(v) && !queue@.contains(v) && v != node_id ==> list_ok(pages, f, v)
                        && rank[v] <= lvl && forall|b: u64| #[trigger] edge_to(pages, f, v, b) ==> visited@.contains(b) && rank[b] <= rank[v] + 1,
                decreases lf,
            {
                if lf == 0 {
                    proof {
                        assert(!list_ok(pages, f, node_id));
                    }
                    return Err(NexoraGraphStoreError::Edge(NexoraGraphEdgeError::Storage(NexoraStorageError::CorruptPage(cursor.ptr().page_id()))));
                }
                let ghost before = cursor.next_ptr;
                match self.store.next_outgoing(&mut cursor) {
                    Err(e) => {
                        proof {
                            assert(!list_ok(pages, f, node_id));
                        }
                        return Err(e);
                    },
                    Ok(None) => {},
                    Ok(Some(edge)) => {
                        let d = edge.dst_node_id;
                        proof {
                            let rest = list_prefix(pages, cursor.next_ptr, (lf - 1) as nat);
                            assert(list_prefix(pages, before, lf as nat).0 == seq![d] + rest.0);
                            assert(seen + (seq![d] + rest.0) =~= seen.push(d) + rest.0);
                            assert(edge_to(pages, f, node_id, d)) by {
                                assert(out_list(pages, f, node_id).0[seen.len() as int] == d);
                            }
                        }
                        let ghost old_q = queue@;
                        let ghost old_vis = visited@;
                        let ghost old_rank = rank;
                        if visited.insert(d) {
                            pred.insert(d, node_id);
                            proof {
                                lemma_path_extend(pages, f, paths[node_id], d);
                                paths = paths.insert(d, paths[node_id].push(d));
                                rank = rank.insert(d, lvl + 1);
                                lemma_len_subset(visited@, Set::<u64>::full());
                                added = added + 1;
                            }
                            if d == dst {
                                proof {
                                    let done = Set::new(|v: u64| old_vis.contains(v) && !old_q.contains(v) && v != node_id);
                                    assert forall|v: u64| #[trigger] old_vis.contains(v) && old_rank[v] < lvl implies done.contains(v) by {
                                        if old_q.contains(v) {
                                            let j = choose|j: int| 0 <= j < old_q.len() && old_q[j] == v;
                                        }
                                    }
                                    assert forall|q: Seq<u64>| #[trigger] is_path(pages, f, q) && q[0] == src && q.last() == dst
                                        implies rank[dst] + 1 <= q.len() by {
                                        if q.len() - 1 <= lvl {
                                            lemma_bfs_layers(pages, f, old_vis, old_rank, done, lvl, q, q.len() - 1);
                                        }
                                    }
                                }
                                return Ok((true, pred, Ghost(rank)));
                            }
                            queue.push_back(d);
                            proof {
                                assert(queue@ == old_q.push(d));
                                assert forall|v: u64| old_q.contains(v) implies queue@.contains(v) by {
                                    let j = choose|j: int| 0 <= j < old_q.len() && old_q[j] == v;
                                    assert(queue@[j] == v);
                                }
                                assert(queue@.contains(d)) by {
                                    assert(queue@[queue@.len() - 1] == d);
                                }
                                assert(queue@.no_duplicates()) by {
                                    assert forall|i: int, j: int| 0 <= i < j < queue@.len() implies queue@[i] != queue@[j] by {
                                        if j == queue@.len() - 1 {
                                            assert(old_vis.contains(old_q[i]));
                                        }
                                    }
                                }
                                assert forall|i: int, j: int| 0 <= i < j < queue@.len() implies rank[#[trigger] queue@[i]] <= rank[#[trigger] queue@[j]] by {
                                    if j < queue@.len() - 1 {
                                        assert(queue@[i] == old_q[i] && queue@[j] == old_q[j]);
                                    } else {
                                        assert(old_vis.contains(queue@[i]) || i == queue@.len() - 1);
                                    }
                                }
                            }
                        }
                        proof {
                            seen = seen.push(d);
                        }
                    },
                }
                lf = lf - 1;
            }
            proof {
                assert(list_prefix(pages, cursor.next_ptr, lf as nat) == (Seq::<u64>::empty(), None::<NexoraGraphStoreError>));
                assert(seen + Seq::<u64>::empty() =~= seen);
                assert(list_ok(pages, f, node_id));
                assert forall|b: u64| #[trigger] edge_to(pages, f, node_id, b) implies visited@.contains(b) && rank[b] <= rank[node_id] + 1 by {
                    let j = choose|j: int| 0 <= j < seen.len() && seen[j] == b;
                    assert(visited@.contains(seen[j]));
                }
                lemma_len_subset(visited@, Set::<u64>::full());
            }
        }
    }

    /// A shortest path from `src` to `dst` along outgoing edges, as the list
    /// of its nodes from `src` to `dst`; `None` when there is none.
    pub fn shortest_path(&mut self, src: u64, dst: u64) -> (r: Result<Option<Vec<u64>>, NexoraGraphStoreError>)
        requires
            old(self).gs().storage.inv(),
        ensures
            final(self).gs().storage == old(self).gs().storage,
            *final(final(self).store) == *final(old(self).store),
            shortest_path_answer(old(self).gs().storage.store@, old(self).gs().storage.footer, src, dst, path_view(r)),
    {
        let ghost pages = self.store.storage.store@;
        let ghost f = self.store.storage.footer;
        if src == dst {
            let p = vec![src];
            proof {
                assert(is_path(pages, f, p@));
                assert(p@ =~= seq![src]);
                assert(path_view(Ok(Some(p))) == Ok::<Option<Seq<u64>>, NexoraGraphStoreError>(Some(seq![src])));
            }
            return Ok(Some(p));
        }
        let (found, pred, Ghost(rank)) = self.bfs_parents(src, dst)?;
        if !pred.contains_key(&dst) {
            return Ok(None);
        }
        let mut path: Vec<u64> = vec![dst];
        let mut current = dst;
        while current != src
            invariant
                parent_tree(pages, f, src, pred@, rank),
                pred@.contains_key(dst),
                current == src || pred@.contains_key(current),
                rank.contains_key(current),
                path@.len() >= 1,
                path@[0] == dst,
                path@.last() == current,
                path@.len() + rank[current] == rank[dst] + 1,
                forall|i: int| 0 <= i < path@.len() - 1 ==> #[trigger] edge_to(pages, f, path@[i + 1], path@[i]),
            decreases rank[current],
        {
            match pred.get(&current) {
                None => return Ok(None),
                Some(parent) => {
                    let p = *parent;
                    let ghost old_path = path@;
                    path.push(p);
                    proof {
                        assert forall|i: int| 0 <= i < path@.len() - 1 implies #[trigger] edge_to(pages, f, path@[i + 1], path@[i]) by {
                            if i < old_path.len() - 1 {
                                assert(path@[i] == old_path[i] && path@[i + 1] == old_path[i + 1]);
                            }
                        }
                    }
                    current = p;
                },
            }
        }
        let result = reversed(&path);
        proof {
            let q = result@;
            assert forall|i: int| 0 <= i < q.len() - 1 implies #[trigger] edge_to(pages, f, q[i], q[i + 1]) by {
                let j = path@.len() - 2 - i;
                assert(q[i] == path@[j + 1] && q[i + 1] == path@[j]);
            }
        }
        Ok(Some(result))
    }
}

/// The nodes of `s` that are neither in `vis` nor earlier in `s`, in order.
pub open spec fn fresh_nodes(s: Seq<u64>, vis: Set<u64>) -> Seq<u64>
    decreases s.len(),
{
    if s.len() == 0 {
        Seq::empty()
    } else if vis.contains(s.last()) || s.drop_last().contains(s.last()) {
        fresh_nodes(s.drop_last(), vis)
    } else {
        fresh_nodes(s.drop_last(), vis).push(s.last())
    }
}

/// The nodes of `s` that are not in `vis`, in order, repeats kept.
pub open spec fn unvisited_nodes(s: Seq<u64>, vis: Set<u64>) -> Seq<u64>
    decreases s.len(),
{
    if s.len() == 0 {
        Seq::empty()
    } else if vis.contains(s.last()) {
        unvisited_nodes(s.drop_last(), vis)
    } else {
        unvisited_nodes(s.drop_last(), vis).push(s.last())
    }
}

/// Each node of `s` with the depth `d`.
pub open spec fn at_depth(s: Seq<u64>, d: usize) -> Seq<(u64, usize)> {
    s.map_values(|n: u64| (n, d))
}

/// The state of a breadth-first walk: the nodes seen so far, and the nodes
/// waiting to be visited with their depth.
pub struct BfsWalk {
    pub visited: HashSet<u64>,
    pub queue: VecDeque<(u64, usize)>,
    pub max_depth: usize,
}

impl BfsWalk {
    /// A walk that starts at `start`, going at most `max_depth` edges deep.
    pub fn new(start: u64, max_depth: usize) -> (r: Self)
        ensures
            r.visited@ == Set::<u64>::empty().insert(start),
            r.queue@ == seq![(start, 0usize)],
            r.max_depth == max_depth,
    {
        let mut visited: HashSet<u64> = HashSet::new();
        let mut queue: VecDeque<(u64, usize)> = VecDeque::new();
        visited.insert(start);
        queue.push_back((start, 0));
        BfsWalk { visited, queue, max_depth }
    }

    /// Takes the next node off the queue and reads it.
    pub fn next(&mut self, store: &mut GraphStore) -> (r: Result<Option<(Node, usize)>, NexoraGraphStoreError>)
        requires
            old(store).storage.inv(),
        ensures
            final(store).storage == old(store).storage,
            final(self).visited@ == old(self).visited@,
            final(self).max_depth == old(self).max_depth,
            old(self).queue@.len() == 0 ==> (r matches Ok(None) && final(self).queue@ == old(self).queue@),
            old(self).queue@.len() > 0 ==> {
                let (n, d) = old(self).queue@[0];
                &&& final(self).queue@ == old(self).queue@.drop_first()
                &&& match spec_node_label_bytes(old(store).storage.store@, old(store).storage.footer, n) {
                    Err(e) => r matches Err(x) && x == e,
                    Ok(b) => if valid_utf8(b) {
                        r matches Ok(Some((node, dd))) && dd == d && node.id == n && node.label@ == decode_utf8(b)
                    } else {
                        r matches Err(x) && x == NexoraGraphStoreError::InvalidLabelText
                    },
                }
            },
    {
        match self.queue.pop_front() {
            None => Ok(None),
            Some((node_id, depth)) => {
                let node = store.get_node(node_id)?;
                Ok(Some((node, depth)))
            },
        }
    }

    /// Queues, one level deeper, the nodes that `node_id` has edges to and
    /// that the walk has not seen, in list order; nothing when `depth` is
    /// already the deepest the walk goes.
    pub fn expand(&mut self, store: &mut GraphStore, node_id: u64, depth: usize) -> (r: Result<(), NexoraGraphStoreError>)
        requires
            old(store).storage.inv(),
        ensures
            final(store).storage == old(store).storage,
            final(self).max_depth == old(self).max_depth,
            ({
                let pages = old(store).storage.store@;
                let f = old(store).storage.footer;
                let l = out_list(pages, f, node_id);
                if depth >= old(self).max_depth {
                    r is Ok && final(self).visited@ == old(self).visited@ && final(self).queue@ == old(self).queue@
                } else {
                    match l.1 {
                        Some(e) => r matches Err(x) && x == e,
                        None => {
                            &&& r is Ok
                            &&& final(self).visited@ == old(self).visited@ + l.0.to_set()
                            &&& final(self).queue@ == old(self).queue@ + at_depth(fresh_nodes(l.0, old(self).visited@), (depth + 1) as usize)
                        },
                    }
                }
            }),
    {
        if depth >= self.max_depth {
            return Ok(());
        }
        let ghost pages = store.storage.store@;
        let ghost f = store.storage.footer;
        let ghost st0 = store.storage;
        let ghost v0 = self.visited@;
        let ghost q0 = self.queue@;
        let fuel0 = list_fuel(store);
        let mut cursor = store.outgoing_cursor(node_id)?;
        let ghost head = cursor.next_ptr;
        let mut lf = fuel0;
        let ghost mut seen: Seq<u64> = Seq::empty();
        proof {
            assert(v0 + seen.to_set() =~= v0);
            assert(q0 + at_depth(fresh_nodes(seen, v0), (depth + 1) as usize) =~= q0);
        }
        while !cursor.is_done()
            invariant
                store.storage == st0,
                st0 == old(store).storage,
                st0.inv(),
                pages == st0.store@,
                f == st0.footer,
                depth < self.max_depth,
                self.max_depth == old(self).max_depth,
                v0 == old(self).visited@,
                q0 == old(self).queue@,
                node_list_head(pages, f, node_id, true) == Ok::<PackedPtr, NexoraGraphEdgeError>(head),
                ({
                    let a = list_prefix(pages, head, edge_chain_fuel(pages.len()));
                    let b = list_prefix(pages, cursor.next_ptr, lf as nat);
                    a.0 == seen + b.0 && a.1 == b.1
                }),
                self.visited@ == v0 + seen.to_set(),
                self.queue@ == q0 + at_depth(fresh_nodes(seen, v0), (depth + 1) as usize),
            decreases lf,
        {
            if lf == 0 {
                return Err(NexoraGraphStoreError::Edge(NexoraGraphEdgeError::Storage(NexoraStorageError::CorruptPage(cursor.ptr().page_id()))));
            }
            let ghost before = cursor.next_ptr;
            match store.next_outgoing(&mut cursor)? {
                None => {},
                Some(edge) => {
                    let d = edge.dst_node_id;
                    proof {
                        let rest = list_prefix(pages, cursor.next_ptr, (lf - 1) as nat);
                        assert(list_prefix(pages, before, lf as nat).0 == seq![d] + rest.0);
                        assert(seen + (seq![d] + rest.0) =~= seen.push(d) + rest.0);
                        assert(seen.push(d).drop_last() =~= seen);
                        assert(seen.push(d).to_set() =~= seen.to_set().insert(d)) by {
                            assert forall|x: u64| seen.push(d).to_set().contains(x) <==> seen.to_set().insert(d).contains(x) by {
                                if seen.push(d).contains(x) && x != d {
                                    let j = choose|j: int| 0 <= j < seen.push(d).len() && seen.push(d)[j] == x;
                                    assert(seen[j] == x);
                                }
                                if seen.contains(x) {
                                    let j = choose|j: int| 0 <= j < seen.len() && seen[j] == x;
                                    assert(seen.push(d)[j] == x);
                                }
                                if x == d {
                                    assert(seen.push(d)[seen.len() as int] == d);
                                }
                            }
                        }
                    }
                    let ghost old_q = self.queue@;
                    if self.visited.insert(d) {
                        self.queue.push_back((d, depth + 1));
                        proof {
                            assert(!(v0.contains(d) || seen.contains(d)));
                            assert(fresh_nodes(seen.push(d), v0) == fresh_nodes(seen, v0).push(d));
                            assert(self.queue@ =~= q0 + at_depth(fresh_nodes(seen.push(d), v0), (depth + 1) as usize));
                        }
                    } else {
                        proof {
                            assert(v0.contains(d) || seen.contains(d));
                            assert(fresh_nodes(seen.push(d), v0) == fresh_nodes(seen, v0));
                        }
                    }
                    proof {
                        assert(self.visited@ =~= v0 + seen.push(d).to_set());
                        seen = seen.push(d);
                    }
                },
            }
            lf = lf - 1;
        }
        proof {
            assert(list_prefix(pages, cursor.next_ptr, lf as nat) == (Seq::<u64>::empty(), None::<NexoraGraphStoreError>));
            assert(seen + Seq::<u64>::empty() =~= seen);
        }
        Ok(())
    }
}

/// What taking the next node off a depth-first stack finds: the stack below
/// the first entry whose node is not yet visited, and that entry.
pub open spec fn dfs_pop(stack: Seq<(u64, usize)>, vis: Set<u64>) -> Option<(int, u64, usize)>
    decreases stack.len(),
{
    if stack.len() == 0 {
        None
    } else if vis.contains(stack.last().0) {
        dfs_pop(stack.drop_last(), vis)
    } else {
        Some(((stack.len() - 1) as int, stack.last().0, stack.last().1))
    }
}

/// The state of a depth-first walk: the nodes visited so far, and the
/// entries still to look at, the top of the stack last.
pub struct DfsWalk {
    pub visited: HashSet<u64>,
    pub stack: Vec<(u64, usize)>,
    pub max_depth: usize,
}

impl DfsWalk {
    /// A walk that starts at `start`, going at most `max_depth` edges deep.
    pub fn new(start: u64, max_depth: usize) -> (r: Self)
        ensures
            r.visited@ == Set::<u64>::empty(),
            r.stack@ == seq![(start, 0usize)],
            r.max_depth == max_depth,
    {
        DfsWalk { visited: HashSet::new(), stack: vec![(start, 0)], max_depth }
    }

    /// Pops entries until one whose node is not yet visited, marks it
    /// visited and reads it.
    pub fn next(&mut self, store: &mut GraphStore) -> (r: Result<Option<(Node, usize)>, NexoraGraphStoreError>)
        requires
            old(store).storage.inv(),
        ensures
            final(store).storage == old(store).storage,
            final(self).max_depth == old(self).max_depth,
            match dfs_pop(old(self).stack@, old(self).visited@) {
                None => r matches Ok(None) && final(self).stack@.len() == 0 && final(self).visited@ == old(self).visited@,
                Some((k, n, d)) => {
                    &&& final(self).stack@ == old(self).stack@.subrange(0, k)
                    &&& final(self).visited@ == old(self).visited@.insert(n)
                    &&& match spec_node_label_bytes(old(store).storage.store@, old(store).storage.footer, n) {
                        Err(e) => r matches Err(x) && x == e,
                        Ok(b) => if valid_utf8(b) {
                            r matches Ok(Some((node, dd))) && dd == d && node.id == n && node.label@ == decode_utf8(b)
                        } else {
                            r matches Err(x) && x == NexoraGraphStoreError::InvalidLabelText
                        },
                    }
                },
            },
    {
        while self.stack.len() > 0
            invariant
                store.storage == old(store).storage,
                old(store).storage.inv(),
                self.max_depth == old(self).max_depth,
                self.visited@ == old(self).visited@,
                dfs_pop(old(self).stack@, old(self).visited@) == dfs_pop(self.stack@, self.visited@),
                self.stack@.len() <= old(self).stack@.len(),
                self.stack@ == old(self).stack@.subrange(0, self.stack@.len() as int),
            decreases self.stack@.len(),
        {
            let ghost before = self.stack@;
            let (node_id, depth) = self.stack.pop().unwrap();
            proof {
                assert(before.drop_last() =~= self.stack@);
            }
            if self.visited.insert(node_id) {
                let node = store.get_node(node_id)?;
                return Ok(Some((node, depth)));
            }
        }
        Ok(None)
    }

    /// Pushes, one level deeper, the nodes that `node_id` has edges to and
    /// that are not yet visited, so that the first in list order is on top;
    /// nothing when `depth` is already the deepest the walk goes.
    pub fn expand(&mut self, store: &mut GraphStore, node_id: u64, depth: usize) -> (r: Result<(), NexoraGraphStoreError>)
        requires
            old(store).storage.inv(),
        ensures
            final(store).storage == old(store).storage,
            final(self).max_depth == old(self).max_depth,
            final(self).visited@ == old(self).visited@,
            ({
                let pages = old(store).storage.store@;
                let f = old(store).storage.footer;
                let l = out_list(pages, f, node_id);
                if depth >= old(self).max_depth {
                    r is Ok && final(self).stack@ == old(self).stack@
                } else {
                    match l.1 {
                        Some(e) => r matches Err(x) && x == e,
                        None => r is Ok && final(self).stack@
                            == old(self).stack@ + at_depth(unvisited_nodes(l.0, old(self).visited@).reverse(), (depth + 1) as usize),
                    }
                }
            }),
    {
        if depth >= self.max_depth {
            return Ok(());
        }
        let ghost pages = store.storage.store@;
        let ghost f = store.storage.footer;
        let ghost st0 = store.storage;
        let fuel0 = list_fuel(store);
        let mut cursor = store.outgoing_cursor(node_id)?;
        let ghost head = cursor.next_ptr;
        let mut lf = fuel0;
        let ghost mut seen: Seq<u64> = Seq::empty();
        let mut neighbors: Vec<u64> = Vec::new();
        while !cursor.is_done()
            invariant
                store.storage == st0,
                st0 == old(store).storage,
                st0.inv(),
                pages == st0.store@,
                f == st0.footer,
                node_list_head(pages, f, node_id, true) == Ok::<PackedPtr, NexoraGraphEdgeError>(head),
                ({
                    let a = list_prefix(pages, head, edge_chain_fuel(pages.len()));
                    let b = list_prefix(pages, cursor.next_ptr, lf as nat);
                    a.0 == seen + b.0 && a.1 == b.1
                }),
                neighbors@ == unvisited_nodes(seen, self.visited@),
                self.visited@ == old(self).visited@,
                self.stack@ == old(self).stack@,
                depth < self.max_depth,
                self.max_depth == old(self).max_depth,
            decreases lf,
        {
            if lf == 0 {
                return Err(NexoraGraphStoreError::Edge(NexoraGraphEdgeError::Storage(NexoraStorageError::CorruptPage(cursor.ptr().page_id()))));
            }
            let ghost before = cursor.next_ptr;
            match store.next_outgoing(&mut cursor)? {
                None => {},
                Some(edge) => {
                    let d = edge.dst_node_id;
                    proof {
                        let rest = list_prefix(pages, cursor.next_ptr, (lf - 1) as nat);
                        assert(list_prefix(pages, before, lf as nat).0 == seq![d] + rest.0);
                        assert(seen + (seq![d] + rest.0) =~= seen.push(d) + rest.0);
                        assert(seen.push(d).drop_last() =~= seen);
                    }
                    if !self.visited.contains(&d) {
                        neighbors.push(d);
                    }
                    proof {
                        seen = seen.push(d);
                    }
                },
            }
            lf = lf - 1;
        }
        proof {
            assert(list_prefix(pages, cursor.next_ptr, lf as nat) == (Seq::<u64>::empty(), None::<NexoraGraphStoreError>));
            assert(seen + Seq::<u64>::empty() =~= seen);
        }
        let ghost s0 = self.stack@;
        let mut i = neighbors.len();
        while i > 0
            invariant
                i <= neighbors@.len(),
                self.stack@ == s0 + at_depth(neighbors@.subrange(i as int, neighbors@.len() as int).reverse(), (depth + 1) as usize),
                s0 == old(self).stack@,
                self.visited@ == old(self).visited@,
                store.storage == old(store).storage,
                depth < self.max_depth,
                self.max_depth == old(self).max_depth,
            decreases i,
        {
            i = i - 1;
            let ghost before = self.stack@;
            self.stack.push((neighbors[i], depth + 1));
            proof {
                let a = neighbors@.subrange(i as int, neighbors@.len() as int).reverse();
                let b = neighbors@.subrange(i + 1, neighbors@.len() as int).reverse();
                assert(a =~= b.push(neighbors@[i as int]));
                assert(self.stack@ =~= s0 + at_depth(a, (depth + 1) as usize));
            }
        }
        proof {
            assert(neighbors@.subrange(0, neighbors@.len() as int) =~= neighbors@);
        }
        Ok(())
    }
}

} // verus!
