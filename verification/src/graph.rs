//! The discovered relay tree as a graph over physical machines.
//!
//! A machine reached through two relays is one vertex with two parent edges, so
//! the tree of paths becomes a directed graph. It answers the questions redundancy
//! asks: is it acyclic, whose death would cut machines off, and which machines
//! stay reachable whatever single relay dies.
use vstd::prelude::*;

use crate::names::{ascending, NameMap};
use crate::observability::{
    lemma_parent_then_leaf, parent_of, parent_path, NodeModel, RunState,
};
use crate::reach::{
    connected, cuts, cyclic, has_cycle, is_cut, leads, lemma_connected_symmetric,
    lemma_reaches_is_connected, lemma_reaches_link, lemma_reaches_self, lemma_reaches_transitive,
    reach, reaches, separates, spared, step, survivors, within,
};
use crate::text::{same, texts};

verus! {

/// The synthetic root vertex standing for the coordinator, the parent of every
/// top-level node. The leading NUL keeps it from colliding with any real machine
/// id.
pub const ROOT: &'static str = "\0coordinator";

/// The discovered relay tree as a graph over physical machines, keyed by stable
/// id.
#[derive(Debug)]
pub struct Topology {
    /// Machine ids by vertex. Vertex 0 is always [`ROOT`].
    ids: Vec<String>,
    /// Parent -> child edges as vertex pairs, in ascending order without repeats.
    edges: Vec<(usize, usize)>,
}

/// The last position of `id` among `ids`, or -1.
pub open spec fn vertex_of(ids: Seq<Seq<char>>, id: Seq<char>) -> int
    decreases ids.len(),
{
    if ids.len() == 0 {
        -1
    } else if ids.last() == id {
        ids.len() - 1
    } else {
        vertex_of(ids.drop_last(), id)
    }
}

/// The vertex of an id that occurs is a position it occurs at.
pub proof fn lemma_vertex_of(ids: Seq<Seq<char>>, id: Seq<char>)
    ensures
        -1 <= vertex_of(ids, id) < ids.len(),
        ids.contains(id) <==> vertex_of(ids, id) >= 0,
        vertex_of(ids, id) >= 0 ==> ids[vertex_of(ids, id)] == id,
        forall|k: int| vertex_of(ids, id) < k < ids.len() ==> (#[trigger] ids[k]) != id,
    decreases ids.len(),
{
    if ids.len() > 0 {
        let rest = ids.drop_last();
        lemma_vertex_of(rest, id);
        if ids.last() == id {
            assert(ids[ids.len() - 1] == id);
        } else {
            if ids.contains(id) {
                let k = ids.index_of(id);
                assert(rest[k] == id);
            }
            assert forall|k: int| vertex_of(ids, id) < k < ids.len() implies (#[trigger] ids[k])
                != id by {
                if k < rest.len() {
                    assert(rest[k] == ids[k]);
                }
            }
        }
    }
}

/// The machine id one hop up from the node at `path`, or the root's where that
/// hop is unknown.
pub open spec fn parent_id(nodes: Map<Seq<char>, NodeModel>, path: Seq<char>) -> Seq<char> {
    match parent_path(path) {
        None => ROOT@,
        Some(parent) => if nodes.contains_key(parent) {
            match nodes[parent].id {
                Some(id) => id,
                None => ROOT@,
            }
        } else {
            ROOT@
        },
    }
}

/// Whether a node with a known machine id was discovered at `path`.
pub open spec fn discovered(nodes: Map<Seq<char>, NodeModel>, path: Seq<char>) -> bool {
    nodes.contains_key(path) && nodes[path].id is Some
}

/// Whether the node at `path` gives the edge `e`: from the machine one hop up to
/// its own, unless they are the same machine.
pub open spec fn gives_edge(
    nodes: Map<Seq<char>, NodeModel>,
    ids: Seq<Seq<char>>,
    path: Seq<char>,
    e: (usize, usize),
) -> bool {
    &&& discovered(nodes, path)
    &&& e.0 == vertex_of(ids, parent_id(nodes, path))
    &&& e.1 == vertex_of(ids, nodes[path].id->0)
    &&& e.0 != e.1
}

/// Whether edge `a` sorts before edge `b`.
pub open spec fn edge_lt(a: (usize, usize), b: (usize, usize)) -> bool {
    a.0 < b.0 || (a.0 == b.0 && a.1 < b.1)
}

/// Whether the edges ascend strictly.
pub open spec fn edges_ascend(edges: Seq<(usize, usize)>) -> bool {
    forall|i: int, j: int|
        0 <= i < j < edges.len() ==> edge_lt(#[trigger] edges[i], #[trigger] edges[j])
}

/// Add an edge, keeping the order and no repeats.
fn insert_edge(edges: &mut Vec<(usize, usize)>, e: (usize, usize))
    requires
        edges_ascend(old(edges)@),
    ensures
        edges_ascend(final(edges)@),
        final(edges)@.to_set() =~= old(edges)@.to_set().insert(e),
{
    let mut i: usize = 0;
    while i < edges.len() && (edges[i].0 < e.0 || (edges[i].0 == e.0 && edges[i].1 < e.1))
        invariant
            i <= edges@.len(),
            forall|k: int| 0 <= k < i ==> edge_lt(#[trigger] edges@[k], e),
        decreases edges@.len() - i,
    {
        i += 1;
    }
    let ghost before = edges@;
    if i < edges.len() && edges[i].0 == e.0 && edges[i].1 == e.1 {
        proof {
            assert(before[i as int] == e);
            assert(before.contains(e));
            assert(before.to_set().insert(e) =~= before.to_set());
        }
        return;
    }
    edges.insert(i, e);
    proof {
        let after = edges@;
        assert(after =~= before.insert(i as int, e));
        assert forall|a: int, b: int| 0 <= a < b < after.len() implies edge_lt(
            #[trigger] after[a],
            #[trigger] after[b],
        ) by {
            if b < i {
                assert(after[a] == before[a] && after[b] == before[b]);
            } else if a < i && b > i {
                assert(after[a] == before[a] && after[b] == before[b - 1]);
            } else if a > i {
                assert(after[a] == before[a - 1] && after[b] == before[b - 1]);
            } else if a == i {
                assert(after[b] == before[b - 1]);
                if b - 1 > i {
                    assert(edge_lt(before[i as int], before[b - 1]));
                }
            } else {
                assert(after[a] == before[a]);
            }
        }
        assert forall|x: (usize, usize)| #[trigger] after.to_set().contains(x)
            <==> before.to_set().insert(e).contains(x) by {
            if x == e {
                assert(after[i as int] == x);
            }
            if before.contains(x) {
                let k = before.index_of(x);
                if k < i {
                    assert(after[k] == x);
                } else {
                    assert(after[k + 1] == x);
                }
            }
            if after.contains(x) && x != e {
                let k = after.index_of(x);
                if k < i {
                    assert(before[k] == x);
                } else {
                    assert(before[k - 1] == x);
                }
            }
        }
    }
}

impl Topology {
    /// Machine ids by vertex.
    pub closed spec fn spec_ids(&self) -> Seq<Seq<char>> {
        texts(self.ids@)
    }

    /// Parent -> child edges as vertex pairs.
    pub closed spec fn spec_edges(&self) -> Set<(usize, usize)> {
        self.edges@.to_set()
    }

    /// The edges in the order they are kept.
    pub closed spec fn edge_list(&self) -> Seq<(usize, usize)> {
        self.edges@
    }

    /// Vertex 0 is the root, the other ids ascend strictly, and the edges join
    /// different vertices in ascending order.
    pub closed spec fn wf(&self) -> bool {
        &&& self.ids@.len() > 0
        &&& self.spec_ids()[0] == ROOT@
        &&& ascending(self.spec_ids().skip(1))
        &&& within(self.edges@, self.ids@.len() as usize)
        &&& edges_ascend(self.edges@)
    }

    /// What the fields mean for the public view.
    pub proof fn lemma_wf(&self)
        requires
            self.wf(),
        ensures
            self.spec_ids().len() > 0,
            self.spec_ids()[0] == ROOT@,
            ascending(self.spec_ids().skip(1)),
            self.edge_list().to_set() == self.spec_edges(),
            edges_ascend(self.edge_list()),
            within(self.edge_list(), self.spec_ids().len() as usize),
            forall|e: (usize, usize)| #[trigger]
                self.spec_edges().contains(e) ==> e.0 < self.spec_ids().len() && e.1
                    < self.spec_ids().len(),
    {
        assert forall|e: (usize, usize)| #[trigger] self.spec_edges().contains(e) implies e.0
            < self.spec_ids().len() && e.1 < self.spec_ids().len() by {
            let i = self.edges@.index_of(e);
            assert(self.edges@.contains(e));
            assert(self.edges@[i] == e);
        }
    }

    /// Assemble the topology from a run's discovered nodes. Each node with a known
    /// machine id contributes it as a vertex, and an edge from its parent's (or
    /// from the root for a top-level node), so a machine seen on two paths becomes
    /// one vertex with two parent edges. A node that is its own parent gives no
    /// edge.
    pub fn from_run_state(state: &RunState) -> (r: Topology)
        requires
            state.wf(),
        ensures
            r.wf(),
            depicts(state@.nodes, r.spec_ids(), r.spec_edges()),
    {
        let ghost nodes = state@.nodes;
        let count: usize = state.nodes.entries.len();
        let mut physical: NameMap<bool> = NameMap::new();
        let mut i: usize = 0;
        while i < count
            invariant
                state.wf(),
                nodes == state@.nodes,
                physical.wf(),
                i <= count == state.nodes.entries@.len(),
                forall|id: Seq<char>| #[trigger]
                    physical@.contains_key(id) <==> exists|k: int|
                        0 <= k < i && (#[trigger] state.nodes.entries@[k]).1@.id == Some(id),
            decreases count - i,
        {
            let ghost before = physical@;
            match &state.nodes.entries[i].1.id {
                Some(id) => {
                    physical.set(id.as_str(), true);
                    proof {
                        assert(state.nodes.entries@[i as int].1@.id == Some(id@));
                    }
                },
                None => {},
            }
            i += 1;
            proof {
                assert forall|id: Seq<char>| #[trigger] physical@.contains_key(id) <==> exists|k: int|
                    0 <= k < i && (#[trigger] state.nodes.entries@[k]).1@.id == Some(id) by {
                    if before.contains_key(id) {
                        let k = choose|k: int|
                            0 <= k < i - 1 && (#[trigger] state.nodes.entries@[k]).1@.id == Some(id);
                        assert(0 <= k < i);
                    }
                    if exists|k: int|
                        0 <= k < i && (#[trigger] state.nodes.entries@[k]).1@.id == Some(id) {
                        let k = choose|k: int|
                            0 <= k < i && (#[trigger] state.nodes.entries@[k]).1@.id == Some(id);
                        if k < i - 1 {
                            assert(before.contains_key(id));
                        }
                    }
                }
            }
        }
        proof {
            assert forall|id: Seq<char>| #[trigger] physical.names().contains(id) <==> exists|
                path: Seq<char>,
            |
                nodes.contains_key(path) && (#[trigger] nodes[path]).id == Some(id) by {
                assert(physical.names().contains(id) == physical@.contains_key(id));
                if exists|path: Seq<char>|
                    nodes.contains_key(path) && (#[trigger] nodes[path]).id == Some(id) {
                    let path = choose|path: Seq<char>|
                        nodes.contains_key(path) && (#[trigger] nodes[path]).id == Some(id);
                    let k = state.nodes.names().index_of(path);
                    assert(state.nodes.names().contains(path));
                    assert(state.nodes.names()[k] == path);
                    state.nodes.lemma_entry(k);
                    assert(state.nodes.entries@[k].1@.id == Some(id));
                }
                if physical@.contains_key(id) {
                    let k = choose|k: int|
                        0 <= k < count && (#[trigger] state.nodes.entries@[k]).1@.id == Some(id);
                    state.nodes.lemma_entry(k);
                    let path = state.nodes.entries@[k].0@;
                    assert(nodes.contains_key(path) && nodes[path].id == Some(id));
                }
            }
        }
        let mut ids: Vec<String> = Vec::new();
        ids.push(ROOT.to_owned());
        let mut v: usize = 0;
        while v < physical.entries.len()
            invariant
                v <= physical.entries@.len(),
                ids@.len() == v + 1,
                ids@[0]@ == ROOT@,
                forall|k: int| 0 <= k < v ==> (#[trigger] ids@[k + 1])@ == physical.names()[k],
            decreases physical.entries@.len() - v,
        {
            ids.push(physical.entries[v].0.clone());
            v += 1;
        }
        let vertices: usize = ids.len();
        let ghost names = texts(ids@);
        proof {
            assert(names.skip(1) =~= physical.names()) by {
                assert forall|k: int| 0 <= k < names.skip(1).len() implies names.skip(1)[k]
                    == physical.names()[k] by {
                    assert(ids@[k + 1]@ == physical.names()[k]);
                }
            }
        }
        let mut edges: Vec<(usize, usize)> = Vec::new();
        let mut j: usize = 0;
        while j < count
            invariant
                state.wf(),
                nodes == state@.nodes,
                names == texts(ids@),
                ids@.len() > 0,
                ids@.len() == vertices,
                names[0] == ROOT@,
                j <= count == state.nodes.entries@.len(),
                edges_ascend(edges@),
                within(edges@, ids@.len() as usize),
                forall|id: Seq<char>| #[trigger]
                    names.skip(1).contains(id) <==> exists|path: Seq<char>|
                        nodes.contains_key(path) && (#[trigger] nodes[path]).id == Some(id),
                forall|e: (usize, usize)| #[trigger]
                    edges@.to_set().contains(e) <==> exists|k: int|
                        0 <= k < j && gives_edge(
                            nodes,
                            names,
                            #[trigger] state.nodes.names()[k],
                            e,
                        ),
            decreases count - j,
        {
            let ghost path = state.nodes.names()[j as int];
            let ghost before = edges@;
            proof {
                state.nodes.lemma_entry(j as int);
            }
            let mut added: Option<(usize, usize)> = None;
            match &state.nodes.entries[j].1.id {
                Some(id) => {
                    proof {
                        assert(nodes[path].id == Some(id@));
                        lemma_known(names, id@);
                        let up = parent_id(nodes, path);
                        if up != ROOT@ {
                            let parent = parent_path(path)->0;
                            assert(nodes.contains_key(parent) && nodes[parent].id == Some(up));
                            lemma_known(names, up);
                        } else {
                            lemma_known(names, up);
                        }
                    }
                    let parent = Self::parent_vertex(state, &ids, state.nodes.entries[j].0.as_str());
                    let child: usize = Self::locate(&ids, id.as_str()).unwrap();
                    if parent != child {
                        insert_edge(&mut edges, (parent, child));
                        added = Some((parent, child));
                    }
                },
                None => {},
            }
            j += 1;
            proof {
                assert forall|e: (usize, usize)| #[trigger] edges@.to_set().contains(e)
                    <==> exists|k: int|
                    0 <= k < j && gives_edge(
                        nodes,
                        names,
                        #[trigger] state.nodes.names()[k],
                        e,
                    ) by {
                    if before.to_set().contains(e) {
                        let k = choose|k: int|
                            0 <= k < j - 1 && gives_edge(
                                nodes,
                                names,
                                #[trigger] state.nodes.names()[k],
                                e,
                            );
                        assert(0 <= k < j);
                    }
                    if added == Some(e) {
                        assert(gives_edge(nodes, names, state.nodes.names()[j - 1], e));
                    }
                    if exists|k: int|
                        0 <= k < j && gives_edge(
                            nodes,
                            names,
                            #[trigger] state.nodes.names()[k],
                            e,
                        ) {
                        let k = choose|k: int|
                            0 <= k < j && gives_edge(
                                nodes,
                                names,
                                #[trigger] state.nodes.names()[k],
                                e,
                            );
                        if k < j - 1 {
                            assert(before.to_set().contains(e));
                        }
                    }
                }
                assert(within(edges@, ids@.len() as usize)) by {
                    assert forall|k: int| 0 <= k < edges@.len() implies (#[trigger] edges@[k]).0
                        < ids@.len() && edges@[k].1 < ids@.len() by {
                        let e = edges@[k];
                        assert(edges@.to_set().contains(e));
                        if added != Some(e) {
                            assert(before.to_set().contains(e));
                            let m = before.index_of(e);
                            assert(before[m] == e);
                        }
                    }
                }
            }
        }
        let r = Topology { ids, edges };
        proof {
            assert forall|e: (usize, usize)| #[trigger] r.spec_edges().contains(e) <==> exists|
                path: Seq<char>,
            | #[trigger] gives_edge(nodes, r.spec_ids(), path, e) by {
                if exists|path: Seq<char>| #[trigger] gives_edge(nodes, r.spec_ids(), path, e) {
                    let path = choose|path: Seq<char>| #[trigger]
                        gives_edge(nodes, r.spec_ids(), path, e);
                    assert(state.nodes.names().contains(path));
                    let k = state.nodes.names().index_of(path);
                    assert(gives_edge(nodes, names, state.nodes.names()[k], e));
                }
                if r.spec_edges().contains(e) {
                    let k = choose|k: int|
                        0 <= k < count && gives_edge(
                            nodes,
                            names,
                            #[trigger] state.nodes.names()[k],
                            e,
                        );
                    assert(gives_edge(nodes, r.spec_ids(), state.nodes.names()[k], e));
                }
            }
        }
        r
    }

    /// The vertex of `id`.
    fn locate(ids: &Vec<String>, id: &str) -> (r: Option<usize>)
        ensures
            match r {
                Some(v) => v == vertex_of(texts(ids@), id@) && v < ids@.len(),
                None => vertex_of(texts(ids@), id@) == -1,
            },
    {
        let mut i: usize = ids.len();
        let ghost names = texts(ids@);
        proof {
            assert(names.take(i as int) =~= names);
        }
        while i > 0
            invariant
                i <= ids@.len(),
                names == texts(ids@),
                vertex_of(names, id@) == vertex_of(names.take(i as int), id@),
            decreases i,
        {
            proof {
                assert(names.take(i as int).last() == ids@[i - 1]@);
                assert(names.take(i as int).drop_last() =~= names.take(i - 1));
            }
            if same(ids[i - 1].as_str(), id) {
                return Some(i - 1);
            }
            i -= 1;
        }
        None
    }

    /// The vertex one hop up from the node at `path`.
    fn parent_vertex(state: &RunState, ids: &Vec<String>, path: &str) -> (r: usize)
        requires
            state.wf(),
            vertex_of(texts(ids@), parent_id(state@.nodes, path@)) >= 0,
        ensures
            r == vertex_of(texts(ids@), parent_id(state@.nodes, path@)),
            r < ids@.len(),
    {
        match parent_of(path) {
            None => Self::locate(ids, ROOT).unwrap(),
            Some(parent) => match state.nodes.get(parent.as_str()) {
                None => Self::locate(ids, ROOT).unwrap(),
                Some(view) => match &view.id {
                    Some(id) => Self::locate(ids, id.as_str()).unwrap(),
                    None => Self::locate(ids, ROOT).unwrap(),
                },
            },
        }
    }

    /// How many vertices there are, the root among them.
    pub fn len(&self) -> (r: usize)
        ensures
            r == self.spec_ids().len(),
    {
        self.ids.len()
    }

    /// The machine id of vertex `v`.
    pub fn id_of(&self, v: usize) -> (r: &str)
        requires
            v < self.spec_ids().len(),
        ensures
            r@ == self.spec_ids()[v as int],
    {
        self.ids[v].as_str()
    }

    /// The vertex of machine `id`.
    pub fn vertex(&self, id: &str) -> (r: Option<usize>)
        ensures
            match r {
                Some(v) => v == vertex_of(self.spec_ids(), id@) && v < self.spec_ids().len(),
                None => vertex_of(self.spec_ids(), id@) == -1,
            },
    {
        Self::locate(&self.ids, id)
    }

    /// The edges as vertex pairs, in ascending order.
    pub fn edge_indices(&self) -> (r: &Vec<(usize, usize)>)
        ensures
            r@ == self.edge_list(),
    {
        &self.edges
    }

    /// Whether the discovered configuration is acyclic. A cycle means a machine is
    /// reachable as its own ancestor.
    pub fn is_acyclic(&self) -> (r: bool)
        requires
            self.wf(),
        ensures
            r == !has_cycle(self.spec_edges()),
    {
        !cyclic(&self.edges, self.ids.len())
    }

    /// The ids of the machines that are single points of failure: those whose
    /// death separates two others, in ascending order. The coordinator itself is
    /// never listed.
    pub fn single_points_of_failure(&self) -> (r: Vec<String>)
        requires
            self.wf(),
        ensures
            texts(r@) == self.failing_below(self.spec_ids().len() as int),
    {
        let mut r: Vec<String> = Vec::new();
        let mut v: usize = 0;
        proof {
            assert(texts(r@) =~= Seq::empty());
        }
        while v < self.ids.len()
            invariant
                self.wf(),
                v <= self.ids@.len(),
                texts(r@) == self.failing_below(v as int),
            decreases self.ids@.len() - v,
        {
            let ghost before = r@;
            if cuts(&self.edges, self.ids.len(), v) && !same(self.ids[v].as_str(), ROOT) {
                r.push(self.ids[v].clone());
                proof {
                    assert(texts(r@) =~= texts(before).push(self.spec_ids()[v as int]));
                }
            }
            v += 1;
        }
        r
    }

    /// The ids of the single points of failure among the first `n` vertices.
    pub open spec fn failing_below(&self, n: int) -> Seq<Seq<char>>
        decreases n,
    {
        if n <= 0 {
            Seq::empty()
        } else if is_cut(self.spec_edges(), (n - 1) as usize) && self.spec_ids()[n - 1] != ROOT@ {
            self.failing_below(n - 1).push(self.spec_ids()[n - 1])
        } else {
            self.failing_below(n - 1)
        }
    }

    /// The ids of the relays that are a parent of machine `id`, in ascending
    /// order. The coordinator is never listed. More than one means the machine is
    /// multiply reachable.
    pub fn parents_of(&self, id: &str) -> (r: Vec<String>)
        requires
            self.wf(),
        ensures
            texts(r@) == self.parents_below(
                vertex_of(self.spec_ids(), id@),
                self.edge_list().len() as int,
            ),
    {
        let mut r: Vec<String> = Vec::new();
        proof {
            assert(texts(r@) =~= Seq::empty());
        }
        match Self::locate(&self.ids, id) {
            None => {
                proof {
                    self.lemma_no_parents(self.edges@.len() as int);
                }
                r
            },
            Some(child) => {
                let mut k: usize = 0;
                while k < self.edges.len()
                    invariant
                        self.wf(),
                        k <= self.edges@.len(),
                        texts(r@) == self.parents_below(child as int, k as int),
                    decreases self.edges@.len() - k,
                {
                    let ghost before = r@;
                    let (from, to) = self.edges[k];
                    assert(self.edges@[k as int].0 < self.ids@.len());
                    if to == child && !same(self.ids[from].as_str(), ROOT) {
                        r.push(self.ids[from].clone());
                        proof {
                            assert(texts(r@) =~= texts(before).push(self.spec_ids()[from as int]));
                        }
                    }
                    k += 1;
                }
                r
            },
        }
    }

    proof fn lemma_no_parents(&self, k: int)
        ensures
            self.parents_below(-1, k) =~= Seq::empty(),
        decreases k,
    {
        if k > 0 {
            self.lemma_no_parents(k - 1);
        }
    }

    /// The parents of vertex `child` along the first `k` edges.
    pub open spec fn parents_below(&self, child: int, k: int) -> Seq<Seq<char>>
        decreases k,
    {
        if k <= 0 {
            Seq::empty()
        } else {
            let (from, to) = self.edge_list()[k - 1];
            if to == child && self.spec_ids()[from as int] != ROOT@ {
                self.parents_below(child, k - 1).push(self.spec_ids()[from as int])
            } else {
                self.parents_below(child, k - 1)
            }
        }
    }

    /// Whether the coordinator still reaches vertex `node` after the death of any
    /// single other machine.
    pub open spec fn redundant(&self, node: int) -> bool {
        forall|c: usize|
            0 < c < self.spec_ids().len() && c != node ==> #[trigger] reaches(
                spared(self.spec_edges(), c),
                0,
                node as usize,
            )
    }

    /// Whether the coordinator still reaches machine `id`, from parent to child,
    /// after any single relay dies. A machine reachable through only one relay is
    /// not redundant, nor is an unknown one.
    pub fn is_redundant(&self, id: &str) -> (r: bool)
        requires
            self.wf(),
        ensures
            r == (vertex_of(self.spec_ids(), id@) >= 0 && self.redundant(
                vertex_of(self.spec_ids(), id@),
            )),
    {
        match Self::locate(&self.ids, id) {
            None => false,
            Some(node) => {
                let n: usize = self.ids.len();
                let mut c: usize = 1;
                while c < n
                    invariant
                        self.wf(),
                        n == self.ids@.len(),
                        node < n,
                        node == vertex_of(self.spec_ids(), id@),
                        1 <= c,
                        c <= n,
                        forall|d: usize|
                            0 < d < c && d != node ==> #[trigger] reaches(
                                spared(self.spec_edges(), d),
                                0,
                                node,
                            ),
                    decreases n - c,
                {
                    if c != node {
                        let rest = survivors(&self.edges, c);
                        proof {
                            assert forall|i: int| 0 <= i < rest@.len() implies (
                            #[trigger] rest@[i]).0 < n && rest@[i].1 < n by {
                                let k = self.edges@.index_of(rest@[i]);
                                assert(self.edges@[k] == rest@[i]);
                            }
                            assert(rest@.to_set() == spared(self.spec_edges(), c));
                        }
                        let marks = reach(&rest, n, 0);
                        if !marks[node] {
                            assert(!reaches(spared(self.spec_edges(), c), 0, node));
                            return false;
                        }
                    }
                    c += 1;
                }
                true
            },
        }
    }

    /// A machine all of whose parents are one relay is not redundant: that relay's
    /// death strands it.
    pub proof fn law_one_relay_is_not_redundant(&self, node: usize, relay: usize)
        requires
            self.wf(),
            0 < node < self.spec_ids().len(),
            0 < relay < self.spec_ids().len(),
            relay != node,
            forall|e: (usize, usize)| #[trigger]
                self.spec_edges().contains(e) && e.1 == node ==> e.0 == relay,
        ensures
            !self.redundant(node as int),
    {
        let rest = spared(self.spec_edges(), relay);
        if self.redundant(node as int) {
            assert(reaches(rest, 0, (node as int) as usize));
            let w = choose|w: Seq<usize>| leads(rest, w, 0, node);
            assert(step(rest, w, w.len() - 2));
            assert(self.spec_edges().contains((w[w.len() - 2], node)));
        }
    }

    /// A machine that the coordinator reaches directly is redundant.
    pub proof fn law_a_direct_machine_is_redundant(&self, node: usize)
        requires
            self.wf(),
            self.spec_edges().contains((0, node)),
        ensures
            self.redundant(node as int),
    {
        assert forall|c: usize| 0 < c < self.spec_ids().len() && c != node implies #[trigger] reaches(
            spared(self.spec_edges(), c),
            0,
            node,
        ) by {
            lemma_reaches_link(spared(self.spec_edges(), c), 0, node);
        }
    }

    /// A redundant machine stays connected to the coordinator after any single
    /// other death, so no single point of failure separates the two.
    pub proof fn law_redundant_survives_any_single_death(&self, node: usize, c: usize)
        requires
            self.wf(),
            node < self.spec_ids().len(),
            0 < c < self.spec_ids().len(),
            c != node,
            self.redundant(node as int),
        ensures
            connected(spared(self.spec_edges(), c), 0, node),
            connected(spared(self.spec_edges(), c), node, 0),
            !separates(self.spec_edges(), c, node, 0),
    {
        let rest = spared(self.spec_edges(), c);
        assert(reaches(rest, 0, (node as int) as usize));
        lemma_reaches_is_connected(rest, 0, node);
        lemma_connected_symmetric(rest, 0, node);
    }
}

/// Every known id has a vertex.
proof fn lemma_known(names: Seq<Seq<char>>, id: Seq<char>)
    requires
        names.len() > 0,
        names[0] == ROOT@,
        id == ROOT@ || names.skip(1).contains(id),
    ensures
        0 <= vertex_of(names, id) < names.len(),
{
    lemma_vertex_of(names, id);
    if id == ROOT@ {
        assert(names.contains(names[0]));
    } else {
        let k = names.skip(1).index_of(id);
        assert(names[k + 1] == id);
    }
}

/// Whether `ids` and `edges` are the vertices and edges that `nodes` give.
pub open spec fn depicts(
    nodes: Map<Seq<char>, NodeModel>,
    ids: Seq<Seq<char>>,
    edges: Set<(usize, usize)>,
) -> bool {
    &&& ids.len() > 0
    &&& ids.len() <= usize::MAX
    &&& ids[0] == ROOT@
    &&& ascending(ids.skip(1))
    &&& forall|id: Seq<char>| #[trigger]
        ids.skip(1).contains(id) <==> exists|path: Seq<char>|
            nodes.contains_key(path) && (#[trigger] nodes[path]).id == Some(id)
    &&& forall|e: (usize, usize)| #[trigger]
        edges.contains(e) <==> exists|path: Seq<char>| #[trigger] gives_edge(nodes, ids, path, e)
}

/// One step of the argument: the coordinator reaches the machine of the node at
/// `path`.
proof fn lemma_path_reached(
    nodes: Map<Seq<char>, NodeModel>,
    ids: Seq<Seq<char>>,
    edges: Set<(usize, usize)>,
    path: Seq<char>,
)
    requires
        depicts(nodes, ids, edges),
        !ids.skip(1).contains(ROOT@),
        discovered(nodes, path),
    ensures
        0 <= vertex_of(ids, nodes[path].id->0) < ids.len(),
        reaches(edges, 0, vertex_of(ids, nodes[path].id->0) as usize),
    decreases path.len(),
{
    let id = nodes[path].id->0;
    assert(ids.skip(1).contains(id)) by {
        assert(nodes.contains_key(path) && nodes[path].id == Some(id));
    }
    lemma_known(ids, id);
    let up = parent_id(nodes, path);
    lemma_parent_then_leaf(path);
    lemma_vertex_of(ids, ROOT@);
    assert(vertex_of(ids, ROOT@) == 0) by {
        let v = vertex_of(ids, ROOT@);
        assert(ids.contains(ids[0]));
        if v > 0 {
            assert(ids.skip(1)[v - 1] == ROOT@);
        }
    }
    if up == ROOT@ {
        lemma_reaches_self(edges, 0);
    } else {
        let parent = parent_path(path)->0;
        lemma_path_reached(nodes, ids, edges, parent);
    }
    let u = vertex_of(ids, up) as usize;
    let v = vertex_of(ids, id) as usize;
    assert(reaches(edges, 0, u));
    if u != v {
        assert(gives_edge(nodes, ids, path, (u, v)));
        assert(edges.contains((u, v)));
        lemma_reaches_link(edges, u, v);
        lemma_reaches_transitive(edges, 0, u, v);
    }
}

/// The coordinator reaches every discovered machine, from parent to child (no
/// machine being named like the coordinator itself).
pub proof fn law_every_machine_is_reached(
    nodes: Map<Seq<char>, NodeModel>,
    ids: Seq<Seq<char>>,
    edges: Set<(usize, usize)>,
    v: usize,
)
    requires
        depicts(nodes, ids, edges),
        !ids.skip(1).contains(ROOT@),
        v < ids.len(),
    ensures
        reaches(edges, 0, v),
        connected(edges, v, 0),
{
    if v == 0 {
        lemma_reaches_self(edges, 0);
    } else {
        let id = ids[v as int];
        assert(ids.skip(1)[v - 1] == id);
        assert(ids.skip(1).contains(id));
        let path = choose|path: Seq<char>|
            nodes.contains_key(path) && (#[trigger] nodes[path]).id == Some(id);
        lemma_path_reached(nodes, ids, edges, path);
        lemma_vertex_of(ids, id);
        let w = vertex_of(ids, id);
        if w < v {
            assert(ids[v as int] == id);
        } else if w > v {
            assert(crate::text::lex_lt(ids.skip(1)[v - 1], ids.skip(1)[w - 1]));
            crate::text::lemma_lex_irreflexive(id);
        }
    }
    lemma_reaches_is_connected(edges, 0, v);
    lemma_connected_symmetric(edges, 0, v);
}

/// One machine is one vertex: two discovered nodes with the same machine id share
/// theirs, and different machines have different ones.
pub proof fn law_one_vertex_per_machine(
    nodes: Map<Seq<char>, NodeModel>,
    ids: Seq<Seq<char>>,
    edges: Set<(usize, usize)>,
    a: Seq<char>,
    b: Seq<char>,
)
    requires
        depicts(nodes, ids, edges),
        discovered(nodes, a),
        discovered(nodes, b),
    ensures
        (nodes[a].id == nodes[b].id) <==> (vertex_of(ids, nodes[a].id->0) == vertex_of(
            ids,
            nodes[b].id->0,
        )),
{
    let ia = nodes[a].id->0;
    let ib = nodes[b].id->0;
    assert(ids.skip(1).contains(ia)) by {
        assert(nodes.contains_key(a) && nodes[a].id == Some(ia));
    }
    assert(ids.skip(1).contains(ib)) by {
        assert(nodes.contains_key(b) && nodes[b].id == Some(ib));
    }
    lemma_known(ids, ia);
    lemma_known(ids, ib);
    lemma_vertex_of(ids, ia);
    lemma_vertex_of(ids, ib);
}

/// Every discovered node below another gives the link between their two machines, every
/// top-level one the link from the coordinator, unless both ends are one machine.
pub proof fn law_every_hop_is_a_link(
    nodes: Map<Seq<char>, NodeModel>,
    ids: Seq<Seq<char>>,
    edges: Set<(usize, usize)>,
    path: Seq<char>,
    id: Seq<char>,
    above: Seq<char>,
)
    requires
        depicts(nodes, ids, edges),
        nodes.contains_key(path),
        nodes[path].id == Some(id),
        match parent_path(path) {
            None => above == ROOT@,
            Some(parent) => nodes.contains_key(parent) && nodes[parent].id == Some(above),
        },
        above != id,
        !ids.skip(1).contains(ROOT@),
    ensures
        exists|u: usize, v: usize|
            u < ids.len() && v < ids.len() && ids[u as int] == above && ids[v as int] == id
                && #[trigger] edges.contains((u, v)),
{
    assert(ids.skip(1).contains(id));
    lemma_known(ids, id);
    match parent_path(path) {
        None => {},
        Some(parent) => {
            assert(ids.skip(1).contains(above)) by {
                assert(nodes.contains_key(parent) && nodes[parent].id == Some(above));
            }
        },
    }
    lemma_known(ids, above);
    lemma_vertex_of(ids, id);
    lemma_vertex_of(ids, above);
    let u = vertex_of(ids, above) as usize;
    let v = vertex_of(ids, id) as usize;
    assert(gives_edge(nodes, ids, path, (u, v)));
    assert(edges.contains((u, v)));
}

/// Every link was found by some discovered node: it ends at that node's machine and
/// begins at the machine one hop up, or at the coordinator where that is not known.
pub proof fn law_every_link_is_a_hop(
    nodes: Map<Seq<char>, NodeModel>,
    ids: Seq<Seq<char>>,
    edges: Set<(usize, usize)>,
    u: usize,
    v: usize,
) -> (path: Seq<char>)
    requires
        depicts(nodes, ids, edges),
        edges.contains((u, v)),
    ensures
        u < ids.len(),
        v < ids.len(),
        u != v,
        nodes.contains_key(path),
        nodes[path].id == Some(ids[v as int]),
        match parent_path(path) {
            None => ids[u as int] == ROOT@,
            Some(parent) => if nodes.contains_key(parent) && nodes[parent].id is Some {
                nodes[parent].id == Some(ids[u as int])
            } else {
                ids[u as int] == ROOT@
            },
        },
{
    let path = choose|path: Seq<char>| #[trigger] gives_edge(nodes, ids, path, (u, v));
    let id = nodes[path].id->0;
    let above = parent_id(nodes, path);
    assert(nodes[path].id == Some(id));
    assert(ids.skip(1).contains(id));
    lemma_known(ids, id);
    lemma_vertex_of(ids, id);
    match parent_path(path) {
        None => {},
        Some(parent) => {
            if nodes.contains_key(parent) && nodes[parent].id is Some {
                assert(nodes[parent].id == Some(above));
                assert(ids.skip(1).contains(above));
            }
        },
    }
    lemma_known(ids, above);
    lemma_vertex_of(ids, above);
    path
}

/// The machines of a graph are the coordinator first and then each discovered machine
/// once, in the order of their ids.
pub proof fn law_the_machines_of_a_graph(
    nodes: Map<Seq<char>, NodeModel>,
    ids: Seq<Seq<char>>,
    edges: Set<(usize, usize)>,
    id: Seq<char>,
)
    requires
        depicts(nodes, ids, edges),
    ensures
        ids.len() > 0,
        ids[0] == "\0coordinator"@,
        ids.skip(1).contains(id) <==> exists|path: Seq<char>|
            nodes.contains_key(path) && (#[trigger] nodes[path]).id == Some(id),
        forall|i: int, j: int|
            1 <= i < j < ids.len() ==> crate::text::lex_lt(#[trigger] ids[i], #[trigger] ids[j]),
{
    assert forall|i: int, j: int| 1 <= i < j < ids.len() implies crate::text::lex_lt(
        #[trigger] ids[i],
        #[trigger] ids[j],
    ) by {
        assert(ids.skip(1)[i - 1] == ids[i]);
        assert(ids.skip(1)[j - 1] == ids[j]);
    }
}

impl Topology {
    /// The single points of failure named are exactly the machines whose death parts two
    /// others, the coordinator apart.
    pub proof fn law_who_is_a_single_point_of_failure(&self, n: int, id: Seq<char>)
        requires
            self.wf(),
            0 <= n <= self.spec_ids().len() <= usize::MAX,
        ensures
            self.failing_below(n).contains(id) <==> id != "\0coordinator"@ && exists|v: int|
                0 <= v < n && (#[trigger] self.spec_ids()[v]) == id && is_cut(
                    self.spec_edges(),
                    v as usize,
                ),
        decreases n,
    {
        if n > 0 {
            self.law_who_is_a_single_point_of_failure(n - 1, id);
            let before = self.failing_below(n - 1);
            let now = self.failing_below(n);
            let last = self.spec_ids()[n - 1];
            let added = is_cut(self.spec_edges(), (n - 1) as usize) && last != ROOT@;
            if added {
                if before.contains(id) {
                    assert(now[before.index_of(id)] == id);
                }
                if last == id {
                    assert(now[before.len() as int] == id);
                }
                if now.contains(id) && last != id {
                    assert(before[now.index_of(id)] == id);
                }
            }
            if before.contains(id) {
                let v = choose|v: int|
                    0 <= v < n - 1 && (#[trigger] self.spec_ids()[v]) == id && is_cut(
                        self.spec_edges(),
                        v as usize,
                    );
                assert(self.spec_ids()[v] == id);
            }
            if id != ROOT@ && exists|v: int|
                0 <= v < n && (#[trigger] self.spec_ids()[v]) == id && is_cut(
                    self.spec_edges(),
                    v as usize,
                ) {
                let v = choose|v: int|
                    0 <= v < n && (#[trigger] self.spec_ids()[v]) == id && is_cut(
                        self.spec_edges(),
                        v as usize,
                    );
                if v < n - 1 {
                    assert(self.spec_ids()[v] == id);
                }
            }
        }
    }

    /// The parents named of a machine are exactly the machines, the coordinator apart,
    /// that a link leads from to it.
    pub proof fn law_who_is_a_parent(&self, child: int, k: int, id: Seq<char>)
        requires
            self.wf(),
            0 <= k <= self.edge_list().len(),
        ensures
            self.parents_below(child, k).contains(id) <==> id != "\0coordinator"@ && exists|e: int|
                0 <= e < k && (#[trigger] self.edge_list()[e]).1 == child
                    && self.spec_ids()[self.edge_list()[e].0 as int] == id,
        decreases k,
    {
        if k > 0 {
            self.law_who_is_a_parent(child, k - 1, id);
            let before = self.parents_below(child, k - 1);
            let now = self.parents_below(child, k);
            let (from, to) = self.edge_list()[k - 1];
            let last = self.spec_ids()[from as int];
            if to == child && last != ROOT@ {
                if before.contains(id) {
                    assert(now[before.index_of(id)] == id);
                }
                if last == id {
                    assert(now[before.len() as int] == id);
                }
                if now.contains(id) && last != id {
                    assert(before[now.index_of(id)] == id);
                }
            }
            if before.contains(id) {
                let e = choose|e: int|
                    0 <= e < k - 1 && (#[trigger] self.edge_list()[e]).1 == child
                        && self.spec_ids()[self.edge_list()[e].0 as int] == id;
                assert(self.edge_list()[e].1 == child);
            }
            if id != ROOT@ && exists|e: int|
                0 <= e < k && (#[trigger] self.edge_list()[e]).1 == child
                    && self.spec_ids()[self.edge_list()[e].0 as int] == id {
                let e = choose|e: int|
                    0 <= e < k && (#[trigger] self.edge_list()[e]).1 == child
                        && self.spec_ids()[self.edge_list()[e].0 as int] == id;
                if e < k - 1 {
                    assert(self.edge_list()[e].1 == child);
                }
            }
        }
    }
}

} // verus!
