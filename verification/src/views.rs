//! Questions the dashboard asks of a run's picture: which paths reach a machine,
//! how far along it is, and which of its links carries the work.
use vstd::prelude::*;

use crate::graph::{parent_id, ROOT};
use crate::observability::{
    law_a_path_splits_at_its_last_slash, leaf_label, leaf_of, lemma_parent_then_leaf,
    optional_text, parent_of, parent_path, NodeModel, NodeState, NodeView, RunState,
};
use crate::text::{same, texts, to_chars};

verus! {

/// The paths among the first `n` entries that reach machine `id`, in path order.
pub open spec fn paths_below(entries: Seq<(String, NodeView)>, id: Seq<char>, n: int) -> Seq<
    Seq<char>,
>
    decreases n,
{
    if n <= 0 {
        Seq::empty()
    } else if optional_text(entries[n - 1].1.id) == Some(id) {
        paths_below(entries, id, n - 1).push(entries[n - 1].0@)
    } else {
        paths_below(entries, id, n - 1)
    }
}

/// The paths that reach machine `id`, in path order.
pub open spec fn paths_to(state: RunState, id: Seq<char>) -> Seq<Seq<char>> {
    paths_below(state.nodes.entries@, id, state.nodes.entries@.len() as int)
}

/// Whether the node's machine id is `id`.
fn has_id(view: &NodeView, id: &str) -> (r: bool)
    ensures
        r == (optional_text(view.id) == Some(id@)),
{
    match &view.id {
        Some(mine) => same(mine.as_str(), id),
        None => false,
    }
}

/// The paths that reach machine `id`, in path order.
pub fn paths_by_id(state: &RunState, id: &str) -> (r: Vec<String>)
    ensures
        texts(r@) == paths_to(*state, id@),
{
    let mut r: Vec<String> = Vec::new();
    let mut i: usize = 0;
    proof {
        assert(texts(r@) =~= Seq::empty());
    }
    while i < state.nodes.entries.len()
        invariant
            i <= state.nodes.entries@.len(),
            texts(r@) == paths_below(state.nodes.entries@, id@, i as int),
        decreases state.nodes.entries@.len() - i,
    {
        let ghost before = r@;
        if has_id(&state.nodes.entries[i].1, id) {
            r.push(state.nodes.entries[i].0.clone());
            proof {
                assert(texts(r@) =~= texts(before).push(state.nodes.entries@[i as int].0@));
            }
        }
        i += 1;
    }
    r
}

/// The paths that reach a machine are those of the nodes with its id.
pub proof fn law_paths_reach_the_machine(state: RunState, id: Seq<char>, n: int)
    requires
        state.wf(),
        0 <= n <= state.nodes.entries@.len(),
    ensures
        forall|path: Seq<char>| #[trigger]
            paths_below(state.nodes.entries@, id, n).contains(path) <==> exists|i: int|
                0 <= i < n && (#[trigger] state.nodes.entries@[i]).0@ == path && optional_text(
                    state.nodes.entries@[i].1.id,
                ) == Some(id),
    decreases n,
{
    let entries = state.nodes.entries@;
    if n > 0 {
        law_paths_reach_the_machine(state, id, n - 1);
        let before = paths_below(entries, id, n - 1);
        let after = paths_below(entries, id, n);
        assert forall|path: Seq<char>| #[trigger] after.contains(path) <==> exists|i: int|
            0 <= i < n && (#[trigger] entries[i]).0@ == path && optional_text(entries[i].1.id)
                == Some(id) by {
            if optional_text(entries[n - 1].1.id) == Some(id) {
                assert(after.contains(path) <==> before.contains(path) || path
                    == entries[n - 1].0@) by {
                    if before.contains(path) {
                        assert(after[before.index_of(path)] == path);
                    }
                    if path == entries[n - 1].0@ {
                        assert(after[before.len() as int] == path);
                    }
                    if after.contains(path) && path != entries[n - 1].0@ {
                        assert(before[after.index_of(path)] == path);
                    }
                }
            }
            if before.contains(path) {
                let i = choose|i: int|
                    0 <= i < n - 1 && (#[trigger] entries[i]).0@ == path && optional_text(
                        entries[i].1.id,
                    ) == Some(id);
                assert(0 <= i < n);
            }
            if exists|i: int|
                0 <= i < n && (#[trigger] entries[i]).0@ == path && optional_text(entries[i].1.id)
                    == Some(id) {
                let i = choose|i: int|
                    0 <= i < n && (#[trigger] entries[i]).0@ == path && optional_text(
                        entries[i].1.id,
                    ) == Some(id);
                if i < n - 1 {
                    assert(before.contains(path));
                }
            }
        }
    }
}

/// Whether a machine was discovered.
pub fn is_discovered(state: &RunState, id: &str) -> (r: bool)
    ensures
        r == (paths_to(*state, id@).len() > 0),
{
    let paths = paths_by_id(state, id);
    proof {
        assert(texts(paths@).len() == paths@.len());
    }
    paths.len() > 0
}

/// Whether a relay on the way to `path` was lost.
pub open spec fn stranded(nodes: Map<Seq<char>, NodeModel>, path: Seq<char>) -> bool
    decreases path.len(),
{
    proof {
        lemma_parent_then_leaf(path);
    }
    match parent_path(path) {
        None => false,
        Some(parent) => (nodes.contains_key(parent) && nodes[parent].state == NodeState::Lost)
            || stranded(nodes, parent),
    }
}

/// The state a node is shown in: lost if a relay on the way to it was, else its
/// own. A node nothing is known of counts as just sighted.
pub open spec fn effective(nodes: Map<Seq<char>, NodeModel>, path: Seq<char>) -> NodeState {
    if stranded(nodes, path) {
        NodeState::Lost
    } else if nodes.contains_key(path) {
        nodes[path].state
    } else {
        NodeState::Working
    }
}

/// Whether a relay on the way to `path` was lost.
fn is_stranded(state: &RunState, path: &str) -> (r: bool)
    requires
        state.wf(),
    ensures
        r == stranded(state@.nodes, path@),
    decreases path@.len(),
{
    proof {
        lemma_parent_then_leaf(path@);
    }
    match parent_of(path) {
        None => false,
        Some(parent) => {
            let lost = match state.nodes.get(parent.as_str()) {
                Some(view) => view.state == NodeState::Lost,
                None => false,
            };
            lost || is_stranded(state, parent.as_str())
        },
    }
}

/// The state a node is shown in.
pub fn effective_state(state: &RunState, path: &str) -> (r: NodeState)
    requires
        state.wf(),
    ensures
        r == effective(state@.nodes, path@),
{
    if is_stranded(state, path) {
        return NodeState::Lost;
    }
    match state.nodes.get(path) {
        Some(view) => view.state,
        None => NodeState::Working,
    }
}

/// Whatever is below a lost relay is shown lost.
pub proof fn law_below_a_lost_relay_is_lost(
    nodes: Map<Seq<char>, NodeModel>,
    path: Seq<char>,
)
    requires
        parent_path(path) is Some,
        nodes.contains_key(parent_path(path)->0),
        effective(nodes, parent_path(path)->0) == NodeState::Lost,
    ensures
        effective(nodes, path) == NodeState::Lost,
{
    reveal_with_fuel(stranded, 2);
    lemma_parent_then_leaf(path);
}

/// How advanced a state is: the larger rank is the further along.
pub open spec fn rank(state: NodeState) -> u8 {
    match state {
        NodeState::Lost => 0,
        NodeState::Probing => 1,
        NodeState::Installing => 2,
        NodeState::Syncing => 3,
        NodeState::Building => 4,
        NodeState::Idle => 5,
        NodeState::Paused => 5,
        NodeState::Ready => 6,
        NodeState::Working => 7,
        NodeState::Draining => 7,
        NodeState::Done => 8,
    }
}

/// How advanced a state is, for picking a machine's representative state.
pub fn state_rank(state: NodeState) -> (r: u8)
    ensures
        r == rank(state),
{
    match state {
        NodeState::Lost => 0,
        NodeState::Probing => 1,
        NodeState::Installing => 2,
        NodeState::Syncing => 3,
        NodeState::Building => 4,
        NodeState::Idle => 5,
        NodeState::Paused => 5,
        NodeState::Ready => 6,
        NodeState::Working => 7,
        NodeState::Draining => 7,
        NodeState::Done => 8,
    }
}

/// The most advanced state along the first `n` paths, the later of two equals.
pub open spec fn best_state(
    nodes: Map<Seq<char>, NodeModel>,
    paths: Seq<Seq<char>>,
    n: int,
) -> Option<NodeState>
    decreases n,
{
    if n <= 0 {
        None
    } else {
        let here = effective(nodes, paths[n - 1]);
        match best_state(nodes, paths, n - 1) {
            None => Some(here),
            Some(before) => if rank(here) >= rank(before) {
                Some(here)
            } else {
                Some(before)
            },
        }
    }
}

/// A machine's representative state: the most advanced along all the paths that
/// reach it, so one that completed on its surviving path reads done even if a dead
/// path still strands a copy. `None` for the coordinator and unknown machines.
pub fn vertex_state(state: &RunState, id: &str) -> (r: Option<NodeState>)
    requires
        state.wf(),
    ensures
        r == best_state(state@.nodes, paths_to(*state, id@), paths_to(*state, id@).len() as int),
{
    let paths = paths_by_id(state, id);
    let mut best: Option<NodeState> = None;
    let mut i: usize = 0;
    while i < paths.len()
        invariant
            state.wf(),
            i <= paths@.len(),
            best == best_state(state@.nodes, texts(paths@), i as int),
        decreases paths@.len() - i,
    {
        let here = effective_state(state, paths[i].as_str());
        best = match best {
            None => Some(here),
            Some(before) => if state_rank(here) >= state_rank(before) {
                Some(here)
            } else {
                Some(before)
            },
        };
        i += 1;
    }
    best
}

/// No path's state is further along than the representative one.
pub proof fn law_representative_is_the_furthest(
    nodes: Map<Seq<char>, NodeModel>,
    paths: Seq<Seq<char>>,
    i: int,
    n: int,
)
    requires
        0 <= i < n <= paths.len(),
    ensures
        best_state(nodes, paths, n) is Some,
        rank(effective(nodes, paths[i])) <= rank(best_state(nodes, paths, n)->0),
    decreases n,
{
    if i < n - 1 {
        law_representative_is_the_furthest(nodes, paths, i, n - 1);
    }
}

/// A machine's label: the local name of the first path that reaches it, or the
/// coordinator's.
pub open spec fn label_of(state: RunState, id: Seq<char>) -> Seq<char> {
    if paths_to(state, id).len() > 0 {
        leaf_label(paths_to(state, id)[0])
    } else {
        "coordinator"@
    }
}

/// A machine's label.
pub fn vertex_label(state: &RunState, id: &str) -> (r: String)
    ensures
        r@ == label_of(*state, id@),
{
    let paths = paths_by_id(state, id);
    proof {
        assert(texts(paths@).len() == paths@.len());
    }
    if paths.len() > 0 {
        proof {
            assert(texts(paths@)[0] == paths@[0]@);
        }
        leaf_of(paths[0].as_str())
    } else {
        "coordinator".to_owned()
    }
}

/// The latency of the last hop to `path`; zero where it was not measured.
pub open spec fn hop(nodes: Map<Seq<char>, NodeModel>, path: Seq<char>) -> nat {
    if nodes.contains_key(path) {
        match nodes[path].latency_us {
            Some(us) => us as nat,
            None => 0,
        }
    } else {
        0
    }
}

/// The latency of the whole way to `path`.
pub open spec fn way(nodes: Map<Seq<char>, NodeModel>, path: Seq<char>) -> nat
    decreases path.len(),
{
    proof {
        lemma_parent_then_leaf(path);
    }
    hop(nodes, path) + match parent_path(path) {
        None => 0,
        Some(parent) => way(nodes, parent),
    }
}

proof fn lemma_way_bound(nodes: Map<Seq<char>, NodeModel>, path: Seq<char>)
    ensures
        way(nodes, path) <= (path.len() + 1) * 0xffff_ffff_ffff_ffff,
    decreases path.len(),
{
    lemma_parent_then_leaf(path);
    match parent_path(path) {
        None => {
            assert((path.len() + 1) * 0xffff_ffff_ffff_ffff >= 0xffff_ffff_ffff_ffff)
                by (nonlinear_arith);
        },
        Some(parent) => {
            lemma_way_bound(nodes, parent);
            let a = parent.len();
            let b = path.len();
            assert((b + 1) * 0xffff_ffff_ffff_ffff >= (a + 1) * 0xffff_ffff_ffff_ffff
                + 0xffff_ffff_ffff_ffff) by (nonlinear_arith)
                requires
                    a < b,
            ;
        },
    }
}

/// The latency of the whole way to `path`.
fn way_latency(state: &RunState, path: &str) -> (r: u128)
    requires
        state.wf(),
    ensures
        r == way(state@.nodes, path@),
    decreases path@.len(),
{
    proof {
        lemma_parent_then_leaf(path@);
        lemma_way_bound(state@.nodes, path@);
    }
    let length: usize = to_chars(path).len();
    proof {
        let n = length as int;
        assert((n + 1) * 0xffff_ffff_ffff_ffff <= 0xffff_ffff_ffff_ffff_ffff_ffff_ffff_ffff)
            by (nonlinear_arith)
            requires
                0 <= n <= 0xffff_ffff_ffff_ffff,
        ;
    }
    let last: u64 = match state.nodes.get(path) {
        Some(view) => match view.latency_us {
            Some(us) => us,
            None => 0,
        },
        None => 0,
    };
    match parent_of(path) {
        None => last as u128,
        Some(parent) => {
            let before: u128 = way_latency(state, parent.as_str());
            last as u128 + before
        },
    }
}

/// The position of the fastest of the first `n` paths, the earlier of two equals.
pub open spec fn fastest(nodes: Map<Seq<char>, NodeModel>, paths: Seq<Seq<char>>, n: int) -> int
    decreases n,
{
    if n <= 1 {
        0
    } else {
        let before = fastest(nodes, paths, n - 1);
        if way(nodes, paths[n - 1]) < way(nodes, paths[before]) {
            n - 1
        } else {
            before
        }
    }
}

proof fn lemma_fastest(nodes: Map<Seq<char>, NodeModel>, paths: Seq<Seq<char>>, n: int)
    requires
        1 <= n <= paths.len(),
    ensures
        0 <= fastest(nodes, paths, n) < n,
    decreases n,
{
    if n > 1 {
        lemma_fastest(nodes, paths, n - 1);
    }
}

/// No path to a machine is faster than its primary one.
pub proof fn law_the_primary_is_fastest(
    nodes: Map<Seq<char>, NodeModel>,
    paths: Seq<Seq<char>>,
    i: int,
    n: int,
)
    requires
        0 <= i < n <= paths.len(),
    ensures
        0 <= fastest(nodes, paths, n) < n,
        way(nodes, paths[fastest(nodes, paths, n)]) <= way(nodes, paths[i]),
    decreases n,
{
    lemma_fastest(nodes, paths, n);
    if n > 1 {
        lemma_fastest(nodes, paths, n - 1);
        if i < n - 1 {
            law_the_primary_is_fastest(nodes, paths, i, n - 1);
        }
    }
}

/// Whether all the paths come through the same machine one hop up.
pub open spec fn one_parent(nodes: Map<Seq<char>, NodeModel>, paths: Seq<Seq<char>>) -> bool {
    forall|i: int|
        0 <= i < paths.len() ==> parent_id(nodes, #[trigger] paths[i]) == parent_id(
            nodes,
            paths[0],
        )
}

/// Whether the link from `parent` to machine `child` carries the work: a machine
/// with one parent is reached through it whatever the pair asked about, any other
/// through the parent of its fastest path.
pub open spec fn carries(state: RunState, parent: Seq<char>, child: Seq<char>) -> bool {
    let paths = paths_to(state, child);
    paths.len() == 0 || one_parent(state@.nodes, paths) || parent_id(
        state@.nodes,
        paths[fastest(state@.nodes, paths, paths.len() as int)],
    ) == parent
}

/// The machine one hop up from the node at `path`, or the coordinator.
fn parent_machine(state: &RunState, path: &str) -> (r: String)
    requires
        state.wf(),
    ensures
        r@ == parent_id(state@.nodes, path@),
{
    match parent_of(path) {
        None => ROOT.to_owned(),
        Some(parent) => match state.nodes.get(parent.as_str()) {
            None => ROOT.to_owned(),
            Some(view) => match &view.id {
                Some(id) => id.clone(),
                None => ROOT.to_owned(),
            },
        },
    }
}

/// Whether the link from `parent` to machine `child` is the active primary one.
pub fn edge_is_active(state: &RunState, parent: &str, child: &str) -> (r: bool)
    requires
        state.wf(),
    ensures
        r == carries(*state, parent@, child@),
{
    let paths = paths_by_id(state, child);
    let ghost all = texts(paths@);
    proof {
        assert(all.len() == paths@.len());
    }
    if paths.len() == 0 {
        return true;
    }
    let first = parent_machine(state, paths[0].as_str());
    let mut alone = true;
    let mut best: usize = 0;
    let mut least: u128 = way_latency(state, paths[0].as_str());
    let mut i: usize = 1;
    while i < paths.len()
        invariant
            state.wf(),
            all == texts(paths@),
            1 <= i <= paths@.len(),
            first@ == parent_id(state@.nodes, all[0]),
            alone == forall|k: int|
                0 <= k < i ==> parent_id(state@.nodes, #[trigger] all[k]) == first@,
            best == fastest(state@.nodes, all, i as int),
            best < i,
            least == way(state@.nodes, all[best as int]),
        decreases paths@.len() - i,
    {
        assert(all[i as int] == paths@[i as int]@);
        let up = parent_machine(state, paths[i].as_str());
        if !same(up.as_str(), first.as_str()) {
            alone = false;
        }
        let here: u128 = way_latency(state, paths[i].as_str());
        if here < least {
            least = here;
            best = i;
        }
        i += 1;
    }
    if alone {
        return true;
    }
    proof {
        assert(!one_parent(state@.nodes, all));
        assert(all[best as int] == paths@[best as int]@);
    }
    let up = parent_machine(state, paths[best].as_str());
    same(up.as_str(), parent)
}

/// Whether the machine one hop up from `path` is `parent`; where that hop was seen
/// without a machine id, or not at all, nothing matches.
pub open spec fn comes_from(
    nodes: Map<Seq<char>, NodeModel>,
    path: Seq<char>,
    parent: Seq<char>,
) -> bool {
    match parent_path(path) {
        None => parent == ROOT@,
        Some(up) => nodes.contains_key(up) && nodes[up].id == Some(parent),
    }
}

/// The first of the first paths from `from` on whose last hop is that from `parent`
/// to `child`, or the number of paths.
pub open spec fn hop_at(
    state: RunState,
    parent: Seq<char>,
    child: Seq<char>,
    from: int,
) -> int
    decreases state.nodes.entries@.len() - from,
{
    if from < 0 || from >= state.nodes.entries@.len() || (optional_text(
        state.nodes.entries@[from].1.id,
    ) == Some(child) && comes_from(state@.nodes, state.nodes.entries@[from].0@, parent)) {
        from
    } else {
        hop_at(state, parent, child, from + 1)
    }
}

/// The measured latency of the link from `parent` to machine `child`, if a path
/// with that last hop was discovered.
pub fn edge_latency(state: &RunState, parent: &str, child: &str) -> (r: Option<u64>)
    requires
        state.wf(),
    ensures
        r == if hop_at(*state, parent@, child@, 0) < state.nodes.entries@.len() {
            state.nodes.entries@[hop_at(*state, parent@, child@, 0)].1.latency_us
        } else {
            None
        },
{
    let mut i: usize = 0;
    while i < state.nodes.entries.len()
        invariant
            state.wf(),
            i <= state.nodes.entries@.len(),
            hop_at(*state, parent@, child@, 0) == hop_at(*state, parent@, child@, i as int),
        decreases state.nodes.entries@.len() - i,
    {
        if has_id(&state.nodes.entries[i].1, child) {
            let matches_parent = match parent_of(state.nodes.entries[i].0.as_str()) {
                None => same(parent, ROOT),
                Some(up) => match state.nodes.get(up.as_str()) {
                    Some(view) => has_id(view, parent),
                    None => false,
                },
            };
            if matches_parent {
                return state.nodes.entries[i].1.latency_us;
            }
        }
        i += 1;
    }
    None
}

proof fn lemma_ancestor_lost(nodes: Map<Seq<char>, NodeModel>, up: Seq<char>, path: Seq<char>)
    requires
        nodes.contains_key(up),
        nodes[up].state == NodeState::Lost,
        up.len() < path.len(),
        path.take(up.len() as int) == up,
        path[up.len() as int] == '/',
    ensures
        stranded(nodes, path),
    decreases path.len(),
{
    lemma_parent_then_leaf(path);
    law_a_path_splits_at_its_last_slash(path);
    assert(path.contains('/'));
    let parent = parent_path(path)->0;
    let leaf = leaf_label(path);
    assert(parent.len() >= up.len()) by {
        if parent.len() < up.len() {
            let k = up.len() - parent.len() - 1;
            assert(leaf[k] == path[up.len() as int]);
            assert(leaf.contains('/'));
        }
    }
    assert(parent =~= path.take(parent.len() as int));
    if parent.len() == up.len() {
        assert(parent =~= up);
    } else {
        assert(parent.take(up.len() as int) =~= up);
        assert(parent[up.len() as int] == path[up.len() as int]);
        lemma_ancestor_lost(nodes, up, parent);
    }
}

/// A node is shown lost as soon as any relay on the way to it is lost, however far up.
pub proof fn law_a_lost_relay_strands_all_below(
    nodes: Map<Seq<char>, NodeModel>,
    up: Seq<char>,
    rest: Seq<char>,
)
    requires
        nodes.contains_key(up),
        nodes[up].state == NodeState::Lost,
    ensures
        effective(nodes, up + seq!['/'] + rest) == NodeState::Lost,
{
    let path = up + seq!['/'] + rest;
    assert(path.take(up.len() as int) =~= up);
    assert(path[up.len() as int] == '/');
    lemma_ancestor_lost(nodes, up, path);
}

/// Where no relay on the way to it is lost a node is shown in its own state, and one
/// nothing is known of as working.
pub proof fn law_otherwise_a_node_shows_its_own_state(
    nodes: Map<Seq<char>, NodeModel>,
    path: Seq<char>,
)
    requires
        forall|k: int|
            0 <= k < path.len() && #[trigger] path[k] == '/' ==> !(nodes.contains_key(path.take(k))
                && nodes[path.take(k)].state == NodeState::Lost),
    ensures
        nodes.contains_key(path) ==> effective(nodes, path) == nodes[path].state,
        !nodes.contains_key(path) ==> effective(nodes, path) == NodeState::Working,
{
    lemma_not_stranded(nodes, path);
}

proof fn lemma_not_stranded(nodes: Map<Seq<char>, NodeModel>, path: Seq<char>)
    requires
        forall|k: int|
            0 <= k < path.len() && #[trigger] path[k] == '/' ==> !(nodes.contains_key(path.take(k))
                && nodes[path.take(k)].state == NodeState::Lost),
    ensures
        !stranded(nodes, path),
    decreases path.len(),
{
    lemma_parent_then_leaf(path);
    match parent_path(path) {
        None => {},
        Some(parent) => {
            let n = parent.len() as int;
            assert(path[n] == '/');
            assert(path.take(n) =~= parent);
            assert forall|k: int| 0 <= k < parent.len() && #[trigger] parent[k] == '/' implies !(
            nodes.contains_key(parent.take(k)) && nodes[parent.take(k)].state
                == NodeState::Lost) by {
                assert(path[k] == '/');
                assert(path.take(k) =~= parent.take(k));
            }
            lemma_not_stranded(nodes, parent);
        },
    }
}

/// The latency of the way to a node is that of the way to the relay above it and of the
/// hop down from there; a top-level node's is that of its own hop, and a hop that was not
/// measured counts as nothing.
pub proof fn law_latencies_add_up_along_the_way(
    nodes: Map<Seq<char>, NodeModel>,
    up: Seq<char>,
    label: Seq<char>,
)
    requires
        !label.contains('/'),
    ensures
        ({
            let path = up + seq!['/'] + label;
            let measured = |at: Seq<char>|
                if nodes.contains_key(at) && nodes[at].latency_us is Some {
                    nodes[at].latency_us->0 as nat
                } else {
                    0
                };
            &&& way(nodes, path) == way(nodes, up) + measured(path)
            &&& way(nodes, label) == measured(label)
        }),
{
    let path = up + seq!['/'] + label;
    law_a_path_splits_at_its_last_slash(path);
    law_a_path_splits_at_its_last_slash(label);
    assert(path[up.len() as int] == '/');
    assert(path.contains('/'));
    let parent = parent_path(path)->0;
    let leaf = leaf_label(path);
    assert(path == parent + seq!['/'] + leaf);
    assert(parent.len() == up.len()) by {
        if parent.len() < up.len() {
            let k = up.len() - parent.len() - 1;
            assert(leaf[k] == path[up.len() as int]);
            assert(leaf.contains('/'));
        } else if parent.len() > up.len() {
            let k = parent.len() - up.len() - 1;
            assert(path[parent.len() as int] == '/');
            assert(label[k] == '/');
            assert(label.contains('/'));
        }
    }
    assert(parent =~= up) by {
        assert forall|k: int| 0 <= k < up.len() implies parent[k] == up[k] by {
            assert(path[k] == up[k]);
        }
    }
}

/// Of several paths the primary one is the fastest, and of equally fast ones the first.
pub proof fn law_the_first_of_the_fastest_is_primary(
    nodes: Map<Seq<char>, NodeModel>,
    paths: Seq<Seq<char>>,
    i: int,
    n: int,
)
    requires
        0 <= i < fastest(nodes, paths, n),
        1 <= n <= paths.len(),
    ensures
        way(nodes, paths[fastest(nodes, paths, n)]) < way(nodes, paths[i]),
    decreases n,
{
    lemma_fastest(nodes, paths, n);
    if n > 1 {
        lemma_fastest(nodes, paths, n - 1);
        if fastest(nodes, paths, n) == n - 1 {
            law_the_primary_is_fastest(nodes, paths, i, n - 1);
        } else {
            law_the_first_of_the_fastest_is_primary(nodes, paths, i, n - 1);
        }
    }
}

/// A machine's representative state is the state of one of its paths; without a path it
/// has none.
pub proof fn law_the_representative_is_one_of_them(
    nodes: Map<Seq<char>, NodeModel>,
    paths: Seq<Seq<char>>,
    n: int,
) -> (i: int)
    requires
        0 <= n <= paths.len(),
    ensures
        n == 0 ==> best_state(nodes, paths, n) is None,
        n > 0 ==> 0 <= i < n && best_state(nodes, paths, n) == Some(effective(nodes, paths[i])),
    decreases n,
{
    if n <= 0 {
        0
    } else {
        let j = law_the_representative_is_one_of_them(nodes, paths, n - 1);
        let here = effective(nodes, paths[n - 1]);
        match best_state(nodes, paths, n - 1) {
            None => n - 1,
            Some(before) => if rank(here) >= rank(before) {
                n - 1
            } else {
                j
            },
        }
    }
}

/// States are ranked by how far along they are: lost is the least, then the steps of
/// provisioning in their order, then waiting for work, working, and done.
pub proof fn law_states_rank_by_progress()
    ensures
        rank(NodeState::Lost) < rank(NodeState::Probing),
        rank(NodeState::Probing) < rank(NodeState::Installing),
        rank(NodeState::Installing) < rank(NodeState::Syncing),
        rank(NodeState::Syncing) < rank(NodeState::Building),
        rank(NodeState::Building) < rank(NodeState::Idle),
        rank(NodeState::Idle) == rank(NodeState::Paused),
        rank(NodeState::Idle) < rank(NodeState::Ready),
        rank(NodeState::Ready) < rank(NodeState::Working),
        rank(NodeState::Working) == rank(NodeState::Draining),
        rank(NodeState::Working) < rank(NodeState::Done),
{
}

/// A link carries the work of a machine exactly if the machine's fastest path comes
/// through it, where several machines lead to it; where one does, every link asked about
/// counts as carrying it.
pub proof fn law_the_work_goes_over_the_fastest_path(
    state: RunState,
    parent: Seq<char>,
    child: Seq<char>,
)
    requires
        paths_to(state, child).len() > 0,
    ensures
        ({
            let paths = paths_to(state, child);
            let primary = paths[fastest(state@.nodes, paths, paths.len() as int)];
            &&& (exists|i: int|
                0 <= i < paths.len() && parent_id(state@.nodes, #[trigger] paths[i]) != parent_id(
                    state@.nodes,
                    paths[0],
                )) ==> (carries(state, parent, child) <==> parent_id(state@.nodes, primary)
                == parent)
            &&& (forall|i: int|
                0 <= i < paths.len() ==> parent_id(state@.nodes, #[trigger] paths[i]) == parent_id(
                    state@.nodes,
                    paths[0],
                )) ==> carries(state, parent, child)
        }),
{
}

/// A machine goes by the last label of its first path; one without a path is the
/// coordinator.
pub proof fn law_machines_go_by_their_first_path(state: RunState, id: Seq<char>)
    ensures
        paths_to(state, id).len() > 0 ==> label_of(state, id) == leaf_label(
            paths_to(state, id)[0],
        ),
        paths_to(state, id).len() == 0 ==> label_of(state, id) == "coordinator"@,
{
}

/// The paths to a machine are exactly the paths of the nodes with its id, in order.
pub proof fn law_paths_come_in_order(state: RunState, id: Seq<char>, n: int)
    requires
        state.wf(),
        0 <= n <= state.nodes.entries@.len(),
    ensures
        ({
            let found = paths_below(state.nodes.entries@, id, n);
            &&& forall|i: int, j: int|
                0 <= i < j < found.len() ==> crate::text::lex_lt(
                    #[trigger] found[i],
                    #[trigger] found[j],
                )
            &&& forall|i: int|
                0 <= i < found.len() ==> exists|k: int|
                    0 <= k < n && (#[trigger] state.nodes.entries@[k]).0@ == #[trigger] found[i]
        }),
    decreases n,
{
    if n > 0 {
        law_paths_come_in_order(state, id, n - 1);
        let entries = state.nodes.entries@;
        let before = paths_below(entries, id, n - 1);
        let found = paths_below(entries, id, n);
        assert forall|i: int| 0 <= i < found.len() implies exists|k: int|
            0 <= k < n && (#[trigger] entries[k]).0@ == #[trigger] found[i] by {
            if i < before.len() {
                assert(found[i] == before[i]);
                let k = choose|k: int| 0 <= k < n - 1 && (#[trigger] entries[k]).0@ == before[i];
                assert(entries[k].0@ == found[i]);
            } else {
                assert(entries[n - 1].0@ == found[i]);
            }
        }
        assert forall|i: int, j: int| 0 <= i < j < found.len() implies crate::text::lex_lt(
            #[trigger] found[i],
            #[trigger] found[j],
        ) by {
            assert(found[i] == before[i]);
            if j < before.len() {
                assert(found[j] == before[j]);
            } else {
                let k = choose|k: int| 0 <= k < n - 1 && (#[trigger] entries[k]).0@ == before[i];
                assert(state.nodes.names()[k] == entries[k].0@);
                assert(state.nodes.names()[n - 1] == entries[n - 1].0@);
            }
        }
    }
}

/// The latency of a link is that of the first node found with that very hop.
pub proof fn law_a_link_has_the_latency_of_its_first_hop(
    state: RunState,
    parent: Seq<char>,
    child: Seq<char>,
    from: int,
)
    requires
        0 <= from <= state.nodes.entries@.len(),
    ensures
        ({
            let at = hop_at(state, parent, child, from);
            let entries = state.nodes.entries@;
            &&& from <= at <= entries.len()
            &&& at < entries.len() ==> optional_text(entries[at].1.id) == Some(child) && comes_from(
                state@.nodes,
                entries[at].0@,
                parent,
            )
            &&& forall|i: int|
                from <= i < at ==> !(optional_text((#[trigger] entries[i]).1.id) == Some(child)
                    && comes_from(state@.nodes, entries[i].0@, parent))
        }),
    decreases state.nodes.entries@.len() - from,
{
    if from < state.nodes.entries@.len() {
        law_a_link_has_the_latency_of_its_first_hop(state, parent, child, from + 1);
    }
}

/// A node comes from a machine if the node one hop up is on it; a top-level node comes from the
/// coordinator.
pub proof fn law_where_a_node_comes_from(
    nodes: Map<Seq<char>, NodeModel>,
    path: Seq<char>,
    parent: Seq<char>,
)
    ensures
        parent_path(path) is None ==> (comes_from(nodes, path, parent) <==> parent
            == "\0coordinator"@),
        parent_path(path) matches Some(up) ==> (comes_from(nodes, path, parent)
            <==> nodes.contains_key(up) && nodes[up].id == Some(parent)),
        parent_path(path) is None ==> parent_id(nodes, path) == "\0coordinator"@,
        parent_path(path) matches Some(up) ==> (nodes.contains_key(up) && nodes[up].id is Some
            ==> parent_id(nodes, path) == nodes[up].id->0) && (!nodes.contains_key(up)
            || nodes[up].id is None ==> parent_id(nodes, path) == "\0coordinator"@),
{
}

} // verus!
