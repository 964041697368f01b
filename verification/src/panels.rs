//! What the dashboard's panels show: the run's summary, the topology with its
//! labels and links, the table of nodes, and the details of what is selected. A
//! time that is shown as a decimal fraction is handed in as text.
use vstd::prelude::*;
use vstd::string::*;

use crate::capability::{Os, Role};
use crate::cells::{
    label_bounds, label_start, least, line_cell, line_cells, line_length, most, right_of, Area,
};
use crate::graph::Topology;
use crate::observability::{
    optional_text, NodeState, NodeTelemetry, NodeView, RunModel, RunState,
};
use crate::text::{decimal, from_chars, holds, push_decimal, same, texts, to_chars};
use crate::tui::{
    edge_under, node_under, optional_link, optional_selection, App, HitMap, Selection,
    SelectionModel,
};
use crate::views::{
    best_state, carries, edge_is_active, edge_latency, effective, effective_state, hop_at,
    label_of, paths_by_id, paths_to, vertex_label, vertex_state,
};

verus! {

/// A colour something is drawn in.
#[derive(Debug, Clone, Copy, PartialEq, Eq, Structural)]
pub enum Colour {
    /// Working, and the link that carries the work.
    Green,
    /// Done.
    Blue,
    /// Lost.
    Red,
    /// Ready for work.
    Cyan,
    /// Still being provisioned.
    Yellow,
    /// The coordinator.
    Magenta,
    /// Emphasised.
    White,
    /// A link held in reserve.
    DarkGray,
}

/// How fast something blinks.
#[derive(Debug, Clone, Copy, PartialEq, Eq, Structural)]
pub enum Blink {
    /// Not at all.
    Steady,
    /// Slowly.
    Slow,
    /// Fast.
    Rapid,
}

/// Whether a node in this state is still being provisioned.
pub open spec fn provisioning(state: NodeState) -> bool {
    state == NodeState::Probing || state == NodeState::Installing || state == NodeState::Syncing
        || state == NodeState::Building
}

/// The colour a node state is drawn in.
pub fn state_colour(state: NodeState) -> (r: Colour)
    ensures
        provisioning(state) ==> r == Colour::Yellow,
        state == NodeState::Working || state == NodeState::Draining ==> r == Colour::Green,
        state == NodeState::Done ==> r == Colour::Blue,
        state == NodeState::Lost ==> r == Colour::Red,
        state == NodeState::Ready || state == NodeState::Idle || state == NodeState::Paused ==> r
            == Colour::Cyan,
{
    match state {
        NodeState::Working | NodeState::Draining => Colour::Green,
        NodeState::Done => Colour::Blue,
        NodeState::Lost => Colour::Red,
        NodeState::Ready | NodeState::Idle | NodeState::Paused => Colour::Cyan,
        NodeState::Probing | NodeState::Installing | NodeState::Syncing | NodeState::Building => {
            Colour::Yellow
        },
    }
}

/// The glyph a machine is drawn with; the coordinator has no state.
pub fn node_glyph(state: Option<NodeState>) -> (r: char)
    ensures
        r == glyph_of(state),
{
    match state {
        None => '\u{25c6}',
        Some(NodeState::Working | NodeState::Draining) => '\u{25cf}',
        Some(NodeState::Done) => '\u{25c9}',
        Some(NodeState::Ready | NodeState::Idle | NodeState::Paused) => '\u{25cb}',
        Some(
            NodeState::Probing | NodeState::Installing | NodeState::Syncing | NodeState::Building,
        ) => '\u{25cd}',
        Some(NodeState::Lost) => '\u{2717}',
    }
}

/// How fast a machine blinks: slowly while it is provisioned, fast when lost.
pub fn node_blink(state: Option<NodeState>) -> (r: Blink)
    ensures
        r == match state {
            Some(s) => if s == NodeState::Lost {
                Blink::Rapid
            } else if provisioning(s) {
                Blink::Slow
            } else {
                Blink::Steady
            },
            None => Blink::Steady,
        },
{
    match state {
        Some(NodeState::Lost) => Blink::Rapid,
        Some(
            NodeState::Probing | NodeState::Installing | NodeState::Syncing | NodeState::Building,
        ) => Blink::Slow,
        _ => Blink::Steady,
    }
}

/// The colour a link is drawn in.
pub fn edge_colour(active: bool, emphasised: bool) -> (r: Colour)
    ensures
        r == if emphasised {
            Colour::White
        } else if active {
            Colour::Green
        } else {
            Colour::DarkGray
        },
{
    if emphasised {
        Colour::White
    } else if active {
        Colour::Green
    } else {
        Colour::DarkGray
    }
}

/// The run's summary; `seconds` is the elapsed time as displayed.
pub open spec fn summary_of(state: RunModel, nodes: nat, seconds: Seq<char>) -> Seq<char> {
    decimal(state.completed) + "/"@ + decimal(state.total_tasks) + " done   "@ + decimal(
        state.failed,
    ) + " failed   "@ + decimal(nodes) + " nodes   "@ + seconds + "s"@
}

/// The run's summary; `seconds` is the elapsed time as displayed.
pub fn summary(state: &RunState, seconds: &str) -> (r: String)
    ensures
        r@ == summary_of(state@, state.nodes.entries@.len(), seconds@),
{
    let mut r = String::new();
    push_decimal(&mut r, state.completed as u64);
    r.append("/");
    push_decimal(&mut r, state.total_tasks as u64);
    r.append(" done   ");
    push_decimal(&mut r, state.failed as u64);
    r.append(" failed   ");
    push_decimal(&mut r, state.nodes.entries.len() as u64);
    r.append(" nodes   ");
    r.append(seconds);
    r.append("s");
    proof {
        assert(r@ =~= summary_of(state@, state.nodes.entries@.len(), seconds@));
    }
    r
}

/// The progress gauge: how many tasks are over, and of how many.
pub fn gauge(state: &RunState) -> (r: (usize, usize))
    requires
        state.completed + state.failed <= usize::MAX,
    ensures
        r.0 == state.completed + state.failed,
        r.1 == state.total_tasks,
{
    (state.completed + state.failed, state.total_tasks)
}

/// The label of the progress gauge.
pub fn gauge_label(state: &RunState) -> (r: String)
    requires
        state.completed + state.failed <= usize::MAX,
    ensures
        r@ == decimal((state.completed + state.failed) as nat) + "/"@ + decimal(
            state.total_tasks as nat,
        ),
{
    let mut r = String::new();
    push_decimal(&mut r, (state.completed + state.failed) as u64);
    r.append("/");
    push_decimal(&mut r, state.total_tasks as u64);
    proof {
        assert(r@ =~= decimal((state.completed + state.failed) as nat) + "/"@ + decimal(
            state.total_tasks as nat,
        ));
    }
    r
}

/// `yes` or `no`.
pub open spec fn yes_or_no(flag: bool) -> Seq<char> {
    if flag {
        "yes"@
    } else {
        "no"@
    }
}

/// `yes` or `no`.
pub fn yes_no(flag: bool) -> (r: &'static str)
    ensures
        r@ == yes_or_no(flag),
{
    if flag {
        "yes"
    } else {
        "no"
    }
}

/// One row of the table of nodes. Every path has its own, so two paths to one
/// machine stay apart.
#[derive(Debug)]
pub struct TableRow {
    /// The node's path.
    pub path: String,
    /// Its role, once known.
    pub role: Option<Role>,
    /// The state it is shown in.
    pub state: NodeState,
    /// Tasks it has finished.
    pub completed: usize,
    /// The latency of the link to it, once known.
    pub latency_us: Option<u64>,
    /// Its instruction set; empty where unknown.
    pub isa: String,
    /// Whether its machine is a single point of failure.
    pub spof: bool,
}

/// The instruction set of a node; empty where unknown.
pub open spec fn isa_of(view: NodeView) -> Seq<char> {
    match view.profile {
        Some(profile) => profile.arch.isa@,
        None => Seq::empty(),
    }
}

/// Whether a row shows the `i`-th node of the run, given the single points of
/// failure.
pub open spec fn row_shows(
    row: TableRow,
    state: RunState,
    i: int,
    spofs: Seq<Seq<char>>,
) -> bool {
    let (path, view) = state.nodes.entries@[i];
    &&& row.path@ == path@
    &&& row.role == view.role
    &&& row.state == effective(state@.nodes, path@)
    &&& row.completed == view.completed
    &&& row.latency_us == view.latency_us
    &&& row.isa@ == isa_of(view)
    &&& row.spof == (optional_text(view.id) matches Some(id) && spofs.contains(id))
}

/// The ids of a run's single points of failure.
pub open spec fn spof_list(state: RunState, spofs: Seq<Seq<char>>) -> bool {
    exists|t: Topology|
        #![trigger t.spec_ids()]
        t.wf() && crate::graph::depicts(state@.nodes, t.spec_ids(), t.spec_edges()) && spofs
            == t.failing_below(t.spec_ids().len() as int)
}

/// The rows of the table of nodes, in path order.
pub fn table_rows(state: &RunState) -> (r: Vec<TableRow>)
    requires
        state.wf(),
    ensures
        r@.len() == state.nodes.entries@.len(),
        exists|spofs: Seq<Seq<char>>| #[trigger]
            spof_list(*state, spofs) && forall|i: int|
                0 <= i < r@.len() ==> row_shows(#[trigger] r@[i], *state, i, spofs),
{
    let topology = Topology::from_run_state(state);
    let spofs = topology.single_points_of_failure();
    let ghost list = texts(spofs@);
    let mut r: Vec<TableRow> = Vec::new();
    let mut i: usize = 0;
    while i < state.nodes.entries.len()
        invariant
            state.wf(),
            list == texts(spofs@),
            i <= state.nodes.entries@.len(),
            r@.len() == i,
            forall|k: int| 0 <= k < i ==> row_shows(#[trigger] r@[k], *state, k, list),
        decreases state.nodes.entries@.len() - i,
    {
        let entry = &state.nodes.entries[i];
        let isa = match &entry.1.profile {
            Some(profile) => profile.arch.isa.clone(),
            None => String::new(),
        };
        let spof = match &entry.1.id {
            Some(id) => holds(&spofs, id.as_str()),
            None => false,
        };
        let row = TableRow {
            path: entry.0.clone(),
            role: entry.1.role,
            state: effective_state(state, entry.0.as_str()),
            completed: entry.1.completed,
            latency_us: entry.1.latency_us,
            isa,
            spof,
        };
        proof {
            assert(row.isa@ =~= isa_of(state.nodes.entries@[i as int].1));
        }
        r.push(row);
        i += 1;
    }
    proof {
        let t = topology;
        assert(t.wf() && crate::graph::depicts(state@.nodes, t.spec_ids(), t.spec_edges()) && list
            == t.failing_below(t.spec_ids().len() as int));
        assert(spof_list(*state, list));
    }
    r
}

/// The cells of a table row; `latency` is its latency in milliseconds as displayed.
pub open spec fn row_cells(row: TableRow, latency: Seq<char>) -> Seq<Seq<char>> {
    seq![
        row.path@,
        match row.role {
            Some(role) => role.spec_name(),
            None => Seq::empty(),
        },
        row.state.spec_name(),
        decimal(row.completed as nat),
        latency,
        row.isa@,
        if row.spof {
            "SPOF"@
        } else {
            Seq::empty()
        },
    ]
}

/// The cells of a table row; `latency` is its latency in milliseconds as displayed.
pub fn row_texts(row: &TableRow, latency: &str) -> (r: Vec<String>)
    ensures
        texts(r@) == row_cells(*row, latency@),
{
    let mut r: Vec<String> = Vec::new();
    r.push(row.path.clone());
    match row.role {
        Some(role) => {
            r.push(role.name().to_owned());
        },
        None => {
            r.push(String::new());
        },
    }
    r.push(row.state.name().to_owned());
    let mut done = String::new();
    push_decimal(&mut done, row.completed as u64);
    proof {
        assert(done@ =~= decimal(row.completed as nat));
    }
    r.push(done);
    r.push(latency.to_owned());
    r.push(row.isa.clone());
    if row.spof {
        r.push("SPOF".to_owned());
    } else {
        r.push(String::new());
    }
    proof {
        assert(texts(r@) =~= row_cells(*row, latency@));
    }
    r
}

/// The newest log lines that fit into `room` rows, oldest first.
pub fn recent_lines(app: &App, room: usize) -> (r: Vec<String>)
    ensures
        texts(r@) == app.log_lines().skip(
            if app.log@.len() > room {
                app.log@.len() - room
            } else {
                0
            },
        ),
{
    let total: usize = app.log.len();
    let from: usize = if total > room {
        total - room
    } else {
        0
    };
    let mut r: Vec<String> = Vec::new();
    let mut i: usize = from;
    while i < total
        invariant
            total == app.log@.len(),
            from <= i <= total,
            r@.len() == i - from,
            forall|k: int| 0 <= k < r@.len() ==> (#[trigger] r@[k])@ == app.log@[from + k]@,
        decreases total - i,
    {
        r.push(app.log[i].clone());
        i += 1;
    }
    proof {
        assert(texts(r@) =~= app.log_lines().skip(from as int));
    }
    r
}

/// What the info panel shows.
#[derive(Debug)]
pub enum Panel {
    /// A machine's details.
    Details(String),
    /// A link's.
    Link(String, String),
    /// The keys and colours.
    Keys,
}

/// What the info panel shows: a pin wins over a hover, and with neither the legend
/// is shown.
pub open spec fn panel_for(
    selected: Option<SelectionModel>,
    hovered: Option<(Seq<char>, Seq<char>)>,
) -> Option<SelectionModel> {
    match selected {
        Some(pin) => Some(pin),
        None => match hovered {
            Some((parent, child)) => Some(SelectionModel::Edge { parent, child }),
            None => None,
        },
    }
}

/// What the info panel shows.
pub fn info_panel(app: &App) -> (r: Panel)
    ensures
        match panel_for(optional_selection(app.selected), optional_link(app.hovered)) {
            Some(SelectionModel::Node { id }) => r matches Panel::Details(found) && found@ == id,
            Some(SelectionModel::Edge { parent, child }) => r matches Panel::Link(p, c) && p@
                == parent && c@ == child,
            None => r is Keys,
        },
{
    match &app.selected {
        Some(Selection::Node(id)) => Panel::Details(id.clone()),
        Some(Selection::Edge(parent, child)) => Panel::Link(parent.clone(), child.clone()),
        None => match &app.hovered {
            Some((parent, child)) => Panel::Link(parent.clone(), child.clone()),
            None => Panel::Keys,
        },
    }
}

impl Panel {
    /// The panel's title.
    pub fn title(&self) -> (r: &'static str)
        ensures
            r@ == match *self {
                Panel::Details(_) => " details "@,
                Panel::Link(_, _) => " link "@,
                Panel::Keys => " keys "@,
            },
    {
        match self {
            Panel::Details(_) => " details ",
            Panel::Link(_, _) => " link ",
            Panel::Keys => " keys ",
        }
    }
}

/// The legend of keys and colours.
pub open spec fn legend() -> Seq<Seq<char>> {
    seq![
        "keys"@,
        "Tab / S-Tab  select"@,
        "click        select"@,
        "hover edge   link info"@,
        "p pause   q quit"@,
        ""@,
        "green working  blue done"@,
        "red lost   cyan ready"@,
        "yellow building"@,
    ]
}

/// The legend of keys and colours.
pub fn legend_lines() -> (r: Vec<String>)
    ensures
        texts(r@) == legend(),
{
    let mut r: Vec<String> = Vec::new();
    r.push("keys".to_owned());
    r.push("Tab / S-Tab  select".to_owned());
    r.push("click        select".to_owned());
    r.push("hover edge   link info".to_owned());
    r.push("p pause   q quit".to_owned());
    r.push("".to_owned());
    r.push("green working  blue done".to_owned());
    r.push("red lost   cyan ready".to_owned());
    r.push("yellow building".to_owned());
    proof {
        assert(texts(r@) =~= legend());
    }
    r
}

/// The lines about a machine's utilisation.
pub open spec fn utilisation(sample: Option<NodeTelemetry>) -> Seq<Seq<char>> {
    match sample {
        None => seq!["util  n/a"@],
        Some(s) => seq![
            "cpu   "@ + decimal(s.cpu_pct as nat) + "%"@,
            "mem   "@ + decimal(s.mem_pct as nat) + "%"@,
        ] + match s.gpu_pct {
            Some(gpu) => seq!["gpu   "@ + decimal(gpu as nat) + "%"@],
            None => Seq::empty(),
        } + seq!["tasks "@ + decimal(s.in_flight as nat) + " running"@],
    }
}

/// `before`, a number, and `after`.
fn around(before: &str, n: u64, after: &str) -> (r: String)
    ensures
        r@ == before@ + decimal(n as nat) + after@,
{
    let mut r = before.to_owned();
    push_decimal(&mut r, n);
    r.append(after);
    r
}

/// The lines about a machine's utilisation, or a single one for a machine that has
/// not reported any.
pub fn telemetry_lines(sample: Option<NodeTelemetry>) -> (r: Vec<String>)
    ensures
        texts(r@) == utilisation(sample),
{
    let mut r: Vec<String> = Vec::new();
    match sample {
        None => {
            r.push("util  n/a".to_owned());
        },
        Some(s) => {
            r.push(around("cpu   ", s.cpu_pct as u64, "%"));
            r.push(around("mem   ", s.mem_pct as u64, "%"));
            match s.gpu_pct {
                Some(gpu) => {
                    r.push(around("gpu   ", gpu as u64, "%"));
                },
                None => {},
            }
            r.push(around("tasks ", s.in_flight as u64, " running"));
        },
    }
    proof {
        assert(texts(r@) =~= utilisation(sample));
    }
    r
}

/// What the detail panel tells of a machine.
#[derive(Debug)]
pub struct NodeDetail {
    /// Its label.
    pub label: String,
    /// Its id.
    pub id: String,
    /// Its role.
    pub role: Role,
    /// Its representative state.
    pub state: NodeState,
    /// Whether its death would cut others off.
    pub spof: bool,
    /// Whether it stays reachable whatever single relay dies.
    pub redundant: bool,
    /// Tasks finished along all the paths that reach it.
    pub completed: u128,
    /// The latency of the link to it along its first path, in microseconds.
    pub latency_us: u64,
    /// Its operating system.
    pub os: Os,
    /// Its instruction set.
    pub isa: String,
    /// Its processor count.
    pub cores: u32,
    /// Its memory in megabytes.
    pub ram_mb: u64,
    /// Its GPU count.
    pub gpus: usize,
    /// Its latest utilisation sample.
    pub telemetry: Option<NodeTelemetry>,
}

/// Tasks finished along the first `n` paths.
pub open spec fn finished_along(state: RunState, paths: Seq<Seq<char>>, n: int) -> nat
    decreases n,
{
    if n <= 0 {
        0
    } else {
        finished_along(state, paths, n - 1) + (if state@.nodes.contains_key(paths[n - 1]) {
            state@.nodes[paths[n - 1]].completed
        } else {
            0
        })
    }
}

/// Whether the machine was discovered with all its details: it is reached by a
/// path, and the first such path has a profile, a role and a latency.
pub open spec fn detailed(state: RunState, id: Seq<char>) -> bool {
    let paths = paths_to(state, id);
    &&& paths.len() > 0
    &&& state@.nodes.contains_key(paths[0])
    &&& state@.nodes[paths[0]].profile is Some
    &&& state@.nodes[paths[0]].role is Some
    &&& state@.nodes[paths[0]].latency_us is Some
}

/// Whether the machine was discovered with all its details.
pub fn has_details(state: &RunState, id: &str) -> (r: bool)
    requires
        state.wf(),
    ensures
        r == detailed(*state, id@),
{
    let paths = paths_by_id(state, id);
    proof {
        assert(texts(paths@).len() == paths@.len());
    }
    if paths.len() == 0 {
        return false;
    }
    proof {
        assert(texts(paths@)[0] == paths@[0]@);
    }
    match state.nodes.get(paths[0].as_str()) {
        Some(view) => view.profile.is_some() && view.role.is_some() && view.latency_us.is_some(),
        None => false,
    }
}

/// Whether `detail` tells what the run knows of machine `id`.
pub open spec fn tells(detail: NodeDetail, state: RunState, id: Seq<char>) -> bool {
    let paths = paths_to(state, id);
    let first = state@.nodes[paths[0]];
    &&& detail.label@ == label_of(state, id)
    &&& detail.id@ == id
    &&& first.role == Some(detail.role)
    &&& best_state(state@.nodes, paths, paths.len() as int) == Some(detail.state)
    &&& detail.completed == finished_along(state, paths, paths.len() as int)
    &&& first.latency_us == Some(detail.latency_us)
    &&& detail.os == first.profile->0.os
    &&& detail.isa@ == first.profile->0.isa
    &&& detail.cores == first.profile->0.cores
    &&& detail.ram_mb == first.profile->0.ram_mb
    &&& detail.gpus == first.profile->0.gpus.len()
    &&& detail.telemetry == first.telemetry
    &&& exists|t: Topology|
        #![trigger t.spec_ids()]
        t.wf() && crate::graph::depicts(state@.nodes, t.spec_ids(), t.spec_edges()) && detail.spof
            == t.failing_below(t.spec_ids().len() as int).contains(id) && detail.redundant == (
        crate::graph::vertex_of(t.spec_ids(), id) >= 0 && t.redundant(
            crate::graph::vertex_of(t.spec_ids(), id),
        ))
}

/// What the detail panel tells of machine `id`.
pub fn node_detail(state: &RunState, id: &str) -> (r: NodeDetail)
    requires
        state.wf(),
        detailed(*state, id@),
    ensures
        tells(r, *state, id@),
{
    let topology = Topology::from_run_state(state);
    let spofs = topology.single_points_of_failure();
    let paths = paths_by_id(state, id);
    let ghost all = texts(paths@);
    proof {
        assert(all.len() == paths@.len());
        assert(all[0] == paths@[0]@);
    }
    let mut completed: u128 = 0;
    let total: usize = paths.len();
    let mut i: usize = 0;
    while i < total
        invariant
            state.wf(),
            all == texts(paths@),
            total == paths@.len(),
            i <= total,
            completed == finished_along(*state, all, i as int),
            completed <= i * 0xffff_ffff_ffff_ffff,
        decreases total - i,
    {
        assert(all[i as int] == paths@[i as int]@);
        proof {
            assert((i + 1) * 0xffff_ffff_ffff_ffff == i * 0xffff_ffff_ffff_ffff
                + 0xffff_ffff_ffff_ffff) by (nonlinear_arith);
            assert(i * 0xffff_ffff_ffff_ffff + 0xffff_ffff_ffff_ffff
                <= 0xffff_ffff_ffff_ffff_ffff_ffff_ffff_ffff) by (nonlinear_arith)
                requires
                    0 <= i < 0xffff_ffff_ffff_ffff,
            ;
        }
        match state.nodes.get(paths[i].as_str()) {
            Some(view) => {
                completed = completed + view.completed as u128;
            },
            None => {},
        }
        i += 1;
    }
    let label = vertex_label(state, id);
    let node_state = vertex_state(state, id).unwrap_or(NodeState::Working);
    let redundant = topology.is_redundant(id);
    let spof = holds(&spofs, id);
    let view = state.nodes.get(paths[0].as_str()).unwrap();
    proof {
        crate::views::law_representative_is_the_furthest(
            state@.nodes,
            all,
            0,
            all.len() as int,
        );
    }
    let profile = view.profile.as_ref().unwrap();
    let r = NodeDetail {
        label,
        id: id.to_owned(),
        role: view.role.unwrap(),
        state: node_state,
        spof,
        redundant,
        completed,
        latency_us: view.latency_us.unwrap(),
        os: profile.os,
        isa: profile.arch.isa.clone(),
        cores: profile.cores,
        ram_mb: profile.ram_mb,
        gpus: profile.gpus.len(),
        telemetry: view.telemetry,
    };
    proof {
        let t = topology;
        assert(t.wf() && crate::graph::depicts(state@.nodes, t.spec_ids(), t.spec_edges()));
        assert(spof == t.failing_below(t.spec_ids().len() as int).contains(id@));
    }
    r
}

/// The first eight characters of an id.
pub open spec fn short_id(id: Seq<char>) -> Seq<char> {
    if id.len() > 8 {
        id.take(8)
    } else {
        id
    }
}

/// The first eight characters of an id.
fn shortened(id: &str) -> (r: String)
    ensures
        r@ == short_id(id@),
{
    let chars = to_chars(id);
    if chars.len() > 8 {
        let r = from_chars(&chars, 0, 8);
        assert(r@ =~= id@.take(8));
        r
    } else {
        id.to_owned()
    }
}

/// The decimal digits of `n`, most significant first.
fn push_wide(s: &mut String, n: u128)
    ensures
        final(s)@ == old(s)@ + decimal(n as nat),
    decreases n,
{
    if n >= 10 {
        push_wide(s, n / 10);
    }
    let d: u8 = (n % 10) as u8;
    s.push((48u8 + d) as char);
    proof {
        assert(s@ =~= old(s)@ + decimal(n as nat));
    }
}

/// The lines about a machine; `latency` is its latency in milliseconds as
/// displayed.
pub open spec fn detail_text(d: NodeDetail, latency: Seq<char>) -> Seq<Seq<char>> {
    seq![
        "node  "@ + d.label@,
        "id    "@ + short_id(d.id@),
        "role  "@ + d.role.spec_name() + "  state "@ + d.state.spec_name(),
        "spof  "@ + yes_or_no(d.spof) + "  redund "@ + yes_or_no(d.redundant),
        "done  "@ + decimal(d.completed as nat) + "  lat "@ + latency + " ms"@,
        "os    "@ + d.os.spec_name() + "  arch "@ + d.isa@,
        "cores "@ + decimal(d.cores as nat) + "  ram "@ + decimal(d.ram_mb as nat) + " MB  gpus "@
            + decimal(d.gpus as nat),
    ] + utilisation(d.telemetry)
}

/// Two texts, one after the other, each with a word before it.
fn pair(a: &str, b: &str, c: &str, d: &str) -> (r: String)
    ensures
        r@ == a@ + b@ + c@ + d@,
{
    let mut r = a.to_owned();
    r.append(b);
    r.append(c);
    r.append(d);
    r
}

/// The lines about a machine; `latency` is its latency in milliseconds as
/// displayed.
pub fn node_detail_lines(d: &NodeDetail, latency: &str) -> (r: Vec<String>)
    ensures
        texts(r@) == detail_text(*d, latency@),
{
    let mut r: Vec<String> = Vec::new();
    let mut node = "node  ".to_owned();
    node.append(d.label.as_str());
    r.push(node);
    let mut id = "id    ".to_owned();
    let short = shortened(d.id.as_str());
    id.append(short.as_str());
    r.push(id);
    r.push(pair("role  ", d.role.name(), "  state ", d.state.name()));
    r.push(pair("spof  ", yes_no(d.spof), "  redund ", yes_no(d.redundant)));
    let mut done = "done  ".to_owned();
    push_wide(&mut done, d.completed);
    done.append("  lat ");
    done.append(latency);
    done.append(" ms");
    r.push(done);
    r.push(pair("os    ", d.os.name(), "  arch ", d.isa.as_str()));
    let mut machine = "cores ".to_owned();
    push_decimal(&mut machine, d.cores as u64);
    machine.append("  ram ");
    push_decimal(&mut machine, d.ram_mb);
    machine.append(" MB  gpus ");
    push_decimal(&mut machine, d.gpus as u64);
    r.push(machine);
    let ghost first = texts(r@);
    let mut more = telemetry_lines(d.telemetry);
    let ghost second = texts(more@);
    proof {
        assert(first =~= detail_text(*d, latency@).take(7));
    }
    r.append(&mut more);
    proof {
        assert(texts(r@) =~= first + second);
        assert(texts(r@) =~= detail_text(*d, latency@));
    }
    r
}

/// What the link panel tells of a link.
#[derive(Debug)]
pub struct LinkInfo {
    /// The label of its upper end.
    pub from: String,
    /// The label of its lower end.
    pub to: String,
    /// Its measured latency in microseconds, if such a hop was discovered.
    pub latency_us: Option<u64>,
    /// Whether it carries the work.
    pub active: bool,
}

/// What the link panel tells of the link from `parent` to machine `child`.
pub fn edge_info(state: &RunState, parent: &str, child: &str) -> (r: LinkInfo)
    requires
        state.wf(),
        paths_to(*state, child@).len() > 0,
    ensures
        r.from@ == label_of(*state, parent@),
        r.to@ == label_of(*state, child@),
        r.latency_us == (if hop_at(*state, parent@, child@, 0) < state.nodes.entries@.len() {
            state.nodes.entries@[hop_at(*state, parent@, child@, 0)].1.latency_us
        } else {
            None
        }),
        r.active == carries(*state, parent@, child@),
{
    LinkInfo {
        from: vertex_label(state, parent),
        to: vertex_label(state, child),
        latency_us: edge_latency(state, parent, child),
        active: edge_is_active(state, parent, child),
    }
}

/// The lines about a link; `latency` is its latency in milliseconds as displayed,
/// if it has one.
pub fn edge_info_lines(info: &LinkInfo, latency: Option<&str>) -> (r: Vec<String>)
    ensures
        texts(r@) == seq![
            "link"@,
            info.from@ + " -> "@ + info.to@,
            match latency {
                Some(ms) => "lat   "@ + ms@ + " ms"@,
                None => "lat   n/a"@,
            },
            if info.active {
                "path  active (primary)"@
            } else {
                "path  standby"@
            },
        ],
{
    let mut r: Vec<String> = Vec::new();
    r.push("link".to_owned());
    let mut ends = info.from.clone();
    ends.append(" -> ");
    ends.append(info.to.as_str());
    r.push(ends);
    match latency {
        Some(ms) => {
            let mut line = "lat   ".to_owned();
            line.append(ms);
            line.append(" ms");
            r.push(line);
        },
        None => {
            r.push("lat   n/a".to_owned());
        },
    }
    if info.active {
        r.push("path  active (primary)".to_owned());
    } else {
        r.push("path  standby".to_owned());
    }
    proof {
        assert(texts(r@) =~= seq![
            "link"@,
            info.from@ + " -> "@ + info.to@,
            match latency {
                Some(ms) => "lat   "@ + ms@ + " ms"@,
                None => "lat   n/a"@,
            },
            if info.active {
                "path  active (primary)"@
            } else {
                "path  standby"@
            },
        ]);
    }
    r
}

/// One machine of the drawn topology.
#[derive(Debug)]
pub struct GraphNode {
    /// Its id.
    pub id: String,
    /// Its label.
    pub label: String,
    /// The cell it is centred on.
    pub cell: (u16, u16),
    /// Its representative state; `None` for the coordinator.
    pub state: Option<NodeState>,
    /// Whether it is a single point of failure.
    pub spof: bool,
}

/// One link of the drawn topology.
#[derive(Debug)]
pub struct GraphEdge {
    /// The parent's id.
    pub parent: String,
    /// The child's id.
    pub child: String,
    /// The parent's cell.
    pub from: (u16, u16),
    /// The child's cell.
    pub to: (u16, u16),
    /// Whether it carries the work.
    pub active: bool,
}

/// The drawn topology.
#[derive(Debug)]
pub struct GraphGeometry {
    /// Every machine, the coordinator first.
    pub nodes: Vec<GraphNode>,
    /// Every link from a parent to a child.
    pub edges: Vec<GraphEdge>,
}

/// Whether `node` draws vertex `v` of `topology` at its cell.
pub open spec fn draws_node(
    node: GraphNode,
    state: RunState,
    topology: Topology,
    cells: Seq<(u16, u16)>,
    v: int,
) -> bool {
    let id = topology.spec_ids()[v];
    &&& node.id@ == id
    &&& node.label@ == label_of(state, id)
    &&& node.cell == cells[v]
    &&& node.state == best_state(
        state@.nodes,
        paths_to(state, id),
        paths_to(state, id).len() as int,
    )
    &&& node.spof == topology.failing_below(topology.spec_ids().len() as int).contains(id)
}

/// Whether `edge` draws the link `e` of `topology` between its cells.
pub open spec fn draws_edge(
    edge: GraphEdge,
    state: RunState,
    topology: Topology,
    cells: Seq<(u16, u16)>,
    e: (usize, usize),
) -> bool {
    let parent = topology.spec_ids()[e.0 as int];
    let child = topology.spec_ids()[e.1 as int];
    &&& edge.parent@ == parent
    &&& edge.child@ == child
    &&& edge.from == cells[e.0 as int]
    &&& edge.to == cells[e.1 as int]
    &&& edge.active == carries(state, parent, child)
}

/// Draw the topology of a run with vertex `v` at `cells[v]`.
pub fn graph_geometry(state: &RunState, topology: &Topology, cells: &Vec<(u16, u16)>) -> (r:
    GraphGeometry)
    requires
        state.wf(),
        topology.wf(),
        cells@.len() == topology.spec_ids().len(),
    ensures
        r.nodes@.len() == topology.spec_ids().len(),
        forall|v: int|
            0 <= v < r.nodes@.len() ==> draws_node(
                #[trigger] r.nodes@[v],
                *state,
                *topology,
                cells@,
                v,
            ),
        r.edges@.len() == topology.edge_list().len(),
        forall|k: int|
            0 <= k < r.edges@.len() ==> draws_edge(
                #[trigger] r.edges@[k],
                *state,
                *topology,
                cells@,
                topology.edge_list()[k],
            ),
{
    let spofs = topology.single_points_of_failure();
    let total: usize = topology.len();
    let mut nodes: Vec<GraphNode> = Vec::new();
    let mut v: usize = 0;
    while v < total
        invariant
            state.wf(),
            total == topology.spec_ids().len(),
            cells@.len() == total,
            texts(spofs@) == topology.failing_below(total as int),
            v <= total,
            nodes@.len() == v,
            forall|k: int|
                0 <= k < v ==> draws_node(#[trigger] nodes@[k], *state, *topology, cells@, k),
        decreases total - v,
    {
        let id = topology.id_of(v);
        let node = GraphNode {
            id: id.to_owned(),
            label: vertex_label(state, id),
            cell: cells[v],
            state: vertex_state(state, id),
            spof: holds(&spofs, id),
        };
        nodes.push(node);
        v += 1;
    }
    let links = topology.edge_indices();
    let mut edges: Vec<GraphEdge> = Vec::new();
    let mut k: usize = 0;
    proof {
        topology.lemma_wf();
    }
    while k < links.len()
        invariant
            state.wf(),
            links@ == topology.edge_list(),
            total == topology.spec_ids().len(),
            cells@.len() == total,
            crate::reach::within(links@, total),
            k <= links@.len(),
            edges@.len() == k,
            forall|j: int|
                0 <= j < k ==> draws_edge(
                    #[trigger] edges@[j],
                    *state,
                    *topology,
                    cells@,
                    links@[j],
                ),
        decreases links@.len() - k,
    {
        let (from, to) = links[k];
        assert(links@[k as int].0 < total && links@[k as int].1 < total);
        let parent = topology.id_of(from);
        let child = topology.id_of(to);
        let edge = GraphEdge {
            parent: parent.to_owned(),
            child: child.to_owned(),
            from: cells[from],
            to: cells[to],
            active: edge_is_active(state, parent, child),
        };
        edges.push(edge);
        k += 1;
    }
    GraphGeometry { nodes, edges }
}

/// Whether a link is emphasised: it is under the pointer or pinned.
pub open spec fn emphasised(app: App, edge: GraphEdge) -> bool {
    optional_link(app.hovered) == Some((edge.parent@, edge.child@)) || optional_selection(
        app.selected,
    ) == Some(SelectionModel::Edge { parent: edge.parent@, child: edge.child@ })
}

/// Whether a link is emphasised: it is under the pointer or pinned.
pub fn is_emphasised(app: &App, edge: &GraphEdge) -> (r: bool)
    ensures
        r == emphasised(*app, *edge),
{
    let hovered = match &app.hovered {
        Some((parent, child)) => same(parent.as_str(), edge.parent.as_str()) && same(
            child.as_str(),
            edge.child.as_str(),
        ),
        None => false,
    };
    let pinned = match &app.selected {
        Some(Selection::Edge(parent, child)) => same(parent.as_str(), edge.parent.as_str())
            && same(child.as_str(), edge.child.as_str()),
        _ => false,
    };
    hovered || pinned
}

/// How bright a link is painted: standbys are the dimmest, then come the links that
/// carry work, then the emphasised ones.
pub open spec fn brightness(app: App, edge: GraphEdge) -> int {
    if emphasised(app, edge) {
        2
    } else if edge.active {
        1
    } else {
        0
    }
}

/// The links among the first `n` that are this bright, in order.
pub open spec fn as_bright(app: App, edges: Seq<GraphEdge>, bright: int, n: int) -> Seq<usize>
    decreases n,
{
    if n <= 0 {
        Seq::empty()
    } else if brightness(app, edges[n - 1]) == bright {
        as_bright(app, edges, bright, n - 1).push((n - 1) as usize)
    } else {
        as_bright(app, edges, bright, n - 1)
    }
}

/// The order in which links are painted: the brighter ones later, so that they win
/// where links overlap.
pub open spec fn painted(app: App, edges: Seq<GraphEdge>) -> Seq<usize> {
    as_bright(app, edges, 0, edges.len() as int) + as_bright(app, edges, 1, edges.len() as int)
        + as_bright(app, edges, 2, edges.len() as int)
}

/// The order in which links are painted: standbys first, then those that carry work,
/// then the emphasised ones.
pub fn paint_order(app: &App, geometry: &GraphGeometry) -> (r: Vec<usize>)
    ensures
        r@ == painted(*app, geometry.edges@),
{
    let total: usize = geometry.edges.len();
    let ghost edges = geometry.edges@;
    let mut standbys: Vec<usize> = Vec::new();
    let mut active: Vec<usize> = Vec::new();
    let mut bright: Vec<usize> = Vec::new();
    let mut k: usize = 0;
    while k < total
        invariant
            edges == geometry.edges@,
            total == edges.len(),
            k <= total,
            standbys@ == as_bright(*app, edges, 0, k as int),
            active@ == as_bright(*app, edges, 1, k as int),
            bright@ == as_bright(*app, edges, 2, k as int),
        decreases total - k,
    {
        if is_emphasised(app, &geometry.edges[k]) {
            bright.push(k);
        } else if geometry.edges[k].active {
            active.push(k);
        } else {
            standbys.push(k);
        }
        k += 1;
    }
    standbys.append(&mut active);
    standbys.append(&mut bright);
    standbys
}

proof fn lemma_as_bright(app: App, edges: Seq<GraphEdge>, bright: int, n: int)
    requires
        0 <= n <= edges.len() <= usize::MAX,
    ensures
        forall|i: int|
            0 <= i < as_bright(app, edges, bright, n).len() ==> (#[trigger] as_bright(
                app,
                edges,
                bright,
                n,
            )[i]) < n && brightness(app, edges[as_bright(app, edges, bright, n)[i] as int])
                == bright,
        forall|i: int, j: int|
            0 <= i < j < as_bright(app, edges, bright, n).len() ==> (#[trigger] as_bright(
                app,
                edges,
                bright,
                n,
            )[i]) < (#[trigger] as_bright(app, edges, bright, n)[j]),
        forall|k: int|
            0 <= k < n && brightness(app, #[trigger] edges[k]) == bright ==> as_bright(
                app,
                edges,
                bright,
                n,
            ).contains(k as usize),
    decreases n,
{
    if n > 0 {
        lemma_as_bright(app, edges, bright, n - 1);
        let before = as_bright(app, edges, bright, n - 1);
        let now = as_bright(app, edges, bright, n);
        assert forall|k: int|
            0 <= k < n && brightness(app, #[trigger] edges[k]) == bright implies now.contains(
            k as usize,
        ) by {
            if k < n - 1 {
                let i = before.index_of(k as usize);
                assert(now[i] == k as usize);
            } else {
                assert(now[before.len() as int] == k as usize);
            }
        }
    }
}

/// Every link is painted once, never over a brighter one, and links of the same
/// brightness in the order of the topology.
pub proof fn law_every_link_is_painted_once(app: App, edges: Seq<GraphEdge>)
    requires
        edges.len() <= usize::MAX,
    ensures
        forall|k: int| 0 <= k < edges.len() ==> #[trigger] painted(app, edges).contains(k as usize),
        forall|i: int|
            0 <= i < painted(app, edges).len() ==> (#[trigger] painted(app, edges)[i])
                < edges.len(),
        forall|i: int, j: int|
            0 <= i < j < painted(app, edges).len() ==> {
                let a = #[trigger] painted(app, edges)[i];
                let b = #[trigger] painted(app, edges)[j];
                brightness(app, edges[a as int]) < brightness(app, edges[b as int]) || (brightness(
                    app,
                    edges[a as int],
                ) == brightness(app, edges[b as int]) && a < b)
            },
{
    let n = edges.len() as int;
    lemma_as_bright(app, edges, 0, n);
    lemma_as_bright(app, edges, 1, n);
    lemma_as_bright(app, edges, 2, n);
    let dim = as_bright(app, edges, 0, n);
    let mid = as_bright(app, edges, 1, n);
    let top = as_bright(app, edges, 2, n);
    let all = painted(app, edges);
    assert forall|k: int| 0 <= k < n implies #[trigger] all.contains(k as usize) by {
        let e = edges[k];
        if brightness(app, e) == 0 {
            let i = dim.index_of(k as usize);
            assert(all[i] == k as usize);
        } else if brightness(app, e) == 1 {
            let i = mid.index_of(k as usize);
            assert(all[dim.len() + i] == k as usize);
        } else {
            let i = top.index_of(k as usize);
            assert(all[dim.len() + mid.len() + i] == k as usize);
        }
    }
}

/// Whether a panel has room for the topology.
pub open spec fn has_room(inner: Area) -> bool {
    inner.width >= 2 && inner.height >= 2
}

/// Whether a panel has room for the topology: one under two cells wide or high shows
/// its frame alone.
pub fn drawable(inner: Area) -> (r: bool)
    ensures
        r == has_room(inner),
{
    inner.width >= 2 && inner.height >= 2
}

/// Whether a machine is the selected one.
pub fn is_selected(app: &App, node: &GraphNode) -> (r: bool)
    ensures
        r == (optional_selection(app.selected) == Some(SelectionModel::Node { id: node.id@ })),
{
    match &app.selected {
        Some(Selection::Node(id)) => same(id.as_str(), node.id.as_str()),
        _ => false,
    }
}

/// The text a machine is drawn as: its glyph and label, with a pennant before them
/// if it is a single point of failure.
pub fn node_text(node: &GraphNode, glyph: char) -> (r: String)
    ensures
        r@ == drawn_text(*node, glyph),
{
    let mut r = String::new();
    if node.spof {
        r.push('\u{2691}');
    }
    r.push(glyph);
    r.push(' ');
    r.append(node.label.as_str());
    proof {
        assert(r@ =~= drawn_text(*node, glyph));
    }
    r
}

/// The text a machine is drawn as.
pub open spec fn drawn_text(node: GraphNode, glyph: char) -> Seq<char> {
    (if node.spof {
        seq!['\u{2691}', glyph, ' ']
    } else {
        seq![glyph, ' ']
    }) + node.label@
}

/// The glyph a machine is drawn with.
pub open spec fn glyph_of(state: Option<NodeState>) -> char {
    match state {
        None => '\u{25c6}',
        Some(s) => if provisioning(s) {
            '\u{25cd}'
        } else if s == NodeState::Working || s == NodeState::Draining {
            '\u{25cf}'
        } else if s == NodeState::Done {
            '\u{25c9}'
        } else if s == NodeState::Lost {
            '\u{2717}'
        } else {
            '\u{25cb}'
        },
    }
}

/// Whether a link is drawn over `cell`.
pub open spec fn link_covers(edge: GraphEdge, cell: (u16, u16)) -> bool {
    exists|k: int|
        0 <= k < line_length(edge.from, edge.to) && #[trigger] line_cell(edge.from, edge.to, k) == (
            cell.0 as int,
            cell.1 as int,
        )
}

/// Whether a machine's label is drawn over `cell`. The coordinator's cannot be
/// selected.
pub open spec fn label_covers(node: GraphNode, inner: Area, cell: (u16, u16)) -> bool {
    let len = least(drawn_text(node, glyph_of(node.state)).len() as int, 65535);
    let start = label_start(inner, node.cell.0, len);
    let shown = least(len, most(right_of(inner) - start, 0));
    node.state is Some && cell.1 == node.cell.1 && start <= cell.0 < start + shown
}

/// The link drawn over `cell` among the first `n`, the last one drawn on top.
pub open spec fn link_under(edges: Seq<GraphEdge>, cell: (u16, u16), n: int) -> Option<
    (Seq<char>, Seq<char>),
>
    decreases n,
{
    if n <= 0 {
        None
    } else if link_covers(edges[n - 1], cell) {
        Some((edges[n - 1].parent@, edges[n - 1].child@))
    } else {
        link_under(edges, cell, n - 1)
    }
}

/// The machine whose label is drawn over `cell` among the first `n`, the last one
/// drawn on top.
pub open spec fn machine_under(
    nodes: Seq<GraphNode>,
    inner: Area,
    cell: (u16, u16),
    n: int,
) -> Option<Seq<char>>
    decreases n,
{
    if n <= 0 {
        None
    } else if label_covers(nodes[n - 1], inner, cell) {
        Some(nodes[n - 1].id@)
    } else {
        machine_under(nodes, inner, cell, n - 1)
    }
}

/// What lies under each cell of the drawn topology: the link drawn over it, and the
/// machine whose label can be selected there. Where there is no room to draw it,
/// nothing lies under any cell.
pub fn hit_map(geometry: &GraphGeometry, inner: Area) -> (r: HitMap)
    ensures
        forall|cell: (u16, u16)| #[trigger]
            r.edge(cell) == if has_room(inner) {
                link_under(geometry.edges@, cell, geometry.edges@.len() as int)
            } else {
                None
            },
        forall|cell: (u16, u16)| #[trigger]
            r.node(cell) == if has_room(inner) {
                machine_under(geometry.nodes@, inner, cell, geometry.nodes@.len() as int)
            } else {
                None
            },
{
    if drawable(inner) {
        HitMap { nodes: node_hits(geometry, inner), edges: edge_hits(geometry) }
    } else {
        HitMap::new()
    }
}

/// Entries that all name one link show it wherever one of them is, and leave the
/// other cells to the entries before them.
proof fn lemma_edges_on_top(
    hits: Seq<((u16, u16), (String, String))>,
    from: int,
    n: int,
    cell: (u16, u16),
    parent: Seq<char>,
    child: Seq<char>,
)
    requires
        0 <= from <= n <= hits.len(),
        forall|i: int|
            from <= i < n ==> (#[trigger] hits[i]).1.0@ == parent && hits[i].1.1@ == child,
    ensures
        edge_under(hits, cell, n) == if exists|i: int|
            from <= i < n && (#[trigger] hits[i]).0 == cell {
            Some((parent, child))
        } else {
            edge_under(hits, cell, from)
        },
    decreases n - from,
{
    if from < n {
        lemma_edges_on_top(hits, from, n - 1, cell, parent, child);
        if hits[n - 1].0 != cell {
            if exists|i: int| from <= i < n && (#[trigger] hits[i]).0 == cell {
                let i = choose|i: int| from <= i < n && (#[trigger] hits[i]).0 == cell;
                assert(i < n - 1);
            }
        }
    }
}

/// The same of entries that all name one machine.
proof fn lemma_nodes_on_top(
    hits: Seq<((u16, u16), String)>,
    from: int,
    n: int,
    cell: (u16, u16),
    id: Seq<char>,
)
    requires
        0 <= from <= n <= hits.len(),
        forall|i: int| from <= i < n ==> (#[trigger] hits[i]).1@ == id,
    ensures
        node_under(hits, cell, n) == if exists|i: int|
            from <= i < n && (#[trigger] hits[i]).0 == cell {
            Some(id)
        } else {
            node_under(hits, cell, from)
        },
    decreases n - from,
{
    if from < n {
        lemma_nodes_on_top(hits, from, n - 1, cell, id);
        if hits[n - 1].0 != cell {
            if exists|i: int| from <= i < n && (#[trigger] hits[i]).0 == cell {
                let i = choose|i: int| from <= i < n && (#[trigger] hits[i]).0 == cell;
                assert(i < n - 1);
            }
        }
    }
}

proof fn lemma_same_edges(
    a: Seq<((u16, u16), (String, String))>,
    b: Seq<((u16, u16), (String, String))>,
    cell: (u16, u16),
    n: int,
)
    requires
        0 <= n <= a.len(),
        n <= b.len(),
        forall|i: int| 0 <= i < n ==> a[i] == b[i],
    ensures
        edge_under(a, cell, n) == edge_under(b, cell, n),
    decreases n,
{
    if n > 0 {
        lemma_same_edges(a, b, cell, n - 1);
    }
}

proof fn lemma_same_nodes(
    a: Seq<((u16, u16), String)>,
    b: Seq<((u16, u16), String)>,
    cell: (u16, u16),
    n: int,
)
    requires
        0 <= n <= a.len(),
        n <= b.len(),
        forall|i: int| 0 <= i < n ==> a[i] == b[i],
    ensures
        node_under(a, cell, n) == node_under(b, cell, n),
    decreases n,
{
    if n > 0 {
        lemma_same_nodes(a, b, cell, n - 1);
    }
}

/// The cells of every link.
fn edge_hits(geometry: &GraphGeometry) -> (r: Vec<((u16, u16), (String, String))>)
    ensures
        forall|cell: (u16, u16)| #[trigger]
            edge_under(r@, cell, r@.len() as int) == link_under(
                geometry.edges@,
                cell,
                geometry.edges@.len() as int,
            ),
{
    let mut r: Vec<((u16, u16), (String, String))> = Vec::new();
    let mut e: usize = 0;
    while e < geometry.edges.len()
        invariant
            e <= geometry.edges@.len(),
            forall|cell: (u16, u16)| #[trigger]
                edge_under(r@, cell, r@.len() as int) == link_under(
                    geometry.edges@,
                    cell,
                    e as int,
                ),
        decreases geometry.edges@.len() - e,
    {
        let ghost start = r@;
        let ghost edge = geometry.edges@[e as int];
        let cells = line_cells(geometry.edges[e].from, geometry.edges[e].to);
        let mut c: usize = 0;
        while c < cells.len()
            invariant
                e < geometry.edges@.len(),
                edge == geometry.edges@[e as int],
                c <= cells@.len(),
                r@.len() == start.len() + c,
                forall|i: int| 0 <= i < start.len() ==> (#[trigger] r@[i]) == start[i],
                forall|i: int|
                    start.len() <= i < r@.len() ==> (#[trigger] r@[i]).0 == cells@[i - start.len()]
                        && r@[i].1.0@ == edge.parent@ && r@[i].1.1@ == edge.child@,
            decreases cells@.len() - c,
        {
            r.push(
                (
                    cells[c],
                    (geometry.edges[e].parent.clone(), geometry.edges[e].child.clone()),
                ),
            );
            c += 1;
        }
        e += 1;
        proof {
            assert forall|cell: (u16, u16)| #[trigger]
                edge_under(r@, cell, r@.len() as int) == link_under(
                    geometry.edges@,
                    cell,
                    e as int,
                ) by {
                let from = start.len() as int;
                lemma_edges_on_top(
                    r@,
                    from,
                    r@.len() as int,
                    cell,
                    edge.parent@,
                    edge.child@,
                );
                lemma_same_edges(r@, start, cell, from);
                assert(edge_under(start, cell, from) == link_under(
                    geometry.edges@,
                    cell,
                    e - 1,
                ));
                if link_covers(edge, cell) {
                    let k = choose|k: int|
                        0 <= k < line_length(edge.from, edge.to) && #[trigger] line_cell(
                            edge.from,
                            edge.to,
                            k,
                        ) == (cell.0 as int, cell.1 as int);
                    assert(cells@[k] == cell);
                    assert(r@[from + k].0 == cell);
                } else if exists|i: int| from <= i < r@.len() && (#[trigger] r@[i]).0 == cell {
                    let i = choose|i: int| from <= i < r@.len() && (#[trigger] r@[i]).0 == cell;
                    let k = i - from;
                    assert(line_cell(edge.from, edge.to, k) == (
                        cells@[k].0 as int,
                        cells@[k].1 as int,
                    ));
                }
            }
        }
    }
    r
}

/// The cells of every label that can be selected.
fn node_hits(geometry: &GraphGeometry, inner: Area) -> (r: Vec<((u16, u16), String)>)
    ensures
        forall|cell: (u16, u16)| #[trigger]
            node_under(r@, cell, r@.len() as int) == machine_under(
                geometry.nodes@,
                inner,
                cell,
                geometry.nodes@.len() as int,
            ),
{
    let mut r: Vec<((u16, u16), String)> = Vec::new();
    let mut n: usize = 0;
    while n < geometry.nodes.len()
        invariant
            n <= geometry.nodes@.len(),
            forall|cell: (u16, u16)| #[trigger]
                node_under(r@, cell, r@.len() as int) == machine_under(
                    geometry.nodes@,
                    inner,
                    cell,
                    n as int,
                ),
        decreases geometry.nodes@.len() - n,
    {
        let ghost before = r@;
        let ghost node = geometry.nodes@[n as int];
        let glyph = node_glyph(geometry.nodes[n].state);
        let text = node_text(&geometry.nodes[n], glyph);
        let (start, shown) = label_bounds(inner, geometry.nodes[n].cell, text.as_str());
        let row: u16 = geometry.nodes[n].cell.1;
        let selectable = geometry.nodes[n].state.is_some();
        let mut o: u16 = 0;
        while selectable && o < shown
            invariant
                n < geometry.nodes@.len(),
                node == geometry.nodes@[n as int],
                start + shown <= 65535,
                o <= shown,
                !selectable ==> o == 0,
                r@.len() == before.len() + o,
                forall|i: int| 0 <= i < before.len() ==> (#[trigger] r@[i]) == before[i],
                forall|i: int|
                    before.len() <= i < r@.len() ==> (#[trigger] r@[i]).0 == (
                        (start + (i - before.len())) as u16,
                        row,
                    ) && r@[i].1@ == node.id@,
            decreases shown - o,
        {
            r.push(((start + o, row), geometry.nodes[n].id.clone()));
            o += 1;
        }
        n += 1;
        proof {
            assert(node.state is Some == selectable);
            assert forall|cell: (u16, u16)| #[trigger]
                node_under(r@, cell, r@.len() as int) == machine_under(
                    geometry.nodes@,
                    inner,
                    cell,
                    n as int,
                ) by {
                let from = before.len() as int;
                lemma_nodes_on_top(r@, from, r@.len() as int, cell, node.id@);
                lemma_same_nodes(r@, before, cell, from);
                assert(node_under(before, cell, from) == machine_under(
                    geometry.nodes@,
                    inner,
                    cell,
                    n - 1,
                ));
                if label_covers(node, inner, cell) {
                    let k = cell.0 - start;
                    assert(r@[from + k].0 == cell);
                } else if exists|i: int| from <= i < r@.len() && (#[trigger] r@[i]).0 == cell {
                    let i = choose|i: int| from <= i < r@.len() && (#[trigger] r@[i]).0 == cell;
                    assert(cell.0 == start + (i - from));
                }
            }
        }
    }
    r
}

/// What the summary, the flags and the cells of a row say.
pub proof fn law_what_the_summary_says(
    state: RunModel,
    nodes: nat,
    seconds: Seq<char>,
    row: TableRow,
    latency: Seq<char>,
)
    ensures
        summary_of(state, nodes, seconds) == decimal(state.completed) + "/"@ + decimal(
            state.total_tasks,
        ) + " done   "@ + decimal(state.failed) + " failed   "@ + decimal(nodes) + " nodes   "@
            + seconds + "s"@,
        yes_or_no(true) == "yes"@,
        yes_or_no(false) == "no"@,
        row_cells(row, latency).len() == 7,
        row_cells(row, latency)[0] == row.path@,
        row.role matches Some(role) ==> row_cells(row, latency)[1] == role.spec_name(),
        row.role is None ==> row_cells(row, latency)[1].len() == 0,
        row_cells(row, latency)[2] == row.state.spec_name(),
        row_cells(row, latency)[3] == decimal(row.completed as nat),
        row_cells(row, latency)[4] == latency,
        row_cells(row, latency)[5] == row.isa@,
        row.spof ==> row_cells(row, latency)[6] == "SPOF"@,
        !row.spof ==> row_cells(row, latency)[6].len() == 0,
{
}

/// A row shows its own node: its path, role, tally, latency and instruction set as they
/// are known, the state it is in or that of a lost relay on the way, and whether its
/// machine is a single point of failure.
pub proof fn law_a_row_shows_its_node(
    row: TableRow,
    state: RunState,
    i: int,
    spofs: Seq<Seq<char>>,
)
    requires
        0 <= i < state.nodes.entries@.len(),
        row_shows(row, state, i, spofs),
    ensures
        ({
            let (path, view) = state.nodes.entries@[i];
            &&& row.path@ == path@
            &&& row.role == view.role
            &&& row.completed == view.completed
            &&& row.latency_us == view.latency_us
            &&& row.state == effective(state@.nodes, path@)
            &&& view.profile matches Some(profile) ==> row.isa@ == profile.arch.isa@
            &&& view.profile is None ==> row.isa@.len() == 0
            &&& view.id matches Some(id) ==> row.spof == spofs.contains(id@)
            &&& view.id is None ==> !row.spof
        }),
{
}

/// A pin is shown before a hover, a hover before the legend.
pub proof fn law_a_pin_wins(
    pin: SelectionModel,
    hovered: Option<(Seq<char>, Seq<char>)>,
    link: (Seq<char>, Seq<char>),
)
    ensures
        panel_for(Some(pin), hovered) == Some(pin),
        panel_for(None, Some(link)) == Some(
            SelectionModel::Edge { parent: link.0, child: link.1 },
        ),
        panel_for(None, None) is None,
{
}

/// The legend.
pub proof fn law_the_legend()
    ensures
        legend() == seq![
            "keys"@,
            "Tab / S-Tab  select"@,
            "click        select"@,
            "hover edge   link info"@,
            "p pause   q quit"@,
            ""@,
            "green working  blue done"@,
            "red lost   cyan ready"@,
            "yellow building"@,
        ],
{
}

/// A machine's use is shown line by line: processor, memory, the GPU where there is one,
/// and the tasks running; without a sample that none is there.
pub proof fn law_what_is_shown_of_a_sample(s: NodeTelemetry)
    ensures
        utilisation(None) == seq!["util  n/a"@],
        utilisation(Some(s)).len() == if s.gpu_pct is Some {
            4int
        } else {
            3int
        },
        utilisation(Some(s))[0] == "cpu   "@ + decimal(s.cpu_pct as nat) + "%"@,
        utilisation(Some(s))[1] == "mem   "@ + decimal(s.mem_pct as nat) + "%"@,
        s.gpu_pct matches Some(gpu) ==> utilisation(Some(s))[2] == "gpu   "@ + decimal(gpu as nat)
            + "%"@,
        utilisation(Some(s)).last() == "tasks "@ + decimal(s.in_flight as nat) + " running"@,
{
}

/// The lines of the detail panel, in order.
pub proof fn law_what_the_details_say(d: NodeDetail, latency: Seq<char>)
    ensures
        detail_text(d, latency).len() == 7 + utilisation(d.telemetry).len(),
        detail_text(d, latency)[0] == "node  "@ + d.label@,
        d.id@.len() <= 8 ==> detail_text(d, latency)[1] == "id    "@ + d.id@,
        d.id@.len() > 8 ==> detail_text(d, latency)[1] == "id    "@ + d.id@.take(8),
        detail_text(d, latency)[2] == "role  "@ + d.role.spec_name() + "  state "@
            + d.state.spec_name(),
        detail_text(d, latency)[3] == "spof  "@ + (if d.spof {
            "yes"@
        } else {
            "no"@
        }) + "  redund "@ + (if d.redundant {
            "yes"@
        } else {
            "no"@
        }),
        detail_text(d, latency)[4] == "done  "@ + decimal(d.completed as nat) + "  lat "@ + latency
            + " ms"@,
        detail_text(d, latency)[5] == "os    "@ + d.os.spec_name() + "  arch "@ + d.isa@,
        detail_text(d, latency)[6] == "cores "@ + decimal(d.cores as nat) + "  ram "@ + decimal(
            d.ram_mb as nat,
        ) + " MB  gpus "@ + decimal(d.gpus as nat),
        detail_text(d, latency).skip(7) == utilisation(d.telemetry),
{
    assert(detail_text(d, latency).skip(7) =~= utilisation(d.telemetry));
}

/// The tasks finished along several paths to a machine are those finished along each,
/// added up.
pub proof fn law_finished_tasks_add_up(state: RunState, paths: Seq<Seq<char>>, n: int)
    requires
        0 <= n < paths.len(),
    ensures
        finished_along(state, paths, 0) == 0,
        state@.nodes.contains_key(paths[n]) ==> finished_along(state, paths, n + 1)
            == finished_along(state, paths, n) + state@.nodes[paths[n]].completed,
        !state@.nodes.contains_key(paths[n]) ==> finished_along(state, paths, n + 1)
            == finished_along(state, paths, n),
{
}

/// What the details tell of a machine is what its first path was probed with, what it
/// finished along all its paths, and its representative state.
pub proof fn law_details_tell_what_is_known(detail: NodeDetail, state: RunState, id: Seq<char>)
    requires
        detailed(state, id),
        tells(detail, state, id),
    ensures
        ({
            let paths = paths_to(state, id);
            let first = state@.nodes[paths[0]];
            &&& paths.len() > 0
            &&& detail.id@ == id
            &&& detail.label@ == label_of(state, id)
            &&& first.role == Some(detail.role)
            &&& first.latency_us == Some(detail.latency_us)
            &&& first.telemetry == detail.telemetry
            &&& first.profile matches Some(profile) && profile.os == detail.os && profile.isa
                == detail.isa@ && profile.cores == detail.cores && profile.ram_mb == detail.ram_mb
                && profile.gpus.len() == detail.gpus
            &&& detail.completed == finished_along(state, paths, paths.len() as int)
            &&& best_state(state@.nodes, paths, paths.len() as int) == Some(detail.state)
        }),
{
}

/// How a machine is drawn: its glyph goes by its state, and its label follows, with a
/// pennant in front where it is a single point of failure.
pub proof fn law_how_a_machine_is_drawn(node: GraphNode, glyph: char, s: NodeState)
    ensures
        node.spof ==> drawn_text(node, glyph) == seq!['\u{2691}', glyph, ' '] + node.label@,
        !node.spof ==> drawn_text(node, glyph) == seq![glyph, ' '] + node.label@,
        glyph_of(None) == '\u{25c6}',
        glyph_of(Some(s)) == match s {
            NodeState::Working | NodeState::Draining => '\u{25cf}',
            NodeState::Done => '\u{25c9}',
            NodeState::Ready | NodeState::Idle | NodeState::Paused => '\u{25cb}',
            NodeState::Probing | NodeState::Installing | NodeState::Syncing
            | NodeState::Building => '\u{25cd}',
            NodeState::Lost => '\u{2717}',
        },
        provisioning(s) <==> s == NodeState::Probing || s == NodeState::Installing || s
            == NodeState::Syncing || s == NodeState::Building,
{
}

/// What lies under a cell is what was drawn there last: the last link whose line passes
/// through it, and the last machine whose label covers it.
pub proof fn law_the_last_drawn_lies_on_top(
    edges: Seq<GraphEdge>,
    nodes: Seq<GraphNode>,
    inner: Area,
    cell: (u16, u16),
    n: int,
    at: int,
)
    requires
        0 <= at < n,
    ensures
        n <= edges.len() && link_covers(edges[at], cell) && (forall|i: int|
            at < i < n ==> !link_covers(#[trigger] edges[i], cell)) ==> link_under(edges, cell, n)
            == Some((edges[at].parent@, edges[at].child@)),
        n <= edges.len() && (forall|i: int|
            0 <= i < n ==> !link_covers(#[trigger] edges[i], cell)) ==> link_under(
            edges,
            cell,
            n,
        ) is None,
        n <= nodes.len() && label_covers(nodes[at], inner, cell) && (forall|i: int|
            at < i < n ==> !label_covers(#[trigger] nodes[i], inner, cell)) ==> machine_under(
            nodes,
            inner,
            cell,
            n,
        ) == Some(nodes[at].id@),
        n <= nodes.len() && (forall|i: int|
            0 <= i < n ==> !label_covers(#[trigger] nodes[i], inner, cell)) ==> machine_under(
            nodes,
            inner,
            cell,
            n,
        ) is None,
    decreases n,
{
    if n > 1 {
        if at < n - 1 {
            law_the_last_drawn_lies_on_top(edges, nodes, inner, cell, n - 1, at);
        } else {
            law_the_last_drawn_lies_on_top(edges, nodes, inner, cell, n - 1, 0);
        }
    } else {
        assert(link_under(edges, cell, 0) is None);
        assert(machine_under(nodes, inner, cell, 0) is None);
    }
    if n <= edges.len() && !link_covers(edges[n - 1], cell) {
        assert(link_under(edges, cell, n) == link_under(edges, cell, n - 1));
    }
    if n <= nodes.len() && !label_covers(nodes[n - 1], inner, cell) {
        assert(machine_under(nodes, inner, cell, n) == machine_under(nodes, inner, cell, n - 1));
    }
}

/// A link covers the cells of the straight line between its ends; a label covers the
/// cells of its row from its start on, as many as are shown, and the coordinator's none.
pub proof fn law_what_covers_a_cell(edge: GraphEdge, node: GraphNode, inner: Area, cell: (u16, u16))
    ensures
        link_covers(edge, cell) <==> exists|k: int|
            0 <= k < line_length(edge.from, edge.to) && #[trigger] line_cell(edge.from, edge.to, k)
                == (cell.0 as int, cell.1 as int),
        node.state is None ==> !label_covers(node, inner, cell),
        label_covers(node, inner, cell) ==> cell.1 == node.cell.1,
        ({
            let text = drawn_text(node, glyph_of(node.state)).len() as int;
            let start = label_start(inner, node.cell.0, text);
            node.state is Some && text <= 65535 ==> (label_covers(node, inner, cell) <==> cell.1
                == node.cell.1 && start <= cell.0 && cell.0 < start + text && cell.0 < right_of(
                inner,
            ))
        }),
{
}

/// A link is emphasised exactly if it is under the pointer or pinned.
pub proof fn law_what_is_emphasised(app: App, edge: GraphEdge)
    ensures
        app.hovered matches Some((parent, child)) && parent@ == edge.parent@ && child@
            == edge.child@ ==> emphasised(app, edge),
        app.selected matches Some(Selection::Edge(parent, child)) && parent@ == edge.parent@
            && child@ == edge.child@ ==> emphasised(app, edge),
        app.hovered is None && app.selected is None ==> !emphasised(app, edge),
        has_room(Area { x: 0, y: 0, width: 2, height: 2 }),
        forall|inner: Area| #[trigger] has_room(inner) <==> inner.width >= 2 && inner.height >= 2,
{
}

/// What is drawn of the topology is what is known of it: each machine with its id, label and
/// representative state at its own cell and whether it is a single point of failure, each link
/// between the cells of its two machines and whether it carries the work.
pub proof fn law_the_drawing_shows_the_topology(
    node: GraphNode,
    edge: GraphEdge,
    state: RunState,
    topology: Topology,
    cells: Seq<(u16, u16)>,
    v: int,
    e: (usize, usize),
)
    requires
        draws_node(node, state, topology, cells, v),
        draws_edge(edge, state, topology, cells, e),
    ensures
        node.id@ == topology.spec_ids()[v],
        node.cell == cells[v],
        node.label@ == label_of(state, node.id@),
        node.state == best_state(
            state@.nodes,
            paths_to(state, node.id@),
            paths_to(state, node.id@).len() as int,
        ),
        node.spof == topology.failing_below(topology.spec_ids().len() as int).contains(node.id@),
        edge.parent@ == topology.spec_ids()[e.0 as int],
        edge.child@ == topology.spec_ids()[e.1 as int],
        edge.from == cells[e.0 as int],
        edge.to == cells[e.1 as int],
        edge.active == carries(state, edge.parent@, edge.child@),
{
}

} // verus!
