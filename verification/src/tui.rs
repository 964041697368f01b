//! The dashboard: its state, how it reacts to events and input, and the facts and
//! lines its panels show. Drawing them is left to a terminal.
use std::collections::VecDeque;

use vstd::prelude::*;
use vstd::string::*;

use crate::graph::Topology;
use crate::names::ascending;
use crate::observability::{
    leaf_label, leaf_of, optional_text, Event, EventModel, NodeModel, RunModel, RunState,
};
use crate::text::{decimal, push_decimal, same, texts};

verus! {

/// How many log lines are kept.
pub const LOG_CAPACITY: usize = 256;

/// A semantic input, decoupled from raw key and mouse events.
#[derive(Debug, Clone, Copy, PartialEq, Eq, Structural)]
pub enum Input {
    /// Select the next machine.
    SelectNext,
    /// Select the previous machine.
    SelectPrev,
    /// Clear the selection and the hover.
    Clear,
    /// Toggle the paused flag.
    TogglePause,
    /// Ask to quit.
    Quit,
    /// The pointer moved to a cell.
    PointerMoved {
        /// Its column.
        col: u16,
        /// Its row.
        row: u16,
    },
    /// The primary button was pressed at a cell.
    Click {
        /// Its column.
        col: u16,
        /// Its row.
        row: u16,
    },
}

/// What to do after an input.
#[derive(Debug, Clone, Copy, PartialEq, Eq, Structural)]
pub enum Action {
    /// Keep running.
    Continue,
    /// Tear down and exit.
    Quit,
}

/// What is pinned for the detail panel.
#[derive(Debug, Clone, PartialEq, Eq)]
pub enum Selection {
    /// A machine, by its id.
    Node(String),
    /// A link, by its parent's and its child's id.
    Edge(String, String),
}

/// A [`Selection`] as a mathematical value.
pub enum SelectionModel {
    Node { id: Seq<char> },
    Edge { parent: Seq<char>, child: Seq<char> },
}

impl View for Selection {
    type V = SelectionModel;

    open spec fn view(&self) -> SelectionModel {
        match *self {
            Selection::Node(id) => SelectionModel::Node { id: id@ },
            Selection::Edge(parent, child) => SelectionModel::Edge {
                parent: parent@,
                child: child@,
            },
        }
    }
}

/// The model of an optional selection.
pub open spec fn optional_selection(s: Option<Selection>) -> Option<SelectionModel> {
    match s {
        Some(s) => Some(s@),
        None => None,
    }
}

/// The model of an optional link.
pub open spec fn optional_link(s: Option<(String, String)>) -> Option<(Seq<char>, Seq<char>)> {
    match s {
        Some((parent, child)) => Some((parent@, child@)),
        None => None,
    }
}

/// What lies under each cell of the last drawing. A later entry for a cell hides an
/// earlier one.
#[derive(Debug)]
pub struct HitMap {
    /// Cells of machine labels, with the machine's id.
    pub nodes: Vec<((u16, u16), String)>,
    /// Cells of links, with the parent's and the child's id.
    pub edges: Vec<((u16, u16), (String, String))>,
}

/// The machine under a cell, among the first `n` entries.
pub open spec fn node_under(
    nodes: Seq<((u16, u16), String)>,
    cell: (u16, u16),
    n: int,
) -> Option<Seq<char>>
    decreases n,
{
    if n <= 0 {
        None
    } else if nodes[n - 1].0 == cell {
        Some(nodes[n - 1].1@)
    } else {
        node_under(nodes, cell, n - 1)
    }
}

/// The link under a cell, among the first `n` entries.
pub open spec fn edge_under(
    edges: Seq<((u16, u16), (String, String))>,
    cell: (u16, u16),
    n: int,
) -> Option<(Seq<char>, Seq<char>)>
    decreases n,
{
    if n <= 0 {
        None
    } else if edges[n - 1].0 == cell {
        Some((edges[n - 1].1.0@, edges[n - 1].1.1@))
    } else {
        edge_under(edges, cell, n - 1)
    }
}

impl HitMap {
    /// Nothing drawn.
    pub fn new() -> (r: HitMap)
        ensures
            r.nodes@.len() == 0,
            r.edges@.len() == 0,
    {
        HitMap { nodes: Vec::new(), edges: Vec::new() }
    }

    /// The machine under a cell.
    pub open spec fn node(&self, cell: (u16, u16)) -> Option<Seq<char>> {
        node_under(self.nodes@, cell, self.nodes@.len() as int)
    }

    /// The link under a cell.
    pub open spec fn edge(&self, cell: (u16, u16)) -> Option<(Seq<char>, Seq<char>)> {
        edge_under(self.edges@, cell, self.edges@.len() as int)
    }

    /// The machine under a cell.
    pub fn node_at(&self, col: u16, row: u16) -> (r: Option<String>)
        ensures
            optional_text(r) == self.node((col, row)),
    {
        let mut i: usize = self.nodes.len();
        while i > 0
            invariant
                i <= self.nodes@.len(),
                self.node((col, row)) == node_under(self.nodes@, (col, row), i as int),
            decreases i,
        {
            let cell = self.nodes[i - 1].0;
            if cell.0 == col && cell.1 == row {
                return Some(self.nodes[i - 1].1.clone());
            }
            i -= 1;
        }
        None
    }

    /// The link under a cell.
    pub fn edge_at(&self, col: u16, row: u16) -> (r: Option<(String, String)>)
        ensures
            optional_link(r) == self.edge((col, row)),
    {
        let mut i: usize = self.edges.len();
        while i > 0
            invariant
                i <= self.edges@.len(),
                self.edge((col, row)) == edge_under(self.edges@, (col, row), i as int),
            decreases i,
        {
            let cell = self.edges[i - 1].0;
            if cell.0 == col && cell.1 == row {
                return Some((self.edges[i - 1].1.0.clone(), self.edges[i - 1].1.1.clone()));
            }
            i -= 1;
        }
        None
    }
}

/// The live dashboard state.
#[derive(Debug)]
pub struct App {
    /// The reduced picture of the run.
    pub state: RunState,
    /// The most recent log lines, oldest first.
    pub log: VecDeque<String>,
    /// Milliseconds since the run started.
    pub elapsed_ms: u64,
    /// What is pinned for the detail panel. It stays until changed.
    pub selected: Option<Selection>,
    /// The link under the pointer.
    pub hovered: Option<(String, String)>,
    /// Whether a pause was asked for.
    pub paused: bool,
    /// What lies under each cell of the last drawing.
    pub hit: HitMap,
}

/// The log line an event contributes, given the picture it leaves.
pub open spec fn line_for(after: RunModel, event: EventModel) -> Option<Seq<char>> {
    match event {
        EventModel::RunStarted { tasks } => Some(
            "run started: "@ + decimal(tasks as nat) + " tasks"@,
        ),
        EventModel::Node { host, state } => Some(leaf_label(host) + ": "@ + state.spec_name()),
        EventModel::Profiled { host, role, .. } => Some(
            leaf_label(host) + ": "@ + role.spec_name(),
        ),
        EventModel::TaskStarted { .. } => None,
        EventModel::Telemetry { .. } => None,
        EventModel::TaskFinished { .. } => Some(
            "progress "@ + decimal(after.completed + after.failed) + "/"@ + decimal(
                after.total_tasks,
            ),
        ),
    }
}

/// The log line an event contributes.
fn log_line(event: &Event, state: &RunState) -> (r: Option<String>)
    requires
        event is TaskFinished ==> state.completed + state.failed <= usize::MAX,
    ensures
        optional_text(r) == line_for(state@, event@),
{
    match event {
        Event::RunStarted { tasks } => {
            let mut s = "run started: ".to_owned();
            push_decimal(&mut s, *tasks as u64);
            s.append(" tasks");
            Some(s)
        },
        Event::Node { host, state } => {
            let mut s = leaf_of(host.as_str());
            s.append(": ");
            s.append(state.name());
            Some(s)
        },
        Event::Profiled { host, role, .. } => {
            let mut s = leaf_of(host.as_str());
            s.append(": ");
            s.append(role.name());
            Some(s)
        },
        Event::TaskStarted { .. } => None,
        Event::Telemetry { .. } => None,
        Event::TaskFinished { .. } => {
            let mut s = "progress ".to_owned();
            push_decimal(&mut s, (state.completed + state.failed) as u64);
            s.append("/");
            push_decimal(&mut s, state.total_tasks as u64);
            Some(s)
        },
    }
}

/// The log with one more line, the oldest dropped if it was full.
pub open spec fn logged(log: Seq<Seq<char>>, line: Option<Seq<char>>) -> Seq<Seq<char>> {
    match line {
        None => log,
        Some(line) => if log.len() == LOG_CAPACITY {
            log.drop_first().push(line)
        } else {
            log.push(line)
        },
    }
}

/// Every line the first `n` events are worth, in order.
pub open spec fn lines_below(events: Seq<EventModel>, n: int) -> Seq<Seq<char>>
    decreases n,
{
    if n <= 0 {
        Seq::empty()
    } else {
        match line_for(RunModel::unheard().through(events, n), events[n - 1]) {
            Some(line) => lines_below(events, n - 1).push(line),
            None => lines_below(events, n - 1),
        }
    }
}

/// The last of `lines`, as many as the log holds.
pub open spec fn latest(lines: Seq<Seq<char>>) -> Seq<Seq<char>> {
    if lines.len() <= LOG_CAPACITY {
        lines
    } else {
        lines.skip(lines.len() - LOG_CAPACITY)
    }
}

/// Appending a line to the latest ones gives the latest ones with it.
proof fn lemma_latest(all: Seq<Seq<char>>, line: Seq<char>)
    ensures
        logged(latest(all), Some(line)) == latest(all.push(line)),
        latest(all).len() <= LOG_CAPACITY,
{
    let shown = latest(all);
    if shown.len() == LOG_CAPACITY {
        assert(shown.drop_first().push(line) =~= latest(all.push(line)));
    } else {
        assert(shown.push(line) =~= latest(all.push(line)));
    }
}

/// Whether the `k`-th event takes the `k`-th dashboard to the next.
pub open spec fn follows(apps: Seq<App>, events: Seq<EventModel>, k: int) -> bool {
    apps[k].folds(events[k], apps[k + 1])
}

/// A dashboard that has followed a run from its start shows the run's picture and
/// the latest lines of all that its events were worth, oldest first and never more
/// than the log holds; what is selected, hovered, paused or elapsed is as it was.
/// `apps` are the dashboards before the first event and after each.
pub proof fn law_the_log_is_the_latest_lines(apps: Seq<App>, events: Seq<EventModel>, n: int)
    requires
        apps.len() == events.len() + 1,
        apps[0].fresh(),
        forall|k: int| 0 <= k < events.len() ==> #[trigger] follows(apps, events, k),
        0 <= n <= events.len(),
    ensures
        apps[n].state@ == RunModel::unheard().through(events, n),
        apps[n].log_lines() == latest(lines_below(events, n)),
        apps[n].log@.len() <= LOG_CAPACITY,
        apps[n].elapsed_ms == apps[0].elapsed_ms,
        apps[n].selected == apps[0].selected,
        apps[n].hovered == apps[0].hovered,
        apps[n].paused == apps[0].paused,
        apps[n].hit == apps[0].hit,
    decreases n,
{
    if n == 0 {
        assert(apps[0].log_lines() =~= Seq::empty());
    } else {
        law_the_log_is_the_latest_lines(apps, events, n - 1);
        assert(follows(apps, events, n - 1));
        let all = lines_below(events, n - 1);
        match line_for(apps[n].state@, events[n - 1]) {
            None => {},
            Some(line) => {
                lemma_latest(all, line);
                lemma_latest(all.push(line), line);
            },
        }
        assert(apps[n].log_lines().len() == apps[n].log@.len());
    }
}

/// Whether `ids` are the ids of the discovered machines, each once, in order.
pub open spec fn machine_ids(nodes: Map<Seq<char>, NodeModel>, ids: Seq<Seq<char>>) -> bool {
    &&& ascending(ids)
    &&& forall|id: Seq<char>| #[trigger]
        ids.contains(id) <==> exists|path: Seq<char>|
            nodes.contains_key(path) && (#[trigger] nodes[path]).id == Some(id)
}

/// The first position of `id` at or after `from`, or the length.
pub open spec fn place_of(ids: Seq<Seq<char>>, id: Seq<char>, from: int) -> int
    decreases ids.len() - from,
{
    if from < 0 || from >= ids.len() || ids[from] == id {
        from
    } else {
        place_of(ids, id, from + 1)
    }
}

/// The machine selected after one step through `ids`, wrapping, and starting from
/// the ends when no machine is selected.
pub open spec fn stepped(
    ids: Seq<Seq<char>>,
    selected: Option<SelectionModel>,
    forward: bool,
) -> Seq<char> {
    let at = match selected {
        Some(SelectionModel::Node { id }) => place_of(ids, id, 0),
        _ => ids.len() as int,
    };
    if at >= ids.len() {
        if forward {
            ids[0]
        } else {
            ids[ids.len() - 1]
        }
    } else if forward {
        ids[(at + 1) % (ids.len() as int)]
    } else if at == 0 {
        ids[ids.len() - 1]
    } else {
        ids[at - 1]
    }
}

impl App {
    /// The run's picture is in order, and the log is no longer than it may be.
    pub open spec fn wf(&self) -> bool {
        &&& self.state.wf()
        &&& self.log@.len() <= LOG_CAPACITY
    }

    /// The log lines as texts.
    pub open spec fn log_lines(&self) -> Seq<Seq<char>> {
        texts(self.log@)
    }

    /// Whether nothing has been heard of a run yet and nothing is selected or drawn.
    pub open spec fn fresh(&self) -> bool {
        &&& self.state@ == RunModel::unheard()
        &&& self.log@.len() == 0
        &&& self.elapsed_ms == 0
        &&& self.selected is None
        &&& self.hovered is None
        &&& !self.paused
        &&& self.hit.nodes@.len() == 0
        &&& self.hit.edges@.len() == 0
    }

    /// Whether `next` is this dashboard with `event` folded in: the picture and the
    /// log follow the event, everything else stays.
    pub open spec fn folds(&self, event: EventModel, next: App) -> bool {
        &&& next.state@ == self.state@.after(event)
        &&& next.log_lines() == logged(self.log_lines(), line_for(next.state@, event))
        &&& next.elapsed_ms == self.elapsed_ms
        &&& next.selected == self.selected
        &&& next.hovered == self.hovered
        &&& next.paused == self.paused
        &&& next.hit == self.hit
    }

    /// A fresh dashboard with empty state.
    pub fn new() -> (r: App)
        ensures
            r.wf(),
            r.fresh(),
    {
        App {
            state: RunState::new(),
            log: VecDeque::new(),
            elapsed_ms: 0,
            selected: None,
            hovered: None,
            paused: false,
            hit: HitMap::new(),
        }
    }

    /// Fold one event into the dashboard: update the picture and, if the event is
    /// worth surfacing, append a line to the rolling log.
    pub fn apply(&mut self, event: &Event)
        requires
            old(self).wf(),
            old(self).state@.can_count(event@),
        ensures
            final(self).wf(),
            old(self).folds(event@, *final(self)),
    {
        let ghost lines = self.log_lines();
        self.state.apply(event);
        match log_line(event, &self.state) {
            Some(line) => {
                if self.log.len() == LOG_CAPACITY {
                    self.log.pop_front();
                    proof {
                        assert(self.log_lines() =~= lines.drop_first());
                    }
                }
                let ghost before = self.log_lines();
                self.log.push_back(line);
                proof {
                    assert(self.log_lines() =~= before.push(line@));
                }
            },
            None => {},
        }
    }

    /// The ids of the machines that can be selected, in order.
    pub fn selectable(&self) -> (r: Vec<String>)
        requires
            self.wf(),
        ensures
            machine_ids(self.state@.nodes, texts(r@)),
    {
        let topology = Topology::from_run_state(&self.state);
        let total: usize = topology.len();
        let mut r: Vec<String> = Vec::new();
        let mut v: usize = 1;
        proof {
            topology.lemma_wf();
        }
        while v < total
            invariant
                total == topology.spec_ids().len(),
                total > 0,
                1 <= v <= total,
                r@.len() == v - 1,
                forall|k: int| 0 <= k < r@.len() ==> (#[trigger] r@[k])@ == topology.spec_ids()[k + 1],
            decreases total - v,
        {
            r.push(topology.id_of(v).to_owned());
            v += 1;
        }
        proof {
            assert(texts(r@) =~= topology.spec_ids().skip(1));
        }
        r
    }

    /// Move the selection one step through the machines that can be selected.
    fn step_selection(&mut self, forward: bool)
        requires
            old(self).wf(),
        ensures
            final(self).wf(),
            final(self).state == old(self).state,
            final(self).log == old(self).log,
            final(self).elapsed_ms == old(self).elapsed_ms,
            final(self).paused == old(self).paused,
            final(self).hit == old(self).hit,
            exists|ids: Seq<Seq<char>>| #[trigger]
                machine_ids(old(self).state@.nodes, ids) && if ids.len() == 0 {
                    &&& final(self).selected == old(self).selected
                    &&& final(self).hovered == old(self).hovered
                } else {
                    &&& optional_selection(final(self).selected) == Some(
                        SelectionModel::Node {
                            id: stepped(ids, optional_selection(old(self).selected), forward),
                        },
                    )
                    &&& final(self).hovered is None
                },
    {
        let ids = self.selectable();
        let ghost all = texts(ids@);
        proof {
            assert(all.len() == ids@.len());
        }
        if ids.len() == 0 {
            return;
        }
        let last: usize = ids.len() - 1;
        let mut at: usize = ids.len();
        match &self.selected {
            Some(Selection::Node(id)) => {
                at = 0;
                while at < ids.len() && !same(ids[at].as_str(), id.as_str())
                    invariant
                        all == texts(ids@),
                        at <= ids@.len(),
                        place_of(all, id@, 0) == place_of(all, id@, at as int),
                    decreases ids@.len() - at,
                {
                    at += 1;
                }
            },
            _ => {},
        }
        let next: usize = if at >= ids.len() {
            if forward {
                0
            } else {
                last
            }
        } else if forward {
            (at + 1) % ids.len()
        } else if at == 0 {
            last
        } else {
            at - 1
        };
        proof {
            assert(all[next as int] == ids@[next as int]@);
        }
        self.selected = Some(Selection::Node(ids[next].clone()));
        self.hovered = None;
        proof {
            assert(machine_ids(old(self).state@.nodes, all));
        }
    }

    /// Apply one input, updating selection, hover, or pause, and say whether to
    /// keep running. A click pins the machine under the pointer, else the link, and
    /// on empty space clears the pin.
    pub fn on_input(&mut self, input: Input) -> (r: Action)
        requires
            old(self).wf(),
        ensures
            final(self).wf(),
            final(self).state == old(self).state,
            final(self).log == old(self).log,
            final(self).elapsed_ms == old(self).elapsed_ms,
            final(self).hit == old(self).hit,
            r == (if input == Input::Quit {
                Action::Quit
            } else {
                Action::Continue
            }),
            final(self).paused == (old(self).paused != (input == Input::TogglePause)),
            input == Input::Quit || input == Input::TogglePause ==> final(self).selected == old(
                self).selected && final(self).hovered == old(self).hovered,
            input == Input::Clear ==> final(self).selected is None && final(self).hovered is None,
            input matches Input::PointerMoved { col, row } ==> final(self).selected == old(
                self).selected && optional_link(final(self).hovered) == old(self).hit.edge(
                (col, row),
            ),
            input matches Input::Click { col, row } ==> final(self).hovered is None
                && optional_selection(final(self).selected) == match old(self).hit.node(
                (col, row),
            ) {
                Some(id) => Some(SelectionModel::Node { id }),
                None => match old(self).hit.edge((col, row)) {
                    Some((parent, child)) => Some(SelectionModel::Edge { parent, child }),
                    None => None,
                },
            },
            input == Input::SelectNext || input == Input::SelectPrev ==> exists|
                ids: Seq<Seq<char>>,
            | #[trigger]
                machine_ids(old(self).state@.nodes, ids) && if ids.len() == 0 {
                    &&& final(self).selected == old(self).selected
                    &&& final(self).hovered == old(self).hovered
                } else {
                    &&& optional_selection(final(self).selected) == Some(
                        SelectionModel::Node {
                            id: stepped(
                                ids,
                                optional_selection(old(self).selected),
                                input == Input::SelectNext,
                            ),
                        },
                    )
                    &&& final(self).hovered is None
                },
    {
        match input {
            Input::SelectNext => {
                self.step_selection(true);
            },
            Input::SelectPrev => {
                self.step_selection(false);
            },
            Input::Clear => {
                self.selected = None;
                self.hovered = None;
            },
            Input::TogglePause => {
                self.paused = !self.paused;
            },
            Input::Quit => {
                return Action::Quit;
            },
            Input::PointerMoved { col, row } => {
                self.hovered = self.hit.edge_at(col, row);
            },
            Input::Click { col, row } => {
                self.selected = match self.hit.node_at(col, row) {
                    Some(id) => Some(Selection::Node(id)),
                    None => match self.hit.edge_at(col, row) {
                        Some((parent, child)) => Some(Selection::Edge(parent, child)),
                        None => None,
                    },
                };
                self.hovered = None;
            },
        }
        Action::Continue
    }
}

/// There is one list of the machines in order: the order of selection does not
/// depend on how it was come by.
pub proof fn law_one_list_of_machines(
    nodes: Map<Seq<char>, NodeModel>,
    a: Seq<Seq<char>>,
    b: Seq<Seq<char>>,
)
    requires
        machine_ids(nodes, a),
        machine_ids(nodes, b),
    ensures
        a == b,
    decreases a.len(),
{
    lemma_sorted_unique(a, b);
}

proof fn lemma_sorted_unique(a: Seq<Seq<char>>, b: Seq<Seq<char>>)
    requires
        ascending(a),
        ascending(b),
        forall|x: Seq<char>| a.contains(x) <==> #[trigger] b.contains(x),
    ensures
        a == b,
    decreases a.len(),
{
    if a.len() == 0 {
        if b.len() > 0 {
            assert(b.contains(b[0]));
        }
        assert(a =~= b);
    } else {
        assert(a.contains(a.last()));
        assert(b.contains(a.last()));
        let x = a.last();
        let y = b.last();
        assert(b.contains(y));
        assert(a.contains(y));
        let i = b.index_of(x);
        let j = a.index_of(y);
        if x != y {
            assert(crate::text::lex_lt(b[i], b[b.len() - 1]));
            assert(crate::text::lex_lt(a[j], a[a.len() - 1]));
            crate::text::lemma_lex_total(x, y);
        }
        let p = a.drop_last();
        let q = b.drop_last();
        assert(ascending(p)) by {
            assert forall|k: int, l: int| 0 <= k < l < p.len() implies crate::text::lex_lt(
                #[trigger] p[k],
                #[trigger] p[l],
            ) by {
                assert(crate::text::lex_lt(a[k], a[l]));
            }
        }
        assert(ascending(q)) by {
            assert forall|k: int, l: int| 0 <= k < l < q.len() implies crate::text::lex_lt(
                #[trigger] q[k],
                #[trigger] q[l],
            ) by {
                assert(crate::text::lex_lt(b[k], b[l]));
            }
        }
        assert forall|z: Seq<char>| p.contains(z) <==> #[trigger] q.contains(z) by {
            lemma_dropped(a, z);
            lemma_dropped(b, z);
            assert(a.contains(z) <==> b.contains(z));
        }
        lemma_sorted_unique(p, q);
        assert(a =~= p.push(x));
        assert(b =~= q.push(y));
    }
}

proof fn lemma_dropped(a: Seq<Seq<char>>, z: Seq<char>)
    requires
        ascending(a),
        a.len() > 0,
    ensures
        a.drop_last().contains(z) <==> a.contains(z) && z != a.last(),
{
    let p = a.drop_last();
    if p.contains(z) {
        let k = p.index_of(z);
        assert(a[k] == z);
        assert(crate::text::lex_lt(a[k], a[a.len() - 1]));
        crate::text::lemma_lex_irreflexive(z);
    }
    if a.contains(z) && z != a.last() {
        let k = a.index_of(z);
        assert(p[k] == z);
    }
}

/// Stepping forward goes to the next machine and from the last to the first, stepping
/// back to the one before and from the first to the last; where no machine of the list is
/// selected it starts at the end it comes from.
pub proof fn law_stepping_goes_round(
    ids: Seq<Seq<char>>,
    selected: Option<SelectionModel>,
    at: int,
    other: Option<SelectionModel>,
)
    requires
        ids.len() > 0,
        0 <= at < ids.len(),
        selected == Some(SelectionModel::Node { id: ids[at] }),
        forall|i: int| 0 <= i < at ==> (#[trigger] ids[i]) != ids[at],
        other matches Some(SelectionModel::Node { id }) ==> !ids.contains(id),
    ensures
        stepped(ids, selected, true) == ids[if at + 1 < ids.len() {
            at + 1
        } else {
            0
        }],
        stepped(ids, selected, false) == ids[if at > 0 {
            at - 1
        } else {
            ids.len() - 1
        }],
        stepped(ids, other, true) == ids[0],
        stepped(ids, other, false) == ids[ids.len() - 1],
{
    lemma_place(ids, ids[at], 0, at);
    if at + 1 < ids.len() {
        vstd::arithmetic::div_mod::lemma_small_mod((at + 1) as nat, ids.len());
    } else {
        vstd::arithmetic::div_mod::lemma_mod_self_0(ids.len() as int);
    }
    if let Some(SelectionModel::Node { id }) = other {
        assert forall|i: int| 0 <= i < ids.len() implies (#[trigger] ids[i]) != id by {}
        lemma_place(ids, id, 0, ids.len() as int);
    }
}

proof fn lemma_place(ids: Seq<Seq<char>>, id: Seq<char>, from: int, at: int)
    requires
        0 <= from <= at <= ids.len(),
        at < ids.len() ==> ids[at] == id,
        forall|i: int| from <= i < at ==> (#[trigger] ids[i]) != id,
    ensures
        place_of(ids, id, from) == at,
    decreases at - from,
{
    if from < at {
        assert(ids[from] != id);
        lemma_place(ids, id, from + 1, at);
    }
}

/// What lies under a cell is the last entry for it.
pub proof fn law_the_last_entry_counts(
    nodes: Seq<((u16, u16), String)>,
    edges: Seq<((u16, u16), (String, String))>,
    cell: (u16, u16),
    n: int,
    at: int,
)
    requires
        -1 <= at < n,
    ensures
        n <= nodes.len() && (at >= 0 ==> nodes[at].0 == cell) && (forall|i: int|
            at < i < n ==> (#[trigger] nodes[i]).0 != cell) ==> node_under(nodes, cell, n) == if at
            >= 0 {
            Some(nodes[at].1@)
        } else {
            None
        },
        n <= edges.len() && (at >= 0 ==> edges[at].0 == cell) && (forall|i: int|
            at < i < n ==> (#[trigger] edges[i]).0 != cell) ==> edge_under(edges, cell, n) == if at
            >= 0 {
            Some((edges[at].1.0@, edges[at].1.1@))
        } else {
            None
        },
    decreases n,
{
    if n > 0 && at < n - 1 {
        law_the_last_entry_counts(nodes, edges, cell, n - 1, at);
        if n <= nodes.len() {
            assert(nodes[n - 1].0 == nodes[n - 1].0);
        }
        if n <= edges.len() {
            assert(edges[n - 1].0 == edges[n - 1].0);
        }
    }
}

/// What the log says of each event: the size of the run, who is in which state and plays
/// which part, by the last label of its path, and how many tasks are over out of how
/// many. Starts and samples are not worth a line.
pub proof fn law_what_the_log_says(after: RunModel, event: EventModel)
    ensures
        event matches EventModel::RunStarted { tasks } ==> line_for(after, event) == Some(
            "run started: "@ + decimal(tasks as nat) + " tasks"@,
        ),
        event matches EventModel::Node { host, state } ==> line_for(after, event) == Some(
            leaf_label(host) + ": "@ + state.spec_name(),
        ),
        event matches EventModel::Profiled { host, role, .. } ==> line_for(after, event) == Some(
            leaf_label(host) + ": "@ + role.spec_name(),
        ),
        event is TaskStarted || event is Telemetry ==> line_for(after, event) is None,
        event is TaskFinished ==> line_for(after, event) == Some(
            "progress "@ + decimal(after.completed + after.failed) + "/"@ + decimal(
                after.total_tasks,
            ),
        ),
        LOG_CAPACITY == 256,
{
}

/// A full log drops its oldest line for a new one; one with room keeps all; and an event
/// without a line leaves it as it is.
pub proof fn law_the_log_keeps_the_newest(log: Seq<Seq<char>>, line: Seq<char>)
    ensures
        logged(log, None) == log,
        log.len() < 256 ==> logged(log, Some(line)) == log.push(line),
        log.len() == 256 ==> logged(log, Some(line)) == log.skip(1).push(line),
{
    assert(log.len() > 0 ==> log.drop_first() =~= log.skip(1));
}

/// An event changes the picture and the log, and leaves what is selected, hovered, paused,
/// elapsed and drawn.
pub proof fn law_an_event_leaves_the_selection(app: App, event: EventModel, next: App)
    requires
        app.folds(event, next),
    ensures
        next.state@ == app.state@.after(event),
        next.log_lines() == logged(app.log_lines(), line_for(next.state@, event)),
        next.selected == app.selected,
        next.hovered == app.hovered,
        next.paused == app.paused,
        next.elapsed_ms == app.elapsed_ms,
        next.hit == app.hit,
{
}

/// A fresh dashboard knows nothing, shows nothing and has nothing selected.
pub proof fn law_a_fresh_dashboard_is_empty(app: App)
    requires
        app.fresh(),
    ensures
        app.state@ == RunModel::unheard(),
        app.log@.len() == 0,
        app.elapsed_ms == 0,
        app.selected is None,
        app.hovered is None,
        !app.paused,
        app.hit.nodes@.len() == 0,
        app.hit.edges@.len() == 0,
{
}

} // verus!
