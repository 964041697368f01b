use std::collections::BTreeSet;

use rayonet::capability::{CpuArch, NodeProfile, Os, Role};
use rayonet::cells::{label_bounds, line_cells, Area};
use rayonet::graph::{Topology, ROOT};
use rayonet::observability::{Event, NodeState, NodeTelemetry};
use rayonet::panels::{
    drawable, edge_colour, edge_info, edge_info_lines, gauge, gauge_label, graph_geometry, has_details,
    hit_map, info_panel, is_emphasised, is_selected, legend_lines, node_blink, node_detail,
    node_detail_lines, node_glyph, node_text, paint_order, recent_lines, row_texts, state_colour, summary,
    table_rows, Blink, Colour, GraphGeometry, Panel,
};
use rayonet::tui::{Action, App, Input, Selection, LOG_CAPACITY};
use rayonet::views::{edge_is_active, edge_latency, effective_state, state_rank, vertex_state};

fn profile(isa: &str) -> NodeProfile {
    NodeProfile {
        os: Os::Linux,
        arch: CpuArch {
            isa: isa.to_string(),
            features: Vec::new(),
        },
        cores: 8,
        ram_mb: 16_000,
        gpus: Vec::new(),
    }
}

fn millis(us: u64) -> String {
    format!("{:.1}", us as f64 / 1000.0)
}

/// Two gateways front one shared leaf, the link through `gatewayA` being faster so
/// it is the primary path.
fn diamond() -> App {
    let mut app = App::new();
    for (host, id, latency) in [
        ("gatewayA", "idA", 1_000),
        ("gatewayB", "idB", 1_000),
        ("gatewayA/shared", "idS", 100),
        ("gatewayB/shared", "idS", 200),
    ] {
        app.apply(&Event::identified(
            host,
            id,
            profile("x86_64"),
            Role::Compute,
            latency,
        ));
    }
    for host in ["gatewayA", "gatewayB", "gatewayA/shared", "gatewayB/shared"] {
        app.apply(&Event::node(host, NodeState::Working));
    }
    app
}

/// A relay whose single leaf has no other path.
fn chain() -> App {
    let mut app = App::new();
    for (host, id) in [("relay", "idR"), ("relay/leaf", "idL")] {
        app.apply(&Event::identified(
            host,
            id,
            profile("x86_64"),
            Role::Compute,
            0,
        ));
    }
    app.apply(&Event::node("relay", NodeState::Working));
    app.apply(&Event::node("relay/leaf", NodeState::Working));
    app
}

/// The table as one text line per row.
fn table(app: &App) -> Vec<String> {
    table_rows(&app.state)
        .iter()
        .map(|row| {
            let latency = row.latency_us.map_or_else(String::new, millis);
            row_texts(row, &latency).join(" ")
        })
        .collect()
}

/// The info panel: its title and its lines.
fn info(app: &App) -> String {
    let panel = info_panel(app);
    let lines = match &panel {
        Panel::Details(id) => {
            assert!(has_details(&app.state, id));
            let detail = node_detail(&app.state, id);
            node_detail_lines(&detail, &millis(detail.latency_us))
        }
        Panel::Link(parent, child) => {
            let link = edge_info(&app.state, parent, child);
            let latency = link.latency_us.map(millis);
            edge_info_lines(&link, latency.as_deref())
        }
        Panel::Keys => legend_lines(),
    };
    format!("{}\n{}", panel.title(), lines.join("\n"))
}

fn geometry(app: &App) -> GraphGeometry {
    let topology = Topology::from_run_state(&app.state);
    // A fixed row per vertex keeps the labels apart.
    let cells: Vec<(u16, u16)> = (0..topology.len())
        .map(|v| (20 + 5 * v as u16, 3 + 4 * v as u16))
        .collect();
    graph_geometry(&app.state, &topology, &cells)
}

const PANEL: Area = Area {
    x: 1,
    y: 1,
    width: 60,
    height: 30,
};

fn draw_into(app: &mut App) {
    app.hit = hit_map(&geometry(app), PANEL);
}

fn header(app: &App) -> String {
    let seconds = format!("{:.1}", app.elapsed_ms as f64 / 1000.0);
    format!("{} {}", summary(&app.state, &seconds), gauge_label(&app.state))
}

#[test]
fn the_table_keeps_two_paths_to_one_node_distinct() {
    let mut app = App::new();
    for event in [
        Event::node("gatewayA", NodeState::Working),
        Event::node("gatewayA/shared", NodeState::Working),
        Event::node("gatewayB", NodeState::Working),
        Event::node("gatewayB/shared", NodeState::Working),
    ] {
        app.apply(&event);
    }
    let text = table(&app).join("\n");
    assert!(text.contains("gatewayA/shared"), "{text}");
    assert!(text.contains("gatewayB/shared"), "{text}");
}

#[test]
fn a_child_of_a_lost_relay_is_drawn_lost() {
    let mut app = App::new();
    for event in [
        Event::node("gatewayA", NodeState::Lost),
        Event::node("gatewayA/shared", NodeState::Working),
    ] {
        app.apply(&event);
    }
    let stranded = table(&app)
        .into_iter()
        .find(|row| row.contains("gatewayA/shared"))
        .expect("the stranded child row is present");
    assert!(stranded.contains("Lost"), "{stranded}");
    assert!(!stranded.contains("Working"), "{stranded}");
    assert_eq!(
        effective_state(&app.state, "gatewayA/unseen/deep"),
        NodeState::Lost
    );
}

#[test]
fn the_header_shows_progress_and_a_gauge() {
    let mut app = App::new();
    app.apply(&Event::RunStarted { tasks: 4 });
    for task in 0..3 {
        app.apply(&Event::TaskFinished {
            host: "leaf".to_string(),
            task,
            ok: true,
        });
    }
    let text = header(&app);
    assert!(text.contains("3/4 done"), "{text}");
    assert_eq!(gauge_label(&app.state), "3/4");
    assert_eq!(gauge(&app.state), (3, 4));
    assert_eq!(
        summary(&app.state, "0.0"),
        "3/4 done   0 failed   1 nodes   0.0s"
    );
}

#[test]
fn the_log_panel_shows_recent_events() {
    let mut app = App::new();
    app.apply(&Event::RunStarted { tasks: 1 });
    app.apply(&Event::node("leaf", NodeState::Building));
    app.apply(&Event::identified(
        "leaf",
        "id",
        profile("x86_64"),
        Role::Compute,
        0,
    ));
    // A task start contributes no log line; a finish does.
    app.apply(&Event::TaskStarted {
        host: "leaf".to_string(),
        task: 0,
    });
    app.apply(&Event::TaskFinished {
        host: "leaf".to_string(),
        task: 0,
        ok: true,
    });
    let text = recent_lines(&app, 6).join("\n");
    assert!(text.contains("run started: 1 tasks"), "{text}");
    assert!(text.contains("leaf: Building"), "{text}");
    assert!(text.contains("leaf: Compute"), "{text}");
    assert!(text.contains("progress 1/1"), "{text}");
    assert_eq!(
        recent_lines(&app, 2),
        vec!["leaf: Compute".to_string(), "progress 1/1".to_string()]
    );
}

#[test]
fn the_log_forgets_its_oldest_line() {
    let mut app = App::new();
    for task in 0..=LOG_CAPACITY {
        app.apply(&Event::RunStarted { tasks: task });
    }
    assert_eq!(app.log.len(), LOG_CAPACITY);
    assert_eq!(app.log[0], "run started: 1 tasks");
    // What is worth no line pushes none out.
    app.apply(&Event::TaskStarted {
        host: "a".to_string(),
        task: 0,
    });
    assert_eq!(app.log[0], "run started: 1 tasks");
    assert_eq!(
        app.log[LOG_CAPACITY - 1],
        format!("run started: {LOG_CAPACITY} tasks")
    );
    assert!(app.selected.is_none() && app.hovered.is_none() && !app.paused);
    assert_eq!(app.elapsed_ms, 0);
}

#[test]
fn the_table_flags_a_single_point_of_failure() {
    let rows = table(&chain());
    assert!(
        rows.iter()
            .any(|r| r.contains("relay") && !r.contains("relay/leaf") && r.contains("SPOF")),
        "{rows:?}"
    );
    assert!(
        rows.iter()
            .any(|r| r.contains("relay/leaf") && !r.contains("SPOF")),
        "{rows:?}"
    );
}

#[test]
fn every_node_state_renders_with_its_colour() {
    let mut app = App::new();
    app.elapsed_ms = 1500;
    let expected = [
        (NodeState::Probing, Colour::Yellow),
        (NodeState::Installing, Colour::Yellow),
        (NodeState::Syncing, Colour::Yellow),
        (NodeState::Building, Colour::Yellow),
        (NodeState::Ready, Colour::Cyan),
        (NodeState::Working, Colour::Green),
        (NodeState::Idle, Colour::Cyan),
        (NodeState::Done, Colour::Blue),
        (NodeState::Lost, Colour::Red),
    ];
    for (index, (state, colour)) in expected.into_iter().enumerate() {
        app.apply(&Event::node(&format!("n{index}"), state));
        assert_eq!(state_colour(state), colour);
    }
    assert_eq!(table(&app).len(), 9);
    assert!(header(&app).contains("1.5s"));
}

#[test]
fn graph_geometry_places_every_vertex_inside_the_panel() {
    let app = diamond();
    let drawn = geometry(&app);
    // The coordinator plus the two gateways plus the shared leaf.
    assert_eq!(drawn.nodes.len(), 4);
    assert!(drawn.nodes.iter().any(|node| node.label == "coordinator"));
    for node in &drawn.nodes {
        let (col, row) = node.cell;
        assert!(col >= PANEL.x && col < PANEL.x + PANEL.width);
        assert!(row >= PANEL.y && row < PANEL.y + PANEL.height);
    }
    // The shared leaf is reached by both gateways, so two edges end on it.
    assert_eq!(drawn.edges.len(), 4);
}

#[test]
fn draw_survives_a_terminal_too_small_for_the_graph() {
    let app = diamond();
    for (width, height) in [(1, 30), (60, 1), (0, 0)] {
        let sliver = Area {
            width,
            height,
            ..PANEL
        };
        assert!(!drawable(sliver));
        let hit = hit_map(&geometry(&app), sliver);
        assert!(hit.nodes.is_empty() && hit.edges.is_empty());
    }
    let smallest = Area {
        width: 2,
        height: 2,
        ..PANEL
    };
    assert!(drawable(smallest));
    assert!(!hit_map(&geometry(&app), smallest).edges.is_empty());
}

#[test]
fn brighter_links_are_painted_over_dimmer_ones() {
    let mut app = diamond();
    let drawn = geometry(&app);
    let standby = drawn.edges.iter().position(|e| !e.active).unwrap();
    let order = paint_order(&app, &drawn);
    assert_eq!(order[0], standby);
    assert_eq!(order.len(), drawn.edges.len());
    // Two emphasised links come last, in the order of the topology.
    app.hovered = Some((
        drawn.edges[standby].parent.clone(),
        drawn.edges[standby].child.clone(),
    ));
    app.selected = Some(Selection::Edge(
        drawn.edges[0].parent.clone(),
        drawn.edges[0].child.clone(),
    ));
    let order = paint_order(&app, &drawn);
    assert!(standby > 0);
    assert_eq!(order[order.len() - 2..], [0, standby]);
}

#[test]
fn the_graph_draws_active_and_standby_links_distinctly() {
    let app = diamond();
    let drawn = geometry(&app);
    let colours: Vec<(String, Colour)> = drawn
        .edges
        .iter()
        .filter(|e| e.child == "idS")
        .map(|e| (e.parent.clone(), edge_colour(e.active, false)))
        .collect();
    assert_eq!(
        colours,
        vec![
            ("idA".to_string(), Colour::Green),
            ("idB".to_string(), Colour::DarkGray)
        ]
    );
    assert_eq!(edge_colour(false, true), Colour::White);
}

#[test]
fn the_graph_marks_a_single_point_of_failure() {
    let drawn = geometry(&chain());
    let relay = drawn
        .nodes
        .iter()
        .find(|node| node.label == "relay")
        .expect("the relay vertex is present");
    assert!(relay.spof, "the lone relay is a single point of failure");
    let leaf = drawn
        .nodes
        .iter()
        .find(|node| node.label == "leaf")
        .expect("the leaf vertex is present");
    assert!(!leaf.spof, "the leaf is not a point of failure");
    assert_eq!(
        node_text(relay, node_glyph(relay.state)),
        "\u{2691}\u{25cf} relay"
    );
    assert_eq!(node_text(leaf, node_glyph(leaf.state)), "\u{25cf} leaf");
}

#[test]
fn node_glyphs_and_blink_cover_every_state() {
    assert_eq!(node_glyph(None), '\u{25c6}');
    assert_eq!(node_blink(None), Blink::Steady);
    let mut glyphs = BTreeSet::new();
    for state in [
        NodeState::Probing,
        NodeState::Installing,
        NodeState::Syncing,
        NodeState::Building,
        NodeState::Ready,
        NodeState::Idle,
        NodeState::Working,
        NodeState::Done,
        NodeState::Lost,
    ] {
        glyphs.insert(node_glyph(Some(state)));
        let blink = node_blink(Some(state));
        match state {
            NodeState::Lost => assert_eq!(blink, Blink::Rapid),
            NodeState::Probing
            | NodeState::Installing
            | NodeState::Syncing
            | NodeState::Building => assert_eq!(blink, Blink::Slow),
            _ => assert_eq!(blink, Blink::Steady),
        }
    }
    // Working, done, idle or ready, provisioning, and lost are five shapes.
    assert_eq!(glyphs.len(), 5);
}

#[test]
fn state_rank_orders_lifecycle_progress() {
    let order = [
        NodeState::Lost,
        NodeState::Probing,
        NodeState::Installing,
        NodeState::Syncing,
        NodeState::Building,
        NodeState::Idle,
        NodeState::Ready,
        NodeState::Working,
        NodeState::Done,
    ];
    for pair in order.windows(2) {
        assert!(state_rank(pair[0]) < state_rank(pair[1]), "{pair:?}");
    }
}

#[test]
fn a_machines_state_is_the_furthest_of_its_paths() {
    let mut app = diamond();
    app.apply(&Event::node("gatewayB", NodeState::Lost));
    app.apply(&Event::node("gatewayA/shared", NodeState::Done));
    assert_eq!(vertex_state(&app.state, "idS"), Some(NodeState::Done));
    assert_eq!(vertex_state(&app.state, "idB"), Some(NodeState::Lost));
    assert_eq!(vertex_state(&app.state, ROOT), None);
}

#[test]
fn line_cells_trace_between_endpoints() {
    // Both endpoints are there and the line is contiguous.
    let cells = line_cells((2, 2), (5, 4));
    assert_eq!(cells.first(), Some(&(2, 2)));
    assert_eq!(cells.last(), Some(&(5, 4)));
    assert_eq!(cells, vec![(2, 2), (3, 3), (4, 3), (5, 4)]);
    // A single-cell line is just that cell.
    assert_eq!(line_cells((3, 3), (3, 3)), vec![(3, 3)]);
    // Steep, backwards, and straight lines.
    assert_eq!(line_cells((1, 4), (0, 0)), vec![(1, 4), (1, 3), (0, 2), (0, 1), (0, 0)]);
    assert_eq!(line_cells((0, 0), (0, 2)), vec![(0, 0), (0, 1), (0, 2)]);
}

#[test]
fn labels_are_clamped_to_the_panel() {
    let inner = Area {
        x: 10,
        y: 0,
        width: 20,
        height: 5,
    };
    assert_eq!(label_bounds(inner, (20, 1), "abcd"), (18, 4));
    assert_eq!(label_bounds(inner, (10, 1), "abcd"), (10, 4));
    assert_eq!(label_bounds(inner, (29, 1), "abcd"), (26, 4));
    assert_eq!(
        label_bounds(inner, (20, 1), "abcdefghijklmnopqrstuvwxyz"),
        (10, 20)
    );
}

#[test]
fn keyboard_cycles_the_selection() {
    // Selectable ids in order: idA, idB, idS.
    let mut app = diamond();
    assert_eq!(app.selectable(), vec!["idA", "idB", "idS"]);
    assert_eq!(app.on_input(Input::SelectNext), Action::Continue);
    assert_eq!(app.selected, Some(Selection::Node("idA".to_string())));
    app.on_input(Input::SelectNext);
    assert_eq!(app.selected, Some(Selection::Node("idB".to_string())));
    app.on_input(Input::SelectPrev);
    assert_eq!(app.selected, Some(Selection::Node("idA".to_string())));
    // Stepping back past the first wraps to the last.
    app.on_input(Input::SelectPrev);
    assert_eq!(app.selected, Some(Selection::Node("idS".to_string())));
    app.on_input(Input::Clear);
    assert_eq!(app.selected, None);
    // With nothing selected, a backward step lands on the last.
    app.on_input(Input::SelectPrev);
    assert_eq!(app.selected, Some(Selection::Node("idS".to_string())));
}

#[test]
fn selection_on_an_empty_run_is_a_no_op() {
    let mut app = App::new();
    app.on_input(Input::SelectNext);
    assert_eq!(app.selected, None);
}

#[test]
fn pause_toggles_and_quit_signals() {
    let mut app = App::new();
    assert!(!app.paused);
    assert_eq!(app.on_input(Input::TogglePause), Action::Continue);
    assert!(app.paused);
    app.on_input(Input::TogglePause);
    assert!(!app.paused);
    assert_eq!(app.on_input(Input::Quit), Action::Quit);
}

fn cell_of(app: &App, id: &str) -> (u16, u16) {
    app.hit
        .nodes
        .iter()
        .find(|(_, found)| found == id)
        .expect("the machine is hittable after a draw")
        .0
}

#[test]
fn a_click_selects_the_node_under_the_pointer() {
    let mut app = diamond();
    draw_into(&mut app);
    let (col, row) = cell_of(&app, "idA");
    assert_eq!(app.on_input(Input::Click { col, row }), Action::Continue);
    assert_eq!(app.selected, Some(Selection::Node("idA".to_string())));
}

#[test]
fn a_click_and_the_equivalent_key_reach_the_same_state() {
    let mut by_key = diamond();
    by_key.on_input(Input::SelectNext); // lands on idA, the first id

    let mut by_click = diamond();
    draw_into(&mut by_click);
    let (col, row) = cell_of(&by_click, "idA");
    by_click.on_input(Input::Click { col, row });

    assert_eq!(by_key.selected, by_click.selected);
}

#[test]
fn a_click_pins_the_link_under_the_pointer() {
    let mut app = diamond();
    draw_into(&mut app);
    // A link's endpoint cells coincide with labels, so pick one of its own.
    let (cell, _) = app
        .hit
        .edges
        .iter()
        .find(|(cell, _)| app.hit.node_at(cell.0, cell.1).is_none())
        .expect("a link has a cell of its own after a draw");
    let (col, row) = *cell;
    let (parent, child) = app.hit.edge_at(col, row).expect("a link is there");
    app.on_input(Input::Click { col, row });
    assert_eq!(app.selected, Some(Selection::Edge(parent, child)));
}

#[test]
fn clicking_empty_space_clears_the_pin() {
    let mut app = diamond();
    app.selected = Some(Selection::Node("idA".to_string()));
    draw_into(&mut app);
    app.on_input(Input::Click { col: 0, row: 0 });
    assert_eq!(app.selected, None);
}

#[test]
fn a_pin_outranks_a_hover_in_the_panel() {
    let mut app = diamond();
    app.selected = Some(Selection::Node("idA".to_string()));
    app.hovered = Some(("idB".to_string(), "idS".to_string()));
    let text = info(&app);
    assert!(text.contains("node  gatewayA"), "{text}");
    assert!(!text.contains("path  standby"), "{text}");
    // The hovered link is emphasised all the same, and so is the selected node.
    let drawn = geometry(&app);
    let emphasised: Vec<&str> = drawn
        .edges
        .iter()
        .filter(|e| is_emphasised(&app, e))
        .map(|e| e.parent.as_str())
        .collect();
    assert_eq!(emphasised, vec!["idB"]);
    assert_eq!(
        drawn.nodes.iter().filter(|n| is_selected(&app, n)).count(),
        1
    );
}

#[test]
fn a_pinned_link_shows_its_info() {
    let mut app = diamond();
    app.selected = Some(Selection::Edge("idB".to_string(), "idS".to_string()));
    let text = info(&app);
    assert!(text.contains("gatewayB -> shared"), "{text}");
    assert!(text.contains("standby"), "{text}");
}

#[test]
fn hovering_a_link_records_it() {
    let mut app = diamond();
    draw_into(&mut app);
    let (col, row) = app.hit.edges[0].0;
    let expected = app.hit.edge_at(col, row);
    app.on_input(Input::PointerMoved { col, row });
    assert!(app.hovered.is_some());
    assert_eq!(app.hovered, expected);
}

#[test]
fn the_coordinator_is_not_selectable() {
    let mut app = diamond();
    draw_into(&mut app);
    assert!(
        app.hit.nodes.iter().all(|(_, id)| id != ROOT),
        "the coordinator root has no hittable label"
    );
}

#[test]
fn the_detail_panel_describes_the_selected_node() {
    let mut app = diamond();
    app.selected = Some(Selection::Node("idA".to_string()));
    let text = info(&app);
    assert!(text.contains("details"), "{text}");
    assert!(text.contains("node  gatewayA"), "{text}");
    assert!(text.contains("Compute"), "{text}");
    assert!(text.contains("cores 8"), "{text}");
    assert!(text.contains("arch x86_64"), "{text}");
}

#[test]
fn the_detail_panel_lays_out_every_line() {
    let mut app = diamond();
    for host in ["gatewayA/shared", "gatewayB/shared"] {
        app.apply(&Event::TaskFinished {
            host: host.to_string(),
            task: 0,
            ok: true,
        });
    }
    let detail = node_detail(&app.state, "idS");
    assert_eq!(
        node_detail_lines(&detail, "0.1"),
        vec![
            "node  shared",
            "id    idS",
            "role  Compute  state Working",
            "spof  no  redund yes",
            "done  2  lat 0.1 ms",
            "os    Linux  arch x86_64",
            "cores 8  ram 16000 MB  gpus 0",
            "util  n/a",
        ]
    );
    assert!(!has_details(&app.state, "missing"));
}

#[test]
fn the_detail_panel_shows_live_telemetry() {
    // Without a sample the panel says utilisation is unavailable.
    let mut app = diamond();
    app.selected = Some(Selection::Node("idA".to_string()));
    assert!(info(&app).contains("util  n/a"));

    // A sample with a GPU shows CPU, memory, GPU, and the running task count.
    app.apply(&Event::Telemetry {
        host: "gatewayA".to_string(),
        telemetry: NodeTelemetry {
            cpu_pct: 64,
            mem_pct: 30,
            gpu_pct: Some(91),
            gpu_mem_pct: Some(45),
            in_flight: 1,
        },
    });
    let with_gpu = info(&app);
    assert!(with_gpu.contains("cpu   64%"), "{with_gpu}");
    assert!(with_gpu.contains("gpu   91%"), "{with_gpu}");
    assert!(with_gpu.contains("tasks 1 running"), "{with_gpu}");

    // A sample without a GPU omits the GPU line.
    app.apply(&Event::Telemetry {
        host: "gatewayA".to_string(),
        telemetry: NodeTelemetry {
            cpu_pct: 10,
            mem_pct: 20,
            gpu_pct: None,
            gpu_mem_pct: None,
            in_flight: 0,
        },
    });
    let no_gpu = info(&app);
    assert!(no_gpu.contains("cpu   10%"), "{no_gpu}");
    assert!(!no_gpu.contains("gpu  "), "{no_gpu}");
}

#[test]
fn the_link_panel_distinguishes_primary_and_standby() {
    let mut app = diamond();
    app.hovered = Some(("idA".to_string(), "idS".to_string()));
    let primary = info(&app);
    assert!(primary.contains("gatewayA -> shared"), "{primary}");
    assert!(primary.contains("0.1 ms"), "{primary}");
    assert!(primary.contains("active (primary)"), "{primary}");

    app.hovered = Some(("idB".to_string(), "idS".to_string()));
    let standby = info(&app);
    assert!(standby.contains("0.2 ms"), "{standby}");
    assert!(standby.contains("standby"), "{standby}");
    assert!(!edge_is_active(&app.state, "idB", "idS"));
}

#[test]
fn the_link_panel_names_the_coordinator_and_resolves_root_latency() {
    let mut app = diamond();
    app.hovered = Some((ROOT.to_string(), "idA".to_string()));
    let text = info(&app);
    assert!(text.contains("coordinator -> gatewayA"), "{text}");
    assert!(text.contains("1.0 ms"), "{text}");
    assert!(text.contains("active (primary)"), "{text}");
}

#[test]
fn the_link_panel_handles_an_unknown_latency() {
    // A pair with no discovered path shows n/a rather than a latency.
    let mut app = diamond();
    app.hovered = Some(("idA".to_string(), "idB".to_string()));
    assert!(info(&app).contains("n/a"));
}

#[test]
fn the_legend_shows_when_nothing_is_selected() {
    let text = info(&diamond());
    assert!(text.contains("keys"), "{text}");
    assert!(text.contains("pause"), "{text}");
}

#[test]
fn edge_latency_resolves_paths_and_misses() {
    let app = diamond();
    // The coordinator link to a gateway carries the gateway's own latency.
    assert_eq!(edge_latency(&app.state, ROOT, "idA"), Some(1_000));
    // A standby leaf link carries that path's measured latency.
    assert_eq!(edge_latency(&app.state, "idB", "idS"), Some(200));
    // An unrelated pair resolves to no path.
    assert_eq!(edge_latency(&app.state, "idA", "idB"), None);
}
