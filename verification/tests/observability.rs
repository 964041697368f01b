use rayonet::capability::{CpuArch, NodeProfile, Os, Role};
use rayonet::observability::{
    join_label, leaf_of, parent_of, Event, EventSink, NodeState, NodeView, NoopSink, PlainRenderer,
    RunState,
};
use rayonet::testing::EventRecorder;

fn finished(host: &str, task: u64, ok: bool) -> Event {
    Event::TaskFinished {
        host: host.to_string(),
        task,
        ok,
    }
}

fn profile() -> NodeProfile {
    NodeProfile {
        os: Os::Linux,
        arch: CpuArch::unknown(),
        cores: 8,
        ram_mb: 16_000,
        gpus: Vec::new(),
    }
}

fn view<'a>(state: &'a RunState, host: &str) -> &'a NodeView {
    state.nodes.get(host).expect("the host is known")
}

#[test]
fn run_state_records_a_profile_and_role() {
    let mut state = RunState::default();
    state.apply(&Event::profiled("host-a", profile(), Role::Compute));

    let seen = view(&state, "host-a");
    assert_eq!(seen.profile, Some(profile()));
    assert_eq!(seen.role, Some(Role::Compute));
}

#[test]
fn plain_renderer_summarizes_a_profile() {
    let mut renderer = PlainRenderer::new();
    let line = renderer
        .render(&Event::profiled("host-a", profile(), Role::Compute))
        .expect("profiled events print a line");
    assert!(line.contains("host-a"), "{line}");
    assert!(line.contains("Compute"), "{line}");
    assert_eq!(
        line,
        "host-a: Compute (Linux, 8 cores, 16000 MB RAM, 0 GPUs)"
    );
}

#[test]
fn run_state_reduces_node_and_task_events() {
    let mut state = RunState::default();
    for event in [
        Event::RunStarted { tasks: 3 },
        Event::node("fast", NodeState::Working),
        Event::TaskStarted {
            host: "slow".to_string(),
            task: 2,
        },
        finished("fast", 0, true),
        finished("fast", 1, true),
        finished("slow", 2, false),
        Event::node("fast", NodeState::Done),
    ] {
        state.apply(&event);
    }

    assert_eq!(state.total_tasks, 3);
    assert_eq!(state.completed, 2);
    assert_eq!(state.failed, 1);
    assert_eq!(view(&state, "fast").completed, 2);
    assert_eq!(view(&state, "fast").state, NodeState::Done);
    assert_eq!(view(&state, "slow").completed, 1);
    assert_eq!(view(&state, "slow").state, NodeState::Working);
}

#[test]
fn plain_renderer_produces_the_expected_line_sequence() {
    let mut renderer = PlainRenderer::new();
    let script = [
        Event::RunStarted { tasks: 3 },
        Event::node("leaf-a", NodeState::Building),
        Event::node("leaf-a", NodeState::Ready),
        Event::TaskStarted {
            host: "leaf-a".to_string(),
            task: 0,
        },
        finished("leaf-a", 0, true),
        finished("leaf-a", 1, false),
        Event::node("leaf-a", NodeState::Done),
    ];
    let lines: Vec<String> = script.iter().filter_map(|e| renderer.render(e)).collect();
    assert_eq!(
        lines,
        vec![
            "run started: 3 tasks",
            "leaf-a: Building",
            "leaf-a: Ready",
            "progress: 1/3",
            "progress: 2/3",
            "leaf-a: Done",
        ]
    );
}

#[test]
fn observability_types_expose_debug_and_clone() {
    let event = Event::RunStarted { tasks: 1 };
    let cloned = event.clone();
    assert_eq!(event, cloned);
    assert!(format!("{event:?}").contains("RunStarted"));

    let mut state = RunState::default();
    state.apply(&Event::node("h", NodeState::Idle));
    let state_clone = state.clone();
    assert_eq!(state, state_clone);
    assert!(format!("{state:?}").contains("nodes"));

    let seen: NodeView = view(&state, "h").clone();
    assert!(format!("{seen:?}").contains("Idle"));
}

#[test]
fn hosts_are_kept_in_name_order() {
    let mut state = RunState::new();
    for host in ["b", "a/z", "a", "c", "a"] {
        state.apply(&Event::node(host, NodeState::Ready));
    }
    let names: Vec<&str> = state.nodes.entries.iter().map(|e| e.0.as_str()).collect();
    assert_eq!(names, vec!["a", "a/z", "b", "c"]);
    assert!(state.nodes.get("d").is_none());
}

#[test]
fn paths_join_and_split() {
    assert_eq!(join_label("relay", "leaf"), "relay/leaf");
    assert_eq!(join_label("relay", ""), "relay");
    assert_eq!(parent_of("a/b/c"), Some("a/b".to_string()));
    assert_eq!(parent_of("a"), None);
    assert_eq!(leaf_of("a/b/c"), "c");
    assert_eq!(leaf_of("a"), "a");
}

#[test]
fn prefixing_twice_is_prefixing_with_the_joined_path() {
    let event = Event::node("leaf", NodeState::Ready);
    let once = event.copy().prefix_host("inner").prefix_host("outer");
    assert_eq!(once, event.prefix_host("outer/inner"));
    // A run-wide event has no host, and a relay's own event is its own path.
    let run = Event::RunStarted { tasks: 2 };
    assert_eq!(run.copy().prefix_host("x"), run);
    let own = Event::node("", NodeState::Idle).prefix_host("relay");
    assert_eq!(own, Event::node("relay", NodeState::Idle));
}

#[test]
fn every_host_event_is_prefixed() {
    let started = Event::TaskStarted {
        host: "l".to_string(),
        task: 1,
    };
    assert_eq!(
        started.prefix_host("r"),
        Event::TaskStarted {
            host: "r/l".to_string(),
            task: 1
        }
    );
    assert_eq!(finished("l", 1, true).prefix_host("r"), finished("r/l", 1, true));
    assert_eq!(
        Event::profiled("l", profile(), Role::Excluded).prefix_host("r"),
        Event::profiled("r/l", profile(), Role::Excluded)
    );
    assert_eq!(
        Event::identified("l", "id", profile(), Role::Compute, 5).prefix_host("r"),
        Event::identified("r/l", "id", profile(), Role::Compute, 5)
    );
}

#[test]
fn every_state_has_its_name() {
    for state in [
        NodeState::Probing,
        NodeState::Installing,
        NodeState::Syncing,
        NodeState::Building,
        NodeState::Ready,
        NodeState::Working,
        NodeState::Idle,
        NodeState::Paused,
        NodeState::Draining,
        NodeState::Done,
        NodeState::Lost,
    ] {
        assert_eq!(state.name(), format!("{state:?}"));
    }
    for role in [Role::Compute, Role::Excluded] {
        assert_eq!(role.name(), format!("{role:?}"));
    }
    for os in [Os::Linux, Os::MacOs, Os::Other] {
        assert_eq!(os.name(), format!("{os:?}"));
    }
}

#[test]
fn the_recorder_keeps_events_and_states() {
    let mut recorder = EventRecorder::default();
    recorder.record(Event::RunStarted { tasks: 1 });
    recorder.record(Event::node("h", NodeState::Probing));
    recorder.record(finished("h", 0, true));
    recorder.record(Event::node("h", NodeState::Ready));
    assert_eq!(recorder.events().len(), 4);
    assert_eq!(recorder.events()[2], finished("h", 0, true));
    assert_eq!(
        recorder.states(),
        vec![NodeState::Probing, NodeState::Ready]
    );
    NoopSink.emit(Event::RunStarted { tasks: 1 });
}

#[test]
fn a_finished_task_is_counted_once() {
    let mut state = RunState::new();
    state.apply(&Event::node("a", NodeState::Ready));
    state.apply(&finished("b", 0, false));
    state.apply(&finished("b", 1, true));
    assert_eq!((state.completed, state.failed), (1, 1));
    assert_eq!(view(&state, "a").completed, 0);
    assert_eq!(view(&state, "b").completed, 2);
}
