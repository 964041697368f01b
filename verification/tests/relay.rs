use rayonet::control::{Control, ControlAction, KillMode};
use rayonet::heartbeat::HeartbeatConfig;
use rayonet::job::AgentEvent;
use rayonet::observability::{Event, NodeState};
use rayonet::protocol::{ChildAd, FromAgent, ToAgent};
use rayonet::relay::{Relay, RelayAction, RelayError};
use rayonet::relay_loop::{
    activation, failure_ends, must_arrive, opening, relay_failure_message, RelayInput, RelayRun,
};

fn relay(children: &[&str]) -> Relay {
    Relay::new(
        children.iter().map(|c| (*c).to_string()).collect(),
        vec![1; children.len()],
        vec![true; children.len()],
        0,
    )
}

fn completed(task: u64, via: &str) -> FromAgent {
    FromAgent::Completed {
        task_id: task,
        output: vec![1],
        via: via.to_string(),
    }
}

fn failed(task: u64) -> FromAgent {
    FromAgent::Failed {
        task_id: task,
        error: "boom".to_string(),
        via: String::new(),
    }
}

fn assign(task: u64) -> RelayInput {
    RelayInput::Parent(Some(ToAgent::Assign {
        task_id: task,
        payload: vec![task as u8],
    }))
}

fn handed(actions: &[RelayAction]) -> Vec<(usize, u64)> {
    actions
        .iter()
        .filter_map(|a| match a {
            RelayAction::ToChild {
                child,
                message: ToAgent::Assign { task_id, .. },
            } => Some((*child, *task_id)),
            _ => None,
        })
        .collect()
}

fn reports(actions: &[RelayAction]) -> Vec<Event> {
    actions
        .iter()
        .filter_map(|a| match a {
            RelayAction::Report(e) => Some(e.clone()),
            _ => None,
        })
        .collect()
}

fn upward(actions: &[RelayAction]) -> Vec<FromAgent> {
    actions
        .iter()
        .filter_map(|a| match a {
            RelayAction::ToParent(m) => Some(m.clone()),
            _ => None,
        })
        .collect()
}

fn run(children: &[&str], heartbeat: HeartbeatConfig) -> RelayRun {
    let mut r = RelayRun::begin(
        children.iter().map(|c| (*c).to_string()).collect(),
        vec![1; children.len()],
        vec![true; children.len()],
        heartbeat,
        0,
    );
    assert_eq!(
        upward(&r.sched.take_actions()),
        vec![FromAgent::Ready {
            slots: children.len()
        }]
    );
    r
}

fn off() -> HeartbeatConfig {
    HeartbeatConfig::new(0, 0)
}

#[test]
fn on_terminal_dedups_a_repeated_task() {
    let mut r = relay(&["leaf"]);
    r.accept(7, vec![]);
    assert_eq!(r.on_terminal(7), Some(0));
    assert_eq!(r.on_terminal(7), None);
    assert_eq!(r.load[0], 0);
}

#[test]
fn resuming_an_idle_child_reports_it_idle_not_working() {
    let mut r = relay(&["leaf"]);
    assert!(r.control("leaf", ControlAction::Pause));
    assert!(r.control("leaf", ControlAction::Resume));
    assert_eq!(
        reports(&r.take_actions()),
        vec![
            Event::node("leaf", NodeState::Paused),
            Event::node("leaf", NodeState::Idle)
        ]
    );
}

#[test]
fn kill_after_current_on_an_idle_child_kills_it_immediately() {
    let mut r = relay(&["leaf"]);
    let alive = r.control(
        "leaf",
        ControlAction::Kill {
            mode: KillMode::AfterCurrent,
        },
    );
    // It was the only child, so the subtree is gone.
    assert!(!alive);
    assert!(!r.alive[0]);
    let actions = r.take_actions();
    assert_eq!(
        actions[0],
        RelayAction::ToChild {
            child: 0,
            message: ToAgent::Shutdown
        }
    );
    assert_eq!(reports(&actions), vec![Event::node("leaf", NodeState::Lost)]);
}

#[test]
fn a_draining_childs_last_completion_tears_the_subtree_down() {
    let mut r = relay(&["leaf"]);
    r.accept(0, vec![]);
    assert!(r.control(
        "leaf",
        ControlAction::Kill {
            mode: KillMode::AfterCurrent
        }
    ));
    assert!(r.draining[0]);
    let alive = r
        .handle_child(AgentEvent::Message(0, completed(0, "")), 5)
        .unwrap();
    assert!(!alive);
    assert_eq!(
        upward(&r.take_actions()),
        vec![completed(0, "leaf")]
    );
}

#[test]
fn a_draining_childs_last_failure_tears_the_subtree_down() {
    let mut r = relay(&["leaf"]);
    r.accept(0, vec![]);
    r.control(
        "leaf",
        ControlAction::Kill {
            mode: KillMode::AfterCurrent,
        },
    );
    assert!(!r
        .handle_child(AgentEvent::Message(0, failed(0)), 5)
        .unwrap());
}

#[test]
fn a_grandchild_capacity_growth_is_folded_and_reported_up() {
    let mut r = relay(&["sub", "leaf"]);
    assert!(r
        .handle_child(AgentEvent::Message(0, FromAgent::Capacity { slots: 4 }), 1)
        .unwrap());
    assert_eq!(r.capacity, vec![4, 1]);
    assert_eq!(
        upward(&r.take_actions()),
        vec![FromAgent::Capacity { slots: 5 }]
    );
}

#[test]
fn a_child_that_readies_twice_is_rejected() {
    let mut r = relay(&["leaf"]);
    let e = r
        .handle_child(AgentEvent::Message(0, FromAgent::Ready { slots: 1 }), 1)
        .unwrap_err();
    assert_eq!(
        relay_failure_message(&e, ""),
        "a child sent a handshake message on the live channel"
    );
    assert!(r
        .handle_child(
            AgentEvent::Message(
                0,
                FromAgent::Discovered {
                    children: Vec::new()
                }
            ),
            1
        )
        .is_err());
}

#[test]
fn coordinator_relay_leaves_returns_ordered_results() {
    let mut r = run(&["l0", "l1"], off());
    for task in 0..3 {
        assert!(r.step(assign(task), 1).unwrap());
    }
    let actions = r.sched.take_actions();
    assert_eq!(handed(&actions), vec![(0, 0), (1, 1)]);
    assert_eq!(
        reports(&actions),
        vec![
            Event::node("l0", NodeState::Working),
            Event::node("l1", NodeState::Working)
        ]
    );
    r.step(RelayInput::Child(AgentEvent::Message(1, completed(1, ""))), 2)
        .unwrap();
    let actions = r.sched.take_actions();
    // The result goes up with its id intact and the waiting task goes down.
    assert_eq!(upward(&actions), vec![completed(1, "l1")]);
    assert_eq!(handed(&actions), vec![(1, 2)]);
}

#[test]
fn the_coordinator_sees_the_whole_subtree() {
    let mut r = run(&["sub"], off());
    r.step(
        RelayInput::Child(AgentEvent::Message(
            0,
            FromAgent::Observe(Event::node("leaf", NodeState::Ready)),
        )),
        1,
    )
    .unwrap();
    assert_eq!(
        upward(&r.sched.take_actions()),
        vec![FromAgent::Observe(Event::node("sub/leaf", NodeState::Ready))]
    );
}

#[test]
fn a_relay_whose_child_is_itself_a_relay_runs_to_depth_three() {
    let mut r = run(&["sub"], off());
    r.step(assign(0), 1).unwrap();
    r.sched.take_actions();
    r.step(
        RelayInput::Child(AgentEvent::Message(0, completed(0, "leaf"))),
        1,
    )
    .unwrap();
    assert_eq!(
        upward(&r.sched.take_actions()),
        vec![completed(0, "sub/leaf")]
    );
}

#[test]
fn a_panicking_leaf_failure_is_forwarded_up() {
    let mut r = run(&["leaf"], off());
    r.step(assign(3), 1).unwrap();
    r.sched.take_actions();
    r.step(
        RelayInput::Child(AgentEvent::Message(0, FromAgent::Started { task_id: 3 })),
        1,
    )
    .unwrap();
    r.step(RelayInput::Child(AgentEvent::Message(0, failed(3))), 1)
        .unwrap();
    let actions = r.sched.take_actions();
    assert_eq!(
        upward(&actions),
        vec![
            FromAgent::Started { task_id: 3 },
            FromAgent::Failed {
                task_id: 3,
                error: "boom".to_string(),
                via: "leaf".to_string()
            }
        ]
    );
    assert_eq!(
        reports(&actions),
        vec![Event::node("leaf", NodeState::Idle)]
    );
}

#[test]
fn a_lost_child_has_its_work_absorbed_by_a_sibling() {
    let mut r = run(&["l0", "l1"], off());
    for task in 0..3 {
        r.step(assign(task), 1).unwrap();
    }
    r.sched.take_actions();
    assert!(r.step(RelayInput::Child(AgentEvent::Lost(0)), 2).unwrap());
    assert_eq!(
        reports(&r.sched.take_actions()),
        vec![Event::node("l0", NodeState::Lost)]
    );
    // The lost task is the first to be run again, before the one that waited.
    r.step(RelayInput::Child(AgentEvent::Message(1, completed(1, ""))), 3)
        .unwrap();
    assert_eq!(handed(&r.sched.take_actions()), vec![(1, 0)]);
    r.step(RelayInput::Child(AgentEvent::Message(1, completed(0, ""))), 3)
        .unwrap();
    assert_eq!(handed(&r.sched.take_actions()), vec![(1, 2)]);
}

#[test]
fn a_relay_whose_only_child_dies_fails_its_subtree() {
    let mut r = run(&["leaf"], off());
    assert!(!r.step(RelayInput::Child(AgentEvent::Lost(0)), 1).unwrap());
}

#[test]
fn a_relay_absorbs_a_child_added_mid_run() {
    let mut r = run(&["l0"], off());
    r.step(assign(0), 1).unwrap();
    r.step(assign(1), 1).unwrap();
    r.sched.take_actions();
    r.step(
        RelayInput::Joined {
            label: "l1".to_string(),
            capacity: 2,
        },
        4,
    )
    .unwrap();
    let actions = r.sched.take_actions();
    assert_eq!(upward(&actions), vec![FromAgent::Capacity { slots: 3 }]);
    assert_eq!(handed(&actions), vec![(1, 1)]);
    assert_eq!(
        reports(&actions),
        vec![
            Event::node("l1", NodeState::Idle),
            Event::node("l1", NodeState::Working)
        ]
    );
}

#[test]
fn a_relay_whose_parent_leaves_during_the_handshake_exits_cleanly() {
    let labels = vec!["a".to_string()];
    assert!(activation(&labels, None).unwrap().is_none());
    assert!(activation(&labels, Some(ToAgent::Shutdown))
        .unwrap()
        .is_none());
}

#[test]
fn a_relay_rejects_a_non_activate_reply_to_discovery() {
    let labels = vec!["a".to_string()];
    let e = activation(&labels, Some(ToAgent::Ping)).unwrap_err();
    assert!(matches!(e, RelayError::ExpectedActivate(ToAgent::Ping)));
    assert_eq!(
        relay_failure_message(&e, "Ping"),
        "expected Activate, got Ping"
    );
}

#[test]
fn the_parent_names_the_active_children() {
    let labels = vec!["a".to_string(), "b".to_string()];
    let ids = vec!["ia".to_string(), "ib".to_string()];
    let ads = opening(&labels, &ids, &vec![2, 3], &vec![40], &Vec::new()).unwrap();
    assert_eq!(
        ads,
        vec![
            ChildAd::new("a".to_string(), "ia".to_string(), 2, 40),
            ChildAd::new("b".to_string(), "ib".to_string(), 3, 0)
        ]
    );
    assert_eq!(ads[0].label(), "a");
    assert_eq!(ads[0].id(), "ia");
    assert_eq!(ads[0].slots(), 2);
    assert_eq!(ads[0].latency_us(), 40);
    let flags = activation(
        &labels,
        Some(ToAgent::Activate {
            active: vec!["b".to_string()],
        }),
    )
    .unwrap()
    .unwrap();
    assert_eq!(flags, vec![false, true]);
    // A standby takes nothing until it is promoted.
    let mut r = RelayRun::begin(labels, vec![2, 3], flags, off(), 0);
    assert_eq!(
        upward(&r.sched.take_actions()),
        vec![FromAgent::Ready { slots: 3 }]
    );
    for task in 0..4 {
        r.step(assign(task), 1).unwrap();
    }
    assert_eq!(
        handed(&r.sched.take_actions()),
        vec![(1, 0), (1, 1), (1, 2)]
    );
    r.step(
        RelayInput::Parent(Some(ToAgent::Promote {
            child: "a".to_string(),
        })),
        1,
    )
    .unwrap();
    let actions = r.sched.take_actions();
    assert_eq!(upward(&actions), vec![FromAgent::Capacity { slots: 5 }]);
    assert_eq!(handed(&actions), vec![(0, 3)]);
    // Promoting it again, or a stranger, changes nothing.
    for child in ["a", "zzz"] {
        r.step(
            RelayInput::Parent(Some(ToAgent::Promote {
                child: child.to_string(),
            })),
            1,
        )
        .unwrap();
    }
    assert!(r.sched.take_actions().is_empty());
}

#[test]
fn a_relay_with_no_usable_children_errors() {
    let none: Vec<String> = Vec::new();
    assert_eq!(
        opening(&none, &none, &Vec::new(), &Vec::new(), &none).unwrap_err(),
        "rayonet: relay has no usable children: "
    );
    let failures = vec!["x: down".to_string(), "y: down".to_string()];
    assert_eq!(
        opening(&none, &none, &Vec::new(), &Vec::new(), &failures).unwrap_err(),
        "rayonet: relay has no usable children: x: down; y: down"
    );
    // One usable child is enough, whatever became of the others.
    let one = vec!["z".to_string()];
    assert!(opening(&one, &one, &vec![1], &Vec::new(), &failures).is_ok());
}

#[test]
fn a_second_hello_from_the_parent_is_rejected() {
    let mut r = run(&["leaf"], off());
    let hello = ToAgent::Hello {
        protocol_version: 1,
        fn_key: "k".to_string(),
        heartbeat: off(),
    };
    let e = r
        .step(RelayInput::Parent(Some(hello.clone())), 1)
        .unwrap_err();
    assert_eq!(
        relay_failure_message(&e, "Hello"),
        "unexpected message from parent: Hello"
    );
    match e {
        RelayError::UnexpectedFromParent(message) => assert_eq!(message, hello),
        other => panic!("unexpected {other:?}"),
    }
    let activate = ToAgent::Activate { active: Vec::new() };
    assert!(r.step(RelayInput::Parent(Some(activate)), 1).is_err());
}

#[test]
fn a_ping_is_answered_and_a_departed_parent_ends_the_relay() {
    let mut r = run(&["leaf"], off());
    assert!(r.step(RelayInput::Parent(Some(ToAgent::Ping)), 1).unwrap());
    assert_eq!(upward(&r.sched.take_actions()), vec![FromAgent::Pong]);
    assert!(!r
        .step(RelayInput::Parent(Some(ToAgent::Shutdown)), 1)
        .unwrap());
    assert!(!r.step(RelayInput::Parent(None), 1).unwrap());
    r.sched.shutdown();
    let actions = r.sched.take_actions();
    assert_eq!(
        reports(&actions),
        vec![Event::node("leaf", NodeState::Done)]
    );
    assert_eq!(
        actions.last(),
        Some(&RelayAction::ToChild {
            child: 0,
            message: ToAgent::Shutdown
        })
    );
}

#[test]
fn a_relay_tears_down_when_its_parent_goes_silent() {
    let mut r = run(&["leaf"], HeartbeatConfig::new(50, 200));
    assert!(r.step(RelayInput::Beat, 100).unwrap());
    assert_eq!(
        r.sched.take_actions(),
        vec![RelayAction::ToChild {
            child: 0,
            message: ToAgent::Ping
        }]
    );
    // Exactly the timeout is not yet too long.
    r.step(RelayInput::Child(AgentEvent::Message(0, FromAgent::Pong)), 190)
        .unwrap();
    assert!(r.step(RelayInput::Beat, 200).unwrap());
    assert!(!r.step(RelayInput::Beat, 201).unwrap());
}

#[test]
fn a_relays_healthy_leaf_absorbs_a_silent_sibling() {
    let mut r = run(&["silent", "healthy"], HeartbeatConfig::new(50, 200));
    r.step(assign(0), 10).unwrap();
    r.sched.take_actions();
    r.step(RelayInput::Child(AgentEvent::Message(1, FromAgent::Pong)), 250)
        .unwrap();
    r.step(RelayInput::Parent(Some(ToAgent::Ping)), 250).unwrap();
    r.sched.take_actions();
    assert!(r.step(RelayInput::Beat, 300).unwrap());
    let actions = r.sched.take_actions();
    assert!(actions.contains(&RelayAction::Abandon { child: 0 }));
    assert_eq!(handed(&actions), vec![(1, 0)]);
    assert_eq!(
        reports(&actions),
        vec![
            Event::node("silent", NodeState::Lost),
            Event::node("healthy", NodeState::Working)
        ]
    );
    // Without any message from the last one the subtree is given up too.
    r.step(RelayInput::Parent(Some(ToAgent::Ping)), 500).unwrap();
    assert!(!r.step(RelayInput::Beat, 600).unwrap());
}

#[test]
fn a_disabled_heartbeat_does_nothing() {
    let mut r = run(&["leaf"], off());
    assert!(r.step(RelayInput::Beat, 1_000_000).unwrap());
    assert!(r.sched.take_actions().is_empty());
}

#[test]
fn killing_a_leaf_behind_a_relay_reroutes_and_reports_it_lost() {
    let mut r = run(&["l0", "l1"], off());
    r.step(assign(0), 1).unwrap();
    r.sched.take_actions();
    let kill = Control::new(
        "l0",
        ControlAction::Kill {
            mode: KillMode::Now,
        },
    );
    assert!(r
        .step(
            RelayInput::Parent(Some(ToAgent::Control {
                target: kill.target().to_string(),
                action: kill.action(),
            })),
            2
        )
        .unwrap());
    let actions = r.sched.take_actions();
    assert_eq!(
        reports(&actions),
        vec![
            Event::node("l0", NodeState::Lost),
            Event::node("l1", NodeState::Working)
        ]
    );
    assert_eq!(handed(&actions), vec![(1, 0)]);
    // A second kill of the lost child is ignored.
    assert!(r.sched.kill_child(0));
    assert!(r.sched.take_actions().is_empty());
}

#[test]
fn pausing_leaves_behind_a_relay_stalls_until_resumed() {
    let mut r = run(&["leaf"], off());
    r.sched.control("leaf", ControlAction::Pause);
    r.sched.control("leaf", ControlAction::Pause);
    r.step(assign(0), 1).unwrap();
    let actions = r.sched.take_actions();
    assert!(handed(&actions).is_empty());
    assert_eq!(
        reports(&actions),
        vec![Event::node("leaf", NodeState::Paused)]
    );
    r.sched.control("leaf", ControlAction::Resume);
    let actions = r.sched.take_actions();
    assert_eq!(handed(&actions), vec![(0, 0)]);
    assert_eq!(
        reports(&actions).last(),
        Some(&Event::node("leaf", NodeState::Working))
    );
}

#[test]
fn a_paused_childs_last_task_leaves_it_showing_paused() {
    let mut r = run(&["leaf"], off());
    r.step(assign(0), 1).unwrap();
    r.sched.control("leaf", ControlAction::Pause);
    r.sched.take_actions();
    r.step(RelayInput::Child(AgentEvent::Message(0, completed(0, ""))), 2)
        .unwrap();
    assert!(reports(&r.sched.take_actions()).is_empty());
}

#[test]
fn kill_after_current_behind_a_relay_drains_then_loses_the_leaf() {
    let mut r = run(&["l0", "l1"], off());
    r.step(assign(0), 1).unwrap();
    r.sched.take_actions();
    r.sched.control(
        "l0",
        ControlAction::Kill {
            mode: KillMode::AfterCurrent,
        },
    );
    assert_eq!(
        reports(&r.sched.take_actions()),
        vec![Event::node("l0", NodeState::Draining)]
    );
    assert!(r
        .step(RelayInput::Child(AgentEvent::Message(0, completed(0, ""))), 2)
        .unwrap());
    assert_eq!(
        reports(&r.sched.take_actions()),
        vec![Event::node("l0", NodeState::Lost)]
    );
}

#[test]
fn killing_a_leaf_two_relays_deep_routes_through_both() {
    let action = ControlAction::Kill {
        mode: KillMode::Now,
    };
    let mut outer = relay(&["r2"]);
    assert!(outer.control("r2/leaf", action));
    let sent = outer.take_actions();
    let expected = RelayAction::ToChild {
        child: 0,
        message: ToAgent::Control {
            target: "leaf".to_string(),
            action,
        },
    };
    assert_eq!(sent, vec![expected]);
    let mut inner = relay(&["leaf", "other"]);
    assert!(inner.control("leaf", action));
    assert!(!inner.alive[0]);
    assert!(inner.alive[1]);
    // A path to nowhere is ignored.
    assert!(outer.control("nobody/leaf", action));
    assert!(outer.take_actions().is_empty());
}

#[test]
fn a_repeated_completion_is_not_forwarded() {
    let mut r = run(&["leaf"], off());
    r.step(assign(0), 1).unwrap();
    r.step(RelayInput::Child(AgentEvent::Message(0, completed(0, ""))), 1)
        .unwrap();
    r.sched.take_actions();
    assert!(r
        .step(RelayInput::Child(AgentEvent::Message(0, completed(0, ""))), 1)
        .unwrap());
    assert!(r.sched.take_actions().is_empty());
}

#[test]
fn a_lost_parent_or_task_ends_a_running_relay() {
    let assign = RelayAction::ToChild {
        child: 0,
        message: ToAgent::Assign {
            task_id: 1,
            payload: vec![1],
        },
    };
    let ping = RelayAction::ToChild {
        child: 0,
        message: ToAgent::Ping,
    };
    let pong = RelayAction::ToParent(FromAgent::Pong);
    let report = RelayAction::Report(Event::node("leaf", NodeState::Idle));
    let abandon = RelayAction::Abandon { child: 0 };
    let ends = |closing: bool| -> Vec<bool> {
        [&assign, &ping, &pong, &report, &abandon]
            .into_iter()
            .map(|action| failure_ends(action, closing))
            .collect()
    };
    assert_eq!(ends(false), vec![true, false, true, true, false]);
    assert_eq!(ends(true), vec![false; 5]);
    assert!(!must_arrive(&ToAgent::Shutdown));
}
