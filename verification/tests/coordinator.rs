use std::collections::VecDeque;

use rayonet::coordinator::{
    decode_output, failure_message, redundancy_message, ActivationPolicy, Expected, FirstReport,
    Handshake, HandshakeError, HandshakeStep, Run, RunInput, RunOptions, Verdict,
};
use rayonet::heartbeat::HeartbeatConfig;
use rayonet::job::{AgentEvent, Job, JobAction, JobError};
use rayonet::observability::{Event, NodeState};
use rayonet::protocol::{ChildAd, FromAgent, ToAgent, PROTOCOL_VERSION};

fn payloads(n: u8) -> Vec<Vec<u8>> {
    (0..n).map(|i| vec![i]).collect()
}

fn labels(n: usize) -> Vec<String> {
    (0..n).map(|i| format!("a{i}")).collect()
}

fn begin(agents: usize, capacity: usize, tasks: u8, speculative: bool) -> Run {
    Run::begin(
        labels(agents),
        vec![capacity; agents],
        (0..agents).map(|_| Vec::new()).collect(),
        payloads(tasks),
        RunOptions {
            require_redundancy: false,
            speculative,
        },
    )
}

fn completed(task: u64, output: Vec<u8>) -> FromAgent {
    FromAgent::Completed {
        task_id: task,
        output,
        via: String::new(),
    }
}

fn assigned_to(actions: &[JobAction]) -> Vec<(usize, u64)> {
    actions
        .iter()
        .filter_map(|a| match a {
            JobAction::Send {
                agent,
                message: ToAgent::Assign { task_id, .. },
            } => Some((*agent, *task_id)),
            _ => None,
        })
        .collect()
}

fn emitted(actions: &[JobAction]) -> Vec<Event> {
    actions
        .iter()
        .filter_map(|a| match a {
            JobAction::Emit(e) => Some(e.clone()),
            _ => None,
        })
        .collect()
}

/// Let every agent answer its assignments with `answer` until the run is over.
fn drive(run: &mut Run, answer: impl Fn(u8) -> Result<Vec<u8>, String>) -> Vec<JobAction> {
    let mut seen = Vec::new();
    let mut queue: VecDeque<AgentEvent> = VecDeque::new();
    loop {
        for action in run.job.take_actions() {
            if let JobAction::Send {
                agent,
                message: ToAgent::Assign { task_id, payload },
            } = &action
            {
                queue.push_back(AgentEvent::Message(
                    *agent,
                    FromAgent::Started { task_id: *task_id },
                ));
                queue.push_back(AgentEvent::Message(
                    *agent,
                    match answer(payload[0]) {
                        Ok(output) => completed(*task_id, output),
                        Err(error) => FromAgent::Failed {
                            task_id: *task_id,
                            error,
                            via: String::new(),
                        },
                    },
                ));
            }
            seen.push(action);
        }
        if run.verdict() != Verdict::Waiting {
            return seen;
        }
        let event = queue.pop_front().expect("an agent has something to say");
        run.step(RunInput::Agent(event)).unwrap();
    }
}

#[test]
fn ordered_results_from_one_agent() {
    let mut run = begin(1, 1, 10, false);
    drive(&mut run, |x| Ok(vec![x * x]));
    let out = run.finish().unwrap();
    let expected: Vec<Result<Vec<u8>, String>> = (0..10u8).map(|x| Ok(vec![x * x])).collect();
    assert_eq!(out, expected);
}

#[test]
fn failures_land_in_place_among_successes() {
    let mut run = begin(2, 1, 6, false);
    drive(&mut run, |x| {
        if x % 2 == 1 {
            Err(format!("odd {x}"))
        } else {
            Ok(vec![x])
        }
    });
    let out = run.finish().unwrap();
    for (i, result) in out.iter().enumerate() {
        if i % 2 == 1 {
            assert_eq!(*result, Err(format!("odd {i}")));
        } else {
            assert_eq!(*result, Ok(vec![i as u8]));
        }
    }
}

#[test]
fn each_agent_runs_one_task_at_a_time() {
    let mut run = begin(2, 1, 4, false);
    assert_eq!(assigned_to(&run.job.take_actions()), vec![(0, 0), (1, 1)]);
    run.step(RunInput::Agent(AgentEvent::Message(1, completed(1, vec![]))))
        .unwrap();
    assert_eq!(assigned_to(&run.job.take_actions()), vec![(1, 2)]);
}

#[test]
fn faster_agent_takes_more_work() {
    let mut run = begin(2, 1, 10, false);
    run.job.take_actions();
    // Agent 0 holds task 0 throughout; agent 1 drains all the rest.
    let mut next = 1u64;
    let mut taken = 1;
    while next < 10 {
        run.step(RunInput::Agent(AgentEvent::Message(1, completed(next, vec![]))))
            .unwrap();
        let handed = assigned_to(&run.job.take_actions());
        if next < 9 {
            assert_eq!(handed, vec![(1, next + 1)]);
            taken += 1;
        } else {
            assert!(handed.is_empty());
        }
        next += 1;
    }
    assert_eq!(taken, 9);
    assert_eq!(run.verdict(), Verdict::Waiting);
}

#[test]
fn the_event_stream_attributes_work_per_host() {
    let mut run = begin(1, 1, 1, false);
    let actions = drive(&mut run, |x| Ok(vec![x]));
    assert_eq!(
        emitted(&actions),
        vec![
            Event::RunStarted { tasks: 1 },
            Event::node("a0", NodeState::Working),
            Event::TaskStarted {
                host: "a0".to_string(),
                task: 0
            },
            Event::TaskFinished {
                host: "a0".to_string(),
                task: 0,
                ok: true
            },
            Event::node("a0", NodeState::Idle),
        ]
    );
    run.job.close();
    let last = run.job.take_actions();
    assert_eq!(emitted(&last), vec![Event::node("a0", NodeState::Done)]);
    assert!(matches!(
        last.last(),
        Some(JobAction::Send {
            agent: 0,
            message: ToAgent::Shutdown
        })
    ));
}

#[test]
fn a_dropped_agents_tasks_are_redistributed_and_run_once() {
    let mut run = begin(2, 2, 4, false);
    assert_eq!(
        assigned_to(&run.job.take_actions()),
        vec![(0, 0), (0, 1), (1, 2), (1, 3)]
    );
    run.step(RunInput::Agent(AgentEvent::Lost(0))).unwrap();
    let actions = run.job.take_actions();
    assert_eq!(emitted(&actions), vec![Event::node("a0", NodeState::Lost)]);
    assert!(assigned_to(&actions).is_empty());
    run.step(RunInput::Agent(AgentEvent::Message(1, completed(2, vec![2]))))
        .unwrap();
    assert_eq!(assigned_to(&run.job.take_actions()), vec![(1, 0)]);
    for task in [3u64, 0, 1] {
        run.step(RunInput::Agent(AgentEvent::Message(
            1,
            completed(task, vec![task as u8]),
        )))
        .unwrap();
    }
    let out = run.finish().unwrap();
    let expected: Vec<Result<Vec<u8>, String>> = (0..4u8).map(|x| Ok(vec![x])).collect();
    assert_eq!(out, expected);
}

#[test]
fn a_failed_result_survives_its_agents_death() {
    let mut run = begin(2, 1, 2, false);
    run.step(RunInput::Agent(AgentEvent::Message(
        0,
        FromAgent::Failed {
            task_id: 0,
            error: "boom".to_string(),
            via: String::new(),
        },
    )))
    .unwrap();
    run.step(RunInput::Agent(AgentEvent::Lost(0))).unwrap();
    run.step(RunInput::Agent(AgentEvent::Message(1, completed(1, vec![1]))))
        .unwrap();
    assert_eq!(
        run.finish().unwrap(),
        vec![Err("boom".to_string()), Ok(vec![1])]
    );
}

#[test]
fn a_subtree_observe_is_reemitted_with_a_prefixed_host() {
    let mut run = begin(1, 1, 1, false);
    run.job.take_actions();
    run.step(RunInput::Agent(AgentEvent::Message(
        0,
        FromAgent::Observe(Event::node("leaf", NodeState::Ready)),
    )))
    .unwrap();
    assert_eq!(
        emitted(&run.job.take_actions()),
        vec![Event::node("a0/leaf", NodeState::Ready)]
    );
    // Trailing events are still surfaced, other late messages are not.
    run.job.trailing(AgentEvent::Message(
        0,
        FromAgent::Observe(Event::node("leaf", NodeState::Done)),
    ));
    run.job
        .trailing(AgentEvent::Message(0, completed(0, vec![])));
    assert_eq!(
        emitted(&run.job.take_actions()),
        vec![Event::node("a0/leaf", NodeState::Done)]
    );
}

#[test]
fn an_agent_is_filled_to_its_advertised_capacity() {
    let mut run = begin(1, 3, 5, false);
    assert_eq!(
        assigned_to(&run.job.take_actions()),
        vec![(0, 0), (0, 1), (0, 2)]
    );
    run.step(RunInput::Agent(AgentEvent::Message(
        0,
        FromAgent::Capacity { slots: 4 },
    )))
    .unwrap();
    assert_eq!(assigned_to(&run.job.take_actions()), vec![(0, 3)]);
}

#[test]
fn errors_when_agent_readies_twice() {
    let mut run = begin(1, 1, 1, false);
    let e = run
        .step(RunInput::Agent(AgentEvent::Message(
            0,
            FromAgent::Ready { slots: 1 },
        )))
        .unwrap_err();
    assert_eq!(e, JobError::RepeatedHandshake);
    assert_eq!(
        failure_message(e),
        "agent sent a handshake message more than once"
    );
    assert!(run
        .step(RunInput::Agent(AgentEvent::Message(
            0,
            FromAgent::Discovered {
                children: Vec::new()
            },
        )))
        .is_err());
}

#[test]
fn errors_when_agent_skips_ready() {
    let mut handshake = greet(&["a0"], ActivationPolicy::DedupById, false);
    let e = handshake
        .on_reply(Some(FromAgent::Started { task_id: 0 }))
        .unwrap_err();
    assert!(matches!(
        e,
        HandshakeError::Unexpected {
            want: Expected::ReadyOrDiscovered,
            got: Some(FromAgent::Started { task_id: 0 })
        }
    ));
    assert_eq!(Expected::ReadyOrDiscovered.text(), "Ready or Discovered");
}

#[test]
fn errors_when_agent_disconnects_mid_run() {
    let mut run = begin(1, 1, 2, false);
    run.step(RunInput::JoinsClosed).unwrap();
    run.step(RunInput::Agent(AgentEvent::Lost(0))).unwrap();
    assert_eq!(run.verdict(), Verdict::AllLost);
    let e = run.finish().unwrap_err();
    assert_eq!(
        failure_message(e),
        "every agent was lost and no node could join before the job completed"
    );
}

#[test]
fn errors_with_no_agents_but_pending_work() {
    let mut run = begin(0, 1, 1, false);
    assert_eq!(run.verdict(), Verdict::Waiting);
    run.step(RunInput::JoinsClosed).unwrap();
    assert_eq!(run.verdict(), Verdict::AllLost);
    // With nothing to do the same run is finished at once.
    assert_eq!(begin(0, 1, 0, false).verdict(), Verdict::Finished);
}

#[test]
fn a_decode_failure_becomes_a_task_error() {
    let bad: Result<u32, String> = decode_output(Ok(Err("eof".to_string())));
    assert_eq!(bad, Err("decode output: eof".to_string()));
    let failed: Result<u32, String> = decode_output(Err("boom".to_string()));
    assert_eq!(failed, Err("boom".to_string()));
    let good: Result<u32, String> = decode_output(Ok(Ok(7)));
    assert_eq!(good, Ok(7));
}

#[test]
fn a_duplicate_completion_is_deduplicated() {
    let mut run = begin(1, 1, 2, false);
    run.job.take_actions();
    run.step(RunInput::Agent(AgentEvent::Message(0, completed(0, vec![1]))))
        .unwrap();
    run.job.take_actions();
    run.step(RunInput::Agent(AgentEvent::Message(0, completed(0, vec![9]))))
        .unwrap();
    assert!(run.job.take_actions().is_empty());
    run.step(RunInput::Agent(AgentEvent::Message(0, completed(1, vec![2]))))
        .unwrap();
    assert_eq!(run.finish().unwrap(), vec![Ok(vec![1]), Ok(vec![2])]);
}

#[test]
fn speculation_reruns_a_straggler_on_an_idle_node() {
    let mut run = begin(2, 1, 2, true);
    run.job.take_actions();
    // Agent 1 finishes its task and races agent 0's straggler.
    run.step(RunInput::Agent(AgentEvent::Message(1, completed(1, vec![1]))))
        .unwrap();
    assert_eq!(assigned_to(&run.job.take_actions()), vec![(1, 0)]);
    // The first result wins and frees both; the loser's is dropped.
    run.step(RunInput::Agent(AgentEvent::Message(1, completed(0, vec![5]))))
        .unwrap();
    assert_eq!(run.verdict(), Verdict::Finished);
    run.step(RunInput::Agent(AgentEvent::Message(0, completed(0, vec![6]))))
        .unwrap();
    assert_eq!(run.finish().unwrap(), vec![Ok(vec![5]), Ok(vec![1])]);
}

#[test]
fn a_speculative_run_returns_correct_results() {
    let expected: Vec<Result<Vec<u8>, String>> = (0..12u8).map(|x| Ok(vec![x * 2])).collect();
    let mut racing = begin(2, 1, 12, true);
    drive(&mut racing, |x| Ok(vec![x * 2]));
    assert_eq!(racing.finish().unwrap(), expected);
    // Without racing, and over another fleet, the results are the same.
    let mut plain = begin(3, 2, 12, false);
    drive(&mut plain, |x| Ok(vec![x * 2]));
    assert_eq!(plain.finish().unwrap(), expected);
}

#[test]
fn a_task_is_recorded_once() {
    let mut run = begin(2, 1, 2, true);
    run.step(RunInput::Agent(AgentEvent::Message(1, completed(1, vec![1]))))
        .unwrap();
    // Task 0 is raced by both agents.
    assert_eq!(run.job.in_flight, vec![1, 1]);
    assert_eq!(run.job.record(0, Ok(vec![5])), vec![0, 1]);
    assert_eq!(run.job.in_flight, vec![0, 0]);
    assert_eq!(run.job.remaining, 0);
    assert_eq!(run.job.record(0, Ok(vec![6])), Vec::<usize>::new());
    assert_eq!(run.job.record(7, Ok(vec![6])), Vec::<usize>::new());
    assert_eq!(run.finish().unwrap(), vec![Ok(vec![5]), Ok(vec![1])]);
}

#[test]
fn without_speculation_an_idle_node_stays_idle() {
    let mut run = begin(2, 1, 2, false);
    run.job.take_actions();
    run.step(RunInput::Agent(AgentEvent::Message(1, completed(1, vec![1]))))
        .unwrap();
    let actions = run.job.take_actions();
    assert!(assigned_to(&actions).is_empty());
    assert_eq!(
        emitted(&actions).last(),
        Some(&Event::node("a1", NodeState::Idle))
    );
}

#[test]
fn a_racing_copy_keeps_a_lost_agents_task_running() {
    let mut run = begin(2, 1, 2, true);
    run.step(RunInput::Agent(AgentEvent::Message(1, completed(1, vec![1]))))
        .unwrap();
    run.job.take_actions();
    // Task 0 runs on both; losing one copy requeues nothing.
    run.step(RunInput::Agent(AgentEvent::Lost(0))).unwrap();
    assert!(assigned_to(&run.job.take_actions()).is_empty());
    run.step(RunInput::Agent(AgentEvent::Message(1, completed(0, vec![0]))))
        .unwrap();
    assert_eq!(run.finish().unwrap(), vec![Ok(vec![0]), Ok(vec![1])]);
}

#[test]
fn a_node_joining_mid_run_takes_pending_work() {
    let mut run = begin(1, 1, 3, false);
    run.job.take_actions();
    run.step(RunInput::Join {
        label: "late".to_string(),
        capacity: 1,
    })
    .unwrap();
    let actions = run.job.take_actions();
    assert_eq!(assigned_to(&actions), vec![(1, 1)]);
    assert_eq!(
        emitted(&actions),
        vec![Event::node("late", NodeState::Working)]
    );
}

fn greet(agents: &[&str], policy: ActivationPolicy, redundancy: bool) -> Handshake {
    Handshake::new(
        agents.iter().map(|a| (*a).to_string()).collect(),
        vec![10; agents.len()],
        "key".to_string(),
        HeartbeatConfig::new(0, 0),
        redundancy,
        policy,
    )
}

fn ad(label: &str, id: &str, latency: u64) -> ChildAd {
    ChildAd::new(label.to_string(), id.to_string(), 1, latency)
}

#[test]
fn a_relay_node_can_join_mid_run() {
    let mut join = Handshake::joining(
        "relay".to_string(),
        "key".to_string(),
        HeartbeatConfig::new(0, 0),
    );
    match join.next() {
        HandshakeStep::Ask {
            agent: 0,
            message: ToAgent::Hello {
                protocol_version, ..
            },
        } => assert_eq!(protocol_version, PROTOCOL_VERSION),
        other => panic!("unexpected {other:?}"),
    }
    join.on_reply(Some(FromAgent::Discovered {
        children: vec![ad("l1", "id1", 1), ad("l2", "id2", 1)],
    }))
    .unwrap();
    match join.next() {
        HandshakeStep::Ask {
            agent: 0,
            message: ToAgent::Activate { active },
        } => assert_eq!(active, vec!["l1".to_string(), "l2".to_string()]),
        other => panic!("unexpected {other:?}"),
    }
    join.on_reply(Some(FromAgent::Ready { slots: 2 })).unwrap();
    assert!(matches!(join.next(), HandshakeStep::Done));
    assert_eq!(join.capacity, vec![2]);
    assert!(join.standbys[0].is_empty());
}

#[test]
fn handshake_join_rejects_a_bad_first_reply() {
    let mut join = Handshake::joining(
        "x".to_string(),
        "key".to_string(),
        HeartbeatConfig::new(0, 0),
    );
    assert!(join.on_reply(Some(FromAgent::Pong)).is_err());
    assert!(join.on_reply(None).is_err());
}

#[test]
fn handshake_join_rejects_a_relay_that_does_not_ready_after_activate() {
    let mut join = Handshake::joining(
        "x".to_string(),
        "key".to_string(),
        HeartbeatConfig::new(0, 0),
    );
    join.on_reply(Some(FromAgent::Discovered {
        children: vec![ad("l", "id", 1)],
    }))
    .unwrap();
    let e = join.on_reply(None).unwrap_err();
    assert!(matches!(
        e,
        HandshakeError::Unexpected {
            want: Expected::ReadyAfterActivate,
            got: None
        }
    ));
    assert_eq!(Expected::ReadyAfterActivate.text(), "Ready after Activate");
}

#[test]
fn a_run_waits_for_a_join_then_errors_when_the_channel_closes_with_no_survivor() {
    let mut run = begin(1, 1, 2, false);
    run.step(RunInput::Agent(AgentEvent::Lost(0))).unwrap();
    assert_eq!(run.verdict(), Verdict::Waiting);
    run.step(RunInput::JoinsClosed).unwrap();
    assert_eq!(run.verdict(), Verdict::AllLost);
}

#[test]
fn a_shared_leaf_runs_on_its_faster_path_and_stands_by_on_the_other() {
    let mut handshake = greet(&["A", "B", "leaf"], ActivationPolicy::DedupById, false);
    handshake
        .on_reply(Some(FromAgent::Discovered {
            children: vec![ad("shared", "idS", 200), ad("own", "idO", 5)],
        }))
        .unwrap();
    handshake
        .on_reply(Some(FromAgent::Discovered {
            children: vec![ad("shared", "idS", 100)],
        }))
        .unwrap();
    handshake
        .on_reply(Some(FromAgent::Ready { slots: 1 }))
        .unwrap();
    assert_eq!(handshake.actives[0], vec!["own".to_string()]);
    assert_eq!(handshake.actives[1], vec!["shared".to_string()]);
    assert!(handshake.actives[2].is_empty());
    handshake
        .on_reply(Some(FromAgent::Ready { slots: 1 }))
        .unwrap();
    handshake
        .on_reply(Some(FromAgent::Ready { slots: 1 }))
        .unwrap();
    assert!(matches!(handshake.next(), HandshakeStep::Done));
    assert_eq!(handshake.standbys[0], vec![ad("shared", "idS", 200)]);
    assert!(handshake.standbys[1].is_empty());
    assert!(matches!(handshake.first[2], FirstReport::Leaf(1)));
    assert_eq!(handshake.capacity, vec![1, 1, 1]);
}

#[test]
fn a_diamond_reroutes_through_the_standby_when_the_primary_relay_dies() {
    let mut job = Job::new(
        vec!["A".to_string(), "B".to_string()],
        vec![1, 0],
        vec![Vec::new(), vec![ad("shared", "idS", 200)]],
        payloads(1),
        false,
    );
    job.start();
    assert_eq!(assigned_to(&job.take_actions()), vec![(0, 0)]);
    job.on_event(AgentEvent::Lost(0)).unwrap();
    let actions = job.take_actions();
    assert!(actions.iter().any(|a| *a
        == JobAction::Send {
            agent: 1,
            message: ToAgent::Promote {
                child: "shared".to_string()
            }
        }));
    // The promoted relay reports its larger capacity and takes the work over.
    job.on_event(AgentEvent::Message(1, FromAgent::Capacity { slots: 1 }))
        .unwrap();
    let actions = job.take_actions();
    assert_eq!(assigned_to(&actions), vec![(1, 0)]);
    assert_eq!(emitted(&actions), vec![Event::node("B", NodeState::Working)]);
}

#[test]
fn require_redundancy_refuses_compute_behind_a_lone_relay() {
    let mut handshake = greet(&["A"], ActivationPolicy::DedupById, true);
    let e = handshake
        .on_reply(Some(FromAgent::Discovered {
            children: vec![ad("l", "idL", 1)],
        }))
        .unwrap_err();
    match e {
        HandshakeError::NotRedundant { gaps } => {
            assert_eq!(gaps, vec!["idL".to_string()]);
            assert_eq!(
                redundancy_message(&gaps),
                "rayonet: require_redundancy: compute reachable through only one relay: idL"
            );
        }
        other => panic!("unexpected {other:?}"),
    }
    assert_eq!(
        redundancy_message(&vec!["a".to_string(), "b".to_string()]),
        "rayonet: require_redundancy: compute reachable through only one relay: a, b"
    );
}

#[test]
fn require_redundancy_admits_a_node_reached_through_two_relays() {
    let mut handshake = greet(&["A", "B"], ActivationPolicy::DedupById, true);
    for _ in 0..2 {
        handshake
            .on_reply(Some(FromAgent::Discovered {
                children: vec![ad("l", "idL", 1)],
            }))
            .unwrap();
    }
    // Both paths are equally fast, so the first relay runs it.
    assert_eq!(handshake.actives[0], vec!["l".to_string()]);
    assert!(handshake.actives[1].is_empty());
}

#[test]
fn require_redundancy_admits_direct_hosts() {
    let mut handshake = greet(&["A", "B"], ActivationPolicy::DedupById, true);
    handshake
        .on_reply(Some(FromAgent::Ready { slots: 1 }))
        .unwrap();
    handshake
        .on_reply(Some(FromAgent::Ready { slots: 3 }))
        .unwrap();
    assert!(matches!(handshake.next(), HandshakeStep::Done));
    assert_eq!(handshake.capacity, vec![1, 3]);
    assert!(handshake.standbys.iter().all(Vec::is_empty));

    // Without the requirement the run starts with the same.
    let mut plain = greet(&["A", "B"], ActivationPolicy::DedupById, false);
    plain.on_reply(Some(FromAgent::Ready { slots: 1 })).unwrap();
    plain.on_reply(Some(FromAgent::Ready { slots: 3 })).unwrap();
    assert_eq!(plain.capacity, handshake.capacity);
}

#[test]
fn work_stranded_behind_a_dead_lone_relay_fails() {
    let mut run = Run::begin(
        vec!["A".to_string()],
        vec![2],
        vec![Vec::new()],
        payloads(2),
        RunOptions::default(),
    );
    run.step(RunInput::JoinsClosed).unwrap();
    run.step(RunInput::Agent(AgentEvent::Lost(0))).unwrap();
    assert_eq!(run.finish().unwrap_err(), JobError::AllLost);
}

#[test]
fn depth_three_credits_the_full_leaf_path() {
    let mut run = begin(1, 1, 1, false);
    run.job.take_actions();
    run.step(RunInput::Agent(AgentEvent::Message(
        0,
        FromAgent::Completed {
            task_id: 0,
            output: vec![],
            via: "relay2/leaf".to_string(),
        },
    )))
    .unwrap();
    assert_eq!(
        emitted(&run.job.take_actions())[0],
        Event::TaskFinished {
            host: "a0/relay2/leaf".to_string(),
            task: 0,
            ok: true
        }
    );
}

#[test]
fn a_late_start_of_a_resolved_task_is_not_reported() {
    let mut run = begin(1, 1, 1, false);
    run.step(RunInput::Agent(AgentEvent::Message(0, completed(0, vec![]))))
        .unwrap();
    run.job.take_actions();
    run.step(RunInput::Agent(AgentEvent::Message(
        0,
        FromAgent::Started { task_id: 0 },
    )))
    .unwrap();
    run.step(RunInput::Agent(AgentEvent::Message(0, FromAgent::Pong)))
        .unwrap();
    assert!(run.job.take_actions().is_empty());
}
