use rayonet::capability::{
    CpuArch, Filter, Gpu, GpuRuntime, GpuVendor, NodeProfile, Os, Predicate, Role,
};
use rayonet::fleet::{
    assess, fold_outputs, no_eligible_host, reduce_outputs, rejoin_policy, Discovery, Fleet,
    HostReport, JoinAttempt, Launched, NetMap, Rejoin, RejoinPolicy, RejoinStep,
};
use rayonet::observability::{Event, NoopSink};

fn profile(os: Os, gpus: Vec<Gpu>) -> NodeProfile {
    NodeProfile {
        os,
        arch: CpuArch::unknown(),
        cores: 8,
        ram_mb: 16_000,
        gpus,
    }
}

fn rocm_gpu() -> Gpu {
    Gpu {
        vendor: GpuVendor::Amd,
        runtime: Some(GpuRuntime::Rocm),
        model: "Instinct".to_string(),
        vram_mb: Some(65_536),
    }
}

fn probed(profile: NodeProfile) -> HostReport {
    HostReport::Probed {
        id: "id".to_string(),
        profile,
        latency_us: 7,
    }
}

#[test]
fn net_reduce_folds_outputs_on_the_coordinator() {
    let outputs: Vec<Result<u32, String>> = (0..5u32).map(|x| Ok(x * x)).collect();
    assert_eq!(reduce_outputs(outputs, |a, b| a + b), Ok(Some(30)));
    // Outputs are folded in input order.
    let words: Vec<Result<String, String>> = vec![Ok("a".to_string()), Ok("b".to_string())];
    assert_eq!(
        reduce_outputs(words, |a, b| a + &b),
        Ok(Some("ab".to_string()))
    );
}

#[test]
fn net_reduce_is_none_for_empty_input() {
    let none: Vec<Result<u32, String>> = Vec::new();
    assert_eq!(reduce_outputs(none, |a, b| a + b), Ok(None));
}

#[test]
fn net_reduce_short_circuits_on_the_first_task_failure() {
    let outputs: Vec<Result<u32, String>> = vec![
        Ok(1),
        Err("first".to_string()),
        Err("second".to_string()),
    ];
    assert_eq!(
        reduce_outputs(outputs, |a, b| a + b),
        Err("first".to_string())
    );
}

#[test]
fn net_fold_accumulates_into_a_seed() {
    let outputs: Vec<Result<u32, String>> = vec![Ok(1), Ok(2), Ok(3)];
    let folded = fold_outputs(outputs, String::new(), |acc: String, x: u32| {
        format!("{acc}{x}")
    });
    assert_eq!(folded, Ok("123".to_string()));
}

#[test]
fn net_fold_returns_the_seed_for_empty_input() {
    let none: Vec<Result<u32, String>> = Vec::new();
    assert_eq!(fold_outputs(none, 41u64, |acc, x| acc + u64::from(x)), Ok(41));
}

#[test]
fn net_fold_short_circuits_on_the_first_task_failure() {
    let outputs: Vec<Result<u32, String>> = vec![Ok(1), Err("boom".to_string()), Ok(3)];
    assert_eq!(
        fold_outputs(outputs, 0u32, |acc, x| acc + x),
        Err("boom".to_string())
    );
}

#[test]
fn with_filter_keeps_only_compute_hosts() {
    let filter = Filter::new().compute(Predicate::OsIs(Os::Linux));
    let fleet = Fleet::new(vec!["linux", "mac"]).with_filter(filter);
    let mut found = Discovery::new(fleet.filter(), None);
    let events: Vec<Event> = [Os::Linux, Os::MacOs]
        .into_iter()
        .zip(fleet.launchers())
        .filter_map(|(os, label)| {
            found.on_host((*label).to_string(), probed(profile(os, Vec::new())))
        })
        .collect();
    let roles: Vec<Role> = events
        .iter()
        .filter_map(|e| match e {
            Event::Profiled { role, .. } => Some(*role),
            _ => None,
        })
        .collect();
    assert_eq!(roles, vec![Role::Compute, Role::Excluded]);
    assert_eq!(found.eligible.len(), 1);
    assert_eq!(found.eligible[0].label, "linux");
    assert!(found.retry.is_empty());
}

#[test]
fn requires_narrows_a_run_to_matching_hosts() {
    let rocm = Predicate::HasRuntime(GpuRuntime::Rocm);
    let mut found = Discovery::new(None, Some(rocm));
    found.on_host(
        "rocm".to_string(),
        probed(profile(Os::Linux, vec![rocm_gpu()])),
    );
    found.on_host("cpu".to_string(), probed(profile(Os::Linux, Vec::new())));
    assert_eq!(found.eligible.len(), 1);
    assert_eq!(found.eligible[0].launcher, 0);
    let (event, joins) = assess(
        "cpu",
        "id",
        profile(Os::Linux, Vec::new()),
        7,
        None,
        Some(rocm),
    );
    // It computes for the fleet, but not for this job.
    assert!(matches!(
        event,
        Event::Profiled {
            role: Role::Compute,
            ..
        }
    ));
    assert!(!joins);
}

#[test]
fn requires_errors_when_no_host_satisfies_it() {
    let mut found = Discovery::new(None, Some(Predicate::HasRuntime(GpuRuntime::Rocm)));
    found.on_host("cpu".to_string(), probed(profile(Os::Linux, Vec::new())));
    let launched = Launched::new(found.failures);
    assert_eq!(
        launched.ready(),
        Err(
            "rayonet: no eligible host (every host failed to launch or was filtered out): "
                .to_string()
        )
    );
}

#[test]
fn netmap_proceeds_when_some_hosts_fail_to_launch() {
    let mut found = Discovery::new(None, None);
    assert!(found
        .on_host(
            "down".to_string(),
            HostReport::Unreachable("down: refused".to_string())
        )
        .is_none());
    found.on_host("up".to_string(), probed(profile(Os::Linux, Vec::new())));
    assert_eq!(found.retry, vec![0]);
    let mut launched = Launched::new(found.failures);
    for host in found.eligible {
        launched.on_activation(host, Ok(()));
    }
    assert_eq!(launched.ready(), Ok(()));
    assert_eq!(launched.labels, vec!["up".to_string()]);
    assert_eq!(launched.ids, vec!["id".to_string()]);
    assert_eq!(launched.latencies, vec![7]);
    assert_eq!(launched.failures, vec!["down: refused".to_string()]);
}

#[test]
fn netmap_errors_when_every_host_fails_to_launch() {
    assert_eq!(
        no_eligible_host(&vec!["a: down".to_string(), "b: down".to_string()]),
        "rayonet: no eligible host (every host failed to launch or was filtered out): a: down; b: down"
    );
}

#[test]
fn a_host_that_cannot_be_provisioned_is_dropped_at_launch() {
    let mut found = Discovery::new(None, None);
    found.on_host("bad".to_string(), probed(profile(Os::Linux, Vec::new())));
    let mut launched = Launched::new(found.failures);
    let host = found.eligible.pop().unwrap();
    launched.on_activation(host, Err("no space".to_string()));
    assert!(launched.ready().unwrap_err().ends_with(": no space"));
}

#[test]
fn a_host_unreachable_at_start_joins_on_a_later_attempt() {
    let mut rejoin = Rejoin::new(&vec![4], rejoin_policy());
    assert_eq!(rejoin.next(false), RejoinStep::Try(4));
    rejoin.on_attempt(JoinAttempt::Retry);
    assert_eq!(rejoin.next(false), RejoinStep::Sleep);
    rejoin.next_round();
    assert_eq!(rejoin.next(false), RejoinStep::Try(4));
    rejoin.on_attempt(JoinAttempt::Joined);
    assert_eq!(rejoin.next(false), RejoinStep::Done);
}

#[test]
fn the_rejoin_driver_gives_up_on_a_permanently_unreachable_candidate() {
    let policy = RejoinPolicy {
        backoff_ms: 1,
        max_attempts: 3,
    };
    let mut rejoin = Rejoin::new(&vec![0], policy);
    let mut tries = 0;
    loop {
        match rejoin.next(false) {
            RejoinStep::Try(_) => {
                tries += 1;
                rejoin.on_attempt(JoinAttempt::Retry);
            }
            RejoinStep::Sleep => rejoin.next_round(),
            RejoinStep::Done => break,
        }
    }
    assert_eq!(tries, 3);
}

#[test]
fn the_rejoin_driver_drops_unprobeable_excluded_and_unprovisionable_candidates() {
    let policy = RejoinPolicy {
        backoff_ms: 1,
        max_attempts: 2,
    };
    let mut rejoin = Rejoin::new(&vec![0, 1, 2], policy);
    let mut seen = Vec::new();
    loop {
        match rejoin.next(false) {
            RejoinStep::Try(host) => {
                seen.push(host);
                rejoin.on_attempt(if host == 1 {
                    JoinAttempt::GiveUp
                } else {
                    JoinAttempt::Retry
                });
            }
            RejoinStep::Sleep => rejoin.next_round(),
            RejoinStep::Done => break,
        }
    }
    assert_eq!(seen, vec![0, 1, 2, 0, 2]);
    // A run that takes no more nodes ends the rounds.
    let stopped = Rejoin::new(&vec![0], policy);
    assert_eq!(stopped.next(true), RejoinStep::Done);
}

#[test]
fn a_map_carries_its_settings() {
    let plain = NetMap::over((), vec![1, 2]);
    assert!(!plain.options().require_redundancy);
    assert!(!plain.options().speculative);
    let map = plain
        .needing(Predicate::OsIs(Os::Linux))
        .require_redundancy()
        .speculative();
    assert!(map.options().require_redundancy);
    assert!(map.options().speculative);
    let map = map.speculative().require_redundancy();
    assert!(map.redundancy && map.racing);
    assert_eq!(map.requirement, Some(Predicate::OsIs(Os::Linux)));
    assert_eq!(map.inputs, vec![1, 2]);
    let fleet = Fleet::observed(vec![1], NoopSink);
    assert_eq!(fleet.launchers().len(), 1);
    assert!(fleet.filter().is_none());
    assert!(format!("{:?}", fleet.events()).contains("NoopSink"));
}

#[test]
fn reducing_is_folding_the_rest_into_the_first() {
    let outputs: Vec<Result<i64, String>> = vec![Ok(10), Ok(3), Ok(4)];
    let rest: Vec<Result<i64, String>> = outputs[1..].to_vec();
    // Subtraction is not associative, so the order shows.
    assert_eq!(reduce_outputs(outputs, |a, b| a - b), Ok(Some(3)));
    assert_eq!(fold_outputs(rest, 10i64, |a, b| a - b), Ok(3));
}

#[test]
fn every_try_is_counted_against_the_budget() {
    let policy = RejoinPolicy {
        backoff_ms: 1,
        max_attempts: 0,
    };
    // Even with no attempts granted each host is tried once.
    let mut rejoin = Rejoin::new(&vec![7, 8], policy);
    let mut tries = 0;
    while let RejoinStep::Try(_) = rejoin.next(false) {
        tries += 1;
        rejoin.on_attempt(JoinAttempt::Retry);
    }
    assert_eq!(tries, 2);
    assert_eq!(rejoin.next(false), RejoinStep::Done);
}
