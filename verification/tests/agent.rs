use std::any::Any;

use rayonet::agent::{
    agent_failure_message, due_sample, outcome_of, panic_message, recv_hello, sample_message,
    AgentError, Leaf, LeafAction, Registry, TaskEnd, TELEMETRY_INTERVAL,
};
use rayonet::heartbeat::{timed_out, HeartbeatConfig};
use rayonet::node::{child_launchers, children_path, load_children, role_with, NodeConfig, NodeRole};
use rayonet::observability::{Event, NodeTelemetry};
use rayonet::protocol::{FromAgent, ToAgent, PROTOCOL_VERSION};
use rayonet::provisioning::CommandOutput;
use rayonet::ssh::{
    agent_command, expand_tilde, node_id, parse_host, parse_host_list, parse_hosts,
    upload_command, upload_failure, AgentSource, Ssh, SshConfig, MACHINE_ID_COMMAND,
};

fn message_of(payload: &(dyn Any + Send)) -> String {
    panic_message(
        payload.downcast_ref::<&str>().copied(),
        payload.downcast_ref::<String>(),
    )
}

fn hello(key: &str, version: u32) -> Option<ToAgent> {
    Some(ToAgent::Hello {
        protocol_version: version,
        fn_key: key.to_string(),
        heartbeat: HeartbeatConfig::new(0, 0),
    })
}

fn open(key: &str) -> Leaf {
    let registry = Registry::new().with(key, 1u8);
    let (leaf, found, ready) =
        Leaf::open(hello(key, PROTOCOL_VERSION), &registry, 0).expect("the key is registered");
    assert_eq!(found, key);
    assert_eq!(ready, FromAgent::Ready { slots: 1 });
    leaf
}

fn sent(actions: &[LeafAction]) -> Vec<FromAgent> {
    actions
        .iter()
        .filter_map(|a| match a {
            LeafAction::Send(m) => Some(m.clone()),
            _ => None,
        })
        .collect()
}

fn assign(task: u64) -> Option<ToAgent> {
    Some(ToAgent::Assign {
        task_id: task,
        payload: vec![21],
    })
}

#[test]
fn telemetry_sampling_is_throttled() {
    let base: u64 = 1_000;
    let mut last = base;
    // Just sampled: another sample at the same instant is throttled away.
    assert!(!due_sample(&mut last, base));
    // Once the interval has elapsed a sample is due, and the clock advances.
    let later = base + TELEMETRY_INTERVAL;
    assert!(!due_sample(&mut last, later - 1));
    assert!(due_sample(&mut last, later));
    assert_eq!(last, later);
    // A clock that reads earlier gives none.
    assert!(!due_sample(&mut last, 0));
}

#[test]
fn serve_reports_throttled_telemetry_around_a_long_task() {
    let mut leaf = open("slow");
    let before = leaf.on_message(assign(0), 1).unwrap();
    assert!(!before
        .iter()
        .any(|a| matches!(a, LeafAction::Sample { .. })));
    let after = leaf.on_outcome(Ok(vec![5]), 300_000_000);
    assert!(matches!(
        after.last(),
        Some(LeafAction::Sample { in_flight: 0 })
    ));
    let telemetry = NodeTelemetry {
        cpu_pct: 1,
        mem_pct: 2,
        gpu_pct: None,
        gpu_mem_pct: None,
        in_flight: 0,
    };
    assert_eq!(
        sample_message(telemetry),
        FromAgent::Observe(Event::Telemetry {
            host: String::new(),
            telemetry
        })
    );
}

#[test]
fn runs_a_task_and_reports_completion() {
    let mut leaf = open("doubler");
    let actions = leaf.on_message(assign(0), 1).unwrap();
    assert_eq!(sent(&actions), vec![FromAgent::Started { task_id: 0 }]);
    match actions.last() {
        Some(LeafAction::Run { task_id: 0, payload }) => assert_eq!(*payload, vec![21]),
        other => panic!("unexpected {other:?}"),
    }
    let done = leaf.on_outcome(Ok(vec![42]), 2);
    assert_eq!(
        sent(&done),
        vec![FromAgent::Completed {
            task_id: 0,
            output: vec![42],
            via: String::new(),
        }]
    );
    let end = leaf.on_message(Some(ToAgent::Shutdown), 3).unwrap();
    assert!(matches!(end.as_slice(), [LeafAction::Stop]));
}

#[test]
fn a_panicking_task_becomes_failed_not_a_crash() {
    let mut leaf = open("boom");
    leaf.on_message(assign(0), 1).unwrap();
    let outcome = outcome_of(TaskEnd::Panicked("zero is not allowed".to_string()));
    assert_eq!(
        sent(&leaf.on_outcome(outcome, 2)),
        vec![FromAgent::Failed {
            task_id: 0,
            error: "zero is not allowed".to_string(),
            via: String::new(),
        }]
    );
    // The leaf goes on with the next task.
    leaf.on_message(assign(1), 3).unwrap();
    let outcome = outcome_of(TaskEnd::Returned(vec![7]));
    assert_eq!(
        sent(&leaf.on_outcome(outcome, 4)),
        vec![FromAgent::Completed {
            task_id: 1,
            output: vec![7],
            via: String::new(),
        }]
    );
}

#[test]
fn rejects_protocol_mismatch() {
    let e = recv_hello(hello("k", PROTOCOL_VERSION + 1)).unwrap_err();
    assert_eq!(
        agent_failure_message(&e, ""),
        "protocol mismatch: local 11, peer 12"
    );
    let registry = Registry::new().with("k", 1u8);
    assert!(Leaf::open(hello("k", PROTOCOL_VERSION + 1), &registry, 0).is_err());
}

#[test]
fn rejects_non_hello_handshake() {
    let e = recv_hello(Some(ToAgent::Shutdown)).unwrap_err();
    assert!(matches!(e, AgentError::ExpectedHello(Some(ToAgent::Shutdown))));
    assert_eq!(
        agent_failure_message(&e, "Shutdown"),
        "expected Hello, got Shutdown"
    );
    assert!(matches!(
        recv_hello(None),
        Err(AgentError::ExpectedHello(None))
    ));
    let (key, heartbeat) = recv_hello(hello("k", PROTOCOL_VERSION)).unwrap();
    assert_eq!(key, "k");
    assert!(!heartbeat.is_enabled());
}

#[test]
fn rejects_unknown_fn_key() {
    let registry = Registry::new().with("known", 1u8);
    let e = Leaf::open(hello("unknown", PROTOCOL_VERSION), &registry, 0).unwrap_err();
    assert_eq!(agent_failure_message(&e, ""), "unknown fn_key: unknown");
}

#[test]
fn rejects_unexpected_message_after_handshake() {
    let mut leaf = open("k");
    let e = leaf.on_message(hello("k", PROTOCOL_VERSION), 1).unwrap_err();
    assert_eq!(
        agent_failure_message(&e, "Hello"),
        "unexpected message: Hello"
    );
    let promote = ToAgent::Promote {
        child: "x".to_string(),
    };
    assert!(leaf.on_message(Some(promote), 1).is_err());
    let ping = leaf.on_message(Some(ToAgent::Ping), 1).unwrap();
    assert_eq!(sent(&ping), vec![FromAgent::Pong]);
    let gone = leaf.on_message(None, 1).unwrap();
    assert!(matches!(gone.as_slice(), [LeafAction::Stop]));
}

#[test]
fn panic_message_handles_str_string_and_other() {
    let s: Box<dyn Any + Send> = Box::new("boom");
    assert_eq!(message_of(&*s), "boom");
    let s: Box<dyn Any + Send> = Box::new(String::from("kaboom"));
    assert_eq!(message_of(&*s), "kaboom");
    let s: Box<dyn Any + Send> = Box::new(42i32);
    assert_eq!(message_of(&*s), "task panicked");
}

#[test]
fn registry_debug_lists_keys() {
    let r = Registry::new().with("alpha", 1u8);
    assert!(format!("{r:?}").contains("alpha"));
}

#[test]
fn the_last_registration_of_a_key_wins() {
    let r = Registry::new().with("a", 1u8).with("b", 2).with("a", 3);
    assert_eq!(r.get("a"), Some(&3));
    assert_eq!(r.get("b"), Some(&2));
    assert_eq!(r.get("c"), None);
}

#[test]
fn handler_reports_decode_and_encode_errors() {
    let decode = outcome_of(TaskEnd::Undecodable("eof".to_string()));
    assert_eq!(decode, Err("decode input: eof".to_string()));
    let encode = outcome_of(TaskEnd::Unencodable("always".to_string()));
    assert_eq!(encode, Err("encode output: always".to_string()));
}

#[test]
fn silence_is_measured_against_the_timeout() {
    assert!(!timed_out(100, 300, 200));
    assert!(timed_out(100, 301, 200));
    assert!(!timed_out(300, 100, 0));
}

#[test]
fn child_launchers_build_one_per_child() {
    let children = parse_host_list("a b c", None);
    let cfg = NodeConfig {
        registry: Registry::<u8>::new(),
        source: b"source-bundle".to_vec(),
        binary_name: "consumer".to_string(),
        toolchain: "stable".to_string(),
    };
    assert!(format!("{cfg:?}").contains("NodeConfig"));
    assert_eq!(role_with(&children), NodeRole::Relay);
    let launchers = child_launchers(children, &cfg);
    assert_eq!(launchers.len(), 3);
    assert_eq!(launchers[1].label(), "b");
    match &launchers[2].source {
        AgentSource::Build {
            source_tar,
            toolchain,
            binary_name,
        } => {
            assert_eq!(source_tar, b"source-bundle");
            assert_eq!(toolchain, "stable");
            assert_eq!(binary_name, "consumer");
        }
        other => panic!("unexpected {other:?}"),
    }
}

#[test]
fn children_path_and_loading_follow_the_env_override() {
    assert_eq!(
        children_path(Some("/x".to_string()), Some("/home/test".to_string())),
        Some("/x".to_string())
    );
    assert_eq!(load_children(Some("mac\n# comment\nbox=~/.ssh/k\n"), None).len(), 2);
    let fallback = children_path(None, Some("/home/test".to_string())).unwrap();
    assert!(fallback.ends_with(".config/rayonet/children"), "{fallback:?}");
    assert_eq!(children_path(None, None), None);
    // Joined as paths are: no slash is made up or doubled.
    assert_eq!(
        children_path(None, Some(String::new())),
        Some(".config/rayonet/children".to_string())
    );
    assert_eq!(
        children_path(None, Some("/".to_string())),
        Some("/.config/rayonet/children".to_string())
    );
    assert_eq!(
        children_path(None, Some("/home/me".to_string())),
        Some("/home/me/.config/rayonet/children".to_string())
    );
}

#[test]
fn a_missing_children_file_means_no_children() {
    let children = load_children(None, Some("/home/me"));
    assert!(children.is_empty());
    assert_eq!(role_with(&children), NodeRole::Leaf);
}

#[test]
fn a_machine_is_known_by_its_id_or_its_label() {
    let out = |status: i32| CommandOutput {
        status,
        stdout: b" 4f2a\xff\n".to_vec(),
        stderr: Vec::new(),
    };
    assert_eq!(node_id(Some(&out(0)), "h"), "4f2a\u{fffd}");
    assert_eq!(node_id(Some(&out(1)), "h"), "h");
    assert_eq!(node_id(None, "h"), "h");
    assert_eq!(MACHINE_ID_COMMAND, "cat /etc/machine-id");
}

#[test]
fn a_setting_names_hosts_and_their_keys() {
    let hosts = parse_hosts("mac  localhost=~/k,,h=/abs, #x", Some("/home/me"));
    let labels: Vec<String> = hosts.iter().map(SshConfig::label).collect();
    assert_eq!(labels, vec!["mac", "localhost", "h", "#x"]);
    assert_eq!(hosts[1].key_path(), Some("/home/me/k"));
    assert_eq!(hosts[2].key_path(), Some("/abs"));
    assert!(parse_hosts(" , ", None).is_empty());
    assert_eq!(parse_host("h=~/k", None).key_path(), Some("~/k"));
}

#[test]
fn host_lists_hold_entries_keys_and_comments() {
    let hosts = parse_host_list(
        "mac, box=~/.ssh/k  # the rest\n#x\nuser@h#1\n",
        Some("/home/me"),
    );
    let labels: Vec<String> = hosts.iter().map(SshConfig::label).collect();
    assert_eq!(labels, vec!["mac", "box", "user@h#1"]);
    assert_eq!(hosts[1].key_path(), Some("/home/me/.ssh/k"));
    assert_eq!(hosts[0].key_path(), None);
    assert_eq!(parse_host("a=b=c", Some("/home/me")).key_path(), Some("b=c"));
    assert_eq!(
        expand_tilde("~/.ssh/k", Some("/home/me")),
        "/home/me/.ssh/k"
    );
    assert_eq!(expand_tilde("/abs", Some("/home/me")), "/abs");
    assert_eq!(expand_tilde("~/.ssh/k", None), "~/.ssh/k");
}

#[test]
fn an_ssh_host_is_described_and_labelled() {
    let config = SshConfig::new("user@host")
        .keyfile("/k")
        .port(2222)
        .config_file("/c");
    assert_eq!(config.destination(), "user@host");
    assert_eq!(config.key_path(), Some("/k"));
    assert_eq!(config.config_path(), Some("/c"));
    assert_eq!(config.port_number(), Some(2222));
    assert_eq!(config.label(), "user@host:2222");
    let ssh = Ssh::prebuilt(config, "/bin/agent");
    assert!(matches!(&ssh.source, AgentSource::Prebuilt(p) if p == "/bin/agent"));
    assert_eq!(agent_command("/bin/agent"), "RAYONET_AGENT=1 /bin/agent");
    assert_eq!(upload_command("/x"), "cat > /x");
    assert_eq!(
        upload_failure("/x", b" no space \n"),
        "rayonet: upload to /x failed: no space"
    );
}
