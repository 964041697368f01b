use rayonet::capability::{GpuRuntime, NodeProfile, Os};
use rayonet::observability::{Event, NodeState};
use rayonet::probe::{
    parse_cores, parse_linux_ram_mb, parse_os, parse_rocminfo, probe_commands, profile_of,
    run_or_empty, run_stdout, OS_COMMAND,
};
use rayonet::provisioning::{
    content_hash, failure_text, remote_binary_path, require_success, CommandOutput, Ladder,
    Provisioned, Rung,
};
use rayonet::testing::EventRecorder;

fn out(status: i32, stdout: &str, stderr: &str) -> CommandOutput {
    CommandOutput {
        status,
        stdout: stdout.as_bytes().to_vec(),
        stderr: stderr.as_bytes().to_vec(),
    }
}

struct Climb {
    states: Vec<NodeState>,
    calls: Vec<String>,
    uploads: Vec<String>,
    result: Result<Provisioned, String>,
}

/// Provision a scripted host.
fn climb(cargo_present: bool, cached: bool, build_ok: bool) -> Climb {
    let mut recorder = EventRecorder::new();
    let mut calls = Vec::new();
    let mut uploads = Vec::new();
    let (mut ladder, first) = Ladder::begin(b"tarbytes", "stable", "agent", "h1");
    recorder.record(first);
    let result = loop {
        if let Some(done) = ladder.provisioned() {
            break Ok(done);
        }
        if ladder.rung == Rung::Upload {
            uploads.push(ladder.upload_path());
            ladder.on_uploaded();
            continue;
        }
        let command = ladder.command();
        let ok = if command.contains("command -v cargo") {
            cargo_present
        } else if command.contains("target/release") && command.contains("test -x") {
            cached
        } else if command.contains("cargo build") {
            build_ok
        } else {
            true
        };
        calls.push(command);
        let output = if ok {
            out(0, "", "")
        } else {
            out(1, "", "boom\n")
        };
        match ladder.on_output(&output) {
            Ok(Some(event)) => recorder.record(event),
            Ok(None) => {}
            Err(message) => break Err(message),
        }
    };
    assert!(recorder
        .events()
        .iter()
        .all(|e| matches!(e, Event::Node { host, .. } if host == "h1")));
    Climb {
        states: recorder.states(),
        calls,
        uploads,
        result,
    }
}

#[test]
fn cold_host_runs_the_full_ladder() {
    let c = climb(false, false, true);
    assert_eq!(
        c.states,
        vec![
            NodeState::Probing,
            NodeState::Installing,
            NodeState::Syncing,
            NodeState::Building,
            NodeState::Ready,
        ]
    );
    assert_eq!(c.uploads.len(), 1);
    assert!(c.uploads[0].ends_with("/source.tar"));
    assert!(c.calls.iter().any(|c| c.contains("rustup")));
    assert!(c.calls.iter().any(|c| c.contains("cargo build")));
    assert_eq!(c.calls[0], "uname -sm");
    assert_eq!(
        c.calls[3],
        "curl --proto '=https' --tlsv1.2 --connect-timeout 20 -sSf -o /tmp/rustup-init.sh \
         https://sh.rustup.rs && sh /tmp/rustup-init.sh -y --default-toolchain stable"
    );
    let dir = c.uploads[0].trim_end_matches("/source.tar");
    assert_eq!(
        c.calls.last().unwrap(),
        &format!("cd {dir} && PATH=\"$HOME/.cargo/bin:$PATH\" cargo build --release -p agent")
    );
    assert!(c
        .calls
        .contains(&format!("tar -xf {dir}/source.tar -C {dir}")));
    assert!(c.calls.contains(&format!("mkdir -p {dir}")));
    assert!(c
        .result
        .unwrap()
        .binary_path
        .ends_with("/target/release/agent"));
}

#[test]
fn existing_rust_skips_install() {
    let c = climb(true, false, true);
    assert_eq!(
        c.states,
        vec![
            NodeState::Probing,
            NodeState::Syncing,
            NodeState::Building,
            NodeState::Ready,
        ]
    );
    assert!(!c.calls.iter().any(|c| c.contains("rustup")));
}

#[test]
fn cache_hit_skips_build() {
    let c = climb(true, true, true);
    assert_eq!(c.states, vec![NodeState::Probing, NodeState::Ready]);
    assert!(c.uploads.is_empty());
    assert!(!c.calls.iter().any(|c| c.contains("cargo build")));
    assert!(c
        .result
        .unwrap()
        .binary_path
        .ends_with("/target/release/agent"));
}

#[test]
fn build_failure_errors_naming_the_host() {
    let message = climb(true, false, false).result.unwrap_err();
    assert!(message.contains("h1"), "{message}");
    assert!(message.contains("build"), "{message}");
    assert_eq!(message, "rayonet: h1: build failed (exit 1): boom");
}

#[test]
fn content_hash_is_deterministic_and_input_sensitive() {
    assert_eq!(content_hash(b"abc"), content_hash(b"abc"));
    assert_ne!(content_hash(b"abc"), content_hash(b"abd"));
    assert_eq!(
        content_hash(b"abc"),
        "6437b3ac38465133ffb63b75273a8db548c558465d79db03fd359c6cd5bd9d85"
    );
    assert_eq!(
        remote_binary_path(b"", "x"),
        "$HOME/.cache/rayonet/af1349b9f5f9a1a6a0404dea36dcc9499bcb25c9adc112b7cc9a93cae41f3262\
         /target/release/x"
    );
}

#[test]
fn provisioning_types_expose_debug_clone_and_eq() {
    let provisioned = Provisioned {
        binary_path: "/x".to_string(),
    };
    let provisioned_copy = provisioned.clone();
    assert_eq!(provisioned.binary_path, provisioned_copy.binary_path);
    assert!(format!("{provisioned:?}").contains("/x"));

    let output = CommandOutput {
        status: 0,
        stdout: Vec::new(),
        stderr: Vec::new(),
    };
    let output_copy = output.clone();
    assert_eq!(output.status, output_copy.status);
    assert!(format!("{output:?}").contains("status"));
}

#[test]
fn a_failed_step_is_named_with_its_exit_code() {
    assert!(require_success("h", "s", &out(0, "", "noise")).is_ok());
    assert_eq!(
        require_success("h", "probe", &out(-9, "", "  killed \n")),
        Err("rayonet: h: probe failed (exit -9): killed".to_string())
    );
    assert_eq!(
        failure_text("h", "s", i32::MIN, "x"),
        "rayonet: h: s failed (exit -2147483648): x"
    );
    // Bytes that are no text are shown with replacement characters.
    let garbled = CommandOutput {
        status: 1,
        stdout: Vec::new(),
        stderr: vec![0xff],
    };
    assert_eq!(
        require_success("h", "s", &garbled),
        Err("rayonet: h: s failed (exit 1): \u{fffd}".to_string())
    );
}

/// Probe a scripted host: `uname -s` prints `os`, other commands match by
/// substring, and a miss is a non-zero exit (like a missing tool).
fn probe(os: &str, replies: &[(&str, &str)]) -> NodeProfile {
    assert_eq!(OS_COMMAND, "uname -s");
    let os = parse_os(&run_stdout(&out(0, os, "")));
    let texts = probe_commands(os)
        .iter()
        .map(|command| {
            let reply = replies
                .iter()
                .find(|(part, _)| command.contains(part))
                .map_or_else(|| out(1, "ignored", ""), |(_, text)| out(0, text, ""));
            run_or_empty(Some(&reply))
        })
        .collect();
    profile_of(os, &texts)
}

#[test]
fn probe_linux_with_nvidia() {
    let p = probe(
        "Linux",
        &[
            ("nproc", "64\n"),
            ("/proc/meminfo", "MemTotal:      131923148 kB\n"),
            ("nvidia-smi", "NVIDIA GeForce RTX 4090, 24564\n"),
        ],
    );
    assert_eq!(p.os, Os::Linux);
    assert_eq!(p.cores, 64);
    assert_eq!(p.ram_mb, 131_923_148 / 1024);
    assert_eq!(p.gpus.len(), 1);
    assert_eq!(p.gpus[0].runtime, Some(GpuRuntime::Cuda));
    assert_eq!(p.gpus[0].model, "NVIDIA GeForce RTX 4090");
    assert_eq!(p.gpus[0].vram_mb, Some(24564));
}

#[test]
fn probe_macos_with_metal() {
    let p = probe(
        "Darwin",
        &[
            ("hw.ncpu", "12\n"),
            ("hw.memsize", "137438953472\n"),
            ("system_profiler", "      Chipset Model: Apple M2 Pro\n"),
        ],
    );
    assert_eq!(p.os, Os::MacOs);
    assert_eq!(p.cores, 12);
    assert_eq!(p.ram_mb, 131_072);
    assert_eq!(p.gpus.len(), 1);
    assert_eq!(p.gpus[0].runtime, Some(GpuRuntime::Metal));
    assert_eq!(p.gpus[0].model, "Apple M2 Pro");
}

#[test]
fn probe_treats_missing_gpu_tools_as_no_gpu() {
    let p = probe(
        "Linux",
        &[
            ("nproc", "8\n"),
            ("/proc/meminfo", "MemTotal: 8000000 kB\n"),
        ],
    );
    assert_eq!(p.os, Os::Linux);
    assert!(p.gpus.is_empty());
}

#[test]
fn capability_texts_are_read() {
    assert_eq!(parse_os("SunOS\n"), Os::Other);
    assert_eq!(parse_cores(""), 0);
    assert_eq!(parse_cores("99999999999"), 0);
    assert_eq!(parse_linux_ram_mb("MemFree: 12 kB"), 0);
    assert_eq!(run_or_empty(None), "");
    let gpus = parse_rocminfo(
        "  Marketing Name:  AMD Ryzen\n  Device Type:  CPU\n  Marketing Name:  Instinct MI210\n  Device Type:  GPU\n",
    );
    assert_eq!(gpus.len(), 1);
    assert_eq!(gpus[0].model, "Instinct MI210");
    assert_eq!(gpus[0].runtime, Some(GpuRuntime::Rocm));
}
