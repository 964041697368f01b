//! Getting a cold host to a built agent, and learning what the host can do.
//!
//! Each ladder says which command to run next and is handed its output. A
//! content-addressed build directory lets a second run skip the rebuild.
use vstd::prelude::*;
use vstd::string::*;
use vstd::utf8::{decode_utf8, valid_utf8};

use crate::observability::{Event, EventModel, NodeState};
use crate::text::{push_signed, signed_decimal, trim, trimmed};

verus! {

/// The captured result of running a command to completion.
#[derive(Debug, Clone)]
pub struct CommandOutput {
    /// Process exit code (or a negative value if it was killed by a signal).
    pub status: i32,
    /// Captured standard output.
    pub stdout: Vec<u8>,
    /// Captured standard error.
    pub stderr: Vec<u8>,
}

/// Where the built agent binary lives on the host.
#[derive(Debug, Clone)]
pub struct Provisioned {
    /// Shell-expandable path to the built agent binary.
    pub binary_path: String,
}

/// The 32-byte BLAKE3 digest of `input`, as `blake3::hash` computes it.
pub uninterp spec fn blake3_digest(input: Seq<u8>) -> Seq<u8>;

/// `blake3::hash` gives the 32-byte BLAKE3 digest of its input: the same bytes
/// always give the same digest.
#[verifier::external_body]
fn digest(input: &[u8]) -> (r: Vec<u8>)
    ensures
        r@ == blake3_digest(input@),
        r@.len() == 32,
{
    blake3::hash(input).as_bytes().to_vec()
}

/// The text that `String::from_utf8_lossy` makes of `bytes`.
pub uninterp spec fn lossy_text(bytes: Seq<u8>) -> Seq<char>;

/// `String::from_utf8_lossy` gives the text the bytes encode; where they are not
/// valid UTF-8 it puts replacement characters.
#[verifier::external_body]
pub(crate) fn text_of(bytes: &[u8]) -> (r: String)
    ensures
        r@ == lossy_text(bytes@),
        valid_utf8(bytes@) ==> r@ == decode_utf8(bytes@),
{
    String::from_utf8_lossy(bytes).into_owned()
}

/// The lower-case hexadecimal digit for `n`.
pub open spec fn hex_digit(n: int) -> char {
    if n < 10 {
        ((48 + n) as u8) as char
    } else {
        ((87 + n) as u8) as char
    }
}

/// Two hexadecimal digits per byte, the high one first.
pub open spec fn hex(bytes: Seq<u8>) -> Seq<char>
    decreases bytes.len(),
{
    if bytes.len() == 0 {
        Seq::empty()
    } else {
        hex(bytes.drop_last()).push(hex_digit(bytes.last() as int / 16)).push(
            hex_digit(bytes.last() as int % 16),
        )
    }
}

/// The lower-case hexadecimal digit for `n`.
fn to_hex_digit(n: u8) -> (r: char)
    requires
        n < 16,
    ensures
        r == hex_digit(n as int),
{
    if n < 10 {
        (48u8 + n) as char
    } else {
        (87u8 + n) as char
    }
}

/// Two hexadecimal digits per byte, the high one first.
pub fn to_hex(bytes: &[u8]) -> (r: String)
    ensures
        r@ == hex(bytes@),
{
    let mut r = String::new();
    let mut i: usize = 0;
    proof {
        assert(bytes@.take(0) =~= Seq::empty());
    }
    while i < bytes.len()
        invariant
            i <= bytes@.len(),
            r@ == hex(bytes@.take(i as int)),
        decreases bytes@.len() - i,
    {
        let b: u8 = bytes[i];
        r.push(to_hex_digit(b / 16));
        r.push(to_hex_digit(b % 16));
        proof {
            assert(bytes@.take(i as int + 1).drop_last() =~= bytes@.take(i as int));
        }
        i += 1;
    }
    proof {
        assert(bytes@.take(i as int) =~= bytes@);
    }
    r
}

/// The key a source bundle is cached under: its digest in hexadecimal.
pub fn content_hash(bytes: &[u8]) -> (r: String)
    ensures
        r@ == hex(blake3_digest(bytes@)),
{
    let d = digest(bytes);
    to_hex(d.as_slice())
}

/// The content-addressed build directory for a source bundle. The home directory
/// is left to the remote shell.
pub open spec fn cache_dir(source_tar: Seq<u8>) -> Seq<char> {
    "$HOME/.cache/rayonet/"@ + hex(blake3_digest(source_tar))
}

/// Where the built agent binary is placed, and where a repeat run finds it.
pub open spec fn binary_at(source_tar: Seq<u8>, binary_name: Seq<char>) -> Seq<char> {
    cache_dir(source_tar) + "/target/release/"@ + binary_name
}

/// The content-addressed build directory for a source bundle.
fn remote_cache_dir(source_tar: &[u8]) -> (r: String)
    ensures
        r@ == cache_dir(source_tar@),
{
    let mut r = "$HOME/.cache/rayonet/".to_owned();
    let key = content_hash(source_tar);
    r.append(key.as_str());
    r
}

/// Where the built agent binary is placed, and where a repeat run finds it: the
/// same source maps to the same location on every host.
pub fn remote_binary_path(source_tar: &[u8], binary_name: &str) -> (r: String)
    ensures
        r@ == binary_at(source_tar@, binary_name@),
{
    let mut r = remote_cache_dir(source_tar);
    r.append("/target/release/");
    r.append(binary_name);
    r
}

/// The message of a failed step, given what the command printed as its error.
pub open spec fn failure_of(
    host: Seq<char>,
    step: Seq<char>,
    status: i32,
    stderr: Seq<char>,
) -> Seq<char> {
    "rayonet: "@ + host + ": "@ + step + " failed (exit "@ + signed_decimal(status as int) + "): "@
        + trimmed(stderr)
}

/// The message of a failed step, given what the command printed as its error.
pub fn failure_text(host: &str, step: &str, status: i32, stderr: &str) -> (r: String)
    ensures
        r@ == failure_of(host@, step@, status, stderr@),
{
    let mut r = "rayonet: ".to_owned();
    r.append(host);
    r.append(": ");
    r.append(step);
    r.append(" failed (exit ");
    push_signed(&mut r, status);
    r.append("): ");
    let shown = trim(stderr);
    r.append(shown.as_str());
    r
}

/// Turn a non-zero exit into a message naming the host and the step.
pub fn require_success(host: &str, step: &str, out: &CommandOutput) -> (r: Result<(), String>)
    ensures
        out.status == 0 ==> r is Ok,
        out.status != 0 ==> (r matches Err(text) && text@ == "rayonet: "@ + host@ + ": "@ + step@
            + " failed (exit "@ + signed_decimal(out.status as int) + "): "@ + trimmed(
            lossy_text(out.stderr@),
        )),
        out.status != 0 ==> (r matches Err(text) && text@ == failure_of(
            host@,
            step@,
            out.status,
            lossy_text(out.stderr@),
        )),
{
    if out.status == 0 {
        return Ok(());
    }
    let stderr = text_of(out.stderr.as_slice());
    Err(failure_text(host, step, out.status, stderr.as_str()))
}

/// Where the ladder stands: what is done next.
#[derive(Debug, Clone, Copy, PartialEq, Eq, Structural)]
pub enum Rung {
    /// Confirm that the host answers.
    Probe,
    /// See whether a prior run built this very source.
    Cache,
    /// See whether a toolchain is there.
    Cargo,
    /// Install a toolchain.
    Install,
    /// Make the build directory.
    Mkdir,
    /// Ship the source.
    Upload,
    /// Unpack the source.
    Extract,
    /// Build the agent.
    Build,
    /// The agent is built.
    Ready,
}

impl Rung {
    /// How far up the ladder the rung is.
    pub open spec fn height(self) -> nat {
        match self {
            Rung::Probe => 0,
            Rung::Cache => 1,
            Rung::Cargo => 2,
            Rung::Install => 3,
            Rung::Mkdir => 4,
            Rung::Upload => 5,
            Rung::Extract => 6,
            Rung::Build => 7,
            Rung::Ready => 8,
        }
    }

    /// The rung after this one's command exited with `status`; `None` if that
    /// fails the ladder.
    pub open spec fn after(self, status: i32) -> Option<Rung> {
        match self {
            Rung::Cache => Some(
                if status == 0 {
                    Rung::Ready
                } else {
                    Rung::Cargo
                },
            ),
            Rung::Cargo => Some(
                if status == 0 {
                    Rung::Mkdir
                } else {
                    Rung::Install
                },
            ),
            _ => if status != 0 {
                None
            } else {
                match self {
                    Rung::Probe => Some(Rung::Cache),
                    Rung::Install => Some(Rung::Mkdir),
                    Rung::Mkdir => Some(Rung::Upload),
                    Rung::Extract => Some(Rung::Build),
                    _ => Some(Rung::Ready),
                }
            },
        }
    }

    /// What is reported on reaching the rung.
    pub open spec fn shows(self) -> Option<NodeState> {
        match self {
            Rung::Probe => Some(NodeState::Probing),
            Rung::Install => Some(NodeState::Installing),
            Rung::Mkdir => Some(NodeState::Syncing),
            Rung::Build => Some(NodeState::Building),
            Rung::Ready => Some(NodeState::Ready),
            _ => None,
        }
    }

    /// What a failure of the rung is called.
    pub open spec fn step(self) -> Seq<char> {
        match self {
            Rung::Probe => "probe"@,
            Rung::Install => "rustup install"@,
            Rung::Mkdir => "mkdir"@,
            Rung::Extract => "extract"@,
            _ => "build"@,
        }
    }

    /// What is reported on reaching the rung.
    fn shown(self) -> (r: Option<NodeState>)
        ensures
            r == self.shows(),
    {
        match self {
            Rung::Probe => Some(NodeState::Probing),
            Rung::Install => Some(NodeState::Installing),
            Rung::Mkdir => Some(NodeState::Syncing),
            Rung::Build => Some(NodeState::Building),
            Rung::Ready => Some(NodeState::Ready),
            _ => None,
        }
    }

    /// What a failure of the rung is called.
    fn step_name(self) -> (r: &'static str)
        ensures
            r@ == self.step(),
    {
        match self {
            Rung::Probe => "probe",
            Rung::Install => "rustup install",
            Rung::Mkdir => "mkdir",
            Rung::Extract => "extract",
            _ => "build",
        }
    }

    /// Whether the rung runs a command (shipping the source and being done do not).
    pub open spec fn runs(self) -> bool {
        self != Rung::Upload && self != Rung::Ready
    }
}

/// Every command leads further up or fails, so provisioning comes to an end.
pub proof fn law_the_ladder_only_goes_up(rung: Rung, status: i32)
    requires
        rung.runs(),
    ensures
        rung.after(status) matches Some(next) ==> next.height() > rung.height(),
{
}

/// A host that already holds the built agent is ready after two commands: nothing
/// is installed, shipped or built.
pub proof fn law_a_cache_hit_skips_the_rest()
    ensures
        Rung::Probe.after(0) == Some(Rung::Cache),
        Rung::Cache.after(0) == Some(Rung::Ready),
{
}

/// Provisioning one host.
#[derive(Debug)]
pub struct Ladder {
    /// The host's label.
    pub host: String,
    /// The build directory.
    pub dir: String,
    /// Where the built agent goes.
    pub binary_path: String,
    /// The toolchain to install where none is there.
    pub toolchain: String,
    /// The agent's package and binary name.
    pub binary_name: String,
    /// What is done next.
    pub rung: Rung,
}

/// The event reporting that `rung` was reached, if it reports anything.
pub open spec fn reached(host: Seq<char>, rung: Rung) -> Option<EventModel> {
    match rung.shows() {
        Some(state) => Some(EventModel::Node { host, state }),
        None => None,
    }
}

/// The model of an optional event.
pub open spec fn optional_event(e: Option<Event>) -> Option<EventModel> {
    match e {
        Some(e) => Some(e@),
        None => None,
    }
}

/// The command that checks for a toolchain.
pub const CARGO_CHECK: &'static str =
    "command -v cargo >/dev/null 2>&1 || test -x \"$HOME/.cargo/bin/cargo\"";

/// The command that installs a toolchain, up to its name. Downloading and running
/// are chained rather than piped, so that a failed download fails the command.
pub const INSTALL: &'static str =
    "curl --proto '=https' --tlsv1.2 --connect-timeout 20 -sSf -o /tmp/rustup-init.sh https://sh.rustup.rs && sh /tmp/rustup-init.sh -y --default-toolchain ";

/// The command that builds one package, up to its name and after the directory.
pub const BUILD: &'static str =
    " && PATH=\"$HOME/.cargo/bin:$PATH\" cargo build --release -p ";

impl Ladder {
    /// Begin provisioning `host`, which is reported probing.
    pub fn begin(source_tar: &[u8], toolchain: &str, binary_name: &str, host: &str) -> (r: (
        Ladder,
        Event,
    ))
        ensures
            r.0.host@ == host@,
            r.0.dir@ == cache_dir(source_tar@),
            r.0.dir@ == "$HOME/.cache/rayonet/"@ + hex(blake3_digest(source_tar@)),
            r.0.binary_path@ == binary_at(source_tar@, binary_name@),
            r.0.binary_path@ == r.0.dir@ + "/target/release/"@ + binary_name@,
            r.1@ == (EventModel::Node { host: host@, state: NodeState::Probing }),
            r.0.toolchain@ == toolchain@,
            r.0.binary_name@ == binary_name@,
            r.0.rung == Rung::Probe,
            Some(r.1@) == reached(host@, Rung::Probe),
    {
        let ladder = Ladder {
            host: host.to_owned(),
            dir: remote_cache_dir(source_tar),
            binary_path: remote_binary_path(source_tar, binary_name),
            toolchain: toolchain.to_owned(),
            binary_name: binary_name.to_owned(),
            rung: Rung::Probe,
        };
        (ladder, Event::node(host, NodeState::Probing))
    }

    /// The command of the present rung.
    pub open spec fn spec_command(&self) -> Seq<char> {
        match self.rung {
            Rung::Probe => "uname -sm"@,
            Rung::Cache => "test -x "@ + self.binary_path@,
            Rung::Cargo => CARGO_CHECK@,
            Rung::Install => INSTALL@ + self.toolchain@,
            Rung::Mkdir => "mkdir -p "@ + self.dir@,
            Rung::Extract => "tar -xf "@ + self.dir@ + "/source.tar -C "@ + self.dir@,
            _ => "cd "@ + self.dir@ + BUILD@ + self.binary_name@,
        }
    }

    /// The command of the present rung.
    pub fn command(&self) -> (r: String)
        requires
            self.rung.runs(),
        ensures
            r@ == self.spec_command(),
            self.rung == Rung::Probe ==> r@ == "uname -sm"@,
            self.rung == Rung::Cache ==> r@ == "test -x "@ + self.binary_path@,
            self.rung == Rung::Cargo ==> r@
                == "command -v cargo >/dev/null 2>&1 || test -x \"$HOME/.cargo/bin/cargo\""@,
            self.rung == Rung::Install ==> r@
                == "curl --proto '=https' --tlsv1.2 --connect-timeout 20 -sSf -o /tmp/rustup-init.sh https://sh.rustup.rs && sh /tmp/rustup-init.sh -y --default-toolchain "@
                + self.toolchain@,
            self.rung == Rung::Mkdir ==> r@ == "mkdir -p "@ + self.dir@,
            self.rung == Rung::Extract ==> r@ == "tar -xf "@ + self.dir@ + "/source.tar -C "@
                + self.dir@,
            self.rung == Rung::Build ==> r@ == "cd "@ + self.dir@
                + " && PATH=\"$HOME/.cargo/bin:$PATH\" cargo build --release -p "@
                + self.binary_name@,
    {
        match self.rung {
            Rung::Probe => "uname -sm".to_owned(),
            Rung::Cache => {
                let mut r = "test -x ".to_owned();
                r.append(self.binary_path.as_str());
                r
            },
            Rung::Cargo => CARGO_CHECK.to_owned(),
            Rung::Install => {
                let mut r = INSTALL.to_owned();
                r.append(self.toolchain.as_str());
                r
            },
            Rung::Mkdir => {
                let mut r = "mkdir -p ".to_owned();
                r.append(self.dir.as_str());
                r
            },
            Rung::Extract => {
                let mut r = "tar -xf ".to_owned();
                r.append(self.dir.as_str());
                r.append("/source.tar -C ");
                r.append(self.dir.as_str());
                r
            },
            _ => {
                let mut r = "cd ".to_owned();
                r.append(self.dir.as_str());
                r.append(BUILD);
                r.append(self.binary_name.as_str());
                r
            },
        }
    }

    /// Where the source is shipped to.
    pub fn upload_path(&self) -> (r: String)
        ensures
            r@ == self.dir@ + "/source.tar"@,
    {
        let mut r = self.dir.clone();
        r.append("/source.tar");
        r
    }

    /// Whether two ladders differ at most in their rung.
    pub open spec fn same_but_rung(&self, other: &Ladder) -> bool {
        &&& self.host == other.host
        &&& self.dir == other.dir
        &&& self.binary_path == other.binary_path
        &&& self.toolchain == other.toolchain
        &&& self.binary_name == other.binary_name
    }

    /// Move to `rung` and report reaching it.
    fn climb(&mut self, rung: Rung) -> (event: Option<Event>)
        ensures
            final(self).same_but_rung(old(self)),
            final(self).rung == rung,
            optional_event(event) == reached(old(self).host@, rung),
    {
        self.rung = rung;
        match rung.shown() {
            Some(state) => Some(Event::node(self.host.as_str(), state)),
            None => None,
        }
    }

    /// Fold in the output of the present rung's command: the next rung is reached
    /// and what it reports is returned, or the ladder fails with a message naming
    /// the host and the step.
    pub fn on_output(&mut self, out: &CommandOutput) -> (r: Result<Option<Event>, String>)
        requires
            old(self).rung.runs(),
        ensures
            final(self).same_but_rung(old(self)),
            match old(self).rung.after(out.status) {
                Some(next) => final(self).rung == next && (r matches Ok(event) && optional_event(
                    event,
                ) == reached(old(self).host@, next)),
                None => final(self).rung == old(self).rung && (r matches Err(text) && text@
                    == failure_of(
                    old(self).host@,
                    old(self).rung.step(),
                    out.status,
                    lossy_text(out.stderr@),
                )),
            },
    {
        match self.rung {
            Rung::Cache => {
                let next = if out.status == 0 {
                    Rung::Ready
                } else {
                    Rung::Cargo
                };
                Ok(self.climb(next))
            },
            Rung::Cargo => {
                let next = if out.status == 0 {
                    Rung::Mkdir
                } else {
                    Rung::Install
                };
                Ok(self.climb(next))
            },
            rung => {
                match require_success(self.host.as_str(), rung.step_name(), out) {
                    Err(text) => Err(text),
                    Ok(_) => {
                        let next = match rung {
                            Rung::Probe => Rung::Cache,
                            Rung::Install => Rung::Mkdir,
                            Rung::Mkdir => Rung::Upload,
                            Rung::Extract => Rung::Build,
                            _ => Rung::Ready,
                        };
                        Ok(self.climb(next))
                    },
                }
            },
        }
    }

    /// The source was shipped.
    pub fn on_uploaded(&mut self)
        requires
            old(self).rung == Rung::Upload,
        ensures
            final(self).same_but_rung(old(self)),
            final(self).rung == Rung::Extract,
    {
        self.rung = Rung::Extract;
    }

    /// Where the built agent is, once the ladder is done.
    pub fn provisioned(&self) -> (r: Option<Provisioned>)
        ensures
            match r {
                Some(p) => self.rung == Rung::Ready && p.binary_path@ == self.binary_path@,
                None => self.rung != Rung::Ready,
            },
    {
        match self.rung {
            Rung::Ready => Some(Provisioned { binary_path: self.binary_path.clone() }),
            _ => None,
        }
    }
}

/// The value of a hexadecimal digit.
pub open spec fn hex_value(c: char) -> int {
    if 48 <= c as u32 <= 57 {
        c as u32 - 48
    } else if 97 <= c as u32 <= 102 {
        c as u32 - 87
    } else {
        -1
    }
}

proof fn lemma_hex_digit(n: int)
    requires
        0 <= n < 16,
    ensures
        hex_value(hex_digit(n)) == n,
{
    let low = (48 + n) as u8;
    let high = (87 + n) as u8;
    assert((low as char) as u32 == low as u32);
    assert((high as char) as u32 == high as u32);
}

/// The `i`-th byte that pairs of hexadecimal digits stand for, the first of a pair
/// worth sixteen times the second; -1 where they are no digits.
pub open spec fn byte_read(digits: Seq<char>, i: int) -> int {
    let high = hex_value(digits[2 * i]);
    let low = hex_value(digits[2 * i + 1]);
    if high < 0 || low < 0 {
        -1
    } else {
        high * 16 + low
    }
}

/// Each byte is written as two hexadecimal digits, so the bytes can be read back.
pub proof fn law_hex_reads_back(bytes: Seq<u8>)
    ensures
        hex(bytes).len() == 2 * bytes.len(),
        forall|i: int| 0 <= i < bytes.len() ==> #[trigger] byte_read(hex(bytes), i) == bytes[i],
    decreases bytes.len(),
{
    if bytes.len() > 0 {
        let front = bytes.drop_last();
        law_hex_reads_back(front);
        let b = bytes.last() as int;
        lemma_hex_digit(b / 16);
        lemma_hex_digit(b % 16);
        let all = hex(bytes);
        assert forall|i: int| 0 <= i < bytes.len() implies #[trigger] byte_read(all, i)
            == bytes[i] by {
            if i < front.len() {
                assert(byte_read(hex(front), i) == front[i]);
                assert(all[2 * i] == hex(front)[2 * i]);
                assert(all[2 * i + 1] == hex(front)[2 * i + 1]);
            } else {
                assert(all[2 * i] == hex_digit(b / 16));
                assert(all[2 * i + 1] == hex_digit(b % 16));
            }
        }
    }
}

/// Sources with different digests are built in different places.
pub proof fn law_keys_tell_digests_apart(a: Seq<u8>, b: Seq<u8>)
    ensures
        hex(a) == hex(b) <==> a == b,
{
    law_hex_reads_back(a);
    law_hex_reads_back(b);
    if hex(a) == hex(b) {
        assert forall|i: int| 0 <= i < a.len() implies a[i] == b[i] by {
            assert(byte_read(hex(a), i) == a[i]);
            assert(byte_read(hex(b), i) == b[i]);
        }
        assert(a =~= b);
    }
}

/// What a shell with its tools does on a host on which `before` are the executable
/// files: whether `command` can exit with `status` and leave `after`. A test for an
/// executable file succeeds exactly if it is there and changes nothing; a build that
/// succeeds leaves the binary of its package below its directory; nothing said here
/// takes a file away.
pub open spec fn shell_runs(
    before: Set<Seq<char>>,
    command: Seq<char>,
    status: i32,
    after: Set<Seq<char>>,
) -> bool {
    &&& before.subset_of(after)
    &&& forall|path: Seq<char>|
        command == #[trigger] ("test -x "@ + path) ==> after == before && (status == 0
            <==> before.contains(path))
    &&& forall|dir: Seq<char>, package: Seq<char>|
        command == #[trigger] ("cd "@ + dir
            + " && PATH=\"$HOME/.cargo/bin:$PATH\" cargo build --release -p "@ + package) && status
            == 0 ==> after.contains(dir + "/target/release/"@ + package)
}

/// A host is reported ready only when the built agent is there: on a host that holds it
/// the check for a cached build says so, on one that does not the ladder goes on, and
/// the build that ends it puts the agent where it is looked for.
pub proof fn law_ready_means_built(
    ladder: Ladder,
    before: Set<Seq<char>>,
    status: i32,
    after: Set<Seq<char>>,
)
    requires
        ladder.rung.runs(),
        ladder.binary_path@ == ladder.dir@ + "/target/release/"@ + ladder.binary_name@,
        shell_runs(before, ladder.spec_command(), status, after),
    ensures
        ladder.rung.after(status) == Some(Rung::Ready) ==> after.contains(ladder.binary_path@),
        ladder.rung == Rung::Cache && before.contains(ladder.binary_path@) ==> ladder.rung.after(
            status,
        ) == Some(Rung::Ready) && after == before,
        ladder.rung == Rung::Cache && !before.contains(ladder.binary_path@) ==> ladder.rung.after(
            status,
        ) == Some(Rung::Cargo),
{
    let path = ladder.binary_path@;
    if ladder.rung == Rung::Cache {
        assert(ladder.spec_command() == "test -x "@ + path);
    } else if ladder.rung == Rung::Build {
        let dir = ladder.dir@;
        let package = ladder.binary_name@;
        assert(ladder.spec_command() == "cd "@ + dir
            + " && PATH=\"$HOME/.cargo/bin:$PATH\" cargo build --release -p "@ + package);
    }
}

/// On a cold host the ladder goes through every rung, in this order: the host answers,
/// no cached build is found, a toolchain is installed where none is, and then the
/// source is shipped, unpacked and built. A command that fails on any rung but the two
/// checks ends it.
pub proof fn law_the_rungs_in_order(status: i32)
    ensures
        Rung::Probe.after(0) == Some(Rung::Cache),
        Rung::Cargo.after(0) == Some(Rung::Mkdir),
        Rung::Install.after(0) == Some(Rung::Mkdir),
        Rung::Mkdir.after(0) == Some(Rung::Upload),
        Rung::Extract.after(0) == Some(Rung::Build),
        Rung::Build.after(0) == Some(Rung::Ready),
        status != 0 ==> Rung::Cache.after(status) == Some(Rung::Cargo),
        status != 0 ==> Rung::Cargo.after(status) == Some(Rung::Install),
        status != 0 ==> Rung::Probe.after(status) is None && Rung::Install.after(status) is None
            && Rung::Mkdir.after(status) is None && Rung::Extract.after(status) is None
            && Rung::Build.after(status) is None,
{
}

/// What a host is shown as on the way up: probing, then installing where a toolchain is
/// missing, syncing while the source is shipped and unpacked, building, and ready. The
/// checks show nothing.
pub proof fn law_what_the_rungs_show(host: Seq<char>, rung: Rung)
    ensures
        reached(host, rung) == match rung {
            Rung::Probe => Some(EventModel::Node { host, state: NodeState::Probing }),
            Rung::Install => Some(EventModel::Node { host, state: NodeState::Installing }),
            Rung::Mkdir => Some(EventModel::Node { host, state: NodeState::Syncing }),
            Rung::Build => Some(EventModel::Node { host, state: NodeState::Building }),
            Rung::Ready => Some(EventModel::Node { host, state: NodeState::Ready }),
            Rung::Cache | Rung::Cargo | Rung::Upload | Rung::Extract => None::<EventModel>,
        },
        Rung::Probe.step() == "probe"@,
        Rung::Install.step() == "rustup install"@,
        Rung::Mkdir.step() == "mkdir"@,
        Rung::Extract.step() == "extract"@,
        Rung::Build.step() == "build"@,
{
}

/// A failed step is told with the host, the step, the exit code, and what the command printed
/// as its error, white space at its ends aside.
pub proof fn law_how_a_failure_is_told(
    host: Seq<char>,
    step: Seq<char>,
    status: i32,
    stderr: Seq<char>,
)
    ensures
        failure_of(host, step, status, stderr) == "rayonet: "@ + host + ": "@ + step
            + " failed (exit "@ + signed_decimal(status as int) + "): "@ + trimmed(stderr),
{
}

/// The agent of a source is built below the directory named by the source's digest.
pub proof fn law_where_an_agent_is_built(source_tar: Seq<u8>, binary_name: Seq<char>)
    ensures
        cache_dir(source_tar) == "$HOME/.cache/rayonet/"@ + hex(blake3_digest(source_tar)),
        binary_at(source_tar, binary_name) == "$HOME/.cache/rayonet/"@ + hex(
            blake3_digest(source_tar),
        ) + "/target/release/"@ + binary_name,
{
}

/// Every rung runs a command but shipping the source and being done.
pub proof fn law_which_rungs_run_commands(rung: Rung)
    ensures
        rung.runs() <==> rung != Rung::Upload && rung != Rung::Ready,
{
}

} // verus!
