//! Describing hosts reached over ssh, and how an agent is started on them.
use vstd::prelude::*;
use vstd::string::*;

use crate::provisioning::{lossy_text, text_of, CommandOutput};
use crate::observability::optional_text;
use crate::text::{
    cut, decimal, find_char, from_chars, is_white, pieces, push_decimal, same, texts, to_chars,
    trim, trimmed, white,
};

verus! {

/// The environment variable that tells a started program to serve as an agent.
pub const AGENT_ENV: &'static str = "RAYONET_AGENT";

/// How to reach a host over ssh: a destination plus optional overrides of the
/// ambient ssh configuration.
#[derive(Debug, Clone)]
pub struct SshConfig {
    destination: String,
    keyfile: Option<String>,
    config_file: Option<String>,
    port: Option<u16>,
}

/// An [`SshConfig`] as a mathematical value.
pub struct SshModel {
    pub destination: Seq<char>,
    pub keyfile: Option<Seq<char>>,
    pub config_file: Option<Seq<char>>,
    pub port: Option<u16>,
}

impl View for SshConfig {
    type V = SshModel;

    closed spec fn view(&self) -> SshModel {
        SshModel {
            destination: self.destination@,
            keyfile: optional_text(self.keyfile),
            config_file: optional_text(self.config_file),
            port: self.port,
        }
    }
}

/// Each host in turn as a mathematical value.
pub open spec fn ssh_models(v: Seq<SshConfig>) -> Seq<SshModel> {
    Seq::new(v.len(), |i: int| v[i]@)
}

/// The host `destination` with nothing overridden.
pub open spec fn plain_host(destination: Seq<char>) -> SshModel {
    SshModel { destination, keyfile: None, config_file: None, port: None }
}

impl SshConfig {
    /// Target `destination` using the ambient ssh configuration.
    pub fn new(destination: &str) -> (r: SshConfig)
        ensures
            r@ == plain_host(destination@),
    {
        SshConfig {
            destination: destination.to_owned(),
            keyfile: None,
            config_file: None,
            port: None,
        }
    }

    /// Authenticate with the private key at `path` rather than the ssh agent.
    pub fn keyfile(self, path: &str) -> (r: SshConfig)
        ensures
            r@ == (SshModel { keyfile: Some(path@), ..self@ }),
    {
        SshConfig { keyfile: Some(path.to_owned()), ..self }
    }

    /// Connect on `port` instead of the default one.
    pub fn port(self, port: u16) -> (r: SshConfig)
        ensures
            r@ == (SshModel { port: Some(port), ..self@ }),
    {
        SshConfig { port: Some(port), ..self }
    }

    /// Read host aliases and jump chains from `path` instead of the default file.
    pub fn config_file(self, path: &str) -> (r: SshConfig)
        ensures
            r@ == (SshModel { config_file: Some(path@), ..self@ }),
    {
        SshConfig { config_file: Some(path.to_owned()), ..self }
    }

    /// The destination.
    pub fn destination(&self) -> (r: &str)
        ensures
            r@ == self@.destination,
    {
        self.destination.as_str()
    }

    /// The private key to use, if any.
    pub fn key_path(&self) -> (r: Option<&str>)
        ensures
            match r {
                Some(p) => self@.keyfile == Some(p@),
                None => self@.keyfile is None,
            },
    {
        match &self.keyfile {
            Some(p) => Some(p.as_str()),
            None => None,
        }
    }

    /// The configuration file to use, if any.
    pub fn config_path(&self) -> (r: Option<&str>)
        ensures
            match r {
                Some(p) => self@.config_file == Some(p@),
                None => self@.config_file is None,
            },
    {
        match &self.config_file {
            Some(p) => Some(p.as_str()),
            None => None,
        }
    }

    /// The port to use, if any.
    pub fn port_number(&self) -> (r: Option<u16>)
        ensures
            r == self@.port,
    {
        self.port
    }

    /// The host's label: its destination, with the port where one is given.
    pub fn label(&self) -> (r: String)
        ensures
            r@ == host_label(self@),
    {
        let mut r = self.destination.clone();
        match self.port {
            Some(port) => {
                r.append(":");
                push_decimal(&mut r, port as u64);
            },
            None => {},
        }
        r
    }
}

/// A host's label: its destination, with the port where one is given.
pub open spec fn host_label(host: SshModel) -> Seq<char> {
    match host.port {
        Some(port) => host.destination + ":"@ + decimal(port as nat),
        None => host.destination,
    }
}

/// `path` with a leading `~/` replaced by the home directory, where one is known.
pub open spec fn expanded(path: Seq<char>, home: Option<&str>) -> Seq<char> {
    match home {
        Some(home) => if path.len() >= 2 && path[0] == '~' && path[1] == '/' {
            home@ + "/"@ + path.skip(2)
        } else {
            path
        },
        None => path,
    }
}

/// Replace a leading `~/` by the home directory; without one the path is kept.
pub fn expand_tilde(path: &str, home: Option<&str>) -> (r: String)
    ensures
        r@ == expanded(path@, home),
{
    let chars = to_chars(path);
    match home {
        Some(home) => {
            if chars.len() >= 2 && chars[0] == '~' && chars[1] == '/' {
                let mut r = home.to_owned();
                r.append("/");
                let rest = from_chars(&chars, 2, chars.len());
                assert(rest@ =~= path@.skip(2));
                r.append(rest.as_str());
                r
            } else {
                path.to_owned()
            }
        },
        None => path.to_owned(),
    }
}

/// The host that an entry `destination` or `destination=keyfile` names; the first
/// `=` ends the destination, and a key below `~/` is one in the home directory.
pub open spec fn host_of(entry: Seq<char>, home: Option<&str>) -> SshModel {
    let at = equals_at(entry, 0);
    if at < entry.len() {
        SshModel {
            keyfile: Some(expanded(entry.skip(at + 1), home)),
            ..plain_host(entry.take(at))
        }
    } else {
        plain_host(entry)
    }
}

/// The hosts that entries name, one after the other.
pub open spec fn hosts_of(entries: Seq<Seq<char>>, home: Option<&str>) -> Seq<SshModel> {
    Seq::new(entries.len(), |i: int| host_of(entries[i], home))
}

/// The position of the first `=`, or the length.
pub open spec fn equals_at(entry: Seq<char>, from: int) -> int
    decreases entry.len() - from,
{
    if from < 0 || from >= entry.len() || entry[from] == '=' {
        from
    } else {
        equals_at(entry, from + 1)
    }
}

proof fn lemma_equals_at(entry: Seq<char>, from: int, at: int)
    requires
        0 <= from <= at <= entry.len(),
        at < entry.len() ==> entry[at] == '=',
        forall|j: int| from <= j < at ==> entry[j] != '=',
    ensures
        equals_at(entry, from) == at,
    decreases at - from,
{
    if from < at {
        lemma_equals_at(entry, from + 1, at);
    }
}

/// The host that an entry `destination` or `destination=keyfile` names. A leading
/// `~/` of the key's path is expanded: ssh does not do it for a plain path.
pub fn parse_host(entry: &str, home: Option<&str>) -> (r: SshConfig)
    ensures
        r@ == host_of(entry@, home),
{
    let chars = to_chars(entry);
    match find_char(&chars, '=', 0) {
        Some(at) => {
            proof {
                lemma_equals_at(entry@, 0, at as int);
            }
            let destination = from_chars(&chars, 0, at);
            let keyfile = from_chars(&chars, at + 1, chars.len());
            proof {
                assert(destination@ =~= entry@.take(at as int));
                assert(keyfile@ =~= entry@.skip(at as int + 1));
            }
            let keyfile = expand_tilde(keyfile.as_str(), home);
            SshConfig::new(destination.as_str()).keyfile(keyfile.as_str())
        },
        None => {
            proof {
                lemma_equals_at(entry@, 0, entry@.len() as int);
            }
            SshConfig::new(entry)
        },
    }
}

/// How far a host list has been read.
pub struct ListScan {
    /// The entries read so far.
    pub done: Seq<Seq<char>>,
    /// The entry being read.
    pub current: Seq<char>,
    /// Whether the rest of the line is a comment.
    pub comment: bool,
}

impl ListScan {
    /// The entry being read, if any, is complete.
    pub open spec fn ended(self) -> ListScan {
        if self.current.len() == 0 {
            self
        } else {
            ListScan { done: self.done.push(self.current), current: Seq::empty(), ..self }
        }
    }

    /// One more character: white space and commas end an entry, a `#` where an
    /// entry could begin starts a comment, and a line break ends one.
    pub open spec fn then_char(self, c: char) -> ListScan {
        if c == '\n' {
            ListScan { comment: false, ..self.ended() }
        } else if self.comment {
            self
        } else if is_white(c) || c == ',' {
            self.ended()
        } else if c == '#' && self.current.len() == 0 {
            ListScan { comment: true, ..self }
        } else {
            ListScan { current: self.current.push(c), ..self }
        }
    }
}

/// The reading of a host list.
pub open spec fn list_scan(s: Seq<char>) -> ListScan
    decreases s.len(),
{
    if s.len() == 0 {
        ListScan { done: Seq::empty(), current: Seq::empty(), comment: false }
    } else {
        list_scan(s.drop_last()).then_char(s.last())
    }
}

/// The entries of a host list.
pub open spec fn entries(s: Seq<char>) -> Seq<Seq<char>> {
    list_scan(s).ended().done
}

/// The hosts that entries name, one after the other.
fn parse_entries(list: &Vec<String>, home: Option<&str>) -> (r: Vec<SshConfig>)
    ensures
        ssh_models(r@) == hosts_of(texts(list@), home),
{
    let mut r: Vec<SshConfig> = Vec::new();
    let mut i: usize = 0;
    while i < list.len()
        invariant
            i <= list@.len(),
            r@.len() == i,
            forall|k: int| 0 <= k < i ==> (#[trigger] r@[k])@ == host_of(list@[k]@, home),
        decreases list@.len() - i,
    {
        r.push(parse_host(list[i].as_str(), home));
        i += 1;
    }
    proof {
        assert(ssh_models(r@) =~= hosts_of(texts(list@), home));
    }
    r
}

/// The hosts that a list names: entries separated by white space or commas, with
/// comments from `#` to the end of the line.
pub fn parse_host_list(body: &str, home: Option<&str>) -> (r: Vec<SshConfig>)
    ensures
        ssh_models(r@) == hosts_of(entries(body@), home),
{
    let list = split_entries(body);
    parse_entries(&list, home)
}

/// `s` with a space for each comma.
pub open spec fn spaced(s: Seq<char>) -> Seq<char> {
    Seq::new(
        s.len(),
        |i: int|
            if s[i] == ',' {
                ' '
            } else {
                s[i]
            },
    )
}

/// What is left of the first `n` parts once trimmed, without the empty ones.
pub open spec fn named_below(parts: Seq<Seq<char>>, n: int) -> Seq<Seq<char>>
    decreases n,
{
    if n <= 0 {
        Seq::empty()
    } else if trimmed(parts[n - 1]).len() == 0 {
        named_below(parts, n - 1)
    } else {
        named_below(parts, n - 1).push(trimmed(parts[n - 1]))
    }
}

/// The entries of a one-line setting: what stands between spaces and commas.
pub open spec fn setting_entries(setting: Seq<char>) -> Seq<Seq<char>> {
    named_below(pieces(spaced(setting), ' '), pieces(spaced(setting), ' ').len() as int)
}

/// The hosts that a one-line setting names: entries separated by spaces or commas.
pub fn parse_hosts(setting: &str, home: Option<&str>) -> (r: Vec<SshConfig>)
    ensures
        ssh_models(r@) == hosts_of(setting_entries(setting@), home),
{
    let chars = to_chars(setting);
    let mut line = String::new();
    let mut i: usize = 0;
    proof {
        assert(line@ =~= spaced(setting@).take(0));
    }
    while i < chars.len()
        invariant
            chars@ == setting@,
            i <= chars@.len(),
            line@ == spaced(setting@).take(i as int),
        decreases chars@.len() - i,
    {
        line.push(
            if chars[i] == ',' {
                ' '
            } else {
                chars[i]
            },
        );
        proof {
            assert(spaced(setting@).take(i as int + 1) =~= spaced(setting@).take(i as int).push(
                spaced(setting@)[i as int],
            ));
        }
        i += 1;
    }
    proof {
        assert(spaced(setting@).take(i as int) =~= spaced(setting@));
    }
    let parts = cut(line.as_str(), ' ');
    let mut list: Vec<String> = Vec::new();
    let mut k: usize = 0;
    proof {
        assert(texts(list@) =~= Seq::empty());
    }
    while k < parts.len()
        invariant
            k <= parts@.len(),
            texts(list@) == named_below(texts(parts@), k as int),
        decreases parts@.len() - k,
    {
        let entry = trim(parts[k].as_str());
        let ghost before = list@;
        if !same(entry.as_str(), "") {
            list.push(entry);
            proof {
                reveal_strlit("");
                assert(texts(list@) =~= texts(before).push(trimmed(parts@[k as int]@)));
                if entry@.len() == 0 {
                    assert(entry@ =~= ""@);
                }
            }
        } else {
            proof {
                reveal_strlit("");
            }
        }
        k += 1;
    }
    proof {
        assert(texts(parts@).len() == parts@.len());
    }
    parse_entries(&list, home)
}

/// The entries of a host list.
pub fn split_entries(body: &str) -> (r: Vec<String>)
    ensures
        texts(r@) == entries(body@),
{
    let chars = to_chars(body);
    let mut done: Vec<String> = Vec::new();
    let mut current = String::new();
    let mut begun = false;
    let mut comment = false;
    let mut i: usize = 0;
    proof {
        assert(chars@.take(0) =~= Seq::empty());
        assert(texts(done@) =~= Seq::empty());
        assert(current@ =~= Seq::empty());
    }
    while i < chars.len()
        invariant
            chars@ == body@,
            i <= chars@.len(),
            begun == (current@.len() > 0),
            (ListScan { done: texts(done@), current: current@, comment }) == list_scan(
                chars@.take(i as int),
            ),
        decreases chars@.len() - i,
    {
        let c = chars[i];
        let ghost before = done@;
        let ghost word = current@;
        proof {
            assert(chars@.take(i as int + 1).drop_last() =~= chars@.take(i as int));
            assert(chars@.take(i as int + 1).last() == c);
        }
        if c == '\n' || (!comment && (white(c) || c == ',')) {
            if begun {
                done.push(current);
                current = String::new();
                begun = false;
                proof {
                    assert(texts(done@) =~= texts(before).push(word));
                    assert(current@ =~= Seq::empty());
                }
            }
            if c == '\n' {
                comment = false;
            }
        } else if comment {
        } else if c == '#' && !begun {
            comment = true;
        } else {
            current.push(c);
            begun = true;
        }
        i += 1;
    }
    proof {
        assert(chars@.take(i as int) =~= chars@);
    }
    if begun {
        let ghost before = done@;
        let ghost word = current@;
        done.push(current);
        proof {
            assert(texts(done@) =~= texts(before).push(word));
        }
    }
    done
}

/// How the agent binary is obtained on the host before it is started.
#[derive(Debug)]
pub enum AgentSource {
    /// It is already there, at this path.
    Prebuilt(String),
    /// It is provisioned first.
    Build {
        /// The source bundle to ship.
        source_tar: Vec<u8>,
        /// The toolchain to build with.
        toolchain: String,
        /// The agent's binary name.
        binary_name: String,
    },
}

/// Starts the agent on a host over ssh.
#[derive(Debug)]
pub struct Ssh {
    /// How the host is reached.
    pub config: SshConfig,
    /// How the agent is obtained there.
    pub source: AgentSource,
}

impl Ssh {
    /// Start the already-built agent binary at `binary_path` on the host.
    pub fn prebuilt(config: SshConfig, binary_path: &str) -> (r: Ssh)
        ensures
            r.config == config,
            r.source matches AgentSource::Prebuilt(path) && path@ == binary_path@,
    {
        Ssh { config, source: AgentSource::Prebuilt(binary_path.to_owned()) }
    }

    /// Provision the host from `source_tar`, building the `binary_name` agent with
    /// `toolchain`, then start it.
    pub fn build(config: SshConfig, source_tar: Vec<u8>, toolchain: &str, binary_name: &str) -> (r:
        Ssh)
        ensures
            r.config == config,
            r.source matches AgentSource::Build { source_tar: tar, toolchain: t, binary_name: b }
                && tar == source_tar && t@ == toolchain@ && b@ == binary_name@,
    {
        Ssh {
            config,
            source: AgentSource::Build {
                source_tar,
                toolchain: toolchain.to_owned(),
                binary_name: binary_name.to_owned(),
            },
        }
    }

    /// The host's label.
    pub fn label(&self) -> (r: String)
        ensures
            r@ == host_label(self.config@),
    {
        self.config.label()
    }
}

/// The command that starts the agent at `binary_path`. The environment is not
/// carried over by ssh, so the marker is set in the command itself.
pub fn agent_command(binary_path: &str) -> (r: String)
    ensures
        r@ == AGENT_ENV@ + "=1 "@ + binary_path@,
{
    let mut r = AGENT_ENV.to_owned();
    r.append("=1 ");
    r.append(binary_path);
    r
}

/// The command that writes what it is fed to `dest`.
pub fn upload_command(dest: &str) -> (r: String)
    ensures
        r@ == "cat > "@ + dest@,
{
    let mut r = "cat > ".to_owned();
    r.append(dest);
    r
}

/// The message of a failed upload, given what the command printed as its error.
pub fn upload_failure(dest: &str, stderr: &[u8]) -> (r: String)
    ensures
        r@ == "rayonet: upload to "@ + dest@ + " failed: "@ + trimmed(lossy_text(stderr@)),
{
    let mut r = "rayonet: upload to ".to_owned();
    r.append(dest);
    r.append(" failed: ");
    let text = text_of(stderr);
    let shown = trim(text.as_str());
    r.append(shown.as_str());
    r
}

/// The command that asks a host for its machine id.
pub const MACHINE_ID_COMMAND: &'static str = "cat /etc/machine-id";

/// The stable id of the machine behind a host, given what asking it for its machine
/// id gave, if anything: the id it printed if the command succeeded, else the host's
/// label.
pub fn node_id(reply: Option<&CommandOutput>, label: &str) -> (r: String)
    ensures
        r@ == match reply {
            Some(out) => if out.status == 0 {
                trimmed(lossy_text(out.stdout@))
            } else {
                label@
            },
            None => label@,
        },
{
    match reply {
        Some(out) => {
            if out.status == 0 {
                let text = text_of(&out.stdout);
                trim(text.as_str())
            } else {
                label.to_owned()
            }
        },
        None => label.to_owned(),
    }
}

/// Only a leading `~/` stands for the home directory, and only where one is known.
pub proof fn law_only_a_leading_tilde_is_home(path: Seq<char>, home: &str)
    ensures
        expanded(seq!['~', '/'] + path, Some(home)) == home@ + seq!['/'] + path,
        path.len() < 2 || path[0] != '~' || path[1] != '/' ==> expanded(path, Some(home)) == path,
        expanded(path, None) == path,
{
    reveal_strlit("/");
    assert("/"@ =~= seq!['/']);
    assert((seq!['~', '/'] + path).skip(2) =~= path);
}

/// An entry is a destination, or a destination and, behind the first `=`, its key; nothing
/// else is overridden.
pub proof fn law_what_an_entry_names(
    destination: Seq<char>,
    key: Seq<char>,
    home: Option<&str>,
)
    requires
        !destination.contains('='),
    ensures
        host_of(destination + seq!['='] + key, home) == (SshModel {
            destination,
            keyfile: Some(expanded(key, home)),
            config_file: None,
            port: None,
        }),
        host_of(destination, home) == (SshModel {
            destination,
            keyfile: None,
            config_file: None,
            port: None,
        }),
{
    let entry = destination + seq!['='] + key;
    let at = destination.len() as int;
    assert forall|j: int| 0 <= j < at implies entry[j] != '=' by {
        assert(entry[j] == destination[j]);
        assert(destination.contains(destination[j]));
    }
    lemma_equals_at(entry, 0, at);
    assert(entry.take(at) =~= destination);
    assert(entry.skip(at + 1) =~= key);
    assert forall|j: int| 0 <= j < at implies destination[j] != '=' by {
        assert(destination.contains(destination[j]));
    }
    lemma_equals_at(destination, 0, at);
}

/// Hosts are labelled by their destination, with the port behind a colon where one is
/// given.
pub proof fn law_what_hosts_are_called(host: SshModel, port: u16)
    ensures
        host.port is None ==> host_label(host) == host.destination,
        host.port == Some(port) ==> host_label(host) == host.destination + ":"@ + decimal(
            port as nat,
        ),
        AGENT_ENV@ == "RAYONET_AGENT"@,
        MACHINE_ID_COMMAND@ == "cat /etc/machine-id"@,
{
}

/// Reading a list goes character by character.
proof fn lemma_scan_more(a: Seq<char>, b: Seq<char>, done: Seq<Seq<char>>)
    requires
        list_scan(a) == (ListScan { done, current: Seq::empty(), comment: false }),
    ensures
        list_scan(a + b) == (ListScan {
            done: done + list_scan(b).done,
            current: list_scan(b).current,
            comment: list_scan(b).comment,
        }),
    decreases b.len(),
{
    if b.len() == 0 {
        assert(a + b =~= a);
        assert(done + list_scan(b).done =~= done);
    } else {
        let front = b.drop_last();
        lemma_scan_more(a, front, done);
        assert((a + b).drop_last() =~= a + front);
        assert((a + b).last() == b.last());
        let s = list_scan(front);
        assert((done + s.done).push(s.current) =~= done + s.done.push(s.current));
    }
}

/// A list is read line by line: what two texts name with a line break between them is what
/// each names, one after the other.
pub proof fn law_lists_are_read_line_by_line(a: Seq<char>, b: Seq<char>)
    ensures
        entries(a + seq!['\n'] + b) == entries(a) + entries(b),
{
    let line = a + seq!['\n'];
    assert(line.drop_last() =~= a);
    assert(line.last() == '\n');
    assert(list_scan(line) == list_scan(a).then_char(line.last()));
    assert(list_scan(line).current =~= Seq::empty());
    lemma_scan_more(line, b, entries(a));
    let s = list_scan(b);
    assert(entries(a) + s.done.push(s.current) =~= (entries(a) + s.done).push(s.current));
}

/// Within a line, white space and commas part entries, outside of a comment.
pub proof fn law_spaces_and_commas_part_entries(a: Seq<char>, c: char, b: Seq<char>)
    requires
        c == ',' || is_white(c),
        !list_scan(a).comment,
    ensures
        entries(a + seq![c] + b) == entries(a) + entries(b),
{
    let line = a + seq![c];
    assert(line.drop_last() =~= a);
    assert(line.last() == c);
    assert(list_scan(line) == list_scan(a).then_char(line.last()));
    assert(list_scan(line).current =~= Seq::empty());
    lemma_scan_more(line, b, entries(a));
    let s = list_scan(b);
    assert(entries(a) + s.done.push(s.current) =~= (entries(a) + s.done).push(s.current));
}

proof fn lemma_word(word: Seq<char>)
    requires
        word.len() > 0 ==> word[0] != '#',
        forall|i: int| 0 <= i < word.len() ==> !is_white(#[trigger] word[i]) && word[i] != ',',
    ensures
        list_scan(word) == (ListScan { done: Seq::empty(), current: word, comment: false }),
    decreases word.len(),
{
    if word.len() > 0 {
        let front = word.drop_last();
        assert forall|i: int| 0 <= i < front.len() implies !is_white(#[trigger] front[i])
            && front[i] != ',' by {
            assert(front[i] == word[i]);
        }
        lemma_word(front);
        assert(word[word.len() - 1] == word.last());
        assert('\n' as u32 == 10);
        assert(front.push(word.last()) =~= word);
    } else {
        assert(word =~= Seq::empty());
    }
}

proof fn lemma_comment(text: Seq<char>)
    requires
        forall|i: int| 0 <= i < text.len() ==> (#[trigger] text[i]) != '\n',
    ensures
        list_scan(seq!['#'] + text) == (ListScan {
            done: Seq::empty(),
            current: Seq::empty(),
            comment: true,
        }),
    decreases text.len(),
{
    let whole = seq!['#'] + text;
    if text.len() == 0 {
        assert(whole.drop_last() =~= Seq::empty());
        assert(whole.last() == '#');
        assert('#' as u32 == 35);
        assert(list_scan(whole.drop_last()).current =~= Seq::empty());
    } else {
        let front = text.drop_last();
        assert forall|i: int| 0 <= i < front.len() implies (#[trigger] front[i]) != '\n' by {
            assert(front[i] == text[i]);
        }
        lemma_comment(front);
        assert(whole.drop_last() =~= seq!['#'] + front);
        assert(whole.last() == text[text.len() - 1]);
    }
}

/// A word is one entry, as it stands, even where a `#` stands inside it; a `#` where an
/// entry could begin makes the rest of its line a comment that names nothing.
pub proof fn law_words_and_comments(word: Seq<char>, text: Seq<char>)
    requires
        word.len() > 0,
        word[0] != '#',
        forall|i: int| 0 <= i < word.len() ==> !is_white(#[trigger] word[i]) && word[i] != ',',
        forall|i: int| 0 <= i < text.len() ==> (#[trigger] text[i]) != '\n',
    ensures
        entries(word) == seq![word],
        entries(seq!['#'] + text).len() == 0,
        entries(Seq::empty()).len() == 0,
        !list_scan(word).comment,
{
    lemma_word(word);
    lemma_comment(text);
    assert(entries(word) =~= seq![word]);
}

/// The hosts of a list are those its entries name, one after the other.
pub proof fn law_hosts_come_in_order(list: Seq<Seq<char>>, home: Option<&str>, i: int)
    requires
        0 <= i < list.len(),
    ensures
        hosts_of(list, home).len() == list.len(),
        hosts_of(list, home)[i] == host_of(list[i], home),
{
}

/// A setting is cut at spaces and commas alike, and what is left between them once trimmed
/// is an entry, unless it is empty.
pub proof fn law_settings_are_cut_at_spaces_and_commas(
    parts: Seq<Seq<char>>,
    part: Seq<char>,
    setting: Seq<char>,
    i: int,
)
    ensures
        spaced(setting).len() == setting.len(),
        0 <= i < setting.len() ==> spaced(setting)[i] == if setting[i] == ',' {
            ' '
        } else {
            setting[i]
        },
        named_below(parts, 0).len() == 0,
        trimmed(part).len() == 0 ==> named_below(parts.push(part), parts.len() as int + 1)
            == named_below(parts, parts.len() as int),
        trimmed(part).len() > 0 ==> named_below(parts.push(part), parts.len() as int + 1)
            == named_below(parts, parts.len() as int).push(trimmed(part)),
        setting_entries(setting) == named_below(
            pieces(spaced(setting), ' '),
            pieces(spaced(setting), ' ').len() as int,
        ),
{
    lemma_named_prefix(parts, part, parts.len() as int);
}

proof fn lemma_named_prefix(parts: Seq<Seq<char>>, part: Seq<char>, n: int)
    requires
        0 <= n <= parts.len(),
    ensures
        named_below(parts.push(part), n) == named_below(parts, n),
    decreases n,
{
    if n > 0 {
        lemma_named_prefix(parts, part, n - 1);
    }
}

} // verus!
