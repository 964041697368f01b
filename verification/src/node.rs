//! A node's role at boot: a leaf, or a relay over the children its own file names.
use vstd::prelude::*;
use vstd::string::*;

use crate::agent::Registry;
use crate::job::copy_bytes;
use crate::observability::optional_text;
use crate::ssh::{
    entries, hosts_of, parse_host_list, ssh_models, AgentSource, Ssh, SshConfig, SshModel,
};
use crate::text::to_chars;

verus! {

/// What a node needs at boot.
#[derive(Debug)]
pub struct NodeConfig<H> {
    /// The task handlers this node serves as a leaf.
    pub registry: Registry<H>,
    /// The source bundle to ship to children.
    pub source: Vec<u8>,
    /// The agent binary to build on children.
    pub binary_name: String,
    /// The toolchain to build children with.
    pub toolchain: String,
}

/// `path` below the directory `dir`: a slash stands between them unless `dir` is
/// empty, which is the current directory, or ends in one.
pub open spec fn below(dir: Seq<char>, path: Seq<char>) -> Seq<char> {
    if dir.len() == 0 || dir.last() == '/' {
        dir + path
    } else {
        dir + "/"@ + path
    }
}

/// The children file: the one named by the override if there is one, else the
/// default one below the home directory.
pub fn children_path(named: Option<String>, home: Option<String>) -> (r: Option<String>)
    ensures
        optional_text(r) == match named {
            Some(path) => Some(path@),
            None => match home {
                Some(home) => Some(below(home@, ".config/rayonet/children"@)),
                None => None,
            },
        },
{
    match named {
        Some(path) => Some(path),
        None => match home {
            Some(home) => {
                let chars = to_chars(home.as_str());
                let mut path = home;
                if chars.len() > 0 && chars[chars.len() - 1] != '/' {
                    path.append("/");
                }
                path.append(".config/rayonet/children");
                Some(path)
            },
            None => None,
        },
    }
}

/// The hosts that a children file names; an absent or unreadable one names none.
pub open spec fn children_in(body: Option<&str>, home: Option<&str>) -> Seq<SshModel> {
    match body {
        Some(body) => hosts_of(entries(body@), home),
        None => Seq::empty(),
    }
}

/// This node's children, given what its children file holds and where its home
/// directory is.
pub fn load_children(body: Option<&str>, home: Option<&str>) -> (r: Vec<SshConfig>)
    ensures
        ssh_models(r@) == children_in(body, home),
{
    match body {
        Some(body) => parse_host_list(body, home),
        None => {
            let r: Vec<SshConfig> = Vec::new();
            proof {
                assert(ssh_models(r@) =~= Seq::empty());
            }
            r
        },
    }
}

/// One launcher per child, each shipping the node's own source.
pub fn child_launchers<H>(children: Vec<SshConfig>, config: &NodeConfig<H>) -> (r: Vec<Ssh>)
    ensures
        r@.len() == children@.len(),
        forall|i: int|
            0 <= i < r@.len() ==> {
                &&& (#[trigger] r@[i]).config == children@[i]
                &&& r@[i].source matches AgentSource::Build { source_tar, toolchain, binary_name }
                    && source_tar@ == config.source@ && toolchain@ == config.toolchain@
                    && binary_name@ == config.binary_name@
            },
{
    let ghost all = children@;
    let mut left = children;
    let mut backwards: Vec<SshConfig> = Vec::new();
    while left.len() > 0
        invariant
            left@.len() + backwards@.len() == all.len(),
            left@ =~= all.take(left@.len() as int),
            forall|i: int|
                0 <= i < backwards@.len() ==> (#[trigger] backwards@[i]) == all[all.len() - 1 - i],
        decreases left@.len(),
    {
        let last = left.pop().unwrap();
        backwards.push(last);
    }
    let ghost turned = backwards@;
    let mut r: Vec<Ssh> = Vec::new();
    while backwards.len() > 0
        invariant
            all == children@,
            turned.len() == all.len(),
            backwards@.len() + r@.len() == all.len(),
            backwards@ =~= turned.take(backwards@.len() as int),
            forall|i: int| 0 <= i < turned.len() ==> (#[trigger] turned[i]) == all[all.len() - 1 - i],
            forall|i: int|
                0 <= i < r@.len() ==> {
                    &&& (#[trigger] r@[i]).config == all[i]
                    &&& r@[i].source matches AgentSource::Build {
                        source_tar,
                        toolchain,
                        binary_name,
                    } && source_tar@ == config.source@ && toolchain@ == config.toolchain@
                        && binary_name@ == config.binary_name@
                },
        decreases backwards@.len(),
    {
        let ghost at = backwards@.len() - 1;
        let child = backwards.pop().unwrap();
        assert(child == turned[at]);
        r.push(
            Ssh::build(
                child,
                copy_bytes(&config.source),
                config.toolchain.as_str(),
                config.binary_name.as_str(),
            ),
        );
    }
    r
}

/// What a node serves as.
#[derive(Debug, Clone, Copy, PartialEq, Eq, Structural)]
pub enum NodeRole {
    /// It runs tasks itself.
    Leaf,
    /// It coordinates its children.
    Relay,
}

/// A node without children serves as a leaf, any other as a relay.
pub fn role_with(children: &Vec<SshConfig>) -> (r: NodeRole)
    ensures
        r == if children@.len() == 0 {
            NodeRole::Leaf
        } else {
            NodeRole::Relay
        },
{
    if children.len() == 0 {
        NodeRole::Leaf
    } else {
        NodeRole::Relay
    }
}

/// A path below a directory is the two with one slash between them: none is made up below
/// the current directory, and none is doubled.
pub proof fn law_paths_below_a_directory(dir: Seq<char>, path: Seq<char>)
    ensures
        below(Seq::empty(), path) == path,
        below(dir.push('/'), path) == dir.push('/') + path,
        dir.len() > 0 && dir.last() != '/' ==> below(dir, path) == dir + seq!['/'] + path,
{
    reveal_strlit("/");
    assert("/"@ =~= seq!['/']);
    assert(Seq::<char>::empty() + path =~= path);
}

/// The children of a node are the hosts its file names; without a file it has none.
pub proof fn law_children_are_those_named(body: &str, home: Option<&str>)
    ensures
        children_in(Some(body), home) == hosts_of(entries(body@), home),
        children_in(None, home).len() == 0,
{
}

} // verus!
