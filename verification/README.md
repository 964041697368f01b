# rayonet

Distributing a map over machines reached through pipes and ssh.

`src/` is the verified library. It decides; it does no input or output:

- `coordinator`, `job`: greeting the agents and scheduling a run. Every task is
  resolved once, in input order, whatever agents are lost or join.
- `relay`, `relay_loop`: a node that is an agent to its parent and a coordinator to
  its children.
- `agent`, `node`, `ssh`: what a leaf does, and how hosts are described and started.
- `fleet`: which hosts take part, which are tried again, and how outputs are folded.
- `provisioning`, `probe`, `capability`: bringing a cold host up, and what it can do.
- `graph`, `reach`, `paths`, `views`: the discovered topology and its redundancy.
- `tui`, `panels`, `cells`: the dashboard's state and what its panels show.
- `framing`, `protocol`, `control`, `heartbeat`: the wire.
- `bundle`, `tasks`: what a build script extracts and how call sites are rewritten.
- `text`, `names`, `testing`, `workloads`: helpers.

`app/` runs the library over sockets, processes, files and a terminal. `tests/` runs
the library on concrete values.
