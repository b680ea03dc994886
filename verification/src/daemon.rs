//! What the control of the manager daemon decides: whether the service has
//! to be probed, started or stopped, and what the daemon's record says
//! afterwards. The service itself is run elsewhere.

use vstd::prelude::*;

verus! {

/// The port that the daemon listens on unless it is told another.
pub const DAEMON_DEFAULT_PORT: u16 = 12500;

/// Where a service stands.
#[derive(Clone, Copy, Debug, PartialEq, Eq, Structural)]
pub enum NodeStatus {
    /// The service is installed and was never started.
    Added,
    /// The service was started.
    Running,
    /// The service was stopped.
    Stopped,
    /// The service was removed.
    Removed,
}

/// What the record of the daemon says of its process.
#[derive(Clone, Copy, Debug, PartialEq, Eq, Structural)]
pub struct Daemon {
    pub pid: Option<u32>,
    pub status: NodeStatus,
}

/// What to do first when the daemon is to be started.
#[derive(Clone, Copy, Debug, PartialEq, Eq, Structural)]
pub enum StartStep {
    /// The record says that the daemon runs under this process id: find out
    /// whether that process is there.
    Probe(u32),
    /// Start the service.
    Start,
}

/// What to do first when the daemon is to be stopped.
#[derive(Clone, Copy, Debug, PartialEq, Eq, Structural)]
pub enum StopStep {
    /// Nothing: the daemon was never started.
    NotStarted,
    /// Nothing: the service was removed.
    WasRemoved,
    /// Nothing: the daemon is stopped already.
    AlreadyStopped,
    /// The record says that the daemon runs and has no process id: that is
    /// an error.
    PidNotSet,
    /// Find out whether the process with this id is there, and stop the
    /// service if it is.
    Probe(u32),
}

impl Daemon {
    /// The record of a daemon that was installed just now.
    pub fn added() -> (daemon: Daemon)
        ensures
            daemon == (Daemon { pid: None, status: NodeStatus::Added }),
    {
        Daemon { pid: None, status: NodeStatus::Added }
    }

    /// What to do first when the daemon is to be started. A record that says
    /// that the daemon runs holds its process id.
    pub fn start_step(&self) -> (step: StartStep)
        requires
            self.status is Running ==> self.pid is Some,
        ensures
            step == (if self.status is Running {
                StartStep::Probe(self.pid->Some_0)
            } else {
                StartStep::Start
            }),
    {
        match self.status {
            NodeStatus::Running => match self.pid {
                Some(pid) => StartStep::Probe(pid),
                None => StartStep::Start,
            },
            _ => StartStep::Start,
        }
    }

    /// Whether the service has to be started, given that the process of the
    /// record was probed: only if it is not there.
    pub fn must_start(running: bool) -> (start: bool)
        ensures
            start == !running,
    {
        !running
    }

    /// Notes that the service was started and runs under `pid`.
    pub fn started(&mut self, pid: u32)
        ensures
            *final(self) == (Daemon { pid: Some(pid), status: NodeStatus::Running }),
    {
        self.pid = Some(pid);
        self.status = NodeStatus::Running;
    }

    /// What to do first when the daemon is to be stopped.
    pub fn stop_step(&self) -> (step: StopStep)
        ensures
            step == (match self.status {
                NodeStatus::Added => StopStep::NotStarted,
                NodeStatus::Removed => StopStep::WasRemoved,
                NodeStatus::Stopped => StopStep::AlreadyStopped,
                NodeStatus::Running => match self.pid {
                    Some(pid) => StopStep::Probe(pid),
                    None => StopStep::PidNotSet,
                },
            }),
    {
        match self.status {
            NodeStatus::Added => StopStep::NotStarted,
            NodeStatus::Removed => StopStep::WasRemoved,
            NodeStatus::Stopped => StopStep::AlreadyStopped,
            NodeStatus::Running => match self.pid {
                Some(pid) => StopStep::Probe(pid),
                None => StopStep::PidNotSet,
            },
        }
    }

    /// Notes that the daemon runs no more: its process was not there, or the
    /// service was stopped.
    pub fn stopped(&mut self)
        ensures
            *final(self) == (Daemon { pid: None, status: NodeStatus::Stopped }),
    {
        self.pid = None;
        self.status = NodeStatus::Stopped;
    }
}

/// The number of the node that takes the place of a restarted one, where the
/// registry holds `nodes` nodes: one more than that, and the same number cut
/// down to the 16 bits that a node's record has for it.
pub fn next_node_number(nodes: usize) -> (number: (usize, u16))
    requires
        nodes < usize::MAX,
    ensures
        number.0 == nodes + 1,
        number.1 == (nodes + 1) % 0x10000,
{
    let next = nodes + 1;
    (next, (next % 0x10000) as u16)
}

} // verus!
