use vstd::prelude::*;

use crate::Pid;
use crate::bytes::{rfind_byte, rfind_byte_from};
use crate::time::Timestamp;

verus! {

/// One semantic event produced by the analyzer: the classifying kind, the
/// header values, the pid's parent and owner as the analyzer knows them
/// after handling this line, and the scanned line itself.
#[derive(Debug, Clone)]
pub struct Event {
    pub timestamp: Timestamp,
    pub pid: Pid,
    pub parent_pid: Option<Pid>,
    pub owner_pid: Option<Pid>,
    pub strace: crate::strace::Line,
    pub kind: EventKind,
}

#[derive(Debug, Clone)]
pub enum EventKind {
    ForkProcess(ForkProcessEvent),
    ExecProcess(ExecProcessEvent),
    StopProcess(StopProcessEvent),
    Log,
}

#[derive(Debug, Default, Clone)]
pub struct ForkProcessEvent {
    pub child_pid: Pid,
    pub child_owner_pid: Option<Pid>,
}

#[derive(Debug, Default, Clone)]
pub struct ExecProcessEvent {
    pub exec_call: ProcessExec,
    pub re_exec: bool,
}

/// What an exec call stated: the command path, the argument vector, and
/// the environment entries, each absent when the corresponding argument
/// could not be read.
#[derive(Debug, Default, Clone, PartialEq, Eq)]
pub struct ProcessExec {
    pub command: Option<Vec<u8>>,
    pub args: Option<Vec<Vec<u8>>>,
    pub env: Option<Vec<(Vec<u8>, Vec<u8>)>>,
}

/// The file-name component of a command path: everything after the last
/// `/`, or the whole path when it has none.
pub open spec fn command_name_spec(cmd: Seq<u8>) -> Seq<u8> {
    match rfind_byte_from(cmd, cmd.len() - 1, 47) {
        Some(i) => cmd.subrange(i + 1, cmd.len() as int),
        None => cmd,
    }
}

/// The file-name component of `command`, per `command_name_spec`.
pub fn command_file_name(command: &Vec<u8>) -> (r: Vec<u8>)
    ensures
        r@ == command_name_spec(command@),
{
    let cl = command.len();
    match rfind_byte(command.as_slice(), 47) {
        Some(i) => crate::bytes::copy_range(command.as_slice(), i + 1, cl),
        None => {
            proof {
                assert(command@.subrange(0, command@.len() as int) =~= command@);
            }
            crate::bytes::copy_range(command.as_slice(), 0, cl)
        },
    }
}

impl ProcessExec {
    /// The file-name component of the command, per `command_name_spec`.
    pub fn command_name(&self) -> (r: Option<Vec<u8>>)
        ensures
            match r {
                Some(n) => self.command matches Some(c) && n@ == command_name_spec(c@),
                None => self.command is None,
            },
    {
        match &self.command {
            Some(c) => Some(command_file_name(c)),
            None => None,
        }
    }
}

#[derive(Debug, Clone)]
pub struct StopProcessEvent {
    pub stopped: ProcessStoppedReason,
    pub did_exec: bool,
}

#[derive(Debug, Clone)]
pub enum ProcessStoppedReason {
    Exited { code: Option<i32> },
    Killed { signal: Option<Vec<u8>> },
}

} // verus!
