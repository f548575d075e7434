use vstd::prelude::*;

use std::collections::HashMap;

use crate::Pid;
use crate::bytes::{bytes_eq, copy_range, find_byte, find_byte_from};
use crate::event::{
    Event, EventKind, ExecProcessEvent, ForkProcessEvent, ProcessExec, ProcessStoppedReason,
    StopProcessEvent,
};
use crate::strace::parser::{
    StraceParseError, exit_code_of, fork_child_of_model, lemma_view_string_shapes, scan_args,
    scan_whole_value, syscall_result_model,
};
use crate::strace::{Fields, Line, SyscallEvent, Value, to_bstring_spec};

verus! {

broadcast use vstd::std_specs::hash::group_hash_axioms;

/// What the analyzer knows of one pid: who forked it, which exec'd
/// ancestor owns it (fixed at fork time), and where it stands in its
/// lifecycle.
#[derive(Debug, Clone, Copy)]
pub struct ProcessState {
    pub parent_pid: Option<Pid>,
    pub owner_pid: Option<Pid>,
    pub status: ProcessStatus,
}

#[derive(Debug, Clone, Copy, PartialEq, Eq, Structural)]
pub enum ProcessStatus {
    Forked,
    Execed,
    Stopped,
}

// --- The recognised syscall names -------------------------------------------

pub open spec fn name_fork() -> Seq<u8> {
    seq![102u8, 111u8, 114u8, 107u8]
}

pub open spec fn name_vfork() -> Seq<u8> {
    seq![118u8, 102u8, 111u8, 114u8, 107u8]
}

pub open spec fn name_clone() -> Seq<u8> {
    seq![99u8, 108u8, 111u8, 110u8, 101u8]
}

pub open spec fn name_clone3() -> Seq<u8> {
    seq![99u8, 108u8, 111u8, 110u8, 101u8, 51u8]
}

pub open spec fn name_execve() -> Seq<u8> {
    seq![101u8, 120u8, 101u8, 99u8, 118u8, 101u8]
}

pub open spec fn name_execveat() -> Seq<u8> {
    seq![101u8, 120u8, 101u8, 99u8, 118u8, 101u8, 97u8, 116u8]
}

pub open spec fn is_fork_syscall(n: Seq<u8>) -> bool {
    n == name_fork() || n == name_vfork() || n == name_clone() || n == name_clone3()
}

pub open spec fn is_exec_syscall(n: Seq<u8>) -> bool {
    n == name_execve() || n == name_execveat()
}

fn fork_names() -> (r: (Vec<u8>, Vec<u8>, Vec<u8>, Vec<u8>))
    ensures
        r.0@ == name_fork(),
        r.1@ == name_vfork(),
        r.2@ == name_clone(),
        r.3@ == name_clone3(),
{
    let a: Vec<u8> = vec![102u8, 111u8, 114u8, 107u8];
    let b: Vec<u8> = vec![118u8, 102u8, 111u8, 114u8, 107u8];
    let c: Vec<u8> = vec![99u8, 108u8, 111u8, 110u8, 101u8];
    let d: Vec<u8> = vec![99u8, 108u8, 111u8, 110u8, 101u8, 51u8];
    proof {
        assert(a@ =~= name_fork());
        assert(b@ =~= name_vfork());
        assert(c@ =~= name_clone());
        assert(d@ =~= name_clone3());
    }
    (a, b, c, d)
}

fn exec_names() -> (r: (Vec<u8>, Vec<u8>))
    ensures
        r.0@ == name_execve(),
        r.1@ == name_execveat(),
{
    let a: Vec<u8> = vec![101u8, 120u8, 101u8, 99u8, 118u8, 101u8];
    let b: Vec<u8> = vec![101u8, 120u8, 101u8, 99u8, 118u8, 101u8, 97u8, 116u8];
    proof {
        assert(a@ =~= name_execve());
        assert(b@ =~= name_execveat());
    }
    (a, b)
}

// --- The state model ----------------------------------------------------------

/// The owner walk: follow parent links from `pid` until a process whose
/// status is Execed is found; the fuel (one more than the table size)
/// bounds the walk, so a malformed cyclic table resolves to no owner
/// instead of never answering.
pub open spec fn owner_from(m: Map<Pid, ProcessState>, pid: Pid, fuel: nat) -> Option<Pid>
    decreases fuel,
{
    if fuel == 0 {
        None
    } else if !m.contains_key(pid) {
        None
    } else if m[pid].status is Execed {
        Some(pid)
    } else {
        match m[pid].parent_pid {
            None => None,
            Some(pp) => owner_from(m, pp, (fuel - 1) as nat),
        }
    }
}

pub open spec fn owner_of(m: Map<Pid, ProcessState>, pid: Pid) -> Option<Pid> {
    owner_from(m, pid, m.len() + 1)
}

/// A fork observed from `forker` returning `child`: the child is entered
/// with its parent and its owner resolved now — unless the pid is already
/// known, in which case nothing changes.
pub open spec fn fork_update(m: Map<Pid, ProcessState>, forker: Pid, child: Pid) -> Map<
    Pid,
    ProcessState,
> {
    if m.contains_key(child) {
        m
    } else {
        m.insert(
            child,
            ProcessState {
                parent_pid: Some(forker),
                owner_pid: owner_of(m, forker),
                status: ProcessStatus::Forked,
            },
        )
    }
}

/// An exec by `pid`: the entry (fresh and unparented if the pid was
/// unknown) moves to Execed; parent and owner are untouched.
pub open spec fn exec_update(m: Map<Pid, ProcessState>, pid: Pid) -> Map<Pid, ProcessState> {
    let prev = if m.contains_key(pid) {
        m[pid]
    } else {
        ProcessState { parent_pid: None, owner_pid: None, status: ProcessStatus::Forked }
    };
    m.insert(
        pid,
        ProcessState {
            parent_pid: prev.parent_pid,
            owner_pid: prev.owner_pid,
            status: ProcessStatus::Execed,
        },
    )
}

/// An exit or kill of `pid`: the entry moves to Stopped.
pub open spec fn stop_update(m: Map<Pid, ProcessState>, pid: Pid) -> Map<Pid, ProcessState> {
    let prev = if m.contains_key(pid) {
        m[pid]
    } else {
        ProcessState { parent_pid: None, owner_pid: None, status: ProcessStatus::Stopped }
    };
    m.insert(
        pid,
        ProcessState {
            parent_pid: prev.parent_pid,
            owner_pid: prev.owner_pid,
            status: ProcessStatus::Stopped,
        },
    )
}

pub open spec fn was_execed(m: Map<Pid, ProcessState>, pid: Pid) -> bool {
    m.contains_key(pid) && m[pid].status is Execed
}

pub open spec fn state_parent(m: Map<Pid, ProcessState>, pid: Pid) -> Option<Pid> {
    if m.contains_key(pid) {
        m[pid].parent_pid
    } else {
        None
    }
}

pub open spec fn state_owner(m: Map<Pid, ProcessState>, pid: Pid) -> Option<Pid> {
    if m.contains_key(pid) {
        m[pid].owner_pid
    } else {
        None
    }
}

/// The killing signal's name: the text up to the first space (an optional
/// siginfo block follows it).
pub open spec fn killed_signal_prefix(s: Seq<u8>) -> Seq<u8> {
    match find_byte_from(s, 0, 32) {
        Some(i) => s.subrange(0, i),
        None => s,
    }
}

/// When the analyzer succeeds: always, except where a lazy value parse
/// is required — the result text of a fork-family call, the argument
/// list of an exec call, or the exit-code text — and that parse fails.
pub open spec fn analyze_accepts(line: Line) -> bool {
    match line.event {
        crate::strace::Event::Syscall(sc) => if is_fork_syscall(sc.name@) {
            syscall_result_model(sc.result@) is Some
        } else if is_exec_syscall(sc.name@) {
            scan_args(sc.args@) is Some
        } else {
            true
        },
        crate::strace::Event::Exited(ex) => scan_whole_value(ex.code@) is Some,
        _ => true,
    }
}

/// The child pid a fork-family result text denotes, if it reads as an
/// `i32`.
pub open spec fn fork_child_of(sc: SyscallEvent) -> Option<i32> {
    fork_child_of_model(sc.result@)
}

// --- The analyzer --------------------------------------------------------------

/// The process-state analyzer: a live model of the traced process tree,
/// classifying each scanned line into a semantic event.
#[derive(Default)]
pub struct Analyzer {
    processes: HashMap<Pid, ProcessState>,
}

impl Analyzer {
    /// The analyzer's process table.
    pub closed spec fn process_map(&self) -> Map<Pid, ProcessState> {
        self.processes@
    }

    pub fn new() -> (r: Analyzer)
        ensures
            r.process_map() == Map::<Pid, ProcessState>::empty(),
    {
        Analyzer { processes: HashMap::new() }
    }

    /// The nearest Execed ancestor of `pid` along parent links, if any.
    fn find_owner_pid(&self, pid: Pid) -> (r: Option<Pid>)
        ensures
            r == owner_of(self.process_map(), pid),
    {
        let ghost m = self.processes@;
        let mut fuel: usize = self.processes.len();
        let mut cur: Pid = pid;
        loop
            invariant
                m == self.processes@,
                owner_of(m, pid) == owner_from(m, cur, (fuel + 1) as nat),
            decreases fuel,
        {
            match self.processes.get(&cur) {
                None => {
                    return None;
                },
                Some(st) => {
                    match st.status {
                        ProcessStatus::Execed => {
                            return Some(cur);
                        },
                        _ => {},
                    }
                    match st.parent_pid {
                        None => {
                            return None;
                        },
                        Some(pp) => {
                            if fuel == 0 {
                                proof {
                                    assert(owner_from(m, pp, 0) is None);
                                }
                                return None;
                            }
                            fuel = fuel - 1;
                            cur = pp;
                        },
                    }
                },
            }
        }
    }

    /// Enters a fork: per `fork_update`, and reports the child pid with
    /// the owner the child was (or already had been) given.
    fn handle_fork(&mut self, forker: Pid, child_pid: Pid) -> (r: EventKind)
        ensures
            final(self).process_map() == fork_update(old(self).process_map(), forker, child_pid),
            r == EventKind::ForkProcess(
                ForkProcessEvent {
                    child_pid,
                    child_owner_pid: fork_update(
                        old(self).process_map(),
                        forker,
                        child_pid,
                    )[child_pid].owner_pid,
                },
            ),
    {
        if self.processes.contains_key(&child_pid) {
            let owner = match self.processes.get(&child_pid) {
                Some(st) => st.owner_pid,
                None => None,
            };
            EventKind::ForkProcess(ForkProcessEvent { child_pid, child_owner_pid: owner })
        } else {
            let owner = self.find_owner_pid(forker);
            self.processes.insert(
                child_pid,
                ProcessState {
                    parent_pid: Some(forker),
                    owner_pid: owner,
                    status: ProcessStatus::Forked,
                },
            );
            EventKind::ForkProcess(ForkProcessEvent { child_pid, child_owner_pid: owner })
        }
    }

    /// Enters an exec: per `exec_update`; `re_exec` reports exactly
    /// whether the pid had already reached Execed.
    fn handle_exec(&mut self, pid: Pid, exec_call: ProcessExec) -> (r: EventKind)
        ensures
            final(self).process_map() == exec_update(old(self).process_map(), pid),
            r == EventKind::ExecProcess(
                ExecProcessEvent { exec_call, re_exec: was_execed(old(self).process_map(), pid) },
            ),
    {
        let prev: ProcessState = match self.processes.get(&pid) {
            Some(st) => *st,
            None => ProcessState {
                parent_pid: None,
                owner_pid: None,
                status: ProcessStatus::Forked,
            },
        };
        let re_exec = match prev.status {
            ProcessStatus::Execed => true,
            _ => false,
        };
        self.processes.insert(
            pid,
            ProcessState {
                parent_pid: prev.parent_pid,
                owner_pid: prev.owner_pid,
                status: ProcessStatus::Execed,
            },
        );
        EventKind::ExecProcess(ExecProcessEvent { exec_call, re_exec })
    }

    /// Enters a stop: per `stop_update`; `did_exec` reports exactly
    /// whether the pid had reached Execed.
    fn handle_stopped(&mut self, pid: Pid, stopped: ProcessStoppedReason) -> (r: EventKind)
        ensures
            final(self).process_map() == stop_update(old(self).process_map(), pid),
            r == EventKind::StopProcess(
                StopProcessEvent { stopped, did_exec: was_execed(old(self).process_map(), pid) },
            ),
    {
        let prev: ProcessState = match self.processes.get(&pid) {
            Some(st) => *st,
            None => ProcessState {
                parent_pid: None,
                owner_pid: None,
                status: ProcessStatus::Stopped,
            },
        };
        let did_exec = match prev.status {
            ProcessStatus::Execed => true,
            _ => false,
        };
        self.processes.insert(
            pid,
            ProcessState {
                parent_pid: prev.parent_pid,
                owner_pid: prev.owner_pid,
                status: ProcessStatus::Stopped,
            },
        );
        EventKind::StopProcess(StopProcessEvent { stopped, did_exec })
    }

    /// Classifies one scanned line and updates the process table:
    /// fork-family calls whose result reads as a pid enter the child;
    /// exec calls move the pid to Execed and report re-exec; exit and
    /// kill records move it to Stopped and report whether it had exec'd;
    /// everything else is a log event and changes nothing. The produced
    /// event snapshots the pid's parent and owner after the update. A
    /// value-parse failure changes nothing.
    pub fn analyze(&mut self, line: Line) -> (r: Result<Event, StraceParseError>)
        ensures
            r is Err ==> final(self).process_map() == old(self).process_map(),
            r is Ok <==> analyze_accepts(line),
            r matches Ok(ev) ==> ({
                let m0 = old(self).process_map();
                let m1 = final(self).process_map();
                &&& ev.pid == line.pid
                &&& ev.timestamp == line.timestamp
                &&& ev.strace == line
                &&& ev.parent_pid == state_parent(m1, line.pid)
                &&& ev.owner_pid == state_owner(m1, line.pid)
                &&& match line.event {
                    crate::strace::Event::Syscall(sc) => {
                        if is_exec_syscall(sc.name@) {
                            &&& ev.kind matches EventKind::ExecProcess(e) && e.re_exec
                                == was_execed(m0, line.pid)
                            &&& m1 == exec_update(m0, line.pid)
                        } else if is_fork_syscall(sc.name@) {
                            match fork_child_of(sc) {
                                Some(c) => if c >= 0 {
                                    ev.kind == EventKind::ForkProcess(
                                        ForkProcessEvent {
                                            child_pid: c,
                                            child_owner_pid: fork_update(
                                                m0,
                                                line.pid,
                                                c,
                                            )[c].owner_pid,
                                        },
                                    ) && m1 == fork_update(m0, line.pid, c)
                                } else {
                                    ev.kind is Log && m1 == m0
                                },
                                None => ev.kind is Log && m1 == m0,
                            }
                        } else {
                            ev.kind is Log && m1 == m0
                        }
                    },
                    crate::strace::Event::Signal { .. } => ev.kind is Log && m1 == m0,
                    crate::strace::Event::Exited(ex) => {
                        &&& ev.kind matches EventKind::StopProcess(st) && st.did_exec
                            == was_execed(m0, line.pid) && (st.stopped matches
                        ProcessStoppedReason::Exited { code } && code == exit_code_of(ex.code@))
                        &&& m1 == stop_update(m0, line.pid)
                    },
                    crate::strace::Event::KilledBy { signal } => {
                        &&& ev.kind matches EventKind::StopProcess(st) && st.did_exec
                            == was_execed(m0, line.pid) && (st.stopped matches
                        ProcessStoppedReason::Killed { signal: sig } && (sig matches Some(sg)
                            && sg@ == killed_signal_prefix(signal@)))
                        &&& m1 == stop_update(m0, line.pid)
                    },
                }
            }),
    {
        let kind: EventKind = match &line.event {
            crate::strace::Event::Syscall(event) => {
                let (n_fork, n_vfork, n_clone, n_clone3) = fork_names();
                let (n_execve, n_execveat) = exec_names();
                let name = event.name.as_slice();
                if bytes_eq(name, n_fork.as_slice()) || bytes_eq(name, n_vfork.as_slice())
                    || bytes_eq(name, n_clone.as_slice()) || bytes_eq(name, n_clone3.as_slice()) {
                    let result = event.result()?;
                    let child: Option<i32> = match result.returned {
                        Some(v) => {
                            proof {
                                lemma_view_string_shapes(v);
                            }
                            v.as_i32()
                        },
                        None => None,
                    };
                    proof {
                        assert(child == fork_child_of(*event));
                    }
                    match child {
                        Some(c) => {
                            if c >= 0 {
                                self.handle_fork(line.pid, c)
                            } else {
                                EventKind::Log
                            }
                        },
                        None => EventKind::Log,
                    }
                } else if bytes_eq(name, n_execve.as_slice()) {
                    let args = event.args()?;
                    let command: Option<Vec<u8>> = match args.value_at_index(0) {
                        Some(v) => v.to_bstring(),
                        None => None,
                    };
                    let exec_args = arg_array(&args, 1);
                    let env = env_array(&args, 2);
                    self.handle_exec(line.pid, ProcessExec { command, args: exec_args, env })
                } else if bytes_eq(name, n_execveat.as_slice()) {
                    let args = event.args()?;
                    let dir: Option<Vec<u8>> = match args.value_at_index(0) {
                        Some(v) => v.to_bstring(),
                        None => None,
                    };
                    let path: Option<Vec<u8>> = match args.value_at_index(1) {
                        Some(v) => v.to_bstring(),
                        None => None,
                    };
                    let command: Option<Vec<u8>> = match (dir, path) {
                        (Some(d), Some(p)) => {
                            let mut joined = d;
                            if p.len() > 0 {
                                joined.push(47);
                                let mut rest = p;
                                joined.append(&mut rest);
                            }
                            Some(joined)
                        },
                        (Some(d), None) => Some(d),
                        (None, Some(p)) => Some(p),
                        (None, None) => None,
                    };
                    let exec_args = arg_array(&args, 2);
                    let env = env_array(&args, 3);
                    self.handle_exec(line.pid, ProcessExec { command, args: exec_args, env })
                } else {
                    EventKind::Log
                }
            },
            crate::strace::Event::Signal { .. } => EventKind::Log,
            crate::strace::Event::Exited(event) => {
                let code_value = event.code()?;
                proof {
                    lemma_view_string_shapes(code_value);
                }
                let stopped = ProcessStoppedReason::Exited { code: code_value.as_i32() };
                self.handle_stopped(line.pid, stopped)
            },
            crate::strace::Event::KilledBy { signal } => {
                let prefix_end = match find_byte(signal.as_slice(), 0, 32) {
                    Some(i) => i,
                    None => signal.len(),
                };
                let sig = copy_range(signal.as_slice(), 0, prefix_end);
                proof {
                    if find_byte_from(signal@, 0, 32) is None {
                        assert(signal@.subrange(0, signal@.len() as int) =~= signal@);
                    }
                }
                let stopped = ProcessStoppedReason::Killed { signal: Some(sig) };
                self.handle_stopped(line.pid, stopped)
            },
        };
        let pid = line.pid;
        let (parent_pid, owner_pid) = match self.processes.get(&pid) {
            Some(st) => (st.parent_pid, st.owner_pid),
            None => (None, None),
        };
        Ok(Event { kind, owner_pid, parent_pid, pid, timestamp: line.timestamp, strace: line })
    }
}

// --- Argument extraction --------------------------------------------------------

/// The sentinel standing in for an argv entry with no byte form.
pub open spec fn unknown_arg() -> Seq<u8> {
    seq![60u8, 117u8, 110u8, 107u8, 110u8, 111u8, 119u8, 110u8, 32u8, 97u8, 114u8, 103u8, 62u8]
}

pub open spec fn arg_bytes(v: Value) -> Seq<u8> {
    match to_bstring_spec(v) {
        Some(b) => b,
        None => unknown_arg(),
    }
}

fn unknown_arg_vec() -> (r: Vec<u8>)
    ensures
        r@ == unknown_arg(),
{
    let v: Vec<u8> = vec![60u8, 117u8, 110u8, 107u8, 110u8, 111u8, 119u8, 110u8, 32u8, 97u8, 114u8, 103u8, 62u8];
    proof {
        assert(v@ =~= unknown_arg());
    }
    v
}

/// The argv list from the field at `index`: present only when that field
/// holds an array, each element rendered by `arg_bytes`.
fn arg_array(args: &Fields, index: usize) -> (r: Option<Vec<Vec<u8>>>)
    ensures
        match r {
            Some(out) => index < args.values@.len() && (args.values@[index as int].value matches
                Value::Array(items) && out@.len() == items@.len() && (forall|i: int|
                0 <= i < out@.len() ==> #[trigger] out@[i]@ == arg_bytes(items@[i]))),
            None => !(index < args.values@.len() && args.values@[index as int].value is Array),
        },
{
    let v = match args.value_at_index(index) {
        Some(v) => v,
        None => {
            return None;
        },
    };
    let items = match v.as_array() {
        Some(items) => items,
        None => {
            return None;
        },
    };
    let mut out: Vec<Vec<u8>> = Vec::new();
    let mut i: usize = 0;
    while i < items.len()
        invariant
            i <= items@.len(),
            out@.len() == i,
            forall|j: int| 0 <= j < i ==> #[trigger] out@[j]@ == arg_bytes(items@[j]),
        decreases items@.len() - i,
    {
        let b = match items[i].to_bstring() {
            Some(b) => b,
            None => unknown_arg_vec(),
        };
        out.push(b);
        i = i + 1;
    }
    Some(out)
}

/// One environment entry: the value's byte form split at its first `=`;
/// entries without a byte form or without `=` are dropped.
pub open spec fn env_entry(v: Value) -> Option<(Seq<u8>, Seq<u8>)> {
    match to_bstring_spec(v) {
        None => None,
        Some(b) => match find_byte_from(b, 0, 61) {
            None => None,
            Some(i) => Some((b.subrange(0, i), b.subrange(i + 1, b.len() as int))),
        },
    }
}

pub open spec fn env_list(vs: Seq<Value>) -> Seq<(Seq<u8>, Seq<u8>)>
    decreases vs.len(),
{
    if vs.len() == 0 {
        Seq::empty()
    } else {
        let rest = env_list(vs.drop_last());
        match env_entry(vs.last()) {
            None => rest,
            Some(e) => rest.push(e),
        }
    }
}

pub open spec fn pairs_view(s: Seq<(Vec<u8>, Vec<u8>)>) -> Seq<(Seq<u8>, Seq<u8>)> {
    Seq::new(s.len(), |i: int| (s[i].0@, s[i].1@))
}

/// The environment from the field at `index`: present only when that
/// field holds an array; the entries are exactly `env_list` of it.
fn env_array(args: &Fields, index: usize) -> (r: Option<Vec<(Vec<u8>, Vec<u8>)>>)
    ensures
        match r {
            Some(out) => index < args.values@.len() && (args.values@[index as int].value matches
                Value::Array(items) && pairs_view(out@) == env_list(items@)),
            None => !(index < args.values@.len() && args.values@[index as int].value is Array),
        },
{
    let v = match args.value_at_index(index) {
        Some(v) => v,
        None => {
            return None;
        },
    };
    let items = match v.as_array() {
        Some(items) => items,
        None => {
            return None;
        },
    };
    let mut out: Vec<(Vec<u8>, Vec<u8>)> = Vec::new();
    let mut i: usize = 0;
    while i < items.len()
        invariant
            i <= items@.len(),
            pairs_view(out@) == env_list(items@.subrange(0, i as int)),
        decreases items@.len() - i,
    {
        let ghost pre = items@.subrange(0, i as int);
        let ghost cur = items@.subrange(0, i + 1 as int);
        proof {
            assert(cur.drop_last() =~= pre);
            assert(cur.last() == items@[i as int]);
        }
        match items[i].to_bstring() {
            None => {},
            Some(b) => {
                match find_byte(b.as_slice(), 0, 61) {
                    None => {},
                    Some(k) => {
                        let bl = b.len();
                        let key = copy_range(b.as_slice(), 0, k);
                        let val = copy_range(b.as_slice(), k + 1, bl);
                        out.push((key, val));
                        proof {
                            assert(pairs_view(out@) =~= env_list(cur));
                        }
                    },
                }
            },
        }
        proof {
            assert(pairs_view(out@) =~= env_list(cur));
        }
        i = i + 1;
    }
    proof {
        assert(items@.subrange(0, items@.len() as int) =~= items@);
    }
    Some(out)
}

// --- Laws of the process model ---------------------------------------------------

/// Law: a fork that introduces `child` records the forker as the child's
/// parent.
pub proof fn lemma_fork_records_parent(m: Map<Pid, ProcessState>, forker: Pid, child: Pid)
    requires
        !m.contains_key(child),
    ensures
        state_parent(fork_update(m, forker, child), child) == Some(forker),
{
}

/// Law: parent links persist: an exec or a stop of any pid, and a fork
/// of a different child, never change an entered parent link.
pub proof fn lemma_parent_link_persists(
    m: Map<Pid, ProcessState>,
    child: Pid,
    pid: Pid,
    forker2: Pid,
    child2: Pid,
)
    requires
        child2 != child,
    ensures
        state_parent(exec_update(m, pid), child) == state_parent(m, child),
        state_parent(stop_update(m, pid), child) == state_parent(m, child),
        state_parent(fork_update(m, forker2, child2), child) == state_parent(m, child),
{
}

/// Law: a process that has exec'd is its own owner for a child it then
/// forks: the owner walk stops at the first Execed ancestor, here the
/// forker itself.
pub proof fn lemma_exec_then_fork_owner(m: Map<Pid, ProcessState>, p: Pid, c: Pid)
    requires
        !exec_update(m, p).contains_key(c),
    ensures
        state_owner(fork_update(exec_update(m, p), p, c), c) == Some(p),
{
    let m1 = exec_update(m, p);
    assert(m1.contains_key(p));
    assert(m1[p].status is Execed);
    assert(owner_of(m1, p) == Some(p));
}

/// Law: re-exec is reported exactly once per transition: right after an
/// exec the pid counts as exec'd (so a second exec is a re-exec), and
/// right after a stop it does not; a pid never entered does not either.
pub proof fn lemma_re_exec_exactly_once(m: Map<Pid, ProcessState>, p: Pid)
    ensures
        was_execed(exec_update(m, p), p),
        !was_execed(stop_update(m, p), p),
        !m.contains_key(p) ==> !was_execed(m, p),
{
}

} // verus!
