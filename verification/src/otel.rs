use vstd::prelude::*;

use std::collections::HashMap;

use crate::Pid;
use crate::bytes::{copy_range, format_i32, signed_dec_ok, signed_dec_value};
use crate::event::{Event, EventKind, ProcessExec, ProcessStoppedReason, command_name_spec};
use crate::strace::parser::{
    exit_code_of, lemma_view_string_shapes, tok_exit_close, tok_exit_open, tok_exited_with,
    tok_killed_by, tok_signal_close, tok_signal_open,
};
use crate::time::Timestamp;

verus! {

broadcast use vstd::std_specs::hash::group_hash_axioms;

#[derive(Debug, Default)]
pub struct OtelOutputOptions {
    pub relative_to: Option<Timestamp>,
}

/// An attribute value handed to the span exporter.
#[derive(Debug, Clone, PartialEq, Eq)]
pub enum OtelValue {
    Int(i64),
    Flag(bool),
    Text(Vec<u8>),
    TextList(Vec<Vec<u8>>),
}

/// The span a command is aimed at or correlated with.
#[derive(Debug, Clone, Copy, PartialEq, Eq, Structural)]
pub enum SpanRef {
    Root,
    Process(Pid),
}

/// One instruction to the span exporter. `StartSpan` replaces the pid's
/// live span; when `ends_replaced` is set the exporter must tag the
/// replaced span `re_exec` and end it at `at`.
#[derive(Debug, PartialEq, Eq)]
pub enum OtelCommand {
    StartRoot { at: Timestamp },
    StartSpan {
        pid: Pid,
        parent: SpanRef,
        name: Vec<u8>,
        attributes: Vec<(Vec<u8>, OtelValue)>,
        at: Timestamp,
        ends_replaced: bool,
    },
    EndSpan { pid: Pid, attributes: Vec<(Vec<u8>, OtelValue)>, at: Timestamp },
    EmitLog {
        context: SpanRef,
        body: Vec<u8>,
        attributes: Vec<(Vec<u8>, OtelValue)>,
        at: Timestamp,
    },
    EndRoot { at: Timestamp },
}

// --- Attribute views -----------------------------------------------------------

#[verifier::ext_equal]
pub enum AttrView {
    VInt(i64),
    VFlag(bool),
    VText(Seq<u8>),
    VTextList(Seq<Seq<u8>>),
}

pub open spec fn value_view(v: OtelValue) -> AttrView {
    match v {
        OtelValue::Int(n) => AttrView::VInt(n),
        OtelValue::Flag(b) => AttrView::VFlag(b),
        OtelValue::Text(t) => AttrView::VText(t@),
        OtelValue::TextList(l) => AttrView::VTextList(
            l@.map_values(|x: Vec<u8>| x@),
        ),
    }
}

pub open spec fn attrs_view(a: Seq<(Vec<u8>, OtelValue)>) -> Seq<(Seq<u8>, AttrView)> {
    a.map_values(|p: (Vec<u8>, OtelValue)| (p.0@, value_view(p.1)))
}

// --- Attribute keys --------------------------------------------------------------

pub open spec fn key_pid() -> Seq<u8> {
    seq![112u8, 105u8, 100u8]  // "pid"
}

pub open spec fn key_parent_pid() -> Seq<u8> {
    seq![112u8, 97u8, 114u8, 101u8, 110u8, 116u8, 95u8, 112u8, 105u8, 100u8]
}

pub open spec fn key_owner_pid() -> Seq<u8> {
    seq![111u8, 119u8, 110u8, 101u8, 114u8, 95u8, 112u8, 105u8, 100u8]
}

pub open spec fn key_command_name() -> Seq<u8> {
    seq![99u8, 111u8, 109u8, 109u8, 97u8, 110u8, 100u8, 95u8, 110u8, 97u8, 109u8, 101u8]
}

pub open spec fn key_command() -> Seq<u8> {
    seq![99u8, 111u8, 109u8, 109u8, 97u8, 110u8, 100u8]
}

pub open spec fn key_args() -> Seq<u8> {
    seq![97u8, 114u8, 103u8, 115u8]
}

pub open spec fn key_env_prefix() -> Seq<u8> {
    seq![101u8, 110u8, 118u8, 46u8]  // "env."
}

pub open spec fn key_exit_code() -> Seq<u8> {
    seq![101u8, 120u8, 105u8, 116u8, 95u8, 99u8, 111u8, 100u8, 101u8]
}

pub open spec fn key_exit_ok() -> Seq<u8> {
    seq![101u8, 120u8, 105u8, 116u8, 95u8, 111u8, 107u8]
}

pub open spec fn key_exit_signal() -> Seq<u8> {
    seq![101u8, 120u8, 105u8, 116u8, 95u8, 115u8, 105u8, 103u8, 110u8, 97u8, 108u8]
}

pub open spec fn key_syscall() -> Seq<u8> {
    seq![115u8, 121u8, 115u8, 99u8, 97u8, 108u8, 108u8]
}

pub open spec fn key_result() -> Seq<u8> {
    seq![114u8, 101u8, 115u8, 117u8, 108u8, 116u8]
}

pub open spec fn key_signal() -> Seq<u8> {
    seq![115u8, 105u8, 103u8, 110u8, 97u8, 108u8]
}

/// The prefix of the fallback span name `process <pid>`.
pub open spec fn process_name_prefix() -> Seq<u8> {
    seq![112u8, 114u8, 111u8, 99u8, 101u8, 115u8, 115u8, 32u8]
}

fn k_pid() -> (r: Vec<u8>)
    ensures
        r@ == key_pid(),
{
    let v: Vec<u8> = vec![112u8, 105u8, 100u8];
    proof {
        assert(v@ =~= key_pid());
    }
    v
}

fn k_parent_pid() -> (r: Vec<u8>)
    ensures
        r@ == key_parent_pid(),
{
    let v: Vec<u8> = vec![112u8, 97u8, 114u8, 101u8, 110u8, 116u8, 95u8, 112u8, 105u8, 100u8];
    proof {
        assert(v@ =~= key_parent_pid());
    }
    v
}

fn k_owner_pid() -> (r: Vec<u8>)
    ensures
        r@ == key_owner_pid(),
{
    let v: Vec<u8> = vec![111u8, 119u8, 110u8, 101u8, 114u8, 95u8, 112u8, 105u8, 100u8];
    proof {
        assert(v@ =~= key_owner_pid());
    }
    v
}

fn k_command_name() -> (r: Vec<u8>)
    ensures
        r@ == key_command_name(),
{
    let v: Vec<u8> = vec![99u8, 111u8, 109u8, 109u8, 97u8, 110u8, 100u8, 95u8, 110u8, 97u8, 109u8, 101u8];
    proof {
        assert(v@ =~= key_command_name());
    }
    v
}

fn k_command() -> (r: Vec<u8>)
    ensures
        r@ == key_command(),
{
    let v: Vec<u8> = vec![99u8, 111u8, 109u8, 109u8, 97u8, 110u8, 100u8];
    proof {
        assert(v@ =~= key_command());
    }
    v
}

fn k_args() -> (r: Vec<u8>)
    ensures
        r@ == key_args(),
{
    let v: Vec<u8> = vec![97u8, 114u8, 103u8, 115u8];
    proof {
        assert(v@ =~= key_args());
    }
    v
}

fn k_env_prefix() -> (r: Vec<u8>)
    ensures
        r@ == key_env_prefix(),
{
    let v: Vec<u8> = vec![101u8, 110u8, 118u8, 46u8];
    proof {
        assert(v@ =~= key_env_prefix());
    }
    v
}

fn k_exit_code() -> (r: Vec<u8>)
    ensures
        r@ == key_exit_code(),
{
    let v: Vec<u8> = vec![101u8, 120u8, 105u8, 116u8, 95u8, 99u8, 111u8, 100u8, 101u8];
    proof {
        assert(v@ =~= key_exit_code());
    }
    v
}

fn k_exit_ok() -> (r: Vec<u8>)
    ensures
        r@ == key_exit_ok(),
{
    let v: Vec<u8> = vec![101u8, 120u8, 105u8, 116u8, 95u8, 111u8, 107u8];
    proof {
        assert(v@ =~= key_exit_ok());
    }
    v
}

fn k_exit_signal() -> (r: Vec<u8>)
    ensures
        r@ == key_exit_signal(),
{
    let v: Vec<u8> = vec![101u8, 120u8, 105u8, 116u8, 95u8, 115u8, 105u8, 103u8, 110u8, 97u8, 108u8];
    proof {
        assert(v@ =~= key_exit_signal());
    }
    v
}

fn k_syscall() -> (r: Vec<u8>)
    ensures
        r@ == key_syscall(),
{
    let v: Vec<u8> = vec![115u8, 121u8, 115u8, 99u8, 97u8, 108u8, 108u8];
    proof {
        assert(v@ =~= key_syscall());
    }
    v
}

fn k_result() -> (r: Vec<u8>)
    ensures
        r@ == key_result(),
{
    let v: Vec<u8> = vec![114u8, 101u8, 115u8, 117u8, 108u8, 116u8];
    proof {
        assert(v@ =~= key_result());
    }
    v
}

fn k_signal() -> (r: Vec<u8>)
    ensures
        r@ == key_signal(),
{
    let v: Vec<u8> = vec![115u8, 105u8, 103u8, 110u8, 97u8, 108u8];
    proof {
        assert(v@ =~= key_signal());
    }
    v
}

fn process_prefix() -> (r: Vec<u8>)
    ensures
        r@ == process_name_prefix(),
{
    let v: Vec<u8> = vec![112u8, 114u8, 111u8, 99u8, 101u8, 115u8, 115u8, 32u8];
    proof {
        assert(v@ =~= process_name_prefix());
    }
    v
}

// --- Attribute models --------------------------------------------------------------

/// The attributes of a started process span: the pid, the parent and
/// owner pids when known, then the command path (with its file name),
/// argument list and environment when the exec call stated them.
pub open spec fn exec_attrs_spec(
    pid: Pid,
    parent_pid: Option<Pid>,
    owner_pid: Option<Pid>,
    pe: ProcessExec,
) -> Seq<(Seq<u8>, AttrView)> {
    let a0 = seq![(key_pid(), AttrView::VInt(pid as i64))];
    let a1 = match parent_pid {
        Some(pp) => a0.push((key_parent_pid(), AttrView::VInt(pp as i64))),
        None => a0,
    };
    let a2 = match owner_pid {
        Some(op) => a1.push((key_owner_pid(), AttrView::VInt(op as i64))),
        None => a1,
    };
    let a3 = match pe.command {
        Some(c) => a2.push((key_command_name(), AttrView::VText(command_name_spec(c@)))).push(
            (key_command(), AttrView::VText(c@)),
        ),
        None => a2,
    };
    let a4 = match pe.args {
        Some(args) => a3.push(
            (key_args(), AttrView::VTextList(args@.map_values(|x: Vec<u8>| x@))),
        ),
        None => a3,
    };
    match pe.env {
        Some(env) => a4 + env_attrs_spec(env@),
        None => a4,
    }
}

pub open spec fn env_attrs_spec(env: Seq<(Vec<u8>, Vec<u8>)>) -> Seq<(Seq<u8>, AttrView)> {
    env.map_values(
        |p: (Vec<u8>, Vec<u8>)| (key_env_prefix() + p.0@, AttrView::VText(p.1@)),
    )
}

/// The attributes attached when a span ends: the exit code and whether it
/// was zero, or a failure flag and the killing signal.
pub open spec fn stop_attrs_spec(reason: ProcessStoppedReason) -> Seq<(Seq<u8>, AttrView)> {
    match reason {
        ProcessStoppedReason::Exited { code } => match code {
            Some(c) => seq![
                (key_exit_code(), AttrView::VInt(c as i64)),
                (key_exit_ok(), AttrView::VFlag(c == 0)),
            ],
            None => Seq::empty(),
        },
        ProcessStoppedReason::Killed { signal } => {
            let a0 = seq![(key_exit_ok(), AttrView::VFlag(false))];
            match signal {
                Some(sig) => a0.push((key_exit_signal(), AttrView::VText(sig@))),
                None => a0,
            }
        },
    }
}

/// The attributes of a log record: the pid, the parent and owner pids
/// when known, then fields mirroring the record body — the syscall name,
/// argument and result text, the signal name, or the exit code when its
/// text parses.
pub open spec fn log_attrs_spec(
    pid: Pid,
    parent_pid: Option<Pid>,
    owner_pid: Option<Pid>,
    e: crate::strace::Event,
) -> Seq<(Seq<u8>, AttrView)> {
    let a0 = seq![(key_pid(), AttrView::VInt(pid as i64))];
    let a1 = match parent_pid {
        Some(pp) => a0.push((key_parent_pid(), AttrView::VInt(pp as i64))),
        None => a0,
    };
    let a2 = match owner_pid {
        Some(op) => a1.push((key_owner_pid(), AttrView::VInt(op as i64))),
        None => a1,
    };
    match e {
        crate::strace::Event::Syscall(sc) => a2.push(
            (key_syscall(), AttrView::VText(sc.name@)),
        ).push((key_args(), AttrView::VText(sc.args@))).push(
            (key_result(), AttrView::VText(sc.result@)),
        ),
        crate::strace::Event::Signal { signal } => a2.push(
            (key_signal(), AttrView::VText(signal@)),
        ),
        crate::strace::Event::Exited(ex) => match exit_code_of(ex.code@) {
            Some(c) => a2.push((key_exit_code(), AttrView::VInt(c as i64))),
            None => a2,
        },
        crate::strace::Event::KilledBy { signal } => a2.push(
            (key_signal(), AttrView::VText(signal@)),
        ),
    }
}

/// The log record's body: a plain rendering of the underlying record.
pub open spec fn log_body_spec(e: crate::strace::Event) -> Seq<u8> {
    match e {
        crate::strace::Event::Syscall(sc) => sc.name@ + seq![40u8] + sc.args@ + seq![
            41u8,
            32u8,
            61u8,
            32u8,
        ] + sc.result@,
        crate::strace::Event::Signal { signal } => tok_signal_open() + signal@
            + tok_signal_close(),
        crate::strace::Event::Exited(ex) => tok_exit_open() + tok_exited_with() + ex.code@
            + tok_exit_close(),
        crate::strace::Event::KilledBy { signal } => tok_exit_open() + tok_killed_by() + signal@
            + tok_exit_close(),
    }
}

/// The log-correlation target: the pid's live span, else the owner's,
/// else the root span.
pub open spec fn log_context_spec(live: Map<Pid, bool>, pid: Pid, owner: Option<Pid>) -> SpanRef {
    if live.contains_key(pid) {
        SpanRef::Process(pid)
    } else {
        match owner {
            Some(o) => if live.contains_key(o) {
                SpanRef::Process(o)
            } else {
                SpanRef::Root
            },
            None => SpanRef::Root,
        }
    }
}

/// The parent of a new process span: the owner's live span, else root.
pub open spec fn parent_ref_spec(live: Map<Pid, bool>, owner: Option<Pid>) -> SpanRef {
    match owner {
        Some(o) => if live.contains_key(o) {
            SpanRef::Process(o)
        } else {
            SpanRef::Root
        },
        None => SpanRef::Root,
    }
}

/// Timestamp rewriting: with a replay base `b`, an event at `t` moves to
/// `b + (t - first)`, clamped to the representable range; otherwise it
/// passes through.
pub open spec fn clamp_i64(v: int) -> i64 {
    if v > i64::MAX {
        i64::MAX
    } else if v < i64::MIN {
        i64::MIN
    } else {
        v as i64
    }
}

pub open spec fn adjust_spec(relative_to: Option<Timestamp>, first: Option<Timestamp>, t: i64) -> i64 {
    match relative_to {
        None => t,
        Some(b) => match first {
            None => t,
            Some(f) => clamp_i64(b.nanos + t - f.nanos),
        },
    }
}

// --- The sink ------------------------------------------------------------------------

/// The remote-span sink: nests one span per exec'd process under a lazy
/// root span, linking parents through owner pids, and optionally
/// correlates one log record per event.
pub struct OtelOutput {
    options: OtelOutputOptions,
    logs: bool,
    live: HashMap<Pid, bool>,
    root_started: bool,
    first_event_timestamp: Option<Timestamp>,
    last_event_timestamp: Option<Timestamp>,
}

impl OtelOutput {
    /// The pids with a live span.
    pub closed spec fn live_spans(&self) -> Map<Pid, bool> {
        self.live@
    }

    pub closed spec fn logs_on(&self) -> bool {
        self.logs
    }

    pub closed spec fn root_started(&self) -> bool {
        self.root_started
    }

    pub closed spec fn relative_to(&self) -> Option<Timestamp> {
        self.options.relative_to
    }

    pub closed spec fn first_ts(&self) -> Option<Timestamp> {
        self.first_event_timestamp
    }

    pub closed spec fn last_ts(&self) -> Option<Timestamp> {
        self.last_event_timestamp
    }

    /// Sets the sink up; `logs` says whether a logger is connected.
    pub fn new(options: OtelOutputOptions, logs: bool) -> (r: OtelOutput)
        ensures
            r.live_spans() == Map::<Pid, bool>::empty(),
            r.logs_on() == logs,
            !r.root_started(),
            r.relative_to() == options.relative_to,
            r.first_ts() is None,
            r.last_ts() is None,
    {
        OtelOutput {
            options,
            logs,
            live: HashMap::new(),
            root_started: false,
            first_event_timestamp: None,
            last_event_timestamp: None,
        }
    }

    /// See `adjust_spec`, applied to the sink's base and first-seen
    /// timestamp.
    fn adjust_timestamp(&self, t: Timestamp) -> (r: Timestamp)
        ensures
            r.nanos == adjust_spec(self.relative_to(), self.first_ts(), t.nanos),
    {
        let b = match self.options.relative_to {
            Some(b) => b,
            None => {
                return t;
            },
        };
        let f = match self.first_event_timestamp {
            Some(f) => f,
            None => {
                return t;
            },
        };
        let v: i128 = b.nanos as i128 + t.nanos as i128 - f.nanos as i128;
        if v > i64::MAX as i128 {
            Timestamp { nanos: i64::MAX }
        } else if v < i64::MIN as i128 {
            Timestamp { nanos: i64::MIN }
        } else {
            Timestamp { nanos: v as i64 }
        }
    }

    /// Turns one event into exporter commands. An exec starts a span for
    /// the pid — named by the command's file name, or `process <pid>` —
    /// parented per `parent_ref_spec`, carrying `exec_attrs_spec`, and
    /// flags the exporter to re-exec-tag and end any replaced span. A
    /// stop ends the pid's span with `stop_attrs_spec` exactly when one
    /// is live. With a logger, every event also yields one log record,
    /// with body `log_body_spec`, correlated per `log_context_spec`. The
    /// root span is started the first time anything needs it.
    pub fn output_event(&mut self, event: Event) -> (r: Vec<OtelCommand>)
        ensures
            final(self).logs_on() == old(self).logs_on(),
            final(self).relative_to() == old(self).relative_to(),
            final(self).first_ts() == Some(
                if old(self).first_ts() is Some {
                    old(self).first_ts()->0
                } else {
                    event.timestamp
                },
            ),
            final(self).last_ts() == Some(event.timestamp),
            old(self).root_started() ==> final(self).root_started(),
            ({
                let first = if old(self).first_ts() is Some {
                    old(self).first_ts()->0
                } else {
                    event.timestamp
                };
                let at = adjust_spec(old(self).relative_to(), Some(first), event.timestamp.nanos);
                let at_root = adjust_spec(old(self).relative_to(), Some(first), first.nanos);
                let logs = old(self).logs_on();
                match event.kind {
                    EventKind::ExecProcess(e) => {
                        let parent = parent_ref_spec(old(self).live_spans(), event.owner_pid);
                        let root_new = parent is Root && !old(self).root_started();
                        let k: int = if root_new {
                            1
                        } else {
                            0
                        };
                        &&& final(self).live_spans() == old(self).live_spans().insert(
                            event.pid,
                            true,
                        )
                        &&& final(self).root_started() == (old(self).root_started() || root_new)
                        &&& r@.len() == k + 1 + (if logs {
                            1int
                        } else {
                            0int
                        })
                        &&& root_new ==> r@[0] == (OtelCommand::StartRoot {
                            at: Timestamp { nanos: at_root },
                        })
                        &&& (r@[k] matches OtelCommand::StartSpan {
                            pid,
                            parent: p,
                            name,
                            attributes,
                            at: t,
                            ends_replaced,
                        } && pid == event.pid && p == parent && t.nanos == at && ends_replaced
                            == old(self).live_spans().contains_key(event.pid) && attrs_view(
                            attributes@,
                        ) == exec_attrs_spec(
                            event.pid,
                            event.parent_pid,
                            event.owner_pid,
                            e.exec_call,
                        ) && (match e.exec_call.command {
                            Some(c) => name@ == command_name_spec(c@),
                            None => name@.len() > 8 && name@.subrange(0, 8)
                                == process_name_prefix() && signed_dec_ok(
                                name@.skip(8),
                            ) && signed_dec_value(name@.skip(8)) == event.pid,
                        }))
                        &&& logs ==> (r@[k + 1] matches OtelCommand::EmitLog {
                            context,
                            body,
                            attributes,
                            at: t,
                        } && context == SpanRef::Process(event.pid) && t.nanos == at && body@
                            == log_body_spec(event.strace.event) && attrs_view(attributes@)
                            == log_attrs_spec(
                            event.pid,
                            event.parent_pid,
                            event.owner_pid,
                            event.strace.event,
                        ))
                    },
                    EventKind::StopProcess(st) => {
                        let was_live = old(self).live_spans().contains_key(event.pid);
                        let e: int = if was_live {
                            1
                        } else {
                            0
                        };
                        let ctx = log_context_spec(
                            final(self).live_spans(),
                            event.pid,
                            event.owner_pid,
                        );
                        let root_new = logs && ctx is Root && !old(self).root_started();
                        let k: int = if root_new {
                            1
                        } else {
                            0
                        };
                        &&& final(self).live_spans() == old(self).live_spans().remove(event.pid)
                        &&& final(self).root_started() == (old(self).root_started() || root_new)
                        &&& r@.len() == e + k + (if logs {
                            1int
                        } else {
                            0int
                        })
                        &&& was_live ==> (r@[0] matches OtelCommand::EndSpan {
                            pid,
                            attributes,
                            at: t,
                        } && pid == event.pid && t.nanos == at && attrs_view(attributes@)
                            == stop_attrs_spec(st.stopped))
                        &&& !was_live ==> (forall|i: int|
                            0 <= i < r@.len() ==> !(#[trigger] r@[i] is EndSpan))
                        &&& root_new ==> r@[e] == (OtelCommand::StartRoot {
                            at: Timestamp { nanos: at_root },
                        })
                        &&& logs ==> (r@[e + k] matches OtelCommand::EmitLog {
                            context,
                            body,
                            attributes,
                            at: t,
                        } && context == ctx && t.nanos == at && body@ == log_body_spec(
                            event.strace.event,
                        ) && attrs_view(attributes@) == log_attrs_spec(
                            event.pid,
                            event.parent_pid,
                            event.owner_pid,
                            event.strace.event,
                        ))
                    },
                    _ => {
                        let ctx = log_context_spec(
                            old(self).live_spans(),
                            event.pid,
                            event.owner_pid,
                        );
                        let root_new = logs && ctx is Root && !old(self).root_started();
                        let k: int = if root_new {
                            1
                        } else {
                            0
                        };
                        &&& final(self).live_spans() == old(self).live_spans()
                        &&& final(self).root_started() == (old(self).root_started() || root_new)
                        &&& r@.len() == k + (if logs {
                            1int
                        } else {
                            0int
                        })
                        &&& root_new ==> r@[0] == (OtelCommand::StartRoot {
                            at: Timestamp { nanos: at_root },
                        })
                        &&& logs ==> (r@[k] matches OtelCommand::EmitLog {
                            context,
                            body,
                            attributes,
                            at: t,
                        } && context == ctx && t.nanos == at && body@ == log_body_spec(
                            event.strace.event,
                        ) && attrs_view(attributes@) == log_attrs_spec(
                            event.pid,
                            event.parent_pid,
                            event.owner_pid,
                            event.strace.event,
                        ))
                    },
                }
            }),
    {
        let first = match self.first_event_timestamp {
            Some(f) => f,
            None => event.timestamp,
        };
        self.first_event_timestamp = Some(first);
        self.last_event_timestamp = Some(event.timestamp);
        let at = self.adjust_timestamp(event.timestamp);
        let at_root = self.adjust_timestamp(first);
        let mut cmds: Vec<OtelCommand> = Vec::new();
        match &event.kind {
            EventKind::ExecProcess(e) => {
                let parent: SpanRef = match event.owner_pid {
                    Some(o) => {
                        if self.live.contains_key(&o) {
                            SpanRef::Process(o)
                        } else {
                            SpanRef::Root
                        }
                    },
                    None => SpanRef::Root,
                };
                let is_root_parent = match parent {
                    SpanRef::Root => true,
                    _ => false,
                };
                if is_root_parent && !self.root_started {
                    self.root_started = true;
                    cmds.push(OtelCommand::StartRoot { at: at_root });
                }
                let name: Vec<u8> = match &e.exec_call.command {
                    Some(c) => crate::event::command_file_name(c),
                    None => {
                        let mut n = process_prefix();
                        let mut digits = format_i32(event.pid);
                        let ghost gd = digits@;
                        n.append(&mut digits);
                        proof {
                            assert(n@.subrange(0, 8) =~= process_name_prefix());
                            assert(n@.skip(8) =~= gd);
                        }
                        n
                    },
                };
                let attributes = build_exec_attrs(
                    event.pid,
                    event.parent_pid,
                    event.owner_pid,
                    &e.exec_call,
                );
                let ends_replaced = self.live.contains_key(&event.pid);
                self.live.insert(event.pid, true);
                cmds.push(
                    OtelCommand::StartSpan {
                        pid: event.pid,
                        parent,
                        name,
                        attributes,
                        at,
                        ends_replaced,
                    },
                );
            },
            EventKind::StopProcess(st) => {
                if self.live.contains_key(&event.pid) {
                    let attributes = build_stop_attrs(&st.stopped);
                    cmds.push(OtelCommand::EndSpan { pid: event.pid, attributes, at });
                }
                self.live.remove(&event.pid);
            },
            _ => {},
        }
        if self.logs {
            let context: SpanRef = if self.live.contains_key(&event.pid) {
                SpanRef::Process(event.pid)
            } else {
                match event.owner_pid {
                    Some(o) => {
                        if self.live.contains_key(&o) {
                            SpanRef::Process(o)
                        } else {
                            SpanRef::Root
                        }
                    },
                    None => SpanRef::Root,
                }
            };
            let is_root_ctx = match context {
                SpanRef::Root => true,
                _ => false,
            };
            if is_root_ctx && !self.root_started {
                self.root_started = true;
                cmds.push(OtelCommand::StartRoot { at: at_root });
            }
            let body = render_log_body(&event.strace.event);
            let attributes = build_log_attrs(&event);
            cmds.push(OtelCommand::EmitLog { context, body, attributes, at });
        }
        cmds
    }

    /// Closes the run: ends the root span, when one was started, at the
    /// last adjusted event timestamp (or, with no events seen, emits
    /// nothing dated — the root cannot have started without an event).
    pub fn shutdown(&mut self) -> (r: Vec<OtelCommand>)
        ensures
            final(self).root_started() == old(self).root_started(),
            !old(self).root_started() ==> r@.len() == 0,
            old(self).root_started() && old(self).last_ts() is None ==> r@.len() == 0,
            old(self).root_started() && old(self).last_ts() is Some ==> r@.len() == 1 && r@[0]
                == (OtelCommand::EndRoot {
                at: Timestamp {
                    nanos: adjust_spec(
                        old(self).relative_to(),
                        old(self).first_ts(),
                        old(self).last_ts()->0.nanos,
                    ),
                },
            }),
    {
        let mut cmds: Vec<OtelCommand> = Vec::new();
        if self.root_started {
            match self.last_event_timestamp {
                Some(last) => {
                    let at = self.adjust_timestamp(last);
                    cmds.push(OtelCommand::EndRoot { at });
                },
                None => {},
            }
        }
        cmds
    }
}

// --- Attribute builders ----------------------------------------------------------

fn clone_bytes(v: &Vec<u8>) -> (r: Vec<u8>)
    ensures
        r@ == v@,
{
    let r = copy_range(v.as_slice(), 0, v.len());
    proof {
        assert(v@.subrange(0, v@.len() as int) =~= v@);
    }
    r
}

fn clone_bytes_list(v: &Vec<Vec<u8>>) -> (r: Vec<Vec<u8>>)
    ensures
        r@.map_values(|x: Vec<u8>| x@) == v@.map_values(|x: Vec<u8>| x@),
{
    let mut out: Vec<Vec<u8>> = Vec::new();
    let mut i: usize = 0;
    while i < v.len()
        invariant
            i <= v@.len(),
            out@.len() == i,
            forall|j: int| 0 <= j < i ==> #[trigger] out@[j]@ == v@[j]@,
        decreases v@.len() - i,
    {
        out.push(clone_bytes(&v[i]));
        i = i + 1;
    }
    proof {
        assert(out@.map_values(|x: Vec<u8>| x@) =~= v@.map_values(|x: Vec<u8>| x@));
    }
    out
}

/// Builds the started span's attributes, exactly per `exec_attrs_spec`.
fn build_exec_attrs(
    pid: Pid,
    parent_pid: Option<Pid>,
    owner_pid: Option<Pid>,
    pe: &ProcessExec,
) -> (r: Vec<(Vec<u8>, OtelValue)>)
    ensures
        attrs_view(r@) == exec_attrs_spec(pid, parent_pid, owner_pid, *pe),
{
    let mut out: Vec<(Vec<u8>, OtelValue)> = Vec::new();
    out.push((k_pid(), OtelValue::Int(pid as i64)));
    match parent_pid {
        Some(pp) => {
            out.push((k_parent_pid(), OtelValue::Int(pp as i64)));
        },
        None => {},
    }
    match owner_pid {
        Some(op) => {
            out.push((k_owner_pid(), OtelValue::Int(op as i64)));
        },
        None => {},
    }
    match &pe.command {
        Some(c) => {
            out.push((k_command_name(), OtelValue::Text(crate::event::command_file_name(c))));
            out.push((k_command(), OtelValue::Text(clone_bytes(c))));
        },
        None => {},
    }
    match &pe.args {
        Some(args) => {
            out.push((k_args(), OtelValue::TextList(clone_bytes_list(args))));
        },
        None => {},
    }
    let ghost head = attrs_view(out@);
    proof {
        assert(attrs_view(out@) =~= head + env_attrs_spec(Seq::empty()));
    }
    match &pe.env {
        Some(env) => {
            proof {
                assert(env_attrs_spec(env@.subrange(0, 0)) =~= env_attrs_spec(Seq::empty()));
            }
            let mut i: usize = 0;
            while i < env.len()
                invariant
                    i <= env@.len(),
                    attrs_view(out@) == head + env_attrs_spec(env@.subrange(0, i as int)),
                decreases env@.len() - i,
            {
                proof {
                    // Materialize the lengths the element-wise proof below
                    // rests on.
                    assert(env_attrs_spec(env@.subrange(0, i as int)).len() == i);
                    assert(attrs_view(out@).len() == head.len() + i);
                }
                let mut key = k_env_prefix();
                let mut name = clone_bytes(&env[i].0);
                key.append(&mut name);
                let ghost gkey = key@;
                let val = clone_bytes(&env[i].1);
                let ghost gval = val@;
                let ghost pre = out@;
                out.push((key, OtelValue::Text(val)));
                proof {
                    let lhs = attrs_view(out@);
                    let rhs = head + env_attrs_spec(env@.subrange(0, i + 1 as int));
                    assert(out@ == pre.push((out@[pre.len() as int].0, out@[pre.len() as int].1)));
                    assert(lhs.len() == rhs.len());
                    assert forall|j: int| 0 <= j < lhs.len() implies lhs[j] == rhs[j] by {
                        if j < pre.len() {
                            assert(out@[j] == pre[j]);
                            assert(lhs[j] == attrs_view(pre)[j]);
                        } else {
                            assert(env@.subrange(0, i + 1 as int)[i as int] == env@[i as int]);
                            assert(lhs[j] == (gkey, AttrView::VText(gval)));
                            assert(gkey == key_env_prefix() + env@[i as int].0@);
                        }
                        if pre.len() <= j && j + 1 < lhs.len() {
                            assert(false);
                        }
                        if head.len() <= j < pre.len() {
                            assert(env@.subrange(0, i + 1 as int)[j - head.len()] == env@.subrange(
                                0,
                                i as int,
                            )[j - head.len()]);
                        }
                    }
                    assert(lhs =~= rhs);
                }
                i = i + 1;
            }
            proof {
                assert(env@.subrange(0, env@.len() as int) =~= env@);
            }
        },
        None => {},
    }
    proof {
        assert(attrs_view(out@) =~= exec_attrs_spec(pid, parent_pid, owner_pid, *pe));
    }
    out
}

/// Builds the ending span's attributes, exactly per `stop_attrs_spec`.
fn build_stop_attrs(reason: &ProcessStoppedReason) -> (r: Vec<(Vec<u8>, OtelValue)>)
    ensures
        attrs_view(r@) == stop_attrs_spec(*reason),
{
    let mut out: Vec<(Vec<u8>, OtelValue)> = Vec::new();
    match reason {
        ProcessStoppedReason::Exited { code } => {
            match code {
                Some(c) => {
                    out.push((k_exit_code(), OtelValue::Int(*c as i64)));
                    out.push((k_exit_ok(), OtelValue::Flag(*c == 0)));
                },
                None => {},
            }
        },
        ProcessStoppedReason::Killed { signal } => {
            out.push((k_exit_ok(), OtelValue::Flag(false)));
            match signal {
                Some(sig) => {
                    out.push((k_exit_signal(), OtelValue::Text(clone_bytes(sig))));
                },
                None => {},
            }
        },
    }
    proof {
        assert(attrs_view(out@) =~~= stop_attrs_spec(*reason));
    }
    out
}

/// Renders the log body, exactly per `log_body_spec`.
fn render_log_body(e: &crate::strace::Event) -> (r: Vec<u8>)
    ensures
        r@ == log_body_spec(*e),
{
    let mut out: Vec<u8> = Vec::new();
    match e {
        crate::strace::Event::Syscall(sc) => {
            let mut part = clone_bytes(&sc.name);
            out.append(&mut part);
            out.push(40);
            let mut part = clone_bytes(&sc.args);
            out.append(&mut part);
            out.push(41);
            out.push(32);
            out.push(61);
            out.push(32);
            let mut part = clone_bytes(&sc.result);
            out.append(&mut part);
            proof {
                assert(out@ =~= log_body_spec(*e));
            }
        },
        crate::strace::Event::Signal { signal } => {
            let mut part = crate::strace::parser::signal_open();
            out.append(&mut part);
            let mut part = clone_bytes(signal);
            out.append(&mut part);
            let mut part = crate::strace::parser::signal_close();
            out.append(&mut part);
            proof {
                assert(out@ =~= log_body_spec(*e));
            }
        },
        crate::strace::Event::Exited(ex) => {
            let mut part = crate::strace::parser::exit_open();
            out.append(&mut part);
            let mut part = crate::strace::parser::exited_with();
            out.append(&mut part);
            let mut part = clone_bytes(&ex.code);
            out.append(&mut part);
            let mut part = crate::strace::parser::exit_close();
            out.append(&mut part);
            proof {
                assert(out@ =~= log_body_spec(*e));
            }
        },
        crate::strace::Event::KilledBy { signal } => {
            let mut part = crate::strace::parser::exit_open();
            out.append(&mut part);
            let mut part = crate::strace::parser::killed_by();
            out.append(&mut part);
            let mut part = clone_bytes(signal);
            out.append(&mut part);
            let mut part = crate::strace::parser::exit_close();
            out.append(&mut part);
            proof {
                assert(out@ =~= log_body_spec(*e));
            }
        },
    }
    out
}

/// Builds the log record's attributes, exactly per `log_attrs_spec`.
fn build_log_attrs(event: &Event) -> (r: Vec<(Vec<u8>, OtelValue)>)
    ensures
        attrs_view(r@) == log_attrs_spec(
            event.pid,
            event.parent_pid,
            event.owner_pid,
            event.strace.event,
        ),
{
    let mut out: Vec<(Vec<u8>, OtelValue)> = Vec::new();
    out.push((k_pid(), OtelValue::Int(event.pid as i64)));
    match event.parent_pid {
        Some(pp) => {
            out.push((k_parent_pid(), OtelValue::Int(pp as i64)));
        },
        None => {},
    }
    match event.owner_pid {
        Some(op) => {
            out.push((k_owner_pid(), OtelValue::Int(op as i64)));
        },
        None => {},
    }
    match &event.strace.event {
        crate::strace::Event::Syscall(sc) => {
            out.push((k_syscall(), OtelValue::Text(clone_bytes(&sc.name))));
            out.push((k_args(), OtelValue::Text(clone_bytes(&sc.args))));
            out.push((k_result(), OtelValue::Text(clone_bytes(&sc.result))));
        },
        crate::strace::Event::Signal { signal } => {
            out.push((k_signal(), OtelValue::Text(clone_bytes(signal))));
        },
        crate::strace::Event::Exited(ex) => {
            match ex.code() {
                Ok(v) => {
                    proof {
                        lemma_view_string_shapes(v);
                    }
                    match v.as_i32() {
                        Some(c) => {
                            out.push((k_exit_code(), OtelValue::Int(c as i64)));
                        },
                        None => {},
                    }
                },
                Err(_) => {},
            }
        },
        crate::strace::Event::KilledBy { signal } => {
            out.push((k_signal(), OtelValue::Text(clone_bytes(signal))));
        },
    }
    proof {
        assert(attrs_view(out@) =~= log_attrs_spec(
            event.pid,
            event.parent_pid,
            event.owner_pid,
            event.strace.event,
        ));
    }
    out
}

} // verus!
