use vstd::prelude::*;

use std::collections::HashMap;

use crate::Pid;
use crate::event::{Event, EventKind, ProcessExec, command_name_spec};

verus! {

broadcast use vstd::std_specs::hash::group_hash_axioms;

#[derive(Debug, Default)]
pub struct PerfettoOutputOptions {
    pub logs: bool,
}

/// One packet of the columnar trace stream, as this sink decides it: the
/// track bookkeeping and slice lifecycle. Field names, wire tags and the
/// fixed display strings belong to the writer that encodes these.
#[derive(Debug, Clone, PartialEq, Eq)]
pub enum Packet {
    RootTrackDescriptor { uuid: u64 },
    TrackDescriptor { at: u64, uuid: u64, parent_uuid: Option<u64> },
    SliceBegin { at: u64, track_uuid: u64, name: Option<Vec<u8>>, annotations: ProcessExec },
    SliceEnd { at: u64, track_uuid: u64 },
    LogInstant { at: u64, track_uuid: Option<u64>, body_iid: u64, body: Vec<u8> },
}

/// Relies on rand::random for `u64`: an arbitrary 64-bit value; nothing
/// is assumed of it.
#[verifier::external_body]
fn random_u64() -> u64 {
    rand::random()
}

/// Whether `ps[i]` is the interned log packet for `line` at `ts`, bound
/// to the root track and the interned-body id `iid`.
pub open spec fn is_log_packet(
    ps: Seq<Packet>,
    i: int,
    ts: u64,
    root: Option<u64>,
    iid: u64,
    line: Seq<u8>,
) -> bool {
    0 <= i < ps.len() && (ps[i] matches Packet::LogInstant { at, track_uuid, body_iid, body }
        && at == ts && track_uuid == root && body_iid == iid && body@ == line + seq![10u8])
}

/// The flame-chart sink: tracks per-pid slice lifecycles and, when logs
/// are enabled, an interned log instant per event on a root track.
pub struct PerfettoOutput {
    options: PerfettoOutputOptions,
    trusted_packet_sequence_id: u64,
    track_uuids_by_pid: HashMap<Pid, u64>,
    log_body_iid: u64,
    pending: Vec<Packet>,
    root_track_uuid: Option<u64>,
}

impl PerfettoOutput {
    /// The live track of each pid.
    pub closed spec fn tracks(&self) -> Map<Pid, u64> {
        self.track_uuids_by_pid@
    }

    pub closed spec fn logs_enabled(&self) -> bool {
        self.options.logs
    }

    pub closed spec fn root_uuid(&self) -> Option<u64> {
        self.root_track_uuid
    }

    pub closed spec fn next_log_iid(&self) -> u64 {
        self.log_body_iid
    }

    pub closed spec fn pending_packets(&self) -> Seq<Packet> {
        self.pending@
    }

    pub closed spec fn sequence_id(&self) -> u64 {
        self.trusted_packet_sequence_id
    }

    /// Sets the sink up; with logs enabled a root track is created, whose
    /// descriptor is flushed along with the first event's packets.
    pub fn new(options: PerfettoOutputOptions) -> (r: PerfettoOutput)
        ensures
            r.logs_enabled() == options.logs,
            r.tracks() == Map::<Pid, u64>::empty(),
            r.next_log_iid() == 1,
            r.root_uuid() is Some <==> options.logs,
            options.logs ==> r.pending_packets().len() == 1 && r.pending_packets()[0]
                == (Packet::RootTrackDescriptor { uuid: r.root_uuid()->0 }),
            !options.logs ==> r.pending_packets().len() == 0,
    {
        let trusted_packet_sequence_id = random_u64();
        let mut pending: Vec<Packet> = Vec::new();
        let root_track_uuid: Option<u64> = if options.logs {
            let u = random_u64();
            pending.push(Packet::RootTrackDescriptor { uuid: u });
            Some(u)
        } else {
            None
        };
        PerfettoOutput {
            options,
            trusted_packet_sequence_id,
            track_uuids_by_pid: HashMap::new(),
            log_body_iid: 1,
            pending,
            root_track_uuid,
        }
    }

    /// The fixed trusted-sequence id the writer stamps on every packet.
    pub fn trusted_sequence_id(&self) -> (r: u64)
        ensures
            r == self.sequence_id(),
    {
        self.trusted_packet_sequence_id
    }

    /// Turns one event into the packets to write, in order (any packets
    /// still pending from setup come first). Track uuids are assigned
    /// lazily, on an exec only: a re-exec first ends the pid's current
    /// slice and then replaces its track with a fresh one; every exec
    /// emits the track descriptor (parented to the root track) and a
    /// slice begin named by the command's file name and annotated with
    /// the exec call. A stop ends the pid's slice and drops its track —
    /// when one is live; a stop for a pid that never exec'd, a fork and
    /// a log leave the tracks untouched and emit no slice packet. With
    /// logs enabled every event also carries one interned log instant
    /// holding the raw line plus a newline, on the root track.
    pub fn output_event(&mut self, event: Event) -> (r: Vec<Packet>)
        requires
            event.timestamp.nanos >= 0,
        ensures
            final(self).logs_enabled() == old(self).logs_enabled(),
            final(self).root_uuid() == old(self).root_uuid(),
            final(self).sequence_id() == old(self).sequence_id(),
            final(self).pending_packets().len() == 0,
            old(self).logs_enabled() ==> final(self).next_log_iid() == (if old(self).next_log_iid()
                == u64::MAX {
                u64::MAX
            } else {
                (old(self).next_log_iid() + 1) as u64
            }),
            !old(self).logs_enabled() ==> final(self).next_log_iid() == old(self).next_log_iid(),
            ({
                let ts = event.timestamp.nanos as u64;
                let logs = old(self).logs_enabled();
                let base = old(self).pending_packets();
                let k = base.len() as int;
                let extra: int = if logs {
                    1
                } else {
                    0
                };
                let known = old(self).tracks().contains_key(event.pid);
                &&& r@.subrange(0, k) == base
                &&& match event.kind {
                    EventKind::ExecProcess(e) => {
                        let re: int = if e.re_exec && known {
                            1
                        } else {
                            0
                        };
                        let tu = final(self).tracks()[event.pid];
                        &&& final(self).tracks().contains_key(event.pid)
                        &&& final(self).tracks().remove(event.pid) == old(self).tracks().remove(
                            event.pid,
                        )
                        &&& (!e.re_exec && known) ==> tu == old(self).tracks()[event.pid]
                        &&& r@.len() == k + re + 2 + extra
                        &&& (e.re_exec && known) ==> r@[k] == (Packet::SliceEnd {
                            at: ts,
                            track_uuid: old(self).tracks()[event.pid],
                        })
                        &&& r@[k + re] == (Packet::TrackDescriptor {
                            at: ts,
                            uuid: tu,
                            parent_uuid: old(self).root_uuid(),
                        })
                        &&& (r@[k + re + 1] matches Packet::SliceBegin {
                            at,
                            track_uuid,
                            name,
                            annotations,
                        } && at == ts && track_uuid == tu && annotations == e.exec_call && (
                        match e.exec_call.command {
                            Some(c) => name matches Some(n) && n@ == command_name_spec(c@),
                            None => name is None,
                        }))
                        &&& logs ==> is_log_packet(
                            r@,
                            k + re + 2,
                            ts,
                            old(self).root_uuid(),
                            old(self).next_log_iid(),
                            event.strace.line@,
                        )
                    },
                    EventKind::StopProcess(_) => {
                        &&& known ==> final(self).tracks() == old(self).tracks().remove(event.pid)
                            && r@.len() == k + extra + 1 && r@[k + extra] == (Packet::SliceEnd {
                            at: ts,
                            track_uuid: old(self).tracks()[event.pid],
                        })
                        &&& !known ==> final(self).tracks() == old(self).tracks() && r@.len() == k
                            + extra
                        &&& logs ==> is_log_packet(
                            r@,
                            k,
                            ts,
                            old(self).root_uuid(),
                            old(self).next_log_iid(),
                            event.strace.line@,
                        )
                    },
                    _ => {
                        &&& final(self).tracks() == old(self).tracks()
                        &&& r@.len() == k + extra
                        &&& logs ==> is_log_packet(
                            r@,
                            k,
                            ts,
                            old(self).root_uuid(),
                            old(self).next_log_iid(),
                            event.strace.line@,
                        )
                    },
                }
            }),
    {
        let pid = event.pid;
        let prev_track: Option<u64> = if self.track_uuids_by_pid.contains_key(&pid) {
            match self.track_uuids_by_pid.get(&pid) {
                Some(u) => Some(*u),
                None => None,
            }
        } else {
            None
        };
        let ts: u64 = event.timestamp.as_nanosecond() as u64;
        let log_packet: Option<Packet> = if self.options.logs {
            let iid = self.log_body_iid;
            self.log_body_iid = if iid == u64::MAX {
                u64::MAX
            } else {
                iid + 1
            };
            let mut body = crate::bytes::copy_range(
                event.strace.line.as_slice(),
                0,
                event.strace.line.len(),
            );
            body.push(10);
            proof {
                assert(event.strace.line@.subrange(0, event.strace.line@.len() as int)
                    =~= event.strace.line@);
                assert(body@ =~= event.strace.line@ + seq![10u8]);
            }
            Some(
                Packet::LogInstant {
                    at: ts,
                    track_uuid: self.root_track_uuid,
                    body_iid: iid,
                    body,
                },
            )
        } else {
            None
        };
        match event.kind {
            EventKind::ExecProcess(e) => {
                let track: u64 = if e.re_exec {
                    match prev_track {
                        Some(old_track) => {
                            self.pending.push(Packet::SliceEnd { at: ts, track_uuid: old_track });
                        },
                        None => {},
                    }
                    random_u64()
                } else {
                    match prev_track {
                        Some(old_track) => old_track,
                        None => random_u64(),
                    }
                };
                self.track_uuids_by_pid.insert(pid, track);
                let name = e.exec_call.command_name();
                self.pending.push(
                    Packet::TrackDescriptor {
                        at: ts,
                        uuid: track,
                        parent_uuid: self.root_track_uuid,
                    },
                );
                self.pending.push(
                    Packet::SliceBegin {
                        at: ts,
                        track_uuid: track,
                        name,
                        annotations: e.exec_call,
                    },
                );
                match log_packet {
                    Some(lp) => {
                        self.pending.push(lp);
                    },
                    None => {},
                }
            },
            EventKind::StopProcess(_) => {
                match log_packet {
                    Some(lp) => {
                        self.pending.push(lp);
                    },
                    None => {},
                }
                match prev_track {
                    Some(old_track) => {
                        self.track_uuids_by_pid.remove(&pid);
                        self.pending.push(Packet::SliceEnd { at: ts, track_uuid: old_track });
                    },
                    None => {},
                }
            },
            _ => {
                match log_packet {
                    Some(lp) => {
                        self.pending.push(lp);
                    },
                    None => {},
                }
            },
        }
        let mut out: Vec<Packet> = Vec::new();
        core::mem::swap(&mut out, &mut self.pending);
        proof {
            assert(out@.subrange(0, old(self).pending_packets().len() as int) =~= old(
                self,
            ).pending_packets());
        }
        out
    }
}

} // verus!
