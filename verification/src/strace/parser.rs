use vstd::prelude::*;
use vstd::slice::slice_subrange;
use vstd::slice::slice_to_vec;

use crate::bytes::{
    advance_spaces, advance_spaces_to, skip_spaces, all_ascii_digits, copy_range, dec_value, find_byte, find_byte_from,
    is_ascii_digit, is_space, lemma_dec_value_bound, lemma_pow10_mono, lemma_pow10_values,
    match_at, parse_i32, parse_i64, pow10, pow10_u32, retreat_spaces_from, signed_dec_ok,
    signed_dec_value, skip_spaces_to, starts_with_at, trim_end_from,
};
use crate::strace::{BinaryOperator, Event, ExitedEvent, Field, Fields, Line, SyscallEvent, Value};
use crate::time::{Duration, Timestamp};

verus! {

// --- Errors ---------------------------------------------------------------

/// A scan or parse failure: the byte range of the offending text, relative
/// to the input handed to the failing function, and a fixed description.
#[derive(Debug, Clone)]
pub struct StraceParseError {
    pub offset: usize,
    pub length: usize,
    pub message: &'static str,
}

impl StraceParseError {
    pub fn new(offset: usize, length: usize, message: &'static str) -> (r: StraceParseError)
        ensures
            r.offset == offset,
            r.length == length,
            r.message@ == message@,
    {
        StraceParseError { offset, length, message }
    }
}

// --- Fixed tokens ---------------------------------------------------------

pub open spec fn tok_exit_open() -> Seq<u8> {
    seq![43u8, 43u8, 43u8, 32u8]  // "+++ "
}

pub open spec fn tok_exit_close() -> Seq<u8> {
    seq![32u8, 43u8, 43u8, 43u8]  // " +++"
}

pub open spec fn tok_signal_open() -> Seq<u8> {
    seq![45u8, 45u8, 45u8, 32u8]  // "--- "
}

pub open spec fn tok_signal_close() -> Seq<u8> {
    seq![32u8, 45u8, 45u8, 45u8]  // " ---"
}

pub open spec fn tok_exited_with() -> Seq<u8> {
    // "exited with "
    seq![101u8, 120u8, 105u8, 116u8, 101u8, 100u8, 32u8, 119u8, 105u8, 116u8, 104u8, 32u8]
}

pub open spec fn tok_killed_by() -> Seq<u8> {
    // "killed by "
    seq![107u8, 105u8, 108u8, 108u8, 101u8, 100u8, 32u8, 98u8, 121u8, 32u8]
}

pub open spec fn tok_space_lt() -> Seq<u8> {
    seq![32u8, 60u8]  // " <"
}

pub open spec fn tok_space_eq() -> Seq<u8> {
    seq![32u8, 61u8, 32u8]  // " = "
}

pub(crate) fn exit_open() -> (r: Vec<u8>)
    ensures
        r@ == tok_exit_open(),
{
    let v: Vec<u8> = vec![43u8, 43u8, 43u8, 32u8];
    proof {
        assert(v@ =~= tok_exit_open());
    }
    v
}

pub(crate) fn exit_close() -> (r: Vec<u8>)
    ensures
        r@ == tok_exit_close(),
{
    let v: Vec<u8> = vec![32u8, 43u8, 43u8, 43u8];
    proof {
        assert(v@ =~= tok_exit_close());
    }
    v
}

pub(crate) fn signal_open() -> (r: Vec<u8>)
    ensures
        r@ == tok_signal_open(),
{
    let v: Vec<u8> = vec![45u8, 45u8, 45u8, 32u8];
    proof {
        assert(v@ =~= tok_signal_open());
    }
    v
}

pub(crate) fn signal_close() -> (r: Vec<u8>)
    ensures
        r@ == tok_signal_close(),
{
    let v: Vec<u8> = vec![32u8, 45u8, 45u8, 45u8];
    proof {
        assert(v@ =~= tok_signal_close());
    }
    v
}

pub(crate) fn exited_with() -> (r: Vec<u8>)
    ensures
        r@ == tok_exited_with(),
{
    let v: Vec<u8> = vec![101u8, 120u8, 105u8, 116u8, 101u8, 100u8, 32u8, 119u8, 105u8, 116u8, 104u8, 32u8];
    proof {
        assert(v@ =~= tok_exited_with());
    }
    v
}

pub(crate) fn killed_by() -> (r: Vec<u8>)
    ensures
        r@ == tok_killed_by(),
{
    let v: Vec<u8> = vec![107u8, 105u8, 108u8, 108u8, 101u8, 100u8, 32u8, 98u8, 121u8, 32u8];
    proof {
        assert(v@ =~= tok_killed_by());
    }
    v
}

fn space_lt() -> (r: Vec<u8>)
    ensures
        r@ == tok_space_lt(),
{
    let v: Vec<u8> = vec![32u8, 60u8];
    proof {
        assert(v@ =~= tok_space_lt());
    }
    v
}

fn space_eq() -> (r: Vec<u8>)
    ensures
        r@ == tok_space_eq(),
{
    let v: Vec<u8> = vec![32u8, 61u8, 32u8];
    proof {
        assert(v@ =~= tok_space_eq());
    }
    v
}

// --- Bounded right-to-left search ------------------------------------------

/// Last index in `[lo, i]` where `pat` occurs in `s`.
pub open spec fn rfind_in_from(s: Seq<u8>, pat: Seq<u8>, lo: int, i: int) -> Option<int>
    decreases i - lo + 1,
{
    if i < lo {
        None
    } else if match_at(s, pat, i) {
        Some(i)
    } else {
        rfind_in_from(s, pat, lo, i - 1)
    }
}

/// Last occurrence of `pat` that lies wholly inside `s[lo..hi]`.
pub open spec fn rfind_in(s: Seq<u8>, pat: Seq<u8>, lo: int, hi: int) -> Option<int> {
    rfind_in_from(s, pat, lo, hi - pat.len())
}

fn rfind_pat_in(s: &[u8], pat: &[u8], lo: usize, hi: usize) -> (r: Option<usize>)
    requires
        lo <= hi <= s@.len(),
    ensures
        match r {
            Some(j) => rfind_in(s@, pat@, lo as int, hi as int) == Some(j as int),
            None => rfind_in(s@, pat@, lo as int, hi as int) is None,
        },
{
    if hi - lo < pat.len() {
        proof {
            lemma_rfind_in_below(s@, pat@, lo as int, hi - pat@.len());
        }
        return None;
    }
    let mut i: usize = hi - pat.len();
    loop
        invariant
            lo <= i,
            i + pat@.len() <= hi <= s@.len(),
            rfind_in(s@, pat@, lo as int, hi as int) == rfind_in_from(s@, pat@, lo as int, i as int),
        decreases i + 1,
    {
        if starts_with_at(s, i, pat) {
            return Some(i);
        }
        if i == lo {
            proof {
                lemma_rfind_in_below(s@, pat@, lo as int, lo - 1);
            }
            return None;
        }
        i = i - 1;
    }
}

proof fn lemma_rfind_in_below(s: Seq<u8>, pat: Seq<u8>, lo: int, i: int)
    requires
        i < lo,
    ensures
        rfind_in_from(s, pat, lo, i) is None,
{
}

proof fn lemma_rfind_in_props(s: Seq<u8>, pat: Seq<u8>, lo: int, i: int)
    requires
        rfind_in_from(s, pat, lo, i) is Some,
    ensures
        ({
            let j = rfind_in_from(s, pat, lo, i)->Some_0;
            lo <= j <= i && match_at(s, pat, j)
        }),
    decreases i - lo + 1,
{
    if i >= lo && !match_at(s, pat, i) {
        lemma_rfind_in_props(s, pat, lo, i - 1);
    }
}

// --- Fractional seconds ----------------------------------------------------

/// The nanosecond count that a run of fraction digits denotes, scaled to
/// nine places, rounded half-up at the tenth digit, and clamped below one
/// second.
pub open spec fn frac_nanos(frac: Seq<u8>) -> int {
    if frac.len() <= 9 {
        dec_value(frac) * pow10((9 - frac.len()) as nat)
    } else {
        let head = dec_value(frac.subrange(0, 9));
        let rounded = if frac[9] >= 53 {
            head + 1
        } else {
            head
        };
        if rounded > 999_999_999 {
            999_999_999
        } else {
            rounded
        }
    }
}

/// A duration token `seconds[.fraction]`: seconds is a signed decimal that
/// fits an `i64`; the fraction, when present, is one or more digits.
pub open spec fn duration_model(t: Seq<u8>) -> Option<(int, int)> {
    match find_byte_from(t, 0, 46) {
        Some(d) => {
            let secs = t.subrange(0, d);
            let frac = t.subrange(d + 1, t.len() as int);
            if signed_dec_ok(secs) && i64::MIN <= signed_dec_value(secs) <= i64::MAX && frac.len()
                > 0 && all_ascii_digits(frac) {
                Some((signed_dec_value(secs), frac_nanos(frac)))
            } else {
                None
            }
        },
        None => {
            if signed_dec_ok(t) && i64::MIN <= signed_dec_value(t) <= i64::MAX {
                Some((signed_dec_value(t), 0))
            } else {
                None
            }
        },
    }
}

/// Parses a duration token, yielding whole seconds and fraction
/// nanoseconds exactly as `duration_model` describes.
fn parse_duration_tok(t: &[u8]) -> (r: Option<(i64, u32)>)
    ensures
        match r {
            Some((secs, nanos)) => duration_model(t@) == Some((secs as int, nanos as int)) && nanos
                < 1_000_000_000,
            None => duration_model(t@) is None,
        },
{
    let tl = t.len();
    match find_byte(t, 0, 46) {
        Some(d) => {
            let secs_slice = slice_subrange(t, 0, d);
            let secs = match parse_i64(secs_slice) {
                Some(v) => v,
                None => {
                    return None;
                },
            };
            let nanos = match parse_frac(t, d + 1) {
                Some(n) => n,
                None => {
                    return None;
                },
            };
            Some((secs, nanos))
        },
        None => {
            match parse_i64(t) {
                Some(v) => Some((v, 0)),
                None => None,
            }
        },
    }
}

/// Reads the fraction digits `t[lo..]`, requiring at least one digit and
/// nothing but digits, and scales them to nanoseconds per `frac_nanos`.
fn parse_frac(t: &[u8], lo: usize) -> (r: Option<u32>)
    requires
        lo <= t@.len(),
    ensures
        ({
            let frac = t@.subrange(lo as int, t@.len() as int);
            match r {
                Some(n) => frac.len() > 0 && all_ascii_digits(frac) && n == frac_nanos(frac) && n
                    < 1_000_000_000,
                None => !(frac.len() > 0 && all_ascii_digits(frac)),
            }
        }),
{
    let ghost frac = t@.subrange(lo as int, t@.len() as int);
    let len = t.len();
    if lo == len {
        return None;
    }
    // Verify every byte is a digit.
    let mut i: usize = lo;
    while i < len
        invariant
            lo <= i <= len == t@.len(),
            frac == t@.subrange(lo as int, t@.len() as int),
            forall|j: int| lo <= j < i ==> is_ascii_digit(#[trigger] t@[j]),
        decreases len - i,
    {
        let b: u8 = t[i];
        if !(48 <= b && b <= 57) {
            proof {
                assert(!is_ascii_digit(frac[i - lo]));
            }
            return None;
        }
        i = i + 1;
    }
    proof {
        assert(all_ascii_digits(frac)) by {
            assert(forall|j: int| 0 <= j < frac.len() ==> #[trigger] frac[j] == t@[lo + j]);
        }
    }
    // Accumulate the first nine digits.
    let head_end: usize = if len - lo <= 9 {
        len
    } else {
        lo + 9
    };
    let mut acc: u32 = 0;
    let mut k: usize = lo;
    while k < head_end
        invariant
            lo <= k <= head_end <= len == t@.len(),
            head_end - lo <= 9,
            all_ascii_digits(frac),
            frac == t@.subrange(lo as int, t@.len() as int),
            acc == dec_value(t@.subrange(lo as int, k as int)),
            acc < pow10((k - lo) as nat),
        decreases head_end - k,
    {
        let b: u8 = t[k];
        proof {
            lemma_pow10_values();
            lemma_pow10_mono((k - lo) as nat, 8);
            let p = t@.subrange(lo as int, k + 1 as int);
            assert(p.drop_last() =~= t@.subrange(lo as int, k as int));
            assert(is_ascii_digit(frac[k - lo]));
            assert(frac[k - lo] == t@[k as int]);
        }
        acc = acc * 10 + (b - 48) as u32;
        k = k + 1;
    }
    proof {
        lemma_pow10_values();
        lemma_pow10_mono((head_end - lo) as nat, 9);
    }
    if len - lo <= 9 {
        // Scale to nine places.
        let scale = pow10_u32((9 - (len - lo)) as u32);
        proof {
            lemma_pow10_values();
            crate::bytes::lemma_pow10_add((len - lo) as nat, (9 - (len - lo)) as nat);
            assert(t@.subrange(lo as int, len as int) =~= frac);
            assert(acc * scale < 1_000_000_000) by (nonlinear_arith)
                requires
                    0 <= acc < pow10(frac.len()),
                    scale == pow10((9 - frac.len()) as nat),
                    pow10(frac.len()) * pow10((9 - frac.len()) as nat) == 1_000_000_000,
                    scale >= 1,
            {}
        }
        let n = acc * scale;
        Some(n)
    } else {
        // Round at the tenth digit and clamp.
        proof {
            assert(t@.subrange(lo as int, head_end as int) =~= frac.subrange(0, 9));
            lemma_dec_value_bound(frac.subrange(0, 9));
            lemma_pow10_values();
            assert(frac[9] == t@[lo + 9]);
        }
        let tenth: u8 = t[lo + 9];
        let rounded: u32 = if tenth >= 53 {
            acc + 1
        } else {
            acc
        };
        let n = if rounded > 999_999_999 {
            999_999_999
        } else {
            rounded
        };
        Some(n)
    }
}

// --- The line model ---------------------------------------------------------

/// What a well-formed line denotes: the header values and the body fields,
/// as mathematical values.
pub struct LineModel {
    pub pid: int,
    pub timestamp: int,
    pub body: BodyModel,
}

pub enum BodyModel {
    Syscall { name: Seq<u8>, args: Seq<u8>, result: Seq<u8>, dur_secs: int, dur_nanos: int },
    Signal { signal: Seq<u8> },
    Exited { code: Seq<u8> },
    KilledBy { signal: Seq<u8> },
}

pub open spec fn body_model(e: Event) -> BodyModel {
    match e {
        Event::Syscall(sc) => BodyModel::Syscall {
            name: sc.name@,
            args: sc.args@,
            result: sc.result@,
            dur_secs: sc.duration.secs as int,
            dur_nanos: sc.duration.nanos as int,
        },
        Event::Signal { signal } => BodyModel::Signal { signal: signal@ },
        Event::Exited(ex) => BodyModel::Exited { code: ex.code@ },
        Event::KilledBy { signal } => BodyModel::KilledBy { signal: signal@ },
    }
}

pub open spec fn line_model(l: Line) -> LineModel {
    LineModel { pid: l.pid as int, timestamp: l.timestamp.nanos as int, body: body_model(l.event) }
}

/// The record after `+++ `: the middle must be closed by ` +++` at the very
/// end of the line and name either an exit code or a killing signal.
pub open spec fn scan_exit_body(s: Seq<u8>, m: int) -> Option<BodyModel> {
    if s.len() >= m + 4 && match_at(s, tok_exit_close(), s.len() - 4) {
        let mid_end = s.len() - 4;
        if match_at(s, tok_exited_with(), m) && m + 12 <= mid_end {
            Some(BodyModel::Exited { code: s.subrange(m + 12, mid_end) })
        } else if match_at(s, tok_killed_by(), m) && m + 10 <= mid_end {
            Some(BodyModel::KilledBy { signal: s.subrange(m + 10, mid_end) })
        } else {
            None
        }
    } else {
        None
    }
}

/// A system-call record: `name(args…) = result <duration>`, located by the
/// first `(`, the trailing `>`, the last ` <` before it, and the last
/// ` = ` before that.
pub open spec fn scan_syscall_body(s: Seq<u8>, b: int) -> Option<BodyModel> {
    match find_byte_from(s, b, 40) {
        None => None,
        Some(p) => {
            if !(s.len() >= p + 2 && s[s.len() - 1] == 62) {
                None
            } else {
                match rfind_in(s, tok_space_lt(), p + 1, s.len() - 1) {
                    None => None,
                    Some(j) => {
                        let dur_tok = s.subrange(j + 2, s.len() - 1);
                        match duration_model(dur_tok) {
                            None => None,
                            Some((dsecs, dnanos)) => {
                                if dsecs * 1_000_000_000 + dnanos < 0 {
                                    None
                                } else {
                                    match rfind_in(s, tok_space_eq(), p + 1, j) {
                                        None => None,
                                        Some(k) => {
                                            let r_lo = skip_spaces_to(s, k + 3, j);
                                            let r_hi = trim_end_from(s, r_lo, j);
                                            let e = trim_end_from(s, p + 1, k);
                                            if e >= p + 2 && s[e - 1] == 41 {
                                                Some(
                                                    BodyModel::Syscall {
                                                        name: s.subrange(b, p),
                                                        args: s.subrange(p + 1, e - 1),
                                                        result: s.subrange(r_lo, r_hi),
                                                        dur_secs: dsecs,
                                                        dur_nanos: dnanos,
                                                    },
                                                )
                                            } else {
                                                None
                                            }
                                        },
                                    }
                                }
                            },
                        }
                    },
                }
            }
        },
    }
}

pub open spec fn scan_body(s: Seq<u8>, b: int) -> Option<BodyModel> {
    if match_at(s, tok_exit_open(), b) {
        scan_exit_body(s, b + 4)
    } else if match_at(s, tok_signal_open(), b) {
        if s.len() >= b + 8 && match_at(s, tok_signal_close(), s.len() - 4) {
            Some(BodyModel::Signal { signal: s.subrange(b + 4, s.len() - 4) })
        } else {
            None
        }
    } else {
        scan_syscall_body(s, b)
    }
}

/// The whole scan: pid up to the first space, timestamp up to the next,
/// then the body. The timestamp is the token's seconds and fraction
/// combined into one signed nanosecond count, which must fit an `i64`.
pub open spec fn scan_line(s: Seq<u8>) -> Option<LineModel> {
    match find_byte_from(s, 0, 32) {
        None => None,
        Some(sp1) => {
            let pid_tok = s.subrange(0, sp1);
            if !(signed_dec_ok(pid_tok) && i32::MIN <= signed_dec_value(pid_tok) <= i32::MAX) {
                None
            } else {
                match find_byte_from(s, sp1 + 1, 32) {
                    None => None,
                    Some(sp2) => {
                        let ts_tok = s.subrange(sp1 + 1, sp2);
                        match duration_model(ts_tok) {
                            None => None,
                            Some((secs, nanos)) => {
                                let total = secs * 1_000_000_000 + nanos;
                                if !(i64::MIN <= total <= i64::MAX) {
                                    None
                                } else {
                                    match scan_body(s, sp2 + 1) {
                                        None => None,
                                        Some(body) => Some(
                                            LineModel {
                                                pid: signed_dec_value(pid_tok),
                                                timestamp: total,
                                                body,
                                            },
                                        ),
                                    }
                                }
                            },
                        }
                    },
                }
            }
        },
    }
}

// --- The scanner ------------------------------------------------------------

/// Scans one trace line into its header and body, per `scan_line`: the
/// call succeeds exactly on the lines the model accepts, and then returns
/// precisely the modelled pid, timestamp and body, along with the raw
/// line text.
pub fn parse_line(line: &[u8]) -> (r: Result<Line, StraceParseError>)
    ensures
        r is Ok <==> scan_line(line@) is Some,
        r matches Ok(l) ==> scan_line(line@) == Some(line_model(l)) && l.line@ == line@,
{
    let len = line.len();
    let sp1 = match find_byte(line, 0, 32) {
        Some(i) => i,
        None => {
            return Err(StraceParseError::new(0, len, "expected pid"));
        },
    };
    let pid = match parse_i32(slice_subrange(line, 0, sp1)) {
        Some(v) => v,
        None => {
            return Err(StraceParseError::new(0, sp1, "invalid pid"));
        },
    };
    let sp2 = match find_byte(line, sp1 + 1, 32) {
        Some(i) => i,
        None => {
            return Err(StraceParseError::new(sp1 + 1, len - (sp1 + 1), "expected timestamp"));
        },
    };
    let ts_tok = slice_subrange(line, sp1 + 1, sp2);
    let timestamp = match parse_duration_tok(ts_tok) {
        Some((secs, nanos)) => match Timestamp::checked_new(secs, nanos) {
            Some(t) => t,
            None => {
                return Err(StraceParseError::new(sp1 + 1, sp2 - (sp1 + 1), "invalid timestamp"));
            },
        },
        None => {
            return Err(StraceParseError::new(sp1 + 1, sp2 - (sp1 + 1), "invalid timestamp"));
        },
    };
    let b = sp2 + 1;
    let event = if starts_with_at(line, b, exit_open().as_slice()) {
        // An exit record: `+++ … +++`.
        let m = b + 4;
        if !(len - m >= 4 && starts_with_at(line, len - 4, exit_close().as_slice())) {
            return Err(StraceParseError::new(b, len - b, "failed to parse exit event"));
        }
        let mid_end = len - 4;
        if starts_with_at(line, m, exited_with().as_slice()) && mid_end - m >= 12 {
            Event::Exited(ExitedEvent { code: copy_range(line, m + 12, mid_end) })
        } else if starts_with_at(line, m, killed_by().as_slice()) && mid_end - m >= 10 {
            Event::KilledBy { signal: copy_range(line, m + 10, mid_end) }
        } else {
            return Err(StraceParseError::new(m, len - m, "could not parse exit event"));
        }
    } else if starts_with_at(line, b, signal_open().as_slice()) {
        // A signal record: `--- … ---`.
        if len - b >= 8 && starts_with_at(line, len - 4, signal_close().as_slice()) {
            Event::Signal { signal: copy_range(line, b + 4, len - 4) }
        } else {
            return Err(StraceParseError::new(b, len - b, "failed to parse signal event"));
        }
    } else {
        // A system-call record.
        let p = match find_byte(line, b, 40) {
            Some(i) => i,
            None => {
                return Err(StraceParseError::new(b, len - b, "failed to parse event"));
            },
        };
        if !(len - p >= 2 && line[len - 1] == 62) {
            return Err(StraceParseError::new(b, len - b, "expected duration at end of syscall"));
        }
        let j = match rfind_pat_in(line, space_lt().as_slice(), p + 1, len - 1) {
            Some(i) => i,
            None => {
                return Err(
                    StraceParseError::new(b, len - b, "expected duration at end of syscall"),
                );
            },
        };
        proof {
            lemma_rfind_in_props(line@, tok_space_lt(), p + 1 as int, len - 1 - 2);
        }
        let duration = match parse_duration_tok(slice_subrange(line, j + 2, len - 1)) {
            Some((dsecs, dnanos)) => {
                if dsecs < 0 {
                    return Err(StraceParseError::new(j + 2, len - 1 - (j + 2), "invalid duration"));
                }
                proof {
                    assert(dsecs * 1_000_000_000 + dnanos >= 0);
                }
                Duration { secs: dsecs as u64, nanos: dnanos }
            },
            None => {
                return Err(StraceParseError::new(j + 2, len - 1 - (j + 2), "invalid duration"));
            },
        };
        let k = match rfind_pat_in(line, space_eq().as_slice(), p + 1, j) {
            Some(i) => i,
            None => {
                return Err(StraceParseError::new(b, len - b, "failed to parse syscall result"));
            },
        };
        proof {
            lemma_rfind_in_props(line@, tok_space_eq(), p + 1 as int, j - 3);
        }
        let r_lo = advance_spaces_to(line, k + 3, j);
        let r_hi = retreat_spaces_from(line, r_lo, j);
        let e = retreat_spaces_from(line, p + 1, k);
        if !(e - p >= 2 && line[e - 1] == 41) {
            return Err(StraceParseError::new(p + 1, k - (p + 1), "failed to parse syscall args"));
        }
        Event::Syscall(
            SyscallEvent {
                name: copy_range(line, b, p),
                args: copy_range(line, p + 1, e - 1),
                result: copy_range(line, r_lo, r_hi),
                duration,
            },
        )
    };
    Ok(Line { pid, timestamp, event, line: slice_to_vec(line) })
}


// --- Value-parser tokens -----------------------------------------------------

pub open spec fn tok_ellipsis() -> Seq<u8> {
    seq![46u8, 46u8, 46u8]  // "..."
}

pub open spec fn tok_not_bitset() -> Seq<u8> {
    seq![126u8, 91u8]  // "~["
}

pub open spec fn tok_comma_space() -> Seq<u8> {
    seq![44u8, 32u8]  // ", "
}

pub open spec fn tok_comma_bracket() -> Seq<u8> {
    seq![44u8, 32u8, 91u8]  // ", ["
}

pub open spec fn tok_or_word() -> Seq<u8> {
    seq![32u8, 111u8, 114u8, 32u8]  // " or "
}

pub open spec fn tok_comment_open() -> Seq<u8> {
    seq![47u8, 42u8]  // "/*"
}

pub open spec fn tok_comment_close() -> Seq<u8> {
    seq![42u8, 47u8]  // "*/"
}

pub open spec fn tok_changed() -> Seq<u8> {
    seq![61u8, 62u8]  // "=>"
}

pub open spec fn tok_deleted() -> Seq<u8> {
    // "(deleted)"
    seq![40u8, 100u8, 101u8, 108u8, 101u8, 116u8, 101u8, 100u8, 41u8]
}

pub open spec fn tok_and_and() -> Seq<u8> {
    seq![38u8, 38u8]  // "&&"
}

pub open spec fn tok_or_or() -> Seq<u8> {
    seq![124u8, 124u8]  // "||"
}

pub open spec fn tok_eq_eq() -> Seq<u8> {
    seq![61u8, 61u8]  // "=="
}

pub open spec fn tok_not_eq() -> Seq<u8> {
    seq![33u8, 61u8]  // "!="
}

fn ellipsis() -> (r: Vec<u8>)
    ensures
        r@ == tok_ellipsis(),
{
    let v: Vec<u8> = vec![46u8, 46u8, 46u8];
    proof {
        assert(v@ =~= tok_ellipsis());
    }
    v
}

fn not_bitset_open() -> (r: Vec<u8>)
    ensures
        r@ == tok_not_bitset(),
{
    let v: Vec<u8> = vec![126u8, 91u8];
    proof {
        assert(v@ =~= tok_not_bitset());
    }
    v
}

fn comma_space() -> (r: Vec<u8>)
    ensures
        r@ == tok_comma_space(),
{
    let v: Vec<u8> = vec![44u8, 32u8];
    proof {
        assert(v@ =~= tok_comma_space());
    }
    v
}

fn comma_bracket() -> (r: Vec<u8>)
    ensures
        r@ == tok_comma_bracket(),
{
    let v: Vec<u8> = vec![44u8, 32u8, 91u8];
    proof {
        assert(v@ =~= tok_comma_bracket());
    }
    v
}

fn or_word() -> (r: Vec<u8>)
    ensures
        r@ == tok_or_word(),
{
    let v: Vec<u8> = vec![32u8, 111u8, 114u8, 32u8];
    proof {
        assert(v@ =~= tok_or_word());
    }
    v
}

fn comment_open() -> (r: Vec<u8>)
    ensures
        r@ == tok_comment_open(),
{
    let v: Vec<u8> = vec![47u8, 42u8];
    proof {
        assert(v@ =~= tok_comment_open());
    }
    v
}

fn comment_close() -> (r: Vec<u8>)
    ensures
        r@ == tok_comment_close(),
{
    let v: Vec<u8> = vec![42u8, 47u8];
    proof {
        assert(v@ =~= tok_comment_close());
    }
    v
}

fn changed_arrow() -> (r: Vec<u8>)
    ensures
        r@ == tok_changed(),
{
    let v: Vec<u8> = vec![61u8, 62u8];
    proof {
        assert(v@ =~= tok_changed());
    }
    v
}

fn deleted_marker() -> (r: Vec<u8>)
    ensures
        r@ == tok_deleted(),
{
    let v: Vec<u8> = vec![40u8, 100u8, 101u8, 108u8, 101u8, 116u8, 101u8, 100u8, 41u8];
    proof {
        assert(v@ =~= tok_deleted());
    }
    v
}

fn and_and() -> (r: Vec<u8>)
    ensures
        r@ == tok_and_and(),
{
    let v: Vec<u8> = vec![38u8, 38u8];
    proof {
        assert(v@ =~= tok_and_and());
    }
    v
}

fn or_or() -> (r: Vec<u8>)
    ensures
        r@ == tok_or_or(),
{
    let v: Vec<u8> = vec![124u8, 124u8];
    proof {
        assert(v@ =~= tok_or_or());
    }
    v
}

fn eq_eq() -> (r: Vec<u8>)
    ensures
        r@ == tok_eq_eq(),
{
    let v: Vec<u8> = vec![61u8, 61u8];
    proof {
        assert(v@ =~= tok_eq_eq());
    }
    v
}

fn not_eq() -> (r: Vec<u8>)
    ensures
        r@ == tok_not_eq(),
{
    let v: Vec<u8> = vec![33u8, 61u8];
    proof {
        assert(v@ =~= tok_not_eq());
    }
    v
}

// --- Character classes of the value grammar ---------------------------------

pub open spec fn is_octal_digit(b: u8) -> bool {
    48 <= b && b <= 55
}

pub open spec fn is_hex_digit(b: u8) -> bool {
    is_ascii_digit(b) || (65 <= b && b <= 70) || (97 <= b && b <= 102)
}

pub open spec fn hex_val(b: u8) -> int {
    if is_ascii_digit(b) {
        b - 48
    } else if 65 <= b && b <= 70 {
        b - 55
    } else {
        b - 87
    }
}

pub open spec fn is_ident_start(b: u8) -> bool {
    (65 <= b && b <= 90) || (97 <= b && b <= 122) || b == 95
}

pub open spec fn is_ident_byte(b: u8) -> bool {
    is_ident_start(b) || is_ascii_digit(b)
}

pub open spec fn is_basic_expression_byte(b: u8) -> bool {
    is_ident_byte(b) || b == 43 || b == 45 || b == 42 || b == 46 || b == 47 || b == 94 || b == 38
        || b == 124
}

/// Whether a byte may stand in an atomic expression token: letters, digits,
/// `_`, and the arithmetic and bitwise symbols `+ - * . / ^ & |`.
pub fn is_basic_expression_char(b: u8) -> (r: bool)
    ensures
        r == is_basic_expression_byte(b),
{
    (65 <= b && b <= 90) || (97 <= b && b <= 122) || b == 95 || (48 <= b && b <= 57) || b == 43
        || b == 45 || b == 42 || b == 46 || b == 47 || b == 94 || b == 38 || b == 124
}

/// End of the maximal run of basic-expression bytes starting at `i`.
pub open spec fn basic_run_end(s: Seq<u8>, i: int) -> int
    decreases s.len() - i,
{
    if i < 0 || i >= s.len() || !is_basic_expression_byte(s[i]) {
        i
    } else {
        basic_run_end(s, i + 1)
    }
}

fn basic_run_end_at(s: &[u8], from: usize) -> (r: usize)
    requires
        from <= s@.len(),
    ensures
        r == basic_run_end(s@, from as int),
        from <= r <= s@.len(),
{
    let mut i: usize = from;
    while i < s.len() && is_basic_expression_char(s[i])
        invariant
            from <= i <= s@.len(),
            basic_run_end(s@, from as int) == basic_run_end(s@, i as int),
        decreases s@.len() - i,
    {
        i = i + 1;
    }
    i
}

proof fn lemma_basic_run_lb(s: Seq<u8>, i: int)
    ensures
        basic_run_end(s, i) >= i,
    decreases s.len() - i,
{
    if 0 <= i < s.len() && is_basic_expression_byte(s[i]) {
        lemma_basic_run_lb(s, i + 1);
    }
}

/// End of the maximal run of identifier bytes starting at `i`.
pub open spec fn ident_run_end(s: Seq<u8>, i: int) -> int
    decreases s.len() - i,
{
    if i < 0 || i >= s.len() || !is_ident_byte(s[i]) {
        i
    } else {
        ident_run_end(s, i + 1)
    }
}

fn ident_byte(b: u8) -> (r: bool)
    ensures
        r == is_ident_byte(b),
{
    (65 <= b && b <= 90) || (97 <= b && b <= 122) || b == 95 || (48 <= b && b <= 57)
}

/// The identifier beginning at `i`, if one does: a letter or `_`, then
/// letters, digits and `_`; yields the end of the run.
pub open spec fn ident_end_spec(s: Seq<u8>, i: int) -> Option<int> {
    if 0 <= i < s.len() && is_ident_start(s[i]) {
        Some(ident_run_end(s, i + 1))
    } else {
        None
    }
}

fn ident_end_at(s: &[u8], from: usize) -> (r: Option<usize>)
    requires
        from <= s@.len(),
    ensures
        match r {
            Some(e) => ident_end_spec(s@, from as int) == Some(e as int) && from < e <= s@.len(),
            None => ident_end_spec(s@, from as int) is None,
        },
{
    if from >= s.len() {
        return None;
    }
    let b: u8 = s[from];
    if !((65 <= b && b <= 90) || (97 <= b && b <= 122) || b == 95) {
        return None;
    }
    let mut i: usize = from + 1;
    while i < s.len() && ident_byte(s[i])
        invariant
            from + 1 <= i <= s@.len(),
            ident_run_end(s@, from + 1) == ident_run_end(s@, i as int),
        decreases s@.len() - i,
    {
        i = i + 1;
    }
    Some(i)
}

/// Whether `s[lo..hi]` is, in full, one identifier.
pub open spec fn is_ident_range(s: Seq<u8>, lo: int, hi: int) -> bool {
    lo < hi && is_ident_start(s[lo]) && ident_run_end(s, lo + 1) >= hi && forall|j: int|
        lo < j < hi ==> is_ident_byte(#[trigger] s[j])
}

fn check_ident_range(s: &[u8], lo: usize, hi: usize) -> (r: bool)
    requires
        lo <= hi <= s@.len(),
    ensures
        r == (ident_end_spec(s@, lo as int) == Some(hi as int)),
{
    match ident_end_at(s, lo) {
        Some(e) => e == hi,
        None => false,
    }
}

// --- String escapes ----------------------------------------------------------

/// How many octal digits (at most three) stand at `i`.
pub open spec fn octal_run_len(s: Seq<u8>, i: int) -> int {
    if i + 1 < s.len() && is_octal_digit(s[i + 1]) {
        if i + 2 < s.len() && is_octal_digit(s[i + 2]) {
            3
        } else {
            2
        }
    } else {
        1
    }
}

/// The byte and the position after one escape sequence starting at `i`
/// (just past the backslash): the single-character escapes, `\xHH` with
/// exactly two hex digits, or one to three octal digits whose value must
/// fit a byte.
pub open spec fn escape_spec(s: Seq<u8>, i: int) -> Option<(u8, int)> {
    if i < 0 || i >= s.len() {
        None
    } else {
        let c = s[i];
        if c == 92 {
            Some((92u8, i + 1))
        } else if c == 97 {
            Some((7u8, i + 1))
        } else if c == 98 {
            Some((8u8, i + 1))
        } else if c == 101 {
            Some((27u8, i + 1))
        } else if c == 102 {
            Some((12u8, i + 1))
        } else if c == 110 {
            Some((10u8, i + 1))
        } else if c == 114 {
            Some((13u8, i + 1))
        } else if c == 116 {
            Some((9u8, i + 1))
        } else if c == 118 {
            Some((11u8, i + 1))
        } else if c == 39 {
            Some((39u8, i + 1))
        } else if c == 34 {
            Some((34u8, i + 1))
        } else if c == 63 {
            Some((63u8, i + 1))
        } else if c == 120 {
            if i + 3 <= s.len() && is_hex_digit(s[i + 1]) && is_hex_digit(s[i + 2]) {
                Some(((hex_val(s[i + 1]) * 16 + hex_val(s[i + 2])) as u8, i + 3))
            } else {
                None
            }
        } else if is_octal_digit(c) {
            let n = octal_run_len(s, i);
            let v = if n == 1 {
                c - 48
            } else if n == 2 {
                (c - 48) * 8 + (s[i + 1] - 48)
            } else {
                (c - 48) * 64 + (s[i + 1] - 48) * 8 + (s[i + 2] - 48)
            };
            if v <= 255 {
                Some((v as u8, i + n))
            } else {
                None
            }
        } else {
            None
        }
    }
}

fn hex_digit_value(b: u8) -> (r: Option<u8>)
    ensures
        match r {
            Some(v) => is_hex_digit(b) && v == hex_val(b),
            None => !is_hex_digit(b),
        },
{
    if 48 <= b && b <= 57 {
        Some(b - 48)
    } else if 65 <= b && b <= 70 {
        Some(b - 55)
    } else if 97 <= b && b <= 102 {
        Some(b - 87)
    } else {
        None
    }
}

/// Decodes the escape sequence at `pos` (the byte after the backslash),
/// exactly as `escape_spec` lays it out: the decoded byte and the position
/// after the sequence.
pub fn parse_string_escape_sequence(s: &[u8], pos: usize) -> (r: Result<
    (u8, usize),
    StraceParseError,
>)
    requires
        pos <= s@.len(),
    ensures
        match r {
            Ok((b, k)) => escape_spec(s@, pos as int) == Some((b, k as int)) && pos < k <= s@.len(),
            Err(_) => escape_spec(s@, pos as int) is None,
        },
{
    if pos >= s.len() {
        return Err(StraceParseError::new(pos, 0, "unexpected end of string"));
    }
    let c: u8 = s[pos];
    if c == 92 {
        Ok((92, pos + 1))
    } else if c == 97 {
        Ok((7, pos + 1))
    } else if c == 98 {
        Ok((8, pos + 1))
    } else if c == 101 {
        Ok((27, pos + 1))
    } else if c == 102 {
        Ok((12, pos + 1))
    } else if c == 110 {
        Ok((10, pos + 1))
    } else if c == 114 {
        Ok((13, pos + 1))
    } else if c == 116 {
        Ok((9, pos + 1))
    } else if c == 118 {
        Ok((11, pos + 1))
    } else if c == 39 {
        Ok((39, pos + 1))
    } else if c == 34 {
        Ok((34, pos + 1))
    } else if c == 63 {
        Ok((63, pos + 1))
    } else if c == 120 {
        if s.len() - pos < 3 {
            return Err(StraceParseError::new(pos, s.len() - pos, "unexpected end of string"));
        }
        let h1 = match hex_digit_value(s[pos + 1]) {
            Some(v) => v,
            None => {
                return Err(StraceParseError::new(pos, 3, "invalid hex escape in string"));
            },
        };
        let h2 = match hex_digit_value(s[pos + 2]) {
            Some(v) => v,
            None => {
                return Err(StraceParseError::new(pos, 3, "invalid hex escape in string"));
            },
        };
        Ok((h1 * 16 + h2, pos + 3))
    } else if 48 <= c && c <= 55 {
        let d1: u16 = (c - 48) as u16;
        if pos + 1 < s.len() && 48 <= s[pos + 1] && s[pos + 1] <= 55 {
            let d2: u16 = (s[pos + 1] - 48) as u16;
            if pos + 2 < s.len() && 48 <= s[pos + 2] && s[pos + 2] <= 55 {
                let d3: u16 = (s[pos + 2] - 48) as u16;
                let v: u16 = d1 * 64 + d2 * 8 + d3;
                if v <= 255 {
                    Ok((v as u8, pos + 3))
                } else {
                    Err(StraceParseError::new(pos, 3, "invalid octal escape in string"))
                }
            } else {
                Ok(((d1 * 8 + d2) as u8, pos + 2))
            }
        } else {
            Ok((d1 as u8, pos + 1))
        }
    } else {
        Err(StraceParseError::new(pos, 1, "invalid string escape"))
    }
}

// --- String literals ----------------------------------------------------------

/// First quote or backslash at or after `i`.
pub open spec fn find_delim_from(s: Seq<u8>, i: int) -> Option<int>
    decreases s.len() - i,
{
    if i < 0 || i >= s.len() {
        None
    } else if s[i] == 34 || s[i] == 92 {
        Some(i)
    } else {
        find_delim_from(s, i + 1)
    }
}

proof fn lemma_find_delim_props(s: Seq<u8>, i: int)
    requires
        find_delim_from(s, i) is Some,
    ensures
        ({
            let j = find_delim_from(s, i)->Some_0;
            i <= j < s.len() && (s[j] == 34 || s[j] == 92)
        }),
    decreases s.len() - i,
{
    if 0 <= i < s.len() && !(s[i] == 34 || s[i] == 92) {
        lemma_find_delim_props(s, i + 1);
    }
}

fn find_delim(s: &[u8], from: usize) -> (r: Option<usize>)
    requires
        from <= s@.len(),
    ensures
        match r {
            Some(j) => find_delim_from(s@, from as int) == Some(j as int) && from <= j < s@.len()
                && (s@[j as int] == 34 || s@[j as int] == 92),
            None => find_delim_from(s@, from as int) is None,
        },
{
    let mut i: usize = from;
    while i < s.len() && !(s[i] == 34 || s[i] == 92)
        invariant
            from <= i <= s@.len(),
            find_delim_from(s@, from as int) == find_delim_from(s@, i as int),
        decreases s@.len() - i,
    {
        i = i + 1;
    }
    if i < s.len() {
        Some(i)
    } else {
        None
    }
}

/// The contents of a string literal from `i` (just past the opening quote)
/// to its closing quote: literal runs joined by decoded escapes, and the
/// position just past the closing quote.
pub open spec fn scan_string(s: Seq<u8>, i: int) -> Option<(Seq<u8>, int)>
    decreases s.len() - i
        via scan_string_dec
{
    match find_delim_from(s, i) {
        None => None,
        Some(j) => {
            if s[j] == 34 {
                Some((s.subrange(i, j), j + 1))
            } else {
                match escape_spec(s, j + 1) {
                    None => None,
                    Some((b, k)) => match scan_string(s, k) {
                        None => None,
                        Some((tail, e)) => Some((s.subrange(i, j) + seq![b] + tail, e)),
                    },
                }
            }
        },
    }
}

#[via_fn]
proof fn scan_string_dec(s: Seq<u8>, i: int) {
    match find_delim_from(s, i) {
        None => {},
        Some(j) => {
            lemma_find_delim_props(s, i);
        },
    }
}

/// Reads a string body per `scan_string`: succeeds exactly when the model
/// does, returning the decoded bytes and the position past the closing
/// quote.
pub fn parse_string_body(s: &[u8], pos: usize) -> (r: Result<(Vec<u8>, usize), StraceParseError>)
    requires
        pos <= s@.len(),
    ensures
        match r {
            Ok((bytes, end)) => scan_string(s@, pos as int) == Some((bytes@, end as int)) && pos
                < end <= s@.len(),
            Err(_) => scan_string(s@, pos as int) is None,
        },
    decreases s@.len() - pos,
{
    let j = match find_delim(s, pos) {
        Some(j) => j,
        None => {
            return Err(StraceParseError::new(pos, s.len() - pos, "invalid string value"));
        },
    };
    if s[j] == 34 {
        return Ok((copy_range(s, pos, j), j + 1));
    }
    let (b, k) = parse_string_escape_sequence(s, j + 1)?;
    let (tail, end) = match parse_string_body(s, k) {
        Ok(t) => t,
        Err(e) => {
            return Err(e);
        },
    };
    let mut out = copy_range(s, pos, j);
    out.push(b);
    let mut tail = tail;
    out.append(&mut tail);
    proof {
        assert(out@ =~= s@.subrange(pos as int, j as int) + seq![b] + scan_string(
            s@,
            k as int,
        )->Some_0.0);
    }
    Ok((out, end))
}

// --- Binary operators ---------------------------------------------------------

/// An infix operator after a value: surrounding whitespace skipped, one of
/// `&& || == !=`, yielding the operator and the position after the
/// operator and its trailing whitespace.
pub open spec fn binop_model(s: Seq<u8>, i: int) -> Option<(BinaryOperator, int)> {
    let t = skip_spaces(s, i);
    if match_at(s, tok_and_and(), t) {
        Some((BinaryOperator::And, skip_spaces(s, t + 2)))
    } else if match_at(s, tok_or_or(), t) {
        Some((BinaryOperator::Or, skip_spaces(s, t + 2)))
    } else if match_at(s, tok_eq_eq(), t) {
        Some((BinaryOperator::Equal, skip_spaces(s, t + 2)))
    } else if match_at(s, tok_not_eq(), t) {
        Some((BinaryOperator::NotEqual, skip_spaces(s, t + 2)))
    } else {
        None
    }
}

fn try_binop(s: &[u8], pos: usize) -> (r: Option<(BinaryOperator, usize)>)
    requires
        pos <= s@.len(),
    ensures
        match r {
            Some(t) => binop_model(s@, pos as int) == Some((t.0, t.1 as int)) && pos < t.1
                <= s@.len(),
            None => binop_model(s@, pos as int) is None,
        },
{
    let len = s.len();
    let t = advance_spaces(s, pos);
    if starts_with_at(s, t, and_and().as_slice()) {
        Some((BinaryOperator::And, advance_spaces(s, t + 2)))
    } else if starts_with_at(s, t, or_or().as_slice()) {
        Some((BinaryOperator::Or, advance_spaces(s, t + 2)))
    } else if starts_with_at(s, t, eq_eq().as_slice()) {
        Some((BinaryOperator::Equal, advance_spaces(s, t + 2)))
    } else if starts_with_at(s, t, not_eq().as_slice()) {
        Some((BinaryOperator::NotEqual, advance_spaces(s, t + 2)))
    } else {
        None
    }
}

// --- Forward pattern search ---------------------------------------------------

/// First occurrence of `pat` at or after `i`.
pub open spec fn ffind_from(s: Seq<u8>, pat: Seq<u8>, i: int) -> Option<int>
    decreases s.len() - i + 1,
{
    if i < 0 || i + pat.len() > s.len() {
        None
    } else if match_at(s, pat, i) {
        Some(i)
    } else {
        ffind_from(s, pat, i + 1)
    }
}

proof fn lemma_ffind_props(s: Seq<u8>, pat: Seq<u8>, i: int)
    requires
        ffind_from(s, pat, i) is Some,
    ensures
        ({
            let j = ffind_from(s, pat, i)->Some_0;
            i <= j && j + pat.len() <= s.len() && match_at(s, pat, j)
        }),
    decreases s.len() - i + 1,
{
    if 0 <= i && i + pat.len() <= s.len() && !match_at(s, pat, i) {
        lemma_ffind_props(s, pat, i + 1);
    }
}

fn find_pat_from(s: &[u8], pat: &[u8], from: usize) -> (r: Option<usize>)
    requires
        from <= s@.len(),
    ensures
        match r {
            Some(j) => ffind_from(s@, pat@, from as int) == Some(j as int) && from <= j && j
                + pat@.len() <= s@.len() && match_at(s@, pat@, j as int),
            None => ffind_from(s@, pat@, from as int) is None,
        },
{
    if pat.len() > s.len() {
        return None;
    }
    let bound = s.len() - pat.len();
    if from > bound {
        return None;
    }
    let mut i: usize = from;
    loop
        invariant
            from <= i <= bound,
            bound + pat@.len() == s@.len(),
            ffind_from(s@, pat@, from as int) == ffind_from(s@, pat@, i as int),
        decreases bound - i,
    {
        if starts_with_at(s, i, pat) {
            return Some(i);
        }
        if i == bound {
            proof {
                assert(ffind_from(s@, pat@, bound as int + 1) is None);
            }
            return None;
        }
        i = i + 1;
    }
}

// --- The value parser ----------------------------------------------------------

/// The outcome the string branch must deliver when the input at `pos`
/// opens with a quote: exactly what `scan_string` yields, upgraded to a
/// truncated string when a `...` marker follows the closing quote.
pub open spec fn string_case_post(
    s: Seq<u8>,
    pos: int,
    r: Result<(Value, usize), StraceParseError>,
) -> bool {
    match scan_string(s, pos + 1) {
        None => r is Err,
        Some((bytes, e)) => match r {
            Ok((v, end)) => if match_at(s, tok_ellipsis(), e) {
                &&& v matches Value::TruncatedString(b2) && b2@ == bytes
                &&& end == e + 3
            } else {
                &&& v matches Value::String(b2) && b2@ == bytes
                &&& end == e
            },
            Err(_) => false,
        },
    }
}

/// Parses one primary value at `pos`: a quoted (possibly truncated)
/// string, a function call, a bracketed array / bitset / sparse array, a
/// complement bitset, a brace-delimited struct, a bare `...` truncation
/// marker, or a maximal run of expression bytes.
#[verifier::loop_isolation(false)]
#[verifier::rlimit(100)]
#[verifier::spinoff_prover]
pub fn parse_value_basic(s: &[u8], pos: usize) -> (r: Result<(Value, usize), StraceParseError>)
    requires
        pos <= s@.len(),
    ensures
        r matches Ok(t) ==> pos < t.1 <= s@.len(),
        pos < s@.len() && s@[pos as int] == 34 ==> string_case_post(s@, pos as int, r),
        match_at(s@, tok_not_bitset(), pos as int) ==> (r matches Ok(t) ==> t.0 is NotBitset),
        r matches Ok(t) ==> (t.0 matches Value::Expression(e) ==> t.1 == basic_run_end(
            s@,
            pos as int,
        ) && e@ == s@.subrange(pos as int, t.1 as int)),
        r matches Ok(t) ==> (t.0 is Truncated ==> match_at(s@, tok_ellipsis(), pos as int) && t.1
            == pos + 3),
        pos < s@.len() && s@[pos as int] == 91 ==> (r matches Ok(t) ==> t.0 is Array || t.0
            is SparseArray),
        pos < s@.len() && s@[pos as int] == 123 ==> (r matches Ok(t) ==> t.0 is Struct),
        (ident_end_spec(s@, pos as int) matches Some(e) && e < s@.len() && s@[e] == 40) ==> (
        r matches Ok(t) ==> t.0 is FunctionCall),
        match r {
            Ok(t) => scan_value_basic(s@, pos as int) == Some((view_value(t.0), t.1 as int)),
            Err(_) => scan_value_basic(s@, pos as int) is None,
        },
    decreases s@.len() - pos, 1int,
{
    let len = s.len();
    if pos < len && s[pos] == 34 {
        // A string literal, optionally followed by a truncation marker.
        let (bytes, end) = match parse_string_body(s, pos + 1) {
            Ok(t) => t,
            Err(e) => {
                return Err(e);
            },
        };
        if starts_with_at(s, end, ellipsis().as_slice()) {
            return Ok((Value::TruncatedString(bytes), end + 3));
        } else {
            return Ok((Value::String(bytes), end));
        }
    }
    let mut call_name_end: usize = 0;
    let mut is_call = false;
    let ident_found = match ident_end_at(s, pos) {
        Some(ie) => {
            if ie < len && s[ie] == 40 {
                is_call = true;
                call_name_end = ie;
            }
            true
        },
        None => false,
    };
    proof {
        if ident_found {
            // An identifier opens with a letter or underscore: not a
            // space, so the brace-trim below stays put, and a basic
            // expression byte, so the expression branch applies.
            assert(is_ident_start(s@[pos as int]));
            lemma_skip_spaces_at_nonspace(s@, pos as int);
            lemma_basic_run_lb(s@, pos + 1);
        }
    }
    if is_call {
        parse_function_call(s, pos, call_name_end)
    } else if pos < len && s[pos] == 91 {
        parse_bracket(s, pos)
    } else if starts_with_at(s, pos, not_bitset_open().as_slice()) {
        parse_not_bitset_items(s, pos)
    } else {
        let t = advance_spaces(s, pos);
        if t < len && s[t] == 123 {
            parse_struct_fields(s, pos, t)
        } else if starts_with_at(s, pos, ellipsis().as_slice()) {
            Ok((Value::Truncated, pos + 3))
        } else if pos < len && is_basic_expression_char(s[pos]) {
            let e = basic_run_end_at(s, pos);
            proof {
                lemma_basic_run_lb(s@, pos + 1);
            }
            Ok((Value::Expression(copy_range(s, pos, e)), e))
        } else {
            Err(StraceParseError::new(pos, len - pos, "unrecognized expression"))
        }
    }
}

proof fn lemma_skip_spaces_at_nonspace(s: Seq<u8>, i: int)
    requires
        0 <= i < s.len(),
        !is_space(s[i]),
    ensures
        skip_spaces(s, i) == i,
{
}

/// Parses `name(field, …)` with `pos` at the name and `name_end` at the
/// opening parenthesis.
#[verifier::loop_isolation(false)]
#[verifier::rlimit(100)]
#[verifier::spinoff_prover]
fn parse_function_call(s: &[u8], pos: usize, name_end: usize) -> (r: Result<
    (Value, usize),
    StraceParseError,
>)
    requires
        pos < name_end < s@.len(),
        s@[name_end as int] == 40,
    ensures
        r matches Ok(t) ==> pos < t.1 <= s@.len() && t.0 is FunctionCall,
        match r {
            Ok(t) => (scan_call_args(s@, name_end + 1, false, Seq::empty()) matches Some(ca)
                && view_value(t.0) == (ValueModel::MFunctionCall {
                function: s@.subrange(pos as int, name_end as int),
                args: ca.0,
            }) && t.1 == ca.1),
            Err(_) => scan_call_args(s@, name_end + 1, false, Seq::empty()) is None,
        },
    decreases s@.len() - pos, 0int,
{
    let len = s.len();
    let function = copy_range(s, pos, name_end);
    let mut fields: Vec<Field> = Vec::new();
    let mut needs_comma = false;
    let mut rest: usize = name_end + 1;
    proof {
        assert(field_views(fields@) =~= Seq::<FieldModel>::empty());
    }
    loop
        invariant
            pos < rest <= len,
            scan_call_args(s@, name_end + 1, false, Seq::empty()) == scan_call_args(
                s@,
                rest as int,
                needs_comma,
                field_views(fields@),
            ),
        decreases len - rest,
    {
        if rest < len && s[rest] == 41 {
            return Ok((Value::FunctionCall { function, args: fields }, rest + 1));
        }
        if rest >= len {
            return Err(
                StraceParseError::new(rest, 0, "unexpected end of function argument list"),
            );
        }
        if needs_comma {
            if starts_with_at(s, rest, comma_space().as_slice()) {
                rest = rest + 2;
            } else {
                return Err(
                    StraceParseError::new(
                        rest,
                        len - rest,
                        "expected ', ' or ')' after function argument",
                    ),
                );
            }
        }
        let t = advance_spaces(s, rest);
        let ghost pre_fields = fields@;
        let (field, nr) = parse_field(s, t)?;
        proof {
            lemma_field_views_push(pre_fields, field);
        }
        fields.push(field);
        needs_comma = true;
        rest = nr;
    }
}

/// Parses the bracket forms: first a sparse array (`[ [k] = v, … ]`) is
/// attempted; otherwise a flat sequence whose separator — `', '` or `' '`
/// — is fixed by the first one seen.
#[verifier::loop_isolation(false)]
#[verifier::rlimit(100)]
#[verifier::spinoff_prover]
fn parse_bracket(s: &[u8], pos: usize) -> (r: Result<(Value, usize), StraceParseError>)
    requires
        pos < s@.len(),
        s@[pos as int] == 91,
    ensures
        r matches Ok(t) ==> pos < t.1 <= s@.len() && (t.0 is Array || t.0 is SparseArray),
        match r {
            Ok(t) => scan_bracket(s@, pos as int) == Some((view_value(t.0), t.1 as int)),
            Err(_) => scan_bracket(s@, pos as int) is None,
        },
    decreases s@.len() - pos, 0int,
{
    let len = s.len();
    // Attempt the sparse form: `[`, value, `]`, `=`.
    let t0 = advance_spaces(s, pos + 1);
    let mut sparse_value_start: usize = 0;
    let mut sparse_first: Option<Value> = None;
    if t0 < len && s[t0] == 91 {
        match parse_value(s, t0 + 1) {
            Ok((first_index, r1)) => {
                let t1 = advance_spaces(s, r1);
                if t1 < len && s[t1] == 93 {
                    let t2 = advance_spaces(s, t1 + 1);
                    if t2 < len && s[t2] == 61 {
                        sparse_first = Some(first_index);
                        sparse_value_start = t2 + 1;
                    }
                }
            },
            Err(_) => {},
        }
    }
    if let Some(first_index) = sparse_first {
        let ghost gk0 = view_value(first_index);
        let vstart = advance_spaces(s, sparse_value_start);
        let (first_item, r2) = parse_value(s, vstart)?;
        let ghost gv0 = view_value(first_item);
        let mut items: Vec<(Value, Value)> = Vec::new();
        items.push((first_index, first_item));
        proof {
            lemma_pair_views(items@);
            assert(pair_views(items@) =~= seq![(gk0, gv0)]);
        }
        let mut rest: usize = r2;
        loop
            invariant
                pos < rest <= len,
                scan_bracket(s@, pos as int) == (match scan_sparse_items(
                    s@,
                    rest as int,
                    pair_views(items@),
                ) {
                    None => None::<(ValueModel, int)>,
                    Some((its, e)) => Some((ValueModel::MSparseArray(its), e)),
                }),
            decreases len - rest,
        {
            let tr = advance_spaces(s, rest);
            if tr < len && s[tr] == 93 {
                return Ok((Value::SparseArray(items), tr + 1));
            }
            if tr >= len {
                return Err(StraceParseError::new(tr, 0, "unexpected end of sparse array"));
            }
            if !starts_with_at(s, tr, comma_bracket().as_slice()) {
                return Err(
                    StraceParseError::new(
                        tr,
                        len - tr,
                        "expected ', [' or ']' after sparse array item",
                    ),
                );
            }
            let i0 = advance_spaces(s, tr + 3);
            let (index, r3) = parse_value(s, i0)?;
            let t3 = advance_spaces(s, r3);
            if !(t3 < len && s[t3] == 93) {
                return Err(
                    StraceParseError::new(t3, 0, "expected '] = ' after sparse array index"),
                );
            }
            let t4 = advance_spaces(s, t3 + 1);
            if !(t4 < len && s[t4] == 61) {
                return Err(
                    StraceParseError::new(t4, 0, "expected '] = ' after sparse array index"),
                );
            }
            let v0 = advance_spaces(s, t4 + 1);
            let (item, r4) = parse_value(s, v0)?;
            proof {
                lemma_pair_views_push(items@, (index, item));
            }
            items.push((index, item));
            rest = r4;
        }
    } else {
        // Flat array or bitset.
        let mut items: Vec<Value> = Vec::new();
        let mut is_first = true;
        let mut needs_comma: Option<bool> = None;
        let mut rest: usize = pos + 1;
        proof {
            assert(views_of(items@) =~= Seq::<ValueModel>::empty());
        }
        loop
            invariant
                pos < rest <= len,
                scan_flat_items(s@, pos + 1, true, None, Seq::empty()) == scan_flat_items(
                    s@,
                    rest as int,
                    is_first,
                    needs_comma,
                    views_of(items@),
                ),
            decreases len - rest,
        {
            if rest < len && s[rest] == 93 {
                return Ok((Value::Array(items), rest + 1));
            }
            if rest >= len {
                return Err(StraceParseError::new(rest, 0, "unexpected end of array"));
            }
            if is_first {
                is_first = false;
            } else {
                match needs_comma {
                    Some(true) => {
                        if starts_with_at(s, rest, comma_space().as_slice()) {
                            rest = rest + 2;
                        } else {
                            return Err(
                                StraceParseError::new(
                                    rest,
                                    len - rest,
                                    "expected ', ' or ']' after array item",
                                ),
                            );
                        }
                    },
                    Some(false) => {
                        if s[rest] == 32 {
                            rest = rest + 1;
                        } else {
                            return Err(
                                StraceParseError::new(
                                    rest,
                                    len - rest,
                                    "expected ' ' after bitset element",
                                ),
                            );
                        }
                    },
                    None => {
                        if starts_with_at(s, rest, comma_space().as_slice()) {
                            needs_comma = Some(true);
                            rest = rest + 2;
                        } else if s[rest] == 32 {
                            needs_comma = Some(false);
                            rest = rest + 1;
                        } else {
                            return Err(
                                StraceParseError::new(
                                    rest,
                                    len - rest,
                                    "expected ' ' or ', ' or ']' after first array item",
                                ),
                            );
                        }
                    },
                }
            }
            let (item, nr) = parse_value(s, rest)?;
            proof {
                lemma_views_of_push(items@, item);
            }
            items.push(item);
            rest = nr;
        }
    }
}

/// Parses `~[e e …]`, space-separated only.
#[verifier::loop_isolation(false)]
fn parse_not_bitset_items(s: &[u8], pos: usize) -> (r: Result<(Value, usize), StraceParseError>)
    requires
        match_at(s@, tok_not_bitset(), pos as int),
        pos <= s@.len(),
    ensures
        r matches Ok(t) ==> pos < t.1 <= s@.len() && t.0 is NotBitset,
        match r {
            Ok(t) => (scan_nb_items(s@, pos + 2, true, Seq::empty()) matches Some(nb)
                && view_value(t.0) == ValueModel::MNotBitset(nb.0) && t.1 == nb.1),
            Err(_) => scan_nb_items(s@, pos + 2, true, Seq::empty()) is None,
        },
    decreases s@.len() - pos, 0int,
{
    let len = s.len();
    let mut items: Vec<Value> = Vec::new();
    let mut is_first = true;
    let mut rest: usize = pos + 2;
    proof {
        assert(views_of(items@) =~= Seq::<ValueModel>::empty());
    }
    loop
        invariant
            pos < rest <= len,
            scan_nb_items(s@, pos + 2, true, Seq::empty()) == scan_nb_items(
                s@,
                rest as int,
                is_first,
                views_of(items@),
            ),
        decreases len - rest,
    {
        if rest < len && s[rest] == 93 {
            return Ok((Value::NotBitset(items), rest + 1));
        }
        if rest >= len {
            return Err(StraceParseError::new(rest, 0, "unexpected end of bitset"));
        }
        if !is_first {
            if s[rest] == 32 {
                rest = rest + 1;
            } else {
                return Err(
                    StraceParseError::new(
                        rest,
                        len - rest,
                        "expected ' ' or ']' after bitset element",
                    ),
                );
            }
        }
        is_first = false;
        let (item, nr) = parse_value(s, rest)?;
        proof {
            lemma_views_of_push(items@, item);
        }
        items.push(item);
        rest = nr;
    }
}

/// Parses `{ field, … }` with `t` at the opening brace (leading whitespace
/// from `pos` already absorbed).
#[verifier::loop_isolation(false)]
fn parse_struct_fields(s: &[u8], pos: usize, t: usize) -> (r: Result<
    (Value, usize),
    StraceParseError,
>)
    requires
        pos <= t < s@.len(),
        s@[t as int] == 123,
    ensures
        r matches Ok(res) ==> pos < res.1 <= s@.len() && res.0 is Struct,
        match r {
            Ok(res) => (scan_struct_fields(s@, t + 1, true, Seq::empty()) matches Some(sf)
                && view_value(res.0) == ValueModel::MStruct(sf.0) && res.1 == sf.1),
            Err(_) => scan_struct_fields(s@, t + 1, true, Seq::empty()) is None,
        },
    decreases s@.len() - pos, 0int,
{
    let len = s.len();
    let mut fields: Vec<Field> = Vec::new();
    let mut is_first = true;
    let mut rest: usize = t + 1;
    proof {
        assert(field_views(fields@) =~= Seq::<FieldModel>::empty());
    }
    loop
        invariant
            pos < rest <= len,
            t + 1 <= rest,
            scan_struct_fields(s@, t + 1, true, Seq::empty()) == scan_struct_fields(
                s@,
                rest as int,
                is_first,
                field_views(fields@),
            ),
        decreases len - rest,
    {
        let tr = advance_spaces(s, rest);
        if tr < len && s[tr] == 125 {
            return Ok((Value::Struct(fields), tr + 1));
        }
        if tr >= len {
            return Err(StraceParseError::new(tr, 0, "unexpected end of struct"));
        }
        let fstart: usize = if is_first {
            tr
        } else {
            if s[tr] == 44 {
                advance_spaces(s, tr + 1)
            } else {
                return Err(
                    StraceParseError::new(tr, len - tr, "expected ',' or '}' after struct field"),
                );
            }
        };
        is_first = false;
        let (f, nr) = parse_field(s, fstart)?;
        proof {
            lemma_field_views_push(fields@, f);
        }
        fields.push(f);
        rest = nr;
    }
}

/// Reads a `<…>` annotation with `start` just past the opening `<`,
/// through its balancing `>`, and takes an optional `(deleted)` marker.
#[verifier::loop_isolation(false)]
fn parse_annotation(s: &[u8], start: usize) -> (r: Result<
    (Vec<u8>, bool, usize),
    StraceParseError,
>)
    requires
        start <= s@.len(),
    ensures
        match r {
            Ok(t) => (scan_annotation(s@, start as int, 0, Seq::empty()) matches Some(a) && t.0@
                == a.0 && start + 1 <= a.1 <= s@.len() && t.1 == match_at(s@, tok_deleted(), a.1)
                && t.2 == (if t.1 {
                a.1 + 9
            } else {
                a.1
            })),
            Err(_) => scan_annotation(s@, start as int, 0, Seq::empty()) is None,
        },
{
    let len = s.len();
    let mut p: usize = start;
    let mut depth: usize = 0;
    let mut ann: Vec<u8> = Vec::new();
    let mut open_ann = true;
    proof {
        assert(ann@ =~= Seq::<u8>::empty());
    }
    while open_ann
        invariant
            start <= p <= len,
            depth <= p,
            open_ann ==> scan_annotation(s@, start as int, 0, Seq::empty()) == scan_annotation(
                s@,
                p as int,
                depth as int,
                ann@,
            ),
            !open_ann ==> scan_annotation(s@, start as int, 0, Seq::empty()) == Some(
                (ann@, p as int),
            ) && start + 1 <= p,
        decreases len - p,
    {
        if p >= len {
            return Err(StraceParseError::new(p, 0, "unterminated annotation, expected '>'"));
        }
        let c: u8 = s[p];
        let ends_dash: bool = if ann.len() > 0 {
            ann[ann.len() - 1] == 45
        } else {
            false
        };
        if c == 62 && ends_dash {
            // `->` stays literal inside an annotation.
            ann.push(62);
            p = p + 1;
        } else if c == 62 {
            if depth == 0 {
                p = p + 1;
                open_ann = false;
            } else {
                depth = depth - 1;
                ann.push(62);
                p = p + 1;
            }
        } else if c == 92 {
            let (b, k) = match parse_string_escape_sequence(s, p + 1) {
                Ok(t) => t,
                Err(e) => {
                    return Err(e);
                },
            };
            ann.push(b);
            p = k;
        } else {
            ann.push(c);
            if c == 60 {
                depth = depth + 1;
            }
            p = p + 1;
        }
    }
    let deleted = starts_with_at(s, p, deleted_marker().as_slice());
    let end = if deleted {
        p + 9
    } else {
        p
    };
    Ok((ann, deleted, end))
}

/// Reads the chain of `(operator, primary value)` pairs at `from`.
#[verifier::loop_isolation(false)]
fn parse_op_chain(s: &[u8], from: usize) -> (r: Result<
    (Vec<(BinaryOperator, Value)>, usize),
    StraceParseError,
>)
    requires
        from <= s@.len(),
    ensures
        match r {
            Ok(t) => scan_op_chain(s@, from as int, Seq::empty()) == Some(
                (op_views(t.0@), t.1 as int),
            ) && from <= t.1 <= s@.len(),
            Err(_) => scan_op_chain(s@, from as int, Seq::empty()) is None,
        },
    decreases s@.len() - from, 0int,
{
    let len = s.len();
    let mut ops: Vec<(BinaryOperator, Value)> = Vec::new();
    let mut rest: usize = from;
    let mut more_ops = true;
    proof {
        assert(op_views(ops@) =~= Seq::<(BinaryOperator, ValueModel)>::empty());
    }
    while more_ops
        invariant
            from <= rest <= len,
            more_ops ==> scan_op_chain(s@, from as int, Seq::empty()) == scan_op_chain(
                s@,
                rest as int,
                op_views(ops@),
            ),
            !more_ops ==> scan_op_chain(s@, from as int, Seq::empty()) == Some(
                (op_views(ops@), rest as int),
            ),
        decreases len - rest + (if more_ops {
            1int
        } else {
            0int
        }),
    {
        match try_binop(s, rest) {
            None => {
                more_ops = false;
            },
            Some((op, after)) => {
                let (nv, nr) = match parse_value_basic(s, after) {
                    Ok(t) => t,
                    Err(e) => {
                        return Err(e);
                    },
                };
                proof {
                    lemma_op_views_push(ops@, (op, nv));
                }
                ops.push((op, nv));
                rest = nr;
            },
        }
    }
    Ok((ops, rest))
}

/// Parses a full value: a primary value and then, in order, an optional
/// `<…>` annotation (escape-aware, balanced `<>`, `->` literal, optional
/// `(deleted)` mark), a chain of binary operators, a right-associative
/// ` or ` alternative, a trailing `/* … */` comment, and a `=>` change.
#[verifier::loop_isolation(false)]
#[verifier::rlimit(100)]
#[verifier::spinoff_prover]
pub fn parse_value(s: &[u8], pos: usize) -> (r: Result<(Value, usize), StraceParseError>)
    requires
        pos <= s@.len(),
    ensures
        r matches Ok(t) ==> pos < t.1 <= s@.len(),
        match r {
            Ok(t) => scan_value(s@, pos as int) == Some((view_value(t.0), t.1 as int)),
            Err(_) => scan_value(s@, pos as int) is None,
        },
    decreases s@.len() - pos, 2int,
{
    let len = s.len();
    let (v0, rest0) = match parse_value_basic(s, pos) {
        Ok(t) => t,
        Err(e) => {
            return Err(e);
        },
    };
    if rest0 == len {
        // Nothing can follow: no annotation, operator, alternative,
        // comment or change fits in an empty remainder.
        return Ok((v0, rest0));
    }
    let ghost gm0 = view_value(v0);
    let mut v = v0;
    let mut rest = rest0;
    if rest < len && s[rest] == 60 {
        // An annotation in angle brackets.
        let (ann, deleted, p) = match parse_annotation(s, rest + 1) {
            Ok(t) => t,
            Err(e) => {
                return Err(e);
            },
        };
        let ghost gann = ann@;
        v = Value::Annotated { value: Box::new(v), annotation: ann, deleted };
        rest = p;
        proof {
            assert(view_value(v) == (ValueModel::MAnnotated {
                value: Box::new(gm0),
                annotation: gann,
                deleted,
            }));
        }
    }
    let ghost gm1 = view_value(v);
    let ghost grest1 = rest as int;
    proof {
        if !(s@[rest0 as int] == 60) {
            assert(gm1 == gm0 && grest1 == rest0 as int);
        }
    }
    // A chain of binary operators.
    let (ops, after_ops) = match parse_op_chain(s, rest) {
        Ok(t) => t,
        Err(e) => {
            return Err(e);
        },
    };
    rest = after_ops;
    let ghost gops = op_views(ops@);
    if ops.len() > 0 {
        v = Value::BinaryOperations { first: Box::new(v), operators_and_operands: ops };
    }
    let ghost gm2 = view_value(v);
    let ghost grest2 = rest as int;
    proof {
        assert(scan_op_chain(s@, grest1, Seq::empty()) == Some((gops, grest2)));
        if gops.len() > 0 {
            assert(gm2 == (ValueModel::MBinaryOperations {
                first: Box::new(gm1),
                operators_and_operands: gops,
            }));
        } else {
            assert(gm2 == gm1);
        }
    }
    // A right-associative alternative.
    if starts_with_at(s, rest, or_word().as_slice()) {
        let astart = advance_spaces(s, rest + 4);
        let (rv, nr) = match parse_value(s, astart) {
            Ok(t) => t,
            Err(e) => {
                return Err(e);
            },
        };
        let ghost grv = view_value(rv);
        v = Value::Alternative { left: Box::new(v), right: Box::new(rv) };
        rest = nr;
        proof {
            assert(view_value(v) == (ValueModel::MAlternative {
                left: Box::new(gm2),
                right: Box::new(grv),
            }));
        }
    }
    let ghost gm3 = view_value(v);
    let ghost grest3 = rest as int;
    // The trailing comment and changed-value arrow.
    let (v2, rest2) = match parse_suffix_tail(s, v, rest, Ghost(pos as int)) {
        Ok(t) => t,
        Err(e) => {
            return Err(e);
        },
    };
    proof {
        assert(scan_value_basic(s@, pos as int) == Some((gm0, rest0 as int)));
        assert(scan_after_annotation(s@, pos as int, gm1, grest1) == Some(
            (view_value(v2), rest2 as int),
        ));
        assert(scan_after_primary(s@, pos as int, gm0, rest0 as int) == Some(
            (view_value(v2), rest2 as int),
        ));
        assert(scan_value(s@, pos as int) == Some((view_value(v2), rest2 as int)));
    }
    Ok((v2, rest2))
}

/// Attaches a trailing `/* … */` comment and a `=>` changed-value arrow
/// to an already parsed value ending at `from`.
#[verifier::loop_isolation(false)]
#[verifier::rlimit(100)]
fn parse_suffix_tail(
    s: &[u8],
    v: Value,
    from: usize,
    Ghost(gpos): Ghost<int>,
) -> (r: Result<(Value, usize), StraceParseError>)
    requires
        0 <= gpos < from <= s@.len(),
    ensures
        match r {
            Ok(t) => scan_after_alternative(s@, gpos, view_value(v), from as int) == Some(
                (view_value(t.0), t.1 as int),
            ) && gpos < t.1 <= s@.len(),
            Err(_) => scan_after_alternative(s@, gpos, view_value(v), from as int) is None,
        },
    decreases s@.len() - gpos, 1int,
{
    let len = s.len();
    let ghost gm3 = view_value(v);
    let mut v = v;
    let mut rest = from;
    // A trailing comment.
    let ct = advance_spaces(s, rest);
    if starts_with_at(s, ct, comment_open().as_slice()) {
        let m = match find_pat_from(s, comment_close().as_slice(), ct + 2) {
            Some(m) => m,
            None => {
                return Err(
                    StraceParseError::new(ct, len - ct, "unterminated comment, expected '*/'"),
                );
            },
        };
        let clo = advance_spaces_to(s, ct + 2, m);
        let chi = retreat_spaces_from(s, clo, m);
        v = Value::Commented { value: Box::new(v), comment: copy_range(s, clo, chi) };
        rest = m + 2;
        proof {
            assert(view_value(v) == (ValueModel::MCommented {
                value: Box::new(gm3),
                comment: s@.subrange(clo as int, chi as int),
            }));
        }
    }
    let ghost gm4 = view_value(v);
    let ghost grest4 = rest as int;
    // A changed-value arrow.
    let ch = advance_spaces(s, rest);
    if starts_with_at(s, ch, changed_arrow().as_slice()) {
        let tstart = advance_spaces(s, ch + 2);
        let (tv, nr) = match parse_value(s, tstart) {
            Ok(t) => t,
            Err(e) => {
                return Err(e);
            },
        };
        let ghost gtv = view_value(tv);
        v = Value::Changed { from: Box::new(v), to: Box::new(tv) };
        rest = nr;
        proof {
            assert(view_value(v) == (ValueModel::MChanged {
                from: Box::new(gm4),
                to: Box::new(gtv),
            }));
        }
    }
    proof {
        assert(scan_after_alternative(s@, gpos, gm3, from as int) == Some(
            (view_value(v), rest as int),
        ));
    }
    Ok((v, rest))
}

/// Parses a field: `ident = value` when the text before the first `=`
/// trims to an identifier and something follows the `=`; a bare value
/// otherwise.
pub fn parse_field(s: &[u8], pos: usize) -> (r: Result<(Field, usize), StraceParseError>)
    requires
        pos <= s@.len(),
    ensures
        r matches Ok(t) ==> pos < t.1 <= s@.len(),
        match r {
            Ok(t) => scan_field(s@, pos as int) == Some((view_field(t.0), t.1 as int)),
            Err(_) => scan_field(s@, pos as int) is None,
        },
    decreases s@.len() - pos, 3int,
{
    let len = s.len();
    let mut name_lo: usize = 0;
    let mut name_hi: usize = 0;
    let mut value_start: usize = 0;
    let mut has_name = false;
    match find_byte(s, pos, 61) {
        Some(eqi) => {
            let nlo = advance_spaces_to(s, pos, eqi);
            let nhi = retreat_spaces_from(s, nlo, eqi);
            let vstart = advance_spaces(s, eqi + 1);
            if vstart < len && check_ident_range(s, nlo, nhi) {
                has_name = true;
                name_lo = nlo;
                name_hi = nhi;
                value_start = vstart;
            }
        },
        None => {},
    }
    if has_name {
        let (v, rest) = parse_value(s, value_start)?;
        Ok((Field { name: Some(copy_range(s, name_lo, name_hi)), value: v }, rest))
    } else {
        let (v, rest) = parse_value(s, pos)?;
        Ok((Field { name: None, value: v }, rest))
    }
}

/// Parses a whole comma-separated argument list.
#[verifier::loop_isolation(false)]
pub fn parse_args(s: &[u8]) -> (r: Result<Fields, StraceParseError>)
    ensures
        skip_spaces(s@, 0) == s@.len() ==> (r matches Ok(f) && f.values@.len() == 0),
        match r {
            Ok(f) => scan_args(s@) == Some(field_views(f.values@)),
            Err(_) => scan_args(s@) is None,
        },
{
    let len = s.len();
    let mut values: Vec<Field> = Vec::new();
    let mut needs_comma = false;
    let mut pos: usize = 0;
    let mut more = true;
    proof {
        assert(field_views(values@) =~= Seq::<FieldModel>::empty());
    }
    while more
        invariant
            pos <= len,
            skip_spaces(s@, 0) == s@.len() ==> ((pos == 0 || pos >= s@.len()) && values@.len()
                == 0),
            more ==> scan_args(s@) == scan_args_rec(
                s@,
                pos as int,
                needs_comma,
                field_views(values@),
            ),
            !more ==> scan_args(s@) == Some(field_views(values@)),
        decreases len - pos + (if more {
            1int
        } else {
            0int
        }),
    {
        pos = advance_spaces(s, pos);
        if pos >= len {
            more = false;
        } else {
            if needs_comma {
                if s[pos] == 44 {
                    pos = advance_spaces(s, pos + 1);
                } else {
                    return Err(
                        StraceParseError::new(pos, len - pos, "expected ',' or end of args"),
                    );
                }
            }
            needs_comma = true;
            let (f, np) = parse_field(s, pos)?;
            proof {
                lemma_field_views_push(values@, f);
            }
            values.push(f);
            pos = np;
        }
    }
    Ok(Fields { values })
}

/// Under the two quoted-string hypotheses, the whole-value scan reduces
/// to the string scan: a complete quoted literal denotes `MString`, and
/// with a trailing `...` marker `MTruncatedString`, of the same bytes.
proof fn lemma_whole_string_scan(s: Seq<u8>)
    ensures
        (s.len() > 0 && s[0] == 34 && scan_string(s, 1) is Some && scan_string(s, 1)->Some_0.1
            == s.len()) ==> scan_whole_value(s) == Some(
            ValueModel::MString(scan_string(s, 1)->Some_0.0),
        ),
        (s.len() > 0 && s[0] == 34 && scan_string(s, 1) is Some && match_at(
            s,
            tok_ellipsis(),
            scan_string(s, 1)->Some_0.1,
        ) && scan_string(s, 1)->Some_0.1 + 3 == s.len()) ==> scan_whole_value(s) == Some(
            ValueModel::MTruncatedString(scan_string(s, 1)->Some_0.0),
        ),
{
    if s.len() > 0 && s[0] == 34 && scan_string(s, 1) is Some {
        let (b, e) = scan_string(s, 1)->Some_0;
        if e == s.len() {
            assert(!match_at(s, tok_ellipsis(), e));
            assert(scan_value_basic(s, 0) == Some((ValueModel::MString(b), e)));
            lemma_scan_string_low(s, 1);
            assert(scan_value(s, 0) == Some((ValueModel::MString(b), e)));
        } else if match_at(s, tok_ellipsis(), e) && e + 3 == s.len() {
            assert(scan_value_basic(s, 0) == Some((ValueModel::MTruncatedString(b), e + 3)));
            lemma_scan_string_low(s, 1);
            assert(scan_value(s, 0) == Some((ValueModel::MTruncatedString(b), e + 3)));
        }
    }
}

/// A successful string scan advances and stays in range.
proof fn lemma_scan_string_low(s: Seq<u8>, i: int)
    requires
        scan_string(s, i) is Some,
    ensures
        i < scan_string(s, i)->Some_0.1 <= s.len(),
    decreases s.len() - i,
{
    lemma_find_delim_props(s, i);
    let j = find_delim_from(s, i)->Some_0;
    if s[j] != 34 {
        match escape_spec(s, j + 1) {
            Some((b, k)) => {
                lemma_scan_string_low(s, k);
            },
            None => {},
        }
    }
}

/// The byte-shaped constructors of the model pin their `Value` twin.
pub proof fn lemma_view_string_shapes(v: Value)
    ensures
        view_value(v) matches ValueModel::MString(b) ==> (v matches Value::String(bb) && bb@
            == b),
        view_value(v) matches ValueModel::MTruncatedString(b) ==> (v matches
        Value::TruncatedString(bb) && bb@ == b),
        view_value(v) matches ValueModel::MExpression(b) ==> (v matches Value::Expression(bb)
            && bb@ == b),
{
    match v {
        Value::String(_) => {},
        Value::TruncatedString(_) => {},
        Value::Expression(_) => {},
        Value::FunctionCall { .. } => {},
        Value::Struct(_) => {},
        Value::SparseArray(_) => {},
        Value::Array(_) => {},
        Value::NotBitset(_) => {},
        Value::Annotated { .. } => {},
        Value::Commented { .. } => {},
        Value::Changed { .. } => {},
        Value::Alternative { .. } => {},
        Value::BinaryOperations { .. } => {},
        Value::Truncated => {},
    }
}

/// Parses a span that must hold exactly one value, rejecting any residue.
/// In particular — the round-trip law for plain strings — when the input
/// is one quoted literal (see `scan_string` and
/// `lemma_plain_string_scans`), the result is `Value::String` holding
/// exactly the scanned bytes.
pub fn parse_whole_value(s: &[u8]) -> (r: Result<Value, StraceParseError>)
    ensures
        (s@.len() > 0 && s@[0] == 34 && scan_string(s@, 1) is Some && scan_string(
            s@,
            1,
        )->Some_0.1 == s@.len()) ==> (r matches Ok(v) && (v matches Value::String(b) && b@
            == scan_string(s@, 1)->Some_0.0)),
        (s@.len() > 0 && s@[0] == 34 && scan_string(s@, 1) is Some && match_at(
            s@,
            tok_ellipsis(),
            scan_string(s@, 1)->Some_0.1,
        ) && scan_string(s@, 1)->Some_0.1 + 3 == s@.len()) ==> (r matches Ok(v) && (v matches
        Value::TruncatedString(b) && b@ == scan_string(s@, 1)->Some_0.0)),
        match r {
            Ok(v) => scan_whole_value(s@) == Some(view_value(v)),
            Err(_) => scan_whole_value(s@) is None,
        },
{
    proof {
        lemma_whole_string_scan(s@);
    }
    let (value, rest) = match parse_value(s, 0) {
        Ok(t) => t,
        Err(e) => {
            return Err(e);
        },
    };
    if rest != s.len() {
        return Err(
            StraceParseError::new(rest, s.len() - rest, "expected end of input after value"),
        );
    }
    proof {
        lemma_view_string_shapes(value);
    }
    Ok(value)
}

// --- String laws ---------------------------------------------------------------

proof fn lemma_find_delim_lands(s: Seq<u8>, i: int, j: int)
    requires
        0 <= i <= j < s.len(),
        forall|m: int| i <= m < j ==> s[m] != 34 && #[trigger] s[m] != 92,
        s[j] == 34 || s[j] == 92,
    ensures
        find_delim_from(s, i) == Some(j),
    decreases j - i,
{
    if i < j {
        lemma_find_delim_lands(s, i + 1, j);
    }
}

/// Law: a quoted byte string whose contents hold no `"` and no `\` scans
/// to exactly its own bytes, consuming the whole quoted text. Together
/// with the contract of `parse_whole_value`, parsing `"` + s + `"` yields
/// `Value::String(s)`.
pub proof fn lemma_plain_string_scans(s: Seq<u8>)
    requires
        forall|i: int| 0 <= i < s.len() ==> s[i] != 34 && #[trigger] s[i] != 92,
    ensures
        scan_string(seq![34u8] + s + seq![34u8], 1) == Some((s, s.len() + 2int)),
{
    let q = seq![34u8] + s + seq![34u8];
    assert forall|m: int| 1 <= m < s.len() + 1 implies q[m] != 34 && #[trigger] q[m] != 92 by {
        assert(q[m] == s[m - 1]);
    }
    assert(q[s.len() as int + 1] == 34);
    lemma_find_delim_lands(q, 1, s.len() as int + 1);
    assert(q.subrange(1, s.len() as int + 1) =~= s);
}



// --- The header law ----------------------------------------------------------

/// The fixed record body used by the header law below:
/// `execve("/bin/x", [], []) = 0 <0>`.
pub open spec fn canonical_exec_body() -> Seq<u8> {
    seq![
        101u8, 120u8, 101u8, 99u8, 118u8, 101u8, 40u8, 34u8, 47u8, 98u8, 105u8, 110u8, 47u8,
        120u8, 34u8, 44u8, 32u8, 91u8, 93u8, 44u8, 32u8, 91u8, 93u8, 41u8, 32u8, 61u8, 32u8,
        48u8, 32u8, 60u8, 48u8, 62u8,
    ]
}

/// Law: for every pid written as a plain run of digits and every
/// space-free timestamp token the duration model accepts (with the
/// combined nanosecond count representable), the canonical exec line
/// `<pid> <ts> execve("/bin/x", [], []) = 0 <0>` scans to a syscall
/// record carrying exactly that pid, that timestamp, and the name
/// `execve`. The contract of `parse_line` carries this to the scanner.
#[verifier::rlimit(60)]
pub proof fn lemma_canonical_exec_line_scans(pid_tok: Seq<u8>, ts_tok: Seq<u8>)
    requires
        pid_tok.len() > 0,
        all_ascii_digits(pid_tok),
        dec_value(pid_tok) <= i32::MAX,
        ts_tok.len() > 0,
        forall|m: int| 0 <= m < ts_tok.len() ==> ts_tok[m] != 32,
        duration_model(ts_tok) is Some,
        i64::MIN <= duration_model(ts_tok)->Some_0.0 * 1_000_000_000 + duration_model(
            ts_tok,
        )->Some_0.1 <= i64::MAX,
    ensures
        ({
            let s = pid_tok + seq![32u8] + ts_tok + seq![32u8] + canonical_exec_body();
            let total = duration_model(ts_tok)->Some_0.0 * 1_000_000_000 + duration_model(
                ts_tok,
            )->Some_0.1;
            scan_line(s) matches Some(lm) && lm.pid == dec_value(pid_tok) && lm.timestamp == total
                && (lm.body matches BodyModel::Syscall { name, dur_secs, dur_nanos, .. } && name
                == canonical_exec_body().subrange(0, 6) && dur_secs == 0 && dur_nanos == 0)
        }),
{
    let sp = seq![32u8];
    let body = canonical_exec_body();
    let s = pid_tok + sp + ts_tok + sp + body;
    let n1 = pid_tok.len() as int;
    let n2 = ts_tok.len() as int;
    let b = n1 + 1 + n2 + 1;
    assert(s.len() == b + 32);
    assert(s.subrange(0, n1) =~= pid_tok);
    assert(s[n1] == 32);
    assert(s.subrange(n1 + 1, n1 + 1 + n2) =~= ts_tok);
    assert(s[n1 + 1 + n2] == 32);
    assert(s.subrange(b, s.len() as int) =~= body);
    assert forall|k: int| 0 <= k < 32 implies s[b + k] == #[trigger] body[k] by {
        assert(s.subrange(b, s.len() as int)[k] == s[b + k]);
    }

    // The pid token runs to the first space.
    assert forall|m: int| 0 <= m < n1 implies s[m] != 32 by {
        assert(s.subrange(0, n1)[m] == s[m]);
        assert(is_ascii_digit(pid_tok[m]));
    }
    crate::bytes::lemma_find_byte_lands(s, 0, n1, 32);
    assert(signed_dec_ok(pid_tok)) by {
        assert(is_ascii_digit(pid_tok[0]));
    }
    crate::bytes::lemma_dec_value_nonneg(pid_tok);

    // The timestamp token runs to the next space.
    assert forall|m: int| n1 + 1 <= m < n1 + 1 + n2 implies s[m] != 32 by {
        assert(s.subrange(n1 + 1, n1 + 1 + n2)[m - (n1 + 1)] == s[m]);
    }
    crate::bytes::lemma_find_byte_lands(s, n1 + 1, n1 + 1 + n2, 32);

    // The body is neither an exit nor a signal record.
    assert(!match_at(s, tok_exit_open(), b)) by {
        if match_at(s, tok_exit_open(), b) {
            assert(s.subrange(b, b + 4)[0] == tok_exit_open()[0]);
        }
    }
    assert(!match_at(s, tok_signal_open(), b)) by {
        if match_at(s, tok_signal_open(), b) {
            assert(s.subrange(b, b + 4)[0] == tok_signal_open()[0]);
        }
    }

    // The opening parenthesis of the call.
    assert forall|m: int| b <= m < b + 6 implies s[m] != 40 by {
        assert(s[b + (m - b)] == body[m - b]);
    }
    crate::bytes::lemma_find_byte_lands(s, b, b + 6, 40);
    assert(s[s.len() - 1] == 62);

    // The duration delimiter ` <` is found from the right.
    let plt = tok_space_lt();
    assert(!match_at(s, plt, b + 29)) by {
        if match_at(s, plt, b + 29) {
            assert(s.subrange(b + 29, b + 31)[0] == plt[0]);
        }
    }
    assert(match_at(s, plt, b + 28)) by {
        assert(s.subrange(b + 28, b + 30) =~= plt);
    }
    assert(rfind_in(s, plt, b + 7, s.len() - 1) == Some(b + 28)) by {
        assert(rfind_in_from(s, plt, b + 7, b + 29) == rfind_in_from(s, plt, b + 7, b + 28));
    }

    // The duration token is the single digit zero.
    let dt = s.subrange(b + 30, s.len() - 1);
    assert(dt =~= seq![48u8]);
    assert(find_byte_from(dt, 0, 46) is None) by {
        assert(find_byte_from(dt, 0, 46) == find_byte_from(dt, 1, 46));
    }
    assert(signed_dec_ok(dt));
    assert(dec_value(dt) == 0) by {
        assert(dt.drop_last() =~= Seq::<u8>::empty());
        assert(dec_value(Seq::<u8>::empty()) == 0);
    }
    assert(duration_model(dt) == Some((0int, 0int)));

    // The result delimiter ` = ` is found from the right.
    let peq = tok_space_eq();
    assert(!match_at(s, peq, b + 25)) by {
        if match_at(s, peq, b + 25) {
            assert(s.subrange(b + 25, b + 28)[0] == peq[0]);
        }
    }
    assert(match_at(s, peq, b + 24)) by {
        assert(s.subrange(b + 24, b + 27) =~= peq);
    }
    assert(rfind_in(s, peq, b + 7, b + 28) == Some(b + 24)) by {
        assert(rfind_in_from(s, peq, b + 7, b + 25) == rfind_in_from(s, peq, b + 7, b + 24));
    }

    // Trims around the result and the argument list.
    assert(skip_spaces_to(s, b + 27, b + 28) == b + 27);
    assert(trim_end_from(s, b + 27, b + 28) == b + 28);
    assert(trim_end_from(s, b + 7, b + 24) == b + 24);
    assert(s[b + 23] == 41);

    assert(s.subrange(b, b + 6) =~= body.subrange(0, 6));
    assert(duration_model(s.subrange(n1 + 1, n1 + 1 + n2)) == duration_model(ts_tok));
}


proof fn lemma_find_delim_extends(u: Seq<u8>, t: Seq<u8>, i: int)
    requires
        find_delim_from(u, i) is Some,
    ensures
        find_delim_from(u + t, i) == find_delim_from(u, i),
{
    let j = find_delim_from(u, i)->Some_0;
    lemma_find_delim_props(u, i);
    assert forall|m: int| i <= m < j implies (u + t)[m] != 34 && #[trigger] (u + t)[m] != 92 by {
        lemma_find_delim_first(u, i, m);
    }
    lemma_find_delim_lands(u + t, i, j);
}

proof fn lemma_find_delim_first(s: Seq<u8>, i: int, m: int)
    requires
        find_delim_from(s, i) is Some,
        i <= m < find_delim_from(s, i)->Some_0,
    ensures
        s[m] != 34 && s[m] != 92,
    decreases m - i,
{
    if i < m {
        lemma_find_delim_first(s, i + 1, m);
    }
}

/// A completed string scan reads only the scanned prefix: appending any
/// text afterwards leaves the scan unchanged.
proof fn lemma_scan_string_extends(u: Seq<u8>, t: Seq<u8>, i: int)
    requires
        scan_string(u, i) is Some,
        scan_string(u, i)->Some_0.1 <= u.len(),
    ensures
        scan_string(u + t, i) == scan_string(u, i),
    decreases u.len() - i,
{
    let s2 = u + t;
    let j = find_delim_from(u, i)->Some_0;
    lemma_find_delim_props(u, i);
    lemma_find_delim_extends(u, t, i);
    if u[j] == 34 {
        assert(u.subrange(i, j) =~= s2.subrange(i, j));
    } else {
        let (b0, k) = escape_spec(u, j + 1)->Some_0;
        // The recursive scan finds a later delimiter, so the escape ends
        // strictly inside `u`.
        assert(scan_string(u, k) is Some);
        assert(find_delim_from(u, k) is Some);
        lemma_find_delim_props(u, k);
        assert(k < u.len());
        assert(escape_spec(s2, j + 1) == escape_spec(u, j + 1)) by {
            let c = u[j + 1];
            assert(s2[j + 1] == c);
            if c == 120 {
                assert(s2[j + 2] == u[j + 2] && s2[j + 3] == u[j + 3]);
            } else if is_octal_digit(c) {
                let n = octal_run_len(u, j + 1);
                assert(j + 1 + n == k);
                if n == 1 {
                    assert(j + 2 < u.len());
                    assert(!is_octal_digit(u[j + 2]));
                    assert(s2[j + 2] == u[j + 2]);
                } else if n == 2 {
                    assert(j + 3 < u.len());
                    assert(s2[j + 2] == u[j + 2] && s2[j + 3] == u[j + 3]);
                } else {
                    assert(s2[j + 2] == u[j + 2] && s2[j + 3] == u[j + 3]);
                }
                assert(octal_run_len(s2, j + 1) == n);
            }
        }
        lemma_scan_string_extends(u, t, k);
        assert(u.subrange(i, j) =~= s2.subrange(i, j));
    }
}

/// Law: a complete quoted string followed by the literal `...` marker
/// scans to exactly the same bytes, and the marker stands right after
/// the closing quote — so, by the truncation clauses of `parse_value`
/// and `parse_whole_value`, parsing the marked text yields
/// `TruncatedString` holding the same bytes as the unmarked text's
/// `String`.
pub proof fn lemma_truncation_preserves_bytes(u: Seq<u8>)
    requires
        u.len() > 0,
        u[0] == 34,
        scan_string(u, 1) is Some,
        scan_string(u, 1)->Some_0.1 == u.len(),
    ensures
        ({
            let s = u + tok_ellipsis();
            &&& s[0] == 34
            &&& scan_string(s, 1) == scan_string(u, 1)
            &&& match_at(s, tok_ellipsis(), u.len() as int)
            &&& scan_string(s, 1)->Some_0.1 + 3 == s.len()
        }),
{
    lemma_scan_string_extends(u, tok_ellipsis(), 1);
    let s = u + tok_ellipsis();
    assert(s.subrange(u.len() as int, u.len() as int + 3) =~= tok_ellipsis());
}

} // verus!

verus! {

// --- The value-grammar model --------------------------------------------------

/// What a parsed value denotes, as mathematical data: the spec-level twin
/// of `Value`, used by the scanner model below.
pub enum ValueModel {
    MString(Seq<u8>),
    MTruncatedString(Seq<u8>),
    MExpression(Seq<u8>),
    MFunctionCall { function: Seq<u8>, args: Seq<FieldModel> },
    MStruct(Seq<FieldModel>),
    MSparseArray(Seq<(ValueModel, ValueModel)>),
    MArray(Seq<ValueModel>),
    MNotBitset(Seq<ValueModel>),
    MAnnotated { value: Box<ValueModel>, annotation: Seq<u8>, deleted: bool },
    MCommented { value: Box<ValueModel>, comment: Seq<u8> },
    MChanged { from: Box<ValueModel>, to: Box<ValueModel> },
    MAlternative { left: Box<ValueModel>, right: Box<ValueModel> },
    MBinaryOperations {
        first: Box<ValueModel>,
        operators_and_operands: Seq<(BinaryOperator, ValueModel)>,
    },
    MTruncated,
}

pub struct FieldModel {
    pub name: Option<Seq<u8>>,
    pub value: ValueModel,
}

pub open spec fn view_value(v: Value) -> ValueModel
    decreases v,
{
    match v {
        Value::String(b) => ValueModel::MString(b@),
        Value::TruncatedString(b) => ValueModel::MTruncatedString(b@),
        Value::Expression(e) => ValueModel::MExpression(e@),
        Value::FunctionCall { function, args } => ValueModel::MFunctionCall {
            function: function@,
            args: field_views(args@),
        },
        Value::Struct(fields) => ValueModel::MStruct(field_views(fields@)),
        Value::SparseArray(items) => ValueModel::MSparseArray(pair_views(items@)),
        Value::Array(items) => ValueModel::MArray(views_of(items@)),
        Value::NotBitset(items) => ValueModel::MNotBitset(views_of(items@)),
        Value::Annotated { value, annotation, deleted } => ValueModel::MAnnotated {
            value: Box::new(view_value(*value)),
            annotation: annotation@,
            deleted,
        },
        Value::Commented { value, comment } => ValueModel::MCommented {
            value: Box::new(view_value(*value)),
            comment: comment@,
        },
        Value::Changed { from, to } => ValueModel::MChanged {
            from: Box::new(view_value(*from)),
            to: Box::new(view_value(*to)),
        },
        Value::Alternative { left, right } => ValueModel::MAlternative {
            left: Box::new(view_value(*left)),
            right: Box::new(view_value(*right)),
        },
        Value::BinaryOperations { first, operators_and_operands } => {
            ValueModel::MBinaryOperations {
                first: Box::new(view_value(*first)),
                operators_and_operands: op_views(operators_and_operands@),
            }
        },
        Value::Truncated => ValueModel::MTruncated,
    }
}

pub open spec fn view_field(f: Field) -> FieldModel
    decreases f,
{
    FieldModel {
        name: match f.name {
            Some(n) => Some(n@),
            None => None,
        },
        value: view_value(f.value),
    }
}

pub open spec fn views_of(s: Seq<Value>) -> Seq<ValueModel>
    decreases s,
{
    if s.len() == 0 {
        Seq::empty()
    } else {
        seq![view_value(s[0])] + views_of(s.drop_first())
    }
}

pub open spec fn field_views(s: Seq<Field>) -> Seq<FieldModel>
    decreases s,
{
    if s.len() == 0 {
        Seq::empty()
    } else {
        seq![view_field(s[0])] + field_views(s.drop_first())
    }
}

pub open spec fn pair_views(s: Seq<(Value, Value)>) -> Seq<(ValueModel, ValueModel)>
    decreases s,
{
    if s.len() == 0 {
        Seq::empty()
    } else {
        seq![(view_value(s[0].0), view_value(s[0].1))] + pair_views(s.drop_first())
    }
}

pub open spec fn op_views(s: Seq<(BinaryOperator, Value)>) -> Seq<(BinaryOperator, ValueModel)>
    decreases s,
{
    if s.len() == 0 {
        Seq::empty()
    } else {
        seq![(s[0].0, view_value(s[0].1))] + op_views(s.drop_first())
    }
}

pub proof fn lemma_views_of(s: Seq<Value>)
    ensures
        views_of(s).len() == s.len(),
        forall|i: int| 0 <= i < s.len() ==> views_of(s)[i] == view_value(#[trigger] s[i]),
    decreases s,
{
    if s.len() > 0 {
        lemma_views_of(s.drop_first());
        assert forall|i: int| 0 <= i < s.len() implies views_of(s)[i] == view_value(s[i]) by {
            if i > 0 {
                assert(s.drop_first()[i - 1] == s[i]);
                assert(views_of(s)[i] == views_of(s.drop_first())[i - 1]);
            }
        }
    }
}

pub proof fn lemma_field_views(s: Seq<Field>)
    ensures
        field_views(s).len() == s.len(),
        forall|i: int| 0 <= i < s.len() ==> field_views(s)[i] == view_field(#[trigger] s[i]),
    decreases s,
{
    if s.len() > 0 {
        lemma_field_views(s.drop_first());
        assert forall|i: int| 0 <= i < s.len() implies field_views(s)[i] == view_field(s[i]) by {
            if i > 0 {
                assert(s.drop_first()[i - 1] == s[i]);
                assert(field_views(s)[i] == field_views(s.drop_first())[i - 1]);
            }
        }
    }
}

pub proof fn lemma_pair_views(s: Seq<(Value, Value)>)
    ensures
        pair_views(s).len() == s.len(),
        forall|i: int| 0 <= i < s.len() ==> pair_views(s)[i] == (view_value(#[trigger] s[i].0),
            view_value(s[i].1)),
    decreases s,
{
    if s.len() > 0 {
        lemma_pair_views(s.drop_first());
        assert forall|i: int| 0 <= i < s.len() implies pair_views(s)[i] == (view_value(s[i].0), view_value(s[i].1)) by {
            if i > 0 {
                assert(s.drop_first()[i - 1] == s[i]);
                assert(pair_views(s)[i] == pair_views(s.drop_first())[i - 1]);
            }
        }
    }
}

pub proof fn lemma_op_views(s: Seq<(BinaryOperator, Value)>)
    ensures
        op_views(s).len() == s.len(),
        forall|i: int| 0 <= i < s.len() ==> op_views(s)[i] == (#[trigger] s[i].0, view_value(
            s[i].1,
        )),
    decreases s,
{
    if s.len() > 0 {
        lemma_op_views(s.drop_first());
        assert forall|i: int| 0 <= i < s.len() implies op_views(s)[i] == (s[i].0, view_value(s[i].1)) by {
            if i > 0 {
                assert(s.drop_first()[i - 1] == s[i]);
                assert(op_views(s)[i] == op_views(s.drop_first())[i - 1]);
            }
        }
    }
}

proof fn lemma_views_of_push(s: Seq<Value>, x: Value)
    ensures
        views_of(s.push(x)) == views_of(s).push(view_value(x)),
{
    lemma_views_of(s);
    lemma_views_of(s.push(x));
    assert forall|i: int| 0 <= i < s.len() + 1 implies views_of(s.push(x))[i] == views_of(s).push(
        view_value(x),
    )[i] by {
        assert(views_of(s.push(x))[i] == view_value(s.push(x)[i]));
        if i < s.len() {
            assert(s.push(x)[i] == s[i]);
            assert(views_of(s)[i] == view_value(s[i]));
        } else {
            assert(s.push(x)[i] == x);
        }
    }
    assert(views_of(s.push(x)) =~= views_of(s).push(view_value(x)));
}

proof fn lemma_field_views_push(s: Seq<Field>, x: Field)
    ensures
        field_views(s.push(x)) == field_views(s).push(view_field(x)),
{
    lemma_field_views(s);
    lemma_field_views(s.push(x));
    assert forall|i: int| 0 <= i < s.len() + 1 implies field_views(s.push(x))[i] == field_views(s).push(
        view_field(x),
    )[i] by {
        assert(field_views(s.push(x))[i] == view_field(s.push(x)[i]));
        if i < s.len() {
            assert(s.push(x)[i] == s[i]);
            assert(field_views(s)[i] == view_field(s[i]));
        } else {
            assert(s.push(x)[i] == x);
        }
    }
    assert(field_views(s.push(x)) =~= field_views(s).push(view_field(x)));
}

proof fn lemma_pair_views_push(s: Seq<(Value, Value)>, x: (Value, Value))
    ensures
        pair_views(s.push(x)) == pair_views(s).push((view_value(x.0), view_value(x.1))),
{
    lemma_pair_views(s);
    lemma_pair_views(s.push(x));
    assert forall|i: int| 0 <= i < s.len() + 1 implies pair_views(s.push(x))[i] == pair_views(s).push(
        (view_value(x.0), view_value(x.1)),
    )[i] by {
        assert(pair_views(s.push(x))[i] == (view_value(s.push(x)[i].0), view_value(s.push(x)[i].1)));
        if i < s.len() {
            assert(s.push(x)[i] == s[i]);
            assert(pair_views(s)[i] == (view_value(s[i].0), view_value(s[i].1)));
        } else {
            assert(s.push(x)[i] == x);
        }
    }
    assert(pair_views(s.push(x)) =~= pair_views(s).push((view_value(x.0), view_value(x.1))));
}

proof fn lemma_op_views_push(s: Seq<(BinaryOperator, Value)>, x: (BinaryOperator, Value))
    ensures
        op_views(s.push(x)) == op_views(s).push((x.0, view_value(x.1))),
{
    lemma_op_views(s);
    lemma_op_views(s.push(x));
    assert forall|i: int| 0 <= i < s.len() + 1 implies op_views(s.push(x))[i] == op_views(s).push(
        (x.0, view_value(x.1)),
    )[i] by {
        assert(op_views(s.push(x))[i] == (s.push(x)[i].0, view_value(s.push(x)[i].1)));
        if i < s.len() {
            assert(s.push(x)[i] == s[i]);
            assert(op_views(s)[i] == (s[i].0, view_value(s[i].1)));
        } else {
            assert(s.push(x)[i] == x);
        }
    }
    assert(op_views(s.push(x)) =~= op_views(s).push((x.0, view_value(x.1))));
}

// --- The scanner model of the value grammar -----------------------------------
//
// Each function mirrors one parsing routine, branch for branch. The range
// checks on sub-scan results never fail — every sub-scan advances — but
// make each function self-evidently terminating.

/// One primary value at `pos`.
pub open spec fn scan_value_basic(s: Seq<u8>, pos: int) -> Option<(ValueModel, int)>
    decreases s.len() - pos, 2int,
{
    if 0 <= pos < s.len() && s[pos] == 34 {
        match scan_string(s, pos + 1) {
            None => None,
            Some((b, e)) => if match_at(s, tok_ellipsis(), e) {
                Some((ValueModel::MTruncatedString(b), e + 3))
            } else {
                Some((ValueModel::MString(b), e))
            },
        }
    } else {
        match ident_end_spec(s, pos) {
            Some(ie) => {
                if pos < ie && ie < s.len() && s[ie] == 40 {
                    match scan_call_args(s, ie + 1, false, Seq::empty()) {
                        None => None,
                        Some((fs, e)) => Some(
                            (ValueModel::MFunctionCall { function: s.subrange(pos, ie), args: fs },
                            e),
                        ),
                    }
                } else {
                    // An identifier without a call is read as a plain
                    // expression run.
                    Some(
                        (ValueModel::MExpression(s.subrange(pos, basic_run_end(s, pos))),
                        basic_run_end(s, pos)),
                    )
                }
            },
            None => {
                if 0 <= pos < s.len() && s[pos] == 91 {
                    scan_bracket(s, pos)
                } else if match_at(s, tok_not_bitset(), pos) {
                    match scan_nb_items(s, pos + 2, true, Seq::empty()) {
                        None => None,
                        Some((items, e)) => Some((ValueModel::MNotBitset(items), e)),
                    }
                } else {
                    let t = skip_spaces(s, pos);
                    if pos <= t && t < s.len() && s[t] == 123 {
                        match scan_struct_fields(s, t + 1, true, Seq::empty()) {
                            None => None,
                            Some((fields, e)) => Some((ValueModel::MStruct(fields), e)),
                        }
                    } else if match_at(s, tok_ellipsis(), pos) {
                        Some((ValueModel::MTruncated, pos + 3))
                    } else if 0 <= pos < s.len() && is_basic_expression_byte(s[pos]) {
                        Some(
                            (ValueModel::MExpression(s.subrange(pos, basic_run_end(s, pos))),
                            basic_run_end(s, pos)),
                        )
                    } else {
                        None
                    }
                }
            },
        }
    }
}

/// The bracket forms: a sparse array when `[`, a value, `]`, `=` open the
/// contents; otherwise a flat sequence.
pub open spec fn scan_bracket(s: Seq<u8>, pos: int) -> Option<(ValueModel, int)>
    decreases s.len() - pos, 1int,
{
    if !(0 <= pos && pos < s.len()) {
        None
    } else {
    let t0 = skip_spaces(s, pos + 1);
    let sparse_head: Option<(ValueModel, int)> = if pos + 1 <= t0 && t0 < s.len() && s[t0]
        == 91 {
        match scan_value(s, t0 + 1) {
            None => None,
            Some((k0, r1)) => if !(t0 + 1 < r1 && r1 <= s.len()) {
                None
            } else {
                let t1 = skip_spaces(s, r1);
                if r1 <= t1 && t1 < s.len() && s[t1] == 93 {
                    let t2 = skip_spaces(s, t1 + 1);
                    if t1 + 1 <= t2 && t2 < s.len() && s[t2] == 61 {
                        Some((k0, t2 + 1))
                    } else {
                        None
                    }
                } else {
                    None
                }
            },
        }
    } else {
        None
    };
    match sparse_head {
        Some((k0, sv)) => {
            if !(pos + 1 < sv && sv <= s.len()) {
                None
            } else {
                let vstart = skip_spaces(s, sv);
                if !(sv <= vstart && vstart <= s.len()) {
                    None
                } else {
                    match scan_value(s, vstart) {
                        None => None,
                        Some((v0, r2)) => if !(vstart < r2 && r2 <= s.len()) {
                            None
                        } else {
                            match scan_sparse_items(s, r2, seq![(k0, v0)]) {
                                None => None,
                                Some((items, e)) => Some((ValueModel::MSparseArray(items), e)),
                            }
                        },
                    }
                }
            }
        },
        None => match scan_flat_items(s, pos + 1, true, None, Seq::empty()) {
            None => None,
            Some((items, e)) => Some((ValueModel::MArray(items), e)),
        },
    }
    }
}

/// The elements of a flat array or bitset; the separator is fixed by the
/// first one seen.
pub open spec fn scan_flat_items(
    s: Seq<u8>,
    pos: int,
    is_first: bool,
    sep: Option<bool>,
    acc: Seq<ValueModel>,
) -> Option<(Seq<ValueModel>, int)>
    decreases s.len() - pos, 8int,
{
    if 0 <= pos < s.len() && s[pos] == 93 {
        Some((acc, pos + 1))
    } else if pos >= s.len() {
        None
    } else {
        let step: Option<(int, Option<bool>)> = if is_first {
            Some((pos, sep))
        } else {
            match sep {
                Some(true) => if match_at(s, tok_comma_space(), pos) {
                    Some((pos + 2, sep))
                } else {
                    None
                },
                Some(false) => if s[pos] == 32 {
                    Some((pos + 1, sep))
                } else {
                    None
                },
                None => if match_at(s, tok_comma_space(), pos) {
                    Some((pos + 2, Some(true)))
                } else if s[pos] == 32 {
                    Some((pos + 1, Some(false)))
                } else {
                    None
                },
            }
        };
        match step {
            None => None,
            Some((p2, sep2)) => if !(pos <= p2 && p2 <= s.len()) {
                None
            } else {
                match scan_value(s, p2) {
                    None => None,
                    Some((m, e)) => if !(p2 < e && e <= s.len()) {
                        None
                    } else {
                        scan_flat_items(s, e, false, sep2, acc.push(m))
                    },
                }
            },
        }
    }
}

/// The space-separated elements of a `~[…]` bitset.
pub open spec fn scan_nb_items(
    s: Seq<u8>,
    pos: int,
    is_first: bool,
    acc: Seq<ValueModel>,
) -> Option<(Seq<ValueModel>, int)>
    decreases s.len() - pos, 8int,
{
    if 0 <= pos < s.len() && s[pos] == 93 {
        Some((acc, pos + 1))
    } else if pos >= s.len() {
        None
    } else {
        let p2: Option<int> = if is_first {
            Some(pos)
        } else if s[pos] == 32 {
            Some(pos + 1)
        } else {
            None
        };
        match p2 {
            None => None,
            Some(p) => if !(pos <= p && p <= s.len()) {
                None
            } else {
                match scan_value(s, p) {
                    None => None,
                    Some((m, e)) => if !(p < e && e <= s.len()) {
                        None
                    } else {
                        scan_nb_items(s, e, false, acc.push(m))
                    },
                }
            },
        }
    }
}

/// The remaining `, [k] = v` elements of a sparse array.
pub open spec fn scan_sparse_items(
    s: Seq<u8>,
    pos: int,
    acc: Seq<(ValueModel, ValueModel)>,
) -> Option<(Seq<(ValueModel, ValueModel)>, int)>
    decreases s.len() - pos, 8int,
{
    let tr = skip_spaces(s, pos);
    if !(pos <= tr && tr <= s.len()) {
        None
    } else if tr < s.len() && s[tr] == 93 {
        Some((acc, tr + 1))
    } else if tr >= s.len() {
        None
    } else if !match_at(s, tok_comma_bracket(), tr) {
        None
    } else {
        let i0 = skip_spaces(s, tr + 3);
        if !(tr + 3 <= i0 && i0 <= s.len()) {
            None
        } else {
            match scan_value(s, i0) {
                None => None,
                Some((k, r3)) => if !(i0 < r3 && r3 <= s.len()) {
                    None
                } else {
                    let t3 = skip_spaces(s, r3);
                    if !(r3 <= t3 && t3 < s.len() && s[t3] == 93) {
                        None
                    } else {
                        let t4 = skip_spaces(s, t3 + 1);
                        if !(t3 + 1 <= t4 && t4 < s.len() && s[t4] == 61) {
                            None
                        } else {
                            let v0 = skip_spaces(s, t4 + 1);
                            if !(t4 + 1 <= v0 && v0 <= s.len()) {
                                None
                            } else {
                                match scan_value(s, v0) {
                                    None => None,
                                    Some((v, r4)) => if !(v0 < r4 && r4 <= s.len()) {
                                        None
                                    } else {
                                        scan_sparse_items(s, r4, acc.push((k, v)))
                                    },
                                }
                            }
                        }
                    }
                },
            }
        }
    }
}

/// The comma-separated fields of a `{…}` struct.
pub open spec fn scan_struct_fields(
    s: Seq<u8>,
    pos: int,
    is_first: bool,
    acc: Seq<FieldModel>,
) -> Option<(Seq<FieldModel>, int)>
    decreases s.len() - pos, 8int,
{
    let tr = skip_spaces(s, pos);
    if !(pos <= tr && tr <= s.len()) {
        None
    } else if tr < s.len() && s[tr] == 125 {
        Some((acc, tr + 1))
    } else if tr >= s.len() {
        None
    } else {
        let fstart: Option<int> = if is_first {
            Some(tr)
        } else if s[tr] == 44 {
            let f = skip_spaces(s, tr + 1);
            if tr + 1 <= f && f <= s.len() {
                Some(f)
            } else {
                None
            }
        } else {
            None
        };
        match fstart {
            None => None,
            Some(f0) => if !(pos <= f0 && f0 <= s.len()) {
                None
            } else {
                match scan_field(s, f0) {
                    None => None,
                    Some((fld, e)) => if !(f0 < e && e <= s.len()) {
                        None
                    } else {
                        scan_struct_fields(s, e, false, acc.push(fld))
                    },
                }
            },
        }
    }
}

/// The `', '`-separated fields of a call's argument list.
pub open spec fn scan_call_args(
    s: Seq<u8>,
    pos: int,
    needs_comma: bool,
    acc: Seq<FieldModel>,
) -> Option<(Seq<FieldModel>, int)>
    decreases s.len() - pos, 8int,
{
    if 0 <= pos < s.len() && s[pos] == 41 {
        Some((acc, pos + 1))
    } else if pos >= s.len() {
        None
    } else {
        let p2: Option<int> = if needs_comma {
            if match_at(s, tok_comma_space(), pos) {
                Some(pos + 2)
            } else {
                None
            }
        } else {
            Some(pos)
        };
        match p2 {
            None => None,
            Some(p) => {
                let t = skip_spaces(s, p);
                if !(pos <= p && p <= t && t <= s.len()) {
                    None
                } else {
                    match scan_field(s, t) {
                        None => None,
                        Some((f, e)) => if !(t < e && e <= s.len()) {
                            None
                        } else {
                            scan_call_args(s, e, true, acc.push(f))
                        },
                    }
                }
            },
        }
    }
}

/// A field: `ident = value` when the text before the first `=` trims to
/// an identifier with a non-empty rest, else a bare value.
pub open spec fn scan_field(s: Seq<u8>, pos: int) -> Option<(FieldModel, int)>
    decreases s.len() - pos, 7int,
{
    let named: Option<(int, int, int)> = match find_byte_from(s, pos, 61) {
        Some(eqi) => if pos <= eqi && eqi < s.len() {
            let nlo = skip_spaces_to(s, pos, eqi);
            let nhi = trim_end_from(s, nlo, eqi);
            let vstart = skip_spaces(s, eqi + 1);
            if pos <= nlo && nlo <= nhi && nhi <= eqi && eqi + 1 <= vstart && vstart < s.len()
                && ident_end_spec(s, nlo) == Some(nhi) {
                Some((nlo, nhi, vstart))
            } else {
                None
            }
        } else {
            None
        },
        None => None,
    };
    match named {
        Some((nlo, nhi, vstart)) => if !(pos < vstart && vstart <= s.len()) {
            None
        } else {
            match scan_value(s, vstart) {
                None => None,
                Some((m, e)) => Some(
                    (FieldModel { name: Some(s.subrange(nlo, nhi)), value: m }, e),
                ),
            }
        },
        None => match scan_value(s, pos) {
            None => None,
            Some((m, e)) => Some((FieldModel { name: None, value: m }, e)),
        },
    }
}

/// The bytes of a `<…>` annotation from `pos` to its balancing `>`:
/// escapes decode, nested `<>` balance, and `->` stays literal.
pub open spec fn scan_annotation(s: Seq<u8>, pos: int, depth: int, acc: Seq<u8>) -> Option<
    (Seq<u8>, int),
>
    decreases s.len() - pos, 0int,
{
    if !(0 <= pos < s.len()) {
        None
    } else {
        let c = s[pos];
        if c == 62 && acc.len() > 0 && acc.last() == 45 {
            scan_annotation(s, pos + 1, depth, acc.push(62))
        } else if c == 62 {
            if depth == 0 {
                Some((acc, pos + 1))
            } else {
                scan_annotation(s, pos + 1, depth - 1, acc.push(62))
            }
        } else if c == 92 {
            match escape_spec(s, pos + 1) {
                None => None,
                Some((b, k)) => if !(pos + 1 < k && k <= s.len()) {
                    None
                } else {
                    scan_annotation(s, k, depth, acc.push(b))
                },
            }
        } else {
            scan_annotation(s, pos + 1, if c == 60 {
                depth + 1
            } else {
                depth
            }, acc.push(c))
        }
    }
}

/// The chain of `(operator, primary value)` pairs after a value.
pub open spec fn scan_op_chain(
    s: Seq<u8>,
    pos: int,
    acc: Seq<(BinaryOperator, ValueModel)>,
) -> Option<(Seq<(BinaryOperator, ValueModel)>, int)>
    decreases s.len() - pos, 0int,
{
    match binop_model(s, pos) {
        None => Some((acc, pos)),
        Some((op, after)) => if !(pos < after && after <= s.len()) {
            None
        } else {
            match scan_value_basic(s, after) {
                None => None,
                Some((m, e)) => if !(after < e && e <= s.len()) {
                    None
                } else {
                    scan_op_chain(s, e, acc.push((op, m)))
                },
            }
        },
    }
}

/// A full value: a primary value and then, in order, an optional
/// annotation, an operator chain, a right-associative alternative, a
/// trailing comment, and a changed-value arrow — staged below.
pub open spec fn scan_value(s: Seq<u8>, pos: int) -> Option<(ValueModel, int)>
    decreases s.len() - pos, 6int,
{
    match scan_value_basic(s, pos) {
        None => None,
        Some((m0, r0)) => if !(pos < r0 && r0 <= s.len()) {
            None
        } else if r0 == s.len() {
            Some((m0, r0))
        } else {
            scan_after_primary(s, pos, m0, r0)
        },
    }
}

/// The optional `<…>` annotation after a primary value.
pub open spec fn scan_after_primary(s: Seq<u8>, pos: int, m0: ValueModel, r0: int) -> Option<
    (ValueModel, int),
>
    decreases s.len() - pos, 5int,
{
    if !(pos < r0 && r0 < s.len()) {
        None
    } else if s[r0] == 60 {
        match scan_annotation(s, r0 + 1, 0, Seq::empty()) {
            None => None,
            Some((ann, p)) => if !(r0 + 1 < p && p <= s.len()) {
                None
            } else if match_at(s, tok_deleted(), p) {
                scan_after_annotation(
                    s,
                    pos,
                    ValueModel::MAnnotated { value: Box::new(m0), annotation: ann, deleted: true },
                    p + 9,
                )
            } else {
                scan_after_annotation(
                    s,
                    pos,
                    ValueModel::MAnnotated { value: Box::new(m0), annotation: ann, deleted: false },
                    p,
                )
            },
        }
    } else {
        scan_after_annotation(s, pos, m0, r0)
    }
}

/// The operator chain and the right-associative alternative.
pub open spec fn scan_after_annotation(s: Seq<u8>, pos: int, m1: ValueModel, r1: int) -> Option<
    (ValueModel, int),
>
    decreases s.len() - pos, 4int,
{
    if !(pos < r1 && r1 <= s.len()) {
        None
    } else {
        match scan_op_chain(s, r1, Seq::empty()) {
            None => None,
            Some((ops, r2)) => if !(r1 <= r2 && r2 <= s.len()) {
                None
            } else {
                let m2 = if ops.len() > 0 {
                    ValueModel::MBinaryOperations { first: Box::new(m1), operators_and_operands: ops }
                } else {
                    m1
                };
                if match_at(s, tok_or_word(), r2) {
                    let astart = skip_spaces(s, r2 + 4);
                    if !(r2 + 4 <= astart && astart <= s.len()) {
                        None
                    } else {
                        match scan_value(s, astart) {
                            None => None,
                            Some((rv, r3)) => scan_after_alternative(
                                s,
                                pos,
                                ValueModel::MAlternative { left: Box::new(m2), right: Box::new(rv) },
                                r3,
                            ),
                        }
                    }
                } else {
                    scan_after_alternative(s, pos, m2, r2)
                }
            },
        }
    }
}

/// The trailing comment and the changed-value arrow.
pub open spec fn scan_after_alternative(s: Seq<u8>, pos: int, m3: ValueModel, r3: int) -> Option<
    (ValueModel, int),
>
    decreases s.len() - pos, 3int,
{
    if !(pos < r3 && r3 <= s.len()) {
        None
    } else {
        let ct = skip_spaces(s, r3);
        if !(r3 <= ct && ct <= s.len()) {
            None
        } else {
            let step4: Option<(ValueModel, int)> = if match_at(s, tok_comment_open(), ct) {
                match ffind_from(s, tok_comment_close(), ct + 2) {
                    None => None,
                    Some(mm) => if !(ct + 2 <= mm && mm + 2 <= s.len()) {
                        None
                    } else {
                        let clo = skip_spaces_to(s, ct + 2, mm);
                        let chi = trim_end_from(s, clo, mm);
                        if !(ct + 2 <= clo && clo <= chi && chi <= mm) {
                            None
                        } else {
                            Some(
                                (ValueModel::MCommented {
                                    value: Box::new(m3),
                                    comment: s.subrange(clo, chi),
                                }, mm + 2),
                            )
                        }
                    },
                }
            } else {
                Some((m3, r3))
            };
            match step4 {
                None => None,
                Some((m4, r4)) => if !(pos < r4 && r4 <= s.len()) {
                    None
                } else {
                    let ch = skip_spaces(s, r4);
                    if !(r4 <= ch && ch <= s.len()) {
                        None
                    } else if match_at(s, tok_changed(), ch) {
                        let tstart = skip_spaces(s, ch + 2);
                        if !(ch + 2 <= tstart && tstart <= s.len()) {
                            None
                        } else {
                            match scan_value(s, tstart) {
                                None => None,
                                Some((tv, r5)) => Some(
                                    (ValueModel::MChanged { from: Box::new(m4), to: Box::new(tv) },
                                    r5),
                                ),
                            }
                        }
                    } else {
                        Some((m4, r4))
                    }
                },
            }
        }
    }
}

/// The comma-separated argument fields of a whole syscall argument list.
pub open spec fn scan_args_rec(
    s: Seq<u8>,
    pos: int,
    needs_comma: bool,
    acc: Seq<FieldModel>,
) -> Option<Seq<FieldModel>>
    decreases s.len() - pos, 9int,
{
    let t = skip_spaces(s, pos);
    if !(pos <= t && t <= s.len()) {
        None
    } else if t >= s.len() {
        Some(acc)
    } else {
        let p2: Option<int> = if needs_comma {
            if s[t] == 44 {
                let q = skip_spaces(s, t + 1);
                if t + 1 <= q && q <= s.len() {
                    Some(q)
                } else {
                    None
                }
            } else {
                None
            }
        } else {
            Some(t)
        };
        match p2 {
            None => None,
            Some(p) => if !(pos <= p && p <= s.len()) {
                None
            } else {
                match scan_field(s, p) {
                    None => None,
                    Some((f, e)) => if !(p < e && e <= s.len()) {
                        None
                    } else {
                        scan_args_rec(s, e, true, acc.push(f))
                    },
                }
            },
        }
    }
}

/// A whole argument list.
pub open spec fn scan_args(s: Seq<u8>) -> Option<Seq<FieldModel>> {
    scan_args_rec(s, 0, false, Seq::empty())
}

/// What a result text denotes: nothing returned for an empty or `?`
/// result; otherwise the leading value, which must parse (trailing free
/// text such as an errno explanation is ignored).
pub open spec fn syscall_result_model(t: Seq<u8>) -> Option<Option<ValueModel>> {
    if t.len() == 0 || t[0] == 63 {
        Some(None)
    } else {
        match scan_value(t, 0) {
            None => None,
            Some((m, _)) => Some(Some(m)),
        }
    }
}

/// The expression text of a model value read as a decimal `i32`, as
/// `str::parse` reads it.
pub open spec fn model_as_i32(m: ValueModel) -> Option<i32> {
    match m {
        ValueModel::MExpression(e) => if signed_dec_ok(e) && i32::MIN <= signed_dec_value(e)
            <= i32::MAX {
            Some(signed_dec_value(e) as i32)
        } else {
            None
        },
        _ => None,
    }
}

/// The child pid a fork-family result text denotes, if the returned
/// value reads as an `i32`.
pub open spec fn fork_child_of_model(t: Seq<u8>) -> Option<i32> {
    match syscall_result_model(t) {
        Some(Some(m)) => model_as_i32(m),
        _ => None,
    }
}

/// The exit code a code text denotes, when it parses to an expression
/// holding an `i32`.
pub open spec fn exit_code_of(t: Seq<u8>) -> Option<i32> {
    match scan_whole_value(t) {
        Some(m) => model_as_i32(m),
        None => None,
    }
}

/// A span holding exactly one value and nothing more.
pub open spec fn scan_whole_value(s: Seq<u8>) -> Option<ValueModel> {
    match scan_value(s, 0) {
        None => None,
        Some((m, e)) => if e == s.len() {
            Some(m)
        } else {
            None
        },
    }
}

} // verus!
