use systrument::event::{Event as SemEvent, EventKind};
use systrument::otel::{OtelCommand, OtelOutput, OtelOutputOptions, OtelValue, SpanRef};
use systrument::perfetto::{Packet, PerfettoOutput, PerfettoOutputOptions};
use systrument::strace::analyzer::Analyzer;
use systrument::strace::parser::parse_line;
use systrument::strace::parser::parse_whole_value;
use systrument::strace::{Event, Value};
use systrument::time::Timestamp;
use systrument::window::{ReorderWindow, WindowEntry};

fn analyze_all(lines: &[&str]) -> Vec<SemEvent> {
    let mut analyzer = Analyzer::new();
    lines
        .iter()
        .map(|line| analyzer.analyze(parse_line(line.as_bytes()).unwrap()).unwrap())
        .collect()
}

fn otel_commands(lines: &[&str], logs: bool) -> Vec<OtelCommand> {
    let mut sink = OtelOutput::new(OtelOutputOptions { relative_to: None }, logs);
    let mut cmds = Vec::new();
    for event in analyze_all(lines) {
        cmds.extend(sink.output_event(event));
    }
    cmds.extend(sink.shutdown());
    cmds
}

// --- Scanner header scenarios ---------------------------------------------

#[test]
fn header_scans_canonical_exec_lines() {
    let cases: &[(i32, &str, Timestamp)] = &[
        (0, "0", Timestamp::new(0, 0)),
        (1, "1.5", Timestamp::new(1, 500000000)),
        (42, "1757048541.498563", Timestamp::new(1757048541, 498563000)),
        (2391133, "-3.25", Timestamp { nanos: -2_750_000_000 }),
    ];
    for (pid, ts, expected) in cases {
        let line = format!("{} {} execve(\"/bin/x\", [], []) = 0 <0>", pid, ts);
        let parsed = parse_line(line.as_bytes()).unwrap();
        assert_eq!(parsed.pid, *pid);
        assert_eq!(parsed.timestamp, *expected);
        let Event::Syscall(sc) = parsed.event else {
            panic!("expected a syscall");
        };
        assert_eq!(sc.name, b"execve".to_vec());
    }
}

#[test]
fn exited_line_scans_to_exited_body() {
    let parsed = parse_line(b"7 2.0 +++ exited with 0 +++").unwrap();
    let Event::Exited(ex) = parsed.event else {
        panic!("expected an exited body");
    };
    assert_eq!(ex.code, b"0".to_vec());
}

#[test]
fn killed_line_scans_to_killed_by_body() {
    let parsed = parse_line(b"7 2.0 +++ killed by SIGTERM +++").unwrap();
    let Event::KilledBy { signal } = parsed.event else {
        panic!("expected a killed-by body");
    };
    assert_eq!(signal, b"SIGTERM".to_vec());
}

#[test]
fn syscall_without_duration_is_a_diagnostic() {
    let err = parse_line(b"10 1.0 execve(\"/bin/x\", [], []) = 0").unwrap_err();
    assert_eq!(err.message, "expected duration at end of syscall");
}

#[test]
fn scanner_error_variants() {
    let cases: &[(&str, &str)] = &[
        ("nospace", "expected pid"),
        ("abc 1.0 +++ exited with 0 +++", "invalid pid"),
        ("10", "expected pid"),
        ("10 1.0", "expected timestamp"),
        ("10 1.x brk(NULL) = 0 <0>", "invalid timestamp"),
        ("10 1.0 +++ exited with 0", "failed to parse exit event"),
        ("10 1.0 +++ left early +++", "could not parse exit event"),
        ("10 1.0 --- SIGX", "failed to parse signal event"),
        ("10 1.0 no parens here", "failed to parse event"),
        ("10 1.0 a(b) = 0", "expected duration at end of syscall"),
        ("10 1.0 a(b) = 0 <x>", "invalid duration"),
        ("10 1.0 a(b) = 0 <-1>", "invalid duration"),
        ("10 1.0 a(b <0.1>", "failed to parse syscall result"),
        ("10 1.0 a(b = 0 <0.1>", "failed to parse syscall args"),
    ];
    for (line, message) in cases {
        let err = parse_line(line.as_bytes()).unwrap_err();
        assert_eq!(&err.message, message, "for line {:?}", line);
    }
}

#[test]
fn fraction_digits_round_half_up_at_nine_places() {
    let parsed = parse_line(b"10 1.1234567894 brk(NULL) = 0 <0>").unwrap();
    assert_eq!(parsed.timestamp, Timestamp::new(1, 123456789));
    let parsed = parse_line(b"10 1.1234567895 brk(NULL) = 0 <0>").unwrap();
    assert_eq!(parsed.timestamp, Timestamp::new(1, 123456790));
    let parsed = parse_line(b"10 1.25 brk(NULL) = 0 <0>").unwrap();
    assert_eq!(parsed.timestamp, Timestamp::new(1, 250000000));
}

// --- Value-parser scenarios ------------------------------------------------

#[test]
fn plain_quoted_strings_parse_to_their_bytes() {
    for s in ["", "a", "hello world", "path/with/slashes", "sp€cial"] {
        let quoted = format!("\"{}\"", s);
        assert_eq!(
            parse_whole_value(quoted.as_bytes()).unwrap(),
            Value::String(s.as_bytes().to_vec())
        );
    }
}

#[test]
fn escape_sequences_decode_exactly() {
    // one, two and three octal digits, and the halt after a non-octal digit
    assert_eq!(parse_whole_value(br#""\7""#).unwrap(), Value::String(vec![0o7]));
    assert_eq!(parse_whole_value(br#""\77""#).unwrap(), Value::String(vec![0o77]));
    assert_eq!(parse_whole_value(br#""\377""#).unwrap(), Value::String(vec![0o377]));
    assert_eq!(parse_whole_value(br#""\08""#).unwrap(), Value::String(vec![0, b'8']));
    // hex pairs, both cases
    assert_eq!(parse_whole_value(br#""\x41""#).unwrap(), Value::String(vec![0x41]));
    assert_eq!(parse_whole_value(br#""\xfF""#).unwrap(), Value::String(vec![0xff]));
    // an octal value beyond one byte is rejected
    assert!(parse_whole_value(br#""\777""#).is_err());
}

#[test]
fn nested_annotation_keeps_arrow_literal() {
    let parsed = parse_whole_value(b"x<a<b->c>>").unwrap();
    assert_eq!(
        parsed,
        Value::Annotated {
            value: Box::new(Value::Expression(b"x".to_vec())),
            annotation: b"a<b->c>".to_vec(),
            deleted: false,
        }
    );
    let parsed = parse_whole_value(b"x<y>(deleted)").unwrap();
    assert_eq!(
        parsed,
        Value::Annotated {
            value: Box::new(Value::Expression(b"x".to_vec())),
            annotation: b"y".to_vec(),
            deleted: true,
        }
    );
}

#[test]
fn value_projections() {
    let truncated = parse_whole_value(br#""abc"..."#).unwrap();
    assert_eq!(truncated.to_bstring(), Some(b"abc...".to_vec()));
    let n = parse_whole_value(b"-5").unwrap();
    assert_eq!(n.as_i32(), Some(-5));
    let hex = parse_whole_value(b"0x10").unwrap();
    assert_eq!(hex.as_i32(), None);
    let arr = parse_whole_value(b"[1, 2]").unwrap();
    assert_eq!(arr.as_array().map(|items| items.len()), Some(2));
}

// --- Analyzer scenarios ------------------------------------------------------

#[test]
fn fork_records_parent_for_later_lines() {
    let events = analyze_all(&[
        "1 1.0 clone(child_stack=NULL) = 2 <0.001>",
        "2 2.0 brk(NULL) = 0 <0.001>",
    ]);
    let EventKind::ForkProcess(f) = &events[0].kind else {
        panic!("expected a fork event");
    };
    assert_eq!(f.child_pid, 2);
    assert_eq!(events[1].parent_pid, Some(1));
}

#[test]
fn exec_makes_forker_the_owner() {
    let events = analyze_all(&[
        "5 1.0 execve(\"/bin/a\", [\"a\"], []) = 0 <0.001>",
        "5 2.0 clone(child_stack=NULL) = 6 <0.001>",
        "6 3.0 brk(NULL) = 0 <0.001>",
    ]);
    let EventKind::ForkProcess(f) = &events[1].kind else {
        panic!("expected a fork event");
    };
    assert_eq!(f.child_owner_pid, Some(5));
    assert_eq!(events[2].owner_pid, Some(5));
}

#[test]
fn re_exec_is_flagged_exactly_on_repeat_execs() {
    let events = analyze_all(&[
        "5 1.0 execve(\"/bin/a\", [\"a\"], []) = 0 <0.001>",
        "5 2.0 execve(\"/bin/b\", [\"b\"], []) = 0 <0.001>",
        "5 3.0 execve(\"/bin/c\", [\"c\"], []) = 0 <0.001>",
    ]);
    let flags: Vec<bool> = events
        .iter()
        .map(|e| match &e.kind {
            EventKind::ExecProcess(x) => x.re_exec,
            _ => panic!("expected exec events"),
        })
        .collect();
    assert_eq!(flags, vec![false, true, true]);
}

#[test]
fn stop_without_exec_stays_a_log_downstream() {
    let events = analyze_all(&["9 1.0 +++ exited with 0 +++"]);
    let EventKind::StopProcess(st) = &events[0].kind else {
        panic!("expected a stop event");
    };
    assert!(!st.did_exec);
    // With no live span the span sink emits nothing for it.
    let cmds = otel_commands(&["9 1.0 +++ exited with 0 +++"], false);
    assert!(cmds.is_empty());
}

#[test]
fn truncated_command_keeps_ellipsis_marker() {
    let events = analyze_all(&["10 1.0 execve(\"/bin/a\"..., [\"a\"], []) = 0 <0.001>"]);
    let EventKind::ExecProcess(x) = &events[0].kind else {
        panic!("expected an exec event");
    };
    assert_eq!(x.exec_call.command, Some(b"/bin/a...".to_vec()));
    assert_eq!(x.exec_call.args, Some(vec![b"a".to_vec()]));
}

#[test]
fn exec_env_entries_split_on_first_equals() {
    let events = analyze_all(&[
        "10 1.0 execve(\"/bin/a\", [\"a\"], [\"HOME=/root\", \"X=a=b\", \"BAD\"]) = 0 <0.001>",
    ]);
    let EventKind::ExecProcess(x) = &events[0].kind else {
        panic!("expected an exec event");
    };
    assert_eq!(
        x.exec_call.env,
        Some(vec![
            (b"HOME".to_vec(), b"/root".to_vec()),
            (b"X".to_vec(), b"a=b".to_vec()),
        ])
    );
}

// --- Reorder window -----------------------------------------------------------

fn entry(ts: i64, index: usize) -> WindowEntry {
    WindowEntry { timestamp: Timestamp { nanos: ts }, line_index: index, line: Vec::new() }
}

#[test]
fn window_releases_sorted_when_under_capacity() {
    let mut window = ReorderWindow::new(100);
    let input: Vec<i64> = vec![5, 1, 9, 3, 7, 2, 8, 4, 10, 6];
    for (i, ts) in input.iter().enumerate() {
        assert!(window.push(entry(*ts, i)).is_none());
    }
    let mut released = Vec::new();
    while let Some(e) = window.pop_front() {
        released.push(e.timestamp.nanos);
    }
    assert_eq!(released, vec![1, 2, 3, 4, 5, 6, 7, 8, 9, 10]);
}

#[test]
fn window_keeps_order_under_bounded_displacement() {
    // adjacent pairs swapped: every element arrives within one place of
    // its true position, far inside the window
    let mut window = ReorderWindow::new(100);
    let mut released: Vec<i64> = Vec::new();
    for i in 0..150i64 {
        let ts = if i % 2 == 0 { i + 1 } else { i - 1 };
        if let Some(e) = window.push(entry(ts, i as usize)) {
            released.push(e.timestamp.nanos);
        }
    }
    while let Some(e) = window.pop_front() {
        released.push(e.timestamp.nanos);
    }
    assert_eq!(released, (0..150i64).collect::<Vec<i64>>());
}

#[test]
fn window_breaks_timestamp_ties_by_arrival() {
    let mut window = ReorderWindow::new(10);
    window.push(entry(5, 0));
    window.push(entry(5, 1));
    window.push(entry(5, 2));
    let order: Vec<usize> = std::iter::from_fn(|| window.pop_front())
        .map(|e| e.line_index)
        .collect();
    assert_eq!(order, vec![0, 1, 2]);
}

#[test]
fn window_pop_on_empty_is_none() {
    let mut window = ReorderWindow::new(3);
    assert!(window.pop_front().is_none());
}

#[test]
fn events_come_out_in_timestamp_order_within_window() {
    let stamps = [4i64, 9, 1, 7, 3, 10, 2, 8, 5, 6];
    let mut window = ReorderWindow::new(100);
    let mut analyzer = Analyzer::new();
    let mut seen: Vec<i64> = Vec::new();
    for (i, ts) in stamps.iter().enumerate() {
        let line = format!("10 {}.0 brk(NULL) = 0 <0.001>", ts);
        let parsed = parse_line(line.as_bytes()).unwrap();
        let out = window.push(WindowEntry {
            timestamp: parsed.timestamp,
            line_index: i,
            line: line.as_bytes().to_vec(),
        });
        if let Some(e) = out {
            let event = analyzer.analyze(parse_line(&e.line).unwrap()).unwrap();
            seen.push(event.timestamp.nanos / 1_000_000_000);
        }
    }
    while let Some(e) = window.pop_front() {
        let event = analyzer.analyze(parse_line(&e.line).unwrap()).unwrap();
        seen.push(event.timestamp.nanos / 1_000_000_000);
    }
    assert_eq!(seen, (1..=10).collect::<Vec<i64>>());
}

// --- End-to-end span scenarios ---------------------------------------------

#[test]
fn single_process_yields_one_span_with_exit_attrs() {
    let cmds = otel_commands(
        &[
            "10 1.0 execve(\"/bin/a\", [\"a\"], []) = 0 <0.001>",
            "10 2.0 +++ exited with 0 +++",
        ],
        false,
    );
    assert_eq!(cmds.len(), 4);
    assert!(matches!(cmds[0], OtelCommand::StartRoot { .. }));
    let OtelCommand::StartSpan { pid, parent, name, ends_replaced, .. } = &cmds[1] else {
        panic!("expected a span start, got {:?}", cmds[1]);
    };
    assert_eq!(*pid, 10);
    assert_eq!(*parent, SpanRef::Root);
    assert_eq!(name, &b"a".to_vec());
    assert!(!*ends_replaced);
    let OtelCommand::EndSpan { pid, attributes, at } = &cmds[2] else {
        panic!("expected a span end, got {:?}", cmds[2]);
    };
    assert_eq!(*pid, 10);
    assert_eq!(at.nanos, 2_000_000_000);
    assert_eq!(
        attributes,
        &vec![
            (b"exit_code".to_vec(), OtelValue::Int(0)),
            (b"exit_ok".to_vec(), OtelValue::Flag(true)),
        ]
    );
    assert!(matches!(cmds[3], OtelCommand::EndRoot { .. }));
}

#[test]
fn child_exec_nests_under_execed_forker() {
    let cmds = otel_commands(
        &[
            "10 1.0 execve(\"/bin/a\", [\"a\"], []) = 0 <0.001>",
            "10 1.1 clone(child_stack=NULL) = 11 <0.001>",
            "11 1.2 execve(\"/bin/b\", [\"b\"], []) = 0 <0.001>",
            "11 2.0 +++ exited with 0 +++",
            "10 3.0 +++ exited with 0 +++",
        ],
        false,
    );
    let spans: Vec<(&[u8], SpanRef)> = cmds
        .iter()
        .filter_map(|c| match c {
            OtelCommand::StartSpan { name, parent, .. } => Some((name.as_slice(), *parent)),
            _ => None,
        })
        .collect();
    assert_eq!(spans.len(), 2);
    assert_eq!(spans[0], (b"a".as_slice(), SpanRef::Root));
    assert_eq!(spans[1], (b"b".as_slice(), SpanRef::Process(10)));
}

#[test]
fn owner_is_fixed_at_fork_time() {
    // the clone precedes the forker's exec, so the child has no owner and
    // its span hangs off the root span
    let cmds = otel_commands(
        &[
            "10 1.0 clone(child_stack=NULL) = 11 <0.001>",
            "10 1.1 execve(\"/bin/a\", [\"a\"], []) = 0 <0.001>",
            "11 1.2 execve(\"/bin/b\", [\"b\"], []) = 0 <0.001>",
        ],
        false,
    );
    let spans: Vec<(&[u8], SpanRef)> = cmds
        .iter()
        .filter_map(|c| match c {
            OtelCommand::StartSpan { name, parent, .. } => Some((name.as_slice(), *parent)),
            _ => None,
        })
        .collect();
    assert_eq!(spans.len(), 2);
    assert_eq!(spans[0], (b"a".as_slice(), SpanRef::Root));
    assert_eq!(spans[1], (b"b".as_slice(), SpanRef::Root));
}

#[test]
fn re_exec_splits_the_span() {
    let cmds = otel_commands(
        &[
            "10 1.0 execve(\"/bin/a\", [\"a\"], []) = 0 <0.001>",
            "10 2.0 execve(\"/bin/b\", [\"b\"], []) = 0 <0.001>",
            "10 3.0 +++ exited with 0 +++",
        ],
        false,
    );
    assert_eq!(cmds.len(), 5);
    assert!(matches!(cmds[0], OtelCommand::StartRoot { .. }));
    let OtelCommand::StartSpan { name, ends_replaced, .. } = &cmds[1] else {
        panic!("expected the first span start");
    };
    assert_eq!(name, &b"a".to_vec());
    assert!(!*ends_replaced);
    let OtelCommand::StartSpan { name, ends_replaced, at, .. } = &cmds[2] else {
        panic!("expected the replacing span start");
    };
    assert_eq!(name, &b"b".to_vec());
    assert!(*ends_replaced);
    assert_eq!(at.nanos, 2_000_000_000);
    let OtelCommand::EndSpan { at, .. } = &cmds[3] else {
        panic!("expected the final span end");
    };
    assert_eq!(at.nanos, 3_000_000_000);
}

#[test]
fn killed_process_span_carries_signal_attrs() {
    let cmds = otel_commands(
        &[
            "10 1.0 execve(\"/bin/a\", [\"a\"], []) = 0 <0.001>",
            "10 2.0 +++ killed by SIGTERM +++",
        ],
        false,
    );
    let OtelCommand::EndSpan { attributes, .. } = &cmds[2] else {
        panic!("expected a span end, got {:?}", cmds[2]);
    };
    assert_eq!(
        attributes,
        &vec![
            (b"exit_ok".to_vec(), OtelValue::Flag(false)),
            (b"exit_signal".to_vec(), OtelValue::Text(b"SIGTERM".to_vec())),
        ]
    );
}

#[test]
fn exec_span_attributes_cover_the_call() {
    let cmds = otel_commands(
        &["10 1.0 execve(\"/bin/a\", [\"a\", \"-v\"], [\"HOME=/root\"]) = 0 <0.001>"],
        false,
    );
    let OtelCommand::StartSpan { attributes, .. } = &cmds[1] else {
        panic!("expected a span start");
    };
    assert_eq!(
        attributes,
        &vec![
            (b"pid".to_vec(), OtelValue::Int(10)),
            (b"command_name".to_vec(), OtelValue::Text(b"a".to_vec())),
            (b"command".to_vec(), OtelValue::Text(b"/bin/a".to_vec())),
            (b"args".to_vec(), OtelValue::TextList(vec![b"a".to_vec(), b"-v".to_vec()])),
            (b"env.HOME".to_vec(), OtelValue::Text(b"/root".to_vec())),
        ]
    );
}

#[test]
fn unreadable_command_falls_back_to_pid_name() {
    let cmds = otel_commands(&["10 1.0 execve(3, [\"a\"], []) = 0 <0.001>"], false);
    let OtelCommand::StartSpan { name, .. } = &cmds[1] else {
        panic!("expected a span start, got {:?}", cmds[1]);
    };
    assert_eq!(name, &b"process 10".to_vec());
}

#[test]
fn log_records_render_the_record_and_correlate() {
    let cmds = otel_commands(
        &[
            "10 1.0 execve(\"/bin/a\", [\"a\"], []) = 0 <0.001>",
            "10 1.5 --- SIGCHLD ---",
            "10 2.0 +++ exited with 0 +++",
        ],
        true,
    );
    let logs: Vec<(&[u8], SpanRef)> = cmds
        .iter()
        .filter_map(|c| match c {
            OtelCommand::EmitLog { body, context, .. } => Some((body.as_slice(), *context)),
            _ => None,
        })
        .collect();
    assert_eq!(logs.len(), 3);
    assert_eq!(
        logs[0],
        (b"execve(\"/bin/a\", [\"a\"], []) = 0".as_slice(), SpanRef::Process(10))
    );
    assert_eq!(logs[1], (b"--- SIGCHLD ---".as_slice(), SpanRef::Process(10)));
    assert_eq!(logs[2], (b"+++ exited with 0 +++".as_slice(), SpanRef::Root));
}

// --- Flame-chart sink ---------------------------------------------------------

#[test]
fn perfetto_exec_and_stop_drive_the_slice_lifecycle() {
    let mut sink = PerfettoOutput::new(PerfettoOutputOptions { logs: false });
    let events = analyze_all(&[
        "10 1.0 execve(\"/bin/a\", [\"a\"], []) = 0 <0.001>",
        "10 2.0 +++ exited with 0 +++",
    ]);
    let mut events = events.into_iter();
    let exec_packets = sink.output_event(events.next().unwrap());
    assert_eq!(exec_packets.len(), 2);
    let Packet::TrackDescriptor { at, uuid, parent_uuid } = &exec_packets[0] else {
        panic!("expected a track descriptor, got {:?}", exec_packets[0]);
    };
    assert_eq!(*at, 1_000_000_000);
    assert_eq!(*parent_uuid, None);
    let Packet::SliceBegin { at, track_uuid, name, .. } = &exec_packets[1] else {
        panic!("expected a slice begin, got {:?}", exec_packets[1]);
    };
    assert_eq!(*at, 1_000_000_000);
    assert_eq!(track_uuid, uuid);
    assert_eq!(name.as_deref(), Some(b"a".as_slice()));
    let stop_packets = sink.output_event(events.next().unwrap());
    assert_eq!(stop_packets.len(), 1);
    let Packet::SliceEnd { at, track_uuid: end_uuid } = &stop_packets[0] else {
        panic!("expected a slice end, got {:?}", stop_packets[0]);
    };
    assert_eq!(*at, 2_000_000_000);
    assert_eq!(end_uuid, uuid);
}

#[test]
fn perfetto_assigns_tracks_only_on_exec() {
    // A stop for a pid that never exec'd ends no slice and leaves no
    // track behind; a log event creates no track either.
    let mut sink = PerfettoOutput::new(PerfettoOutputOptions { logs: false });
    let events = analyze_all(&[
        "9 1.0 brk(NULL) = 0 <0.001>",
        "9 2.0 +++ exited with 0 +++",
    ]);
    for event in events {
        assert_eq!(sink.output_event(event), vec![]);
    }
}

#[test]
fn analyzer_reports_failing_lazy_parses() {
    // A fork-family line whose result text does not parse is a
    // diagnostic, not an event; a well-formed one succeeds.
    let mut analyzer = Analyzer::new();
    let bad = parse_line(b"1 1.0 clone(child_stack=NULL) = ( <0.001>").unwrap();
    assert!(analyzer.analyze(bad).is_err());
    let bad_code = parse_line(b"1 2.0 +++ exited with ) +++").unwrap();
    assert!(analyzer.analyze(bad_code).is_err());
    let good = parse_line(b"1 3.0 clone(child_stack=NULL) = 2 <0.001>").unwrap();
    assert!(analyzer.analyze(good).is_ok());
}

#[test]
fn perfetto_logs_intern_the_raw_line() {
    let mut sink = PerfettoOutput::new(PerfettoOutputOptions { logs: true });
    let line = "10 1.0 brk(NULL) = 0 <0.001>";
    let events = analyze_all(&[line]);
    let packets = sink.output_event(events.into_iter().next().unwrap());
    assert_eq!(packets.len(), 2);
    let Packet::RootTrackDescriptor { uuid } = &packets[0] else {
        panic!("expected the root track first, got {:?}", packets[0]);
    };
    let Packet::LogInstant { track_uuid, body_iid, body, .. } = &packets[1] else {
        panic!("expected a log instant, got {:?}", packets[1]);
    };
    assert_eq!(*track_uuid, Some(*uuid));
    assert_eq!(*body_iid, 1);
    assert_eq!(body, &format!("{}\n", line).into_bytes());
}

#[test]
fn relative_to_rebases_timestamps() {
    let mut sink = OtelOutput::new(
        OtelOutputOptions { relative_to: Some(Timestamp { nanos: 100 }) },
        false,
    );
    let events = analyze_all(&[
        "10 5.0 execve(\"/bin/a\", [\"a\"], []) = 0 <0.001>",
        "10 7.0 +++ exited with 0 +++",
    ]);
    let mut cmds = Vec::new();
    for event in events {
        cmds.extend(sink.output_event(event));
    }
    let OtelCommand::StartSpan { at, .. } = &cmds[1] else {
        panic!("expected a span start");
    };
    assert_eq!(at.nanos, 100);
    let OtelCommand::EndSpan { at, .. } = &cmds[2] else {
        panic!("expected a span end");
    };
    assert_eq!(at.nanos, 100 + 2_000_000_000);
}
