//! Tests of the wire framing, the merge queues, the activation tracker, the
//! logging registry, and configuration parsing.

use dataflow_runtime::activations::Activations;
use dataflow_runtime::bytes_exchange::{MergeQueue, TransportError, decode_frames};
use dataflow_runtime::config::{Configuration, decimal_string, parse_count, parse_usize};
use dataflow_runtime::frame::{Frame, decode_frame, decode_u64, encode_frame, encode_u64};
use dataflow_runtime::logging::{LogEvent, Registry};

#[test]
fn u64_encoding_is_little_endian_and_round_trips() {
    let mut out = Vec::new();
    encode_u64(0x0807060504030201, &mut out);
    assert_eq!(out, vec![1, 2, 3, 4, 5, 6, 7, 8]);
    assert_eq!(decode_u64(&out, 0), 0x0807060504030201);
    let mut out2 = Vec::new();
    encode_u64(u64::MAX, &mut out2);
    assert_eq!(decode_u64(&out2, 0), u64::MAX);
}

#[test]
fn frame_round_trips() {
    let f = Frame { channel: 3, source: 1, seqno: 9, payload: b"payload".to_vec() };
    let mut bytes = Vec::new();
    encode_frame(&f, &mut bytes);
    assert_eq!(bytes.len(), 32 + 7);
    let (g, end) = decode_frame(&bytes, 0).expect("a whole frame");
    assert_eq!(end, bytes.len());
    assert_eq!(g.channel, 3);
    assert_eq!(g.source, 1);
    assert_eq!(g.seqno, 9);
    assert_eq!(g.payload, b"payload".to_vec());
}

#[test]
fn zero_length_frame_is_legal() {
    let f = Frame { channel: 0, source: 0, seqno: 0, payload: Vec::new() };
    let mut bytes = Vec::new();
    encode_frame(&f, &mut bytes);
    assert_eq!(bytes.len(), 32);
    let (g, end) = decode_frame(&bytes, 0).expect("a keep-alive frame");
    assert_eq!(end, 32);
    assert!(g.payload.is_empty());
}

#[test]
fn truncated_stream_is_corrupt() {
    let f = Frame { channel: 1, source: 0, seqno: 0, payload: b"abc".to_vec() };
    let mut bytes = Vec::new();
    encode_frame(&f, &mut bytes);
    bytes.pop();
    let parsed = decode_frames(&bytes);
    assert!(matches!(parsed, Err(TransportError::CorruptFrame)));
}

#[test]
fn frame_stream_parses_in_order() {
    let mut bytes = Vec::new();
    for (i, payload) in [b"one".to_vec(), b"two".to_vec(), Vec::new()].iter().enumerate() {
        let f = Frame { channel: 5, source: 2, seqno: i as u64, payload: payload.clone() };
        encode_frame(&f, &mut bytes);
    }
    let fs = decode_frames(&bytes).expect("three frames");
    assert_eq!(fs.len(), 3);
    assert_eq!(fs[0].payload, b"one".to_vec());
    assert_eq!(fs[1].payload, b"two".to_vec());
    assert!(fs[2].payload.is_empty());
    assert_eq!(fs[2].seqno, 2);
}

#[test]
fn merge_queue_applies_backpressure() {
    let mut q = MergeQueue::new(2);
    assert!(q.try_push(vec![1]));
    assert!(q.try_push(vec![2]));
    assert!(!q.try_push(vec![3]), "the third buffer must wait");
    let drained = q.drain();
    assert_eq!(drained, vec![vec![1], vec![2]]);
    assert_eq!(q.len(), 0);
    assert!(q.try_push(vec![3]));
}

#[test]
fn activations_yield_prefix_extensions_once() {
    let mut acts = Activations::new();
    acts.activate(vec![0, 4]);
    acts.activate(vec![1]);
    acts.activate(vec![0, 5]);
    assert!(!acts.is_empty());
    acts.advance();
    let top = acts.for_extensions(&Vec::new());
    assert_eq!(top, vec![0, 1, 0]);
    // They were removed: a second query yields nothing.
    let again = acts.for_extensions(&Vec::new());
    assert!(again.is_empty());
    assert!(acts.is_empty());
}

#[test]
fn activations_keep_unrelated_paths() {
    let mut acts = Activations::new();
    acts.activate(vec![2, 7]);
    acts.activate(vec![3, 8]);
    acts.advance();
    let under_two = acts.for_extensions(&vec![2]);
    assert_eq!(under_two, vec![7]);
    let top = acts.for_extensions(&Vec::new());
    assert_eq!(top, vec![3]);
}

#[test]
fn registry_keeps_events_only_with_a_sink() {
    let mut reg = Registry::new();
    reg.log(&"runtime".to_owned(), LogEvent::Unpark);
    assert_eq!(reg.len(), 0, "no sink: the event is discarded");
    reg.insert("runtime".to_owned());
    reg.log(&"runtime".to_owned(), LogEvent::ScheduleStart(4));
    reg.log(&"other".to_owned(), LogEvent::Unpark);
    assert_eq!(reg.len(), 1);
    assert!(reg.get(&"runtime".to_owned()));
    assert!(!reg.get(&"other".to_owned()));
}

#[test]
fn parse_usize_is_exact() {
    assert_eq!(parse_usize(b"0"), Some(0));
    assert_eq!(parse_usize(b"2101"), Some(2101));
    assert_eq!(parse_usize(b""), None);
    assert_eq!(parse_usize(b"12a"), None);
    assert_eq!(parse_usize(b"-3"), None);
    assert_eq!(parse_usize(b"18446744073709551615"), Some(usize::MAX));
    assert_eq!(parse_usize(b"18446744073709551616"), None);
}

#[test]
fn parse_count_matches_parse_usize() {
    assert_eq!(parse_count("42"), Some(42));
    assert_eq!(parse_count(""), None);
    assert_eq!(parse_count("4x"), None);
    assert_eq!(parse_count("\u{ff14}\u{ff12}"), None, "wide digits are not ASCII");
}

#[test]
fn decimal_string_is_exact() {
    assert_eq!(decimal_string(0), b"0".to_vec());
    assert_eq!(decimal_string(2101), b"2101".to_vec());
    assert_eq!(decimal_string(10), b"10".to_vec());
}

fn args(list: &[&str]) -> Vec<String> {
    list.iter().map(|s| s.to_string()).collect()
}

#[test]
fn from_args_defaults_to_thread() {
    let c = Configuration::from_args(args(&[]), None).expect("defaults parse");
    assert!(matches!(c, Configuration::Thread));
}

#[test]
fn from_args_picks_process_for_threads() {
    let c = Configuration::from_args(args(&["-w", "3"]), None).expect("threads parse");
    assert!(matches!(c, Configuration::Process(3)));
}

#[test]
fn from_args_builds_default_cluster_addresses() {
    let c = Configuration::from_args(args(&["-n", "2", "-p", "1", "-r"]), None)
        .expect("cluster parses");
    match c {
        Configuration::Cluster { threads, process, addresses, report, join } => {
            assert_eq!(threads, 1);
            assert_eq!(process, 1);
            assert_eq!(addresses, vec!["localhost:2101".to_string(), "localhost:2102".to_string()]);
            assert!(report);
            assert_eq!(join, None);
        }
        _ => panic!("expected a cluster configuration"),
    }
}

#[test]
fn from_args_takes_hostfile_lines() {
    let lines = vec!["a:1".to_string(), "b:2".to_string(), "c:3".to_string()];
    let c = Configuration::from_args(args(&["-n", "2", "-j", "0"]), Some(lines))
        .expect("cluster parses");
    match c {
        Configuration::Cluster { addresses, join, .. } => {
            assert_eq!(addresses, vec!["a:1".to_string(), "b:2".to_string()]);
            assert_eq!(join, Some(0));
        }
        _ => panic!("expected a cluster configuration"),
    }
}

#[test]
fn from_args_rejects_bad_inputs() {
    assert!(Configuration::from_args(args(&["-p", "2", "-n", "2"]), None).is_err());
    assert!(Configuration::from_args(args(&["-w", "0"]), None).is_err());
    assert!(Configuration::from_args(args(&["-n", "0"]), None).is_err());
    assert!(Configuration::from_args(args(&["-n", "3"]), Some(vec!["a:1".to_string()])).is_err());
    assert!(Configuration::from_args(args(&["-j", "zero"]), None).is_err());
    assert!(Configuration::from_args(args(&["--nonsense"]), None).is_err());
}

#[test]
fn try_build_counts_builders() {
    let bs = Configuration::Thread.try_build().expect("thread builds");
    assert_eq!(bs.len(), 1);
    let bs = Configuration::Process(4).try_build().expect("process builds");
    assert_eq!(bs.len(), 4);
    let bs = Configuration::Cluster {
        threads: 2,
        process: 0,
        addresses: vec!["a:1".to_string(), "b:2".to_string()],
        report: false,
        join: None,
    }
    .try_build()
    .expect("cluster builds");
    assert_eq!(bs.len(), 2);
    assert!(Configuration::Process(0).try_build().is_err());
}

#[test]
fn hostfile_arg_is_surfaced() {
    assert_eq!(
        Configuration::hostfile_arg(args(&["-h", "hosts.txt"])),
        Some("hosts.txt".to_string())
    );
    assert_eq!(Configuration::hostfile_arg(args(&[])), None);
}
