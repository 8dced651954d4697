//! Tests of the channel model: aggregate delivery and per-sender order.

use dataflow_runtime::channel::ChannelState;

#[test]
fn drained_channel_delivers_every_message_once() {
    // Three senders push five messages in all; pulling until empty receives
    // exactly those five, no loss and no duplication.
    let mut ch = ChannelState::new(3);
    ch.push(0, b"a".to_vec());
    ch.push(1, b"b".to_vec());
    ch.push(0, b"c".to_vec());
    ch.push(2, b"d".to_vec());
    ch.push(1, b"e".to_vec());
    let mut got = Vec::new();
    while let Some((_, m)) = ch.pull() {
        got.push(m);
    }
    got.sort();
    assert_eq!(
        got,
        vec![b"a".to_vec(), b"b".to_vec(), b"c".to_vec(), b"d".to_vec(), b"e".to_vec()]
    );
    assert!(ch.pull().is_none());
}

#[test]
fn per_sender_order_is_send_order() {
    let mut ch = ChannelState::new(2);
    ch.push(1, b"first".to_vec());
    ch.push(0, b"zero".to_vec());
    ch.push(1, b"second".to_vec());
    ch.push(1, b"third".to_vec());
    let mut from_one = Vec::new();
    while let Some((s, m)) = ch.pull() {
        if s == 1 {
            from_one.push(m);
        }
    }
    assert_eq!(from_one, vec![b"first".to_vec(), b"second".to_vec(), b"third".to_vec()]);
}

#[test]
fn grow_peers_keeps_histories_and_admits_new_senders() {
    let mut ch = ChannelState::new(1);
    ch.push(0, b"old".to_vec());
    ch.grow_peers(3);
    ch.push(2, b"new".to_vec());
    assert_eq!(ch.pending_from(0), 1);
    assert_eq!(ch.pending_from(1), 0);
    assert_eq!(ch.pending_from(2), 1);
    let (s1, m1) = ch.pull().expect("the early message");
    assert_eq!((s1, m1), (0, b"old".to_vec()));
    let (s2, m2) = ch.pull().expect("the newcomer's message");
    assert_eq!((s2, m2), (2, b"new".to_vec()));
}
