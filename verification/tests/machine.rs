use socketio::socket::{Action, Frame, Socket};
use socketio::value::{Data, Value};

#[test]
fn emit_without_binary() {
    let so = Socket::new(b"c1".to_vec());
    let frames = so.emit(b"ping".to_vec(), Vec::new());
    assert_eq!(frames.len(), 1);
    assert_eq!(frames[0], Frame::Text(b"2[\"ping\"]".to_vec()));
}

#[test]
fn emit_with_binary_leaf() {
    let so = Socket::new(b"c1".to_vec());
    let frames = so.emit(
        b"up".to_vec(),
        vec![Data::JSON(Value::Int(4)), Data::Binary(vec![0xde, 0xad])],
    );
    assert_eq!(frames.len(), 2);
    assert_eq!(
        frames[0],
        Frame::Text(b"51-[\"up\",4,{\"_placeholder\":true,\"num\":1}]".to_vec())
    );
    assert_eq!(frames[1], Frame::Binary(vec![0xde, 0xad]));
}

#[test]
fn connect_sets_namespace() {
    let mut so = Socket::new(b"c1".to_vec());
    let (frames, action) = so.handle_text(&b"0/abc".to_vec());
    assert_eq!(frames.len(), 0);
    assert_eq!(action, Action::Ignore);
    let out = so.emit(b"x".to_vec(), Vec::new());
    assert_eq!(out[0], Frame::Text(b"2/abc,[\"x\"]".to_vec()));
}

#[test]
fn disconnect_requests_close() {
    let mut so = Socket::new(b"c1".to_vec());
    let (frames, action) = so.handle_text(&b"1".to_vec());
    assert_eq!(frames.len(), 0);
    assert_eq!(action, Action::CloseRequested);
}

#[test]
fn peer_error_is_reported() {
    let mut so = Socket::new(b"c1".to_vec());
    let (_, action) = so.handle_text(&b"4\"oops\"".to_vec());
    assert_eq!(
        action,
        Action::PeerError { data: Some(Value::Str(b"oops".to_vec())) }
    );
}

#[test]
fn broken_frame_gets_error_reply() {
    let mut so = Socket::new(b"c1".to_vec());
    let (frames, action) = so.handle_text(&b"2[]".to_vec());
    assert_eq!(action, Action::Ignore);
    assert_eq!(frames, vec![Frame::Text(b"4\"NoEvent\"".to_vec())]);
}

#[test]
fn handled_event_invokes_handler() {
    let mut so = Socket::new(b"s1".to_vec());
    so.on(b"greet".to_vec());
    let (frames, action) = so.handle_text(&b"2[\"greet\",\"hi\",5]".to_vec());
    assert_eq!(frames.len(), 0);
    assert_eq!(
        action,
        Action::Invoke {
            event: b"greet".to_vec(),
            params: vec![Value::Str(b"hi".to_vec()), Value::Int(5)],
            attachments: None,
            ack_id: None,
        }
    );
}

#[test]
fn unhandled_event_with_id_gets_empty_ack() {
    let mut so = Socket::new(b"s1".to_vec());
    let (frames, action) = so.handle_text(&b"21[\"nope\"]".to_vec());
    assert_eq!(action, Action::Ignore);
    assert_eq!(frames, vec![Frame::Text(b"31[]".to_vec())]);
}

#[test]
fn unhandled_event_without_id_is_silent() {
    let mut so = Socket::new(b"s1".to_vec());
    let (frames, action) = so.handle_text(&b"2[\"nope\"]".to_vec());
    assert_eq!(action, Action::Ignore);
    assert_eq!(frames.len(), 0);
}

#[test]
fn ack_round_trip() {
    // a client asks for an acknowledgment; the server's handler answers; the
    // continuation is released exactly once with the answer
    let mut client = Socket::new(b"c1".to_vec());
    let (frames, id) = client.emit_ack(b"x".to_vec(), vec![Data::JSON(Value::Int(1))]);
    assert_eq!(id, 0);
    assert_eq!(frames, vec![Frame::Text(b"20[\"x\",1]".to_vec())]);
    assert_eq!(client.pending_acks, vec![0]);

    let mut server = Socket::new(b"s1".to_vec());
    server.on(b"x".to_vec());
    let wire = match &frames[0] {
        Frame::Text(t) => t.clone(),
        _ => unreachable!(),
    };
    let (replies, action) = server.handle_text(&wire);
    assert_eq!(replies.len(), 0);
    assert_eq!(
        action,
        Action::Invoke {
            event: b"x".to_vec(),
            params: vec![Value::Int(1)],
            attachments: None,
            ack_id: Some(0),
        }
    );
    // the handler returns [2]
    let ack = server.send_ack(0, vec![Data::JSON(Value::Int(2))]);
    assert_eq!(ack, vec![Frame::Text(b"30[2]".to_vec())]);

    let ack_wire = match &ack[0] {
        Frame::Text(t) => t.clone(),
        _ => unreachable!(),
    };
    let (frames2, action2) = client.handle_text(&ack_wire);
    assert_eq!(frames2.len(), 0);
    assert_eq!(
        action2,
        Action::AckInvoke {
            id: 0,
            data: Some(Value::Arr(vec![Value::Int(2)])),
            attachments: None,
        }
    );
    assert_eq!(client.pending_acks.len(), 0);

    // a second identical acknowledgment is dropped in silence
    let (_, action3) = client.handle_text(&ack_wire);
    assert_eq!(action3, Action::Ignore);
}

#[test]
fn binary_reassembly_dispatches_once() {
    let mut so = Socket::new(b"s1".to_vec());
    so.on(b"e".to_vec());
    let wire =
        b"52-[\"e\",{\"_placeholder\":true,\"num\":1},{\"_placeholder\":true,\"num\":2}]".to_vec();
    let (frames, action) = so.handle_text(&wire);
    assert_eq!(frames.len(), 0);
    assert_eq!(action, Action::Ignore);

    let (frames1, action1) = so.handle_binary(vec![1]);
    assert_eq!(frames1.len(), 0);
    assert_eq!(action1, Action::Ignore);

    let (frames2, action2) = so.handle_binary(vec![2, 3]);
    assert_eq!(frames2.len(), 0);
    assert_eq!(
        action2,
        Action::Invoke {
            event: b"e".to_vec(),
            params: vec![Value::Bin(vec![1]), Value::Bin(vec![2, 3])],
            attachments: Some(vec![vec![1], vec![2, 3]]),
            ack_id: None,
        }
    );

    // the machine is idle again: a further binary frame is dropped
    let (frames3, action3) = so.handle_binary(vec![9]);
    assert_eq!(frames3.len(), 0);
    assert_eq!(action3, Action::Ignore);
}

#[test]
fn single_attachment_scenario() {
    let mut so = Socket::new(b"s1".to_vec());
    so.on(b"e".to_vec());
    let (_, a) = so.handle_text(&b"51-[\"e\",{\"_placeholder\":true,\"num\":1}]".to_vec());
    assert_eq!(a, Action::Ignore);
    let (_, b) = so.handle_binary(vec![0xde, 0xad]);
    assert_eq!(
        b,
        Action::Invoke {
            event: b"e".to_vec(),
            params: vec![Value::Bin(vec![0xde, 0xad])],
            attachments: Some(vec![vec![0xde, 0xad]]),
            ack_id: None,
        }
    );
}

#[test]
fn text_while_awaiting_reports_and_continues() {
    let mut so = Socket::new(b"s1".to_vec());
    so.on(b"e".to_vec());
    let (_, _) = so.handle_text(&b"51-[\"e\",{\"_placeholder\":true,\"num\":1}]".to_vec());
    // a text frame interrupts the wait: the buffered packet is abandoned,
    // the violation is reported, and the new frame is taken afresh
    let (frames, action) = so.handle_text(&b"2[\"e\"]".to_vec());
    assert_eq!(frames, vec![Frame::Text(b"4\"TextWhileAwaiting\"".to_vec())]);
    assert_eq!(
        action,
        Action::Invoke {
            event: b"e".to_vec(),
            params: vec![],
            attachments: None,
            ack_id: None,
        }
    );
    // the abandoned packet is gone: binary frames are dropped again
    let (_, after) = so.handle_binary(vec![1]);
    assert_eq!(after, Action::Ignore);
}

#[test]
fn placeholder_out_of_range_is_reported() {
    let mut so = Socket::new(b"s1".to_vec());
    so.on(b"e".to_vec());
    let (_, _) = so.handle_text(&b"51-[\"e\",{\"_placeholder\":true,\"num\":5}]".to_vec());
    let (frames, action) = so.handle_binary(vec![1]);
    assert_eq!(frames, vec![Frame::Text(b"4\"PlaceholderOutOfRange\"".to_vec())]);
    assert_eq!(action, Action::Ignore);
}

#[test]
fn ack_round_trip_with_binary() {
    let mut client = Socket::new(b"c1".to_vec());
    let (frames, id) = client.emit_ack(b"x".to_vec(), vec![Data::Binary(vec![7, 8])]);
    assert_eq!(id, 0);
    assert_eq!(
        frames,
        vec![
            Frame::Text(b"51-0[\"x\",{\"_placeholder\":true,\"num\":1}]".to_vec()),
            Frame::Binary(vec![7, 8]),
        ]
    );

    let mut server = Socket::new(b"s1".to_vec());
    server.on(b"x".to_vec());
    let (_, buffered) = server.handle_text(match &frames[0] {
        Frame::Text(t) => t,
        _ => unreachable!(),
    });
    assert_eq!(buffered, Action::Ignore);
    let (_, action) = server.handle_binary(vec![7, 8]);
    assert_eq!(
        action,
        Action::Invoke {
            event: b"x".to_vec(),
            params: vec![Value::Bin(vec![7, 8])],
            attachments: Some(vec![vec![7, 8]]),
            ack_id: Some(0),
        }
    );

    // the handler answers with bytes of its own: a binary acknowledgment
    let ack = server.send_ack(0, vec![Data::Binary(vec![9])]);
    assert_eq!(
        ack,
        vec![
            Frame::Text(b"61-0[{\"_placeholder\":true,\"num\":1}]".to_vec()),
            Frame::Binary(vec![9]),
        ]
    );
    let (_, mid) = client.handle_text(match &ack[0] {
        Frame::Text(t) => t,
        _ => unreachable!(),
    });
    assert_eq!(mid, Action::Ignore);
    let (_, done) = client.handle_binary(vec![9]);
    assert_eq!(
        done,
        Action::AckInvoke {
            id: 0,
            data: Some(Value::Arr(vec![Value::Bin(vec![9])])),
            attachments: Some(vec![vec![9]]),
        }
    );
    assert_eq!(client.pending_acks.len(), 0);
}

#[test]
fn error_replies_carry_the_namespace() {
    let mut so = Socket::new(b"c1".to_vec());
    let (_, _) = so.handle_text(&b"0/abc".to_vec());
    let (frames, _) = so.handle_text(&b"2[]".to_vec());
    assert_eq!(frames, vec![Frame::Text(b"4/abc,\"NoEvent\"".to_vec())]);
}

#[test]
fn close_drops_pending_acks() {
    let mut so = Socket::new(b"c1".to_vec());
    let (_, id0) = so.emit_ack(b"a".to_vec(), Vec::new());
    let (_, id1) = so.emit_ack(b"b".to_vec(), Vec::new());
    assert_eq!((id0, id1), (0, 1));
    assert_eq!(so.pending_acks, vec![0, 1]);
    so.close();
    assert_eq!(so.pending_acks.len(), 0);
    // dropped continuations are never invoked: their acks are now unknown
    let (_, action) = so.handle_text(&b"30[]".to_vec());
    assert_eq!(action, Action::Ignore);
}
