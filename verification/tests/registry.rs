use socketio::attach::{encode_data, inject};
use socketio::server::Server;
use socketio::socket::{Frame, Socket};
use socketio::value::{Data, Value};

fn fresh(server: &mut Server, id: &[u8]) {
    server.register(Socket::new(id.to_vec()));
}

#[test]
fn register_creates_self_room() {
    let mut server = Server::new();
    fresh(&mut server, b"a");
    assert_eq!(server.clients.len(), 1);
    assert_eq!(server.rooms.len(), 1);
    assert_eq!(server.rooms[0].name, b"a".to_vec());
    assert_eq!(server.rooms[0].members, vec![b"a".to_vec()]);
}

#[test]
fn join_is_idempotent() {
    let mut server = Server::new();
    fresh(&mut server, b"a");
    server.join(&b"a".to_vec(), b"r".to_vec());
    server.join(&b"a".to_vec(), b"r".to_vec());
    assert_eq!(server.clients[0].rooms_joined, vec![b"r".to_vec()]);
    assert_eq!(server.rooms.len(), 2);
    assert_eq!(server.rooms[1].members, vec![b"a".to_vec()]);
}

#[test]
fn leave_is_idempotent_and_drops_empty_rooms() {
    let mut server = Server::new();
    fresh(&mut server, b"a");
    server.join(&b"a".to_vec(), b"r".to_vec());
    server.leave(&b"a".to_vec(), &b"r".to_vec());
    server.leave(&b"a".to_vec(), &b"r".to_vec());
    assert_eq!(server.clients[0].rooms_joined.len(), 0);
    assert_eq!(server.rooms.len(), 1);
    assert_eq!(server.rooms[0].name, b"a".to_vec());
}

#[test]
fn join_then_leave_restores_the_registry() {
    let mut server = Server::new();
    fresh(&mut server, b"a");
    fresh(&mut server, b"b");
    server.join(&b"a".to_vec(), b"r".to_vec());
    let snapshot = format!("{:?}", server);
    server.join(&b"b".to_vec(), b"r".to_vec());
    server.leave(&b"b".to_vec(), &b"r".to_vec());
    assert_eq!(format!("{:?}", server), snapshot);

    // the same for a room that did not exist before the join
    let snapshot2 = format!("{:?}", server);
    server.join(&b"a".to_vec(), b"q".to_vec());
    server.leave(&b"a".to_vec(), &b"q".to_vec());
    assert_eq!(format!("{:?}", server), snapshot2);
}

#[test]
fn room_fan_out_reaches_each_member_once() {
    let mut server = Server::new();
    fresh(&mut server, b"a");
    fresh(&mut server, b"b");
    fresh(&mut server, b"c");
    server.join(&b"a".to_vec(), b"r".to_vec());
    server.join(&b"b".to_vec(), b"r".to_vec());
    let out = server.room_emit(&b"r".to_vec(), &b"ping".to_vec(), &Vec::new());
    assert_eq!(out.len(), 2);
    assert_eq!(out[0].0, b"a".to_vec());
    assert_eq!(out[1].0, b"b".to_vec());
    for (_, frames) in &out {
        assert_eq!(frames, &vec![Frame::Text(b"2[\"ping\"]".to_vec())]);
    }
    // nobody is addressed twice
    assert!(out[0].0 != out[1].0);
    // an absent room fans out to nobody
    let none = server.room_emit(&b"nowhere".to_vec(), &b"ping".to_vec(), &Vec::new());
    assert_eq!(none.len(), 0);
}

#[test]
fn broadcast_reaches_every_connection() {
    let mut server = Server::new();
    fresh(&mut server, b"a");
    fresh(&mut server, b"b");
    let out = server.emit(&b"hey".to_vec(), &vec![Data::JSON(Value::Int(1))]);
    assert_eq!(out.len(), 2);
    assert_eq!(out[0].0, b"a".to_vec());
    assert_eq!(out[1].0, b"b".to_vec());
    for (_, frames) in &out {
        assert_eq!(frames, &vec![Frame::Text(b"2[\"hey\",1]".to_vec())]);
    }
}

#[test]
fn unregister_removes_the_connection_everywhere() {
    let mut server = Server::new();
    fresh(&mut server, b"a");
    fresh(&mut server, b"b");
    server.join(&b"a".to_vec(), b"r1".to_vec());
    server.join(&b"a".to_vec(), b"r2".to_vec());
    server.join(&b"b".to_vec(), b"r1".to_vec());
    server.unregister(&b"a".to_vec());
    assert!(server.find_client(&b"a".to_vec()).is_none());
    // its self-addressed room went with it; r2 was left empty and dropped
    assert!(server.find_room(&b"a".to_vec()).is_none());
    assert!(server.find_room(&b"r2".to_vec()).is_none());
    // r1 keeps its other member
    let r1 = server.find_room(&b"r1".to_vec()).expect("room kept");
    assert_eq!(server.rooms[r1].members, vec![b"b".to_vec()]);
}

#[test]
fn stale_room_is_dissolved_before_registration() {
    let mut server = Server::new();
    fresh(&mut server, b"b");
    // a room named like a not-yet-connected session id
    server.join(&b"b".to_vec(), b"a".to_vec());
    assert!(server.find_room(&b"a".to_vec()).is_some());
    // the room index's register overwrites such a room: dissolve, then register
    server.drop_room(&b"a".to_vec());
    assert!(server.find_room(&b"a".to_vec()).is_none());
    assert_eq!(server.clients[0].rooms_joined.len(), 0);
    fresh(&mut server, b"a");
    let ra = server.find_room(&b"a".to_vec()).expect("self room");
    assert_eq!(server.rooms[ra].members, vec![b"a".to_vec()]);
    // dissolving an absent room changes nothing
    let before = format!("{:?}", server);
    server.drop_room(&b"nowhere".to_vec());
    assert_eq!(format!("{:?}", server), before);
}

#[test]
fn close_forgets_everything() {
    let mut server = Server::new();
    fresh(&mut server, b"a");
    fresh(&mut server, b"b");
    server.join(&b"a".to_vec(), b"r".to_vec());
    server.close();
    assert_eq!(server.clients.len(), 0);
    assert_eq!(server.rooms.len(), 0);
}

#[test]
fn extraction_and_injection_undo_each_other() {
    let data = vec![
        Data::JSON(Value::Str(b"e".to_vec())),
        Data::Binary(vec![1, 2]),
        Data::JSON(Value::Arr(vec![Value::Bin(vec![3]), Value::Int(5)])),
    ];
    let (tree, bins) = encode_data(data);
    assert_eq!(bins, vec![vec![1, 2], vec![3]]);
    assert_eq!(
        tree,
        Value::Arr(vec![
            Value::Str(b"e".to_vec()),
            Value::Obj(vec![
                (b"_placeholder".to_vec(), Value::Bool(true)),
                (b"num".to_vec(), Value::Int(1)),
            ]),
            Value::Arr(vec![
                Value::Obj(vec![
                    (b"_placeholder".to_vec(), Value::Bool(true)),
                    (b"num".to_vec(), Value::Int(2)),
                ]),
                Value::Int(5),
            ]),
        ])
    );
    let back = inject(&tree, &bins).expect("filling placeholders");
    assert_eq!(
        back,
        Value::Arr(vec![
            Value::Str(b"e".to_vec()),
            Value::Bin(vec![1, 2]),
            Value::Arr(vec![Value::Bin(vec![3]), Value::Int(5)]),
        ])
    );
}

#[test]
fn injection_rejects_a_dangling_placeholder() {
    let tree = Value::Obj(vec![
        (b"_placeholder".to_vec(), Value::Bool(true)),
        (b"num".to_vec(), Value::Int(3)),
    ]);
    let atts: Vec<Vec<u8>> = vec![vec![1]];
    assert!(inject(&tree, &atts).is_err());
}

#[test]
fn protocol_version_is_four() {
    assert_eq!(socketio::PROTOCOL_VERSION, 4);
}
