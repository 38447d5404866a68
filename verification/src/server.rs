//! The connection registry and room index: every live connection, every
//! room, and the consistency between what a connection believes it joined
//! and what the rooms record.
//!
//! The registry owns the connections; join, leave and unregister keep both
//! sides of the record in step, and fan-out walks a room's members once
//! each.

use vstd::prelude::*;

use crate::attach::{bin_count_list, blobs, view_data_seq};
use crate::socket::{
    contains_bytes, emit_frames, lemma_remove_first_absent, lemma_remove_first_at, remove_first,
    view_frames, Frame, SpecSocket, Socket,
};
use crate::value::{copy_bytes, Data};

verus! {

/// The model of a room: its name and the ids of its member connections.
#[verifier::ext_equal]
pub struct SpecRoom {
    pub name: Seq<u8>,
    pub members: Seq<Seq<u8>>,
}

/// A room: its name and the ids of its member connections.
#[derive(Debug)]
pub struct Room {
    pub name: Vec<u8>,
    pub members: Vec<Vec<u8>>,
}

impl Room {
    /// The model of this room.
    pub open spec fn view(self) -> SpecRoom {
        SpecRoom { name: self.name@, members: blobs(self.members@) }
    }
}

/// The model of the registry.
#[verifier::ext_equal]
pub struct SpecServer {
    pub clients: Seq<SpecSocket>,
    pub rooms: Seq<SpecRoom>,
}

/// The registry: the live connections and the room index.
#[derive(Debug)]
pub struct Server {
    pub clients: Vec<Socket>,
    pub rooms: Vec<Room>,
}

/// The models of a sequence of connections, in order.
pub open spec fn view_clients(cs: Seq<Socket>) -> Seq<SpecSocket>
    decreases cs,
{
    if cs.len() == 0 {
        Seq::<SpecSocket>::empty()
    } else {
        view_clients(cs.drop_last()).push(cs.last().view())
    }
}

/// `view_clients` maps the view over the connections, one for one.
pub broadcast proof fn lemma_view_clients(cs: Seq<Socket>)
    ensures
        #[trigger] view_clients(cs).len() == cs.len(),
        forall|i: int| 0 <= i < cs.len() ==> view_clients(cs)[i] == cs[i].view(),
    decreases cs,
{
    if cs.len() > 0 {
        lemma_view_clients(cs.drop_last());
    }
}

/// The models of a sequence of rooms, in order.
pub open spec fn view_rooms(rs: Seq<Room>) -> Seq<SpecRoom>
    decreases rs,
{
    if rs.len() == 0 {
        Seq::<SpecRoom>::empty()
    } else {
        view_rooms(rs.drop_last()).push(rs.last().view())
    }
}

/// `view_rooms` maps the view over the rooms, one for one.
pub broadcast proof fn lemma_view_rooms(rs: Seq<Room>)
    ensures
        #[trigger] view_rooms(rs).len() == rs.len(),
        forall|i: int| 0 <= i < rs.len() ==> view_rooms(rs)[i] == rs[i].view(),
    decreases rs,
{
    if rs.len() > 0 {
        lemma_view_rooms(rs.drop_last());
    }
}

impl Server {
    /// The model of this registry.
    pub open spec fn view(self) -> SpecServer {
        SpecServer { clients: view_clients(self.clients@), rooms: view_rooms(self.rooms@) }
    }
}

/// The first position whose connection is named `id`, or minus one.
pub open spec fn client_index(cs: Seq<SpecSocket>, id: Seq<u8>) -> int
    decreases cs,
{
    if cs.len() == 0 {
        -1
    } else if cs[0].id == id {
        0
    } else {
        let r = client_index(cs.drop_first(), id);
        if r < 0 {
            -1
        } else {
            r + 1
        }
    }
}

/// What `client_index` finds: a position in range holding the first
/// connection so named, or minus one when none is.
pub proof fn lemma_client_index(cs: Seq<SpecSocket>, id: Seq<u8>)
    ensures
        -1 <= client_index(cs, id) < cs.len(),
        client_index(cs, id) == -1 ==> forall|k: int| 0 <= k < cs.len() ==> cs[k].id != id,
        client_index(cs, id) >= 0 ==> cs[client_index(cs, id)].id == id,
        client_index(cs, id) >= 0 ==> forall|k: int| 0 <= k < client_index(cs, id) ==> cs[k].id
            != id,
    decreases cs,
{
    if cs.len() > 0 && cs[0].id != id {
        lemma_client_index(cs.drop_first(), id);
        assert forall|k: int| 1 <= k < cs.len() implies cs.drop_first()[k - 1] == cs[k] by {}
    }
}

/// The first position whose room is named `name`, or minus one.
pub open spec fn room_index(rs: Seq<SpecRoom>, name: Seq<u8>) -> int
    decreases rs,
{
    if rs.len() == 0 {
        -1
    } else if rs[0].name == name {
        0
    } else {
        let r = room_index(rs.drop_first(), name);
        if r < 0 {
            -1
        } else {
            r + 1
        }
    }
}

/// What `room_index` finds; as `lemma_client_index`.
pub proof fn lemma_room_index(rs: Seq<SpecRoom>, name: Seq<u8>)
    ensures
        -1 <= room_index(rs, name) < rs.len(),
        room_index(rs, name) == -1 ==> forall|k: int| 0 <= k < rs.len() ==> rs[k].name != name,
        room_index(rs, name) >= 0 ==> rs[room_index(rs, name)].name == name,
        room_index(rs, name) >= 0 ==> forall|k: int| 0 <= k < room_index(rs, name) ==> rs[k].name
            != name,
    decreases rs,
{
    if rs.len() > 0 && rs[0].name != name {
        lemma_room_index(rs.drop_first(), name);
        assert forall|k: int| 1 <= k < rs.len() implies rs.drop_first()[k - 1] == rs[k] by {}
    }
}

/// When two sequences pair connections with equal ids, they index alike.
pub proof fn lemma_client_index_same_ids(cs: Seq<SpecSocket>, ds: Seq<SpecSocket>, id: Seq<u8>)
    requires
        cs.len() == ds.len(),
        forall|k: int| 0 <= k < cs.len() ==> cs[k].id == ds[k].id,
    ensures
        client_index(cs, id) == client_index(ds, id),
    decreases cs,
{
    if cs.len() > 0 && cs[0].id != id {
        assert forall|k: int| 0 <= k < cs.drop_first().len() implies cs.drop_first()[k].id
            == ds.drop_first()[k].id by {
            assert(cs[k + 1].id == ds[k + 1].id);
        }
        lemma_client_index_same_ids(cs.drop_first(), ds.drop_first(), id);
    }
}

/// When two sequences pair rooms with equal names, they index alike.
pub proof fn lemma_room_index_same_names(rs: Seq<SpecRoom>, ts: Seq<SpecRoom>, name: Seq<u8>)
    requires
        rs.len() == ts.len(),
        forall|k: int| 0 <= k < rs.len() ==> rs[k].name == ts[k].name,
    ensures
        room_index(rs, name) == room_index(ts, name),
    decreases rs,
{
    if rs.len() > 0 && rs[0].name != name {
        assert forall|k: int| 0 <= k < rs.drop_first().len() implies rs.drop_first()[k].name
            == ts.drop_first()[k].name by {
            assert(rs[k + 1].name == ts[k + 1].name);
        }
        lemma_room_index_same_names(rs.drop_first(), ts.drop_first(), name);
    }
}

/// Appending a room leaves every earlier name at its index; the new name,
/// fresh before, indexes the appended room.
pub proof fn lemma_room_index_push(rs: Seq<SpecRoom>, r2: SpecRoom, name: Seq<u8>)
    ensures
        room_index(rs, name) >= 0 ==> room_index(rs.push(r2), name) == room_index(rs, name),
        room_index(rs, name) == -1 && r2.name == name ==> room_index(rs.push(r2), name)
            == rs.len(),
        room_index(rs, name) == -1 && r2.name != name ==> room_index(rs.push(r2), name) == -1,
    decreases rs,
{
    if rs.len() == 0 {
        assert(rs.push(r2)[0] == r2);
        assert(rs.push(r2).drop_first() =~= Seq::<SpecRoom>::empty());
        assert(room_index(rs, name) == -1);
        assert(room_index(Seq::<SpecRoom>::empty(), name) == -1);
        if r2.name == name {
            assert(room_index(rs.push(r2), name) == 0);
        } else {
            assert(room_index(rs.push(r2), name) == -1);
        }
    } else {
        assert(rs.push(r2)[0] == rs[0]);
        if rs[0].name == name {
            assert(room_index(rs, name) == 0);
            assert(room_index(rs.push(r2), name) == 0);
        } else {
            assert(rs.push(r2).drop_first() =~= rs.drop_first().push(r2));
            lemma_room_index_push(rs.drop_first(), r2, name);
            lemma_room_index(rs.drop_first(), name);
            lemma_room_index(rs.drop_first().push(r2), name);
            let rt = room_index(rs.drop_first(), name);
            let pt = room_index(rs.drop_first().push(r2), name);
            assert(room_index(rs.push(r2), name) == (if pt < 0 {
                -1int
            } else {
                pt + 1
            }));
            assert(room_index(rs, name) == (if rt < 0 {
                -1int
            } else {
                rt + 1
            }));
        }
    }
}

/// The registry's data-consistency rules: ids and names are unique, room
/// member lists and joined-room lists repeat nothing, every joined room
/// exists and lists the joiner, and every room member is a live connection
/// that joined the room or owns it as its self-addressed room.
pub open spec fn inv(s: SpecServer) -> bool {
    &&& (forall|i: int, j: int|
        0 <= i < s.clients.len() && 0 <= j < s.clients.len() && i != j ==> s.clients[i].id
            != s.clients[j].id)
    &&& (forall|i: int, j: int|
        0 <= i < s.rooms.len() && 0 <= j < s.rooms.len() && i != j ==> s.rooms[i].name
            != s.rooms[j].name)
    &&& (forall|r: int, i: int, j: int|
        0 <= r < s.rooms.len() && 0 <= i < s.rooms[r].members.len() && 0 <= j
            < s.rooms[r].members.len() && i != j ==> s.rooms[r].members[i] != s.rooms[r].members[j])
    &&& (forall|c: int, i: int, j: int|
        0 <= c < s.clients.len() && 0 <= i < s.clients[c].rooms.len() && 0 <= j
            < s.clients[c].rooms.len() && i != j ==> s.clients[c].rooms[i] != s.clients[c].rooms[j])
    &&& (forall|c: int, k: int|
        0 <= c < s.clients.len() && 0 <= k < s.clients[c].rooms.len() ==> room_index(
            s.rooms,
            #[trigger] s.clients[c].rooms[k],
        ) >= 0 && s.rooms[room_index(s.rooms, s.clients[c].rooms[k])].members.contains(
            s.clients[c].id,
        ))
    &&& (forall|r: int, m: int|
        0 <= r < s.rooms.len() && 0 <= m < s.rooms[r].members.len() ==> client_index(
            s.clients,
            #[trigger] s.rooms[r].members[m],
        ) >= 0 && (s.rooms[r].name == s.rooms[r].members[m] || s.clients[client_index(
            s.clients,
            s.rooms[r].members[m],
        )].rooms.contains(s.rooms[r].name)))
    &&& (forall|r: int| 0 <= r < s.rooms.len() ==> (#[trigger] s.rooms[r].members).len() >= 1)
    &&& (forall|c: int|
        0 <= c < s.clients.len() ==> room_index(s.rooms, (#[trigger] s.clients[c]).id) >= 0
            && s.rooms[room_index(s.rooms, s.clients[c].id)].members.contains(s.clients[c].id))
}

/// Registering `so` appends it to the connections and gives it its
/// self-addressed room.
pub open spec fn spec_register(s: SpecServer, so: SpecSocket) -> SpecServer {
    SpecServer {
        clients: s.clients.push(so),
        rooms: s.rooms.push(SpecRoom { name: so.id, members: seq![so.id] }),
    }
}

/// Joining adds the room to the connection's record and the connection to
/// the room's, creating the room when it is new; absences and repeats
/// change nothing.
pub open spec fn spec_join(s: SpecServer, id: Seq<u8>, room: Seq<u8>) -> SpecServer {
    let ci = client_index(s.clients, id);
    if ci < 0 {
        s
    } else {
        let c = s.clients[ci];
        if c.rooms.contains(room) {
            s
        } else {
            let c2 = SpecSocket { rooms: c.rooms.push(room), ..c };
            let cs2 = s.clients.update(ci, c2);
            let ri = room_index(s.rooms, room);
            if ri < 0 {
                SpecServer {
                    clients: cs2,
                    rooms: s.rooms.push(SpecRoom { name: room, members: seq![id] }),
                }
            } else {
                let rm = s.rooms[ri];
                if rm.members.contains(id) {
                    SpecServer { clients: cs2, rooms: s.rooms }
                } else {
                    SpecServer {
                        clients: cs2,
                        rooms: s.rooms.update(
                            ri,
                            SpecRoom { members: rm.members.push(id), ..rm },
                        ),
                    }
                }
            }
        }
    }
}

/// Leaving removes the room from the connection's record and, unless the
/// room is the connection's self-addressed room, the connection from the
/// room's; a room left empty is dropped. Absences change nothing.
pub open spec fn spec_leave(s: SpecServer, id: Seq<u8>, room: Seq<u8>) -> SpecServer {
    let ci = client_index(s.clients, id);
    if ci < 0 {
        s
    } else {
        let c = s.clients[ci];
        if !c.rooms.contains(room) {
            s
        } else {
            let c2 = SpecSocket { rooms: remove_first(c.rooms, room), ..c };
            let cs2 = s.clients.update(ci, c2);
            let ri = room_index(s.rooms, room);
            if ri < 0 {
                SpecServer { clients: cs2, rooms: s.rooms }
            } else {
                let rm = s.rooms[ri];
                let m2 = if room == id {
                    rm.members
                } else {
                    remove_first(rm.members, id)
                };
                if m2.len() == 0 {
                    SpecServer { clients: cs2, rooms: s.rooms.remove(ri) }
                } else {
                    SpecServer {
                        clients: cs2,
                        rooms: s.rooms.update(ri, SpecRoom { members: m2, ..rm }),
                    }
                }
            }
        }
    }
}

/// An appended element is the only new point of membership.
pub proof fn lemma_push_contains<A>(s: Seq<A>, x: A, y: A)
    ensures
        s.push(x).contains(y) <==> (s.contains(y) || x == y),
{
    if s.contains(y) {
        let i = choose|i: int| 0 <= i < s.len() && s[i] == y;
        assert(s.push(x)[i] == y);
    }
    if x == y {
        assert(s.push(x)[s.len() as int] == y);
    }
    if s.push(x).contains(y) {
        let i = choose|i: int| 0 <= i < s.push(x).len() && s.push(x)[i] == y;
        if i < s.len() {
            assert(s[i] == y);
        }
    }
}

/// Joining keeps the registry's consistency rules.
pub proof fn lemma_join_inv(s: SpecServer, id: Seq<u8>, room: Seq<u8>)
    requires
        inv(s),
    ensures
        inv(spec_join(s, id, room)),
{
    lemma_client_index(s.clients, id);
    let ci = client_index(s.clients, id);
    if ci >= 0 {
        let c = s.clients[ci];
        if !c.rooms.contains(room) {
            let c2 = SpecSocket { rooms: c.rooms.push(room), ..c };
            let cs2 = s.clients.update(ci, c2);
            assert forall|k: int| 0 <= k < cs2.len() implies cs2[k].id == s.clients[k].id by {}
            lemma_room_index(s.rooms, room);
            let ri = room_index(s.rooms, room);
            let s2 = spec_join(s, id, room);
            assert(s2.clients == cs2);
            if ri < 0 {
                assert(s2.rooms == s.rooms.push(SpecRoom { name: room, members: seq![id] }));
            } else if s.rooms[ri].members.contains(id) {
                assert(s2.rooms == s.rooms);
            } else {
                assert(s2.rooms == s.rooms.update(
                    ri,
                    SpecRoom { members: s.rooms[ri].members.push(id), ..s.rooms[ri] },
                ));
            }
            // the room record of the new state
            assert forall|x: Seq<u8>| room_index(s2.rooms, x) == (if ri < 0 && x == room {
                s.rooms.len() as int
            } else if ri < 0 {
                room_index(s.rooms, x)
            } else {
                room_index(s.rooms, x)
            }) by {
                if ri < 0 {
                    lemma_room_index_push(
                        s.rooms,
                        SpecRoom { name: room, members: seq![id] },
                        x,
                    );
                    lemma_room_index(s.rooms, x);
                    if room_index(s.rooms, x) == -1 && x == room {
                    }
                } else if s.rooms[ri].members.contains(id) {
                } else {
                    let rs2 = s.rooms.update(
                        ri,
                        SpecRoom { members: s.rooms[ri].members.push(id), ..s.rooms[ri] },
                    );
                    lemma_room_index_same_names(s.rooms, rs2, x);
                }
            }
            // ids unique, names unique, member lists unique, joined lists unique
            assert forall|i: int, j: int|
                0 <= i < s2.clients.len() && 0 <= j < s2.clients.len() && i
                    != j implies s2.clients[i].id != s2.clients[j].id by {}
            assert forall|i: int, j: int|
                0 <= i < s2.rooms.len() && 0 <= j < s2.rooms.len() && i != j implies s2.rooms[i].name
                != s2.rooms[j].name by {
                if ri < 0 {
                    lemma_room_index(s.rooms, room);
                    if i < s.rooms.len() && j < s.rooms.len() {
                    } else if i == s.rooms.len() {
                        assert(s2.rooms[j].name == s.rooms[j].name);
                        assert(s2.rooms[i].name == room);
                    } else {
                        assert(s2.rooms[i].name == s.rooms[i].name);
                        assert(s2.rooms[j].name == room);
                    }
                }
            }
            assert forall|r: int, i: int, j: int|
                0 <= r < s2.rooms.len() && 0 <= i < s2.rooms[r].members.len() && 0 <= j
                    < s2.rooms[r].members.len() && i != j implies s2.rooms[r].members[i]
                != s2.rooms[r].members[j] by {
                if ri >= 0 && !s.rooms[ri].members.contains(id) && r == ri {
                    let m0 = s.rooms[ri].members;
                    if i < m0.len() && j < m0.len() {
                    } else if i == m0.len() {
                        assert(s2.rooms[r].members[j] == m0[j]);
                        if m0[j] == id {
                            assert(m0.contains(id));
                        }
                    } else if j == m0.len() {
                        assert(s2.rooms[r].members[i] == m0[i]);
                        if m0[i] == id {
                            assert(m0.contains(id));
                        }
                    }
                }
            }
            assert forall|cc: int, i: int, j: int|
                0 <= cc < s2.clients.len() && 0 <= i < s2.clients[cc].rooms.len() && 0 <= j
                    < s2.clients[cc].rooms.len() && i != j implies s2.clients[cc].rooms[i]
                != s2.clients[cc].rooms[j] by {
                if cc == ci {
                    let r0 = c.rooms;
                    if i < r0.len() && j < r0.len() {
                    } else if i == r0.len() {
                        assert(s2.clients[cc].rooms[j] == r0[j]);
                        if r0[j] == room {
                            assert(r0.contains(room));
                        }
                    } else if j == r0.len() {
                        assert(s2.clients[cc].rooms[i] == r0[i]);
                        if r0[i] == room {
                            assert(r0.contains(room));
                        }
                    }
                }
            }
            // every joined room exists and lists the joiner
            assert forall|cc: int, k: int|
                0 <= cc < s2.clients.len() && 0 <= k
                    < s2.clients[cc].rooms.len() implies room_index(
                s2.rooms,
                #[trigger] s2.clients[cc].rooms[k],
            ) >= 0 && s2.rooms[room_index(s2.rooms, s2.clients[cc].rooms[k])].members.contains(
                s2.clients[cc].id,
            ) by {
                let x = s2.clients[cc].rooms[k];
                if cc != ci || k < c.rooms.len() {
                    assert(x == s.clients[cc].rooms[k]);
                    assert(room_index(s.rooms, x) >= 0);
                    let xr = room_index(s.rooms, x);
                    lemma_room_index(s.rooms, x);
                    assert(s.rooms[xr].members.contains(s.clients[cc].id));
                    assert(room_index(s2.rooms, x) == xr);
                    assert(s2.clients[cc].id == s.clients[cc].id);
                    if ri >= 0 && !s.rooms[ri].members.contains(id) {
                        if xr == ri {
                            lemma_push_contains(s.rooms[ri].members, id, s.clients[cc].id);
                            assert(s2.rooms[xr].members == s.rooms[ri].members.push(id));
                        } else {
                            assert(s2.rooms[xr] == s.rooms[xr]);
                        }
                    } else if ri < 0 {
                        assert(s2.rooms[xr] == s.rooms[xr]);
                    }
                    assert(s2.rooms[room_index(s2.rooms, x)].members.contains(s2.clients[cc].id));
                } else {
                    assert(x == room);
                    if ri < 0 {
                        assert(room_index(s2.rooms, x) == s.rooms.len());
                        assert(s2.rooms[s.rooms.len() as int].members == seq![id]);
                        assert(seq![id][0] == id);
                        assert(s2.rooms[s.rooms.len() as int].members.contains(id));
                    } else if s.rooms[ri].members.contains(id) {
                        assert(room_index(s2.rooms, x) == ri);
                    } else {
                        assert(room_index(s2.rooms, x) == ri);
                        lemma_push_contains(s.rooms[ri].members, id, id);
                    }
                }
            }
            // rooms stay peopled
            assert forall|r: int|
                0 <= r < s2.rooms.len() implies (#[trigger] s2.rooms[r].members).len() >= 1 by {
                if ri < 0 && r == s.rooms.len() {
                    assert(s2.rooms[r].members == seq![id]);
                } else if ri >= 0 && !s.rooms[ri].members.contains(id) && r == ri {
                    assert(s2.rooms[r].members == s.rooms[ri].members.push(id));
                } else {
                    assert(s2.rooms[r] == s.rooms[r]);
                }
            }
            // every connection keeps its self-addressed room
            assert forall|cc: int|
                0 <= cc < s2.clients.len() implies room_index(
                s2.rooms,
                (#[trigger] s2.clients[cc]).id,
            ) >= 0 && s2.rooms[room_index(s2.rooms, s2.clients[cc].id)].members.contains(
                s2.clients[cc].id,
            ) by {
                let own = s.clients[cc].id;
                assert(s2.clients[cc].id == own);
                let oi = room_index(s.rooms, own);
                assert(oi >= 0 && s.rooms[oi].members.contains(own));
                lemma_room_index(s.rooms, own);
                assert(room_index(s2.rooms, own) == oi);
                if ri >= 0 && !s.rooms[ri].members.contains(id) && oi == ri {
                    lemma_push_contains(s.rooms[ri].members, id, own);
                    assert(s2.rooms[oi].members == s.rooms[ri].members.push(id));
                } else if ri < 0 {
                    assert(s2.rooms[oi] == s.rooms[oi]);
                } else if s.rooms[ri].members.contains(id) {
                    assert(s2.rooms[oi] == s.rooms[oi]);
                } else {
                    assert(s2.rooms[oi] == s.rooms[oi]);
                }
            }
            // every member is live and joined or self-addressed
            assert forall|r: int, m: int|
                0 <= r < s2.rooms.len() && 0 <= m < s2.rooms[r].members.len() implies client_index(
                s2.clients,
                #[trigger] s2.rooms[r].members[m],
            ) >= 0 && (s2.rooms[r].name == s2.rooms[r].members[m] || s2.clients[client_index(
                s2.clients,
                s2.rooms[r].members[m],
            )].rooms.contains(s2.rooms[r].name)) by {
                let mid = s2.rooms[r].members[m];
                lemma_client_index_same_ids(s2.clients, s.clients, mid);
                lemma_client_index(s.clients, mid);
                if ri < 0 && r == s.rooms.len() {
                    assert(s2.rooms[r].members == seq![id]);
                    assert(seq![id][0] == id);
                    assert(mid == id);
                    assert(c.id == id);
                    assert(client_index(s.clients, mid) == ci) by {
                        if client_index(s.clients, mid) != ci {
                            assert(s.clients[client_index(s.clients, mid)].id == id);
                        }
                    }
                    lemma_push_contains(c.rooms, room, room);
                    assert(s2.clients[ci].rooms == c.rooms.push(room));
                    assert(s2.clients[ci].rooms.contains(room));
                    assert(s2.rooms[r].name == room);
                } else if ri >= 0 && !s.rooms[ri].members.contains(id) && r == ri && m
                    == s.rooms[ri].members.len() {
                    assert(s2.rooms[r].members == s.rooms[ri].members.push(id));
                    assert(mid == id);
                    assert(client_index(s.clients, mid) == ci) by {
                        if client_index(s.clients, mid) != ci {
                            assert(s.clients[client_index(s.clients, mid)].id == id);
                        }
                    }
                    lemma_push_contains(c.rooms, room, room);
                    assert(s2.clients[ci].rooms == c.rooms.push(room));
                    assert(s2.clients[ci].rooms.contains(room));
                    assert(s2.rooms[r].name == room);
                } else {
                    if ri >= 0 && !s.rooms[ri].members.contains(id) && r == ri {
                        assert(s2.rooms[r].members[m] == s.rooms[ri].members.push(id)[m]);
                        assert(mid == s.rooms[r].members[m]);
                        assert(s2.rooms[r].name == s.rooms[r].name);
                    } else {
                        assert(s2.rooms[r] == s.rooms[r]);
                    }
                    assert(s2.rooms[r].name == s.rooms[r].name);
                    assert(mid == s.rooms[r].members[m]);
                    let mci = client_index(s.clients, mid);
                    assert(mci >= 0);
                    assert(s.rooms[r].name == mid || s.clients[mci].rooms.contains(
                        s.rooms[r].name,
                    ));
                    if mci == ci {
                        lemma_push_contains(c.rooms, room, s.rooms[r].name);
                        assert(s2.clients[mci].rooms == c.rooms.push(room));
                    } else {
                        assert(s2.clients[mci] == s.clients[mci]);
                    }
                }
            }
        }
    }
}

/// Removing a value just appended to where it was absent undoes the append.
pub proof fn lemma_remove_first_push_absent<A>(s: Seq<A>, x: A)
    requires
        !s.contains(x),
    ensures
        remove_first(s.push(x), x) == s,
    decreases s,
{
    if s.len() == 0 {
        assert(s.push(x)[0] == x);
        assert(remove_first(s.push(x), x) =~= s);
    } else {
        assert(s[0] != x) by {
            if s[0] == x {
                assert(s.contains(x));
            }
        }
        assert(s.push(x)[0] == s[0]);
        assert(s.push(x).drop_first() =~= s.drop_first().push(x));
        assert(!s.drop_first().contains(x)) by {
            if s.drop_first().contains(x) {
                let i = choose|i: int| 0 <= i < s.drop_first().len() && s.drop_first()[i] == x;
                assert(s[i + 1] == x);
            }
        }
        lemma_remove_first_push_absent(s.drop_first(), x);
        assert(remove_first(s.push(x), x) =~= s);
    }
}

/// What removing the only occurrence leaves: one element fewer, the value
/// gone, everything else still there, in order, still unrepeated.
pub proof fn lemma_remove_first_unique<A>(s: Seq<A>, x: A)
    requires
        s.contains(x),
        forall|i: int, j: int| 0 <= i < s.len() && 0 <= j < s.len() && i != j ==> s[i] != s[j],
    ensures
        remove_first(s, x).len() == s.len() - 1,
        !remove_first(s, x).contains(x),
        forall|k: int| 0 <= k < remove_first(s, x).len() ==> s.contains(
            #[trigger] remove_first(s, x)[k],
        ) && remove_first(s, x)[k] != x,
        forall|y: A| s.contains(y) && y != x ==> #[trigger] remove_first(s, x).contains(y),
        forall|i: int, j: int|
            0 <= i < remove_first(s, x).len() && 0 <= j < remove_first(s, x).len() && i != j
                ==> remove_first(s, x)[i] != remove_first(s, x)[j],
{
    let i0 = choose|i: int| 0 <= i < s.len() && s[i] == x;
    assert forall|j: int| 0 <= j < i0 implies s[j] != x by {}
    lemma_remove_first_at(s, x, i0);
    let s2 = remove_first(s, x);
    assert(s2 =~= s.subrange(0, i0) + s.subrange(i0 + 1, s.len() as int));
    assert forall|k: int| 0 <= k < s2.len() implies s.contains(#[trigger] s2[k]) && s2[k]
        != x by {
        if k < i0 {
            assert(s2[k] == s[k]);
        } else {
            assert(s2[k] == s[k + 1]);
        }
    }
    if s2.contains(x) {
        let k = choose|k: int| 0 <= k < s2.len() && s2[k] == x;
        assert(s2[k] != x);
    }
    assert forall|y: A| s.contains(y) && y != x implies #[trigger] s2.contains(y) by {
        let k = choose|k: int| 0 <= k < s.len() && s[k] == y;
        if k < i0 {
            assert(s2[k] == y);
        } else {
            assert(k != i0);
            assert(s2[k - 1] == y);
        }
    }
}

/// Dropping a room leaves every other name findable, earlier ones at their
/// index and later ones one lower.
pub proof fn lemma_room_index_remove(rs: Seq<SpecRoom>, ri: int, name: Seq<u8>)
    requires
        0 <= ri < rs.len(),
        forall|i: int, j: int|
            0 <= i < rs.len() && 0 <= j < rs.len() && i != j ==> rs[i].name != rs[j].name,
        name != rs[ri].name,
    ensures
        room_index(rs, name) == -1 ==> room_index(rs.remove(ri), name) == -1,
        room_index(rs, name) >= 0 && room_index(rs, name) < ri ==> room_index(
            rs.remove(ri),
            name,
        ) == room_index(rs, name),
        room_index(rs, name) > ri ==> room_index(rs.remove(ri), name) == room_index(rs, name) - 1,
    decreases rs,
{
    lemma_room_index(rs, name);
    lemma_room_index(rs.remove(ri), name);
    let oi = room_index(rs, name);
    assert(rs.remove(ri) =~= rs.subrange(0, ri) + rs.subrange(ri + 1, rs.len() as int));
    if oi == -1 {
        assert forall|k: int| 0 <= k < rs.remove(ri).len() implies rs.remove(ri)[k].name
            != name by {
            if k < ri {
                assert(rs.remove(ri)[k] == rs[k]);
            } else {
                assert(rs.remove(ri)[k] == rs[k + 1]);
            }
        }
        if room_index(rs.remove(ri), name) >= 0 {
            assert(rs.remove(ri)[room_index(rs.remove(ri), name)].name == name);
        }
    } else if oi < ri {
        assert(rs.remove(ri)[oi].name == name);
        lemma_first_room_at(rs.remove(ri), name, oi);
        assert forall|k: int| 0 <= k < oi implies rs.remove(ri)[k].name != name by {
            assert(rs.remove(ri)[k] == rs[k]);
        }
        lemma_first_room_at(rs.remove(ri), name, oi);
    } else {
        assert(oi != ri);
        assert(rs.remove(ri)[oi - 1] == rs[oi]);
        assert forall|k: int| 0 <= k < oi - 1 implies rs.remove(ri)[k].name != name by {
            if k < ri {
                assert(rs.remove(ri)[k] == rs[k]);
            } else {
                assert(rs.remove(ri)[k] == rs[k + 1]);
            }
        }
        lemma_first_room_at(rs.remove(ri), name, oi - 1);
    }
}

/// A name found at `i` and nowhere earlier indexes `i`.
pub proof fn lemma_first_room_at(rs: Seq<SpecRoom>, name: Seq<u8>, i: int)
    requires
        0 <= i < rs.len(),
        rs[i].name == name,
        forall|k: int| 0 <= k < i ==> rs[k].name != name,
    ensures
        room_index(rs, name) == i,
    decreases i,
{
    if i == 0 {
    } else {
        assert(rs[0].name != name);
        assert(rs.drop_first()[i - 1].name == name);
        assert forall|k: int| 0 <= k < i - 1 implies rs.drop_first()[k].name != name by {
            assert(rs[k + 1].name != name);
        }
        lemma_first_room_at(rs.drop_first(), name, i - 1);
    }
}

/// Leaving keeps the registry's consistency rules.
pub proof fn lemma_leave_inv(s: SpecServer, id: Seq<u8>, room: Seq<u8>)
    requires
        inv(s),
    ensures
        inv(spec_leave(s, id, room)),
{
    lemma_client_index(s.clients, id);
    let ci = client_index(s.clients, id);
    if ci >= 0 {
        let c = s.clients[ci];
        if c.rooms.contains(room) {
            let c2 = SpecSocket { rooms: remove_first(c.rooms, room), ..c };
            let cs2 = s.clients.update(ci, c2);
            assert forall|k: int| 0 <= k < cs2.len() implies cs2[k].id == s.clients[k].id by {}
            lemma_room_index(s.rooms, room);
            let ri = room_index(s.rooms, room);
            let s2 = spec_leave(s, id, room);
            assert(s2.clients == cs2);
            assert forall|i: int, j: int|
                0 <= i < c.rooms.len() && 0 <= j < c.rooms.len() && i != j implies c.rooms[i]
                != c.rooms[j] by {}
            lemma_remove_first_unique(c.rooms, room);
            // the room record never gains a member it did not have, so the
            // room the client left exists
            assert(ri >= 0) by {
                let k = choose|k: int| 0 <= k < c.rooms.len() && c.rooms[k] == room;
                assert(room_index(s.rooms, c.rooms[k]) >= 0);
            }
            let rm = s.rooms[ri];
            assert forall|i: int, j: int|
                0 <= i < rm.members.len() && 0 <= j < rm.members.len() && i != j implies rm.members[i]
                != rm.members[j] by {}
            let m2 = if room == id {
                rm.members
            } else {
                remove_first(rm.members, id)
            };
            if room != id {
                assert(rm.members.contains(id)) by {
                    let k = choose|k: int| 0 <= k < c.rooms.len() && c.rooms[k] == room;
                    assert(room_index(s.rooms, c.rooms[k]) >= 0 && s.rooms[room_index(
                        s.rooms,
                        c.rooms[k],
                    )].members.contains(c.id));
                }
                lemma_remove_first_unique(rm.members, id);
            }
            if m2.len() == 0 {
                assert(room != id);
                assert(s2.rooms == s.rooms.remove(ri));
                lemma_leave_inv_removed(s, id, room, ci, ri, c2, cs2, s2);
            } else {
                assert(s2.rooms == s.rooms.update(ri, SpecRoom { members: m2, ..rm }));
                lemma_leave_inv_updated(s, id, room, ci, ri, c2, cs2, m2, s2);
            }
        }
    }
}

/// `lemma_leave_inv`, the case where the left room kept members.
proof fn lemma_leave_inv_updated(
    s: SpecServer,
    id: Seq<u8>,
    room: Seq<u8>,
    ci: int,
    ri: int,
    c2: SpecSocket,
    cs2: Seq<SpecSocket>,
    m2: Seq<Seq<u8>>,
    s2: SpecServer,
)
    requires
        inv(s),
        client_index(s.clients, id) == ci,
        0 <= ci < s.clients.len(),
        s.clients[ci].rooms.contains(room),
        room_index(s.rooms, room) == ri,
        0 <= ri < s.rooms.len(),
        c2 == (SpecSocket { rooms: remove_first(s.clients[ci].rooms, room), ..s.clients[ci] }),
        cs2 == s.clients.update(ci, c2),
        m2 == (if room == id {
            s.rooms[ri].members
        } else {
            remove_first(s.rooms[ri].members, id)
        }),
        m2.len() >= 1,
        s2 == (SpecServer {
            clients: cs2,
            rooms: s.rooms.update(ri, SpecRoom { members: m2, ..s.rooms[ri] }),
        }),
    ensures
        inv(s2),
{
    let c = s.clients[ci];
    lemma_client_index(s.clients, id);
    lemma_room_index(s.rooms, room);
    assert forall|i: int, j: int|
        0 <= i < c.rooms.len() && 0 <= j < c.rooms.len() && i != j implies c.rooms[i]
        != c.rooms[j] by {}
    lemma_remove_first_unique(c.rooms, room);
    assert forall|i: int, j: int|
        0 <= i < s.rooms[ri].members.len() && 0 <= j < s.rooms[ri].members.len() && i
            != j implies s.rooms[ri].members[i] != s.rooms[ri].members[j] by {}
    if room != id {
        assert(s.rooms[ri].members.contains(id)) by {
            let k = choose|k: int| 0 <= k < c.rooms.len() && c.rooms[k] == room;
            assert(room_index(s.rooms, c.rooms[k]) >= 0 && s.rooms[room_index(
                s.rooms,
                c.rooms[k],
            )].members.contains(c.id));
        }
        lemma_remove_first_unique(s.rooms[ri].members, id);
    }
    assert forall|k: int| 0 <= k < cs2.len() implies cs2[k].id == s.clients[k].id by {}
    assert forall|k: int| 0 <= k < s2.rooms.len() implies s2.rooms[k].name
        == s.rooms[k].name by {}
    // names and ids unchanged; member lists and joined lists only shrank
    assert forall|r: int, i: int, j: int|
        0 <= r < s2.rooms.len() && 0 <= i < s2.rooms[r].members.len() && 0 <= j
            < s2.rooms[r].members.len() && i != j implies s2.rooms[r].members[i]
        != s2.rooms[r].members[j] by {
        if r != ri {
            assert(s2.rooms[r] == s.rooms[r]);
        }
    }
    assert forall|cc: int, i: int, j: int|
        0 <= cc < s2.clients.len() && 0 <= i < s2.clients[cc].rooms.len() && 0 <= j
            < s2.clients[cc].rooms.len() && i != j implies s2.clients[cc].rooms[i]
        != s2.clients[cc].rooms[j] by {
        if cc != ci {
            assert(s2.clients[cc] == s.clients[cc]);
        }
    }
    // joined rooms still exist and still list the joiner
    assert forall|cc: int, k: int|
        0 <= cc < s2.clients.len() && 0 <= k < s2.clients[cc].rooms.len() implies room_index(
        s2.rooms,
        #[trigger] s2.clients[cc].rooms[k],
    ) >= 0 && s2.rooms[room_index(s2.rooms, s2.clients[cc].rooms[k])].members.contains(
        s2.clients[cc].id,
    ) by {
        let x = s2.clients[cc].rooms[k];
        lemma_room_index_same_names(s.rooms, s2.rooms, x);
        if cc == ci {
            assert(c2.rooms[k] != room);
            assert(c.rooms.contains(c2.rooms[k]));
            let k0 = choose|k0: int| 0 <= k0 < c.rooms.len() && c.rooms[k0] == x;
            assert(room_index(s.rooms, c.rooms[k0]) >= 0 && s.rooms[room_index(
                s.rooms,
                c.rooms[k0],
            )].members.contains(c.id));
            let xr = room_index(s.rooms, x);
            lemma_room_index(s.rooms, x);
            assert(xr != ri) by {
                lemma_room_index(s.rooms, x);
            }
            assert(s2.rooms[xr] == s.rooms[xr]);
        } else {
            assert(s2.clients[cc] == s.clients[cc]);
            assert(x == s.clients[cc].rooms[k]);
            let xr = room_index(s.rooms, x);
            assert(xr >= 0 && s.rooms[xr].members.contains(s.clients[cc].id));
            lemma_room_index(s.rooms, x);
            if xr == ri && room != id {
                assert(s.clients[cc].id != id) by {
                    if s.clients[cc].id == id {
                        assert(client_index(s.clients, id) == ci);
                        assert(cs2[cc].id == id);
                    }
                }
                assert(m2.contains(s.clients[cc].id));
                assert(s2.rooms[xr].members == m2);
            } else if xr == ri {
                assert(s2.rooms[xr].members == m2);
            } else {
                assert(s2.rooms[xr] == s.rooms[xr]);
            }
        }
    }
    // members still live, joined or self-addressed
    assert forall|r: int, m: int|
        0 <= r < s2.rooms.len() && 0 <= m < s2.rooms[r].members.len() implies client_index(
        s2.clients,
        #[trigger] s2.rooms[r].members[m],
    ) >= 0 && (s2.rooms[r].name == s2.rooms[r].members[m] || s2.clients[client_index(
        s2.clients,
        s2.rooms[r].members[m],
    )].rooms.contains(s2.rooms[r].name)) by {
        let mid = s2.rooms[r].members[m];
        lemma_client_index_same_ids(s2.clients, s.clients, mid);
        lemma_client_index(s.clients, mid);
        if r == ri {
            assert(s2.rooms[r].members == m2);
            if room == id {
                assert(mid == s.rooms[ri].members[m]);
            } else {
                assert(s.rooms[ri].members.contains(mid) && mid != id);
            }
        } else {
            assert(s2.rooms[r] == s.rooms[r]);
        }
        let k0 = choose|k0: int| 0 <= k0 < s.rooms[r].members.len() && s.rooms[r].members[k0]
            == mid;
        assert(s.rooms[r].members.contains(mid)) by {
            if r == ri && room != id {
            } else {
                assert(s.rooms[r].members[m] == mid);
            }
        }
        let mk = choose|mk: int| 0 <= mk < s.rooms[r].members.len() && s.rooms[r].members[mk]
            == mid;
        assert(client_index(s.clients, s.rooms[r].members[mk]) >= 0 && (s.rooms[r].name
            == s.rooms[r].members[mk] || s.clients[client_index(
            s.clients,
            s.rooms[r].members[mk],
        )].rooms.contains(s.rooms[r].name)));
        let mci = client_index(s.clients, mid);
        assert(s2.rooms[r].name == s.rooms[r].name);
        if mci == ci {
            assert(mid == id);
            if s.rooms[r].name != mid {
                assert(c.rooms.contains(s.rooms[r].name));
                assert(s.rooms[r].name != room) by {
                    if s.rooms[r].name == room {
                        lemma_room_index(s.rooms, room);
                        assert(r == ri) by {
                            if r != ri {
                                assert(s.rooms[r].name != s.rooms[ri].name);
                            }
                        }
                        assert(r == ri && room != id ==> !m2.contains(id));
                        assert(r == ri && room == id ==> mid == id && s.rooms[r].name == id);
                    }
                }
                assert(c2.rooms.contains(s.rooms[r].name));
                assert(s2.clients[ci].rooms.contains(s2.rooms[r].name));
            }
        } else {
            assert(s2.clients[mci] == s.clients[mci]);
        }
    }
    // rooms stay peopled
    assert forall|r: int|
        0 <= r < s2.rooms.len() implies (#[trigger] s2.rooms[r].members).len() >= 1 by {
        if r != ri {
            assert(s2.rooms[r] == s.rooms[r]);
        }
    }
    // self-addressed rooms survive
    assert forall|cc: int|
        0 <= cc < s2.clients.len() implies room_index(
        s2.rooms,
        (#[trigger] s2.clients[cc]).id,
    ) >= 0 && s2.rooms[room_index(s2.rooms, s2.clients[cc].id)].members.contains(
        s2.clients[cc].id,
    ) by {
        let own = s.clients[cc].id;
        assert(s2.clients[cc].id == own);
        let oi = room_index(s.rooms, own);
        assert(oi >= 0 && s.rooms[oi].members.contains(own));
        lemma_room_index(s.rooms, own);
        lemma_room_index_same_names(s.rooms, s2.rooms, own);
        if oi == ri {
            if room == id {
                assert(s2.rooms[oi].members == m2);
            } else {
                if own == id {
                    assert(s.rooms[oi].name == own) by {
                        assert(room_index(s.rooms, own) == oi);
                    }
                    assert(room == s.rooms[ri].name);
                    assert(false);
                } else {
                    assert(m2.contains(own));
                    assert(s2.rooms[oi].members == m2);
                }
            }
        } else {
            assert(s2.rooms[oi] == s.rooms[oi]);
        }
    }
}

/// `lemma_leave_inv`, the case where the left room lost its last member.
proof fn lemma_leave_inv_removed(
    s: SpecServer,
    id: Seq<u8>,
    room: Seq<u8>,
    ci: int,
    ri: int,
    c2: SpecSocket,
    cs2: Seq<SpecSocket>,
    s2: SpecServer,
)
    requires
        inv(s),
        client_index(s.clients, id) == ci,
        0 <= ci < s.clients.len(),
        s.clients[ci].rooms.contains(room),
        room_index(s.rooms, room) == ri,
        0 <= ri < s.rooms.len(),
        room != id,
        c2 == (SpecSocket { rooms: remove_first(s.clients[ci].rooms, room), ..s.clients[ci] }),
        cs2 == s.clients.update(ci, c2),
        remove_first(s.rooms[ri].members, id).len() == 0,
        s2 == (SpecServer { clients: cs2, rooms: s.rooms.remove(ri) }),
    ensures
        inv(s2),
{
    let c = s.clients[ci];
    lemma_client_index(s.clients, id);
    lemma_room_index(s.rooms, room);
    assert forall|i: int, j: int|
        0 <= i < c.rooms.len() && 0 <= j < c.rooms.len() && i != j implies c.rooms[i]
        != c.rooms[j] by {}
    lemma_remove_first_unique(c.rooms, room);
    assert forall|i: int, j: int|
        0 <= i < s.rooms[ri].members.len() && 0 <= j < s.rooms[ri].members.len() && i
            != j implies s.rooms[ri].members[i] != s.rooms[ri].members[j] by {}
    assert(s.rooms[ri].members.contains(id)) by {
        let k = choose|k: int| 0 <= k < c.rooms.len() && c.rooms[k] == room;
        assert(room_index(s.rooms, c.rooms[k]) >= 0 && s.rooms[room_index(
            s.rooms,
            c.rooms[k],
        )].members.contains(c.id));
    }
    lemma_remove_first_unique(s.rooms[ri].members, id);
    // the room held only the leaver
    assert(s.rooms[ri].members =~= seq![id]) by {
        assert(s.rooms[ri].members.len() == 1);
        let k = choose|k: int|
            0 <= k < s.rooms[ri].members.len() && s.rooms[ri].members[k] == id;
        assert(k == 0);
    }
    assert forall|k: int| 0 <= k < cs2.len() implies cs2[k].id == s.clients[k].id by {}
    assert(s2.rooms =~= s.rooms.subrange(0, ri) + s.rooms.subrange(ri + 1, s.rooms.len() as int));
    assert forall|k: int| 0 <= k < s2.rooms.len() implies s2.rooms[k] == (if k < ri {
        s.rooms[k]
    } else {
        s.rooms[k + 1]
    }) by {}
    assert forall|cc: int, k: int|
        0 <= cc < s2.clients.len() && 0 <= k < s2.clients[cc].rooms.len() implies room_index(
        s2.rooms,
        #[trigger] s2.clients[cc].rooms[k],
    ) >= 0 && s2.rooms[room_index(s2.rooms, s2.clients[cc].rooms[k])].members.contains(
        s2.clients[cc].id,
    ) by {
        let x = s2.clients[cc].rooms[k];
        let xr = room_index(s.rooms, x);
        lemma_room_index(s.rooms, x);
        if cc == ci {
            assert(c2.rooms[k] != room && c.rooms.contains(c2.rooms[k]));
            let k0 = choose|k0: int| 0 <= k0 < c.rooms.len() && c.rooms[k0] == x;
            assert(room_index(s.rooms, c.rooms[k0]) >= 0 && s.rooms[room_index(
                s.rooms,
                c.rooms[k0],
            )].members.contains(c.id));
        } else {
            assert(s2.clients[cc] == s.clients[cc]);
            assert(x == s.clients[cc].rooms[k]);
            assert(room_index(s.rooms, s.clients[cc].rooms[k]) >= 0 && s.rooms[room_index(
                s.rooms,
                s.clients[cc].rooms[k],
            )].members.contains(s.clients[cc].id));
        }
        assert(xr >= 0);
        assert(xr != ri) by {
            if xr == ri {
                assert(s.rooms[ri].members.contains(s2.clients[cc].id));
                assert(s2.clients[cc].id == id) by {
                    assert(s.rooms[ri].members =~= seq![id]);
                    let w = choose|w: int|
                        0 <= w < s.rooms[ri].members.len() && s.rooms[ri].members[w]
                            == s2.clients[cc].id;
                    assert(w == 0);
                }
                assert(cc == ci) by {
                    if cc != ci {
                        assert(s.clients[cc].id != s.clients[ci].id);
                    }
                }
                assert(x == room) by {
                    assert(s.rooms[xr].name == x);
                }
                assert(false);
            }
        }
        lemma_room_index_remove(s.rooms, ri, x);
        if xr < ri {
            assert(s2.rooms[xr] == s.rooms[xr]);
        } else {
            assert(s2.rooms[xr - 1] == s.rooms[xr]);
        }
    }
    assert forall|r: int, m: int|
        0 <= r < s2.rooms.len() && 0 <= m < s2.rooms[r].members.len() implies client_index(
        s2.clients,
        #[trigger] s2.rooms[r].members[m],
    ) >= 0 && (s2.rooms[r].name == s2.rooms[r].members[m] || s2.clients[client_index(
        s2.clients,
        s2.rooms[r].members[m],
    )].rooms.contains(s2.rooms[r].name)) by {
        let mid = s2.rooms[r].members[m];
        lemma_client_index_same_ids(s2.clients, s.clients, mid);
        lemma_client_index(s.clients, mid);
        let r0 = if r < ri {
            r
        } else {
            r + 1
        };
        assert(s2.rooms[r] == s.rooms[r0]);
        assert(mid == s.rooms[r0].members[m]);
        let mci = client_index(s.clients, mid);
        assert(mci >= 0 && (s.rooms[r0].name == mid || s.clients[mci].rooms.contains(
            s.rooms[r0].name,
        )));
        if mci == ci {
            assert(mid == id);
            if s.rooms[r0].name != mid {
                assert(c.rooms.contains(s.rooms[r0].name));
                assert(s.rooms[r0].name != room) by {
                    if s.rooms[r0].name == room {
                        assert(r0 == ri) by {
                            if r0 != ri {
                                assert(s.rooms[r0].name != s.rooms[ri].name);
                            }
                        }
                        assert(false);
                    }
                }
                assert(c2.rooms.contains(s.rooms[r0].name));
            }
        } else {
            assert(s2.clients[mci] == s.clients[mci]);
        }
    }
    assert forall|cc: int|
        0 <= cc < s2.clients.len() implies room_index(
        s2.rooms,
        (#[trigger] s2.clients[cc]).id,
    ) >= 0 && s2.rooms[room_index(s2.rooms, s2.clients[cc].id)].members.contains(
        s2.clients[cc].id,
    ) by {
        let own = s.clients[cc].id;
        assert(s2.clients[cc].id == own);
        let oi = room_index(s.rooms, own);
        assert(oi >= 0 && s.rooms[oi].members.contains(own));
        lemma_room_index(s.rooms, own);
        assert(oi != ri) by {
            if oi == ri {
                assert(own == room) by {
                    assert(s.rooms[oi].name == own);
                }
                assert(s.rooms[ri].members =~= seq![id]);
                let w = choose|w: int|
                    0 <= w < s.rooms[ri].members.len() && s.rooms[ri].members[w] == own;
                assert(w == 0);
                assert(own == id);
                assert(room == id);
                assert(false);
            }
        }
        lemma_room_index_remove(s.rooms, ri, own);
        if oi < ri {
            assert(s2.rooms[oi] == s.rooms[oi]);
        } else {
            assert(s2.rooms[oi - 1] == s.rooms[oi]);
        }
    }
}

/// Registering a fresh connection keeps the registry's consistency rules.
pub proof fn lemma_register_inv(s: SpecServer, so: SpecSocket)
    requires
        inv(s),
        client_index(s.clients, so.id) == -1,
        room_index(s.rooms, so.id) == -1,
        so.rooms.len() == 0,
    ensures
        inv(spec_register(s, so)),
{
    lemma_client_index(s.clients, so.id);
    lemma_room_index(s.rooms, so.id);
    let s2 = spec_register(s, so);
    let newroom = SpecRoom { name: so.id, members: seq![so.id] };
    assert(s2.clients == s.clients.push(so));
    assert(s2.rooms == s.rooms.push(newroom));
    assert(seq![so.id][0] == so.id);
    assert forall|x: Seq<u8>| #[trigger]
        room_index(s2.rooms, x) == (if room_index(s.rooms, x) >= 0 {
            room_index(s.rooms, x)
        } else if x == so.id {
            s.rooms.len() as int
        } else {
            -1
        }) by {
        lemma_room_index_push(s.rooms, newroom, x);
        lemma_room_index(s.rooms, x);
    }
    assert forall|x: Seq<u8>| #[trigger]
        client_index(s2.clients, x) == (if client_index(s.clients, x) >= 0 {
            client_index(s.clients, x)
        } else if x == so.id {
            s.clients.len() as int
        } else {
            -1
        }) by {
        lemma_client_index_push(s.clients, so, x);
        lemma_client_index(s.clients, x);
    }
    assert forall|i: int, j: int|
        0 <= i < s2.clients.len() && 0 <= j < s2.clients.len() && i != j implies s2.clients[i].id
        != s2.clients[j].id by {
        if i == s.clients.len() {
            assert(s2.clients[j].id == s.clients[j].id);
        } else if j == s.clients.len() {
            assert(s2.clients[i].id == s.clients[i].id);
        }
    }
    assert forall|i: int, j: int|
        0 <= i < s2.rooms.len() && 0 <= j < s2.rooms.len() && i != j implies s2.rooms[i].name
        != s2.rooms[j].name by {
        if i == s.rooms.len() {
            assert(s2.rooms[j].name == s.rooms[j].name);
        } else if j == s.rooms.len() {
            assert(s2.rooms[i].name == s.rooms[i].name);
        }
    }
    assert forall|cc: int, k: int|
        0 <= cc < s2.clients.len() && 0 <= k < s2.clients[cc].rooms.len() implies room_index(
        s2.rooms,
        #[trigger] s2.clients[cc].rooms[k],
    ) >= 0 && s2.rooms[room_index(s2.rooms, s2.clients[cc].rooms[k])].members.contains(
        s2.clients[cc].id,
    ) by {
        assert(cc < s.clients.len());
        assert(s2.clients[cc] == s.clients[cc]);
        let x = s.clients[cc].rooms[k];
        let xr = room_index(s.rooms, x);
        assert(xr >= 0 && s.rooms[xr].members.contains(s.clients[cc].id));
        lemma_room_index(s.rooms, x);
        assert(s2.rooms[xr] == s.rooms[xr]);
    }
    assert forall|r: int, m: int|
        0 <= r < s2.rooms.len() && 0 <= m < s2.rooms[r].members.len() implies client_index(
        s2.clients,
        #[trigger] s2.rooms[r].members[m],
    ) >= 0 && (s2.rooms[r].name == s2.rooms[r].members[m] || s2.clients[client_index(
        s2.clients,
        s2.rooms[r].members[m],
    )].rooms.contains(s2.rooms[r].name)) by {
        if r == s.rooms.len() {
            assert(s2.rooms[r] == newroom);
            assert(s2.rooms[r].members[m] == so.id);
        } else {
            assert(s2.rooms[r] == s.rooms[r]);
            let mid = s.rooms[r].members[m];
            let mci = client_index(s.clients, mid);
            assert(mci >= 0 && (s.rooms[r].name == mid || s.clients[mci].rooms.contains(
                s.rooms[r].name,
            )));
            lemma_client_index(s.clients, mid);
            assert(s2.clients[mci] == s.clients[mci]);
        }
    }
    assert forall|r: int|
        0 <= r < s2.rooms.len() implies (#[trigger] s2.rooms[r].members).len() >= 1 by {
        if r < s.rooms.len() {
            assert(s2.rooms[r] == s.rooms[r]);
        } else {
            assert(s2.rooms[r] == newroom);
        }
    }
    assert forall|cc: int|
        0 <= cc < s2.clients.len() implies room_index(
        s2.rooms,
        (#[trigger] s2.clients[cc]).id,
    ) >= 0 && s2.rooms[room_index(s2.rooms, s2.clients[cc].id)].members.contains(
        s2.clients[cc].id,
    ) by {
        if cc < s.clients.len() {
            assert(s2.clients[cc] == s.clients[cc]);
            let own = s.clients[cc].id;
            let oi = room_index(s.rooms, own);
            assert(oi >= 0 && s.rooms[oi].members.contains(own));
            lemma_room_index(s.rooms, own);
            assert(s2.rooms[oi] == s.rooms[oi]);
        } else {
            assert(s2.clients[cc] == so);
            assert(room_index(s2.rooms, so.id) == s.rooms.len());
            assert(s2.rooms[s.rooms.len() as int] == newroom);
        }
    }
}

/// Appending a connection leaves every earlier id at its index; the new id,
/// fresh before, indexes the appended connection.
pub proof fn lemma_client_index_push(cs: Seq<SpecSocket>, c2: SpecSocket, id: Seq<u8>)
    ensures
        client_index(cs, id) >= 0 ==> client_index(cs.push(c2), id) == client_index(cs, id),
        client_index(cs, id) == -1 && c2.id == id ==> client_index(cs.push(c2), id) == cs.len(),
        client_index(cs, id) == -1 && c2.id != id ==> client_index(cs.push(c2), id) == -1,
    decreases cs,
{
    if cs.len() == 0 {
        assert(cs.push(c2)[0] == c2);
        assert(cs.push(c2).drop_first() =~= Seq::<SpecSocket>::empty());
        assert(client_index(Seq::<SpecSocket>::empty(), id) == -1);
        if c2.id == id {
            assert(client_index(cs.push(c2), id) == 0);
        } else {
            assert(client_index(cs.push(c2), id) == -1);
        }
    } else {
        assert(cs.push(c2)[0] == cs[0]);
        if cs[0].id != id {
            assert(cs.push(c2).drop_first() =~= cs.drop_first().push(c2));
            lemma_client_index_push(cs.drop_first(), c2, id);
            lemma_client_index(cs.drop_first(), id);
            lemma_client_index(cs.drop_first().push(c2), id);
        }
    }
}

/// Joining and then leaving a room not joined before leaves the registry as
/// it stood.
pub proof fn lemma_join_leave(s: SpecServer, id: Seq<u8>, room: Seq<u8>)
    requires
        inv(s),
        client_index(s.clients, id) >= 0,
        !s.clients[client_index(s.clients, id)].rooms.contains(room),
    ensures
        spec_leave(spec_join(s, id, room), id, room) == s,
{
    lemma_client_index(s.clients, id);
    let ci = client_index(s.clients, id);
    let c = s.clients[ci];
    let c2 = SpecSocket { rooms: c.rooms.push(room), ..c };
    let cs2 = s.clients.update(ci, c2);
    assert forall|k: int| 0 <= k < cs2.len() implies cs2[k].id == s.clients[k].id by {}
    lemma_room_index(s.rooms, room);
    let ri = room_index(s.rooms, room);
    let s1 = spec_join(s, id, room);
    assert(s1.clients == cs2);
    lemma_client_index_same_ids(s1.clients, s.clients, id);
    assert(client_index(s1.clients, id) == ci);
    lemma_push_contains(c.rooms, room, room);
    assert(s1.clients[ci].rooms.contains(room));
    lemma_remove_first_push_absent(c.rooms, room);
    let c3 = SpecSocket { rooms: remove_first(c2.rooms, room), ..c2 };
    assert(c3 =~= c);
    assert(cs2.update(ci, c3) =~= s.clients);
    if ri < 0 {
        let newroom = SpecRoom { name: room, members: seq![id] };
        assert(s1.rooms == s.rooms.push(newroom));
        lemma_room_index_push(s.rooms, newroom, room);
        assert(room_index(s1.rooms, room) == s.rooms.len());
        assert(room != id) by {
            assert(room_index(s.rooms, s.clients[ci].id) >= 0);
        }
        assert(seq![id][0] == id);
        assert(seq![id].contains(id));
        assert(remove_first(seq![id], id) =~= Seq::<Seq<u8>>::empty()) by {
            assert(remove_first(seq![id], id) == seq![id].drop_first());
        }
        let s2 = spec_leave(s1, id, room);
        assert(s2.rooms == s1.rooms.remove(s.rooms.len() as int));
        assert(s1.rooms.remove(s.rooms.len() as int) =~= s.rooms);
        assert(s2.clients =~= s.clients);
        assert(s2 =~= s);
    } else {
        let rm = s.rooms[ri];
        if rm.members.contains(id) {
            assert(s1.rooms == s.rooms);
            let s2 = spec_leave(s1, id, room);
            assert(room_index(s1.rooms, room) == ri);
            if room == id {
                assert(s2.rooms == s.rooms.update(ri, SpecRoom { members: rm.members, ..rm }))
                    by {
                    assert(rm.members.len() >= 1);
                }
                assert(s.rooms.update(ri, SpecRoom { members: rm.members, ..rm }) =~= s.rooms)
                    by {
                    assert((SpecRoom { members: rm.members, ..rm }) =~= rm);
                }
                assert(s2.clients =~= s.clients);
                assert(s2 =~= s);
            } else {
                // a member that did not join can only be the room's owner
                assert(room == id) by {
                    let w = choose|w: int| 0 <= w < rm.members.len() && rm.members[w] == id;
                    assert(client_index(s.clients, rm.members[w]) >= 0 && (rm.name
                        == rm.members[w] || s.clients[client_index(
                        s.clients,
                        rm.members[w],
                    )].rooms.contains(rm.name)));
                    assert(client_index(s.clients, id) == ci);
                    assert(rm.name == room);
                }
                assert(false);
            }
        } else {
            let rm2 = SpecRoom { members: rm.members.push(id), ..rm };
            let rs2 = s.rooms.update(ri, rm2);
            assert(s1.rooms == rs2);
            lemma_room_index_same_names(s.rooms, rs2, room);
            assert(room_index(s1.rooms, room) == ri);
            assert(room != id) by {
                if room == id {
                    assert(room_index(s.rooms, s.clients[ci].id) >= 0 && s.rooms[room_index(
                        s.rooms,
                        s.clients[ci].id,
                    )].members.contains(s.clients[ci].id));
                    assert(room_index(s.rooms, id) == ri);
                    assert(rm.members.contains(id));
                }
            }
            lemma_remove_first_push_absent(rm.members, id);
            assert(remove_first(rm2.members, id) == rm.members);
            let s2 = spec_leave(s1, id, room);
            assert(rm.members.len() >= 1);
            assert(s2.rooms == rs2.update(ri, SpecRoom { members: rm.members, ..rm2 }));
            assert(rs2.update(ri, SpecRoom { members: rm.members, ..rm2 }) =~= s.rooms) by {
                assert((SpecRoom { members: rm.members, ..rm2 }) =~= rm);
            }
            assert(s2.clients =~= s.clients);
            assert(s2 =~= s);
        }
    }
}

/// The rooms after `id` stops being a member anywhere: rooms left empty are
/// dropped, the rest keep their order.
pub open spec fn strip_member(rs: Seq<SpecRoom>, id: Seq<u8>) -> Seq<SpecRoom>
    decreases rs,
{
    if rs.len() == 0 {
        rs
    } else {
        let head = SpecRoom { name: rs[0].name, members: remove_first(rs[0].members, id) };
        let tail = strip_member(rs.drop_first(), id);
        if head.members.len() == 0 {
            tail
        } else {
            seq![head] + tail
        }
    }
}

/// Stripping distributes over concatenation.
pub proof fn lemma_strip_app(a: Seq<SpecRoom>, b: Seq<SpecRoom>, id: Seq<u8>)
    ensures
        strip_member(a + b, id) == strip_member(a, id) + strip_member(b, id),
    decreases a,
{
    if a.len() == 0 {
        assert(a + b =~= b);
        assert(strip_member(a, id) + strip_member(b, id) =~= strip_member(b, id));
    } else {
        assert((a + b)[0] == a[0]);
        assert((a + b).drop_first() =~= a.drop_first() + b);
        lemma_strip_app(a.drop_first(), b, id);
        assert(strip_member(a + b, id) =~= strip_member(a, id) + strip_member(b, id));
    }
}

/// What stripping leaves: every kept room is an original room, named as
/// before, without `id`, keeping everyone else; every original room that
/// keeps a member is kept; names stay unique and first indexes agree.
pub proof fn lemma_strip_member(rs: Seq<SpecRoom>, id: Seq<u8>)
    requires
        forall|i: int, j: int|
            0 <= i < rs.len() && 0 <= j < rs.len() && i != j ==> rs[i].name != rs[j].name,
        forall|r: int, i: int, j: int|
            0 <= r < rs.len() && 0 <= i < rs[r].members.len() && 0 <= j < rs[r].members.len() && i
                != j ==> rs[r].members[i] != rs[r].members[j],
    ensures
        forall|k: int|
            0 <= k < strip_member(rs, id).len() ==> {
                let oi = room_index(rs, (#[trigger] strip_member(rs, id)[k]).name);
                &&& oi >= 0
                &&& strip_member(rs, id)[k].members == remove_first(rs[oi].members, id)
                &&& strip_member(rs, id)[k].members.len() >= 1
                &&& !strip_member(rs, id)[k].members.contains(id)
            },
        forall|i: int, j: int|
            0 <= i < strip_member(rs, id).len() && 0 <= j < strip_member(rs, id).len() && i != j
                ==> strip_member(rs, id)[i].name != strip_member(rs, id)[j].name,
        forall|name: Seq<u8>|
            room_index(rs, name) >= 0 && remove_first(
                rs[room_index(rs, name)].members,
                id,
            ).len() >= 1 ==> #[trigger] room_index(strip_member(rs, id), name) >= 0,
        forall|name: Seq<u8>|
            room_index(rs, name) == -1 ==> #[trigger] room_index(strip_member(rs, id), name)
                == -1,
    decreases rs,
{
    let st = strip_member(rs, id);
    if rs.len() > 0 {
        let rt = rs.drop_first();
        assert forall|i: int, j: int|
            0 <= i < rt.len() && 0 <= j < rt.len() && i != j implies rt[i].name != rt[j].name by {
            assert(rt[i] == rs[i + 1] && rt[j] == rs[j + 1]);
        }
        assert forall|r: int, i: int, j: int|
            0 <= r < rt.len() && 0 <= i < rt[r].members.len() && 0 <= j < rt[r].members.len() && i
                != j implies rt[r].members[i] != rt[r].members[j] by {
            assert(rt[r] == rs[r + 1]);
        }
        lemma_strip_member(rt, id);
        let head = SpecRoom { name: rs[0].name, members: remove_first(rs[0].members, id) };
        let tail = strip_member(rt, id);
        if rs[0].members.contains(id) {
            lemma_remove_first_unique(rs[0].members, id);
        } else {
            lemma_remove_first_absent(rs[0].members, id);
        }
        // the head's name is in none of the tail's rooms
        assert forall|k: int| 0 <= k < tail.len() implies (#[trigger] tail[k]).name
            != rs[0].name by {
            let oi = room_index(rt, tail[k].name);
            assert(oi >= 0);
            lemma_room_index(rt, tail[k].name);
            assert(rt[oi].name == tail[k].name);
            assert(rt[oi] == rs[oi + 1]);
        }
        assert forall|k: int|
            0 <= k < st.len() implies {
            let oi = room_index(rs, (#[trigger] st[k]).name);
            &&& oi >= 0
            &&& st[k].members == remove_first(rs[oi].members, id)
            &&& st[k].members.len() >= 1
            &&& !st[k].members.contains(id)
        } by {
            if head.members.len() == 0 {
                assert(st == tail);
                let oi = room_index(rt, tail[k].name);
                lemma_room_index(rt, tail[k].name);
                lemma_first_room_at(rs, tail[k].name, oi + 1);
                assert(rs[oi + 1] == rt[oi]);
            } else {
                assert(st == seq![head] + tail);
                if k == 0 {
                    assert(st[0] == head);
                    lemma_first_room_at(rs, rs[0].name, 0);
                } else {
                    assert(st[k] == tail[k - 1]);
                    let oi = room_index(rt, tail[k - 1].name);
                    lemma_room_index(rt, tail[k - 1].name);
                    lemma_first_room_at(rs, tail[k - 1].name, oi + 1);
                    assert(rs[oi + 1] == rt[oi]);
                }
            }
        }
        assert forall|i: int, j: int|
            0 <= i < st.len() && 0 <= j < st.len() && i != j implies st[i].name != st[j].name by {
            if head.members.len() == 0 {
                assert(st[i] == tail[i] && st[j] == tail[j]);
            } else {
                if i == 0 {
                    assert(st[j] == tail[j - 1]);
                } else if j == 0 {
                    assert(st[i] == tail[i - 1]);
                } else {
                    assert(st[i] == tail[i - 1] && st[j] == tail[j - 1]);
                }
            }
        }
        assert forall|name: Seq<u8>|
            room_index(rs, name) >= 0 && remove_first(rs[room_index(rs, name)].members, id).len()
                >= 1 implies #[trigger] room_index(st, name) >= 0 by {
            lemma_room_index(rs, name);
            let oi = room_index(rs, name);
            if oi == 0 {
                assert(head.members.len() >= 1);
                assert(st == seq![head] + tail);
                assert(st[0].name == name);
                lemma_first_room_at(st, name, 0);
            } else {
                assert(rs[oi] == rt[oi - 1]);
                assert(room_index(rt, name) >= 0) by {
                    lemma_room_index(rt, name);
                    if room_index(rt, name) == -1 {
                        assert(rt[oi - 1].name != name);
                    }
                }
                lemma_room_index(rt, name);
                assert(rt[room_index(rt, name)].name == name);
                assert(room_index(rt, name) == oi - 1) by {
                    if room_index(rt, name) != oi - 1 {
                        assert(rt[room_index(rt, name)] == rs[room_index(rt, name) + 1]);
                        assert(rs[room_index(rt, name) + 1].name == rs[oi].name);
                    }
                }
                assert(room_index(tail, name) >= 0);
                lemma_room_index(tail, name);
                let ti = room_index(tail, name);
                if head.members.len() == 0 {
                    assert(st[ti].name == name);
                    lemma_room_index(st, name);
                    if room_index(st, name) == -1 {
                        assert(st[ti].name != name);
                    }
                } else {
                    assert(st[ti + 1] == tail[ti]);
                    lemma_room_index(st, name);
                    if room_index(st, name) == -1 {
                        assert(st[ti + 1].name != name);
                    }
                }
            }
        }
        assert forall|name: Seq<u8>|
            room_index(rs, name) == -1 implies #[trigger] room_index(st, name) == -1 by {
            lemma_room_index(rs, name);
            lemma_room_index(st, name);
            if room_index(st, name) >= 0 {
                let k = room_index(st, name);
                assert(st[k].name == name);
                let oi = room_index(rs, st[k].name);
                assert(oi >= 0);
            }
        }
    }
}

/// Unregistering drops the connection and its membership everywhere; rooms
/// left empty go with it.
pub open spec fn spec_unregister(s: SpecServer, id: Seq<u8>) -> SpecServer {
    let ci = client_index(s.clients, id);
    if ci < 0 {
        s
    } else {
        SpecServer { clients: s.clients.remove(ci), rooms: strip_member(s.rooms, id) }
    }
}

/// As `lemma_room_index_remove`, for connections.
pub proof fn lemma_client_index_remove(cs: Seq<SpecSocket>, ci: int, id: Seq<u8>)
    requires
        0 <= ci < cs.len(),
        forall|i: int, j: int|
            0 <= i < cs.len() && 0 <= j < cs.len() && i != j ==> cs[i].id != cs[j].id,
        id != cs[ci].id,
    ensures
        client_index(cs, id) == -1 ==> client_index(cs.remove(ci), id) == -1,
        client_index(cs, id) >= 0 && client_index(cs, id) < ci ==> client_index(
            cs.remove(ci),
            id,
        ) == client_index(cs, id),
        client_index(cs, id) > ci ==> client_index(cs.remove(ci), id) == client_index(cs, id) - 1,
{
    lemma_client_index(cs, id);
    lemma_client_index(cs.remove(ci), id);
    let oi = client_index(cs, id);
    assert(cs.remove(ci) =~= cs.subrange(0, ci) + cs.subrange(ci + 1, cs.len() as int));
    if oi == -1 {
        if client_index(cs.remove(ci), id) >= 0 {
            let k = client_index(cs.remove(ci), id);
            if k < ci {
                assert(cs.remove(ci)[k] == cs[k]);
            } else {
                assert(cs.remove(ci)[k] == cs[k + 1]);
            }
        }
    } else if oi < ci {
        assert(cs.remove(ci)[oi] == cs[oi]);
        assert forall|k: int| 0 <= k < oi implies cs.remove(ci)[k].id != id by {
            assert(cs.remove(ci)[k] == cs[k]);
        }
        lemma_first_client_at(cs.remove(ci), id, oi);
    } else {
        assert(oi != ci);
        assert(cs.remove(ci)[oi - 1] == cs[oi]);
        assert forall|k: int| 0 <= k < oi - 1 implies cs.remove(ci)[k].id != id by {
            if k < ci {
                assert(cs.remove(ci)[k] == cs[k]);
            } else {
                assert(cs.remove(ci)[k] == cs[k + 1]);
            }
        }
        lemma_first_client_at(cs.remove(ci), id, oi - 1);
    }
}

/// An id found at `i` and nowhere earlier indexes `i`.
pub proof fn lemma_first_client_at(cs: Seq<SpecSocket>, id: Seq<u8>, i: int)
    requires
        0 <= i < cs.len(),
        cs[i].id == id,
        forall|k: int| 0 <= k < i ==> cs[k].id != id,
    ensures
        client_index(cs, id) == i,
    decreases i,
{
    if i > 0 {
        assert(cs[0].id != id);
        assert(cs.drop_first()[i - 1].id == id);
        assert forall|k: int| 0 <= k < i - 1 implies cs.drop_first()[k].id != id by {
            assert(cs[k + 1].id != id);
        }
        lemma_first_client_at(cs.drop_first(), id, i - 1);
    }
}

/// Unregistering keeps the registry's consistency rules.
pub proof fn lemma_unregister_inv(s: SpecServer, id: Seq<u8>)
    requires
        inv(s),
    ensures
        inv(spec_unregister(s, id)),
{
    lemma_client_index(s.clients, id);
    let ci = client_index(s.clients, id);
    if ci >= 0 {
        let s2 = spec_unregister(s, id);
        let cs2 = s.clients.remove(ci);
        assert(s2.clients == cs2);
        assert(s2.rooms == strip_member(s.rooms, id));
        lemma_strip_member(s.rooms, id);
        assert(cs2 =~= s.clients.subrange(0, ci) + s.clients.subrange(
            ci + 1,
            s.clients.len() as int,
        ));
        assert forall|k: int| 0 <= k < cs2.len() implies cs2[k] == (if k < ci {
            s.clients[k]
        } else {
            s.clients[k + 1]
        }) && cs2[k].id != id by {
            if k >= ci {
                assert(cs2[k] == s.clients[k + 1]);
            }
        }
        // joined rooms survive with the joiner still inside
        assert forall|cc: int, k: int|
            0 <= cc < s2.clients.len() && 0 <= k < s2.clients[cc].rooms.len() implies room_index(
            s2.rooms,
            #[trigger] s2.clients[cc].rooms[k],
        ) >= 0 && s2.rooms[room_index(s2.rooms, s2.clients[cc].rooms[k])].members.contains(
            s2.clients[cc].id,
        ) by {
            let cc0 = if cc < ci {
                cc
            } else {
                cc + 1
            };
            assert(s2.clients[cc] == s.clients[cc0]);
            let own = s.clients[cc0].id;
            assert(own != id);
            let x = s.clients[cc0].rooms[k];
            let xr = room_index(s.rooms, x);
            assert(xr >= 0 && s.rooms[xr].members.contains(own));
            lemma_room_index(s.rooms, x);
            let m2 = remove_first(s.rooms[xr].members, id);
            assert(m2.contains(own)) by {
                if s.rooms[xr].members.contains(id) {
                    lemma_remove_first_unique(s.rooms[xr].members, id);
                } else {
                    lemma_remove_first_absent(s.rooms[xr].members, id);
                }
            }
            assert(m2.len() >= 1);
            assert(room_index(s2.rooms, x) >= 0);
            let si = room_index(s2.rooms, x);
            lemma_room_index(s2.rooms, x);
            assert(room_index(s.rooms, s2.rooms[si].name) == xr);
            assert(s2.rooms[si].members == m2);
        }
        // members are live, joined or self-addressed
        assert forall|r: int, m: int|
            0 <= r < s2.rooms.len() && 0 <= m < s2.rooms[r].members.len() implies client_index(
            s2.clients,
            #[trigger] s2.rooms[r].members[m],
        ) >= 0 && (s2.rooms[r].name == s2.rooms[r].members[m] || s2.clients[client_index(
            s2.clients,
            s2.rooms[r].members[m],
        )].rooms.contains(s2.rooms[r].name)) by {
            let mid = s2.rooms[r].members[m];
            let oi = room_index(s.rooms, s2.rooms[r].name);
            assert(oi >= 0);
            lemma_room_index(s.rooms, s2.rooms[r].name);
            assert(s2.rooms[r].members == remove_first(s.rooms[oi].members, id));
            assert(!s2.rooms[r].members.contains(id));
            assert(mid != id) by {
                if mid == id {
                    assert(s2.rooms[r].members.contains(id));
                }
            }
            assert(s.rooms[oi].members.contains(mid)) by {
                if s.rooms[oi].members.contains(id) {
                    lemma_remove_first_unique(s.rooms[oi].members, id);
                } else {
                    lemma_remove_first_absent(s.rooms[oi].members, id);
                }
            }
            let mk = choose|mk: int|
                0 <= mk < s.rooms[oi].members.len() && s.rooms[oi].members[mk] == mid;
            assert(client_index(s.clients, s.rooms[oi].members[mk]) >= 0 && (s.rooms[oi].name
                == s.rooms[oi].members[mk] || s.clients[client_index(
                s.clients,
                s.rooms[oi].members[mk],
            )].rooms.contains(s.rooms[oi].name)));
            let mci = client_index(s.clients, mid);
            lemma_client_index(s.clients, mid);
            assert(mci != ci) by {
                if mci == ci {
                    assert(s.clients[ci].id == id);
                }
            }
            lemma_client_index_remove(s.clients, ci, mid);
            if mci < ci {
                assert(cs2[mci] == s.clients[mci]);
            } else {
                assert(cs2[mci - 1] == s.clients[mci]);
            }
            assert(s2.rooms[r].name == s.rooms[oi].name);
        }
        // self-addressed rooms survive
        assert forall|cc: int|
            0 <= cc < s2.clients.len() implies room_index(
            s2.rooms,
            (#[trigger] s2.clients[cc]).id,
        ) >= 0 && s2.rooms[room_index(s2.rooms, s2.clients[cc].id)].members.contains(
            s2.clients[cc].id,
        ) by {
            let cc0 = if cc < ci {
                cc
            } else {
                cc + 1
            };
            assert(s2.clients[cc] == s.clients[cc0]);
            let own = s.clients[cc0].id;
            assert(own != id);
            let oi = room_index(s.rooms, own);
            assert(oi >= 0 && s.rooms[oi].members.contains(own));
            lemma_room_index(s.rooms, own);
            let m2 = remove_first(s.rooms[oi].members, id);
            assert(m2.contains(own)) by {
                if s.rooms[oi].members.contains(id) {
                    lemma_remove_first_unique(s.rooms[oi].members, id);
                } else {
                    lemma_remove_first_absent(s.rooms[oi].members, id);
                }
            }
            assert(m2.len() >= 1);
            assert(room_index(s2.rooms, own) >= 0);
            let si = room_index(s2.rooms, own);
            lemma_room_index(s2.rooms, own);
            assert(room_index(s.rooms, s2.rooms[si].name) == oi);
            assert(s2.rooms[si].members == m2);
        }
        // member lists stay unrepeated
        assert forall|r: int, i: int, j: int|
            0 <= r < s2.rooms.len() && 0 <= i < s2.rooms[r].members.len() && 0 <= j
                < s2.rooms[r].members.len() && i != j implies s2.rooms[r].members[i]
            != s2.rooms[r].members[j] by {
            let oi = room_index(s.rooms, s2.rooms[r].name);
            assert(oi >= 0);
            lemma_room_index(s.rooms, s2.rooms[r].name);
            assert(s2.rooms[r].members == remove_first(s.rooms[oi].members, id));
            if s.rooms[oi].members.contains(id) {
                lemma_remove_first_unique(s.rooms[oi].members, id);
            } else {
                lemma_remove_first_absent(s.rooms[oi].members, id);
            }
        }
    }
}

/// A copy of a sequence of handler values.
pub fn copy_data(params: &Vec<Data>) -> (r: Vec<Data>)
    ensures
        view_data_seq(r@) == view_data_seq(params@),
{
    let mut out: Vec<Data> = Vec::new();
    let mut k: usize = 0;
    while k < params.len()
        invariant
            k <= params@.len(),
            out@.len() == k,
            forall|i: int| 0 <= i < k ==> out@[i]@ == params@[i]@,
        decreases params@.len() - k,
    {
        out.push(params[k].duplicate());
        k = k + 1;
    }
    proof {
        crate::attach::lemma_view_data_seq(out@);
        crate::attach::lemma_view_data_seq(params@);
        assert(view_data_seq(out@) =~= view_data_seq(params@));
    }
    out
}

impl Server {
    /// An empty registry.
    pub fn new() -> (r: Server)
        ensures
            r@ == (SpecServer {
                clients: Seq::<SpecSocket>::empty(),
                rooms: Seq::<SpecRoom>::empty(),
            }),
            inv(r@),
    {
        let r = Server { clients: Vec::new(), rooms: Vec::new() };
        proof {
            assert(view_clients(r.clients@) =~= Seq::<SpecSocket>::empty());
            assert(view_rooms(r.rooms@) =~= Seq::<SpecRoom>::empty());
        }
        r
    }

    /// Finds the connection named `id`.
    #[verifier::loop_isolation(false)]
    pub fn find_client(&self, id: &Vec<u8>) -> (r: Option<usize>)
        ensures
            r matches Some(i) ==> i < self@.clients.len() && client_index(self@.clients, id@)
                == i as int,
            r is None ==> client_index(self@.clients, id@) == -1,
    {
        proof {
            lemma_view_clients(self.clients@);
        }
        let mut k: usize = 0;
        while k < self.clients.len()
            invariant
                k <= self@.clients.len(),
                forall|i: int| 0 <= i < k ==> self@.clients[i].id != id@,
            decreases self@.clients.len() - k,
        {
            if crate::attach::bytes_eq(&self.clients[k].id, id) {
                proof {
                    assert(self@.clients[k as int].id == id@);
                    lemma_first_client_at(self@.clients, id@, k as int);
                }
                return Some(k);
            }
            k = k + 1;
        }
        proof {
            lemma_client_index(self@.clients, id@);
            if client_index(self@.clients, id@) >= 0 {
                assert(self@.clients[client_index(self@.clients, id@)].id == id@);
            }
        }
        None
    }

    /// Finds the room named `name`.
    #[verifier::loop_isolation(false)]
    pub fn find_room(&self, name: &Vec<u8>) -> (r: Option<usize>)
        ensures
            r matches Some(i) ==> i < self@.rooms.len() && room_index(self@.rooms, name@)
                == i as int,
            r is None ==> room_index(self@.rooms, name@) == -1,
    {
        proof {
            lemma_view_rooms(self.rooms@);
        }
        let mut k: usize = 0;
        while k < self.rooms.len()
            invariant
                k <= self@.rooms.len(),
                forall|i: int| 0 <= i < k ==> self@.rooms[i].name != name@,
            decreases self@.rooms.len() - k,
        {
            if crate::attach::bytes_eq(&self.rooms[k].name, name) {
                proof {
                    assert(self@.rooms[k as int].name == name@);
                    lemma_first_room_at(self@.rooms, name@, k as int);
                }
                return Some(k);
            }
            k = k + 1;
        }
        proof {
            lemma_room_index(self@.rooms, name@);
            if room_index(self@.rooms, name@) >= 0 {
                assert(self@.rooms[room_index(self@.rooms, name@)].name == name@);
            }
        }
        None
    }

    /// Takes a fresh connection in: it is appended to the clients and put
    /// alone into its self-addressed room.
    pub fn register(&mut self, so: Socket)
        requires
            inv(old(self)@),
            client_index(old(self)@.clients, so@.id) == -1,
            room_index(old(self)@.rooms, so@.id) == -1,
            so@.rooms.len() == 0,
        ensures
            final(self)@ == spec_register(old(self)@, so@),
            inv(final(self)@),
    {
        proof {
            lemma_register_inv(old(self)@, so@);
        }
        let sid = so.id();
        let ghost so_v = so@;
        let ghost cs0 = self.clients@;
        let ghost rs0 = self.rooms@;
        let mut members: Vec<Vec<u8>> = Vec::new();
        members.push(sid);
        let name = so.id();
        self.clients.push(so);
        self.rooms.push(Room { name, members });
        proof {
            lemma_view_clients(self.clients@);
            lemma_view_clients(cs0);
            assert(view_clients(self.clients@) =~= view_clients(cs0).push(so_v)) by {
                assert forall|i: int|
                    0 <= i < self.clients@.len() implies view_clients(self.clients@)[i]
                    == view_clients(cs0).push(so_v)[i] by {
                    if i < cs0.len() {
                        assert(self.clients@[i] == cs0[i]);
                    }
                }
            }
            lemma_view_rooms(self.rooms@);
            lemma_view_rooms(rs0);
            assert(blobs(self.rooms@.last().members@) =~= seq![so_v.id]);
            assert(view_rooms(self.rooms@) =~= view_rooms(rs0).push(
                SpecRoom { name: so_v.id, members: seq![so_v.id] },
            )) by {
                assert forall|i: int|
                    0 <= i < self.rooms@.len() implies view_rooms(self.rooms@)[i] == view_rooms(
                    rs0,
                ).push(SpecRoom { name: so_v.id, members: seq![so_v.id] })[i] by {
                    if i < rs0.len() {
                        assert(self.rooms@[i] == rs0[i]);
                    }
                }
            }
            assert(self@ =~= spec_register(old(self)@, so_v));
        }
    }

    /// Adds the connection named `id` to `room` on both sides of the record.
    pub fn join(&mut self, id: &Vec<u8>, room: Vec<u8>)
        requires
            inv(old(self)@),
        ensures
            final(self)@ == spec_join(old(self)@, id@, room@),
            inv(final(self)@),
    {
        proof {
            lemma_join_inv(old(self)@, id@, room@);
        }
        let ci = match self.find_client(id) {
            Some(ci) => ci,
            None => {
                return ;
            },
        };
        proof {
            lemma_view_clients(self.clients@);
        }
        if contains_bytes(&self.clients[ci].rooms_joined, &room) {
            proof {
                assert(self@.clients[ci as int].rooms.contains(room@));
            }
            return ;
        }
        proof {
            assert(!self@.clients[ci as int].rooms.contains(room@));
        }
        let ghost s0 = self@;
        let mut c = self.clients.remove(ci);
        let ghost c_v = c@;
        c.rooms_joined.push(copy_bytes(&room));
        proof {
            assert(blobs(c.rooms_joined@) =~= c_v.rooms.push(room@));
            assert(c@ =~= (SpecSocket { rooms: c_v.rooms.push(room@), ..c_v }));
        }
        let ghost c2_v = c@;
        self.clients.insert(ci, c);
        proof {
            assert(view_clients(self.clients@) =~= s0.clients.update(ci as int, c2_v)) by {
                lemma_view_clients(self.clients@);
                assert forall|i: int|
                    0 <= i < self.clients@.len() implies view_clients(self.clients@)[i]
                    == s0.clients.update(ci as int, c2_v)[i] by {
                    if i < ci {
                        assert(self.clients@[i] == old(self).clients@[i]);
                    } else if i > ci {
                        assert(self.clients@[i] == old(self).clients@[i]);
                    }
                }
            }
        }
        let ghost rooms_raw = self.rooms@;
        let ghost rs0 = view_rooms(self.rooms@);
        match self.find_room(&room) {
            None => {
                let mut members: Vec<Vec<u8>> = Vec::new();
                members.push(copy_bytes(id));
                self.rooms.push(Room { name: room, members });
                proof {
                    lemma_view_rooms(self.rooms@);
                    assert(blobs(self.rooms@.last().members@) =~= seq![id@]);
                    assert(view_rooms(self.rooms@) =~= rs0.push(
                        SpecRoom { name: room@, members: seq![id@] },
                    )) by {
                        lemma_view_rooms(rooms_raw);
                        assert(self.rooms@ == rooms_raw.push(self.rooms@.last()));
                        assert forall|i: int|
                            0 <= i < self.rooms@.len() implies view_rooms(self.rooms@)[i]
                            == rs0.push(SpecRoom { name: room@, members: seq![id@] })[i] by {
                            if i < rs0.len() {
                                assert(self.rooms@[i] == rooms_raw[i]);
                            }
                        }
                    }
                    assert(self@ =~= spec_join(s0, id@, room@));
                }
            },
            Some(ri) => {
                proof {
                    lemma_view_rooms(self.rooms@);
                }
                if !contains_bytes(&self.rooms[ri].members, id) {
                    let mut rm = self.rooms.remove(ri);
                    let ghost rm_v = rm@;
                    rm.members.push(copy_bytes(id));
                    proof {
                        assert(blobs(rm.members@) =~= rm_v.members.push(id@));
                        assert(rm@ =~= (SpecRoom { members: rm_v.members.push(id@), ..rm_v }));
                    }
                    let ghost rm2_v = rm@;
                    self.rooms.insert(ri, rm);
                    proof {
                        lemma_view_rooms(self.rooms@);
                        assert(view_rooms(self.rooms@) =~= rs0.update(ri as int, rm2_v)) by {
                            lemma_view_rooms(rooms_raw);
                            assert(self.rooms@ =~= rooms_raw.update(ri as int, self.rooms@[ri as int]));
                            assert forall|i: int|
                                0 <= i < self.rooms@.len() implies view_rooms(self.rooms@)[i]
                                == rs0.update(ri as int, rm2_v)[i] by {
                                if i != ri {
                                    assert(self.rooms@[i] == rooms_raw[i]);
                                }
                            }
                        }
                        assert(self@ =~= spec_join(s0, id@, room@));
                    }
                } else {
                    proof {
                        assert(self@.rooms == rs0);
                        assert(self@ =~= spec_join(s0, id@, room@));
                    }
                }
            },
        }
    }
}

/// Removes the first byte vector holding the same bytes as `x`.
#[verifier::loop_isolation(false)]
pub fn remove_bytes(v: &mut Vec<Vec<u8>>, x: &Vec<u8>)
    ensures
        blobs(final(v)@) == remove_first(blobs(old(v)@), x@),
{
    let mut k: usize = 0;
    while k < v.len()
        invariant
            k <= v@.len(),
            v@ == old(v)@,
            forall|i: int| 0 <= i < k ==> blobs(v@)[i] != x@,
        decreases v@.len() - k,
    {
        if crate::attach::bytes_eq(&v[k], x) {
            v.remove(k);
            proof {
                assert(blobs(old(v)@)[k as int] == x@);
                lemma_remove_first_at(blobs(old(v)@), x@, k as int);
                assert(blobs(v@) =~= blobs(old(v)@).subrange(0, k as int) + blobs(
                    old(v)@,
                ).subrange(k as int + 1, old(v)@.len() as int));
            }
            return ;
        }
        k = k + 1;
    }
    proof {
        if blobs(v@).contains(x@) {
            let i = choose|i: int| 0 <= i < blobs(v@).len() && blobs(v@)[i] == x@;
            assert(false);
        }
        lemma_remove_first_absent(blobs(v@), x@);
    }
}

impl Server {
    /// Takes the connection named `id` out of `room` on both sides of the
    /// record.
    pub fn leave(&mut self, id: &Vec<u8>, room: &Vec<u8>)
        requires
            inv(old(self)@),
        ensures
            final(self)@ == spec_leave(old(self)@, id@, room@),
            inv(final(self)@),
    {
        proof {
            lemma_leave_inv(old(self)@, id@, room@);
        }
        let ci = match self.find_client(id) {
            Some(ci) => ci,
            None => {
                return ;
            },
        };
        proof {
            lemma_view_clients(self.clients@);
        }
        if !contains_bytes(&self.clients[ci].rooms_joined, room) {
            proof {
                assert(!self@.clients[ci as int].rooms.contains(room@));
            }
            return ;
        }
        proof {
            assert(self@.clients[ci as int].rooms.contains(room@));
        }
        let ghost s0 = self@;
        let ghost clients_raw = self.clients@;
        let mut c = self.clients.remove(ci);
        let ghost c_v = c@;
        remove_bytes(&mut c.rooms_joined, room);
        proof {
            assert(c@ =~= (SpecSocket { rooms: remove_first(c_v.rooms, room@), ..c_v }));
        }
        let ghost c2_v = c@;
        self.clients.insert(ci, c);
        proof {
            lemma_view_clients(self.clients@);
            lemma_view_clients(clients_raw);
            assert(view_clients(self.clients@) =~= s0.clients.update(ci as int, c2_v)) by {
                assert forall|i: int|
                    0 <= i < self.clients@.len() implies view_clients(self.clients@)[i]
                    == s0.clients.update(ci as int, c2_v)[i] by {
                    if i != ci {
                        assert(self.clients@[i] == clients_raw[i]);
                    }
                }
            }
        }
        let ghost rooms_raw = self.rooms@;
        let ghost rs0 = view_rooms(self.rooms@);
        let ri = match self.find_room(room) {
            Some(ri) => ri,
            None => {
                proof {
                    assert(self@ =~= spec_leave(s0, id@, room@));
                }
                return ;
            },
        };
        proof {
            lemma_view_rooms(self.rooms@);
        }
        let mut rm = self.rooms.remove(ri);
        let ghost rm_v = rm@;
        if !crate::attach::bytes_eq(room, id) {
            remove_bytes(&mut rm.members, id);
            proof {
                assert(rm@ =~= (SpecRoom { members: remove_first(rm_v.members, id@), ..rm_v }));
            }
        }
        if rm.members.len() == 0 {
            proof {
                lemma_view_rooms(self.rooms@);
                lemma_view_rooms(rooms_raw);
                assert(view_rooms(self.rooms@) =~= rs0.remove(ri as int)) by {
                    assert forall|i: int|
                        0 <= i < self.rooms@.len() implies view_rooms(self.rooms@)[i] == rs0.remove(
                        ri as int,
                    )[i] by {
                        if i < ri {
                            assert(self.rooms@[i] == rooms_raw[i]);
                        } else {
                            assert(self.rooms@[i] == rooms_raw[i + 1]);
                        }
                    }
                }
                assert(self@ =~= spec_leave(s0, id@, room@));
            }
        } else {
            let ghost rm2_v = rm@;
            self.rooms.insert(ri, rm);
            proof {
                lemma_view_rooms(self.rooms@);
                lemma_view_rooms(rooms_raw);
                assert(view_rooms(self.rooms@) =~= rs0.update(ri as int, rm2_v)) by {
                    assert forall|i: int|
                        0 <= i < self.rooms@.len() implies view_rooms(self.rooms@)[i] == rs0.update(
                        ri as int,
                        rm2_v,
                    )[i] by {
                        if i != ri {
                            assert(self.rooms@[i] == rooms_raw[i]);
                        }
                    }
                }
                assert(self@ =~= spec_leave(s0, id@, room@));
            }
        }
    }

    /// Takes the connection named `id` out of the registry altogether: out
    /// of the clients and out of every room, rooms left empty going with it.
    pub fn unregister(&mut self, id: &Vec<u8>)
        requires
            inv(old(self)@),
        ensures
            final(self)@ == spec_unregister(old(self)@, id@),
            inv(final(self)@),
    {
        proof {
            lemma_unregister_inv(old(self)@, id@);
        }
        let ci = match self.find_client(id) {
            Some(ci) => ci,
            None => {
                return ;
            },
        };
        let ghost s0 = self@;
        let ghost clients_raw = self.clients@;
        proof {
            lemma_view_clients(self.clients@);
        }
        self.clients.remove(ci);
        proof {
            lemma_view_clients(self.clients@);
            lemma_view_clients(clients_raw);
            assert(view_clients(self.clients@) =~= s0.clients.remove(ci as int)) by {
                assert forall|i: int|
                    0 <= i < self.clients@.len() implies view_clients(self.clients@)[i]
                    == s0.clients.remove(ci as int)[i] by {
                    if i < ci {
                        assert(self.clients@[i] == clients_raw[i]);
                    } else {
                        assert(self.clients@[i] == clients_raw[i + 1]);
                    }
                }
            }
        }
        let ghost rooms_raw = self.rooms@;
        let ghost rs0 = view_rooms(self.rooms@);
        let mut kept: Vec<Room> = Vec::new();
        let mut rem: Vec<Room> = Vec::new();
        core::mem::swap(&mut rem, &mut self.rooms);
        proof {
            assert(rem@ == rooms_raw);
            assert(view_rooms(kept@) =~= strip_member(rs0.take(0), id@)) by {
                assert(rs0.take(0) =~= Seq::<SpecRoom>::empty());
            }
        }
        let ghost total = rem@.len() as int;
        while rem.len() > 0
            invariant
                rem@.len() <= total,
                rem@ =~= rooms_raw.skip(total - rem@.len()),
                total == rooms_raw.len(),
                rs0 == view_rooms(rooms_raw),
                view_rooms(kept@) == strip_member(rs0.take(total - rem@.len()), id@),
            decreases rem@.len(),
        {
            let ghost done = total - rem@.len();
            let mut rm = rem.remove(0);
            proof {
                assert(rm == rooms_raw[done]);
                assert(rem@ =~= rooms_raw.skip(total - rem@.len()));
            }
            let ghost rm_v = rm@;
            remove_bytes(&mut rm.members, id);
            proof {
                assert(rm@ =~= (SpecRoom { members: remove_first(rm_v.members, id@), ..rm_v }));
            }
            let ghost kept0 = view_rooms(kept@);
            if rm.members.len() > 0 {
                let ghost rm2_v = rm@;
                let ghost kept_raw = kept@;
                kept.push(rm);
                proof {
                    lemma_view_rooms(kept@);
                    lemma_view_rooms(kept_raw);
                    assert(view_rooms(kept@) =~= kept0.push(rm2_v)) by {
                        assert forall|i: int|
                            0 <= i < kept@.len() implies view_rooms(kept@)[i] == kept0.push(
                            rm2_v,
                        )[i] by {
                            if i < kept_raw.len() {
                                assert(kept@[i] == kept_raw[i]);
                            }
                        }
                    }
                }
            }
            proof {
                lemma_view_rooms(rooms_raw);
                assert(rs0.take(done + 1) =~= rs0.take(done) + seq![rs0[done]]);
                lemma_strip_app(rs0.take(done), seq![rs0[done]], id@);
                assert(rs0[done] == rm_v);
                assert(seq![rm_v][0] == rm_v);
                assert(seq![rm_v].drop_first() =~= Seq::<SpecRoom>::empty());
                assert(strip_member(Seq::<SpecRoom>::empty(), id@) =~= Seq::<SpecRoom>::empty());
                if remove_first(rm_v.members, id@).len() == 0 {
                    assert(strip_member(seq![rm_v], id@) =~= Seq::<SpecRoom>::empty());
                    assert(view_rooms(kept@) =~= strip_member(rs0.take(done + 1), id@));
                } else {
                    assert(strip_member(seq![rm_v], id@) =~= seq![
                        SpecRoom { name: rm_v.name, members: remove_first(rm_v.members, id@) },
                    ]);
                    assert(view_rooms(kept@) =~= strip_member(rs0.take(done + 1), id@));
                }
            }
        }
        self.rooms = kept;
        proof {
            lemma_view_rooms(rooms_raw);
            assert(rs0.take(total) =~= rs0);
            assert(self@ =~= spec_unregister(s0, id@));
        }
    }

    /// The frames that emit `event` with `params` to every member of `room`:
    /// one batch per member, each addressed by the member's id, each built
    /// under that member's namespace; an absent room fans out to nobody.
    pub fn room_emit(&self, room: &Vec<u8>, event: &Vec<u8>, params: &Vec<Data>) -> (r: Vec<
        (Vec<u8>, Vec<Frame>),
    >)
        requires
            inv(self@),
            bin_count_list(view_data_seq(params@)) <= 0x7fffffffffffffffu64,
        ensures
            room_index(self@.rooms, room@) == -1 ==> r@.len() == 0,
            room_index(self@.rooms, room@) >= 0 ==> {
                let mem = self@.rooms[room_index(self@.rooms, room@)].members;
                &&& r@.len() == mem.len()
                &&& (forall|i: int|
                    0 <= i < mem.len() ==> (#[trigger] r@[i]).0@ == mem[i] && view_frames(
                        r@[i].1@,
                    ) == emit_frames(
                        self@.clients[client_index(self@.clients, mem[i])].namespace,
                        event@,
                        view_data_seq(params@),
                        None,
                    ))
            },
    {
        let mut out: Vec<(Vec<u8>, Vec<Frame>)> = Vec::new();
        let ri = match self.find_room(room) {
            Some(ri) => ri,
            None => {
                return out;
            },
        };
        proof {
            lemma_view_rooms(self.rooms@);
            assert(ri < self.rooms@.len());
        }
        let ghost mem = self@.rooms[ri as int].members;
        let mut k: usize = 0;
        while k < self.rooms[ri].members.len()
            invariant
                inv(self@),
                bin_count_list(view_data_seq(params@)) <= 0x7fffffffffffffffu64,
                ri < self@.rooms.len(),
                ri < self.rooms@.len(),
                room_index(self@.rooms, room@) == ri as int,
                mem == self@.rooms[ri as int].members,
                k <= mem.len(),
                self.rooms@[ri as int]@.members == mem,
                blobs(self.rooms@[ri as int].members@) == mem,
                out@.len() == k,
                forall|i: int|
                    0 <= i < k ==> (#[trigger] out@[i]).0@ == mem[i] && view_frames(out@[i].1@)
                        == emit_frames(
                        self@.clients[client_index(self@.clients, mem[i])].namespace,
                        event@,
                        view_data_seq(params@),
                        None,
                    ),
            decreases mem.len() - k,
        {
            proof {
                assert(self@.rooms[ri as int].members[k as int] == mem[k as int]);
            }
            let mid = copy_bytes(&self.rooms[ri].members[k]);
            let ci = match self.find_client(&mid) {
                Some(ci) => ci,
                None => {
                    proof {
                        assert(client_index(self@.clients, mem[k as int]) >= 0);
                        assert(false);
                    }
                    return out;
                },
            };
            proof {
                lemma_view_clients(self.clients@);
                lemma_client_index(self@.clients, mid@);
            }
            let frames = self.clients[ci].emit(copy_bytes(event), copy_data(params));
            out.push((mid, frames));
            k = k + 1;
        }
        out
    }

    /// The frames that emit `event` with `params` to every connection: one
    /// batch per connection, in registration order.
    pub fn emit(&self, event: &Vec<u8>, params: &Vec<Data>) -> (r: Vec<(Vec<u8>, Vec<Frame>)>)
        requires
            bin_count_list(view_data_seq(params@)) <= 0x7fffffffffffffffu64,
        ensures
            r@.len() == self@.clients.len(),
            forall|i: int|
                0 <= i < self@.clients.len() ==> (#[trigger] r@[i]).0@ == self@.clients[i].id
                    && view_frames(r@[i].1@) == emit_frames(
                    self@.clients[i].namespace,
                    event@,
                    view_data_seq(params@),
                    None,
                ),
    {
        proof {
            lemma_view_clients(self.clients@);
        }
        let mut out: Vec<(Vec<u8>, Vec<Frame>)> = Vec::new();
        let mut k: usize = 0;
        while k < self.clients.len()
            invariant
                k <= self@.clients.len(),
                bin_count_list(view_data_seq(params@)) <= 0x7fffffffffffffffu64,
                view_clients(self.clients@) == self@.clients,
                self.clients@.len() == self@.clients.len(),
                forall|i: int|
                    0 <= i < self.clients@.len() ==> #[trigger] self.clients@[i]@
                        == self@.clients[i],
                out@.len() == k,
                forall|i: int|
                    0 <= i < k ==> (#[trigger] out@[i]).0@ == self@.clients[i].id && view_frames(
                        out@[i].1@,
                    ) == emit_frames(
                        self@.clients[i].namespace,
                        event@,
                        view_data_seq(params@),
                        None,
                    ),
            decreases self@.clients.len() - k,
        {
            let mid = self.clients[k].id();
            let frames = self.clients[k].emit(copy_bytes(event), copy_data(params));
            out.push((mid, frames));
            k = k + 1;
        }
        out
    }

    /// Forgets every connection and every room; the transport closes are the
    /// embedding's part.
    pub fn close(&mut self)
        ensures
            final(self)@ == (SpecServer {
                clients: Seq::<SpecSocket>::empty(),
                rooms: Seq::<SpecRoom>::empty(),
            }),
            inv(final(self)@),
    {
        self.clients = Vec::new();
        self.rooms = Vec::new();
        proof {
            assert(view_clients(self.clients@) =~= Seq::<SpecSocket>::empty());
            assert(view_rooms(self.rooms@) =~= Seq::<SpecRoom>::empty());
        }
    }
}

/// What removing a value leaves of a joined-rooms list that repeats
/// nothing: the value gone, everything else kept, in order, unrepeated.
pub open spec fn remove_unique_facts(rooms: Seq<Seq<u8>>, name: Seq<u8>) -> bool {
    let r2 = remove_first(rooms, name);
    &&& !r2.contains(name)
    &&& (forall|k: int| 0 <= k < r2.len() ==> rooms.contains(#[trigger] r2[k]) && r2[k] != name)
    &&& (forall|y: Seq<u8>| rooms.contains(y) && y != name ==> #[trigger] r2.contains(y))
    &&& (forall|x: int, y: int|
        0 <= x < r2.len() && 0 <= y < r2.len() && x != y ==> r2[x] != r2[y])
}

/// `remove_unique_facts` holds of any list that repeats nothing.
pub proof fn lemma_remove_unique_facts(rooms: Seq<Seq<u8>>, name: Seq<u8>)
    requires
        forall|x: int, y: int|
            0 <= x < rooms.len() && 0 <= y < rooms.len() && x != y ==> rooms[x] != rooms[y],
    ensures
        remove_unique_facts(rooms, name),
{
    if rooms.contains(name) {
        lemma_remove_first_unique(rooms, name);
    } else {
        lemma_remove_first_absent(rooms, name);
        assert forall|k: int|
            0 <= k < remove_first(rooms, name).len() implies rooms.contains(
            #[trigger] remove_first(rooms, name)[k],
        ) && remove_first(rooms, name)[k] != name by {
            assert(remove_first(rooms, name)[k] == rooms[k]);
            if rooms[k] == name {
                assert(rooms.contains(name));
            }
        }
        if remove_first(rooms, name).contains(name) {
            assert(rooms.contains(name));
        }
    }
}

/// The registry after a room is dissolved: the room goes, and every
/// connection that had joined it forgets it. The room index's register
/// replaces a room bearing the new connection's id; dissolving the stale
/// room first keeps both sides of the record in step.
pub open spec fn spec_drop_room(s: SpecServer, name: Seq<u8>) -> SpecServer {
    let ri = room_index(s.rooms, name);
    if ri < 0 {
        s
    } else {
        SpecServer {
            clients: s.clients.map_values(
                |c: SpecSocket| SpecSocket { rooms: remove_first(c.rooms, name), ..c },
            ),
            rooms: s.rooms.remove(ri),
        }
    }
}

/// Dissolving a room that is nobody's self-addressed room keeps the
/// registry's consistency rules.
#[verifier::rlimit(60)]
pub proof fn lemma_drop_room_inv(s: SpecServer, name: Seq<u8>)
    requires
        inv(s),
        client_index(s.clients, name) == -1,
    ensures
        inv(spec_drop_room(s, name)),
{
    lemma_client_index(s.clients, name);
    lemma_room_index(s.rooms, name);
    let ri = room_index(s.rooms, name);
    if ri >= 0 {
        let s2 = spec_drop_room(s, name);
        let cs2 = s.clients.map_values(
            |c: SpecSocket| SpecSocket { rooms: remove_first(c.rooms, name), ..c },
        );
        assert(s2.clients == cs2);
        assert(s2.rooms == s.rooms.remove(ri));
        assert(cs2.len() == s.clients.len());
        assert forall|k: int| 0 <= k < cs2.len() implies #[trigger] cs2[k] == (SpecSocket {
            rooms: remove_first(s.clients[k].rooms, name),
            ..s.clients[k]
        }) by {}
        assert(s2.rooms =~= s.rooms.subrange(0, ri) + s.rooms.subrange(
            ri + 1,
            s.rooms.len() as int,
        ));
        assert forall|k: int| 0 <= k < s2.rooms.len() implies s2.rooms[k] == (if k < ri {
            s.rooms[k]
        } else {
            s.rooms[k + 1]
        }) by {}
        assert forall|c: int|
            0 <= c < s.clients.len() implies #[trigger] remove_unique_facts(
            s.clients[c].rooms,
            name,
        ) by {
            assert forall|x: int, y: int|
                0 <= x < s.clients[c].rooms.len() && 0 <= y < s.clients[c].rooms.len() && x
                    != y implies s.clients[c].rooms[x] != s.clients[c].rooms[y] by {}
            lemma_remove_unique_facts(s.clients[c].rooms, name);
        }
        // joined rooms survive with the joiner still inside
        assert forall|cc: int, k: int|
            0 <= cc < s2.clients.len() && 0 <= k < s2.clients[cc].rooms.len() implies room_index(
            s2.rooms,
            #[trigger] s2.clients[cc].rooms[k],
        ) >= 0 && s2.rooms[room_index(s2.rooms, s2.clients[cc].rooms[k])].members.contains(
            s2.clients[cc].id,
        ) by {
            let x = s2.clients[cc].rooms[k];
            assert(remove_unique_facts(s.clients[cc].rooms, name));
            assert(s2.clients[cc].rooms == remove_first(s.clients[cc].rooms, name));
            assert(s.clients[cc].rooms.contains(x) && x != name) by {
                assert(remove_first(s.clients[cc].rooms, name)[k] == x);
            }
            let k0 = choose|k0: int|
                0 <= k0 < s.clients[cc].rooms.len() && s.clients[cc].rooms[k0] == x;
            assert(room_index(s.rooms, s.clients[cc].rooms[k0]) >= 0 && s.rooms[room_index(
                s.rooms,
                s.clients[cc].rooms[k0],
            )].members.contains(s.clients[cc].id));
            let xr = room_index(s.rooms, x);
            lemma_room_index(s.rooms, x);
            assert(xr != ri) by {
                if xr == ri {
                    assert(s.rooms[xr].name == x);
                }
            }
            lemma_room_index_remove(s.rooms, ri, x);
            if xr < ri {
                assert(s2.rooms[xr] == s.rooms[xr]);
            } else {
                assert(s2.rooms[xr - 1] == s.rooms[xr]);
            }
        }
        // members stay live, joined or self-addressed
        assert forall|r: int, m: int|
            0 <= r < s2.rooms.len() && 0 <= m < s2.rooms[r].members.len() implies client_index(
            s2.clients,
            #[trigger] s2.rooms[r].members[m],
        ) >= 0 && (s2.rooms[r].name == s2.rooms[r].members[m] || s2.clients[client_index(
            s2.clients,
            s2.rooms[r].members[m],
        )].rooms.contains(s2.rooms[r].name)) by {
            let r0 = if r < ri {
                r
            } else {
                r + 1
            };
            assert(s2.rooms[r] == s.rooms[r0]);
            let mid = s.rooms[r0].members[m];
            lemma_client_index_same_ids(s2.clients, s.clients, mid);
            lemma_client_index(s.clients, mid);
            assert(client_index(s.clients, s.rooms[r0].members[m]) >= 0 && (s.rooms[r0].name
                == s.rooms[r0].members[m] || s.clients[client_index(
                s.clients,
                s.rooms[r0].members[m],
            )].rooms.contains(s.rooms[r0].name)));
            let mci = client_index(s.clients, mid);
            assert(s.rooms[r0].name != name) by {
                if r0 != ri {
                    assert(s.rooms[r0].name != s.rooms[ri].name);
                }
            }
            if s.rooms[r0].name != mid {
                assert(s.clients[mci].rooms.contains(s.rooms[r0].name));
                assert(s2.clients[mci].rooms.contains(s.rooms[r0].name)) by {
                    assert(remove_unique_facts(s.clients[mci].rooms, name));
                    assert(s2.clients[mci].rooms == remove_first(s.clients[mci].rooms, name));
                }
            }
        }
        // self-addressed rooms survive
        assert forall|cc: int|
            0 <= cc < s2.clients.len() implies room_index(
            s2.rooms,
            (#[trigger] s2.clients[cc]).id,
        ) >= 0 && s2.rooms[room_index(s2.rooms, s2.clients[cc].id)].members.contains(
            s2.clients[cc].id,
        ) by {
            let own = s.clients[cc].id;
            assert(s2.clients[cc].id == own);
            let oi = room_index(s.rooms, own);
            assert(oi >= 0 && s.rooms[oi].members.contains(own));
            lemma_room_index(s.rooms, own);
            assert(own != name) by {
                if own == name {
                    assert forall|y: int| 0 <= y < s.clients.len() implies s.clients[y].id
                        != name by {}
                }
            }
            assert(oi != ri) by {
                if oi == ri {
                    assert(s.rooms[oi].name == own);
                    assert(s.rooms[ri].name == name);
                }
            }
            lemma_room_index_remove(s.rooms, ri, own);
            if oi < ri {
                assert(s2.rooms[oi] == s.rooms[oi]);
            } else {
                assert(s2.rooms[oi - 1] == s.rooms[oi]);
            }
        }
        // joined lists stay unrepeated
        assert forall|cc: int, x: int, y: int|
            0 <= cc < s2.clients.len() && 0 <= x < s2.clients[cc].rooms.len() && 0 <= y
                < s2.clients[cc].rooms.len() && x != y implies s2.clients[cc].rooms[x]
            != s2.clients[cc].rooms[y] by {
            assert(remove_unique_facts(s.clients[cc].rooms, name));
            assert(s2.clients[cc].rooms == remove_first(s.clients[cc].rooms, name));
        }
    }
}

impl Server {
    /// Dissolves the room named `name`, taking it out of every member's
    /// record. Registering overwrites a room bearing the new connection's
    /// id, so the embedding dissolves such a stale room before it
    /// registers.
    pub fn drop_room(&mut self, name: &Vec<u8>)
        requires
            inv(old(self)@),
            client_index(old(self)@.clients, name@) == -1,
        ensures
            final(self)@ == spec_drop_room(old(self)@, name@),
            inv(final(self)@),
    {
        proof {
            lemma_drop_room_inv(old(self)@, name@);
        }
        let ri = match self.find_room(name) {
            Some(ri) => ri,
            None => {
                return ;
            },
        };
        let ghost s0 = self@;
        let ghost rooms_raw = self.rooms@;
        proof {
            lemma_view_rooms(self.rooms@);
        }
        self.rooms.remove(ri);
        proof {
            lemma_view_rooms(self.rooms@);
            lemma_view_rooms(rooms_raw);
            assert(view_rooms(self.rooms@) =~= s0.rooms.remove(ri as int)) by {
                assert forall|i: int|
                    0 <= i < self.rooms@.len() implies view_rooms(self.rooms@)[i] == s0.rooms.remove(
                    ri as int,
                )[i] by {
                    if i < ri {
                        assert(self.rooms@[i] == rooms_raw[i]);
                    } else {
                        assert(self.rooms@[i] == rooms_raw[i + 1]);
                    }
                }
            }
        }
        let ghost clients_raw = self.clients@;
        let mut k: usize = 0;
        while k < self.clients.len()
            invariant
                k <= self.clients@.len(),
                self.clients@.len() == clients_raw.len(),
                self.rooms@ == old(self).rooms@.remove(ri as int),
                forall|i: int|
                    0 <= i < k ==> #[trigger] self.clients@[i]@ == (SpecSocket {
                        rooms: remove_first(clients_raw[i]@.rooms, name@),
                        ..clients_raw[i]@
                    }),
                forall|i: int| k <= i < clients_raw.len() ==> self.clients@[i] == clients_raw[i],
            decreases self.clients@.len() - k,
        {
            let mut c = self.clients.remove(k);
            let ghost c_v = c@;
            remove_bytes(&mut c.rooms_joined, name);
            proof {
                assert(c@ =~= (SpecSocket { rooms: remove_first(c_v.rooms, name@), ..c_v }));
            }
            self.clients.insert(k, c);
            k = k + 1;
        }
        proof {
            lemma_view_clients(self.clients@);
            lemma_view_clients(clients_raw);
            assert(view_clients(self.clients@) =~= s0.clients.map_values(
                |c: SpecSocket| SpecSocket { rooms: remove_first(c.rooms, name@), ..c },
            )) by {
                assert forall|i: int|
                    0 <= i < self.clients@.len() implies view_clients(self.clients@)[i]
                    == s0.clients.map_values(
                    |c: SpecSocket| SpecSocket { rooms: remove_first(c.rooms, name@), ..c },
                )[i] by {
                    assert(view_clients(clients_raw)[i] == clients_raw[i]@);
                }
            }
            assert(self@ =~= spec_drop_room(s0, name@));
        }
    }
}


} // verus!
