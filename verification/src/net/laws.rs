//! What holds of connections between UNIX sockets: what goes in at the one end comes out at
//! the other, and nowhere else.

use crate::errno::EPIPE;
use crate::net::unix::{
    accept_outcome, after_read, flat, lemma_stream_append, lemma_stream_order, lookup, place_of,
    taken_rights, Got, MessageView, NetView, SockType, UnixAddr, UnixRole, UnixSocket,
    CHANNEL_CAPACITY,
};
use vstd::prelude::*;

verus! {

/// Whether sockets `a` and `b` are the two ends of a connection: each reads what the other
/// writes, and neither reads what it writes itself.
pub open spec fn joined(v: NetView, a: int, b: int) -> bool {
    let (x, y) = (v.states[a], v.states[b]);
    &&& 0 <= a < v.states.len()
    &&& 0 <= b < v.states.len()
    &&& x.sock_type == SockType::Stream && y.sock_type == SockType::Stream
    &&& x.role == UnixRole::Connected && y.role == UnixRole::Connected
    &&& x.conn is Some && x.conn == y.conn
    &&& x.conn->0 < v.conns.len()
    &&& x.reader == y.writer
    &&& x.writer == y.reader
    &&& x.reader != x.writer
    &&& 0 <= x.reader < 2 && 0 <= x.writer < 2
}

/// The bytes on their way to socket `s`.
pub open spec fn coming_to(v: NetView, s: int) -> Seq<u8> {
    match v.states[s].conn {
        Some(c) => flat(v.conns[c as int].channel(v.states[s].reader).messages),
        None => Seq::empty(),
    }
}

/// Whether nothing was closed or shut of the connection of socket `s`.
pub open spec fn open_both_ways(v: NetView, s: int) -> bool {
    let cn = v.conns[v.states[s].conn->0 as int];
    !cn.first.read_closed && !cn.first.write_closed && !cn.second.read_closed
        && !cn.second.write_closed
}

/// A socket that connects and the one that waits to be accepted for it are the two ends of a
/// new connection, on which nothing is under way. The listener has it waiting behind all
/// others, the socket knows whom it is connected to, and no other socket or connection is
/// touched.
pub proof fn lemma_connect_joins(v: NetView, s: int, path: Seq<u8>)
    requires
        v.wf(),
        0 <= s < v.states.len() < usize::MAX,
        v.conns.len() <= usize::MAX,
        v.connect_error(s, path) is None,
    ensures
        ({
            let w = v.connected(s, path);
            let l = lookup(v.registry, path)->0 as int;
            let peer = v.states.len() as int;
            &&& joined(w, s, peer)
            &&& open_both_ways(w, s)
            &&& coming_to(w, s).len() == 0
            &&& coming_to(w, peer).len() == 0
            &&& w.states[s].conn->0 >= v.conns.len()
            &&& w.states[s].peer == Some(path)
            &&& w.states[s].bound == v.states[s].bound
            &&& w.states[s].handles == v.states[s].handles
            &&& l != s
            &&& w.states[l].role == UnixRole::Listening
            &&& w.states[l].backlog == v.states[l].backlog.push(peer as usize)
            &&& w.states.len() == peer + 1
            &&& w.registry == v.registry
            &&& forall|k: int| 0 <= k < v.conns.len() ==> #[trigger] w.conns[k] == v.conns[k]
            &&& forall|k: int|
                0 <= k < peer && k != s && k != l ==> #[trigger] w.states[k] == v.states[k]
        }),
{
    let place = place_of(v.registry, path);
    lemma_place_bound(v.registry, path);
    assert(v.registry[place].1 < v.states.len());
}

/// Who connects to a path is connected to the socket that listens there: a socket can be
/// connected to a path exactly where one was given that path and listens, and the socket is
/// a stream that is neither connected nor listening itself.
pub proof fn lemma_who_can_connect(v: NetView, s: int, path: Seq<u8>)
    ensures
        v.connect_error(s, path) is None <==> {
            &&& v.states[s].sock_type == SockType::Stream
            &&& v.states[s].role != UnixRole::Connected
            &&& v.states[s].role != UnixRole::Listening
            &&& lookup(v.registry, path) is Some
            &&& v.states[lookup(v.registry, path)->0 as int].role == UnixRole::Listening
        },
{
}

/// The connection that is accepted is the one that has waited longest; it is the same end of
/// the same connection as before, is held, and has the address of the listener. The others
/// go on waiting, in their order.
pub proof fn lemma_accept_takes_first(v: NetView, l: int)
    requires
        v.wf(),
        0 <= l < v.states.len(),
        v.states[l].backlog.len() > 0,
        v.states[l].backlog[0] != l,
    ensures
        ({
            let w = v.accepted_one(l);
            let a = v.states[l].backlog[0] as int;
            &&& w.states[a].conn == v.states[a].conn
            &&& w.states[a].role == v.states[a].role
            &&& w.states[a].sock_type == v.states[a].sock_type
            &&& w.states[a].reader == v.states[a].reader
            &&& w.states[a].writer == v.states[a].writer
            &&& w.states[a].peer == v.states[a].peer
            &&& w.states[a].owns == v.states[a].owns
            &&& w.states[a].bound == v.states[l].bound
            &&& w.states[a].handles == 1
            &&& w.states[l].backlog == v.states[l].backlog.skip(1)
            &&& w.states[l].role == v.states[l].role
            &&& w.states[l].bound == v.states[l].bound
            &&& w.conns == v.conns
            &&& w.registry == v.registry
            &&& forall|k: int|
                0 <= k < v.states.len() && k != l && k != a ==> #[trigger] w.states[k] == v.states[k]
        }),
{
    assert(v.states[l].backlog.drop_first() =~= v.states[l].backlog.skip(1));
}

/// After a socket connected, and the listener accepted it, the two ends are joined.
pub proof fn lemma_connect_accept(v: NetView, s: int, path: Seq<u8>)
    requires
        v.wf(),
        0 <= s < v.states.len() < usize::MAX,
        v.conns.len() <= usize::MAX,
        v.connect_error(s, path) is None,
        v.states[lookup(v.registry, path)->0 as int].backlog.len() == 0,
    ensures
        ({
            let l = lookup(v.registry, path)->0 as int;
            let w = v.connected(s, path);
            let peer = w.states[l].backlog[0] as int;
            let x = w.accepted_one(l);
            &&& joined(x, s, peer)
            &&& open_both_ways(x, s)
            &&& coming_to(x, s).len() == 0
            &&& coming_to(x, peer).len() == 0
        }),
{
    lemma_connect_joins(v, s, path);
    lemma_place_bound(v.registry, path);
    assert(v.registry[place_of(v.registry, path)].1 < v.states.len());
    let l = lookup(v.registry, path)->0 as int;
    let w = v.connected(s, path);
    assert(w.states[l].backlog[0] == v.states.len());
    let x = w.accepted_one(l);
    assert(x.states[s] == w.states[s]);
    assert(x.conns == w.conns);
}

/// Two sockets that are made as a pair of streams are joined, with nothing under way.
pub proof fn lemma_pair_joined(v: NetView)
    requires
        v.states.len() < usize::MAX,
        v.conns.len() <= usize::MAX,
    ensures
        ({
            let w = v.paired(SockType::Stream);
            let (a, b) = (v.states.len() as int, v.states.len() as int + 1);
            &&& w.states.len() == b + 1
            &&& joined(w, a, b)
            &&& open_both_ways(w, a)
            &&& coming_to(w, a).len() == 0
            &&& coming_to(w, b).len() == 0
            &&& w.states[a].handles == 1
            &&& w.states[b].handles == 1
            &&& w.registry == v.registry
            &&& forall|k: int| 0 <= k < a ==> #[trigger] w.states[k] == v.states[k]
            &&& forall|k: int| 0 <= k < v.conns.len() ==> #[trigger] w.conns[k] == v.conns[k]
        }),
{
}

/// What an end of a connection writes comes to the other end, behind what is on its way
/// there already, and nothing of it comes back to the end that wrote it.
pub proof fn lemma_written_arrives(
    v: NetView,
    a: int,
    b: int,
    data: Seq<u8>,
    rights: Seq<usize>,
    nonblock: bool,
    signal: bool,
)
    requires
        joined(v, a, b),
        v.stream_sent(a, data, rights, nonblock, signal) matches Some(Ok(_)),
        data.len() <= usize::MAX,
    ensures
        ({
            let n = v.stream_sent(a, data, rights, nonblock, signal)->0->Ok_0 as int;
            let w = v.stream_written(a, data, rights);
            &&& 0 <= n <= data.len()
            &&& data.len() <= CHANNEL_CAPACITY ==> n == data.len()
            &&& data.len() > 0 ==> n > 0
            &&& coming_to(w, b) == coming_to(v, b) + data.take(n)
            &&& coming_to(w, a) == coming_to(v, a)
            &&& joined(w, a, b)
            &&& w.states == v.states
        }),
{
    let n = v.stream_sent(a, data, rights, nonblock, signal)->0->Ok_0 as int;
    let w = v.stream_written(a, data, rights);
    let c = v.states[a].conn->0 as int;
    if data.len() == 0 && rights.len() == 0 {
        assert(coming_to(v, b) + data.take(0) =~= coming_to(v, b));
    } else {
        let ms = v.conns[c].channel(v.states[a].writer).messages;
        let m = w.conns[c].channel(v.states[a].writer).messages.last();
        assert(w.conns[c].channel(v.states[a].writer).messages == ms.push(m));
        lemma_stream_append(ms, m);
    }
}

/// A write that is not taken changes nothing.
pub proof fn lemma_refused_write(
    v: NetView,
    a: int,
    data: Seq<u8>,
    rights: Seq<usize>,
    nonblock: bool,
    signal: bool,
)
    requires
        !(v.stream_sent(a, data, rights, nonblock, signal) matches Some(Ok(_))),
    ensures
        v.stream_written(a, data, rights) == v,
{
}

/// What an end of a connection reads is what was on its way to it, from the first byte on,
/// as much as there is room for; the rest stays on its way, and what is on its way to the
/// other end is not touched.
pub proof fn lemma_read_takes(v: NetView, a: int, b: int, room: int, nonblock: bool, signal: bool)
    requires
        joined(v, a, b),
        room >= 0,
        coming_to(v, a).len() > 0,
    ensures
        ({
            let w = v.stream_read(a, room);
            let whole = coming_to(v, a);
            let n = if room < whole.len() {
                room
            } else {
                whole.len() as int
            };
            &&& v.stream_got(a, room, nonblock, signal) matches Got::Message(m) && m.data
                == whole.take(n)
            &&& coming_to(w, a) == whole.skip(n)
            &&& coming_to(w, b) == coming_to(v, b)
            &&& joined(w, a, b)
            &&& w.states == v.states
        }),
{
    let c = v.states[a].conn->0 as int;
    let ms = v.conns[c].channel(v.states[a].reader).messages;
    lemma_stream_order(ms, room);
    let whole = coming_to(v, a);
    let w = v.stream_read(a, room);
    let got = crate::net::unix::taken_data(ms, room);
    let rest = coming_to(w, a);
    assert(got + rest == whole);
    assert(got =~= whole.take(got.len() as int));
    assert(rest =~= whole.skip(got.len() as int));
}

/// Where nothing is on its way and nothing was closed, there is nothing to read, and reading
/// changes nothing.
pub proof fn lemma_nothing_to_read(v: NetView, a: int, b: int, room: int, nonblock: bool, signal: bool)
    requires
        joined(v, a, b),
        open_both_ways(v, a),
        v.conns[v.states[a].conn->0 as int].channel(v.states[a].reader).messages.len() == 0,
    ensures
        v.stream_got(a, room, nonblock, signal) !is Message,
        v.stream_read(a, room) == v,
{
}

/// What the one end of a connection without anything under way writes the other end reads,
/// whichever end it is, and the end that wrote it reads nothing of it.
pub proof fn lemma_carried_across(v: NetView, a: int, b: int, data: Seq<u8>, room: int)
    requires
        joined(v, a, b),
        open_both_ways(v, a),
        v.conns[v.states[a].conn->0 as int].first.messages.len() == 0,
        v.conns[v.states[a].conn->0 as int].second.messages.len() == 0,
        0 < data.len() <= CHANNEL_CAPACITY,
        room >= data.len(),
    ensures
        ({
            let w = v.stream_written(a, data, Seq::empty());
            &&& v.stream_sent(a, data, Seq::empty(), true, false) == Some(
                Ok::<usize, i32>(data.len() as usize),
            )
            &&& w.stream_got(b, room, true, false) matches Got::Message(m) && m.data == data
            &&& w.stream_got(a, room, true, false) !is Message
            &&& coming_to(w.stream_read(b, room), b).len() == 0
        }),
{
    let none = Seq::<usize>::empty();
    assert(joined(v, b, a));
    lemma_written_arrives(v, a, b, data, none, true, false);
    let w = v.stream_written(a, data, none);
    assert(coming_to(w, b) =~= data.take(data.len() as int));
    assert(data.take(data.len() as int) =~= data);
    lemma_read_takes(w, b, a, room, true, false);
    assert(data.skip(data.len() as int).len() == 0);
}

/// The files that come with messages, in their order.
pub open spec fn files_in(ms: Seq<MessageView>) -> Seq<usize>
    decreases ms.len(),
{
    if ms.len() == 0 {
        Seq::empty()
    } else {
        ms[0].rights + files_in(ms.drop_first())
    }
}

/// A reader with room for more than all that waits is handed all the files that come with
/// it.
pub proof fn lemma_files_arrive(ms: Seq<MessageView>, room: int)
    requires
        room > flat(ms).len(),
    ensures
        taken_rights(ms, room) == files_in(ms),
    decreases ms.len(),
{
    if ms.len() > 0 {
        lemma_files_arrive(ms.drop_first(), room - ms[0].data.len());
    }
}

/// Once an end may no longer write, each write is told so; once it may no longer read, and
/// nothing waits, each read finds the end.
pub proof fn lemma_shut_tells(v: NetView, a: int, b: int, data: Seq<u8>, room: int, nonblock: bool, signal: bool)
    requires
        joined(v, a, b),
        data.len() > 0,
    ensures
        v.shut(a, 1).stream_sent(a, data, Seq::empty(), nonblock, signal) == Some(
            Err::<usize, i32>(EPIPE),
        ),
        v.shut(a, 2).stream_sent(a, data, Seq::empty(), nonblock, signal) == Some(
            Err::<usize, i32>(EPIPE),
        ),
        v.conns[v.states[a].conn->0 as int].channel(v.states[a].reader).messages.len() == 0 ==> {
            &&& v.shut(a, 0).stream_got(a, room, nonblock, signal) matches Got::Message(m)
                && m.data.len() == 0
            &&& v.shut(a, 2).stream_got(a, room, nonblock, signal) matches Got::Message(m)
                && m.data.len() == 0
        },
        coming_to(v.shut(a, 1), b) == coming_to(v, b),
        coming_to(v.shut(a, 1), a) == coming_to(v, a),
        v.shut(a, 0).stream_sent(a, data, Seq::empty(), nonblock, signal) == v.stream_sent(
            a,
            data,
            Seq::empty(),
            nonblock,
            signal,
        ),
{
}

/// Two sockets that are made as a pair of message sockets send to each other.
pub proof fn lemma_message_pair(v: NetView)
    requires
        v.states.len() < usize::MAX,
    ensures
        ({
            let w = v.paired(SockType::Dgram);
            let (a, b) = (v.states.len() as int, v.states.len() as int + 1);
            &&& w.dgram_target(a, None) == Ok::<usize, i32>(b as usize)
            &&& w.dgram_target(b, None) == Ok::<usize, i32>(a as usize)
            &&& w.states[a].dgrams.len() == 0
            &&& w.states[b].dgrams.len() == 0
            &&& w.conns == v.conns
            &&& forall|k: int| 0 <= k < a ==> #[trigger] w.states[k] == v.states[k]
        }),
{
}

/// A message waits behind those that came before it, whole, with the address of its sender
/// and the files that come with it, and at no other socket.
pub proof fn lemma_message_waits(v: NetView, s: int, t: int, data: Seq<u8>, rights: Seq<usize>)
    requires
        0 <= s < v.states.len(),
        0 <= t < v.states.len(),
    ensures
        ({
            let w = v.posted(s, t, data, rights);
            let q = v.states[t].dgrams;
            let r = w.states[t].dgrams;
            &&& r.len() == q.len() + 1
            &&& forall|k: int| 0 <= k < q.len() ==> #[trigger] r[k] == q[k]
            &&& r.last().data == data
            &&& r.last().rights == rights
            &&& !r.last().truncated
            &&& r.last().src == Some(
                match v.states[s].bound {
                    Some(p) => p,
                    None => Seq::<u8>::empty(),
                },
            )
            &&& w.states[t].role == v.states[t].role
            &&& forall|k: int|
                0 <= k < v.states.len() && k != t ==> #[trigger] w.states[k] == v.states[k]
            &&& w.conns == v.conns
        }),
{
}

/// The message that is received is the one that has waited longest, cut to the room that
/// there is, which the reader is told of; it is gone afterwards, and the others wait on.
pub proof fn lemma_first_message(v: NetView, s: int, room: int, nonblock: bool, signal: bool)
    requires
        0 <= s < v.states.len(),
        v.states[s].dgrams.len() > 0,
        room >= 0,
    ensures
        ({
            let q = v.states[s].dgrams;
            &&& v.dgram_got(s, room, nonblock, signal) matches Got::Message(m) && {
                &&& m.data.is_prefix_of(q[0].data)
                &&& m.data.len() == if room < q[0].data.len() {
                    room
                } else {
                    q[0].data.len() as int
                }
                &&& m.truncated == (room < q[0].data.len())
                &&& m.rights == q[0].rights
                &&& m.src == q[0].src
            }
            &&& v.dgram_read(s).states[s].dgrams == q.skip(1)
            &&& v.dgram_read(s).conns == v.conns
            &&& forall|k: int|
                0 <= k < v.states.len() && k != s ==> #[trigger] v.dgram_read(s).states[k]
                    == v.states[k]
        }),
{
    let q = v.states[s].dgrams;
    assert(q.drop_first() =~= q.skip(1));
}

/// A message goes where it is addressed to: to the socket with the path that is given, else
/// to the one with the path that its sender was connected to, else to the other one of the
/// pair.
pub proof fn lemma_message_goes(v: NetView, s: int, path: Seq<u8>)
    requires
        lookup(v.registry, path) is Some,
        v.states[lookup(v.registry, path)->0 as int].sock_type == SockType::Dgram,
    ensures
        v.dgram_target(s, Some(path)) == Ok::<usize, i32>(lookup(v.registry, path)->0),
        v.states[s].default_peer == Some(path) ==> v.dgram_target(s, None) == Ok::<usize, i32>(
            lookup(v.registry, path)->0,
        ),
        v.states[s].default_peer is None ==> v.dgram_target(s, None) == v.peer_target(s),
{
}

/// A socket that was given a path is found under it, and under no other that was not its;
/// all others are found where they were.
pub proof fn lemma_bound_found(v: NetView, s: usize, path: Seq<u8>, other: Seq<u8>)
    requires
        s < v.states.len(),
        v.bind_error(path) is None,
    ensures
        ({
            let w = v.bound(s, path);
            &&& path.len() > 0
            &&& lookup(w.registry, path) == Some(s)
            &&& other != path ==> lookup(w.registry, other) == lookup(v.registry, other)
            &&& w.states[s as int].bound == Some(path)
            &&& w.states[s as int].role == UnixRole::Bound
            &&& w.states[s as int].owns
            &&& w.states[s as int].conn == v.states[s as int].conn
            &&& w.bind_error(path) is Some
            &&& forall|k: int|
                0 <= k < v.states.len() && k != s ==> #[trigger] w.states[k] == v.states[k]
        }),
{
    let w = v.bound(s, path);
    assert(w.registry.drop_last() =~= v.registry);
    assert(w.registry.last() == (path, s));
    lemma_place_bound(v.registry, path);
    lemma_place_bound(v.registry, other);
    lemma_place_bound(w.registry, path);
}

proof fn lemma_place_bound(reg: Seq<(Seq<u8>, usize)>, path: Seq<u8>)
    ensures
        0 <= place_of(reg, path) <= reg.len(),
    decreases reg.len(),
{
    if reg.len() > 0 {
        lemma_place_bound(reg.drop_last(), path);
    }
}

/// A socket that listens takes connections where its path leads to it.
pub proof fn lemma_listener_takes(v: NetView, l: usize, s: int, path: Seq<u8>)
    requires
        l < v.states.len(),
        0 <= s < v.states.len(),
        s != l,
        lookup(v.registry, path) == Some(l),
        v.states[s].sock_type == SockType::Stream,
        v.states[s].role == UnixRole::Unbound,
    ensures
        v.listening(l as int).connect_error(s, path) is None,
        v.listening(l as int).states[l as int].bound == v.states[l as int].bound,
        v.listening(l as int).registry == v.registry,
        v.listening(l as int).states[s] == v.states[s],
{
}

/// A socket that several hold is closed when the last of them lets it go, and not before.
pub proof fn lemma_last_release_closes(v: NetView, s: usize)
    requires
        v.wf(),
        s < v.states.len(),
        v.states[s as int].handles >= 1,
    ensures
        v.released(s).states[s as int].handles == v.states[s as int].handles - 1,
        v.states[s as int].handles > 1 ==> {
            &&& v.released(s).conns == v.conns
            &&& v.released(s).registry == v.registry
            &&& v.released(s).states[s as int].role == v.states[s as int].role
            &&& v.released(s).states[s as int].conn == v.states[s as int].conn
        },
        v.states[s as int].handles == 1 ==> {
            &&& v.released(s).conns == v.closed(s).conns
            &&& v.released(s).registry == v.closed(s).registry
            &&& v.released(s).states[s as int].role == UnixRole::Unbound
            &&& v.released(s).states[s as int].conn is None
        },
{
}

/// What polling says of a connected stream: it is readable exactly where a read would hand
/// out a message that waits, writable exactly where a byte would be taken, and it tells of a
/// hang-up exactly where the other end is closed or reading was shut.
pub proof fn lemma_poll_stream(v: NetView, a: int, b: int, data: Seq<u8>)
    requires
        joined(v, a, b),
        data.len() == 1,
    ensures
        ({
            let p = v.polled(a);
            let c = v.conns[v.states[a].conn->0 as int];
            &&& p.readable == (c.channel(v.states[a].reader).messages.len() > 0)
            &&& coming_to(v, a).len() > 0 ==> p.readable
            &&& p.writable == (v.stream_sent(a, data, Seq::empty(), true, false) matches Some(
                Ok(_),
            ))
            &&& p.hangup == c.channel(v.states[a].reader).read_closed
            &&& p.error == c.channel(v.states[a].writer).write_closed
        }),
{
}

/// What an accept gives is the first of those that wait, which then no longer waits; where none
/// waits, nothing changes, and a socket that does not listen accepts nobody.
pub proof fn lemma_accept_gives(
    v: NetView,
    after: NetView,
    s: int,
    r: Result<Option<(UnixSocket, UnixAddr)>, i32>,
)
    requires
        accept_outcome(v, after, s, r),
        v.wf(),
        0 <= s < v.states.len(),
        v.states[s].backlog.len() > 0 ==> v.states[s].backlog[0] != s,
    ensures
        r is Err <==> !(v.states[s].sock_type == SockType::Stream && v.states[s].role == UnixRole::Listening),
        r is Err ==> after == v,
        r is Ok && v.states[s].backlog.len() == 0 ==> r == Ok::<Option<(UnixSocket, UnixAddr)>, i32>(None)
            && after == v,
        r is Ok && v.states[s].backlog.len() > 0 ==> (r matches Ok(Some(p)) && p.0.state
            == v.states[s].backlog[0] && after.states[s].backlog == v.states[s].backlog.skip(1)),
{
    if r is Ok && v.states[s].backlog.len() > 0 {
        lemma_accept_takes_first(v, s);
    }
}

/// A read takes from the messages that a socket has or from the bytes that come to it, by what kind
/// of socket it is.
pub proof fn lemma_read_by_kind(v: NetView, s: int, room: int)
    requires
        0 <= s < v.states.len(),
    ensures
        v.states[s].sock_type == SockType::Stream ==> after_read(v, s, room) == v.stream_read(s, room),
        v.states[s].sock_type == SockType::Dgram && v.states[s].dgrams.len() > 0 ==> after_read(
            v,
            s,
            room,
        ).states[s].dgrams == v.states[s].dgrams.skip(1),
{
    if v.states[s].dgrams.len() > 0 {
        assert(v.states[s].dgrams.drop_first() =~= v.states[s].dgrams.skip(1));
    }
}

} // verus!
