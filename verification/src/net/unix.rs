//! Sockets between programs of one machine.

use crate::bytes::{cut, find, first_pos, is_utf8, push_all, push_repeat, same, to_vec};
use crate::errno::{
    EADDRINUSE, EAGAIN, ECONNREFUSED, EDESTADDRREQ, EINTR, EINVAL, EISCONN, ENOTCONN, EOPNOTSUPP,
    EPIPE,
};
use vstd::prelude::*;
use vstd::utf8::valid_utf8;

verus! {

/// Bytes of a path in a socket address.
pub const UNIX_PATH_MAX: usize = 108;

/// How many bytes may wait in a channel.
pub const CHANNEL_CAPACITY: usize = 4096;

pub const SHUT_RD: i32 = 0;

pub const SHUT_WR: i32 = 1;

pub const SHUT_RDWR: i32 = 2;

/// The address of a socket: a path.
#[derive(Debug, PartialEq, Eq)]
pub struct UnixAddr {
    pub path: Vec<u8>,
}

impl View for UnixAddr {
    type V = Seq<u8>;

    open spec fn view(&self) -> Seq<u8> {
        self.path@
    }
}

/// The path in the bytes of an address: up to the first zero, or all that may be there.
pub open spec fn raw_path(raw: Seq<u8>) -> Seq<u8> {
    let n = first_pos(raw, 0);
    raw.take(
        if n < UNIX_PATH_MAX {
            n
        } else {
            UNIX_PATH_MAX as int
        },
    )
}

/// The length of a path, as far as it is kept in an address.
pub open spec fn kept_len(path: Seq<u8>) -> int {
    if path.len() < UNIX_PATH_MAX {
        path.len() as int
    } else {
        UNIX_PATH_MAX as int
    }
}

impl UnixAddr {
    /// The address that bytes hold; an empty path or one that is no text is refused.
    pub fn from_bytes(raw: &[u8]) -> (r: Result<Self, i32>)
        ensures
            match r {
                Ok(a) => raw_path(raw@).len() > 0 && valid_utf8(raw_path(raw@)) && a@ == raw_path(raw@),
                Err(e) => e == EINVAL && (raw_path(raw@).len() == 0 || !valid_utf8(raw_path(raw@))),
            },
    {
        let end: usize = find(raw, 0);
        let n: usize = if end < UNIX_PATH_MAX {
            end
        } else {
            UNIX_PATH_MAX
        };
        if n == 0 {
            return Err(EINVAL);
        }
        let path: Vec<u8> = cut(raw, 0, n);
        proof {
            assert(path@ =~= raw_path(raw@));
        }
        if is_utf8(&path) {
            Ok(UnixAddr { path })
        } else {
            Err(EINVAL)
        }
    }

    /// The path, with zeros behind it, as it stands in an address.
    pub fn as_bytes(&self) -> (r: Vec<u8>)
        ensures
            r@ == self@.take(kept_len(self@)) + Seq::new(
                (UNIX_PATH_MAX - kept_len(self@)) as nat,
                |i: int| 0u8,
            ),
    {
        let n: usize = if self.path.len() < UNIX_PATH_MAX {
            self.path.len()
        } else {
            UNIX_PATH_MAX
        };
        let mut out: Vec<u8> = cut(&self.path, 0, n);
        push_repeat(&mut out, 0, UNIX_PATH_MAX - n);
        proof {
            assert(out@ =~= self@.take(kept_len(self@)) + Seq::new(
                (UNIX_PATH_MAX - kept_len(self@)) as nat,
                |i: int| 0u8,
            ));
        }
        out
    }

    /// How long the address is that holds the path: the family, the path and a zero.
    pub fn addr_len(&self) -> (r: u32)
        ensures
            r == 3 + kept_len(self@),
    {
        let n: usize = if self.path.len() < UNIX_PATH_MAX {
            self.path.len()
        } else {
            UNIX_PATH_MAX
        };
        (2 + n + 1) as u32
    }

    pub fn duplicate(&self) -> (r: Self)
        ensures
            r@ == self@,
    {
        UnixAddr { path: to_vec(&self.path) }
    }
}

/// The address that was written is the one that is read: of a path without zeros that
/// fits.
pub proof fn lemma_address_round_trip(path: Seq<u8>)
    requires
        0 < path.len() <= UNIX_PATH_MAX,
        forall|i: int| 0 <= i < path.len() ==> path[i] != 0,
    ensures
        raw_path(
            path.take(kept_len(path)) + Seq::new(
                (UNIX_PATH_MAX - kept_len(path)) as nat,
                |i: int| 0u8,
            ),
        ) == path,
{
    let raw = path.take(kept_len(path)) + Seq::new(
        (UNIX_PATH_MAX - kept_len(path)) as nat,
        |i: int| 0u8,
    );
    assert(forall|i: int| 0 <= i < path.len() ==> raw[i] == path[i]);
    crate::bytes::lemma_first_pos(raw, 0, path.len() as int);
    assert(raw_path(raw) =~= path);
}

#[derive(Debug, Clone, Copy, PartialEq, Eq, Structural)]
pub enum SockType {
    Stream,
    Dgram,
}

#[derive(Debug, Clone, Copy, PartialEq, Eq, Structural)]
pub enum UnixRole {
    Unbound,
    Bound,
    Listening,
    Connected,
}

/// What can be done with a socket.
#[derive(Debug, Clone, Copy, PartialEq, Eq, Structural)]
pub struct UnixPollState {
    pub readable: bool,
    pub writable: bool,
    pub hangup: bool,
    pub error: bool,
}

/// The open files that travel with a message.
#[derive(Debug, PartialEq, Eq)]
pub struct UnixControl {
    pub rights: Vec<usize>,
}

/// What a socket is handed.
#[derive(Debug, PartialEq, Eq)]
pub struct UnixMessage {
    pub data: Vec<u8>,
    pub control: UnixControl,
    pub src: Option<UnixAddr>,
    pub truncated: bool,
}

#[verifier::ext_equal]
pub struct MessageView {
    pub data: Seq<u8>,
    pub rights: Seq<usize>,
    pub src: Option<Seq<u8>>,
    pub truncated: bool,
}

/// The view of an address that may be missing.
pub open spec fn addr_view(a: Option<UnixAddr>) -> Option<Seq<u8>> {
    match a {
        Some(x) => Some(x@),
        None => None,
    }
}

fn dup_addr(a: &Option<UnixAddr>) -> (r: Option<UnixAddr>)
    ensures
        addr_view(r) == addr_view(*a),
{
    match a {
        Some(x) => Some(x.duplicate()),
        None => None,
    }
}

/// An address that may be missing; without one the path is empty.
fn addr_or_empty(a: &Option<UnixAddr>) -> (r: UnixAddr)
    ensures
        r@ == path_or_empty(addr_view(*a)),
{
    match a {
        Some(x) => x.duplicate(),
        None => UnixAddr { path: Vec::new() },
    }
}

pub open spec fn path_or_empty(a: Option<Seq<u8>>) -> Seq<u8> {
    match a {
        Some(x) => x,
        None => Seq::empty(),
    }
}

impl View for UnixMessage {
    type V = MessageView;

    open spec fn view(&self) -> MessageView {
        MessageView {
            data: self.data@,
            rights: self.control.rights@,
            src: addr_view(self.src),
            truncated: self.truncated,
        }
    }
}

pub open spec fn message_views(s: Seq<UnixMessage>) -> Seq<MessageView> {
    Seq::new(s.len(), |i: int| s[i]@)
}

/// A message of a stream.
pub open spec fn plain(data: Seq<u8>, rights: Seq<usize>) -> MessageView {
    MessageView { data, rights, src: None, truncated: false }
}

/// One direction of a connection: messages on their way.
pub struct Channel {
    pub messages: Vec<UnixMessage>,
    pub buffered_len: usize,
    pub read_closed: bool,
    pub write_closed: bool,
}

#[verifier::ext_equal]
pub struct ChannelView {
    pub messages: Seq<MessageView>,
    pub read_closed: bool,
    pub write_closed: bool,
}

impl View for Channel {
    type V = ChannelView;

    open spec fn view(&self) -> ChannelView {
        ChannelView {
            messages: message_views(self.messages@),
            read_closed: self.read_closed,
            write_closed: self.write_closed,
        }
    }
}

/// All the bytes of messages, in their order.
pub open spec fn flat(ms: Seq<MessageView>) -> Seq<u8>
    decreases ms.len(),
{
    if ms.len() == 0 {
        Seq::empty()
    } else {
        ms[0].data + flat(ms.drop_first())
    }
}

/// What a reader with room for `room` bytes is handed, with the files that come with it,
/// and the messages that stay.
pub open spec fn taken_data(ms: Seq<MessageView>, room: int) -> Seq<u8>
    decreases ms.len(),
{
    if room <= 0 || ms.len() == 0 {
        Seq::empty()
    } else if room < ms[0].data.len() {
        ms[0].data.take(room)
    } else {
        ms[0].data + taken_data(ms.drop_first(), room - ms[0].data.len())
    }
}

pub open spec fn taken_rights(ms: Seq<MessageView>, room: int) -> Seq<usize>
    decreases ms.len(),
{
    if room <= 0 || ms.len() == 0 {
        Seq::empty()
    } else if room < ms[0].data.len() {
        ms[0].rights
    } else {
        ms[0].rights + taken_rights(ms.drop_first(), room - ms[0].data.len())
    }
}

pub open spec fn left_behind(ms: Seq<MessageView>, room: int) -> Seq<MessageView>
    decreases ms.len(),
{
    if room <= 0 || ms.len() == 0 {
        ms
    } else if room < ms[0].data.len() {
        ms.update(
            0,
            MessageView { data: ms[0].data.skip(room), rights: Seq::empty(), ..ms[0] },
        )
    } else {
        left_behind(ms.drop_first(), room - ms[0].data.len())
    }
}

/// A reader gets the bytes that wait, from the first on, as many as there is room for,
/// and the rest waits on.
pub proof fn lemma_stream_order(ms: Seq<MessageView>, room: int)
    requires
        room >= 0,
    ensures
        taken_data(ms, room) + flat(left_behind(ms, room)) == flat(ms),
        taken_data(ms, room).len() == if room < flat(ms).len() {
            room
        } else {
            flat(ms).len() as int
        },
    decreases ms.len(),
{
    if room > 0 && ms.len() > 0 {
        let first = ms[0].data;
        if room < first.len() {
            let rest = left_behind(ms, room);
            assert(rest.drop_first() =~= ms.drop_first());
            assert(first.take(room) + (first.skip(room) + flat(ms.drop_first())) =~= first + flat(
                ms.drop_first(),
            ));
        } else {
            lemma_stream_order(ms.drop_first(), room - first.len());
            let (t, l) = (
                taken_data(ms.drop_first(), room - first.len()),
                flat(left_behind(ms.drop_first(), room - first.len())),
            );
            assert((first + t) + l =~= first + (t + l));
        }
    } else {
        assert(Seq::<u8>::empty() + flat(ms) =~= flat(ms));
    }
}

/// What is written comes behind all that waits.
pub proof fn lemma_stream_append(ms: Seq<MessageView>, m: MessageView)
    ensures
        flat(ms.push(m)) == flat(ms) + m.data,
    decreases ms.len(),
{
    if ms.len() == 0 {
        assert(ms.push(m).drop_first() =~= Seq::empty());
        reveal_with_fuel(flat, 2);
        assert(flat(ms.push(m)) =~= m.data);
        assert(flat(ms) + m.data =~= m.data);
    } else {
        assert(ms.push(m).drop_first() =~= ms.drop_first().push(m));
        lemma_stream_append(ms.drop_first(), m);
        assert((ms[0].data + flat(ms.drop_first())) + m.data =~= ms[0].data + (flat(
            ms.drop_first(),
        ) + m.data));
    }
}

/// How many bytes of `data` bytes a channel takes at once: all or none of what it can
/// hold, and of more as much as there is room for; `None` if it must wait.
pub open spec fn accepted(buffered: int, data: int) -> Option<int> {
    let room = CHANNEL_CAPACITY - buffered;
    if data <= CHANNEL_CAPACITY {
        if room >= data {
            Some(data)
        } else {
            None
        }
    } else if room > 0 {
        Some(room)
    } else {
        None
    }
}

impl Channel {
    pub open spec fn wf(&self) -> bool {
        &&& self.buffered_len == flat(self@.messages).len()
        &&& self.buffered_len <= CHANNEL_CAPACITY
    }

    pub fn new() -> (r: Self)
        ensures
            r.wf(),
            r@ == empty_channel(),
    {
        let r = Channel {
            messages: Vec::new(),
            buffered_len: 0,
            read_closed: false,
            write_closed: false,
        };
        proof {
            assert(r@.messages =~= Seq::empty());
        }
        r
    }

    pub fn readable(&self) -> (r: bool)
        ensures
            r == (self@.messages.len() > 0),
    {
        self.messages.len() > 0
    }

    pub fn writable(&self) -> (r: bool)
        requires
            self.wf(),
        ensures
            r == (!self@.write_closed && flat(self@.messages).len() < CHANNEL_CAPACITY),
    {
        !self.write_closed && self.buffered_len < CHANNEL_CAPACITY
    }

    fn close_both(&mut self)
        requires
            old(self).wf(),
        ensures
            final(self).wf(),
            final(self)@ == closed_channel(old(self)@),
    {
        self.read_closed = true;
        self.write_closed = true;
    }

    fn set_read_closed(&mut self)
        requires
            old(self).wf(),
        ensures
            final(self).wf(),
            final(self)@ == (ChannelView { read_closed: true, ..old(self)@ }),
    {
        self.read_closed = true;
    }

    fn set_write_closed(&mut self)
        requires
            old(self).wf(),
        ensures
            final(self).wf(),
            final(self)@ == (ChannelView { write_closed: true, ..old(self)@ }),
    {
        self.write_closed = true;
    }

    /// Hands a reader with room for `room` bytes what waits.
    fn take(&mut self, room: usize) -> (r: UnixMessage)
        requires
            old(self).wf(),
        ensures
            final(self).wf(),
            r@ == plain(
                taken_data(old(self)@.messages, room as int),
                taken_rights(old(self)@.messages, room as int),
            ),
            final(self)@ == (ChannelView {
                messages: left_behind(old(self)@.messages, room as int),
                ..old(self)@
            }),
    {
        let ghost v = self@;
        let ghost all = v.messages;
        let mut out: Vec<u8> = Vec::new();
        let mut rights: Vec<usize> = Vec::new();
        let mut left: usize = room;
        proof {
            assert(out@ + taken_data(all, room as int) =~= taken_data(all, room as int));
            assert(rights@ + taken_rights(all, room as int) =~= taken_rights(all, room as int));
        }
        while left > 0 && self.messages.len() > 0
            invariant
                self.wf(),
                self@ == (ChannelView { messages: self@.messages, ..v }),
                taken_data(all, room as int) == out@ + taken_data(self@.messages, left as int),
                taken_rights(all, room as int) == rights@ + taken_rights(
                    self@.messages,
                    left as int,
                ),
                left_behind(all, room as int) == left_behind(self@.messages, left as int),
            decreases self.messages@.len(), left,
        {
            let ghost now = self@.messages;
            let ghost o = out@;
            let ghost rg = rights@;
            let n: usize = self.messages[0].data.len();
            push_rights(&mut rights, &self.messages[0].control.rights);
            if left < n {
                push_all(&mut out, &cut(&self.messages[0].data, 0, left));
                let rest: Vec<u8> = cut(&self.messages[0].data, left, n);
                self.messages[0].data = rest;
                self.messages[0].control = UnixControl { rights: Vec::new() };
                self.buffered_len = self.buffered_len - left;
                proof {
                    let after = self@.messages;
                    assert(after =~= left_behind(now, left as int));
                    lemma_stream_order(now, left as int);
                    assert(out@ =~= o + taken_data(now, left as int));
                    assert(rights@ =~= rg + taken_rights(now, left as int));
                    assert(out@ + taken_data(after, 0) =~= out@);
                    assert(rights@ + taken_rights(after, 0) =~= rights@);
                }
                left = 0;
            } else {
                push_all(&mut out, &self.messages[0].data);
                let _gone: UnixMessage = self.messages.remove(0);
                self.buffered_len = self.buffered_len - n;
                left = left - n;
                proof {
                    let after = self@.messages;
                    assert(after =~= now.drop_first());
                    assert(out@ + taken_data(after, left as int) =~= o + (now[0].data + taken_data(
                        after,
                        left as int,
                    )));
                    assert(rights@ + taken_rights(after, left as int) =~= rg + (now[0].rights
                        + taken_rights(after, left as int)));
                }
            }
        }
        proof {
            assert(out@ + Seq::<u8>::empty() =~= out@);
            assert(rights@ + Seq::<usize>::empty() =~= rights@);
        }
        UnixMessage { data: out, control: UnixControl { rights }, src: None, truncated: false }
    }

    /// Takes a message, as far as there is room for it.
    fn offer(&mut self, data: &[u8], control: UnixControl) -> (r: Option<usize>)
        requires
            old(self).wf(),
        ensures
            final(self).wf(),
            match accepted(flat(old(self)@.messages).len() as int, data@.len() as int) {
                Some(n) => {
                    &&& r == Some(n as usize)
                    &&& final(self)@ == (ChannelView {
                        messages: old(self)@.messages.push(
                            plain(data@.take(n), control.rights@),
                        ),
                        ..old(self)@
                    })
                },
                None => r is None && final(self)@ == old(self)@,
            },
    {
        let ghost v = self@;
        let room: usize = CHANNEL_CAPACITY - self.buffered_len;
        let len: usize = data.len();
        let atomic: bool = len <= CHANNEL_CAPACITY;
        let can_write: bool = if atomic {
            room >= len
        } else {
            room > 0
        };
        if !can_write {
            return None;
        }
        let count: usize = if atomic {
            len
        } else {
            room
        };
        let part: Vec<u8> = cut(data, 0, count);
        proof {
            assert(part@ =~= data@.take(count as int));
            lemma_stream_append(v.messages, plain(part@, control.rights@));
        }
        self.messages.push(UnixMessage { data: part, control, src: None, truncated: false });
        self.buffered_len = self.buffered_len + count;
        proof {
            assert(self@.messages =~= v.messages.push(
                plain(data@.take(count as int), control.rights@),
            ));
        }
        Some(count)
    }
}

fn push_rights(out: &mut Vec<usize>, s: &Vec<usize>)
    ensures
        final(out)@ == old(out)@ + s@,
{
    let ghost o = out@;
    let mut i: usize = 0;
    proof {
        assert(o + s@.take(0) =~= o);
    }
    while i < s.len()
        invariant
            i <= s@.len(),
            out@ == o + s@.take(i as int),
        decreases s@.len() - i,
    {
        out.push(s[i]);
        proof {
            assert(out@ =~= o + s@.take(i + 1));
        }
        i = i + 1;
    }
    proof {
        assert(s@.take(i as int) =~= s@);
    }
}

pub open spec fn empty_channel() -> ChannelView {
    ChannelView { messages: Seq::empty(), read_closed: false, write_closed: false }
}

pub open spec fn closed_channel(c: ChannelView) -> ChannelView {
    ChannelView { read_closed: true, write_closed: true, ..c }
}

/// A connection: what the one end writes the other reads.
pub struct UnixConnection {
    pub first: Channel,
    pub second: Channel,
    pub refcount: u8,
}

#[verifier::ext_equal]
pub struct ConnView {
    pub first: ChannelView,
    pub second: ChannelView,
    pub refs: int,
}

impl View for UnixConnection {
    type V = ConnView;

    open spec fn view(&self) -> ConnView {
        ConnView { first: self.first@, second: self.second@, refs: self.refcount as int }
    }
}

impl ConnView {
    /// The channel that number `half` stands for.
    pub open spec fn channel(self, half: int) -> ChannelView {
        if half == 0 {
            self.first
        } else {
            self.second
        }
    }

    pub open spec fn with_channel(self, half: int, c: ChannelView) -> ConnView {
        if half == 0 {
            ConnView { first: c, ..self }
        } else {
            ConnView { second: c, ..self }
        }
    }
}

impl UnixConnection {
    pub open spec fn wf(&self) -> bool {
        self.first.wf() && self.second.wf()
    }

    fn new() -> (r: Self)
        ensures
            r.wf(),
            r@ == new_connection(),
    {
        UnixConnection { first: Channel::new(), second: Channel::new(), refcount: 2 }
    }

    fn take(&mut self, half: usize, room: usize) -> (r: UnixMessage)
        requires
            old(self).wf(),
            half < 2,
        ensures
            final(self).wf(),
            ({
                let ms = old(self)@.channel(half as int).messages;
                &&& r@ == plain(taken_data(ms, room as int), taken_rights(ms, room as int))
                &&& final(self)@ == old(self)@.with_channel(
                    half as int,
                    (ChannelView {
                        messages: left_behind(ms, room as int),
                        ..old(self)@.channel(half as int)
                    }),
                )
            }),
    {
        if half == 0 {
            self.first.take(room)
        } else {
            self.second.take(room)
        }
    }

    fn offer(&mut self, half: usize, data: &[u8], control: UnixControl) -> (r: Option<usize>)
        requires
            old(self).wf(),
            half < 2,
        ensures
            final(self).wf(),
            ({
                let c = old(self)@.channel(half as int);
                match accepted(flat(c.messages).len() as int, data@.len() as int) {
                    Some(n) => {
                        &&& r == Some(n as usize)
                        &&& final(self)@ == old(self)@.with_channel(
                            half as int,
                            (ChannelView {
                                messages: c.messages.push(plain(data@.take(n), control.rights@)),
                                ..c
                            }),
                        )
                    },
                    None => r is None && final(self)@ == old(self)@,
                }
            }),
    {
        if half == 0 {
            self.first.offer(data, control)
        } else {
            self.second.offer(data, control)
        }
    }

    fn channel<'a>(&'a self, half: usize) -> (r: &'a Channel)
        requires
            self.wf(),
            half < 2,
        ensures
            r.wf(),
            r@ == self@.channel(half as int),
    {
        if half == 0 {
            &self.first
        } else {
            &self.second
        }
    }

    fn shut_read(&mut self, half: usize)
        requires
            old(self).wf(),
            half < 2,
        ensures
            final(self).wf(),
            final(self)@ == read_shut(old(self)@, half as int),
    {
        if half == 0 {
            self.first.set_read_closed();
        } else {
            self.second.set_read_closed();
        }
    }

    fn shut_write(&mut self, half: usize)
        requires
            old(self).wf(),
            half < 2,
        ensures
            final(self).wf(),
            final(self)@ == write_shut(old(self)@, half as int),
    {
        if half == 0 {
            self.first.set_write_closed();
        } else {
            self.second.set_write_closed();
        }
    }
}

pub open spec fn new_connection() -> ConnView {
    ConnView { first: empty_channel(), second: empty_channel(), refs: 2 }
}

pub open spec fn read_shut(c: ConnView, half: int) -> ConnView {
    c.with_channel(half, ChannelView { read_closed: true, ..c.channel(half) })
}

pub open spec fn write_shut(c: ConnView, half: int) -> ConnView {
    c.with_channel(half, ChannelView { write_closed: true, ..c.channel(half) })
}

/// A connection of which one end is closed: nothing more can be written either way.
pub open spec fn hung_up(c: ConnView) -> ConnView {
    ConnView {
        first: closed_channel(c.first),
        second: closed_channel(c.second),
        refs: if c.refs == 0 {
            255
        } else {
            c.refs - 1
        },
    }
}

/// A socket, whoever holds it. Other sockets and connections are told by their numbers.
pub struct UnixState {
    pub role: UnixRole,
    pub sock_type: SockType,
    pub bound_addr: Option<UnixAddr>,
    /// Whether it was this socket that was given `bound_addr`: sockets that were accepted
    /// have the address of the listener, which stays that of the listener when they close.
    pub owns_binding: bool,
    pub conn: Option<usize>,
    pub reader_half: usize,
    pub writer_half: usize,
    pub peer_addr: Option<UnixAddr>,
    pub backlog: Vec<usize>,
    pub dgram_queue: Vec<UnixMessage>,
    pub default_peer: Option<UnixAddr>,
    pub dgram_peer: Option<usize>,
    /// How many hold it.
    pub handles: usize,
}

#[verifier::ext_equal]
pub struct StateView {
    pub role: UnixRole,
    pub sock_type: SockType,
    pub bound: Option<Seq<u8>>,
    pub owns: bool,
    pub conn: Option<usize>,
    pub reader: int,
    pub writer: int,
    pub peer: Option<Seq<u8>>,
    pub backlog: Seq<usize>,
    pub dgrams: Seq<MessageView>,
    pub default_peer: Option<Seq<u8>>,
    pub dgram_peer: Option<usize>,
    pub handles: int,
}

impl View for UnixState {
    type V = StateView;

    open spec fn view(&self) -> StateView {
        StateView {
            role: self.role,
            sock_type: self.sock_type,
            bound: addr_view(self.bound_addr),
            owns: self.owns_binding,
            conn: self.conn,
            reader: self.reader_half as int,
            writer: self.writer_half as int,
            peer: addr_view(self.peer_addr),
            backlog: self.backlog@,
            dgrams: message_views(self.dgram_queue@),
            default_peer: addr_view(self.default_peer),
            dgram_peer: self.dgram_peer,
            handles: self.handles as int,
        }
    }
}

/// A socket that was just made.
pub open spec fn new_state(t: SockType) -> StateView {
    StateView {
        role: UnixRole::Unbound,
        sock_type: t,
        bound: None,
        owns: false,
        conn: None,
        reader: 0,
        writer: 0,
        peer: None,
        backlog: Seq::empty(),
        dgrams: Seq::empty(),
        default_peer: None,
        dgram_peer: None,
        handles: 1,
    }
}

/// An end of a connection that reads the one channel and writes the other.
pub open spec fn end_of(conn: usize, reader: int, handles: int) -> StateView {
    StateView {
        role: UnixRole::Connected,
        conn: Some(conn),
        reader,
        writer: 1 - reader,
        handles,
        ..new_state(SockType::Stream)
    }
}

impl UnixState {
    fn new(sock_type: SockType) -> (r: Self)
        ensures
            r@ == new_state(sock_type),
    {
        let r = UnixState {
            role: UnixRole::Unbound,
            sock_type,
            bound_addr: None,
            owns_binding: false,
            conn: None,
            reader_half: 0,
            writer_half: 0,
            peer_addr: None,
            backlog: Vec::new(),
            dgram_queue: Vec::new(),
            default_peer: None,
            dgram_peer: None,
            handles: 1,
        };
        proof {
            assert(r@ =~= new_state(sock_type));
        }
        r
    }

    fn connected(conn: usize, reader: usize, handles: usize) -> (r: Self)
        requires
            reader < 2,
        ensures
            r@ == end_of(conn, reader as int, handles as int),
    {
        let mut r = UnixState::new(SockType::Stream);
        r.role = UnixRole::Connected;
        r.conn = Some(conn);
        r.reader_half = reader;
        r.writer_half = 1 - reader;
        r.handles = handles;
        r
    }
}

/// All sockets and connections, and the paths under which sockets are found.
pub struct UnixNet {
    pub states: Vec<UnixState>,
    pub conns: Vec<UnixConnection>,
    pub registry: Vec<(Vec<u8>, usize)>,
}

#[verifier::ext_equal]
pub struct NetView {
    pub states: Seq<StateView>,
    pub conns: Seq<ConnView>,
    pub registry: Seq<(Seq<u8>, usize)>,
}

pub open spec fn state_views(s: Seq<UnixState>) -> Seq<StateView> {
    Seq::new(s.len(), |i: int| s[i]@)
}

pub open spec fn conn_views(s: Seq<UnixConnection>) -> Seq<ConnView> {
    Seq::new(s.len(), |i: int| s[i]@)
}

pub open spec fn registry_view(s: Seq<(Vec<u8>, usize)>) -> Seq<(Seq<u8>, usize)> {
    Seq::new(s.len(), |i: int| (s[i].0@, s[i].1))
}

impl View for UnixNet {
    type V = NetView;

    open spec fn view(&self) -> NetView {
        NetView {
            states: state_views(self.states@),
            conns: conn_views(self.conns@),
            registry: registry_view(self.registry@),
        }
    }
}

/// The place of a path in the registry, or its length.
pub open spec fn place_of(reg: Seq<(Seq<u8>, usize)>, path: Seq<u8>) -> int
    decreases reg.len(),
{
    if reg.len() == 0 {
        0
    } else {
        let k = place_of(reg.drop_last(), path);
        if k < reg.len() - 1 {
            k
        } else if reg.last().0 == path {
            reg.len() - 1
        } else {
            reg.len() as int
        }
    }
}

/// The socket that a path leads to.
pub open spec fn lookup(reg: Seq<(Seq<u8>, usize)>, path: Seq<u8>) -> Option<usize> {
    let k = place_of(reg, path);
    if k < reg.len() {
        Some(reg[k].1)
    } else {
        None
    }
}

impl NetView {
    pub open spec fn with_state(self, s: int, st: StateView) -> NetView {
        NetView { states: self.states.update(s, st), ..self }
    }

    pub open spec fn with_conn(self, c: int, cn: ConnView) -> NetView {
        NetView { conns: self.conns.update(c, cn), ..self }
    }

    /// Whether all numbers lead somewhere.
    pub open spec fn wf(self) -> bool {
        &&& forall|i: int|
            0 <= i < self.states.len() ==> state_wf(
                #[trigger] self.states[i],
                self.states.len() as int,
                self.conns.len() as int,
            )
        &&& forall|i: int|
            0 <= i < self.registry.len() ==> (#[trigger] self.registry[i]).1 < self.states.len()
    }
}

pub open spec fn state_wf(st: StateView, states: int, conns: int) -> bool {
    &&& st.conn matches Some(c) ==> c < conns
    &&& 0 <= st.reader < 2
    &&& 0 <= st.writer < 2
    &&& st.dgram_peer matches Some(p) ==> p < states
    &&& forall|k: int| 0 <= k < st.backlog.len() ==> #[trigger] st.backlog[k] < states
}

proof fn lemma_place_grows(reg: Seq<(Seq<u8>, usize)>, k: int, path: Seq<u8>)
    requires
        0 <= k <= reg.len(),
    ensures
        0 <= place_of(reg.take(k), path) <= k,
        place_of(reg.take(k), path) < k ==> place_of(reg, path) == place_of(reg.take(k), path)
            && reg[place_of(reg, path)].0 == path,
    decreases reg.len(), k,
{
    if k < reg.len() {
        assert(reg.drop_last().take(k) =~= reg.take(k));
        lemma_place_grows(reg.drop_last(), k, path);
    } else {
        assert(reg.take(k) =~= reg);
        if reg.len() > 0 {
            lemma_place_grows(reg.drop_last(), reg.len() - 1, path);
            assert(reg.drop_last().take(reg.len() - 1) =~= reg.drop_last());
        }
    }
}

impl UnixNet {
    pub open spec fn wf(&self) -> bool {
        &&& self@.wf()
        &&& forall|i: int| 0 <= i < self.conns@.len() ==> (#[trigger] self.conns@[i]).wf()
    }

    pub fn new() -> (r: Self)
        ensures
            r.wf(),
            r@ == (NetView { states: Seq::empty(), conns: Seq::empty(), registry: Seq::empty() }),
    {
        let r = UnixNet { states: Vec::new(), conns: Vec::new(), registry: Vec::new() };
        proof {
            assert(r@ =~= NetView {
                states: Seq::empty(),
                conns: Seq::empty(),
                registry: Seq::empty(),
            });
        }
        r
    }

    /// The place of a path in the registry, or its length.
    fn place(&self, path: &[u8]) -> (r: usize)
        ensures
            r == place_of(self@.registry, path@),
            r <= self.registry@.len(),
            r < self.registry@.len() ==> self.registry@[r as int].0@ == path@,
    {
        let ghost reg = self@.registry;
        let n: usize = self.registry.len();
        let mut k: usize = 0;
        proof {
            assert(reg.take(0).len() == 0);
        }
        while k < n
            invariant
                n == self.registry@.len(),
                reg == self@.registry,
                k <= n,
                place_of(reg.take(k as int), path@) == k,
            decreases n - k,
        {
            proof {
                assert(reg.take(k + 1).drop_last() =~= reg.take(k as int));
                assert(reg.take(k + 1).last() == reg[k as int]);
            }
            if same(&self.registry[k].0, path) {
                proof {
                    lemma_place_grows(reg, k + 1, path@);
                }
                return k;
            }
            k = k + 1;
        }
        proof {
            assert(reg.take(k as int) =~= reg);
        }
        n
    }

    fn find(&self, path: &[u8]) -> (r: Option<usize>)
        requires
            self.wf(),
        ensures
            r == lookup(self@.registry, path@),
            r matches Some(s) ==> s < self.states@.len(),
    {
        let k: usize = self.place(path);
        if k < self.registry.len() {
            proof {
                assert(self@.registry[k as int].1 < self@.states.len());
            }
            Some(self.registry[k].1)
        } else {
            None
        }
    }
}

proof fn lemma_state_kept(v: NetView, s: int, st: StateView)
    requires
        v.wf(),
        0 <= s < v.states.len(),
        state_wf(st, v.states.len() as int, v.conns.len() as int),
    ensures
        v.with_state(s, st).wf(),
{
    let w = v.with_state(s, st);
    assert forall|i: int| 0 <= i < w.states.len() implies state_wf(
        #[trigger] w.states[i],
        w.states.len() as int,
        w.conns.len() as int,
    ) by {
        if i != s {
            assert(w.states[i] == v.states[i]);
        }
    }
    assert forall|i: int| 0 <= i < w.registry.len() implies (#[trigger] w.registry[i]).1
        < w.states.len() by {
        assert(w.registry[i] == v.registry[i]);
    }
}

proof fn lemma_conn_kept(v: NetView, c: int, cn: ConnView)
    requires
        v.wf(),
        0 <= c < v.conns.len(),
    ensures
        v.with_conn(c, cn).wf(),
{
    let w = v.with_conn(c, cn);
    assert forall|i: int| 0 <= i < w.states.len() implies state_wf(
        #[trigger] w.states[i],
        w.states.len() as int,
        w.conns.len() as int,
    ) by {
        assert(w.states[i] == v.states[i]);
    }
    assert forall|i: int| 0 <= i < w.registry.len() implies (#[trigger] w.registry[i]).1
        < w.states.len() by {
        assert(w.registry[i] == v.registry[i]);
    }
}

proof fn lemma_grown(v: NetView, st: Seq<StateView>, cn: Seq<ConnView>)
    requires
        v.wf(),
        forall|i: int|
            0 <= i < st.len() ==> state_wf(
                #[trigger] st[i],
                (v.states.len() + st.len()) as int,
                (v.conns.len() + cn.len()) as int,
            ),
    ensures
        (NetView { states: v.states + st, conns: v.conns + cn, ..v }).wf(),
{
    let w = NetView { states: v.states + st, conns: v.conns + cn, ..v };
    assert forall|i: int| 0 <= i < w.states.len() implies state_wf(
        #[trigger] w.states[i],
        w.states.len() as int,
        w.conns.len() as int,
    ) by {
        if i < v.states.len() {
            assert(w.states[i] == v.states[i]);
        } else {
            assert(w.states[i] == st[i - v.states.len()]);
        }
    }
    assert forall|i: int| 0 <= i < w.registry.len() implies (#[trigger] w.registry[i]).1
        < w.states.len() by {
        assert(w.registry[i] == v.registry[i]);
    }
}

/// What a reader gets: a message, an error, or the advice to wait.
#[verifier::ext_equal]
pub enum Got {
    Message(MessageView),
    Failure(i32),
    Wait,
}

/// What a reader was told: `None` if it is to wait and to try again.
pub open spec fn told(r: Option<Result<UnixMessage, i32>>, g: Got) -> bool {
    match r {
        Some(Ok(m)) => g == Got::Message(m@),
        Some(Err(e)) => g == Got::Failure(e),
        None => g is Wait,
    }
}

/// What comes of a wait that cannot be avoided.
pub open spec fn no_data(nonblock: bool, signal: bool) -> Option<i32> {
    if nonblock {
        Some(EAGAIN)
    } else if signal {
        Some(EINTR)
    } else {
        None
    }
}

pub open spec fn no_message(nonblock: bool, signal: bool) -> Got {
    match no_data(nonblock, signal) {
        Some(e) => Got::Failure(e),
        None => Got::Wait,
    }
}

fn must_stop(nonblock: bool, signal: bool) -> (r: Option<i32>)
    ensures
        r == no_data(nonblock, signal),
{
    if nonblock {
        Some(EAGAIN)
    } else if signal {
        Some(EINTR)
    } else {
        None
    }
}

impl NetView {
    /// What a read of a stream gives.
    pub open spec fn stream_got(self, s: int, room: int, nonblock: bool, signal: bool) -> Got {
        let st = self.states[s];
        if st.role != UnixRole::Connected {
            Got::Failure(ENOTCONN)
        } else {
            match st.conn {
                None => Got::Failure(ENOTCONN),
                Some(c) => {
                    let ch = self.conns[c as int].channel(st.reader);
                    if ch.messages.len() > 0 {
                        Got::Message(
                            plain(taken_data(ch.messages, room), taken_rights(ch.messages, room)),
                        )
                    } else if ch.read_closed {
                        Got::Message(plain(Seq::empty(), Seq::empty()))
                    } else {
                        no_message(nonblock, signal)
                    }
                },
            }
        }
    }

    /// What is left after a read of a stream.
    pub open spec fn stream_read(self, s: int, room: int) -> NetView {
        let st = self.states[s];
        match st.conn {
            Some(c) if st.role == UnixRole::Connected => {
                let cn = self.conns[c as int];
                let ch = cn.channel(st.reader);
                if ch.messages.len() > 0 {
                    self.with_conn(
                        c as int,
                        cn.with_channel(
                            st.reader,
                            ChannelView { messages: left_behind(ch.messages, room), ..ch },
                        ),
                    )
                } else {
                    self
                }
            },
            _ => self,
        }
    }

    /// What a write to a stream is answered; `None` if it is to wait.
    pub open spec fn stream_sent(
        self,
        s: int,
        data: Seq<u8>,
        rights: Seq<usize>,
        nonblock: bool,
        signal: bool,
    ) -> Option<Result<usize, i32>> {
        let st = self.states[s];
        if data.len() == 0 && rights.len() == 0 {
            Some(Ok(0usize))
        } else if st.role != UnixRole::Connected {
            Some(Err(ENOTCONN))
        } else {
            match st.conn {
                None => Some(Err(ENOTCONN)),
                Some(c) => {
                    let ch = self.conns[c as int].channel(st.writer);
                    if ch.write_closed {
                        Some(Err(EPIPE))
                    } else {
                        match accepted(flat(ch.messages).len() as int, data.len() as int) {
                            Some(n) => Some(Ok(n as usize)),
                            None => match no_data(nonblock, signal) {
                                Some(e) => Some(Err(e)),
                                None => None,
                            },
                        }
                    }
                },
            }
        }
    }

    /// What follows a write to a stream.
    pub open spec fn stream_written(self, s: int, data: Seq<u8>, rights: Seq<usize>) -> NetView {
        let st = self.states[s];
        match st.conn {
            Some(c) if st.role == UnixRole::Connected && !(data.len() == 0 && rights.len() == 0) => {
                let cn = self.conns[c as int];
                let ch = cn.channel(st.writer);
                match accepted(flat(ch.messages).len() as int, data.len() as int) {
                    Some(n) if !ch.write_closed => self.with_conn(
                        c as int,
                        cn.with_channel(
                            st.writer,
                            ChannelView {
                                messages: ch.messages.push(plain(data.take(n), rights)),
                                ..ch
                            },
                        ),
                    ),
                    _ => self,
                }
            },
            _ => self,
        }
    }

    /// With a message in the queue of socket `t` that socket `s` sent.
    pub open spec fn posted(self, s: int, t: int, data: Seq<u8>, rights: Seq<usize>) -> NetView {
        let m = MessageView {
            data,
            rights,
            src: Some(path_or_empty(self.states[s].bound)),
            truncated: false,
        };
        self.with_state(
            t,
            StateView { dgrams: self.states[t].dgrams.push(m), ..self.states[t] },
        )
    }

    /// The socket that a message to a path goes to, or the error.
    pub open spec fn path_target(self, path: Seq<u8>) -> Result<usize, i32> {
        match lookup(self.registry, path) {
            None => Err(ECONNREFUSED),
            Some(t) => if self.states[t as int].sock_type != SockType::Dgram {
                Err(EOPNOTSUPP)
            } else {
                Ok(t)
            },
        }
    }

    /// The socket at the other end of a pair, or the error.
    pub open spec fn peer_target(self, s: int) -> Result<usize, i32> {
        match self.states[s].dgram_peer {
            None => Err(EDESTADDRREQ),
            Some(p) => if self.states[p as int].handles == 0 {
                Err(EDESTADDRREQ)
            } else if self.states[p as int].sock_type != SockType::Dgram || self.states[p as int].role
                == UnixRole::Unbound {
                Err(ECONNREFUSED)
            } else {
                Ok(p)
            },
        }
    }

    /// Where a message goes: to the path that is given, or else to the one that the
    /// socket was told, or to the other end.
    pub open spec fn dgram_target(self, s: int, dest: Option<Seq<u8>>) -> Result<usize, i32> {
        match dest {
            Some(p) => self.path_target(p),
            None => match self.states[s].default_peer {
                Some(p) => self.path_target(p),
                None => self.peer_target(s),
            },
        }
    }

    /// What a read of messages gives, as far as there is room.
    pub open spec fn dgram_got(self, s: int, room: int, nonblock: bool, signal: bool) -> Got {
        let q = self.states[s].dgrams;
        if q.len() > 0 {
            let n = if room < q[0].data.len() {
                room
            } else {
                q[0].data.len() as int
            };
            Got::Message(
                MessageView { data: q[0].data.take(n), truncated: n < q[0].data.len(), ..q[0] },
            )
        } else {
            no_message(nonblock, signal)
        }
    }

    pub open spec fn dgram_read(self, s: int) -> NetView {
        let st = self.states[s];
        if st.dgrams.len() > 0 {
            self.with_state(s, StateView { dgrams: st.dgrams.drop_first(), ..st })
        } else {
            self
        }
    }

    /// With two new sockets that are connected to each other.
    pub open spec fn paired(self, sock_type: SockType) -> NetView {
        let (a, b) = (self.states.len() as usize, (self.states.len() + 1) as usize);
        let c = self.conns.len() as usize;
        match sock_type {
            SockType::Stream => NetView {
                states: self.states + seq![end_of(c, 1, 1), end_of(c, 0, 1)],
                conns: self.conns + seq![new_connection()],
                ..self
            },
            SockType::Dgram => NetView {
                states: self.states + seq![dgram_end(b), dgram_end(a)],
                ..self
            },
        }
    }

    /// With socket `s` listening.
    pub open spec fn listening(self, s: int) -> NetView {
        self.with_state(s, StateView { role: UnixRole::Listening, ..self.states[s] })
    }

    /// Why a socket cannot be given an address, if it cannot.
    pub open spec fn bind_error(self, path: Seq<u8>) -> Option<i32> {
        if path.len() == 0 {
            Some(EINVAL)
        } else if lookup(self.registry, path) is Some {
            Some(EADDRINUSE)
        } else {
            None
        }
    }

    pub open spec fn bound(self, s: usize, path: Seq<u8>) -> NetView {
        let st = StateView {
            role: UnixRole::Bound,
            bound: Some(path),
            owns: true,
            ..self.states[s as int]
        };
        NetView { registry: self.registry.push((path, s)), ..self.with_state(s as int, st) }
    }

    /// Why a socket cannot be connected to a path, if it cannot.
    pub open spec fn connect_error(self, s: int, path: Seq<u8>) -> Option<i32> {
        let st = self.states[s];
        if st.sock_type != SockType::Stream {
            Some(EOPNOTSUPP)
        } else if st.role == UnixRole::Connected {
            Some(EISCONN)
        } else if st.role == UnixRole::Listening {
            Some(EINVAL)
        } else {
            match lookup(self.registry, path) {
                None => Some(ECONNREFUSED),
                Some(l) => if self.states[l as int].role != UnixRole::Listening {
                    Some(ECONNREFUSED)
                } else {
                    None
                },
            }
        }
    }

    /// With a new connection between socket `s` and one that waits to be accepted.
    pub open spec fn connected(self, s: int, path: Seq<u8>) -> NetView {
        let l = lookup(self.registry, path)->0 as int;
        let c = self.conns.len() as usize;
        let waiting = self.states.len() as usize;
        let listener = StateView {
            backlog: self.states[l].backlog.push(waiting),
            ..self.states[l]
        };
        let grown = NetView {
            states: self.states.update(l, listener).push(end_of(c, 0, 0)),
            conns: self.conns.push(new_connection()),
            ..self
        };
        grown.with_state(
            s,
            StateView {
                role: UnixRole::Connected,
                conn: Some(c),
                reader: 1,
                writer: 0,
                peer: Some(path),
                ..self.states[s]
            },
        )
    }

    /// Why no connection can be accepted, if none can.
    pub open spec fn accept_error(self, s: int) -> Option<i32> {
        if self.states[s].sock_type != SockType::Stream {
            Some(EOPNOTSUPP)
        } else if self.states[s].role != UnixRole::Listening {
            Some(EINVAL)
        } else {
            None
        }
    }

    /// With the first waiting connection accepted.
    pub open spec fn accepted_one(self, s: int) -> NetView {
        let st = self.states[s];
        let a = st.backlog[0] as int;
        let w = self.with_state(s, StateView { backlog: st.backlog.drop_first(), ..st });
        w.with_state(a, StateView { bound: st.bound, handles: 1, ..w.states[a] })
    }

    /// With socket `s` closed: its path is free, and its connection is of no more use.
    pub open spec fn closed(self, s: usize) -> NetView {
        let st = self.states[s as int];
        let w = self.with_state(
            s as int,
            StateView { owns: false, conn: None, role: UnixRole::Unbound, peer: None, ..st },
        );
        let registry = match st.bound {
            Some(p) if st.owns && lookup(self.registry, p) == Some(s) => self.registry.remove(
                place_of(self.registry, p),
            ),
            _ => self.registry,
        };
        let x = NetView { registry, ..w };
        match st.conn {
            Some(c) => x.with_conn(c as int, hung_up(x.conns[c as int])),
            None => x,
        }
    }

    /// After one that held socket `s` let it go: the last one closes it.
    pub open spec fn released(self, s: usize) -> NetView {
        let st = self.states[s as int];
        if st.handles == 1 {
            let w = self.closed(s);
            w.with_state(s as int, StateView { handles: 0, ..w.states[s as int] })
        } else {
            self.with_state(s as int, StateView { handles: st.handles - 1, ..st })
        }
    }

    /// With the directions of a connection shut that `how` names.
    pub open spec fn shut(self, s: int, how: i32) -> NetView {
        let st = self.states[s];
        match st.conn {
            Some(c) if st.sock_type == SockType::Stream => {
                let cn = self.conns[c as int];
                if how == SHUT_RD {
                    self.with_conn(c as int, read_shut(cn, st.reader))
                } else if how == SHUT_WR {
                    self.with_conn(c as int, write_shut(cn, st.writer))
                } else if how == SHUT_RDWR {
                    self.with_conn(c as int, write_shut(read_shut(cn, st.reader), st.writer))
                } else {
                    self
                }
            },
            _ => self,
        }
    }

    /// What can be done with socket `s`.
    pub open spec fn polled(self, s: int) -> UnixPollState {
        let st = self.states[s];
        if st.sock_type == SockType::Dgram {
            let peer_gone = match st.dgram_peer {
                Some(p) => self.states[p as int].handles == 0 || self.states[p as int].role
                    == UnixRole::Unbound,
                None => false,
            };
            UnixPollState {
                readable: st.dgrams.len() > 0,
                writable: st.role != UnixRole::Unbound || st.dgram_peer is None,
                hangup: st.role == UnixRole::Unbound || peer_gone,
                error: false,
            }
        } else if st.role == UnixRole::Listening {
            UnixPollState {
                readable: st.backlog.len() > 0,
                writable: false,
                hangup: false,
                error: false,
            }
        } else {
            match st.conn {
                Some(c) => {
                    let r = self.conns[c as int].channel(st.reader);
                    let w = self.conns[c as int].channel(st.writer);
                    UnixPollState {
                        readable: r.messages.len() > 0,
                        writable: !w.write_closed && flat(w.messages).len() < CHANNEL_CAPACITY,
                        hangup: r.read_closed,
                        error: w.write_closed,
                    }
                },
                None => UnixPollState {
                    readable: false,
                    writable: false,
                    hangup: false,
                    error: false,
                },
            }
        }
    }
}

/// A socket that a program holds.
#[derive(Debug, PartialEq, Eq, Structural)]
pub struct UnixSocket {
    pub state: usize,
    pub addr_len: u32,
}

impl UnixSocket {
    pub open spec fn wf(self, net: NetView) -> bool {
        self.state < net.states.len()
    }

    /// A new socket, which has no address.
    pub fn new(sock_type: SockType, net: &mut UnixNet) -> (r: Self)
        requires
            old(net).wf(),
        ensures
            final(net).wf(),
            r.wf(final(net)@),
            r.state == old(net)@.states.len(),
            r.addr_len == 0,
            final(net)@ == (NetView {
                states: old(net)@.states.push(new_state(sock_type)),
                ..old(net)@
            }),
    {
        let ghost v = net@;
        let s: usize = net.states.len();
        net.states.push(UnixState::new(sock_type));
        proof {
            lemma_grown(v, seq![new_state(sock_type)], Seq::empty());
            assert(net@ =~= NetView {
                states: v.states + seq![new_state(sock_type)],
                conns: v.conns + Seq::empty(),
                ..v
            });
            assert(net@.states =~= v.states.push(new_state(sock_type)));
            assert(net@.conns =~= v.conns);
        }
        UnixSocket { state: s, addr_len: 0 }
    }

    /// Two sockets that are connected to each other.
    pub fn pair(sock_type: SockType, net: &mut UnixNet) -> (r: (Self, Self))
        requires
            old(net).wf(),
            old(net)@.states.len() < usize::MAX,
        ensures
            final(net).wf(),
            r.0 == (UnixSocket { state: old(net)@.states.len() as usize, addr_len: 0 }),
            r.1 == (UnixSocket { state: (old(net)@.states.len() + 1) as usize, addr_len: 0 }),
            final(net)@ == old(net)@.paired(sock_type),
    {
        let ghost v = net@;
        let a: usize = net.states.len();
        let b: usize = a + 1;
        match sock_type {
            SockType::Stream => {
                let c: usize = net.conns.len();
                net.conns.push(UnixConnection::new());
                net.states.push(UnixState::connected(c, 1, 1));
                net.states.push(UnixState::connected(c, 0, 1));
                proof {
                    let st = seq![end_of(c, 1, 1), end_of(c, 0, 1)];
                    lemma_grown(v, st, seq![new_connection()]);
                    assert(net@.states =~= v.states + st);
                    assert(net@.conns =~= v.conns + seq![new_connection()]);
                    assert(net@.registry =~= v.registry);
                }
            },
            SockType::Dgram => {
                let mut left = UnixState::new(sock_type);
                left.role = UnixRole::Connected;
                left.dgram_peer = Some(b);
                let mut right = UnixState::new(sock_type);
                right.role = UnixRole::Connected;
                right.dgram_peer = Some(a);
                net.states.push(left);
                net.states.push(right);
                proof {
                    let st = seq![dgram_end(b), dgram_end(a)];
                    lemma_grown(v, st, Seq::empty());
                    assert(net@.states =~= v.states + st);
                    assert(net@.conns =~= v.conns + Seq::empty());
                    assert(net@.conns =~= v.conns);
                    assert(net@.registry =~= v.registry);
                }
            },
        }
        (UnixSocket { state: a, addr_len: 0 }, UnixSocket { state: b, addr_len: 0 })
    }

    /// Gives the socket an address.
    pub fn bind(&mut self, addr: UnixAddr, net: &mut UnixNet) -> (r: Result<(), i32>)
        requires
            old(net).wf(),
            old(self).wf(old(net)@),
        ensures
            final(net).wf(),
            final(self).state == old(self).state,
            match old(net)@.bind_error(addr@) {
                Some(e) => r == Err::<(), i32>(e) && final(net)@ == old(net)@ && *final(self) == *old(
                    self,
                ),
                None => {
                    &&& r is Ok
                    &&& final(net)@ == old(net)@.bound(old(self).state, addr@)
                    &&& final(self).addr_len == 3 + kept_len(addr@)
                },
            },
    {
        let ghost v = net@;
        if addr.path.len() == 0 {
            return Err(EINVAL);
        }
        if net.find(&addr.path).is_some() {
            return Err(EADDRINUSE);
        }
        let s: usize = self.state;
        proof {
            assert(v.states[s as int] == net.states@[s as int]@);
            assert(state_wf(v.states[s as int], v.states.len() as int, v.conns.len() as int));
        }
        net.states[s].role = UnixRole::Bound;
        net.states[s].bound_addr = Some(addr.duplicate());
        net.states[s].owns_binding = true;
        self.addr_len = addr.addr_len();
        let ghost path = addr@;
        let ghost st = StateView {
            role: UnixRole::Bound,
            bound: Some(path),
            owns: true,
            ..v.states[s as int]
        };
        net.registry.push((addr.path, s));
        proof {
            assert(net.states@[s as int]@ =~= st);
            lemma_state_kept(v, s as int, st);
            assert(net@.states =~= v.states.update(s as int, st));
            assert(net@.conns =~= v.conns);
            assert(net@.registry =~= v.registry.push((path, s)));
            let w = v.with_state(s as int, st);
            assert forall|i: int| 0 <= i < net@.states.len() implies state_wf(
                #[trigger] net@.states[i],
                net@.states.len() as int,
                net@.conns.len() as int,
            ) by {
                assert(net@.states[i] == w.states[i]);
            }
            assert forall|i: int| 0 <= i < net@.registry.len() implies (
            #[trigger] net@.registry[i]).1 < net@.states.len() by {
                if i < v.registry.len() {
                    assert(net@.registry[i] == v.registry[i]);
                }
            }
        }
        Ok(())
    }

    /// Makes the socket one that others connect to.
    pub fn listen(&mut self, _backlog: i32, net: &mut UnixNet) -> (r: Result<(), i32>)
        requires
            old(net).wf(),
            old(self).wf(old(net)@),
        ensures
            final(net).wf(),
            *final(self) == *old(self),
            ({
                let v = old(net)@;
                let s = old(self).state as int;
                if v.states[s].sock_type != SockType::Stream {
                    r == Err::<(), i32>(EOPNOTSUPP) && final(net)@ == v
                } else if v.states[s].role != UnixRole::Bound {
                    r == Err::<(), i32>(EINVAL) && final(net)@ == v
                } else {
                    &&& r is Ok
                    &&& final(net)@ == v.listening(s)
                }
            }),
    {
        let ghost v = net@;
        let s: usize = self.state;
        proof {
            assert(v.states[s as int] == net.states@[s as int]@);
            assert(state_wf(v.states[s as int], v.states.len() as int, v.conns.len() as int));
        }
        if net.states[s].sock_type != SockType::Stream {
            return Err(EOPNOTSUPP);
        }
        if net.states[s].role != UnixRole::Bound {
            return Err(EINVAL);
        }
        net.states[s].role = UnixRole::Listening;
        proof {
            let st = StateView { role: UnixRole::Listening, ..v.states[s as int] };
            lemma_state_kept(v, s as int, st);
            assert(net@ =~= v.with_state(s as int, st));
        }
        Ok(())
    }

    /// Connects the socket to the one that listens at a path.
    pub fn connect(&mut self, addr: UnixAddr, net: &mut UnixNet) -> (r: Result<(), i32>)
        requires
            old(net).wf(),
            old(self).wf(old(net)@),
            old(net)@.states.len() < usize::MAX,
        ensures
            final(net).wf(),
            final(self).state == old(self).state,
            match old(net)@.connect_error(old(self).state as int, addr@) {
                Some(e) => r == Err::<(), i32>(e) && final(net)@ == old(net)@ && *final(self) == *old(
                    self,
                ),
                None => {
                    &&& r is Ok
                    &&& final(net)@ == old(net)@.connected(old(self).state as int, addr@)
                    &&& final(self).addr_len == 3 + kept_len(addr@)
                },
            },
    {
        let ghost v = net@;
        let s: usize = self.state;
        proof {
            assert(v.states[s as int] == net.states@[s as int]@);
            assert(state_wf(v.states[s as int], v.states.len() as int, v.conns.len() as int));
        }
        if net.states[s].sock_type != SockType::Stream {
            return Err(EOPNOTSUPP);
        }
        if net.states[s].role == UnixRole::Connected {
            return Err(EISCONN);
        }
        if net.states[s].role == UnixRole::Listening {
            return Err(EINVAL);
        }
        let l: usize = match net.find(&addr.path) {
            Some(l) => l,
            None => {
                return Err(ECONNREFUSED);
            },
        };
        proof {
            assert(v.states[l as int] == net.states@[l as int]@);
            assert(state_wf(v.states[l as int], v.states.len() as int, v.conns.len() as int));
        }
        if net.states[l].role != UnixRole::Listening {
            return Err(ECONNREFUSED);
        }
        let c: usize = net.conns.len();
        let waiting: usize = net.states.len();
        net.conns.push(UnixConnection::new());
        net.states.push(UnixState::connected(c, 0, 0));
        net.states[l].backlog.push(waiting);
        self.addr_len = addr.addr_len();
        let ghost path = addr@;
        net.states[s].conn = Some(c);
        net.states[s].reader_half = 1;
        net.states[s].writer_half = 0;
        net.states[s].peer_addr = Some(addr);
        net.states[s].role = UnixRole::Connected;
        proof {
            let g = NetView {
                states: v.states + seq![end_of(c, 0, 0)],
                conns: v.conns + seq![new_connection()],
                ..v
            };
            lemma_grown(v, seq![end_of(c, 0, 0)], seq![new_connection()]);
            assert(g.states[l as int] == v.states[l as int]);
            assert(g.states[s as int] == v.states[s as int]);
            let ls = StateView {
                backlog: v.states[l as int].backlog.push(waiting),
                ..v.states[l as int]
            };
            lemma_state_kept(g, l as int, ls);
            let h = g.with_state(l as int, ls);
            let ss = StateView {
                role: UnixRole::Connected,
                conn: Some(c),
                reader: 1,
                writer: 0,
                peer: Some(path),
                ..v.states[s as int]
            };
            lemma_state_kept(h, s as int, ss);
            assert(net.states@[s as int]@ =~= ss);
            assert(net.states@[l as int]@ =~= ls);
            assert(net@ =~= h.with_state(s as int, ss));
            assert(net@ =~= v.connected(s as int, path));
        }
        Ok(())
    }

    fn accept_step(&mut self, net: &mut UnixNet) -> (r: Result<Option<(UnixSocket, UnixAddr)>, i32>)
        requires
            old(net).wf(),
            old(self).wf(old(net)@),
        ensures
            final(net).wf(),
            *final(self) == *old(self),
            accept_outcome(old(net)@, final(net)@, old(self).state as int, r),
    {
        let ghost v = net@;
        let s: usize = self.state;
        proof {
            assert(v.states[s as int] == net.states@[s as int]@);
            assert(state_wf(v.states[s as int], v.states.len() as int, v.conns.len() as int));
        }
        if net.states[s].sock_type != SockType::Stream {
            return Err(EOPNOTSUPP);
        }
        if net.states[s].role != UnixRole::Listening {
            return Err(EINVAL);
        }
        if net.states[s].backlog.len() == 0 {
            return Ok(None);
        }
        let a: usize = net.states[s].backlog.remove(0);
        let ghost sv = StateView {
            backlog: v.states[s as int].backlog.drop_first(),
            ..v.states[s as int]
        };
        proof {
            assert(net.states@[s as int]@ =~= sv);
            lemma_state_kept(v, s as int, sv);
            assert(net@ =~= v.with_state(s as int, sv));
            assert(net@.states[a as int] == net.states@[a as int]@);
            assert(state_wf(net@.states[a as int], v.states.len() as int, v.conns.len() as int));
        }
        let ghost w = net@;
        let bound: Option<UnixAddr> = dup_addr(&net.states[s].bound_addr);
        let peer: UnixAddr = addr_or_empty(&net.states[a].peer_addr);
        let addr_len: u32 = match &bound {
            Some(b) => b.addr_len(),
            None => 0,
        };
        net.states[a].bound_addr = bound;
        net.states[a].handles = 1;
        proof {
            let av = StateView { bound: sv.bound, handles: 1, ..w.states[a as int] };
            assert(net.states@[a as int]@ =~= av);
            lemma_state_kept(w, a as int, av);
            assert(net@ =~= w.with_state(a as int, av));
        }
        Ok(Some((UnixSocket { state: a, addr_len }, peer)))
    }

    /// Accepts a connection, if one waits.
    pub fn try_accept_new(&mut self, net: &mut UnixNet) -> (r: Result<
        Option<(UnixSocket, UnixAddr)>,
        i32,
    >)
        requires
            old(net).wf(),
            old(self).wf(old(net)@),
        ensures
            final(net).wf(),
            *final(self) == *old(self),
            accept_outcome(old(net)@, final(net)@, old(self).state as int, r),
    {
        self.accept_step(net)
    }

    /// Accepts a connection; `None` if the caller is to wait for one and to try again.
    pub fn accept_new(&mut self, signal: bool, net: &mut UnixNet) -> (r: Option<
        Result<(UnixSocket, UnixAddr), i32>,
    >)
        requires
            old(net).wf(),
            old(self).wf(old(net)@),
        ensures
            final(net).wf(),
            *final(self) == *old(self),
            match r {
                Some(Ok(p)) => accept_outcome(
                    old(net)@,
                    final(net)@,
                    old(self).state as int,
                    Ok(Some(p)),
                ),
                Some(Err(e)) => final(net)@ == old(net)@ && match old(net)@.accept_error(
                    old(self).state as int,
                ) {
                    Some(x) => e == x,
                    None => e == EINTR && signal && old(net)@.states[old(
                        self,
                    ).state as int].backlog.len() == 0,
                },
                None => {
                    &&& final(net)@ == old(net)@
                    &&& old(net)@.accept_error(old(self).state as int) is None
                    &&& old(net)@.states[old(self).state as int].backlog.len() == 0
                    &&& !signal
                },
            },
    {
        match self.accept_step(net) {
            Err(e) => Some(Err(e)),
            Ok(Some(p)) => Some(Ok(p)),
            Ok(None) => if signal {
                Some(Err(EINTR))
            } else {
                None
            },
        }
    }

    pub fn sock_type(&self, net: &UnixNet) -> (r: SockType)
        requires
            self.wf(net@),
        ensures
            r == net@.states[self.state as int].sock_type,
    {
        net.states[self.state].sock_type
    }

    fn stream_recv(&self, room: usize, nonblock: bool, signal: bool, net: &mut UnixNet) -> (r: Option<
        Result<UnixMessage, i32>,
    >)
        requires
            old(net).wf(),
            self.wf(old(net)@),
        ensures
            final(net).wf(),
            told(r, old(net)@.stream_got(self.state as int, room as int, nonblock, signal)),
            final(net)@ == old(net)@.stream_read(self.state as int, room as int),
    {
        let ghost v = net@;
        let s: usize = self.state;
        proof {
            assert(v.states[s as int] == net.states@[s as int]@);
            assert(state_wf(v.states[s as int], v.states.len() as int, v.conns.len() as int));
        }
        if net.states[s].role != UnixRole::Connected {
            return Some(Err(ENOTCONN));
        }
        let c: usize = match net.states[s].conn {
            Some(c) => c,
            None => {
                return Some(Err(ENOTCONN));
            },
        };
        let half: usize = net.states[s].reader_half;
        proof {
            assert(v.conns[c as int] == net.conns@[c as int]@);
            assert(net.conns@[c as int].wf());
        }
        if net.conns[c].channel(half).readable() {
            let m: UnixMessage = net.conns[c].take(half, room);
            proof {
                lemma_conn_kept(v, c as int, net.conns@[c as int]@);
                assert(net@ =~= v.with_conn(c as int, net.conns@[c as int]@));
            }
            return Some(Ok(m));
        }
        if net.conns[c].channel(half).read_closed {
            let m = UnixMessage {
                data: Vec::new(),
                control: UnixControl { rights: Vec::new() },
                src: None,
                truncated: false,
            };
            proof {
                assert(m@ =~= plain(Seq::empty(), Seq::empty()));
            }
            return Some(Ok(m));
        }
        match must_stop(nonblock, signal) {
            Some(e) => Some(Err(e)),
            None => None,
        }
    }

    fn dgram_recv(&self, room: usize, nonblock: bool, signal: bool, net: &mut UnixNet) -> (r: Option<
        Result<UnixMessage, i32>,
    >)
        requires
            old(net).wf(),
            self.wf(old(net)@),
        ensures
            final(net).wf(),
            told(r, old(net)@.dgram_got(self.state as int, room as int, nonblock, signal)),
            final(net)@ == old(net)@.dgram_read(self.state as int),
    {
        let ghost v = net@;
        let s: usize = self.state;
        proof {
            assert(v.states[s as int] == net.states@[s as int]@);
            assert(state_wf(v.states[s as int], v.states.len() as int, v.conns.len() as int));
        }
        if net.states[s].dgram_queue.len() > 0 {
            let msg: UnixMessage = net.states[s].dgram_queue.remove(0);
            let ghost st = StateView {
                dgrams: v.states[s as int].dgrams.drop_first(),
                ..v.states[s as int]
            };
            proof {
                assert(net.states@[s as int]@ =~= st);
                lemma_state_kept(v, s as int, st);
                assert(net@ =~= v.with_state(s as int, st));
                assert(msg@ == v.states[s as int].dgrams[0]);
            }
            let total: usize = msg.data.len();
            let count: usize = if room < total {
                room
            } else {
                total
            };
            let data: Vec<u8> = cut(&msg.data, 0, count);
            let out = UnixMessage {
                data,
                control: msg.control,
                src: msg.src,
                truncated: count < total,
            };
            proof {
                assert(out@.data =~= msg@.data.take(count as int));
            }
            return Some(Ok(out));
        }
        match must_stop(nonblock, signal) {
            Some(e) => Some(Err(e)),
            None => None,
        }
    }

    /// Reads from the socket, with room for `room` bytes; `None` if the caller is to wait
    /// and to try again.
    pub fn recv_msg(&mut self, room: usize, nonblock: bool, signal: bool, net: &mut UnixNet) -> (r: Option<
        Result<UnixMessage, i32>,
    >)
        requires
            old(net).wf(),
            old(self).wf(old(net)@),
        ensures
            final(net).wf(),
            *final(self) == *old(self),
            told(r, got(old(net)@, old(self).state as int, room as int, nonblock, signal)),
            final(net)@ == after_read(old(net)@, old(self).state as int, room as int),
    {
        if net.states[self.state].sock_type == SockType::Dgram {
            self.dgram_recv(room, nonblock, signal, net)
        } else {
            self.stream_recv(room, nonblock, signal, net)
        }
    }

    /// Reads bytes from the socket; what comes with them is dropped.
    pub fn read(&mut self, room: usize, nonblock: bool, signal: bool, net: &mut UnixNet) -> (r: Option<
        Result<Vec<u8>, i32>,
    >)
        requires
            old(net).wf(),
            old(self).wf(old(net)@),
        ensures
            final(net).wf(),
            *final(self) == *old(self),
            match (r, got(old(net)@, old(self).state as int, room as int, nonblock, signal)) {
                (Some(Ok(d)), Got::Message(m)) => d@ == m.data,
                (Some(Err(e)), Got::Failure(x)) => e == x,
                (None, Got::Wait) => true,
                _ => false,
            },
            final(net)@ == after_read(old(net)@, old(self).state as int, room as int),
    {
        match self.recv_msg(room, nonblock, signal, net) {
            Some(Ok(m)) => Some(Ok(m.data)),
            Some(Err(e)) => Some(Err(e)),
            None => None,
        }
    }

    /// Reads a message and who sent it.
    pub fn recv_from(&mut self, room: usize, nonblock: bool, signal: bool, net: &mut UnixNet) -> (r: Option<
        Result<(Vec<u8>, UnixAddr), i32>,
    >)
        requires
            old(net).wf(),
            old(self).wf(old(net)@),
        ensures
            final(net).wf(),
            *final(self) == *old(self),
            ({
                let v = old(net)@;
                let s = old(self).state as int;
                if v.states[s].sock_type != SockType::Dgram {
                    r == Some(Err::<(Vec<u8>, UnixAddr), i32>(EOPNOTSUPP)) && final(net)@ == v
                } else {
                    &&& match (r, v.dgram_got(s, room as int, nonblock, signal)) {
                        (Some(Ok(p)), Got::Message(m)) => p.0@ == m.data && p.1@ == path_or_empty(
                            m.src,
                        ),
                        (Some(Err(e)), Got::Failure(x)) => e == x,
                        (None, Got::Wait) => true,
                        _ => false,
                    }
                    &&& final(net)@ == v.dgram_read(s)
                }
            }),
    {
        if net.states[self.state].sock_type != SockType::Dgram {
            return Some(Err(EOPNOTSUPP));
        }
        match self.dgram_recv(room, nonblock, signal, net) {
            Some(Ok(m)) => {
                let src: UnixAddr = addr_or_empty(&m.src);
                Some(Ok((m.data, src)))
            },
            Some(Err(e)) => Some(Err(e)),
            None => None,
        }
    }

    fn stream_write(
        &self,
        data: &[u8],
        control: UnixControl,
        nonblock: bool,
        signal: bool,
        net: &mut UnixNet,
    ) -> (r: Option<Result<usize, i32>>)
        requires
            old(net).wf(),
            self.wf(old(net)@),
        ensures
            final(net).wf(),
            r == old(net)@.stream_sent(
                self.state as int,
                data@,
                control.rights@,
                nonblock,
                signal,
            ),
            final(net)@ == old(net)@.stream_written(self.state as int, data@, control.rights@),
    {
        let ghost v = net@;
        let s: usize = self.state;
        proof {
            assert(v.states[s as int] == net.states@[s as int]@);
            assert(state_wf(v.states[s as int], v.states.len() as int, v.conns.len() as int));
        }
        if data.len() == 0 && control.rights.len() == 0 {
            return Some(Ok(0));
        }
        if net.states[s].role != UnixRole::Connected {
            return Some(Err(ENOTCONN));
        }
        let c: usize = match net.states[s].conn {
            Some(c) => c,
            None => {
                return Some(Err(ENOTCONN));
            },
        };
        let half: usize = net.states[s].writer_half;
        proof {
            assert(v.conns[c as int] == net.conns@[c as int]@);
            assert(net.conns@[c as int].wf());
        }
        if net.conns[c].channel(half).write_closed {
            return Some(Err(EPIPE));
        }
        let n: Option<usize> = net.conns[c].offer(half, data, control);
        proof {
            lemma_conn_kept(v, c as int, net.conns@[c as int]@);
            assert(net@ =~= v.with_conn(c as int, net.conns@[c as int]@));
            assert(v.conns.update(c as int, v.conns[c as int]) =~= v.conns);
        }
        match n {
            Some(k) => Some(Ok(k)),
            None => match must_stop(nonblock, signal) {
                Some(e) => Some(Err(e)),
                None => None,
            },
        }
    }

    fn post(&self, t: usize, data: &[u8], control: UnixControl, net: &mut UnixNet)
        requires
            old(net).wf(),
            self.wf(old(net)@),
            t < old(net)@.states.len(),
        ensures
            final(net).wf(),
            final(net)@ == old(net)@.posted(
                self.state as int,
                t as int,
                data@,
                control.rights@,
            ),
    {
        let ghost v = net@;
        let ghost rights = control.rights@;
        let s: usize = self.state;
        proof {
            assert(v.states[s as int] == net.states@[s as int]@);
            assert(v.states[t as int] == net.states@[t as int]@);
            assert(state_wf(v.states[t as int], v.states.len() as int, v.conns.len() as int));
        }
        let src: UnixAddr = addr_or_empty(&net.states[s].bound_addr);
        let m = UnixMessage { data: to_vec(data), control, src: Some(src), truncated: false };
        let ghost mv = m@;
        net.states[t].dgram_queue.push(m);
        proof {
            let st = StateView { dgrams: v.states[t as int].dgrams.push(mv), ..v.states[t as int] };
            assert(net.states@[t as int]@ =~= st);
            lemma_state_kept(v, t as int, st);
            assert(net@ =~= v.with_state(t as int, st));
        }
    }

    /// Sends a message to the socket at a path.
    pub fn send_to_msg(&mut self, buf: &[u8], addr: &UnixAddr, control: UnixControl, net: &mut UnixNet) -> (r:
        Result<usize, i32>)
        requires
            old(net).wf(),
            old(self).wf(old(net)@),
        ensures
            final(net).wf(),
            *final(self) == *old(self),
            posted_to(
                old(net)@,
                final(net)@,
                old(self).state as int,
                old(net)@.path_target(addr@),
                buf@,
                control.rights@,
                r,
            ),
    {
        match net.find(&addr.path) {
            None => Err(ECONNREFUSED),
            Some(t) => {
                proof {
                    assert(net@.states[t as int] == net.states@[t as int]@);
                }
                if net.states[t].sock_type != SockType::Dgram {
                    return Err(EOPNOTSUPP);
                }
                self.post(t, buf, control, net);
                Ok(buf.len())
            },
        }
    }

    pub fn send_to(&mut self, buf: &[u8], addr: &UnixAddr, net: &mut UnixNet) -> (r: Result<usize, i32>)
        requires
            old(net).wf(),
            old(self).wf(old(net)@),
        ensures
            final(net).wf(),
            *final(self) == *old(self),
            posted_to(
                old(net)@,
                final(net)@,
                old(self).state as int,
                old(net)@.path_target(addr@),
                buf@,
                Seq::empty(),
                r,
            ),
    {
        let none = UnixControl { rights: Vec::new() };
        proof {
            assert(none.rights@ =~= Seq::empty());
        }
        self.send_to_msg(buf, addr, none, net)
    }

    fn send_to_peer(&mut self, buf: &[u8], control: UnixControl, net: &mut UnixNet) -> (r: Result<
        usize,
        i32,
    >)
        requires
            old(net).wf(),
            old(self).wf(old(net)@),
        ensures
            final(net).wf(),
            *final(self) == *old(self),
            posted_to(
                old(net)@,
                final(net)@,
                old(self).state as int,
                old(net)@.peer_target(old(self).state as int),
                buf@,
                control.rights@,
                r,
            ),
    {
        let s: usize = self.state;
        proof {
            assert(net@.states[s as int] == net.states@[s as int]@);
            assert(state_wf(net@.states[s as int], net@.states.len() as int, net@.conns.len() as int));
        }
        match net.states[s].dgram_peer {
            None => Err(EDESTADDRREQ),
            Some(p) => {
                proof {
                    assert(net@.states[p as int] == net.states@[p as int]@);
                }
                if net.states[p].handles == 0 {
                    return Err(EDESTADDRREQ);
                }
                if net.states[p].sock_type != SockType::Dgram || net.states[p].role
                    == UnixRole::Unbound {
                    return Err(ECONNREFUSED);
                }
                self.post(p, buf, control, net);
                Ok(buf.len())
            },
        }
    }

    /// Sends a message; `None` if the caller is to wait and to try again.
    pub fn send_msg(
        &mut self,
        data: &[u8],
        control: UnixControl,
        dest: Option<&UnixAddr>,
        nonblock: bool,
        signal: bool,
        net: &mut UnixNet,
    ) -> (r: Option<Result<usize, i32>>)
        requires
            old(net).wf(),
            old(self).wf(old(net)@),
        ensures
            final(net).wf(),
            *final(self) == *old(self),
            sent(
                old(net)@,
                final(net)@,
                old(self).state as int,
                data@,
                control.rights@,
                dest_view(dest),
                nonblock,
                signal,
                r,
            ),
    {
        let s: usize = self.state;
        proof {
            assert(net@.states[s as int] == net.states@[s as int]@);
        }
        if net.states[s].sock_type == SockType::Dgram {
            match dest {
                Some(a) => Some(self.send_to_msg(data, a, control, net)),
                None => {
                    let told: Option<UnixAddr> = dup_addr(&net.states[s].default_peer);
                    match told {
                        Some(a) => Some(self.send_to_msg(data, &a, control, net)),
                        None => Some(self.send_to_peer(data, control, net)),
                    }
                },
            }
        } else {
            self.stream_write(data, control, nonblock, signal, net)
        }
    }

    pub fn write(&mut self, data: &[u8], nonblock: bool, signal: bool, net: &mut UnixNet) -> (r: Option<
        Result<usize, i32>,
    >)
        requires
            old(net).wf(),
            old(self).wf(old(net)@),
        ensures
            final(net).wf(),
            *final(self) == *old(self),
            sent(
                old(net)@,
                final(net)@,
                old(self).state as int,
                data@,
                Seq::empty(),
                None,
                nonblock,
                signal,
                r,
            ),
    {
        let none = UnixControl { rights: Vec::new() };
        proof {
            assert(none.rights@ =~= Seq::empty());
        }
        self.send_msg(data, none, None, nonblock, signal, net)
    }

    /// Closes the socket.
    pub fn close(&mut self, net: &mut UnixNet)
        requires
            old(net).wf(),
            old(self).wf(old(net)@),
        ensures
            final(net).wf(),
            *final(self) == *old(self),
            final(net)@ == old(net)@.closed(old(self).state),
    {
        let ghost v = net@;
        let s: usize = self.state;
        proof {
            assert(v.states[s as int] == net.states@[s as int]@);
            assert(state_wf(v.states[s as int], v.states.len() as int, v.conns.len() as int));
        }
        let owns: bool = net.states[s].owns_binding;
        let bound: Option<UnixAddr> = dup_addr(&net.states[s].bound_addr);
        let conn: Option<usize> = net.states[s].conn;
        net.states[s].owns_binding = false;
        net.states[s].conn = None;
        net.states[s].role = UnixRole::Unbound;
        net.states[s].peer_addr = None;
        let ghost st = StateView {
            owns: false,
            conn: None,
            role: UnixRole::Unbound,
            peer: None,
            ..v.states[s as int]
        };
        proof {
            assert(net.states@[s as int]@ =~= st);
            lemma_state_kept(v, s as int, st);
            assert(net@ =~= v.with_state(s as int, st));
        }
        let ghost w = net@;
        if owns {
            match bound {
                Some(b) => {
                    let k: usize = net.place(&b.path);
                    if k < net.registry.len() && net.registry[k].1 == s {
                        let _gone: (Vec<u8>, usize) = net.registry.remove(k);
                        proof {
                            assert(net@.registry =~= w.registry.remove(k as int));
                            assert(net@.states =~= w.states);
                            assert(net@.conns =~= w.conns);
                            assert forall|i: int| 0 <= i < net@.registry.len() implies (
                            #[trigger] net@.registry[i]).1 < net@.states.len() by {
                                if i < k {
                                    assert(net@.registry[i] == w.registry[i]);
                                } else {
                                    assert(net@.registry[i] == w.registry[i + 1]);
                                }
                            }
                            assert forall|i: int| 0 <= i < net@.states.len() implies state_wf(
                                #[trigger] net@.states[i],
                                net@.states.len() as int,
                                net@.conns.len() as int,
                            ) by {
                                assert(net@.states[i] == w.states[i]);
                            }
                        }
                    }
                },
                None => {},
            }
        }
        let ghost x = net@;
        match conn {
            Some(c) => {
                proof {
                    assert(x.conns[c as int] == net.conns@[c as int]@);
                    assert(net.conns@[c as int].wf());
                }
                let refs: u8 = net.conns[c].refcount;
                net.conns[c].refcount = if refs == 0 {
                    255
                } else {
                    refs - 1
                };
                net.conns[c].first.close_both();
                net.conns[c].second.close_both();
                proof {
                    lemma_conn_kept(x, c as int, net.conns@[c as int]@);
                    assert(net@ =~= x.with_conn(c as int, net.conns@[c as int]@));
                }
            },
            None => {},
        }
    }

    /// Another that holds the same socket.
    pub fn share(&self, net: &mut UnixNet) -> (r: Self)
        requires
            old(net).wf(),
            self.wf(old(net)@),
            old(net)@.states[self.state as int].handles < usize::MAX,
        ensures
            final(net).wf(),
            r == *self,
            final(net)@ == ({
                let st = old(net)@.states[self.state as int];
                old(net)@.with_state(
                    self.state as int,
                    (StateView { handles: st.handles + 1, ..st }),
                )
            }),
    {
        let ghost v = net@;
        let s: usize = self.state;
        proof {
            assert(v.states[s as int] == net.states@[s as int]@);
            assert(state_wf(v.states[s as int], v.states.len() as int, v.conns.len() as int));
        }
        let n: usize = net.states[s].handles;
        net.states[s].handles = n + 1;
        proof {
            let st = StateView { handles: n + 1, ..v.states[s as int] };
            lemma_state_kept(v, s as int, st);
            assert(net@ =~= v.with_state(s as int, st));
        }
        UnixSocket { state: s, addr_len: self.addr_len }
    }

    /// Lets the socket go; the last one that held it closes it.
    pub fn release(self, net: &mut UnixNet)
        requires
            old(net).wf(),
            self.wf(old(net)@),
            old(net)@.states[self.state as int].handles > 0,
        ensures
            final(net).wf(),
            final(net)@ == old(net)@.released(self.state),
    {
        let ghost v = net@;
        let s: usize = self.state;
        proof {
            assert(v.states[s as int] == net.states@[s as int]@);
            assert(state_wf(v.states[s as int], v.states.len() as int, v.conns.len() as int));
        }
        let n: usize = net.states[s].handles;
        if n == 1 {
            let mut last = self;
            last.close(net);
        }
        let ghost w = net@;
        proof {
            assert(w.states[s as int] == net.states@[s as int]@);
            assert(state_wf(w.states[s as int], w.states.len() as int, w.conns.len() as int));
        }
        net.states[s].handles = n - 1;
        proof {
            let st = StateView { handles: n - 1, ..w.states[s as int] };
            lemma_state_kept(w, s as int, st);
            assert(net@ =~= w.with_state(s as int, st));
        }
    }

    /// Shuts directions of the connection.
    pub fn shutdown(&mut self, how: i32, net: &mut UnixNet)
        requires
            old(net).wf(),
            old(self).wf(old(net)@),
        ensures
            final(net).wf(),
            *final(self) == *old(self),
            final(net)@ == old(net)@.shut(old(self).state as int, how),
    {
        let ghost v = net@;
        let s: usize = self.state;
        proof {
            assert(v.states[s as int] == net.states@[s as int]@);
            assert(state_wf(v.states[s as int], v.states.len() as int, v.conns.len() as int));
        }
        if net.states[s].sock_type != SockType::Stream {
            return;
        }
        match net.states[s].conn {
            None => {},
            Some(c) => {
                let reader: usize = net.states[s].reader_half;
                let writer: usize = net.states[s].writer_half;
                proof {
                    assert(v.conns[c as int] == net.conns@[c as int]@);
                    assert(net.conns@[c as int].wf());
                }
                if how == SHUT_RD || how == SHUT_RDWR {
                    net.conns[c].shut_read(reader);
                }
                if how == SHUT_WR || how == SHUT_RDWR {
                    net.conns[c].shut_write(writer);
                }
                proof {
                    lemma_conn_kept(v, c as int, net.conns@[c as int]@);
                    assert(net@ =~= v.with_conn(c as int, net.conns@[c as int]@));
                    assert(v.conns.update(c as int, v.conns[c as int]) =~= v.conns);
                }
            },
        }
    }

    /// What can be done with the socket.
    pub fn poll(&self, net: &UnixNet) -> (r: UnixPollState)
        requires
            net.wf(),
            self.wf(net@),
        ensures
            r == net@.polled(self.state as int),
    {
        let s: usize = self.state;
        let st: &UnixState = &net.states[s];
        proof {
            assert(net@.states[s as int] == st@);
            assert(state_wf(net@.states[s as int], net@.states.len() as int, net@.conns.len() as int));
        }
        if st.sock_type == SockType::Dgram {
            let gone: bool = match st.dgram_peer {
                Some(p) => {
                    proof {
                        assert(net@.states[p as int] == net.states@[p as int]@);
                    }
                    net.states[p].handles == 0 || net.states[p].role == UnixRole::Unbound
                },
                None => false,
            };
            UnixPollState {
                readable: st.dgram_queue.len() > 0,
                writable: st.role != UnixRole::Unbound || st.dgram_peer.is_none(),
                hangup: st.role == UnixRole::Unbound || gone,
                error: false,
            }
        } else if st.role == UnixRole::Listening {
            UnixPollState {
                readable: st.backlog.len() > 0,
                writable: false,
                hangup: false,
                error: false,
            }
        } else {
            match st.conn {
                Some(c) => {
                    proof {
                        assert(net@.conns[c as int] == net.conns@[c as int]@);
                        assert(net.conns@[c as int].wf());
                    }
                    let rch: &Channel = net.conns[c].channel(st.reader_half);
                    let wch: &Channel = net.conns[c].channel(st.writer_half);
                    UnixPollState {
                        readable: rch.readable(),
                        writable: wch.writable(),
                        hangup: rch.read_closed,
                        error: wch.write_closed,
                    }
                },
                None => UnixPollState {
                    readable: false,
                    writable: false,
                    hangup: false,
                    error: false,
                },
            }
        }
    }

    pub fn local_endpoint(&self, net: &UnixNet) -> (r: Option<UnixAddr>)
        requires
            self.wf(net@),
        ensures
            addr_view(r) == net@.states[self.state as int].bound,
    {
        dup_addr(&net.states[self.state].bound_addr)
    }

    pub fn remote_endpoint(&self, net: &UnixNet) -> (r: Option<UnixAddr>)
        requires
            self.wf(net@),
        ensures
            addr_view(r) == net@.states[self.state as int].peer,
    {
        dup_addr(&net.states[self.state].peer_addr)
    }
}

/// One of two sockets that send messages to each other.
pub open spec fn dgram_end(peer: usize) -> StateView {
    StateView { role: UnixRole::Connected, dgram_peer: Some(peer), ..new_state(SockType::Dgram) }
}

/// What came of an attempt to accept a connection.
pub open spec fn accept_outcome(
    v: NetView,
    after: NetView,
    s: int,
    r: Result<Option<(UnixSocket, UnixAddr)>, i32>,
) -> bool {
    match v.accept_error(s) {
        Some(e) => r == Err::<Option<(UnixSocket, UnixAddr)>, i32>(e) && after == v,
        None => if v.states[s].backlog.len() == 0 {
            r == Ok::<Option<(UnixSocket, UnixAddr)>, i32>(None) && after == v
        } else {
            &&& r matches Ok(Some(p))
            &&& p.0.state == v.states[s].backlog[0]
            &&& p.0.addr_len == match v.states[s].bound {
                Some(b) => 3 + kept_len(b),
                None => 0,
            }
            &&& p.1@ == path_or_empty(after.states[p.0.state as int].peer)
            &&& after == v.accepted_one(s)
        },
    }
}

/// What a read of a socket gives, and what is left after it.
pub open spec fn got(v: NetView, s: int, room: int, nonblock: bool, signal: bool) -> Got {
    if v.states[s].sock_type == SockType::Dgram {
        v.dgram_got(s, room, nonblock, signal)
    } else {
        v.stream_got(s, room, nonblock, signal)
    }
}

pub open spec fn after_read(v: NetView, s: int, room: int) -> NetView {
    if v.states[s].sock_type == SockType::Dgram {
        v.dgram_read(s)
    } else {
        v.stream_read(s, room)
    }
}

/// What came of a message that was to go to `target`.
pub open spec fn posted_to(
    v: NetView,
    after: NetView,
    s: int,
    target: Result<usize, i32>,
    data: Seq<u8>,
    rights: Seq<usize>,
    r: Result<usize, i32>,
) -> bool {
    match target {
        Ok(t) => r == Ok::<usize, i32>(data.len() as usize) && after == v.posted(
            s,
            t as int,
            data,
            rights,
        ),
        Err(e) => r == Err::<usize, i32>(e) && after == v,
    }
}

pub open spec fn dest_view(dest: Option<&UnixAddr>) -> Option<Seq<u8>> {
    match dest {
        Some(a) => Some(a@),
        None => None,
    }
}

/// What came of something that was to be sent.
pub open spec fn sent(
    v: NetView,
    after: NetView,
    s: int,
    data: Seq<u8>,
    rights: Seq<usize>,
    dest: Option<Seq<u8>>,
    nonblock: bool,
    signal: bool,
    r: Option<Result<usize, i32>>,
) -> bool {
    if v.states[s].sock_type == SockType::Dgram {
        r matches Some(x) && posted_to(v, after, s, v.dgram_target(s, dest), data, rights, x)
    } else {
        r == v.stream_sent(s, data, rights, nonblock, signal) && after == v.stream_written(
            s,
            data,
            rights,
        )
    }
}

/// What the one end of a new pair writes, up to what a channel holds, the other end
/// reads.
pub proof fn lemma_pair_carries(v: NetView, a: int, b: int, c: usize, data: Seq<u8>, room: int)
    requires
        v.wf(),
        0 <= a < v.states.len(),
        0 <= b < v.states.len(),
        v.states[a] == end_of(c, 1, 1),
        v.states[b] == end_of(c, 0, 1),
        c < v.conns.len(),
        v.conns[c as int] == new_connection(),
        0 < data.len() <= CHANNEL_CAPACITY,
        room >= data.len(),
    ensures
        v.stream_sent(a, data, Seq::empty(), true, false) == Some(
            Ok::<usize, i32>(data.len() as usize),
        ),
        v.stream_written(a, data, Seq::empty()).stream_got(b, room, true, false) == Got::Message(
            plain(data, Seq::empty()),
        ),
{
    reveal_with_fuel(taken_data, 2);
    reveal_with_fuel(taken_rights, 2);
    reveal_with_fuel(flat, 2);
    let none = Seq::<usize>::empty();
    let w = v.stream_written(a, data, none);
    let ms = w.conns[c as int].first.messages;
    assert(ms =~= seq![plain(data.take(data.len() as int), none)]);
    assert(data.take(data.len() as int) =~= data);
    assert(ms.drop_first() =~= Seq::empty());
    assert(taken_data(ms, room) =~= data);
    assert(taken_rights(ms, room) =~= none);
}

/// Once an end of a connection is closed, the other end is told so when it writes, and
/// reads what is left and then nothing more.
pub proof fn lemma_hang_up(v: NetView, a: usize, b: int, c: usize)
    requires
        v.wf(),
        a < v.states.len(),
        0 <= b < v.states.len(),
        a != b,
        v.states[a as int].conn == Some(c),
        v.states[b].conn == Some(c),
        v.states[b].role == UnixRole::Connected,
    ensures
        forall|data: Seq<u8>, rights: Seq<usize>, nonblock: bool, signal: bool|
            data.len() > 0 ==> #[trigger] v.closed(a).stream_sent(b, data, rights, nonblock, signal)
                == Some(Err::<usize, i32>(EPIPE)),
        v.conns[c as int].channel(v.states[b].reader).messages.len() == 0 ==> forall|
            room: int,
            nonblock: bool,
            signal: bool,
        |
            #[trigger] v.closed(a).stream_got(b, room, nonblock, signal) == Got::Message(
                plain(Seq::empty(), Seq::empty()),
            ),
{
    let w = v.closed(a);
    assert(w.states[b] == v.states[b]);
    assert(w.conns[c as int] == hung_up(v.conns[c as int]));
}

/// A path that a socket was given can be given again once the socket is closed.
pub proof fn lemma_path_freed(v: NetView, s: usize, path: Seq<u8>)
    requires
        v.wf(),
        s < v.states.len(),
        path.len() > 0,
        lookup(v.registry, path) is None,
    ensures
        lookup(v.bound(s, path).registry, path) == Some(s),
        v.bound(s, path).closed(s).bind_error(path) is None,
{
    let w = v.bound(s, path);
    lemma_place_grows(v.registry, v.registry.len() as int, path);
    assert(v.registry.take(v.registry.len() as int) =~= v.registry);
    assert(w.registry.drop_last() =~= v.registry);
    assert(place_of(w.registry, path) == v.registry.len());
    let x = w.closed(s);
    assert(x.registry =~= v.registry);
}

/// What polling says can be done without waiting can be: a connected socket that is
/// readable has a message, one that is writable takes a byte, and a listener that is
/// readable has a connection.
pub proof fn lemma_poll_tells(v: NetView, s: int, room: int, signal: bool, data: Seq<u8>)
    requires
        v.wf(),
        0 <= s < v.states.len(),
        data.len() == 1,
    ensures
        ({
            let st = v.states[s];
            let p = v.polled(s);
            &&& st.role == UnixRole::Connected && p.readable ==> got(v, s, room, true, signal)
                is Message
            &&& st.sock_type == SockType::Stream && st.role == UnixRole::Connected && p.writable
                ==> v.stream_sent(s, data, Seq::empty(), true, signal) == Some(
                Ok::<usize, i32>(1usize),
            )
            &&& st.sock_type == SockType::Stream && st.role == UnixRole::Listening && p.readable
                ==> v.accept_error(s) is None && st.backlog.len() > 0
        }),
{
}

/// A message that is sent to a socket without others waiting is the next one that it
/// receives, with the address of the sender.
pub proof fn lemma_message_arrives(v: NetView, s: int, t: int, data: Seq<u8>, rights: Seq<usize>)
    requires
        v.wf(),
        0 <= s < v.states.len(),
        0 <= t < v.states.len(),
        v.states[t].dgrams.len() == 0,
    ensures
        v.posted(s, t, data, rights).dgram_got(t, data.len() as int, true, false) == Got::Message(
            MessageView {
                data,
                rights,
                src: Some(path_or_empty(v.states[s].bound)),
                truncated: false,
            },
        ),
        v.posted(s, t, data, rights).dgram_read(t).states[t].dgrams.len() == 0,
{
    assert(data.take(data.len() as int) =~= data);
}

} // verus!
