//! One client exchange as a state machine: the caller performs each action
//! (a read, a lookup, a connect, a write) and hands back what came of it.
use vstd::prelude::*;
use vstd::utf8::valid_utf8;

use crate::error::ClientError;
use crate::reader::{CHUNK_SIZE, ReadStatus, StreamReader};
use crate::router::{get_host, host_target};

verus! {

/// A socket address as plain values: an IPv4 address with a port, or an IPv6
/// address with a port, flow information and scope identifier.
#[derive(Clone, Copy, Debug, PartialEq, Eq, Structural)]
pub enum SocketAddress {
    V4 { octets: u32, port: u16 },
    V6 { segments: u128, port: u16, flowinfo: u32, scope_id: u32 },
}

/// Two addresses name the same endpoint: the same IP address and the same
/// port. IPv6 flow information and scope identifiers play no part.
pub open spec fn same_endpoint(a: SocketAddress, b: SocketAddress) -> bool {
    match (a, b) {
        (SocketAddress::V4 { octets: x, port: p }, SocketAddress::V4 { octets: y, port: q }) => x
            == y && p == q,
        (
            SocketAddress::V6 { segments: x, port: p, .. },
            SocketAddress::V6 { segments: y, port: q, .. },
        ) => x == y && p == q,
        _ => false,
    }
}

impl SocketAddress {
    /// Whether `self` and `other` have the same IP address and port.
    pub fn same_endpoint(&self, other: &SocketAddress) -> (r: bool)
        ensures
            r == same_endpoint(*self, *other),
    {
        match (self, other) {
            (SocketAddress::V4 { octets: x, port: p }, SocketAddress::V4 { octets: y, port: q }) => *x
                == *y && *p == *q,
            (
                SocketAddress::V6 { segments: x, port: p, .. },
                SocketAddress::V6 { segments: y, port: q, .. },
            ) => *x == *y && *p == *q,
            _ => false,
        }
    }
}

/// The name of the canned response sent when a request points at the proxy itself.
pub open spec fn loop_template() -> Seq<char> {
    seq!['e', 'r', 'r', 'o', 'r', '5', '0', '8']
}

/// What came of the last action.
pub enum Event {
    /// A read returned these bytes; none means the peer closed.
    Received(Vec<u8>),
    /// Resolution succeeded; this is the first address it gave, if any.
    Resolved(Option<SocketAddress>),
    /// Resolution itself failed.
    ResolveFailed,
    /// The connect, write or template send that was asked for went through.
    Completed,
    /// A read, write or connect failed, or the template could not be sent.
    IoFailed,
}

/// What the caller is to do next.
pub enum Action {
    /// Read up to one chunk from the client.
    ReadClient,
    /// Resolve this host and port.
    Resolve(String, u16),
    /// Send the named response template to the client.
    SendTemplate(String),
    /// Open a connection to this upstream address.
    Connect(SocketAddress),
    /// Write these bytes to the upstream.
    WriteUpstream(Vec<u8>),
    /// Read up to one chunk from the upstream.
    ReadUpstream,
    /// Write these bytes to the client.
    WriteClient(Vec<u8>),
    /// The session is over, with this outcome; close every connection.
    Finish(Result<(), ClientError>),
}

/// Where a session stands.
#[derive(Clone, Copy, Debug, PartialEq, Eq, Structural)]
pub enum Phase {
    /// Reading the client's request.
    ReadingRequest,
    /// Waiting for the request's destination to be resolved.
    Resolving,
    /// The destination is the proxy itself; the loop template is going out.
    Looped,
    /// Connecting to the upstream.
    Connecting,
    /// Writing the request upstream.
    SendingRequest,
    /// Reading the upstream's response.
    ReadingResponse,
    /// Writing the response to the client.
    SendingResponse,
    /// The session is over.
    Closed,
}

/// One accepted client connection, from its request to its close.
pub struct Session {
    /// The proxy's own listening address.
    pub server_address: SocketAddress,
    pub phase: Phase,
    /// The client's request as read so far.
    pub request: StreamReader,
    /// The upstream's response as read so far.
    pub response: StreamReader,
}

/// Whether a session in phase `p` takes event `e`: each phase takes what can
/// come of the action that led to it.
pub open spec fn takes(p: Phase, e: Event) -> bool {
    match p {
        Phase::ReadingRequest | Phase::ReadingResponse => e matches Event::Received(c)
            && c@.len() <= CHUNK_SIZE || e is IoFailed,
        Phase::Resolving => e is Resolved || e is ResolveFailed,
        Phase::Looped | Phase::Connecting | Phase::SendingRequest | Phase::SendingResponse => e is Completed
            || e is IoFailed,
        Phase::Closed => false,
    }
}

/// The session ends with `outcome`.
pub open spec fn finishes(post: Session, a: Action, outcome: Result<(), ClientError>) -> bool {
    post.phase == Phase::Closed && a == Action::Finish(outcome)
}

/// What one step does: from `pre`, on event `e`, to `post` with action `a`.
pub open spec fn step_spec(pre: Session, post: Session, e: Event, a: Action) -> bool {
    &&& post.server_address == pre.server_address
    &&& match e {
        Event::IoFailed => finishes(post, a, Err(ClientError::IOError)),
        Event::Received(c) => if !valid_utf8(c@) {
            finishes(post, a, Err(ClientError::Utf8DecodeError))
        } else if pre.phase == Phase::ReadingRequest {
            &&& post.request.bytes@ == pre.request.bytes@ + c@
            &&& post.request.text@ == pre.request.text@ + vstd::utf8::decode_utf8(c@)
            &&& if c@.len() == CHUNK_SIZE {
                post.phase == Phase::ReadingRequest && a is ReadClient
            } else {
                match host_target(post.request.text@) {
                    Ok((h, p)) => post.phase == Phase::Resolving && (a matches Action::Resolve(
                        hs,
                        ps,
                    ) && hs@ == h && ps == p),
                    Err(err) => finishes(post, a, Err(err)),
                }
            }
        } else {
            &&& post.request.bytes@ == pre.request.bytes@
            &&& post.response.bytes@ == pre.response.bytes@ + c@
            &&& if c@.len() == CHUNK_SIZE {
                post.phase == Phase::ReadingResponse && a is ReadUpstream
            } else {
                post.phase == Phase::SendingResponse && (a matches Action::WriteClient(b) && b@
                    == post.response.bytes@)
            }
        },
        Event::ResolveFailed => finishes(post, a, Err(ClientError::ResolutionError)),
        Event::Resolved(None) => finishes(post, a, Err(ClientError::NoHostFound)),
        Event::Resolved(Some(addr)) => {
            &&& post.request.bytes@ == pre.request.bytes@
            &&& if same_endpoint(addr, pre.server_address) {
                post.phase == Phase::Looped && (a matches Action::SendTemplate(name) && name@
                    == loop_template())
            } else {
                post.phase == Phase::Connecting && a == Action::Connect(addr)
            }
        },
        Event::Completed => match pre.phase {
            Phase::Looped => finishes(post, a, Err(ClientError::SelfRequested)),
            Phase::Connecting => {
                &&& post.phase == Phase::SendingRequest
                &&& post.request.bytes@ == pre.request.bytes@
                &&& a matches Action::WriteUpstream(b) && b@ == pre.request.bytes@
            },
            Phase::SendingRequest => {
                &&& post.phase == Phase::ReadingResponse
                &&& post.request.bytes@ == pre.request.bytes@
                &&& post.response.bytes@ == Seq::<u8>::empty()
                &&& a is ReadUpstream
            },
            _ => finishes(post, a, Ok(())),
        },
    }
}

/// The bytes that a read returned, where `e` is a read.
pub open spec fn received(e: Event) -> Option<Seq<u8>> {
    match e {
        Event::Received(c) => Some(c@),
        _ => None,
    }
}

/// The bytes of `chunks`, one after another.
pub open spec fn concat(chunks: Seq<Seq<u8>>) -> Seq<u8>
    decreases chunks.len(),
{
    if chunks.len() == 0 {
        Seq::<u8>::empty()
    } else {
        concat(chunks.drop_last()) + chunks.last()
    }
}

/// A request whose destination resolves to the proxy's own listening address
/// (the same IP address and port) is never forwarded, whatever it holds: the session sends the loop template
/// to the client and then ends, as self-requested once the template went out
/// (as an I/O failure where it could not be sent), without any connection
/// upstream.
pub proof fn lemma_self_address_is_never_forwarded(
    addr: SocketAddress,
    s0: Session,
    s1: Session,
    s2: Session,
    e: Event,
    a1: Action,
    a2: Action,
)
    requires
        s0.phase == Phase::Resolving,
        same_endpoint(addr, s0.server_address),
        step_spec(s0, s1, Event::Resolved(Some(addr)), a1),
        takes(s1.phase, e),
        step_spec(s1, s2, e, a2),
    ensures
        a1 matches Action::SendTemplate(name) && name@ == loop_template(),
        s2.phase == Phase::Closed,
        e is Completed ==> a2 == Action::Finish(Err(ClientError::SelfRequested)),
        e is IoFailed ==> a2 == Action::Finish(Err(ClientError::IOError)),
        !(a1 is Connect) && !(a2 is Connect) && !(a2 is WriteUpstream),
{
}

/// The reads of a response after the request went upstream: every chunk but
/// the last fills a read, all decode, and the session keeps reading.
proof fn lemma_response_prefix(
    ss: Seq<Session>,
    es: Seq<Event>,
    acts: Seq<Action>,
    chunks: Seq<Seq<u8>>,
    k: int,
)
    requires
        ss.len() == es.len() + 1,
        acts.len() == es.len(),
        es.len() == chunks.len() + 2,
        ss[0].phase == Phase::Connecting,
        es[0] == Event::Completed,
        es[1] == Event::Completed,
        forall|i: int| 0 <= i < chunks.len() ==> received(es[i + 2]) == Some(#[trigger] chunks[i]),
        forall|i: int| 0 <= i < chunks.len() ==> valid_utf8(#[trigger] chunks[i]),
        forall|i: int| 0 <= i < chunks.len() - 1 ==> (#[trigger] chunks[i]).len() == CHUNK_SIZE,
        forall|i: int| 0 <= i < es.len() ==> step_spec(ss[i], ss[i + 1], es[i], acts[i]),
        0 <= k < chunks.len(),
    ensures
        ss[k + 2].phase == Phase::ReadingResponse,
        ss[k + 2].response.bytes@ == concat(chunks.take(k)),
        acts[k + 1] is ReadUpstream,
    decreases k,
{
    if k == 0 {
        assert(step_spec(ss[0], ss[1], es[0], acts[0]));
        assert(step_spec(ss[1], ss[2], es[1], acts[1]));
        assert(chunks.take(0) =~= Seq::<Seq<u8>>::empty());
    } else {
        lemma_response_prefix(ss, es, acts, chunks, k - 1);
        assert(step_spec(ss[k + 1], ss[k + 2], es[k + 1], acts[k + 1]));
        assert(valid_utf8(chunks[k - 1]));
        assert(chunks[k - 1].len() == CHUNK_SIZE);
        assert(chunks.take(k).drop_last() =~= chunks.take(k - 1));
    }
}

/// Once the request went upstream, the client gets the upstream's bytes
/// unchanged: the request's own bytes are written upstream, and a response
/// that comes back as chunks (each decodable, each but the last a full read)
/// is written to the client as exactly their concatenation. So an upstream
/// that echoes the request makes the client receive the request's bytes.
pub proof fn lemma_response_relayed_verbatim(
    ss: Seq<Session>,
    es: Seq<Event>,
    acts: Seq<Action>,
    chunks: Seq<Seq<u8>>,
)
    requires
        ss.len() == es.len() + 1,
        acts.len() == es.len(),
        es.len() == chunks.len() + 2,
        chunks.len() > 0,
        ss[0].phase == Phase::Connecting,
        es[0] == Event::Completed,
        es[1] == Event::Completed,
        forall|i: int| 0 <= i < chunks.len() ==> received(es[i + 2]) == Some(#[trigger] chunks[i]),
        forall|i: int| 0 <= i < chunks.len() ==> valid_utf8(#[trigger] chunks[i]),
        forall|i: int| 0 <= i < chunks.len() - 1 ==> (#[trigger] chunks[i]).len() == CHUNK_SIZE,
        chunks.last().len() < CHUNK_SIZE,
        forall|i: int| 0 <= i < es.len() ==> step_spec(ss[i], ss[i + 1], es[i], acts[i]),
    ensures
        acts[0] matches Action::WriteUpstream(b) && b@ == ss[0].request.bytes@,
        acts.last() matches Action::WriteClient(b) && b@ == concat(chunks),
        concat(chunks) == ss[0].request.bytes@ ==> (acts.last() matches Action::WriteClient(b)
            && b@ == ss[0].request.bytes@),
{
    let n = chunks.len() as int;
    assert(step_spec(ss[0], ss[1], es[0], acts[0]));
    lemma_response_prefix(ss, es, acts, chunks, n - 1);
    assert(step_spec(ss[n + 1], ss[n + 2], es[n + 1], acts[n + 1]));
    assert(valid_utf8(chunks[n - 1]));
    assert(chunks.drop_last() =~= chunks.take(n - 1));
}

impl Session {
    /// A session for a client that has just been accepted; its first action
    /// is to read the client's request.
    pub fn new(server_address: SocketAddress) -> (r: Session)
        ensures
            r.server_address == server_address,
            r.phase == Phase::ReadingRequest,
            r.request.bytes@ == Seq::<u8>::empty(),
            r.request.text@ == Seq::<char>::empty(),
    {
        Session {
            server_address,
            phase: Phase::ReadingRequest,
            request: StreamReader::new(),
            response: StreamReader::new(),
        }
    }

    /// Whether the session, where it stands, takes `e`.
    pub fn takes(&self, e: &Event) -> (r: bool)
        ensures
            r == takes(self.phase, *e),
    {
        match self.phase {
            Phase::ReadingRequest | Phase::ReadingResponse => match e {
                Event::Received(c) => c.len() <= CHUNK_SIZE,
                Event::IoFailed => true,
                _ => false,
            },
            Phase::Resolving => match e {
                Event::Resolved(_) | Event::ResolveFailed => true,
                _ => false,
            },
            Phase::Looped | Phase::Connecting | Phase::SendingRequest | Phase::SendingResponse => {
                match e {
                    Event::Completed | Event::IoFailed => true,
                    _ => false,
                }
            },
            Phase::Closed => false,
        }
    }

    fn finish(&mut self, outcome: Result<(), ClientError>) -> (a: Action)
        ensures
            final(self).server_address == old(self).server_address,
            final(self).request == old(self).request,
            final(self).response == old(self).response,
            finishes(*final(self), a, outcome),
    {
        self.phase = Phase::Closed;
        Action::Finish(outcome)
    }

    /// Moves the session on by one event and says what to do next.
    pub fn step(&mut self, e: Event) -> (a: Action)
        requires
            takes(old(self).phase, e),
        ensures
            step_spec(*old(self), *final(self), e, a),
    {
        match e {
            Event::IoFailed => self.finish(Err(ClientError::IOError)),
            Event::Received(c) => {
                if self.phase == Phase::ReadingRequest {
                    match self.request.feed(c.as_slice()) {
                        Err(err) => self.finish(Err(err)),
                        Ok(ReadStatus::More) => Action::ReadClient,
                        Ok(ReadStatus::Complete) => match get_host(&self.request.text) {
                            Ok((host, port)) => {
                                self.phase = Phase::Resolving;
                                Action::Resolve(host, port)
                            },
                            Err(err) => self.finish(Err(err)),
                        },
                    }
                } else {
                    match self.response.feed(c.as_slice()) {
                        Err(err) => self.finish(Err(err)),
                        Ok(ReadStatus::More) => Action::ReadUpstream,
                        Ok(ReadStatus::Complete) => {
                            self.phase = Phase::SendingResponse;
                            Action::WriteClient(self.response.bytes.clone())
                        },
                    }
                }
            },
            Event::ResolveFailed => self.finish(Err(ClientError::ResolutionError)),
            Event::Resolved(None) => self.finish(Err(ClientError::NoHostFound)),
            Event::Resolved(Some(addr)) => {
                if addr.same_endpoint(&self.server_address) {
                    self.phase = Phase::Looped;
                    let name = String::from_str("error508");
                    proof {
                        reveal_strlit("error508");
                    }
                    assert(name@ =~= loop_template());
                    Action::SendTemplate(name)
                } else {
                    self.phase = Phase::Connecting;
                    Action::Connect(addr)
                }
            },
            Event::Completed => match self.phase {
                Phase::Looped => self.finish(Err(ClientError::SelfRequested)),
                Phase::Connecting => {
                    self.phase = Phase::SendingRequest;
                    Action::WriteUpstream(self.request.bytes.clone())
                },
                Phase::SendingRequest => {
                    self.phase = Phase::ReadingResponse;
                    self.response = StreamReader::new();
                    Action::ReadUpstream
                },
                _ => self.finish(Ok(())),
            },
        }
    }
}

} // verus!
