//! The per-connection state machine: it takes frames and cancellation, and
//! says what to send back.
use vstd::prelude::*;
use crate::error::{DIDError, ErrorKind};
use crate::reqres::{
    header_of, lemma_split_first, parse_frame, response_frame, size_ok, DIDIdentity, DIDRequest,
    DIDResponse, RequestView,
};
use crate::text::{
    chars_of, dec_value, find_char, lemma_split_nonempty, parse_dec, split, split_bounds,
};
use crate::verbs::{verb_of, ReqVerb};

verus! {

/// Where a connection stands.
#[derive(PartialEq, Eq, Structural, Clone, Copy, Debug)]
pub enum ConnState {
    AwaitingInitialFrame,
    Established,
    Closed,
}

/// What the connection does after an event.
pub enum HandlerAction {
    /// Write this frame to the peer.
    Reply(String),
    /// Discard the frame, report why, and keep waiting.
    Reject(ErrorKind),
    /// Release the socket and stop.
    Close,
}

/// A connection's state and the request it last accepted.
pub struct HandlerView {
    pub state: ConnState,
    pub latest: Option<RequestView>,
}

/// The state after a cancellation: closed, with the last request kept.
pub open spec fn cancel_step(v: HandlerView) -> HandlerView {
    HandlerView { state: ConnState::Closed, latest: v.latest }
}

/// Signalling cancellation twice leaves the connection as once does.
pub proof fn lemma_cancel_idempotent(v: HandlerView)
    ensures
        cancel_step(cancel_step(v)) == cancel_step(v),
{
}

/// The content of every reply.
pub open spec fn ok_content() -> Seq<char> {
    seq!['O', 'K']
}

/// One connection's handler.
pub struct DIDHandler {
    state: ConnState,
    latest_req: Option<DIDRequest>,
}

impl View for DIDHandler {
    type V = HandlerView;

    closed spec fn view(&self) -> HandlerView {
        HandlerView {
            state: self.state,
            latest: match self.latest_req {
                Some(r) => Some(r@),
                None => None,
            },
        }
    }
}

impl DIDHandler {
    /// Established connections hold a request; fresh ones hold none.
    pub open spec fn wf(&self) -> bool {
        &&& self@.state == ConnState::Established ==> self@.latest is Some
        &&& self@.state == ConnState::AwaitingInitialFrame ==> self@.latest is None
    }

    /// A connection that awaits its first frame.
    pub fn new() -> (r: DIDHandler)
        ensures
            r.wf(),
            r@.state == ConnState::AwaitingInitialFrame,
            r@.latest is None,
    {
        DIDHandler { state: ConnState::AwaitingInitialFrame, latest_req: None }
    }

    pub fn state(&self) -> (r: ConnState)
        ensures
            r == self@.state,
    {
        self.state
    }

    /// The request last accepted, if any.
    pub fn latest_request(&self) -> (r: Option<&DIDRequest>)
        ensures
            match r {
                Some(q) => self@.latest == Some(q@),
                None => self@.latest is None,
            },
    {
        match &self.latest_req {
            Some(q) => Some(q),
            None => None,
        }
    }

    /// The reply with content `OK` to `req`.
    pub fn process_latest_request(req: &DIDRequest, identity: &DIDIdentity) -> (r: String)
        ensures
            r@ == response_frame(req@, ok_content()),
    {
        let res = DIDResponse { from_req: req, with_identity: identity, content: "OK".to_string() };
        proof {
            reveal_strlit("OK");
            assert("OK"@ =~= ok_content());
        }
        res.to_string()
    }

    /// Takes one complete frame. A first frame that parses is stored and
    /// answered, and the connection is established; one that does not closes
    /// the connection unanswered. Later, a frame from the same peer address is
    /// answered on behalf of the stored request and then replaces it; a frame
    /// from another address, or one that does not parse, is rejected and
    /// changes nothing.
    pub fn on_frame(&mut self, frame: &str, identity: &DIDIdentity) -> (a: HandlerAction)
        requires
            old(self).wf(),
        ensures
            final(self).wf(),
            match old(self)@.state {
                ConnState::AwaitingInitialFrame => match parse_frame(frame@) {
                    Ok(m) => final(self)@ == (HandlerView {
                        state: ConnState::Established,
                        latest: Some(m),
                    }) && (a matches HandlerAction::Reply(t) && t@ == response_frame(m, ok_content())),
                    Err(_) => final(self)@ == (HandlerView {
                        state: ConnState::Closed,
                        latest: old(self)@.latest,
                    }) && a is Close,
                },
                ConnState::Established => match parse_frame(frame@) {
                    Ok(m) => if m.ip == old(self)@.latest->Some_0.ip {
                        final(self)@ == (HandlerView {
                            state: ConnState::Established,
                            latest: Some(m),
                        }) && (a matches HandlerAction::Reply(t) && t@ == response_frame(
                            old(self)@.latest->Some_0,
                            ok_content(),
                        ))
                    } else {
                        final(self)@ == old(self)@ && (a matches HandlerAction::Reject(k) && k
                            == ErrorKind::IdentityMismatch)
                    },
                    Err(e) => final(self)@ == old(self)@ && (a matches HandlerAction::Reject(k) && k
                        == e),
                },
                ConnState::Closed => final(self)@ == old(self)@ && a is Close,
            },
    {
        match self.state {
            ConnState::AwaitingInitialFrame => match DIDRequest::from_str(frame) {
                Ok(req) => {
                    let reply = DIDHandler::process_latest_request(&req, identity);
                    self.latest_req = Some(req);
                    self.state = ConnState::Established;
                    HandlerAction::Reply(reply)
                },
                Err(_) => {
                    self.state = ConnState::Closed;
                    HandlerAction::Close
                },
            },
            ConnState::Established => match DIDRequest::from_str(frame) {
                Ok(req) => {
                    match &self.latest_req {
                        Some(latest) => {
                            if req.ip != latest.ip {
                                HandlerAction::Reject(ErrorKind::IdentityMismatch)
                            } else {
                                let reply = DIDHandler::process_latest_request(latest, identity);
                                self.latest_req = Some(req);
                                HandlerAction::Reply(reply)
                            }
                        },
                        None => HandlerAction::Close,
                    }
                },
                Err(e) => HandlerAction::Reject(e.kind),
            },
            ConnState::Closed => HandlerAction::Close,
        }
    }

    /// Cancellation (eviction, or a failed read or write): the connection closes.
    pub fn cancel(&mut self)
        requires
            old(self).wf(),
        ensures
            final(self).wf(),
            final(self)@ == cancel_step(old(self)@),
    {
        self.state = ConnState::Closed;
    }

    /// The comma-separated fields of a header line.
    pub fn parse_req_header(header: &str) -> (r: Vec<String>)
        ensures
            r@.len() == split(header@, ',').len(),
            forall|i: int| 0 <= i < r@.len() ==> (#[trigger] r@[i])@ == split(header@, ',')[i],
    {
        let v = chars_of(header);
        assert(v@.subrange(0, v@.len() as int) =~= header@);
        let b = split_bounds(&v, 0, v.len(), ',');
        let mut r: Vec<String> = Vec::new();
        let mut i: usize = 0;
        while i < b.len()
            invariant
                v@ == header@,
                b@.len() == split(header@, ',').len(),
                forall|k: int|
                    0 <= k < b@.len() ==> (#[trigger] b@[k]).0 <= b@[k].1 <= v@.len() && v@.subrange(
                        b@[k].0 as int,
                        b@[k].1 as int,
                    ) == split(header@, ',')[k],
                0 <= i <= b@.len(),
                r@.len() == i,
                forall|k: int| 0 <= k < i ==> (#[trigger] r@[k])@ == split(header@, ',')[k],
            decreases b@.len() - i,
        {
            r.push(header.substring_char(b[i].0, b[i].1).to_string());
            i = i + 1;
        }
        r
    }

    /// The verb of a header line: its first field, read as a verb.
    pub fn get_header_method(header: &str) -> (r: Result<ReqVerb, DIDError>)
        ensures
            verb_of(split(header@, ',')[0]) matches Some(v) ==> (r matches Ok(w) && w == v),
            verb_of(split(header@, ',')[0]) is None ==> (r matches Err(e) && e.kind
                == ErrorKind::UnknownVerb),
    {
        proof {
            lemma_split_nonempty(header@, ',');
        }
        let items = DIDHandler::parse_req_header(header);
        ReqVerb::from_str(items[0].as_str())
    }
}

/// The size that the header line of `s` declares: its last field, where the
/// line has at least four fields and that one is a number.
pub open spec fn declared_size(s: Seq<char>) -> Option<nat> {
    let f = split(header_of(s), ',');
    if f.len() >= 4 && size_ok(f.last()) {
        Some(dec_value(f.last()))
    } else {
        None
    }
}

/// The size that the header line at the start of `s` declares, if any: how
/// much of the frame must be read in all.
pub fn expected_size(s: &str) -> (r: Option<usize>)
    ensures
        match declared_size(s@) {
            Some(n) => r == Some(n as usize),
            None => r is None,
        },
{
    let v = chars_of(s);
    let k = find_char(&v, 0, v.len(), '\n');
    proof {
        lemma_split_first(s@, '\n', k as int);
    }
    let b = split_bounds(&v, 0, k, ',');
    if b.len() < 4 {
        return None;
    }
    let last = b[b.len() - 1];
    parse_dec(&v, last.0, last.1)
}

/// How many bytes the frame whose header line has been read (`s`, `read`
/// bytes so far, up to and with the newline) takes in all: the size that the
/// header declares, or, where it declares none, just what was read, so that
/// the frame ends with its header line.
pub fn frame_target(s: &str, read: usize) -> (r: usize)
    ensures
        match declared_size(s@) {
            Some(n) => r == n,
            None => r == read,
        },
{
    match expected_size(s) {
        Some(n) => n,
        None => read,
    }
}

} // verus!
