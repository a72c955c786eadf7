use proto_did::error::ErrorKind;
use proto_did::handler::{expected_size, frame_target, ConnState, DIDHandler, HandlerAction};
use proto_did::ipv4::Ipv4;
use proto_did::registry::{SockCache, SockCacheEntry};
use proto_did::reqres::DIDIdentity;
use proto_did::server::DIDServer;
use proto_did::verbs::ReqVerb;

fn identity() -> DIDIdentity {
    DIDIdentity { did: "imapotato".to_string() }
}

fn reply(a: HandlerAction) -> String {
    match a {
        HandlerAction::Reply(s) => s,
        _ => panic!("expected a reply"),
    }
}

#[test]
fn initial_handshake() {
    let mut h = DIDHandler::new();
    let a = h.on_frame("PREFLIGHT,peer1,10.0.0.5,29\n\n", &identity());
    assert_eq!(reply(a), "PREFLIGHT,peer1,10.0.0.5,31\n\nOK");
    assert_eq!(h.state(), ConnState::Established);
    assert_eq!(h.latest_request().unwrap().did, "peer1");
}

#[test]
fn malformed_initial_frame_closes() {
    let mut h = DIDHandler::new();
    let a = h.on_frame("HELLO,peer1,10.0.0.5,20\n\n", &identity());
    assert!(matches!(a, HandlerAction::Close));
    assert_eq!(h.state(), ConnState::Closed);
    assert!(h.latest_request().is_none());
}

#[test]
fn later_frame_answers_stored_request() {
    let mut h = DIDHandler::new();
    h.on_frame("PREFLIGHT,peer1,10.0.0.5,29\n\n", &identity());
    let a = h.on_frame("WHERE?,peer1,10.0.0.5,31\n\nhello", &identity());
    assert_eq!(reply(a), "PREFLIGHT,peer1,10.0.0.5,31\n\nOK");
    let latest = h.latest_request().unwrap();
    assert_eq!(latest.verb, ReqVerb::Where);
    assert_eq!(latest.body, "hello");
}

#[test]
fn identity_mismatch() {
    let mut h = DIDHandler::new();
    h.on_frame("PREFLIGHT,peer1,10.0.0.5,29\n\n", &identity());
    let a = h.on_frame("DATA,peer1,10.0.0.6,29\n\nhello", &identity());
    assert!(matches!(a, HandlerAction::Reject(ErrorKind::IdentityMismatch)));
    assert_eq!(h.state(), ConnState::Established);
    let latest = h.latest_request().unwrap();
    assert_eq!(latest.verb, ReqVerb::Preflight);
    assert_eq!(latest.ip, Ipv4 { a: 10, b: 0, c: 0, d: 5 });
}

#[test]
fn parse_error_keeps_connection() {
    let mut h = DIDHandler::new();
    h.on_frame("PREFLIGHT,peer1,10.0.0.5,29\n\n", &identity());
    let a = h.on_frame("DATA,peer1,bad,29\n\n", &identity());
    assert!(matches!(a, HandlerAction::Reject(ErrorKind::MalformedAddress)));
    assert_eq!(h.state(), ConnState::Established);
    assert_eq!(h.latest_request().unwrap().verb, ReqVerb::Preflight);
}

#[test]
fn cancel_twice_is_cancel_once() {
    let mut once = DIDHandler::new();
    once.on_frame("PREFLIGHT,peer1,10.0.0.5,29\n\n", &identity());
    let mut twice = DIDHandler::new();
    twice.on_frame("PREFLIGHT,peer1,10.0.0.5,29\n\n", &identity());
    once.cancel();
    twice.cancel();
    twice.cancel();
    assert_eq!(once.state(), ConnState::Closed);
    assert_eq!(twice.state(), ConnState::Closed);
    assert_eq!(once.latest_request().unwrap().did, twice.latest_request().unwrap().did);
    assert!(matches!(twice.on_frame("PREFLIGHT,peer1,10.0.0.5,29\n\n", &identity()), HandlerAction::Close));
}

#[test]
fn header_helpers() {
    let f = DIDHandler::parse_req_header("WHERE?,peer1,10.0.0.5,37");
    assert_eq!(f, vec!["WHERE?", "peer1", "10.0.0.5", "37"]);
    assert_eq!(DIDHandler::parse_req_header(""), vec![""]);
    assert_eq!(DIDHandler::get_header_method("WHERE!,x").unwrap(), ReqVerb::WhereStorage);
    assert_eq!(DIDHandler::get_header_method("GET / HTTP/1.1").unwrap_err().kind, ErrorKind::UnknownVerb);
}

#[test]
fn expected_size_of_header() {
    assert_eq!(expected_size("WHERE?,peer1,10.0.0.5,37\n"), Some(37));
    assert_eq!(expected_size("WHERE?,did://h/p,peer1,10.0.0.5,45\n\nbody"), Some(45));
    assert_eq!(expected_size("WHERE?,peer1,10.0.0.5\n"), None);
    assert_eq!(expected_size("WHERE?,peer1,10.0.0.5,x\n"), None);
}

fn entry(id: u64, t: u128) -> SockCacheEntry<u64> {
    SockCacheEntry { id, created_at: t, channel_sender: id * 10 }
}

#[test]
fn eviction_scenario() {
    let mut c: SockCache<u64> = SockCache::new(4);
    assert!(c.register(entry(1, 100)).is_none());
    assert!(c.register(entry(2, 200)).is_none());
    assert!(c.register(entry(3, 300)).is_none());
    let ev = c.register(entry(4, 400)).unwrap();
    assert_eq!(ev.id, 1);
    assert_eq!(ev.channel_sender, 10);
    assert_eq!(c.len(), 3);
}

#[test]
fn eviction_takes_true_minimum() {
    let mut c: SockCache<u64> = SockCache::new(4);
    c.register(entry(1, 300));
    c.register(entry(2, 100));
    c.register(entry(3, 200));
    assert_eq!(c.register(entry(4, 400)).unwrap().id, 2);
    assert_eq!(c.register(entry(5, 500)).unwrap().id, 3);
}

#[test]
fn eviction_ties_go_to_earliest_inserted() {
    let mut c: SockCache<u64> = SockCache::new(3);
    c.register(entry(1, 100));
    c.register(entry(2, 100));
    assert_eq!(c.register(entry(3, 100)).unwrap().id, 1);
}

#[test]
fn ceiling_never_exceeded() {
    let mut c: SockCache<u64> = SockCache::new(5);
    assert_eq!(c.ceiling_exec(), 4);
    for i in 0..50u64 {
        c.register(entry(i, (i as u128) * 7 % 13));
        assert!(c.len() <= 4);
    }
}

#[test]
fn unregister_is_idempotent() {
    let mut c: SockCache<u64> = SockCache::new(4);
    c.register(entry(1, 100));
    c.register(entry(2, 200));
    assert!(c.unregister(1));
    assert!(!c.unregister(1));
    assert_eq!(c.len(), 1);
    assert!(!c.unregister(9));
}

#[test]
fn server_configuration() {
    let mut s: DIDServer<u8> = DIDServer::build();
    assert_eq!(s.port, 5173);
    assert_eq!(s.identity.did, "imapotato");
    assert!(s.http_enabled && s.did_enabled);
    s.set_port(5000).add_route(ReqVerb::Where, "/", 7);
    assert_eq!(s.port, 5000);
    assert_eq!(s.routes.len(), 1);
    assert_eq!(s.routes[0].0.path.as_deref(), Some("/"));
    assert_eq!(s.routes[0].0.verb, ReqVerb::Where);
    assert_eq!(s.routes[0].1, 7);
}

#[test]
fn same_route_replaces_handler() {
    let mut s: DIDServer<u8> = DIDServer::build();
    s.add_route(ReqVerb::Where, "/", 1).add_route(ReqVerb::Data, "/", 2).add_route(ReqVerb::Where, "/a", 3);
    s.add_route(ReqVerb::Where, "/", 9);
    assert_eq!(s.routes.len(), 3);
    assert_eq!(s.routes[0].0.verb, ReqVerb::Where);
    assert_eq!(s.routes[0].0.path.as_deref(), Some("/"));
    assert_eq!(s.routes[0].1, 9);
    assert_eq!(s.routes[1].1, 2);
    assert_eq!(s.routes[2].1, 3);
}

#[test]
fn frame_target_falls_back_to_header() {
    assert_eq!(frame_target("WHERE?,peer1,10.0.0.5,37\n", 25), 37);
    assert_eq!(frame_target("WHERE?,peer1,10.0.0.5\n", 22), 22);
}
