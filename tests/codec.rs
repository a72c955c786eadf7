use proto_did::error::ErrorKind;
use proto_did::ipv4::Ipv4;
use proto_did::reqres::{DIDIdentity, DIDRequest, DIDResponse};
use proto_did::uri::DIDUri;
use proto_did::verbs::ReqVerb;

fn ip(a: u8, b: u8, c: u8, d: u8) -> Ipv4 {
    Ipv4 { a, b, c, d }
}

fn request(verb: ReqVerb, url: Option<&str>, did: &str, body: &str) -> DIDRequest {
    DIDRequest {
        url: url.map(|u| u.to_string()),
        verb,
        did: did.to_string(),
        req_size: 0,
        ip: ip(10, 0, 0, 5),
        body: body.to_string(),
    }
}

#[test]
fn verb_tokens_round_trip() {
    for v in [ReqVerb::Preflight, ReqVerb::Where, ReqVerb::WhereStorage, ReqVerb::HashData, ReqVerb::Data] {
        assert_eq!(ReqVerb::from_str(v.as_str()).unwrap(), v);
    }
    assert_eq!(ReqVerb::Where.to_string(), "WHERE?");
    assert_eq!(ReqVerb::HashData.as_str(), "#DATA");
}

#[test]
fn unknown_verb_is_rejected() {
    let e = ReqVerb::from_str("WHERE").unwrap_err();
    assert_eq!(e.kind, ErrorKind::UnknownVerb);
    assert_eq!(ReqVerb::from_str("data").unwrap_err().kind, ErrorKind::UnknownVerb);
}

#[test]
fn ipv4_parsing() {
    assert_eq!(Ipv4::from_str("10.0.0.5"), Some(ip(10, 0, 0, 5)));
    assert_eq!(Ipv4::from_str("255.255.255.255"), Some(ip(255, 255, 255, 255)));
    assert_eq!(Ipv4::from_str("256.0.0.1"), None);
    assert_eq!(Ipv4::from_str("01.0.0.1"), None);
    assert_eq!(Ipv4::from_str("1.2.3"), None);
    assert_eq!(Ipv4::from_str("1.2.3.4.5"), None);
    assert_eq!(Ipv4::from_str(""), None);
    assert_eq!(ip(192, 168, 1, 20).to_string(), "192.168.1.20");
}

#[test]
fn verb_round_trip_scenario() {
    let r = DIDRequest::from_str("WHERE?,peer1,10.0.0.5,37\n\nhello").unwrap();
    assert_eq!(r.verb, ReqVerb::Where);
    assert_eq!(r.did, "peer1");
    assert_eq!(r.ip, ip(10, 0, 0, 5));
    assert_eq!(r.body, "hello");
    assert_eq!(r.req_size, 37);
    assert!(r.url.is_none());
}

#[test]
fn format_request_exact() {
    let r = request(ReqVerb::Preflight, None, "peer1", "");
    assert_eq!(r.to_string(), "PREFLIGHT,peer1,10.0.0.5,29\n\n");
    let r = request(ReqVerb::Data, None, "peer1", "hello");
    // 4 + 5 + 8 + 5 + 5 = 27, plus two digits
    assert_eq!(r.to_string(), "DATA,peer1,10.0.0.5,29\n\nhello");
}

#[test]
fn frame_size_counts_bytes() {
    let r = request(ReqVerb::Data, None, "peer1", "héllo");
    let s = r.to_string();
    assert_eq!(s, "DATA,peer1,10.0.0.5,30\n\nhéllo");
    assert_eq!(s.len(), 30);
}

#[test]
fn frame_size_equals_length() {
    for body in ["", "a", "hello", "a somewhat longer body of text", &"x".repeat(500)] {
        let r = request(ReqVerb::WhereStorage, None, "peer1", body);
        let s = r.to_string();
        let back = DIDRequest::from_str(&s).unwrap();
        assert_eq!(back.req_size, s.len());
    }
}

#[test]
fn frame_size_width_change() {
    // 4 + 5 + 8 + 5 + 76 = 98 without the size field; the closed form declares 100
    // while the frame is 101 bytes long.
    let body = "y".repeat(76);
    let r = request(ReqVerb::Data, None, "peer1", &body);
    let s = r.to_string();
    assert!(s.starts_with("DATA,peer1,10.0.0.5,100\n\n"));
    assert_eq!(s.len(), 101);
}

#[test]
fn round_trip_with_reference() {
    let r = request(ReqVerb::Where, Some("did://10.0.0.5/path"), "peer1", "body,with\ncommas");
    let s = r.to_string();
    assert!(s.starts_with("WHERE?,did://10.0.0.5/path,peer1,10.0.0.5,"));
    let back = DIDRequest::from_str(&s).unwrap();
    assert_eq!(back.verb, ReqVerb::Where);
    assert_eq!(back.url.as_deref(), Some("did://10.0.0.5/path"));
    assert_eq!(back.did, "peer1");
    assert_eq!(back.ip, ip(10, 0, 0, 5));
    assert_eq!(back.body, "body,with\ncommas");
    assert_eq!(back.req_size, s.len());
}

#[test]
fn reference_is_serialized_by_url_parser() {
    let r = DIDRequest::from_str("DATA,HTTPS://Example.net,peer1,10.0.0.5,50\n\nx").unwrap();
    assert_eq!(r.url.as_deref(), Some("https://example.net/"));
    assert_eq!(r.did, "peer1");
}

#[test]
fn round_trip_without_reference() {
    let r = request(ReqVerb::HashData, None, "some-peer", "payload");
    let back = DIDRequest::from_str(&r.to_string()).unwrap();
    assert_eq!(back.verb, ReqVerb::HashData);
    assert!(back.url.is_none());
    assert_eq!(back.did, "some-peer");
    assert_eq!(back.body, "payload");
}

#[test]
fn parse_errors() {
    assert_eq!(DIDRequest::from_str("NOPE,peer1,10.0.0.5,20\n\n").unwrap_err().kind, ErrorKind::UnknownVerb);
    assert_eq!(DIDRequest::from_str("").unwrap_err().kind, ErrorKind::UnknownVerb);
    assert_eq!(DIDRequest::from_str("DATA,peer1\n\n").unwrap_err().kind, ErrorKind::TruncatedHeader);
    assert_eq!(DIDRequest::from_str("DATA").unwrap_err().kind, ErrorKind::TruncatedHeader);
    assert_eq!(
        DIDRequest::from_str("DATA,peer1,10.0.0.300,20\n\n").unwrap_err().kind,
        ErrorKind::MalformedAddress
    );
    assert_eq!(DIDRequest::from_str("DATA,peer1,10.0.0.5,2x\n\n").unwrap_err().kind, ErrorKind::MalformedSize);
    assert_eq!(DIDRequest::from_str("DATA,peer1,10.0.0.5,\n\n").unwrap_err().kind, ErrorKind::MalformedSize);
}

#[test]
fn missing_size_defaults_to_zero() {
    let r = DIDRequest::from_str("DATA,peer1,10.0.0.5").unwrap();
    assert_eq!(r.req_size, 0);
    assert_eq!(r.body, "");
}

#[test]
fn response_echoes_request() {
    let req = DIDRequest::from_str("PREFLIGHT,peer1,10.0.0.5,29\n\n").unwrap();
    let id = DIDIdentity { did: "server".to_string() };
    let res = DIDResponse { from_req: &req, with_identity: &id, content: "OK".to_string() };
    assert_eq!(res.to_string(), "PREFLIGHT,peer1,10.0.0.5,31\n\nOK");
}

#[test]
fn locators() {
    let a = DIDUri::absolute(ReqVerb::Where, "did://host/a/b").unwrap();
    assert_eq!(a.url.as_deref(), Some("did://host/a/b"));
    assert!(a.path.is_none());
    assert_eq!(a.to_string(), "WHERE? did://host/a/b");
    assert!(DIDUri::absolute(ReqVerb::Where, "/relative").is_none());
    let r = DIDUri::relative(ReqVerb::Data, "/index");
    assert_eq!(r.to_string(), "DATA /index");
}
