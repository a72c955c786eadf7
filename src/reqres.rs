//! Requests and responses, and their wire form:
//! `VERB,[REFERENCE,]PEER_ID,PEER_IP,SIZE\n\nBODY`.
use vstd::prelude::*;
use crate::error::{DIDError, ErrorKind};
use crate::ipv4::{ip_parse, ip_text, lemma_ip_text, lemma_no_comma_newline, Ipv4};
use crate::text::{
    all_digits, byte_len, chars_of, dec, dec_value, find_char, join, lemma_ascii_byte_len,
    lemma_byte_len_concat, lemma_dec, lemma_digits_ascii, lemma_no_sep_in_digits, lemma_split_concat,
    lemma_split_join, lemma_split_no_sep, parse_dec, push_dec, split, split_bounds, utf8_len,
};
use crate::uri::{parse_url, url_parse};
use crate::verbs::{lemma_verb_token, verb_of, verb_token, ReqVerb};

verus! {

/// The server's own peer identifier.
#[derive(Clone)]
pub struct DIDIdentity {
    pub did: String,
}

/// One request, as parsed from a frame.
#[derive(Debug)]
pub struct DIDRequest {
    pub url: Option<String>,
    pub verb: ReqVerb,
    pub did: String,
    pub req_size: usize,
    pub ip: Ipv4,
    pub body: String,
}

/// What a request holds, as plain values.
pub struct RequestView {
    pub url: Option<Seq<char>>,
    pub verb: ReqVerb,
    pub did: Seq<char>,
    pub req_size: nat,
    pub ip: Ipv4,
    pub body: Seq<char>,
}

impl View for DIDRequest {
    type V = RequestView;

    open spec fn view(&self) -> RequestView {
        RequestView {
            url: opt_view(self.url),
            verb: self.verb,
            did: self.did@,
            req_size: self.req_size as nat,
            ip: self.ip,
            body: self.body@,
        }
    }
}

/// The view of an optional string.
pub open spec fn opt_view(o: Option<String>) -> Option<Seq<char>> {
    match o {
        Some(u) => Some(u@),
        None => None,
    }
}

/// The length in bytes of the reference field with its comma, or zero.
pub open spec fn url_field_len(url: Option<Seq<char>>) -> nat {
    match url {
        Some(u) => byte_len(u) + 1,
        None => 0,
    }
}

/// The frame's length in bytes without the size field.
pub open spec fn base_size(
    verb: ReqVerb,
    url: Option<Seq<char>>,
    did: Seq<char>,
    ip: Ipv4,
    content: Seq<char>,
) -> nat {
    byte_len(verb_token(verb)) + url_field_len(url) + byte_len(did) + byte_len(ip_text(ip)) + byte_len(
        content,
    ) + 5
}

/// The size that a frame declares: its length in bytes without the size
/// field, plus the number of digits of that length.
pub open spec fn frame_size(
    verb: ReqVerb,
    url: Option<Seq<char>>,
    did: Seq<char>,
    ip: Ipv4,
    content: Seq<char>,
) -> nat {
    let base = base_size(verb, url, did, ip, content);
    base + dec(base).len()
}

/// The header fields of a frame, in order.
pub open spec fn header_fields(
    verb: ReqVerb,
    url: Option<Seq<char>>,
    did: Seq<char>,
    ip: Ipv4,
    size: nat,
) -> Seq<Seq<char>> {
    match url {
        Some(u) => seq![verb_token(verb), u, did, ip_text(ip), dec(size)],
        None => seq![verb_token(verb), did, ip_text(ip), dec(size)],
    }
}

/// The frame that carries `content` under the header of the other fields.
pub open spec fn frame(
    verb: ReqVerb,
    url: Option<Seq<char>>,
    did: Seq<char>,
    ip: Ipv4,
    content: Seq<char>,
) -> Seq<char> {
    join(header_fields(verb, url, did, ip, frame_size(verb, url, did, ip, content)), ',') + seq![
        '\n',
        '\n',
    ] + content
}

/// The wire form of a request.
pub open spec fn request_frame(r: RequestView) -> Seq<char> {
    frame(r.verb, r.url, r.did, r.ip, r.body)
}

/// The wire form of a response with `content` to the request `r`.
pub open spec fn response_frame(r: RequestView, content: Seq<char>) -> Seq<char> {
    frame(r.verb, r.url, r.did, r.ip, content)
}

/// The header line: what precedes the first newline.
pub open spec fn header_of(s: Seq<char>) -> Seq<char> {
    split(s, '\n')[0]
}

/// What follows the blank line after the header; empty where there is none.
pub open spec fn body_of(s: Seq<char>) -> Seq<char> {
    let k = header_of(s).len() as int;
    if s.len() >= k + 2 && s[k + 1] == '\n' {
        s.subrange(k + 2, s.len() as int)
    } else {
        Seq::<char>::empty()
    }
}

/// A size field: digits for a number that fits in a `usize`.
pub open spec fn size_ok(t: Seq<char>) -> bool {
    t.len() >= 1 && all_digits(t) && dec_value(t) <= usize::MAX
}

/// The request that the frame `s` holds, or why it holds none.
pub open spec fn parse_frame(s: Seq<char>) -> Result<RequestView, ErrorKind> {
    let f = split(header_of(s), ',');
    match verb_of(f[0]) {
        None => Err(ErrorKind::UnknownVerb),
        Some(verb) => {
            let url = if f.len() >= 2 {
                url_parse(f[1])
            } else {
                None
            };
            let rest = if url is Some {
                f.subrange(2, f.len() as int)
            } else {
                f.subrange(1, f.len() as int)
            };
            if rest.len() < 2 {
                Err(ErrorKind::TruncatedHeader)
            } else {
                match ip_parse(rest[1]) {
                    None => Err(ErrorKind::MalformedAddress),
                    Some(ip) => {
                        if rest.len() >= 3 && !size_ok(rest[2]) {
                            Err(ErrorKind::MalformedSize)
                        } else {
                            Ok(
                                RequestView {
                                    url,
                                    verb,
                                    did: rest[0],
                                    req_size: if rest.len() >= 3 {
                                        dec_value(rest[2])
                                    } else {
                                        0
                                    },
                                    ip,
                                    body: body_of(s),
                                },
                            )
                        }
                    },
                }
            }
        },
    }
}

/// A request whose frame parses back to it: its peer identifier and its
/// reference hold no comma or newline, the reference is a URL in the form the
/// URL parser gives, an absent reference leaves no peer identifier that would
/// parse as one, and the declared size fits in a `usize`.
pub open spec fn well_formed(r: RequestView) -> bool {
    &&& !r.did.contains(',')
    &&& !r.did.contains('\n')
    &&& match r.url {
        Some(u) => !u.contains(',') && !u.contains('\n') && url_parse(u) == Some(u),
        None => url_parse(r.did) is None,
    }
    &&& frame_size(r.verb, r.url, r.did, r.ip, r.body) <= usize::MAX
}

/// The first piece of a split is what precedes the first separator.
pub proof fn lemma_split_first(s: Seq<char>, c: char, k: int)
    requires
        0 <= k <= s.len(),
        k < s.len() ==> s[k] == c,
        forall|j: int| 0 <= j < k ==> s[j] != c,
    ensures
        split(s, c)[0] == s.subrange(0, k),
{
    let a = s.subrange(0, k);
    assert(!a.contains(c)) by {
        if a.contains(c) {
            let j = choose|j: int| 0 <= j < a.len() && a[j] == c;
            assert(s[j] == c);
        }
    }
    lemma_split_no_sep(a, c);
    if k < s.len() {
        let b = s.subrange(k + 1, s.len() as int);
        assert(a + seq![c] + b =~= s);
        lemma_split_concat(a, b, c);
    } else {
        assert(a =~= s);
    }
}

proof fn lemma_join_lacks(f: Seq<Seq<char>>, sep: char, c: char)
    requires
        sep != c,
        forall|i: int| 0 <= i < f.len() ==> !(#[trigger] f[i]).contains(c),
    ensures
        !join(f, sep).contains(c),
    decreases f.len(),
{
    if f.len() == 1 {
        assert(!f[0].contains(c));
    } else if f.len() > 1 {
        let g = f.drop_last();
        assert forall|i: int| 0 <= i < g.len() implies !(#[trigger] g[i]).contains(c) by {
            assert(g[i] == f[i]);
        }
        lemma_join_lacks(g, sep, c);
        assert(!f[f.len() - 1].contains(c));
        let j = join(g, sep) + seq![sep] + f.last();
        if j.contains(c) {
            let i = choose|i: int| 0 <= i < j.len() && j[i] == c;
            if i < join(g, sep).len() {
                assert(join(g, sep)[i] == c);
            } else if i > join(g, sep).len() {
                assert(f.last()[i - join(g, sep).len() - 1] == c);
            }
        }
    }
}

proof fn lemma_join4(f: Seq<Seq<char>>, c: char)
    requires
        f.len() == 4,
    ensures
        join(f, c) == f[0] + seq![c] + f[1] + seq![c] + f[2] + seq![c] + f[3],
{
    reveal_with_fuel(join, 4);
    assert(f.drop_last().drop_last().drop_last() =~= seq![f[0]]);
    assert(f.drop_last().drop_last() =~= seq![f[0], f[1]]);
    assert(f.drop_last() =~= seq![f[0], f[1], f[2]]);
}

proof fn lemma_join5(f: Seq<Seq<char>>, c: char)
    requires
        f.len() == 5,
    ensures
        join(f, c) == f[0] + seq![c] + f[1] + seq![c] + f[2] + seq![c] + f[3] + seq![c] + f[4],
{
    lemma_join4(f.drop_last(), c);
    assert(f.drop_last()[3] == f[3]);
}

proof fn lemma_byte_len_char(c: char)
    requires
        c as u32 <= 0x7F,
    ensures
        byte_len(seq![c]) == 1,
{
    lemma_ascii_byte_len(seq![c]);
}

/// The length in bytes of a frame: all but the size field, then the size field.
proof fn lemma_frame_len(
    verb: ReqVerb,
    url: Option<Seq<char>>,
    did: Seq<char>,
    ip: Ipv4,
    content: Seq<char>,
)
    ensures
        byte_len(frame(verb, url, did, ip, content)) == base_size(verb, url, did, ip, content) + dec(
            frame_size(verb, url, did, ip, content),
        ).len(),
{
    let size = frame_size(verb, url, did, ip, content);
    let f = header_fields(verb, url, did, ip, size);
    let c = seq![','];
    let tok = verb_token(verb);
    let d = dec(size);
    lemma_byte_len_char(',');
    lemma_byte_len_char('\n');
    lemma_dec(size);
    lemma_digits_ascii(d);
    lemma_ascii_byte_len(d);
    let nl = seq!['\n', '\n'];
    assert(nl =~= seq!['\n'] + seq!['\n']);
    lemma_byte_len_concat(seq!['\n'], seq!['\n']);
    let ipt = ip_text(ip);
    let tail = did + c + ipt + c + d;
    lemma_byte_len_concat(did, c);
    lemma_byte_len_concat(did + c, ipt);
    lemma_byte_len_concat(did + c + ipt, c);
    lemma_byte_len_concat(did + c + ipt + c, d);
    let head = match url {
        Some(u) => tok + c + u + c,
        None => tok + c,
    };
    lemma_byte_len_concat(tok, c);
    if let Some(u) = url {
        lemma_byte_len_concat(tok + c, u);
        lemma_byte_len_concat(tok + c + u, c);
        lemma_join5(f, ',');
        assert(join(f, ',') =~= head + tail);
    } else {
        lemma_join4(f, ',');
        assert(join(f, ',') =~= head + tail);
    }
    lemma_byte_len_concat(head, tail);
    lemma_byte_len_concat(head + tail, nl);
    lemma_byte_len_concat(head + tail + nl, content);
}

/// The size that a frame declares is its length in bytes, wherever adding the width
/// of the size field to the rest does not widen the size field.
pub proof fn lemma_frame_size(
    verb: ReqVerb,
    url: Option<Seq<char>>,
    did: Seq<char>,
    ip: Ipv4,
    content: Seq<char>,
)
    requires
        dec(base_size(verb, url, did, ip, content)).len() == dec(
            frame_size(verb, url, did, ip, content),
        ).len(),
    ensures
        byte_len(frame(verb, url, did, ip, content)) == frame_size(verb, url, did, ip, content),
{
    lemma_frame_len(verb, url, did, ip, content);
}

/// A well-formed request survives formatting and parsing: verb, reference,
/// peer identifier, peer address and body come back unchanged, and the size
/// read is the size declared.
pub proof fn lemma_round_trip(r: RequestView)
    requires
        well_formed(r),
    ensures
        parse_frame(request_frame(r)) matches Ok(p) && p.verb == r.verb && p.url == r.url && p.did
            == r.did && p.ip == r.ip && p.body == r.body && p.req_size == frame_size(
            r.verb,
            r.url,
            r.did,
            r.ip,
            r.body,
        ),
{
    let size = frame_size(r.verb, r.url, r.did, r.ip, r.body);
    let f = header_fields(r.verb, r.url, r.did, r.ip, size);
    let h = join(f, ',');
    let s = request_frame(r);
    lemma_verb_token(r.verb);
    lemma_ip_text(r.ip);
    lemma_no_comma_newline(ip_text(r.ip));
    lemma_dec(size);
    lemma_no_sep_in_digits(dec(size), ',');
    lemma_no_sep_in_digits(dec(size), '\n');
    assert forall|i: int| 0 <= i < f.len() implies !(#[trigger] f[i]).contains(',') && !f[i].contains(
        '\n',
    ) by {
        if r.url is Some {
            if i == 0 {} else if i == 1 {} else if i == 2 {} else if i == 3 {} else {}
        } else {
            if i == 0 {} else if i == 1 {} else if i == 2 {} else {}
        }
    }
    lemma_join_lacks(f, ',', '\n');
    lemma_split_join(f, ',');
    // the header line ends where the joined fields end
    assert(s == h + seq!['\n', '\n'] + r.body);
    assert forall|j: int| 0 <= j < h.len() implies s[j] != '\n' by {
        assert(s[j] == h[j]);
    }
    lemma_split_first(s, '\n', h.len() as int);
    assert(s.subrange(0, h.len() as int) =~= h);
    assert(header_of(s) == h);
    assert(s[h.len() as int + 1] == '\n');
    assert(s.subrange(h.len() as int + 2, s.len() as int) =~= r.body);
    assert(body_of(s) == r.body);
    let rest = if r.url is Some {
        f.subrange(2, f.len() as int)
    } else {
        f.subrange(1, f.len() as int)
    };
    assert(rest =~= seq![r.did, ip_text(r.ip), dec(size)]);
    assert(size_ok(dec(size)));
}

/// The number of digits of the numeral of `n`.
fn dec_len(n: u128) -> (r: u128)
    ensures
        r == dec(n as nat).len(),
        1 <= r,
        n >= 1 ==> r <= n,
    decreases n,
{
    proof {
        lemma_dec(n as nat);
    }
    if n < 10 {
        1
    } else {
        let r = dec_len(n / 10);
        r + 1
    }
}

/// The size that the frame of these fields declares.
fn size_of_frame(
    verb: ReqVerb,
    url: &Option<String>,
    did: &str,
    ip_str: &str,
    content: &str,
    ip: Ipv4,
) -> (r: u128)
    requires
        ip_str@ == ip_text(ip),
    ensures
        r == frame_size(verb, opt_view(*url), did@, ip, content@),
{
    let url_len: u128 = match url {
        Some(u) => utf8_len(u.as_str()) + 1,
        None => 0,
    };
    let base: u128 = utf8_len(verb.as_str()) + url_len + utf8_len(did) + utf8_len(ip_str) + utf8_len(
        content,
    ) + 5;
    base + dec_len(base)
}

/// Appends the frame that carries `content` under the header of the other fields.
#[verifier::rlimit(40)]
fn push_frame(
    out: &mut String,
    verb: ReqVerb,
    url: &Option<String>,
    did: &str,
    ip: Ipv4,
    content: &str,
)
    ensures
        final(out)@ == old(out)@ + frame(verb, opt_view(*url), did@, ip, content@),
{
    let ghost uv = opt_view(*url);
    let ip_str = ip.to_string();
    let size = size_of_frame(verb, url, did, ip_str.as_str(), content, ip);
    proof {
        reveal_strlit(",");
        reveal_strlit("\n\n");
    }
    out.append(verb.as_str());
    out.append(",");
    match url {
        Some(u) => {
            out.append(u.as_str());
            out.append(",");
        },
        None => {},
    }
    out.append(did);
    out.append(",");
    out.append(ip_str.as_str());
    out.append(",");
    push_dec(out, size);
    out.append("\n\n");
    out.append(content);
    proof {
        let f = header_fields(verb, uv, did@, ip, size as nat);
        if uv is Some {
            lemma_join5(f, ',');
        } else {
            lemma_join4(f, ',');
        }
        assert(final(out)@ =~= old(out)@ + frame(verb, uv, did@, ip, content@));
    }
}

/// Where parse errors say they come from.
const SOURCE: &'static str = "DIDRequest::from_str";

impl DIDRequest {
    /// Parses one frame. Fails with `UnknownVerb` where the first field is no
    /// verb, `TruncatedHeader` where the peer identifier or address is
    /// missing, `MalformedAddress` where the address is no dotted quad, and
    /// `MalformedSize` where a size field is there but is no number.
    pub fn from_str(s: &str) -> (r: Result<DIDRequest, DIDError>)
        ensures
            match parse_frame(s@) {
                Ok(m) => (r matches Ok(q) && q@ == m),
                Err(k) => (r matches Err(e) && e.kind == k),
            },
    {
        let v = chars_of(s);
        let n = v.len();
        let k = find_char(&v, 0, n, '\n');
        proof {
            lemma_split_first(s@, '\n', k as int);
        }
        let ghost h = v@.subrange(0, k as int);
        assert(header_of(s@) == h);
        let body = if n - k >= 2 && v[k + 1] == '\n' {
            s.substring_char(k + 2, n).to_string()
        } else {
            String::new()
        };
        assert(body@ == body_of(s@));
        let b = split_bounds(&v, 0, k, ',');
        let ghost f = split(h, ',');
        proof {
            crate::text::lemma_split_nonempty(h, ',');
        }
        let verb = match ReqVerb::from_chars(&v, b[0].0, b[0].1) {
            Some(x) => x,
            None => {
                return Err(DIDError::new(ErrorKind::UnknownVerb, SOURCE, "unknown verb"));
            },
        };
        let url = if b.len() >= 2 {
            parse_url(s.substring_char(b[1].0, b[1].1))
        } else {
            None
        };
        let ghost url_v: Option<Seq<char>> = if f.len() >= 2 {
            url_parse(f[1])
        } else {
            None
        };
        assert(opt_view(url) == url_v);
        let i0: usize = if url.is_some() {
            2
        } else {
            1
        };
        let ghost rest = f.subrange(i0 as int, f.len() as int);
        if b.len() < i0 + 2 {
            return Err(
                DIDError::new(ErrorKind::TruncatedHeader, SOURCE, "missing fields"),
            );
        }
        assert(rest[1] == f[i0 + 1]);
        let ip = match Ipv4::from_chars(&v, b[i0 + 1].0, b[i0 + 1].1) {
            Some(ip) => ip,
            None => {
                return Err(
                    DIDError::new(ErrorKind::MalformedAddress, SOURCE, "bad peer address"),
                );
            },
        };
        let req_size = if b.len() >= i0 + 3 {
            assert(rest[2] == f[i0 + 2]);
            match parse_dec(&v, b[i0 + 2].0, b[i0 + 2].1) {
                Some(z) => z,
                None => {
                    return Err(
                        DIDError::new(ErrorKind::MalformedSize, SOURCE, "bad frame size"),
                    );
                },
            }
        } else {
            0
        };
        let did = s.substring_char(b[i0].0, b[i0].1).to_string();
        assert(rest[0] == f[i0 as int]);
        let r = DIDRequest { url, verb, did, req_size, ip, body };
        assert(r@ == parse_frame(s@)->Ok_0);
        Ok(r)
    }

    /// The wire form of the request.
    pub fn to_string(&self) -> (r: String)
        ensures
            r@ == request_frame(self@),
    {
        let mut r = String::new();
        push_frame(&mut r, self.verb, &self.url, self.did.as_str(), self.ip, self.body.as_str());
        assert(r@ =~= request_frame(self@));
        r
    }
}

/// A reply to a request, with its content.
pub struct DIDResponse<'r> {
    pub from_req: &'r DIDRequest,
    pub with_identity: &'r DIDIdentity,
    pub content: String,
}

impl<'r> DIDResponse<'r> {
    /// The wire form of the response: the request's header fields over the
    /// response's content.
    pub fn to_string(&self) -> (r: String)
        ensures
            r@ == response_frame(self.from_req@, self.content@),
    {
        let mut r = String::new();
        push_frame(
            &mut r,
            self.from_req.verb,
            &self.from_req.url,
            self.from_req.did.as_str(),
            self.from_req.ip,
            self.content.as_str(),
        );
        assert(r@ =~= response_frame(self.from_req@, self.content@));
        r
    }
}

} // verus!
