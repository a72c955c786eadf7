//! The server's configuration: its port, its identity and its routes.
use vstd::prelude::*;
use crate::reqres::{opt_view, DIDIdentity};
use crate::text::same_text;
use crate::uri::DIDUri;
use crate::verbs::ReqVerb;

verus! {

/// What tells routes apart: the reference, the path and the verb.
pub open spec fn route_key(u: DIDUri) -> (Option<Seq<char>>, Option<Seq<char>>, ReqVerb) {
    (opt_view(u.url), opt_view(u.path), u.verb)
}

/// The key of the route of `verb` on the relative path `path`.
pub open spec fn relative_key(verb: ReqVerb, path: Seq<char>) -> (
    Option<Seq<char>>,
    Option<Seq<char>>,
    ReqVerb,
) {
    (None, Some(path), verb)
}

/// The first index of a route with key `k`, or the length where none has it.
pub open spec fn route_index<H>(s: Seq<(DIDUri, H)>, k: (Option<Seq<char>>, Option<Seq<char>>, ReqVerb)) -> int
    decreases s.len(),
{
    if s.len() == 0 {
        0
    } else if route_key(s[0].0) == k {
        0
    } else {
        1 + route_index(s.subrange(1, s.len() as int), k)
    }
}

/// No two routes share a key, and every locator has exactly one of
/// reference and path.
pub open spec fn routes_wf<H>(s: Seq<(DIDUri, H)>) -> bool {
    &&& forall|i: int| 0 <= i < s.len() ==> (#[trigger] s[i]).0.wf()
    &&& forall|i: int, j: int|
        0 <= i < s.len() && 0 <= j < s.len() && i != j ==> route_key((#[trigger] s[i]).0)
            != route_key((#[trigger] s[j]).0)
}

/// The configuration of the whole server; `H` is the type of a route handler.
///
/// The routes form a map from locator to handler (see `wf`): a `Vec` with
/// unique keys holds it, since a hash map keyed by a struct of strings would
/// leave its lookups unproved. Code that changes `routes` directly is held to
/// `wf` by `add_route`'s precondition.
pub struct DIDServer<H> {
    pub port: usize,
    pub routes: Vec<(DIDUri, H)>,
    pub identity: DIDIdentity,
    pub http_enabled: bool,
    pub did_enabled: bool,
}

impl<H> DIDServer<H> {
    /// No two routes share a key.
    pub open spec fn wf(&self) -> bool {
        routes_wf(self.routes@)
    }

    /// The default configuration: port 5173, identity `imapotato`, no routes,
    /// both protocols on.
    pub fn build() -> (r: Self)
        ensures
            r.wf(),
            r.port == 5173,
            r.routes@.len() == 0,
            r.identity.did@ == seq!['i', 'm', 'a', 'p', 'o', 't', 'a', 't', 'o'],
            r.http_enabled,
            r.did_enabled,
    {
        proof {
            reveal_strlit("imapotato");
        }
        let did = "imapotato".to_string();
        assert(did@ =~= seq!['i', 'm', 'a', 'p', 'o', 't', 'a', 't', 'o']);
        DIDServer {
            port: 5173,
            routes: Vec::new(),
            identity: DIDIdentity { did },
            http_enabled: true,
            did_enabled: true,
        }
    }

    /// Sets the port; the configuration is handed back for further setting.
    pub fn set_port(&mut self, port: usize) -> (r: &mut Self)
        ensures
            r.port == port,
            r.routes@ == old(self).routes@,
            r.identity == old(self).identity,
            r.http_enabled == old(self).http_enabled,
            r.did_enabled == old(self).did_enabled,
            *final(self) == *final(r),
    {
        self.port = port;
        self
    }

    /// Whether `u` is the locator of `verb` on the relative path `path`.
    fn is_relative_route(u: &DIDUri, verb: ReqVerb, path: &str) -> (r: bool)
        ensures
            r == (route_key(*u) == relative_key(verb, path@)),
    {
        if u.url.is_some() || u.verb != verb {
            return false;
        }
        match &u.path {
            Some(p) => same_text(p.as_str(), path),
            None => false,
        }
    }

    /// Sets the handler of `verb` on the relative path `path`: a route with
    /// that key keeps its place and takes the new handler; otherwise the route
    /// is added last. The configuration is handed back for further setting.
    pub fn add_route(&mut self, verb: ReqVerb, path: &str, cb: H) -> (r: &mut Self)
        requires
            old(self).wf(),
        ensures
            r.wf(),
            ({
                let s = old(self).routes@;
                let k = route_index(s, relative_key(verb, path@));
                if k < s.len() {
                    r.routes@ == s.update(k, (s[k].0, cb))
                } else {
                    r.routes@.len() == s.len() + 1 && r.routes@.drop_last() == s
                        && route_key(r.routes@.last().0) == relative_key(verb, path@)
                        && r.routes@.last().0.wf() && r.routes@.last().1 == cb
                }
            }),
            r.port == old(self).port,
            r.identity == old(self).identity,
            r.http_enabled == old(self).http_enabled,
            r.did_enabled == old(self).did_enabled,
            *final(self) == *final(r),
    {
        let ghost s = self.routes@;
        let ghost key = relative_key(verb, path@);
        let mut i: usize = 0;
        while i < self.routes.len()
            invariant
                s == self.routes@,
                s == old(self).routes@,
                self.port == old(self).port,
                self.identity == old(self).identity,
                self.http_enabled == old(self).http_enabled,
                self.did_enabled == old(self).did_enabled,
                routes_wf(s),
                key == relative_key(verb, path@),
                0 <= i <= s.len(),
                forall|j: int| 0 <= j < i ==> route_key((#[trigger] s[j]).0) != key,
            decreases s.len() - i,
        {
            let found = DIDServer::<H>::is_relative_route(&self.routes[i].0, verb, path);
            if found {
                proof {
                    lemma_route_index(s, key, i as int);
                }
                let (u, _replaced) = self.routes.remove(i);
                self.routes.insert(i, (u, cb));
                proof {
                    assert(self.routes@ =~= s.update(i as int, (s[i as int].0, cb)));
                    assert forall|a: int, b: int|
                        0 <= a < self.routes@.len() && 0 <= b < self.routes@.len() && a != b
                            implies route_key((#[trigger] self.routes@[a]).0) != route_key(
                        (#[trigger] self.routes@[b]).0,
                    ) by {
                        assert(self.routes@[a].0 == s[a].0);
                        assert(self.routes@[b].0 == s[b].0);
                    }
                    assert forall|a: int| 0 <= a < self.routes@.len() implies (#[trigger] self.routes@[a]).0.wf() by {
                        assert(self.routes@[a].0 == s[a].0);
                    }
                }
                return self;
            }
            i = i + 1;
        }
        proof {
            lemma_route_index(s, key, s.len() as int);
        }
        self.routes.push((DIDUri::relative(verb, path), cb));
        proof {
            let t = self.routes@;
            assert(t.drop_last() =~= s);
            assert forall|a: int, b: int| 0 <= a < t.len() && 0 <= b < t.len() && a != b implies route_key(
                (#[trigger] t[a]).0,
            ) != route_key((#[trigger] t[b]).0) by {
                if a < s.len() {
                    assert(t[a] == s[a]);
                }
                if b < s.len() {
                    assert(t[b] == s[b]);
                }
            }
            assert forall|a: int| 0 <= a < t.len() implies (#[trigger] t[a]).0.wf() by {
                if a < s.len() {
                    assert(t[a] == s[a]);
                }
            }
        }
        self
    }
}

/// The index of a route with key `k`, found by a scan that saw no earlier one.
proof fn lemma_route_index<H>(
    s: Seq<(DIDUri, H)>,
    k: (Option<Seq<char>>, Option<Seq<char>>, ReqVerb),
    i: int,
)
    requires
        0 <= i <= s.len(),
        i < s.len() ==> route_key(s[i].0) == k,
        forall|j: int| 0 <= j < i ==> route_key((#[trigger] s[j]).0) != k,
    ensures
        route_index(s, k) == i,
    decreases s.len(),
{
    if s.len() > 0 && i > 0 {
        let t = s.subrange(1, s.len() as int);
        assert forall|j: int| 0 <= j < i - 1 implies route_key((#[trigger] t[j]).0) != k by {
            assert(t[j] == s[j + 1]);
        }
        lemma_route_index(t, k, i - 1);
    }
}

} // verus!
