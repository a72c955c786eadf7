//! The verbs of the protocol and their wire tokens.
use vstd::prelude::*;
use crate::error::{DIDError, ErrorKind};
use crate::text::chars_of;

verus! {

/// The fixed operation code of a frame.
#[derive(PartialEq, Eq, Structural, Clone, Copy, Debug, Hash)]
pub enum ReqVerb {
    /// PREFLIGHT
    Preflight,
    /// WHERE?
    Where,
    /// WHERE!
    WhereStorage,
    /// #DATA
    HashData,
    /// DATA
    Data,
}

/// The wire token of a verb.
pub open spec fn verb_token(v: ReqVerb) -> Seq<char> {
    match v {
        ReqVerb::Preflight => seq!['P', 'R', 'E', 'F', 'L', 'I', 'G', 'H', 'T'],
        ReqVerb::Where => seq!['W', 'H', 'E', 'R', 'E', '?'],
        ReqVerb::WhereStorage => seq!['W', 'H', 'E', 'R', 'E', '!'],
        ReqVerb::HashData => seq!['#', 'D', 'A', 'T', 'A'],
        ReqVerb::Data => seq!['D', 'A', 'T', 'A'],
    }
}

/// The verb whose token is `s`, if any.
pub open spec fn verb_of(s: Seq<char>) -> Option<ReqVerb> {
    if s == verb_token(ReqVerb::Preflight) {
        Some(ReqVerb::Preflight)
    } else if s == verb_token(ReqVerb::Where) {
        Some(ReqVerb::Where)
    } else if s == verb_token(ReqVerb::WhereStorage) {
        Some(ReqVerb::WhereStorage)
    } else if s == verb_token(ReqVerb::HashData) {
        Some(ReqVerb::HashData)
    } else if s == verb_token(ReqVerb::Data) {
        Some(ReqVerb::Data)
    } else {
        None
    }
}

/// Each token names its own verb, and holds no separator of the wire format.
pub proof fn lemma_verb_token(v: ReqVerb)
    ensures
        verb_of(verb_token(v)) == Some(v),
        !verb_token(v).contains(','),
        !verb_token(v).contains('\n'),
        verb_token(v).len() >= 4,
{
    let t = verb_token(v);
    assert(verb_token(ReqVerb::Where) != verb_token(ReqVerb::WhereStorage)) by {
        assert(verb_token(ReqVerb::Where)[5] != verb_token(ReqVerb::WhereStorage)[5]);
    }
    assert(verb_token(ReqVerb::Preflight).len() != verb_token(ReqVerb::Where).len());
    assert(verb_token(ReqVerb::HashData)[0] != verb_token(ReqVerb::Data)[0]);
    assert forall|i: int| 0 <= i < t.len() implies t[i] != ',' && t[i] != '\n' by {}
}

/// Whether `v[lo..hi]` spells `t`.
fn spells(v: &Vec<char>, lo: usize, hi: usize, t: &str) -> (r: bool)
    requires
        lo <= hi <= v@.len(),
    ensures
        r == (v@.subrange(lo as int, hi as int) == t@),
{
    let w = chars_of(t);
    if hi - lo != w.len() {
        return false;
    }
    let mut i: usize = 0;
    while i < w.len()
        invariant
            hi - lo == w@.len(),
            lo <= hi <= v@.len(),
            w@ == t@,
            0 <= i <= w@.len(),
            forall|j: int| 0 <= j < i ==> v@[lo + j] == w@[j],
        decreases w@.len() - i,
    {
        if v[lo + i] != w[i] {
            assert(v@.subrange(lo as int, hi as int)[i as int] != t@[i as int]);
            return false;
        }
        i = i + 1;
    }
    assert(v@.subrange(lo as int, hi as int) =~= t@);
    true
}

impl ReqVerb {
    /// The wire token of the verb.
    pub fn as_str(&self) -> (r: &'static str)
        ensures
            r@ == verb_token(*self),
    {
        proof {
            reveal_strlit("PREFLIGHT");
            reveal_strlit("WHERE?");
            reveal_strlit("WHERE!");
            reveal_strlit("#DATA");
            reveal_strlit("DATA");
        }
        match self {
            ReqVerb::Preflight => "PREFLIGHT",
            ReqVerb::Where => "WHERE?",
            ReqVerb::WhereStorage => "WHERE!",
            ReqVerb::HashData => "#DATA",
            ReqVerb::Data => "DATA",
        }
    }

    /// The wire token of the verb, as a new string.
    pub fn to_string(&self) -> (r: String)
        ensures
            r@ == verb_token(*self),
    {
        self.as_str().to_string()
    }

    /// The verb whose token is `v[lo..hi]`, if any.
    pub fn from_chars(v: &Vec<char>, lo: usize, hi: usize) -> (r: Option<ReqVerb>)
        requires
            lo <= hi <= v@.len(),
        ensures
            r == verb_of(v@.subrange(lo as int, hi as int)),
    {
        proof {
            reveal_strlit("PREFLIGHT");
            reveal_strlit("WHERE?");
            reveal_strlit("WHERE!");
            reveal_strlit("#DATA");
            reveal_strlit("DATA");
            assert("PREFLIGHT"@ =~= verb_token(ReqVerb::Preflight));
            assert("WHERE?"@ =~= verb_token(ReqVerb::Where));
            assert("WHERE!"@ =~= verb_token(ReqVerb::WhereStorage));
            assert("#DATA"@ =~= verb_token(ReqVerb::HashData));
            assert("DATA"@ =~= verb_token(ReqVerb::Data));
        }
        if spells(v, lo, hi, "PREFLIGHT") {
            Some(ReqVerb::Preflight)
        } else if spells(v, lo, hi, "WHERE?") {
            Some(ReqVerb::Where)
        } else if spells(v, lo, hi, "WHERE!") {
            Some(ReqVerb::WhereStorage)
        } else if spells(v, lo, hi, "#DATA") {
            Some(ReqVerb::HashData)
        } else if spells(v, lo, hi, "DATA") {
            Some(ReqVerb::Data)
        } else {
            None
        }
    }

    /// The verb whose token is `s`; `UnknownVerb` where there is none.
    pub fn from_str(s: &str) -> (r: Result<ReqVerb, DIDError>)
        ensures
            verb_of(s@) matches Some(v) ==> (r matches Ok(w) && w == v),
            verb_of(s@) is None ==> (r matches Err(e) && e.kind == ErrorKind::UnknownVerb),
    {
        let v = chars_of(s);
        assert(v@.subrange(0, v@.len() as int) =~= s@);
        match ReqVerb::from_chars(&v, 0, v.len()) {
            Some(verb) => Ok(verb),
            None => Err(DIDError::new(ErrorKind::UnknownVerb, "ReqVerb::from_str", "unknown verb")),
        }
    }
}

} // verus!
