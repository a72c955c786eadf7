//! Peer addresses: IPv4 in dotted-quad notation.
use vstd::prelude::*;
use crate::text::{
    all_digits, chars_of, dec, dec_value, is_digit, join, lemma_dec, lemma_no_sep_in_digits,
    lemma_split_join, parse_dec, push_dec, split, split_bounds,
};

verus! {

/// An IPv4 address, by its four octets.
#[derive(PartialEq, Eq, Structural, Clone, Copy, Debug, Hash)]
pub struct Ipv4 {
    pub a: u8,
    pub b: u8,
    pub c: u8,
    pub d: u8,
}

/// The octets of an address, in order.
pub open spec fn octet_texts(ip: Ipv4) -> Seq<Seq<char>> {
    seq![dec(ip.a as nat), dec(ip.b as nat), dec(ip.c as nat), dec(ip.d as nat)]
}

/// The dotted-quad text of an address.
pub open spec fn ip_text(ip: Ipv4) -> Seq<char> {
    join(octet_texts(ip), '.')
}

/// One to three digits, without a leading zero, denoting at most 255.
pub open spec fn octet_ok(t: Seq<char>) -> bool {
    1 <= t.len() <= 3 && all_digits(t) && (t.len() == 1 || t[0] != '0') && dec_value(t) <= 255
}

/// The address that `s` spells in dotted-quad notation, if any.
pub open spec fn ip_parse(s: Seq<char>) -> Option<Ipv4> {
    let p = split(s, '.');
    if p.len() == 4 && octet_ok(p[0]) && octet_ok(p[1]) && octet_ok(p[2]) && octet_ok(p[3]) {
        Some(
            Ipv4 {
                a: dec_value(p[0]) as u8,
                b: dec_value(p[1]) as u8,
                c: dec_value(p[2]) as u8,
                d: dec_value(p[3]) as u8,
            },
        )
    } else {
        None
    }
}

proof fn lemma_octet(n: u8)
    ensures
        octet_ok(dec(n as nat)),
        dec_value(dec(n as nat)) == n,
        !dec(n as nat).contains('.'),
{
    lemma_dec(n as nat);
    lemma_no_sep_in_digits(dec(n as nat), '.');
}

/// The text of an address spells that address, and holds no comma or newline.
pub proof fn lemma_ip_text(ip: Ipv4)
    ensures
        ip_parse(ip_text(ip)) == Some(ip),
        all_digits_or_dots(ip_text(ip)),
{
    let f = octet_texts(ip);
    lemma_octet(ip.a);
    lemma_octet(ip.b);
    lemma_octet(ip.c);
    lemma_octet(ip.d);
    assert forall|i: int| 0 <= i < f.len() implies !(#[trigger] f[i]).contains('.') by {
        if i == 0 {} else if i == 1 {} else if i == 2 {} else {}
    }
    lemma_split_join(f, '.');
    lemma_join_digits_or_dots(f);
}

/// Every character is a digit or a dot.
pub open spec fn all_digits_or_dots(s: Seq<char>) -> bool {
    forall|i: int| 0 <= i < s.len() ==> is_digit(#[trigger] s[i]) || s[i] == '.'
}

proof fn lemma_join_digits_or_dots(f: Seq<Seq<char>>)
    requires
        forall|i: int| 0 <= i < f.len() ==> all_digits(#[trigger] f[i]),
    ensures
        all_digits_or_dots(join(f, '.')),
    decreases f.len(),
{
    if f.len() == 1 {
        assert(all_digits(f[0]));
    } else if f.len() > 1 {
        let g = f.drop_last();
        assert forall|i: int| 0 <= i < g.len() implies all_digits(#[trigger] g[i]) by {
            assert(g[i] == f[i]);
        }
        lemma_join_digits_or_dots(g);
        let j = join(g, '.') + seq!['.'] + f.last();
        assert(all_digits(f[f.len() - 1]));
        assert forall|i: int| 0 <= i < j.len() implies is_digit(#[trigger] j[i]) || j[i] == '.' by {
            if i < join(g, '.').len() {
                assert(j[i] == join(g, '.')[i]);
            } else if i > join(g, '.').len() {
                assert(j[i] == f.last()[i - join(g, '.').len() - 1]);
            }
        }
    }
}

/// A text made of digits and dots holds neither a comma nor a newline.
pub proof fn lemma_no_comma_newline(s: Seq<char>)
    requires
        all_digits_or_dots(s),
    ensures
        !s.contains(','),
        !s.contains('\n'),
{
    if s.contains(',') {
        let i = choose|i: int| 0 <= i < s.len() && s[i] == ',';
        assert(is_digit(s[i]) || s[i] == '.');
    }
    if s.contains('\n') {
        let i = choose|i: int| 0 <= i < s.len() && s[i] == '\n';
        assert(is_digit(s[i]) || s[i] == '.');
    }
}

fn octet_at(v: &Vec<char>, bounds: (usize, usize)) -> (r: Option<u8>)
    requires
        bounds.0 <= bounds.1 <= v@.len(),
    ensures
        r.is_some() == octet_ok(v@.subrange(bounds.0 as int, bounds.1 as int)),
        r matches Some(n) ==> n as nat == dec_value(v@.subrange(bounds.0 as int, bounds.1 as int)),
{
    let (lo, hi) = bounds;
    let t = Ghost(v@.subrange(lo as int, hi as int));
    if hi - lo > 3 || hi == lo {
        return None;
    }
    if hi - lo > 1 && v[lo] == '0' {
        assert(t@[0] == '0');
        return None;
    }
    match parse_dec(v, lo, hi) {
        Some(n) => {
            if n <= 255 {
                assert(t@.len() == 1 || t@[0] != '0');
                Some(n as u8)
            } else {
                None
            }
        },
        None => None,
    }
}

impl Ipv4 {
    /// The address that `v[lo..hi]` spells in dotted-quad notation, if any.
    pub fn from_chars(v: &Vec<char>, lo: usize, hi: usize) -> (r: Option<Ipv4>)
        requires
            lo <= hi <= v@.len(),
        ensures
            r == ip_parse(v@.subrange(lo as int, hi as int)),
    {
        let p = split_bounds(v, lo, hi, '.');
        if p.len() != 4 {
            return None;
        }
        let a = octet_at(v, p[0]);
        let b = octet_at(v, p[1]);
        let c = octet_at(v, p[2]);
        let d = octet_at(v, p[3]);
        match (a, b, c, d) {
            (Some(a), Some(b), Some(c), Some(d)) => Some(Ipv4 { a, b, c, d }),
            _ => None,
        }
    }

    /// The address that `s` spells in dotted-quad notation, if any.
    pub fn from_str(s: &str) -> (r: Option<Ipv4>)
        ensures
            r == ip_parse(s@),
    {
        let v = chars_of(s);
        assert(v@.subrange(0, v@.len() as int) =~= s@);
        Ipv4::from_chars(&v, 0, v.len())
    }

    /// Appends the dotted-quad text of the address to `out`.
    pub fn push_text(&self, out: &mut String)
        ensures
            final(out)@ == old(out)@ + ip_text(*self),
    {
        proof {
            reveal_strlit(".");
            reveal_with_fuel(join, 4);
        }
        push_dec(out, self.a as u128);
        out.append(".");
        push_dec(out, self.b as u128);
        out.append(".");
        push_dec(out, self.c as u128);
        out.append(".");
        push_dec(out, self.d as u128);
        proof {
            let f = octet_texts(*self);
            assert(f.drop_last().drop_last().drop_last() =~= seq![f[0]]);
            assert(f.drop_last().drop_last() =~= seq![f[0], f[1]]);
            assert(f.drop_last() =~= seq![f[0], f[1], f[2]]);
            assert(final(out)@ =~= old(out)@ + ip_text(*self));
        }
    }

    /// The dotted-quad text of the address.
    pub fn to_string(&self) -> (r: String)
        ensures
            r@ == ip_text(*self),
    {
        let mut r = String::new();
        self.push_text(&mut r);
        assert(r@ =~= ip_text(*self));
        r
    }
}

} // verus!
