//! The IPv4 address value: parsing from dotted-decimal text, rendering back,
//! and conversions to and from byte arrays in explicit byte orders.

use vstd::prelude::*;

use crate::error::{unsupported_format_msg, SyntaxError};
use crate::text::{
    dec_rep, digits_val, find_occurrences, is_digit, is_digits, lemma_dec_rep_digits,
    parse_decimal, push_decimal,
};

verus! {

/// The four bytes of `v`, most significant first (network order).
pub open spec fn be_octets(v: u32) -> Seq<u8> {
    seq![
        (v / 0x100_0000) as u8,
        ((v / 0x1_0000) % 0x100) as u8,
        ((v / 0x100) % 0x100) as u8,
        (v % 0x100) as u8,
    ]
}

/// The value whose big-endian bytes are `b`.
pub open spec fn be_value(b: Seq<u8>) -> int
    recommends
        b.len() == 4,
{
    b[0] * 0x100_0000 + b[1] * 0x1_0000 + b[2] * 0x100 + b[3]
}

/// Splitting a 32-bit value into its big-endian bytes and recombining them
/// is the identity.
pub proof fn lemma_be_octets_value(v: u32)
    ensures
        be_value(be_octets(v)) == v,
{
    assert(v / 0x100_0000 < 256) by (bit_vector);
    assert((v / 0x100_0000) * 0x100_0000 + (v / 0x1_0000 % 0x100) * 0x1_0000 + (v / 0x100 % 0x100)
        * 0x100 + v % 0x100 == v) by (bit_vector);
}

/// Combining four bytes big-endian and splitting the result again gives the
/// bytes back.
pub proof fn lemma_be_value_octets(b0: u8, b1: u8, b2: u8, b3: u8)
    ensures
        0 <= be_value(seq![b0, b1, b2, b3]) < 0x1_0000_0000,
        be_octets(be_value(seq![b0, b1, b2, b3]) as u32) =~= seq![b0, b1, b2, b3],
{
    let x0 = b0 as u32;
    let x1 = b1 as u32;
    let x2 = b2 as u32;
    let x3 = b3 as u32;
    assert(x0 * 0x100_0000 + x1 * 0x1_0000 + x2 * 0x100 + x3 < 0x1_0000_0000) by (bit_vector)
        requires
            x0 < 256 && x1 < 256 && x2 < 256 && x3 < 256,
    ;
    let v = (x0 * 0x100_0000 + x1 * 0x1_0000 + x2 * 0x100 + x3) as u32;
    assert(v / 0x100_0000 == x0 && v / 0x1_0000 % 0x100 == x1 && v / 0x100 % 0x100 == x2 && v
        % 0x100 == x3) by (bit_vector)
        requires
            x0 < 256 && x1 < 256 && x2 < 256 && x3 < 256 && v == (x0 * 0x100_0000 + x1 * 0x1_0000
                + x2 * 0x100 + x3) as u32,
    ;
}

/// A decimal octet: a digit run whose value is at most 255.
pub open spec fn is_octet_text(s: Seq<char>) -> bool {
    is_digits(s) && digits_val(s) <= 255
}

/// `p1 < p2 < p3` are the positions of the only three dots of `s`, and the
/// four parts they separate are octet texts.
pub open spec fn dotted_quad_at(s: Seq<char>, p1: int, p2: int, p3: int) -> bool {
    &&& 0 <= p1 < p2 < p3 < s.len()
    &&& s[p1] == '.'
    &&& s[p2] == '.'
    &&& s[p3] == '.'
    &&& forall|i: int| 0 <= i < s.len() && i != p1 && i != p2 && i != p3 ==> s[i] != '.'
    &&& is_octet_text(s.subrange(0, p1))
    &&& is_octet_text(s.subrange(p1 + 1, p2))
    &&& is_octet_text(s.subrange(p2 + 1, p3))
    &&& is_octet_text(s.subrange(p3 + 1, s.len() as int))
}

/// The dotted-quad shape: four octet texts separated by `.`.
pub open spec fn is_dotted_quad(s: Seq<char>) -> bool {
    exists|p1: int, p2: int, p3: int| dotted_quad_at(s, p1, p2, p3)
}

/// The four octet values of a dotted quad, in text order.
pub open spec fn quad_value(s: Seq<char>) -> Seq<u8>
    recommends
        is_dotted_quad(s),
{
    let (p1, p2, p3) = choose|p1: int, p2: int, p3: int| dotted_quad_at(s, p1, p2, p3);
    seq![
        digits_val(s.subrange(0, p1)) as u8,
        digits_val(s.subrange(p1 + 1, p2)) as u8,
        digits_val(s.subrange(p2 + 1, p3)) as u8,
        digits_val(s.subrange(p3 + 1, s.len() as int)) as u8,
    ]
}

/// Dotted-decimal text of four octets: minimal decimal renderings joined by
/// `.`.
pub open spec fn quad_text(o: Seq<u8>) -> Seq<char>
    recommends
        o.len() == 4,
{
    dec_rep(o[0] as nat) + seq!['.'] + dec_rep(o[1] as nat) + seq!['.'] + dec_rep(o[2] as nat)
        + seq!['.'] + dec_rep(o[3] as nat)
}

/// A string is a dotted quad around at most one triple of positions.
pub proof fn lemma_dotted_quad_at_unique(
    s: Seq<char>,
    p1: int,
    p2: int,
    p3: int,
    q1: int,
    q2: int,
    q3: int,
)
    requires
        dotted_quad_at(s, p1, p2, p3),
        dotted_quad_at(s, q1, q2, q3),
    ensures
        p1 == q1 && p2 == q2 && p3 == q3,
{
    assert(s[q1] == '.' && s[q2] == '.' && s[q3] == '.');
    assert(s[p1] == '.' && s[p2] == '.' && s[p3] == '.');
}

/// `quad_value` read off at a known triple of dot positions.
pub proof fn lemma_quad_value_at(s: Seq<char>, p1: int, p2: int, p3: int)
    requires
        dotted_quad_at(s, p1, p2, p3),
    ensures
        quad_value(s) == seq![
            digits_val(s.subrange(0, p1)) as u8,
            digits_val(s.subrange(p1 + 1, p2)) as u8,
            digits_val(s.subrange(p2 + 1, p3)) as u8,
            digits_val(s.subrange(p3 + 1, s.len() as int)) as u8,
        ],
{
    let (q1, q2, q3) = choose|q1: int, q2: int, q3: int| dotted_quad_at(s, q1, q2, q3);
    lemma_dotted_quad_at_unique(s, p1, p2, p3, q1, q2, q3);
}

/// With the only three dot positions of `s` known, any dotted-quad witness
/// is exactly that triple.
proof fn lemma_quad_witness(s: Seq<char>, p1: int, p2: int, p3: int)
    requires
        0 <= p1 < p2 < p3 < s.len(),
        s[p1] == '.',
        s[p2] == '.',
        s[p3] == '.',
        forall|i: int| 0 <= i < s.len() && i != p1 && i != p2 && i != p3 ==> s[i] != '.',
        is_dotted_quad(s),
    ensures
        dotted_quad_at(s, p1, p2, p3),
{
    let (q1, q2, q3) = choose|q1: int, q2: int, q3: int| dotted_quad_at(s, q1, q2, q3);
    assert(s[q1] == '.' && s[q2] == '.' && s[q3] == '.');
    assert(q1 == p1 && q2 == p2 && q3 == p3);
}

/// Parse dotted-decimal text into the 32-bit address value, most
/// significant octet first. Any failure of the dotted-quad shape — a wrong
/// segment count, a non-digit, an octet over 255 — is an ordinary error,
/// never a crash.
fn parse_address4(address: &str) -> (r: Result<u32, SyntaxError>)
    ensures
        match r {
            Ok(v) => is_dotted_quad(address@) && be_octets(v) == quad_value(address@),
            Err(e) => !is_dotted_quad(address@) && e@ == unsupported_format_msg(address@),
        },
{
    let n = address.unicode_len();
    let dots = find_occurrences(address, '.');
    if dots.len() != 3 {
        proof {
            if is_dotted_quad(address@) {
                let (q1, q2, q3) = choose|q1: int, q2: int, q3: int|
                    dotted_quad_at(address@, q1, q2, q3);
                assert(address@[q1] == '.' && address@[q2] == '.' && address@[q3] == '.');
                assert(dots@.contains(q1 as usize) && dots@.contains(q2 as usize)
                    && dots@.contains(q3 as usize));
                let k1 = choose|k: int| 0 <= k < dots@.len() && dots@[k] == q1 as usize;
                let k2 = choose|k: int| 0 <= k < dots@.len() && dots@[k] == q2 as usize;
                let k3 = choose|k: int| 0 <= k < dots@.len() && dots@[k] == q3 as usize;
                assert(k1 != k2 && k1 != k3 && k2 != k3);
                if dots@.len() > 3 {
                    assert(address@[dots@[0] as int] == '.');
                    assert(address@[dots@[1] as int] == '.');
                    assert(address@[dots@[2] as int] == '.');
                    assert(address@[dots@[3] as int] == '.');
                }
                assert(false);
            }
        }
        return Err(SyntaxError::unsupported_format(address));
    }
    let p1 = dots[0];
    let p2 = dots[1];
    let p3 = dots[2];
    proof {
        assert(address@[p1 as int] == '.' && address@[p2 as int] == '.' && address@[p3 as int]
            == '.');
        assert forall|i: int|
            0 <= i < address@.len() && i != p1 && i != p2 && i != p3 implies address@[i]
            != '.' by {
            if address@[i] == '.' {
                assert(dots@.contains(i as usize));
                let k = choose|k: int| 0 <= k < dots@.len() && dots@[k] == i as usize;
                assert(k == 0 || k == 1 || k == 2);
            }
        }
    }
    let s0 = address.substring_char(0, p1);
    let s1 = address.substring_char(p1 + 1, p2);
    let s2 = address.substring_char(p2 + 1, p3);
    let s3 = address.substring_char(p3 + 1, n);
    let o0 = parse_decimal(s0, 255);
    let o1 = parse_decimal(s1, 255);
    let o2 = parse_decimal(s2, 255);
    let o3 = parse_decimal(s3, 255);
    match (o0, o1, o2, o3) {
        (Some(v0), Some(v1), Some(v2), Some(v3)) => {
            let b0 = v0 as u8;
            let b1 = v1 as u8;
            let b2 = v2 as u8;
            let b3 = v3 as u8;
            let v: u32 = (v0 * 0x100_0000) + (v1 * 0x1_0000) + (v2 * 0x100) + v3;
            proof {
                assert(dotted_quad_at(address@, p1 as int, p2 as int, p3 as int));
                lemma_quad_value_at(address@, p1 as int, p2 as int, p3 as int);
                lemma_be_value_octets(b0, b1, b2, b3);
                assert(quad_value(address@) =~= seq![b0, b1, b2, b3]);
                assert(v == be_value(seq![b0, b1, b2, b3]));
                assert(be_octets(v) == quad_value(address@));
            }
            Ok(v)
        },
        _ => {
            proof {
                if is_dotted_quad(address@) {
                    lemma_quad_witness(address@, p1 as int, p2 as int, p3 as int);
                    assert(false);
                }
            }
            Err(SyntaxError::unsupported_format(address))
        },
    }
}

/// A 32-bit IPv4 address. The integer holds the four octets of the dotted
/// notation in big-endian (network) order, so the stored value does not
/// depend on the byte order of the machine that parsed it.
#[derive(Debug, Clone, Copy, PartialEq, Eq, Structural)]
pub struct Address(u32);

impl View for Address {
    type V = Seq<u8>;

    /// The four octets, leftmost in the text first.
    closed spec fn view(&self) -> Seq<u8> {
        be_octets(self.0)
    }
}

/// Relies on `u32::to_ne_bytes`: std documents it to return the big-endian
/// representation on a big-endian machine and the little-endian one on a
/// little-endian machine.
#[verifier::external_body]
fn u32_to_ne_bytes(v: u32) -> (r: [u8; 4])
    ensures
        r@ == be_octets(v) || r@ == seq![
            be_octets(v)[3],
            be_octets(v)[2],
            be_octets(v)[1],
            be_octets(v)[0],
        ],
{
    v.to_ne_bytes()
}

/// Relies on `u32::from_ne_bytes`: std documents it to read the bytes as
/// big-endian on a big-endian machine and as little-endian on a
/// little-endian machine.
#[verifier::external_body]
fn u32_from_ne_bytes(b: [u8; 4]) -> (r: u32)
    ensures
        be_octets(r) == b@ || be_octets(r) == seq![b@[3], b@[2], b@[1], b@[0]],
{
    u32::from_ne_bytes(b)
}

impl Address {
    /// The address as four bytes, most significant octet first (network
    /// order), independent of the machine's byte order.
    pub fn to_be_bytes(self) -> (r: [u8; 4])
        ensures
            r@ == self@,
    {
        let v = self.0;
        proof {
            assert(v / 0x100_0000 < 256) by (bit_vector);
        }
        let r: [u8; 4] = [
            (v / 0x100_0000) as u8,
            ((v / 0x1_0000) % 0x100) as u8,
            ((v / 0x100) % 0x100) as u8,
            (v % 0x100) as u8,
        ];
        proof {
            assert(r@ =~= self@);
        }
        r
    }

    /// The address as four bytes, least significant octet first.
    pub fn to_le_bytes(self) -> (r: [u8; 4])
        ensures
            r@ == seq![self@[3], self@[2], self@[1], self@[0]],
    {
        let o = self.to_be_bytes();
        let r: [u8; 4] = [o[3], o[2], o[1], o[0]];
        proof {
            assert(r@ =~= seq![self@[3], self@[2], self@[1], self@[0]]);
        }
        r
    }

    /// The address as four bytes in the machine's own byte order: one of the
    /// two explicit orders, which one depending on the machine alone.
    pub fn to_ne_bytes(self) -> (r: [u8; 4])
        ensures
            r@ == self@ || r@ == seq![self@[3], self@[2], self@[1], self@[0]],
    {
        u32_to_ne_bytes(self.0)
    }

    /// The address whose octets, in text order, are `buf` read most
    /// significant first.
    pub fn from_be_bytes(buf: [u8; 4]) -> (a: Address)
        ensures
            a@ == buf@,
    {
        let v: u32 = (buf[0] as u32) * 0x100_0000 + (buf[1] as u32) * 0x1_0000 + (buf[2] as u32)
            * 0x100 + (buf[3] as u32);
        proof {
            lemma_be_value_octets(buf[0], buf[1], buf[2], buf[3]);
            assert(buf@ =~= seq![buf@[0], buf@[1], buf@[2], buf@[3]]);
        }
        Address(v)
    }

    /// The address whose octets, in text order, are `buf` read least
    /// significant first.
    pub fn from_le_bytes(buf: [u8; 4]) -> (a: Address)
        ensures
            a@ == seq![buf@[3], buf@[2], buf@[1], buf@[0]],
    {
        let rev: [u8; 4] = [buf[3], buf[2], buf[1], buf[0]];
        let a = Address::from_be_bytes(rev);
        proof {
            assert(a@ =~= seq![buf@[3], buf@[2], buf@[1], buf@[0]]);
        }
        a
    }

    /// The address read from `buf` in the machine's own byte order: one of
    /// the two explicit orders, which one depending on the machine alone.
    pub fn from_ne_bytes(buf: [u8; 4]) -> (a: Address)
        ensures
            a@ == buf@ || a@ == seq![buf@[3], buf@[2], buf@[1], buf@[0]],
    {
        let a = Address(u32_from_ne_bytes(buf));
        proof {
            assert(buf@ =~= seq![buf@[0], buf@[1], buf@[2], buf@[3]]);
        }
        a
    }

    /// Parse a dotted-decimal string of exactly four octets, each in
    /// `[0, 255]`, into an address holding them in text order. Every other
    /// input is refused with a syntax error.
    pub fn parse(s: &str) -> (r: Result<Address, SyntaxError>)
        ensures
            match r {
                Ok(a) => is_dotted_quad(s@) && a@ == quad_value(s@),
                Err(e) => !is_dotted_quad(s@) && e@ == unsupported_format_msg(s@),
            },
    {
        match parse_address4(s) {
            Ok(v) => Ok(Address(v)),
            Err(e) => Err(e),
        }
    }

    /// Render as dotted-decimal text: the four octets in text order, each
    /// in its minimal decimal form, joined by `.`.
    pub fn to_text(&self) -> (r: String)
        ensures
            r@ == quad_text(self@),
    {
        let o = self.to_be_bytes();
        let mut out = String::new();
        push_decimal(&mut out, o[0] as u32);
        out.append(".");
        push_decimal(&mut out, o[1] as u32);
        out.append(".");
        push_decimal(&mut out, o[2] as u32);
        out.append(".");
        push_decimal(&mut out, o[3] as u32);
        proof {
            reveal_strlit(".");
            assert(out@ =~= quad_text(self@));
        }
        out
    }

    /// Render in the requested notation: `1` gives the address value as one
    /// decimal number, `4` gives dotted-decimal text. No other notation is
    /// supported.
    pub fn to_dot_notation(&self, block_number: u8) -> (r: String)
        requires
            block_number == 1 || block_number == 4,
        ensures
            block_number == 1 ==> r@ == dec_rep(be_value(self@) as nat),
            block_number == 4 ==> r@ == quad_text(self@),
    {
        if block_number == 1 {
            let mut out = String::new();
            push_decimal(&mut out, self.0);
            proof {
                lemma_be_octets_value(self.0);
            }
            out
        } else {
            self.to_text()
        }
    }
}

/// Every address holds exactly four octets.
pub proof fn lemma_address_len(a: Address)
    ensures
        a@.len() == 4,
{
}

/// The dotted text of any four octets is a dotted quad, and parses back to
/// exactly those octets.
pub proof fn lemma_quad_text_round_trip(o: Seq<u8>)
    requires
        o.len() == 4,
    ensures
        is_dotted_quad(quad_text(o)),
        quad_value(quad_text(o)) == o,
{
    let t = quad_text(o);
    let a0 = dec_rep(o[0] as nat);
    let a1 = dec_rep(o[1] as nat);
    let a2 = dec_rep(o[2] as nat);
    let a3 = dec_rep(o[3] as nat);
    lemma_dec_rep_digits(o[0] as nat);
    lemma_dec_rep_digits(o[1] as nat);
    lemma_dec_rep_digits(o[2] as nat);
    lemma_dec_rep_digits(o[3] as nat);
    let p1 = a0.len() as int;
    let p2 = p1 + 1 + a1.len();
    let p3 = p2 + 1 + a2.len();
    assert(t.len() == a0.len() + a1.len() + a2.len() + a3.len() + 3);
    assert(t[p1] == '.' && t[p2] == '.' && t[p3] == '.');
    assert(t.subrange(0, p1) =~= a0);
    assert(t.subrange(p1 + 1, p2) =~= a1);
    assert(t.subrange(p2 + 1, p3) =~= a2);
    assert(t.subrange(p3 + 1, t.len() as int) =~= a3);
    assert forall|i: int| 0 <= i < t.len() && i != p1 && i != p2 && i != p3 implies t[i]
        != '.' by {
        if i < p1 {
            assert(t[i] == a0[i]);
        } else if i < p2 {
            assert(t[i] == a1[i - (p1 + 1)]);
        } else if i < p3 {
            assert(t[i] == a2[i - (p2 + 1)]);
        } else {
            assert(t[i] == a3[i - (p3 + 1)]);
        }
        assert(is_digit(t[i]));
    }
    assert(dotted_quad_at(t, p1, p2, p3));
    lemma_quad_value_at(t, p1, p2, p3);
    assert(quad_value(t) =~= o);
}

} // verus!
