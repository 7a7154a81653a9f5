//! CIDR notation for IPv4: an address together with a prefix length in
//! `[8, 32]`, parsed from `address/prefix` text and rendered back.

use vstd::prelude::*;

use crate::address::{
    is_dotted_quad, lemma_quad_text_round_trip, quad_text, quad_value, Address,
};
use crate::error::{
    invalid_subnetmask_msg, missing_separator_msg, unknown_attribute_msg, unsupported_format_msg,
};
pub use crate::error::SyntaxError;
use crate::text::{
    dec_rep, digits_val, find_occurrences, is_digit, is_digits, lemma_dec_rep_digits,
    parse_decimal, push_decimal,
};

verus! {

/// No `/` occurs in `s`.
pub open spec fn no_slash(s: Seq<char>) -> bool {
    forall|i: int| 0 <= i < s.len() ==> s[i] != '/'
}

/// `p` is the position of the only `/` in `s`.
pub open spec fn one_slash_at(s: Seq<char>, p: int) -> bool {
    &&& 0 <= p < s.len()
    &&& s[p] == '/'
    &&& forall|i: int| 0 <= i < s.len() && i != p ==> s[i] != '/'
}

/// `/` occurs at two or more positions of `s`.
pub open spec fn many_slashes(s: Seq<char>) -> bool {
    exists|i: int, j: int| 0 <= i < j < s.len() && s[i] == '/' && s[j] == '/'
}

/// The position of the only `/` of `s`.
pub open spec fn slash_pos(s: Seq<char>) -> int {
    choose|p: int| one_slash_at(s, p)
}

/// The address part: the text left of the only `/`.
pub open spec fn address_part(s: Seq<char>) -> Seq<char>
    recommends
        exists|p: int| one_slash_at(s, p),
{
    s.subrange(0, slash_pos(s))
}

/// The prefix-length part: the text right of the only `/`.
pub open spec fn subnetmask_part(s: Seq<char>) -> Seq<char>
    recommends
        exists|p: int| one_slash_at(s, p),
{
    s.subrange(slash_pos(s) + 1, s.len() as int)
}

/// A prefix-length text: a digit run whose value lies in `[8, 32]`.
pub open spec fn subnetmask_ok(t: Seq<char>) -> bool {
    is_digits(t) && 8 <= digits_val(t) <= 32
}

/// CIDR text of the octets `o` and the prefix length `m`.
pub open spec fn cidr_text(o: Seq<u8>, m: u8) -> Seq<char>
    recommends
        o.len() == 4,
{
    quad_text(o) + seq!['/'] + dec_rep(m as nat)
}

/// A string with exactly one slash has it, and has no second one.
proof fn lemma_one_slash_excludes(s: Seq<char>, p: int)
    requires
        one_slash_at(s, p),
    ensures
        !no_slash(s),
        !many_slashes(s),
{
    assert(s[p] == '/');
    if many_slashes(s) {
        let (i, j) = choose|i: int, j: int|
            0 <= i < j < s.len() && s[i] == '/' && s[j] == '/';
        assert(false);
    }
}

/// A validated CIDR value: an address together with the bit count of its
/// subnet mask. Values exist only through parsing, so the prefix length
/// always lies in `[8, 32]` and the address is always well-formed.
#[derive(Debug, Clone, Copy, PartialEq, Eq, Structural)]
pub struct CIDR {
    address: Address,
    subnetmask: u8,
}

impl CIDR {
    /// The octets of the contained address, in text order.
    pub closed spec fn spec_address(&self) -> Seq<u8> {
        self.address@
    }

    /// The prefix length.
    pub closed spec fn spec_subnetmask(&self) -> u8 {
        self.subnetmask
    }

    /// Invariant: the prefix length lies in `[8, 32]`. Values only come
    /// from parsing, which checks the range, so it holds of every value.
    #[verifier::type_invariant]
    pub open spec fn wf(&self) -> bool {
        8 <= self.spec_subnetmask() <= 32
    }

    /// Parse `address/prefix` text. The input must hold exactly one `/`:
    /// none gives the missing-separator error, two or more the
    /// unknown-attribute error. The prefix part must be a decimal number in
    /// `[8, 32]`, else the invalid-subnetmask error; it is checked before
    /// the address part, which must be a dotted quad of octets, else the
    /// unsupported-format error.
    pub fn parse(s: &str) -> (r: Result<CIDR, SyntaxError>)
        ensures
            match r {
                Ok(c) => {
                    &&& exists|p: int| one_slash_at(s@, p)
                    &&& subnetmask_ok(subnetmask_part(s@))
                    &&& is_dotted_quad(address_part(s@))
                    &&& c.spec_address() == quad_value(address_part(s@))
                    &&& c.spec_subnetmask() == digits_val(subnetmask_part(s@))
                    &&& c.wf()
                },
                Err(e) => {
                    if no_slash(s@) {
                        e@ == missing_separator_msg(s@)
                    } else if many_slashes(s@) {
                        e@ == unknown_attribute_msg(s@)
                    } else {
                        &&& !(subnetmask_ok(subnetmask_part(s@)) && is_dotted_quad(
                            address_part(s@),
                        ))
                        &&& if !subnetmask_ok(subnetmask_part(s@)) {
                            e@ == invalid_subnetmask_msg(subnetmask_part(s@))
                        } else {
                            e@ == unsupported_format_msg(s@)
                        }
                    }
                },
            },
    {
        let n = s.unicode_len();
        let slashes = find_occurrences(s, '/');
        if slashes.len() == 0 {
            proof {
                assert(no_slash(s@));
            }
            return Err(SyntaxError::missing_separator(s));
        }
        if slashes.len() >= 2 {
            proof {
                assert(s@[slashes@[0] as int] == '/' && s@[slashes@[1] as int] == '/');
                assert(slashes@[0] < slashes@[1]);
                assert(many_slashes(s@));
                assert(!no_slash(s@));
            }
            return Err(SyntaxError::unknown_attribute(s));
        }
        let p = slashes[0];
        proof {
            assert forall|i: int| 0 <= i < s@.len() && i != p implies s@[i] != '/' by {
                if s@[i] == '/' {
                    assert(slashes@.contains(i as usize));
                    let k = choose|k: int| 0 <= k < slashes@.len() && slashes@[k] == i as usize;
                    assert(k == 0);
                }
            }
            assert(one_slash_at(s@, p as int));
            lemma_one_slash_excludes(s@, p as int);
            let q = slash_pos(s@);
            assert(one_slash_at(s@, q));
            assert(q == p);
        }
        let addr_text = s.substring_char(0, p);
        let mask_text = s.substring_char(p + 1, n);
        proof {
            assert(addr_text@ == address_part(s@));
            assert(mask_text@ == subnetmask_part(s@));
        }
        let mask: u8 = match parse_decimal(mask_text, 32) {
            Some(v) => {
                if v < 8 {
                    return Err(SyntaxError::invalid_subnetmask(mask_text));
                }
                v as u8
            },
            None => {
                return Err(SyntaxError::invalid_subnetmask(mask_text));
            },
        };
        let address = match Address::parse(addr_text) {
            Ok(a) => a,
            Err(_) => {
                return Err(SyntaxError::unsupported_format(s));
            },
        };
        Ok(CIDR { address, subnetmask: mask })
    }

    /// Render as `address/prefix`: the dotted-decimal address, a `/`, and
    /// the prefix length in minimal decimal form.
    pub fn to_text(&self) -> (r: String)
        ensures
            r@ == cidr_text(self.spec_address(), self.spec_subnetmask()),
    {
        let mut out = self.address.to_text();
        out.append("/");
        push_decimal(&mut out, self.subnetmask as u32);
        proof {
            reveal_strlit("/");
            assert(out@ =~= cidr_text(self.spec_address(), self.spec_subnetmask()));
        }
        out
    }

    /// The contained address, by value.
    pub fn address(&self) -> (a: Address)
        ensures
            a@ == self.spec_address(),
    {
        self.address
    }

    /// The prefix length, by value. It always lies in `[8, 32]`.
    pub fn subnetmask(&self) -> (m: u8)
        ensures
            m == self.spec_subnetmask(),
            8 <= m <= 32,
    {
        proof {
            use_type_invariant(&*self);
        }
        self.subnetmask
    }
}

/// Round trip: the rendered text of any four octets and any prefix length
/// in `[8, 32]` parses back to exactly that value. With the contracts of
/// [`CIDR::parse`] and [`CIDR::to_text`], rendering a parsed CIDR value
/// gives the parsed text back unchanged.
pub proof fn lemma_cidr_text_round_trip(o: Seq<u8>, m: u8)
    requires
        o.len() == 4,
        8 <= m <= 32,
    ensures
        one_slash_at(cidr_text(o, m), quad_text(o).len() as int),
        address_part(cidr_text(o, m)) == quad_text(o),
        subnetmask_part(cidr_text(o, m)) == dec_rep(m as nat),
        is_dotted_quad(address_part(cidr_text(o, m))),
        quad_value(address_part(cidr_text(o, m))) == o,
        subnetmask_ok(subnetmask_part(cidr_text(o, m))),
        digits_val(subnetmask_part(cidr_text(o, m))) == m,
{
    let t = cidr_text(o, m);
    let a = quad_text(o);
    let d = dec_rep(m as nat);
    lemma_quad_text_round_trip(o);
    lemma_dec_rep_digits(m as nat);
    let p = a.len() as int;
    assert(t.len() == a.len() + 1 + d.len());
    assert(t[p] == '/');
    let (q1, q2, q3) = choose|q1: int, q2: int, q3: int|
        crate::address::dotted_quad_at(a, q1, q2, q3);
    assert forall|i: int| 0 <= i < t.len() && i != p implies t[i] != '/' by {
        if i < p {
            assert(t[i] == a[i]);
            if i == q1 || i == q2 || i == q3 {
                assert(a[i] == '.');
            } else if i < q1 {
                assert(a.subrange(0, q1)[i] == a[i]);
                assert(is_digit(a[i]));
            } else if i < q2 {
                assert(a.subrange(q1 + 1, q2)[i - (q1 + 1)] == a[i]);
                assert(is_digit(a[i]));
            } else if i < q3 {
                assert(a.subrange(q2 + 1, q3)[i - (q2 + 1)] == a[i]);
                assert(is_digit(a[i]));
            } else {
                assert(a.subrange(q3 + 1, a.len() as int)[i - (q3 + 1)] == a[i]);
                assert(is_digit(a[i]));
            }
        } else {
            assert(t[i] == d[i - (p + 1)]);
            assert(is_digit(d[i - (p + 1)]));
        }
    }
    assert(one_slash_at(t, p));
    let q = slash_pos(t);
    assert(one_slash_at(t, q));
    assert(q == p);
    assert(address_part(t) =~= a);
    assert(subnetmask_part(t) =~= d);
}

} // verus!
