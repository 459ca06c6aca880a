//! CIDR network addresses: an IP address together with a prefix
//! length, parsed from and rendered to the `<address>/<mask>` form.
//!
//! The mask is capped at 32 whatever the address family; validation
//! failures are reported as a tagged error that tells a missing
//! delimiter, an unparsable or out-of-range mask, and a malformed
//! address apart.

use vstd::prelude::*;

use crate::digits::all_digits;
use crate::digits::digit_of_char;
use crate::digits::digit_val;
use crate::digits::digits_of;
use crate::digits::find_at;
use crate::digits::is_digit_b;
use crate::digits::lemma_digits_of_props;
use crate::digits::lemma_find_at_is;
use crate::digits::lemma_run_end_is;
use crate::digits::lemma_run_end_props;
use crate::digits::nat_to_text;
use crate::digits::run_end;
use crate::digits::value_of;
use crate::groups::groups_text;
use crate::groups::lemma_groups_text_chars;
use crate::ip::best_zero_run;
use crate::ip::ip_of_text;
use crate::ip::ip_text;
use crate::ip::ipv4_of_text;
use crate::ip::lemma_ipv4_text_injective;
use crate::ip::mapped_v4;
use crate::ip::parse_ip;
use crate::ip::IpAddr;
use crate::ip::Ipv4Addr;

verus! {

/// Why a mask portion failed to parse as a number.
#[derive(Clone, Copy, Debug, PartialEq, Eq, Structural)]
pub enum IntParseErrorKind {
    /// The portion was empty.
    Empty,
    /// A character was not a decimal digit (an optional leading `+`
    /// aside).
    InvalidDigit,
    /// The number does not fit the mask's machine word.
    TooLarge,
}

/// The underlying failure carried by an unparsable mask.
#[derive(Clone, Copy, Debug, PartialEq, Eq, Structural)]
pub struct IntParseError {
    pub kind: IntParseErrorKind,
}

/// The underlying failure carried by a malformed address portion.
#[derive(Clone, Copy, Debug, PartialEq, Eq, Structural)]
pub struct AddrParseError;

/// Why a CIDR string was rejected.
#[derive(Clone, Copy, Debug, PartialEq, Eq, Structural)]
pub enum CidrAddressParseError {
    /// The string has no `/` separator.
    NoDelimiter,
    /// The address portion is not a valid IP literal.
    InvalidAddr(AddrParseError),
    /// The mask portion did not parse as a number (the cause is
    /// carried), or it parsed but exceeds the allowed bound (no
    /// cause).
    InvalidMask(Option<IntParseError>),
}

/// The mask portion with an optional leading `+` removed.
pub open spec fn sign_skip(s: Seq<char>) -> Seq<char> {
    if s.len() >= 1 && s[0] == '+' {
        s.drop_first()
    } else {
        s
    }
}

/// Whether the portion is a well-formed non-negative decimal literal:
/// an optional `+`, then at least one decimal digit.
pub open spec fn int_literal_wf(s: Seq<char>) -> bool {
    sign_skip(s).len() >= 1 && all_digits(sign_skip(s), 10)
}

/// The numeric value of a well-formed literal.
pub open spec fn int_literal_val(s: Seq<char>) -> nat {
    value_of(sign_skip(s), 10)
}

/// The failure a mask portion is reported with: an empty portion; or
/// the digits scanned left to right already exceed the machine word
/// before any bad character is met; or the bad character itself.
pub open spec fn int_error_kind(s: Seq<char>) -> IntParseErrorKind {
    let d = sign_skip(s);
    if s.len() == 0 {
        IntParseErrorKind::Empty
    } else if value_of(d.take(run_end(d, 0, 10)), 10) > usize::MAX as nat {
        IntParseErrorKind::TooLarge
    } else {
        IntParseErrorKind::InvalidDigit
    }
}

/// What parsing a mask portion yields: its value when it is a
/// well-formed literal that fits, the failure kind otherwise.
pub open spec fn spec_parse_mask(s: Seq<char>) -> Result<usize, IntParseError> {
    if int_literal_wf(s) && int_literal_val(s) <= usize::MAX as nat {
        Ok(int_literal_val(s) as usize)
    } else {
        Err(IntParseError { kind: int_error_kind(s) })
    }
}

/// The rendered form of a CIDR value: the address text, one `/`, the
/// mask in decimal.
pub open spec fn cidr_text(addr: IpAddr, mask: usize) -> Seq<char> {
    ip_text(addr) + seq!['/'] + digits_of(mask as nat, 10)
}

/// What parsing a CIDR string yields.  The string splits at the first
/// `/` (none: the delimiter is missing); the right portion must be a
/// number (else its failure is carried) not above 32 (else the bound
/// alone is reported); the left portion must be an IP literal.
pub open spec fn spec_parse_cidr(s: Seq<char>) -> Result<(IpAddr, usize), CidrAddressParseError> {
    let p = find_at(s, 0, '/');
    if p == s.len() {
        Err(CidrAddressParseError::NoDelimiter)
    } else {
        match spec_parse_mask(s.subrange(p + 1, s.len() as int)) {
            Err(e) => Err(CidrAddressParseError::InvalidMask(Some(e))),
            Ok(mask) => if mask > 32 {
                Err(CidrAddressParseError::InvalidMask(None))
            } else {
                match ip_of_text(s.subrange(0, p)) {
                    Some(ip) => Ok((ip, mask)),
                    None => Err(CidrAddressParseError::InvalidAddr(AddrParseError)),
                }
            },
        }
    }
}

/// Every prefix of a digit string is worth no more than the whole.
proof fn lemma_value_of_take_le(s: Seq<char>, k: int, base: nat)
    requires
        base == 10 || base == 16,
        all_digits(s, base),
        0 <= k <= s.len(),
    ensures
        value_of(s.take(k), base) <= value_of(s, base),
    decreases s.len() - k,
{
    if k == s.len() {
        assert(s.take(k) =~= s);
    } else {
        assert(s.take(k + 1).drop_last() =~= s.take(k));
        assert(s.take(k + 1).last() == s[k]);
        assert(value_of(s.take(k + 1), base) == value_of(s.take(k), base) * base + digit_val(
            s[k],
        ));
        assert(value_of(s.take(k), base) * base >= value_of(s.take(k), base)) by (nonlinear_arith)
            requires
                base >= 2,
        ;
        lemma_value_of_take_le(s, k + 1, base);
    }
}

/// Parses a mask portion as a non-negative decimal number.
#[verifier::loop_isolation(false)]
pub fn parse_mask_text(s: &Vec<char>) -> (r: Result<usize, IntParseError>)
    ensures
        r == spec_parse_mask(s@),
{
    let ghost whole = s@;
    let start: usize = if s.len() >= 1 && s[0] == '+' {
        1
    } else {
        0
    };
    let ghost d = sign_skip(whole);
    proof {
        assert(d =~= whole.subrange(start as int, whole.len() as int));
    }
    if start == s.len() {
        proof {
            assert(run_end(d, 0, 10) == 0);
            assert(d.take(0) =~= Seq::<char>::empty());
            assert(value_of(Seq::<char>::empty(), 10) == 0);
        }
        if s.len() == 0 {
            return Err(IntParseError { kind: IntParseErrorKind::Empty });
        } else {
            return Err(IntParseError { kind: IntParseErrorKind::InvalidDigit });
        }
    }
    proof {
        assert(d.take(0) =~= Seq::<char>::empty());
        assert(value_of(Seq::<char>::empty(), 10) == 0);
    }
    let mut acc: usize = 0;
    let mut j: usize = start;
    while j < s.len()
        invariant
            start <= j <= s@.len(),
            forall|k: int| start <= k < j ==> is_digit_b(s@[k], 10),
            acc as nat == value_of(d.take(j - start), 10),
        decreases s@.len() - j,
    {
        proof {
            assert(forall|k: int| 0 <= k < j - start ==> d[k] == s@[start + k]);
        }
        let dd = match digit_of_char(s[j], 10) {
            Some(dd) => dd,
            None => {
                // A bad character before any overflow: the digits so
                // far are worth `acc`, which fits.
                proof {
                    assert(d[j - start] == s@[j as int]);
                    lemma_run_end_is(d, 0, j - start, 10);
                    assert(d.take(run_end(d, 0, 10)) =~= d.take(j - start));
                    assert(!all_digits(d, 10));
                }
                return Err(IntParseError { kind: IntParseErrorKind::InvalidDigit });
            },
        };
        proof {
            assert(d.take(j - start + 1).drop_last() =~= d.take(j - start));
            assert(d.take(j - start + 1).last() == d[j - start]);
            assert(d[j - start] == s@[j as int]);
            assert(value_of(d.take(j - start + 1), 10) == value_of(d.take(j - start), 10) * 10
                + digit_val(s@[j as int]));
        }
        let overflowed: bool = if acc > usize::MAX / 10 {
            true
        } else {
            proof {
                assert((acc as int) * 10 <= (usize::MAX / 10) as int * 10 <= usize::MAX as int)
                    by (nonlinear_arith)
                    requires
                        acc <= usize::MAX / 10,
                        (usize::MAX / 10) as int == usize::MAX as int / 10,
                ;
            }
            let acc2: usize = acc * 10;
            if dd as usize > usize::MAX - acc2 {
                proof {
                    assert((acc as int) * 10 + (dd as int) > usize::MAX as int);
                }
                true
            } else {
                acc = acc2 + dd as usize;
                false
            }
        };
        if overflowed {
            // The scan overflows here, before any bad character could
            // be met: the run of digits continues at least one past
            // this position, and prefixes only grow in value.
            proof {
                assert((acc as int) * 10 + (digit_val(s@[j as int]) as int) > usize::MAX as int)
                    by (nonlinear_arith)
                    requires
                        acc > usize::MAX / 10 ==> (acc as int) >= usize::MAX as int / 10 + 1,
                        (acc as int) > usize::MAX as int / 10 || (acc as int) * 10 + (digit_val(
                            s@[j as int],
                        ) as int) > usize::MAX as int,
                        digit_val(s@[j as int]) < 10,
                        usize::MAX as int >= 10,
                        usize::MAX as int / 10 * 10 + usize::MAX as int % 10 == usize::MAX as int,
                        usize::MAX as int % 10 < 10,
                ;
                assert(value_of(d.take(j - start + 1), 10) > usize::MAX as nat);
                let e = run_end(d, 0, 10);
                lemma_run_end_props(d, 0, 10);
                assert(d[j - start] == s@[j as int]);
                assert(e >= j - start + 1) by {
                    if e < j - start + 1 {
                        assert(is_digit_b(d[e], 10));
                    }
                }
                assert(all_digits(d.take(e), 10)) by {
                    assert(forall|k: int| 0 <= k < e ==> d.take(e)[k] == d[k]);
                }
                lemma_value_of_take_le(d.take(e), j - start + 1, 10);
                assert(d.take(e).take(j - start + 1) =~= d.take(j - start + 1));
                assert(value_of(d.take(e), 10) > usize::MAX as nat);
                if int_literal_wf(whole) {
                    assert(d.take(e) =~= d) by {
                        lemma_run_end_is(d, 0, d.len() as int, 10);
                    }
                }
            }
            return Err(IntParseError { kind: IntParseErrorKind::TooLarge });
        }
        j = j + 1;
    }
    proof {
        assert(all_digits(d, 10)) by {
            assert(forall|k: int| 0 <= k < d.len() ==> d[k] == s@[start + k]);
        }
        assert(int_literal_wf(whole));
        assert(d.take(j - start) =~= d);
        assert(int_literal_val(whole) == acc as nat);
    }
    Ok(acc)
}

/// An IP address together with its prefix length; the mask is always
/// at most 32.
#[derive(Clone, Copy, Debug, PartialEq, Eq, Structural)]
pub struct CidrAddress {
    addr: IpAddr,
    mask: usize,
}

/// Collects the characters of a string slice.
#[verifier::loop_isolation(false)]
fn chars_of(s: &str) -> (v: Vec<char>)
    ensures
        v@ == s@,
{
    let n = s.unicode_len();
    let mut v: Vec<char> = Vec::new();
    let mut i: usize = 0;
    while i < n
        invariant
            0 <= i <= n,
            v@ =~= s@.take(i as int),
        decreases n - i,
    {
        let c = s.get_char(i);
        v.push(c);
        i = i + 1;
    }
    proof {
        assert(s@.take(n as int) =~= s@);
    }
    v
}

impl CidrAddress {
    /// The address part.
    pub closed spec fn spec_addr(self) -> IpAddr {
        self.addr
    }

    /// The prefix length.
    pub closed spec fn spec_mask(self) -> usize {
        self.mask
    }

    /// Builds a CIDR value from an address and a mask; rejects any
    /// mask above 32, whatever the address family.
    pub fn new(addr: IpAddr, mask: usize) -> (r: Result<Self, CidrAddressParseError>)
        ensures
            match r {
                Ok(c) => mask <= 32 && c.spec_addr() == addr && c.spec_mask() == mask,
                Err(e) => mask > 32 && e == CidrAddressParseError::InvalidMask(None),
            },
    {
        if mask > 32 {
            Err(CidrAddressParseError::InvalidMask(None))
        } else {
            Ok(Self { addr, mask })
        }
    }

    /// The address, read-only.
    pub fn addr(&self) -> (r: IpAddr)
        ensures
            r == self.spec_addr(),
    {
        self.addr
    }

    /// The prefix length, read-only.
    pub fn mask(&self) -> (r: usize)
        ensures
            r == self.spec_mask(),
    {
        self.mask
    }

    /// Parses `<address>/<mask>`: splits at the first `/`, reads the
    /// mask first, checks its bound, then reads the address.
    pub fn from_str(s: &str) -> (r: Result<Self, CidrAddressParseError>)
        ensures
            match r {
                Ok(c) => spec_parse_cidr(s@) == Ok::<_, CidrAddressParseError>(
                    (c.spec_addr(), c.spec_mask()),
                ) && c.spec_mask() <= 32,
                Err(e) => spec_parse_cidr(s@) == Err::<(IpAddr, usize), _>(e),
            },
    {
        let cs = chars_of(s);
        let n = cs.len();
        let mut p: usize = 0;
        while p < n && cs[p] != '/'
            invariant
                0 <= p <= n,
                n == cs@.len(),
                cs@ == s@,
                forall|k: int| 0 <= k < p ==> s@[k] != '/',
            decreases n - p,
        {
            p = p + 1;
        }
        proof {
            lemma_find_at_is(s@, 0, p as int, '/');
        }
        if p == n {
            return Err(CidrAddressParseError::NoDelimiter);
        }
        let mut mv: Vec<char> = Vec::new();
        let mut j: usize = p + 1;
        while j < n
            invariant
                p + 1 <= j <= n,
                n == cs@.len(),
                cs@ == s@,
                mv@ =~= s@.subrange(p + 1, j as int),
            decreases n - j,
        {
            mv.push(cs[j]);
            j = j + 1;
        }
        let mask = match parse_mask_text(&mv) {
            Ok(m) => m,
            Err(e) => {
                return Err(CidrAddressParseError::InvalidMask(Some(e)));
            },
        };
        if mask > 32 {
            return Err(CidrAddressParseError::InvalidMask(None));
        }
        let mut av: Vec<char> = Vec::new();
        let mut i: usize = 0;
        while i < p
            invariant
                0 <= i <= p,
                p < n == cs@.len(),
                cs@ == s@,
                av@ =~= s@.subrange(0, i as int),
            decreases p - i,
        {
            av.push(cs[i]);
            i = i + 1;
        }
        match parse_ip(&av) {
            Some(ip) => Ok(Self { addr: ip, mask }),
            None => Err(CidrAddressParseError::InvalidAddr(AddrParseError)),
        }
    }

    /// Renders the value as `<address>/<mask>`; the exact inverse of
    /// a successful parse.
    pub fn to_text(&self) -> (r: String)
        ensures
            r@ == cidr_text(self.spec_addr(), self.spec_mask()),
    {
        let mut r = self.addr.to_text();
        r.append("/");
        let m = nat_to_text(self.mask as u64, 10);
        r.append(m.as_str());
        proof {
            reveal_strlit("/");
            assert(r@ =~= cidr_text(self.spec_addr(), self.spec_mask()));
        }
        r
    }
}

/// No character of an address text is a `/`.
pub proof fn lemma_ip_text_no_slash(addr: IpAddr)
    ensures
        forall|i: int| 0 <= i < ip_text(addr).len() ==> ip_text(addr)[i] != '/',
{
    match addr {
        IpAddr::V4(x) => {
            lemma_groups_text_chars(x.spec_groups(), 10, '.');
        },
        IpAddr::V6(x) => {
            let gs = x.spec_groups();
            let a = ip_text(addr);
            if gs.len() == 8 && gs[0] == 0 && gs[1] == 0 && gs[2] == 0 && gs[3] == 0 && gs[4] == 0
                && gs[5] == 0xffff {
                reveal_strlit("::ffff:");
                let h = "::ffff:"@;
                let t = mapped_v4(gs).spec_text();
                lemma_groups_text_chars(mapped_v4(gs).spec_groups(), 10, '.');
                assert(a == h + t);
                assert forall|i: int| 0 <= i < a.len() implies a[i] != '/' by {
                    if i < h.len() {
                        assert(a[i] == h[i]);
                    } else {
                        assert(a[i] == t[i - h.len()]);
                    }
                }
            } else {
                let best = best_zero_run(gs, 0);
                if best.1 >= 2 {
                    let h = groups_text(gs.take(best.0), 16, ':');
                    let t = groups_text(gs.skip(best.0 + best.1), 16, ':');
                    lemma_groups_text_chars(gs.take(best.0), 16, ':');
                    lemma_groups_text_chars(gs.skip(best.0 + best.1), 16, ':');
                    assert(a == h + seq![':', ':'] + t);
                    assert forall|i: int| 0 <= i < a.len() implies a[i] != '/' by {
                        if i < h.len() {
                            assert(a[i] == h[i]);
                        } else if i < h.len() + 2 {
                            assert(a[i] == ':');
                        } else {
                            assert(a[i] == t[i - h.len() - 2]);
                        }
                    }
                } else {
                    lemma_groups_text_chars(gs, 16, ':');
                }
            }
        },
    }
}

/// The law behind the round trip: the rendered form of any valid
/// IPv4 CIDR value parses back to exactly that address and mask, so
/// parsing a string of the form `<ipv4>/<n>` and formatting the
/// result reproduces the string, and formatting then parsing
/// reproduces the value.
pub proof fn lemma_cidr_text_parses(x: Ipv4Addr, mask: usize)
    requires
        mask <= 32,
    ensures
        spec_parse_cidr(cidr_text(IpAddr::V4(x), mask)) == Ok::<_, CidrAddressParseError>(
            (IpAddr::V4(x), mask),
        ),
{
    let addr = IpAddr::V4(x);
    let s = cidr_text(addr, mask);
    let a = ip_text(addr);
    let m = digits_of(mask as nat, 10);
    lemma_ip_text_no_slash(addr);
    lemma_digits_of_props(mask as nat, 10);
    assert(forall|k: int| 0 <= k < a.len() ==> s[k] == a[k]);
    assert(s[a.len() as int] == '/');
    lemma_find_at_is(s, 0, a.len() as int, '/');
    let p = find_at(s, 0, '/');
    assert(p == a.len());
    assert(s.subrange(p + 1, s.len() as int) =~= m);
    assert(s.subrange(0, p) =~= a);
    assert(!is_digit_b('+', 10));
    assert(m[0] != '+');
    assert(sign_skip(m) == m);
    assert(int_literal_wf(m));
    assert(int_literal_val(m) == mask as nat);
    assert(spec_parse_mask(m) == Ok::<_, IntParseError>(mask));
    assert(exists|y: Ipv4Addr| y.spec_text() == a) by {
        assert(x.spec_text() == a);
    }
    let y = choose|y: Ipv4Addr| y.spec_text() == a;
    lemma_ipv4_text_injective(x, y);
    assert(ipv4_of_text(a) == Some(x));
    assert(ip_of_text(a) == Some(addr));
}

/// The law of the missing delimiter: a string without `/` is
/// rejected for exactly that reason, regardless of content.
pub proof fn lemma_no_delimiter(s: Seq<char>)
    requires
        forall|i: int| 0 <= i < s.len() ==> s[i] != '/',
    ensures
        spec_parse_cidr(s) == Err::<(IpAddr, usize), _>(CidrAddressParseError::NoDelimiter),
{
    lemma_find_at_is(s, 0, s.len() as int, '/');
}

/// The law of the mask bound: whatever stands left of the `/`, a
/// mask above 32 is rejected as out of range, never as unparsable.
pub proof fn lemma_mask_out_of_range(a: Seq<char>, mask: usize)
    requires
        mask > 32,
        forall|i: int| 0 <= i < a.len() ==> a[i] != '/',
    ensures
        spec_parse_cidr(a + seq!['/'] + digits_of(mask as nat, 10)) == Err::<(IpAddr, usize), _>(
            CidrAddressParseError::InvalidMask(None),
        ),
{
    let s = a + seq!['/'] + digits_of(mask as nat, 10);
    let m = digits_of(mask as nat, 10);
    lemma_digits_of_props(mask as nat, 10);
    assert(forall|k: int| 0 <= k < a.len() ==> s[k] == a[k]);
    assert(s[a.len() as int] == '/');
    lemma_find_at_is(s, 0, a.len() as int, '/');
    let p = find_at(s, 0, '/');
    assert(s.subrange(p + 1, s.len() as int) =~= m);
    assert(!is_digit_b('+', 10));
    assert(m[0] != '+');
    assert(sign_skip(m) == m);
    assert(int_literal_wf(m));
    assert(int_literal_val(m) == mask as nat);
    assert(spec_parse_mask(m) == Ok::<_, IntParseError>(mask));
}

} // verus!
