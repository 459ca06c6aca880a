//! IP addresses as plain values: four octets for IPv4, eight 16-bit
//! segments for IPv6, with verified parsing and formatting of their
//! textual forms.
//!
//! IPv4 literals are dotted decimal without leading zeros.  IPv6
//! literals are colon-separated hexadecimal segments of one to four
//! digits of either case, with one optional `::` standing for one or
//! more zero segments, and an optional embedded IPv4 address for the
//! last two segments.  Formatting renders IPv4 in dotted decimal and
//! IPv6 in the compressed form: an IPv4-mapped address shows its
//! embedded IPv4 part, and otherwise the leftmost longest run of two
//! or more zero segments becomes `::`.

use vstd::prelude::*;

use crate::digits::digits_of;
use crate::digits::hex_digit_of_char;
use crate::digits::hex_run_end;
use crate::digits::hex_val;
use crate::digits::is_hex_digit;
use crate::digits::lemma_digits_of_props;
use crate::digits::lemma_hex_run_end_is;
use crate::digits::run_end;
use crate::digits::value_of;
use crate::groups::groups_text;
use crate::groups::groups_to_text;
use crate::groups::lemma_groups_text_injective;
use crate::groups::parse_groups;

verus! {

/// An IPv4 address, by its four octets.
#[derive(Clone, Copy, Debug, PartialEq, Eq, Structural)]
pub struct Ipv4Addr {
    pub octet0: u8,
    pub octet1: u8,
    pub octet2: u8,
    pub octet3: u8,
}

/// An IPv6 address, by its eight 16-bit segments.
#[derive(Clone, Copy, Debug, PartialEq, Eq, Structural)]
pub struct Ipv6Addr {
    pub seg0: u16,
    pub seg1: u16,
    pub seg2: u16,
    pub seg3: u16,
    pub seg4: u16,
    pub seg5: u16,
    pub seg6: u16,
    pub seg7: u16,
}

/// An IP address of either family.
#[derive(Clone, Copy, Debug, PartialEq, Eq, Structural)]
pub enum IpAddr {
    V4(Ipv4Addr),
    V6(Ipv6Addr),
}

/// Proves the small powers that bound the group values of both
/// families: three decimal digits reach 1000, four hexadecimal
/// digits reach 65536.
proof fn lemma_group_pows()
    ensures
        vstd::arithmetic::power::pow(10, 3) == 1000,
        vstd::arithmetic::power::pow(16, 4) == 65536,
{
    reveal_with_fuel(vstd::arithmetic::power::pow, 6);
}

impl Ipv4Addr {
    /// The octets as a group list.
    pub open spec fn spec_groups(self) -> Seq<u16> {
        seq![self.octet0 as u16, self.octet1 as u16, self.octet2 as u16, self.octet3 as u16]
    }

    /// The canonical dotted-decimal text.
    pub open spec fn spec_text(self) -> Seq<char> {
        groups_text(self.spec_groups(), 10, '.')
    }

    /// Builds the address from its four octets.
    pub fn new(octet0: u8, octet1: u8, octet2: u8, octet3: u8) -> (r: Self)
        ensures
            r == (Ipv4Addr { octet0, octet1, octet2, octet3 }),
    {
        Ipv4Addr { octet0, octet1, octet2, octet3 }
    }

    /// The all-zero address.
    pub fn unspecified() -> (r: Self)
        ensures
            r == (Ipv4Addr { octet0: 0u8, octet1: 0u8, octet2: 0u8, octet3: 0u8 }),
    {
        Ipv4Addr { octet0: 0, octet1: 0, octet2: 0, octet3: 0 }
    }

    /// Renders the address in dotted decimal.
    pub fn to_text(&self) -> (r: String)
        ensures
            r@ == self.spec_text(),
    {
        let mut vs: Vec<u16> = Vec::new();
        vs.push(self.octet0 as u16);
        vs.push(self.octet1 as u16);
        vs.push(self.octet2 as u16);
        vs.push(self.octet3 as u16);
        proof {
            assert(vs@ =~= self.spec_groups());
            reveal_strlit(".");
        }
        groups_to_text(&vs, 10, ".")
    }
}

impl Ipv6Addr {
    /// The segments as a group list.
    pub open spec fn spec_groups(self) -> Seq<u16> {
        seq![self.seg0, self.seg1, self.seg2, self.seg3, self.seg4, self.seg5, self.seg6,
            self.seg7]
    }

    /// The displayed text of the address: the compressed form.
    pub open spec fn spec_text(self) -> Seq<char> {
        ipv6_display(self.spec_groups())
    }

    /// Builds the address from its eight segments.
    pub fn new(seg0: u16, seg1: u16, seg2: u16, seg3: u16, seg4: u16, seg5: u16, seg6: u16,
        seg7: u16) -> (r: Self)
        ensures
            r == (Ipv6Addr { seg0, seg1, seg2, seg3, seg4, seg5, seg6, seg7 }),
    {
        Ipv6Addr { seg0, seg1, seg2, seg3, seg4, seg5, seg6, seg7 }
    }
}

/// The canonical text of an address of either family.
pub open spec fn ip_text(ip: IpAddr) -> Seq<char> {
    match ip {
        IpAddr::V4(x) => x.spec_text(),
        IpAddr::V6(x) => x.spec_text(),
    }
}

/// The IPv4 address whose canonical text is `s`, if there is one.
pub open spec fn ipv4_of_text(s: Seq<char>) -> Option<Ipv4Addr> {
    if exists|x: Ipv4Addr| x.spec_text() == s {
        Some(choose|x: Ipv4Addr| x.spec_text() == s)
    } else {
        None
    }
}

/// The address a text denotes, if any: an IPv4 literal, else an IPv6
/// literal.
pub open spec fn ip_of_text(s: Seq<char>) -> Option<IpAddr> {
    match ipv4_of_text(s) {
        Some(x) => Some(IpAddr::V4(x)),
        None => match parse_ipv6_groups(s) {
            Some(gs) => Some(
                IpAddr::V6(
                    Ipv6Addr {
                        seg0: gs[0],
                        seg1: gs[1],
                        seg2: gs[2],
                        seg3: gs[3],
                        seg4: gs[4],
                        seg5: gs[5],
                        seg6: gs[6],
                        seg7: gs[7],
                    },
                ),
            ),
            None => None,
        },
    }
}

/// Two IPv4 addresses with the same text are the same address.
pub proof fn lemma_ipv4_text_injective(x: Ipv4Addr, y: Ipv4Addr)
    requires
        x.spec_text() == y.spec_text(),
    ensures
        x == y,
{
    lemma_groups_text_injective(x.spec_groups(), y.spec_groups(), 10, '.');
    assert(x.spec_groups()[0] == y.spec_groups()[0]);
    assert(x.spec_groups()[1] == y.spec_groups()[1]);
    assert(x.spec_groups()[2] == y.spec_groups()[2]);
    assert(x.spec_groups()[3] == y.spec_groups()[3]);
}

/// Parses a dotted-decimal IPv4 literal; accepts exactly the
/// canonical texts.
pub fn parse_ipv4(s: &Vec<char>) -> (r: Option<Ipv4Addr>)
    ensures
        match r {
            Some(x) => s@ == x.spec_text(),
            None => forall|x: Ipv4Addr| s@ != #[trigger] x.spec_text(),
        },
{
    proof {
        lemma_group_pows();
    }
    match parse_groups(s, 10, '.', 4, 3, 255) {
        Some(vs) => {
            let x = Ipv4Addr {
                octet0: vs[0] as u8,
                octet1: vs[1] as u8,
                octet2: vs[2] as u8,
                octet3: vs[3] as u8,
            };
            proof {
                assert(x.spec_groups() =~= vs@);
            }
            Some(x)
        },
        None => {
            proof {
                assert forall|x: Ipv4Addr| s@ != #[trigger] x.spec_text() by {
                    let gs = x.spec_groups();
                    assert(gs.len() == 4);
                    assert(forall|i: int| 0 <= i < gs.len() ==> gs[i] <= 255);
                    assert(x.spec_text() == groups_text(gs, 10, '.'));
                }
            }
            None
        },
    }
}

/// One hexadecimal segment at `i`: the maximal run of hex digits of
/// either case, accepted when it is one to four digits long.
pub open spec fn scan_h16(s: Seq<char>, i: int) -> Option<(u16, int)> {
    let e = hex_run_end(s, i);
    if i < e && e <= i + 4 {
        Some((hex_val(s.subrange(i, e)) as u16, e))
    } else {
        None
    }
}

/// One decimal octet at `i`: the maximal digit run, accepted when it
/// is the canonical text of a value up to 255.
pub open spec fn scan_octet(s: Seq<char>, i: int) -> Option<(u16, int)> {
    let e = run_end(s, i, 10);
    if exists|v: u16| v <= 255 && s.subrange(i, e) == digits_of(v as nat, 10) {
        Some((choose|v: u16| v <= 255 && s.subrange(i, e) == digits_of(v as nat, 10), e))
    } else {
        None
    }
}

/// An embedded dotted-decimal IPv4 address at `i`, as the two
/// segments it contributes.
pub open spec fn scan_v4_at(s: Seq<char>, i: int) -> Option<(u16, u16, int)> {
    match scan_octet(s, i) {
        None => None,
        Some(p1) => if p1.1 < s.len() && s[p1.1] == '.' {
            match scan_octet(s, p1.1 + 1) {
                None => None,
                Some(p2) => if p2.1 < s.len() && s[p2.1] == '.' {
                    match scan_octet(s, p2.1 + 1) {
                        None => None,
                        Some(p3) => if p3.1 < s.len() && s[p3.1] == '.' {
                            match scan_octet(s, p3.1 + 1) {
                                None => None,
                                Some(p4) => Some(
                                    (
                                        ((p1.0 as nat) * 256 + (p2.0 as nat)) as u16,
                                        ((p3.0 as nat) * 256 + (p4.0 as nat)) as u16,
                                        p4.1,
                                    ),
                                ),
                            }
                        } else {
                            None
                        },
                    }
                } else {
                    None
                },
            }
        } else {
            None
        },
    }
}

/// Reads up to `limit` segments at `i`, one colon before each but the
/// first; an embedded IPv4 address may stand for the last two.
/// Yields the segments, the next position, and whether an embedded
/// IPv4 address ended the list.
pub open spec fn read_groups(s: Seq<char>, i: int, limit: nat, first: bool) -> (Seq<u16>, int, bool)
    decreases limit,
{
    if limit == 0 {
        (Seq::<u16>::empty(), i, false)
    } else if !first && !(i < s.len() && s[i] == ':') {
        (Seq::<u16>::empty(), i, false)
    } else {
        let j = if first {
            i
        } else {
            i + 1
        };
        if limit >= 2 && scan_v4_at(s, j) is Some {
            match scan_v4_at(s, j) {
                Some(t) => (seq![t.0, t.1], t.2, true),
                None => (Seq::<u16>::empty(), i, false),
            }
        } else {
            match scan_h16(s, j) {
                Some(p) => {
                    let rest = read_groups(s, p.1, (limit - 1) as nat, false);
                    (seq![p.0] + rest.0, rest.1, rest.2)
                },
                None => (Seq::<u16>::empty(), i, false),
            }
        }
    }
}

/// `n` zero segments.
pub open spec fn zero_groups(n: nat) -> Seq<u16> {
    Seq::new(n, |k: int| 0u16)
}

/// The eight segments an IPv6 literal denotes, if the whole text is
/// one: up to eight segments, or fewer followed by `::` standing for
/// the missing (one or more) zero segments and an optional tail; an
/// embedded IPv4 address may close either part, completing the eight
/// in front of no `::`.
pub open spec fn parse_ipv6_groups(s: Seq<char>) -> Option<Seq<u16>> {
    let head = read_groups(s, 0, 8, true);
    if head.0.len() == 8 {
        if head.1 == s.len() {
            Some(head.0)
        } else {
            None
        }
    } else if head.2 {
        None
    } else if head.1 + 1 < s.len() && s[head.1] == ':' && s[head.1 + 1] == ':' {
        let tail = read_groups(s, head.1 + 2, (7 - head.0.len()) as nat, true);
        if tail.1 == s.len() {
            Some(head.0 + zero_groups((8 - head.0.len() - tail.0.len()) as nat) + tail.0)
        } else {
            None
        }
    } else {
        None
    }
}

/// Whether the character is a hexadecimal digit of either case.
fn is_hex_digit_exec(c: char) -> (r: bool)
    ensures
        r == is_hex_digit(c),
{
    match hex_digit_of_char(c) {
        Some(_) => true,
        None => false,
    }
}

/// Scans one hexadecimal segment.
#[verifier::loop_isolation(false)]
fn scan_h16_exec(s: &Vec<char>, i: usize) -> (r: Option<(u16, usize)>)
    requires
        i <= s@.len(),
    ensures
        match r {
            Some(p) => scan_h16(s@, i as int) == Some((p.0, p.1 as int)) && i < p.1 <= s@.len(),
            None => scan_h16(s@, i as int) is None,
        },
{
    let mut e: usize = i;
    while e < s.len() && is_hex_digit_exec(s[e])
        invariant
            i <= e <= s@.len(),
            forall|k: int| i <= k <= e - 1 ==> is_hex_digit(s@[k]),
        decreases s@.len() - e,
    {
        e = e + 1;
    }
    proof {
        lemma_hex_run_end_is(s@, i as int, e as int);
    }
    if e == i || e - i > 4 {
        return None;
    }
    proof {
        lemma_group_pows();
        vstd::arithmetic::power::lemma_pow0(16);
        assert(s@.subrange(i as int, i as int) =~= Seq::<char>::empty());
        assert(hex_val(Seq::<char>::empty()) == 0);
    }
    let mut acc: u32 = 0;
    let mut k: usize = i;
    while k < e
        invariant
            i <= k <= e,
            acc as nat == hex_val(s@.subrange(i as int, k as int)),
            (acc as int) < vstd::arithmetic::power::pow(16, (k - i) as nat),
        decreases e - k,
    {
        // Everything below `e` is a hex digit, so the conversion
        // cannot fail.
        let d = match hex_digit_of_char(s[k]) {
            Some(d) => d,
            None => unreached(),
        };
        proof {
            let pi = vstd::arithmetic::power::pow(16, (k - i) as nat);
            let pj = vstd::arithmetic::power::pow(16, (k + 1 - i) as nat);
            assert(pj == pi * 16) by {
                vstd::arithmetic::power::lemma_pow1(16);
                vstd::arithmetic::power::lemma_pow_adds(16, (k - i) as nat, 1);
            }
            assert(pj <= 65536) by {
                vstd::arithmetic::power::lemma_pow_increases(16, (k + 1 - i) as nat, 4);
            }
            assert((acc as int) * 16 + (d as int) < pj) by (nonlinear_arith)
                requires
                    (acc as int) < pi,
                    (d as int) < 16,
                    pj == pi * 16,
                    pi >= 1,
            ;
            assert(s@.subrange(i as int, k + 1).drop_last() =~= s@.subrange(i as int, k as int));
            assert(s@.subrange(i as int, k + 1).last() == s@[k as int]);
        }
        acc = acc * 16 + d as u32;
        k = k + 1;
    }
    Some((acc as u16, e))
}

/// Scans one decimal octet.
fn scan_octet_exec(s: &Vec<char>, i: usize) -> (r: Option<(u16, usize)>)
    requires
        i <= s@.len(),
    ensures
        match r {
            Some(p) => scan_octet(s@, i as int) == Some((p.0, p.1 as int)) && i < p.1 <= s@.len()
                && p.0 <= 255,
            None => scan_octet(s@, i as int) is None,
        },
{
    proof {
        lemma_group_pows();
    }
    match crate::groups::scan_group(s, i, 10, 3, 255) {
        Some((v, e)) => {
            proof {
                let re = run_end(s@, i as int, 10);
                assert(exists|w: u16| w <= 255 && s@.subrange(i as int, re) == digits_of(
                    w as nat,
                    10,
                )) by {
                    assert(v <= 255 && s@.subrange(i as int, re) == digits_of(v as nat, 10));
                }
                let w = choose|w: u16|
                    w <= 255 && s@.subrange(i as int, re) == digits_of(w as nat, 10);
                lemma_digits_of_props(v as nat, 10);
                lemma_digits_of_props(w as nat, 10);
                assert(value_of(digits_of(v as nat, 10), 10) == value_of(
                    digits_of(w as nat, 10),
                    10,
                ));
                assert(w == v);
            }
            Some((v, e))
        },
        None => None,
    }
}

/// Scans an embedded dotted-decimal IPv4 address.
fn scan_v4_exec(s: &Vec<char>, i: usize) -> (r: Option<(u16, u16, usize)>)
    requires
        i <= s@.len(),
    ensures
        match r {
            Some(t) => scan_v4_at(s@, i as int) == Some((t.0, t.1, t.2 as int)) && i < t.2
                <= s@.len(),
            None => scan_v4_at(s@, i as int) is None,
        },
{
    let (a, e1) = match scan_octet_exec(s, i) {
        Some(p) => p,
        None => {
            return None;
        },
    };
    if e1 == s.len() || s[e1] != '.' {
        return None;
    }
    let (b, e2) = match scan_octet_exec(s, e1 + 1) {
        Some(p) => p,
        None => {
            return None;
        },
    };
    if e2 == s.len() || s[e2] != '.' {
        return None;
    }
    let (c, e3) = match scan_octet_exec(s, e2 + 1) {
        Some(p) => p,
        None => {
            return None;
        },
    };
    if e3 == s.len() || s[e3] != '.' {
        return None;
    }
    let (d, e4) = match scan_octet_exec(s, e3 + 1) {
        Some(p) => p,
        None => {
            return None;
        },
    };
    let hi: u16 = a * 256 + b;
    let lo: u16 = c * 256 + d;
    proof {
        assert(hi as nat == (a as nat) * 256 + (b as nat));
        assert(lo as nat == (c as nat) * 256 + (d as nat));
    }
    Some((hi, lo, e4))
}

/// Reads up to `limit` segments, as `read_groups` describes.
fn read_groups_exec(s: &Vec<char>, i: usize, limit: usize, first: bool) -> (r: (
    Vec<u16>,
    usize,
    bool,
))
    requires
        i <= s@.len(),
    ensures
        ({
            let g = read_groups(s@, i as int, limit as nat, first);
            r.0@ == g.0 && r.1 as int == g.1 && r.2 == g.2 && i <= r.1 <= s@.len() && r.0@.len()
                <= limit
        }),
    decreases limit,
{
    if limit == 0 {
        return (Vec::new(), i, false);
    }
    if !first && !(i < s.len() && s[i] == ':') {
        return (Vec::new(), i, false);
    }
    let j = if first {
        i
    } else {
        i + 1
    };
    if limit >= 2 {
        match scan_v4_exec(s, j) {
            Some((g1, g2, e)) => {
                let mut v: Vec<u16> = Vec::new();
                v.push(g1);
                v.push(g2);
                proof {
                    assert(v@ =~= seq![g1, g2]);
                }
                return (v, e, true);
            },
            None => {},
        }
    }
    match scan_h16_exec(s, j) {
        None => (Vec::new(), i, false),
        Some((val, e)) => {
            let (mut rest, rpos, rip4) = read_groups_exec(s, e, limit - 1, false);
            let mut out: Vec<u16> = Vec::new();
            out.push(val);
            out.append(&mut rest);
            proof {
                assert(out@ =~= seq![val] + read_groups(s@, e as int, (limit - 1) as nat,
                false).0);
            }
            (out, rpos, rip4)
        },
    }
}

/// Parses an IPv6 literal: the grammar `parse_ipv6_groups` states.
pub fn parse_ipv6(s: &Vec<char>) -> (r: Option<Ipv6Addr>)
    ensures
        match r {
            Some(x) => parse_ipv6_groups(s@) == Some(x.spec_groups()),
            None => parse_ipv6_groups(s@) is None,
        },
{
    let (head, hpos, hip4) = read_groups_exec(s, 0, 8, true);
    if head.len() == 8 {
        if hpos == s.len() {
            let x = Ipv6Addr {
                seg0: head[0],
                seg1: head[1],
                seg2: head[2],
                seg3: head[3],
                seg4: head[4],
                seg5: head[5],
                seg6: head[6],
                seg7: head[7],
            };
            proof {
                assert(x.spec_groups() =~= head@);
            }
            return Some(x);
        } else {
            return None;
        }
    }
    if hip4 {
        return None;
    }
    if s.len() - hpos >= 2 && s[hpos] == ':' && s[hpos + 1] == ':' {
        let ghost hseq = head@;
        let limit: usize = 7 - head.len();
        let (mut tail, tpos, _) = read_groups_exec(s, hpos + 2, limit, true);
        if tpos == s.len() {
            let ghost tseq = tail@;
            let zn: usize = 8 - head.len() - tail.len();
            let mut gs = head;
            let mut k: usize = 0;
            while k < zn
                invariant
                    0 <= k <= zn,
                    gs@ =~= hseq + zero_groups(k as nat),
                decreases zn - k,
            {
                gs.push(0);
                proof {
                    assert(zero_groups((k + 1) as nat) =~= zero_groups(k as nat).push(0u16));
                }
                k = k + 1;
            }
            gs.append(&mut tail);
            proof {
                assert(gs@ =~= hseq + zero_groups(zn as nat) + tseq);
                assert(gs@.len() == 8);
            }
            let x = Ipv6Addr {
                seg0: gs[0],
                seg1: gs[1],
                seg2: gs[2],
                seg3: gs[3],
                seg4: gs[4],
                seg5: gs[5],
                seg6: gs[6],
                seg7: gs[7],
            };
            proof {
                assert(x.spec_groups() =~= gs@);
            }
            return Some(x);
        } else {
            return None;
        }
    }
    None
}

/// The length of the run of zero segments starting at `i`.
pub open spec fn zero_run_at(gs: Seq<u16>, i: int) -> int
    decreases gs.len() - i,
    when 0 <= i <= gs.len()
{
    if i < gs.len() && gs[i] == 0 {
        1 + zero_run_at(gs, i + 1)
    } else {
        0
    }
}

/// The leftmost longest run of zero segments at or after `i`: its
/// start and its length.
pub open spec fn best_zero_run(gs: Seq<u16>, i: int) -> (int, int)
    decreases gs.len() - i,
    when 0 <= i <= gs.len()
{
    if i >= gs.len() {
        (i, 0)
    } else {
        let cur = zero_run_at(gs, i);
        let rest = best_zero_run(gs, i + 1);
        if cur >= rest.1 {
            (i, cur)
        } else {
            rest
        }
    }
}

/// The IPv4 address inside an IPv4-mapped segment list.
pub open spec fn mapped_v4(gs: Seq<u16>) -> Ipv4Addr {
    Ipv4Addr {
        octet0: ((gs[6] as nat) / 256) as u8,
        octet1: ((gs[6] as nat) % 256) as u8,
        octet2: ((gs[7] as nat) / 256) as u8,
        octet3: ((gs[7] as nat) % 256) as u8,
    }
}

/// The displayed text of eight segments: an IPv4-mapped address shows
/// its embedded IPv4 part; otherwise the leftmost longest run of two
/// or more zero segments is compressed to `::`, and the rest stands
/// in lowercase hexadecimal.
pub open spec fn ipv6_display(gs: Seq<u16>) -> Seq<char> {
    if gs.len() == 8 && gs[0] == 0 && gs[1] == 0 && gs[2] == 0 && gs[3] == 0 && gs[4] == 0
        && gs[5] == 0xffff {
        "::ffff:"@ + mapped_v4(gs).spec_text()
    } else {
        let best = best_zero_run(gs, 0);
        if best.1 >= 2 {
            groups_text(gs.take(best.0), 16, ':') + seq![':', ':'] + groups_text(
                gs.skip(best.0 + best.1),
                16,
                ':',
            )
        } else {
            groups_text(gs, 16, ':')
        }
    }
}

/// The length of the zero run at `i`.
fn zero_run_at_exec(gs: &Vec<u16>, i: usize) -> (r: usize)
    requires
        i <= gs@.len(),
    ensures
        r as int == zero_run_at(gs@, i as int),
        i + r <= gs@.len(),
    decreases gs@.len() - i,
{
    if i < gs.len() && gs[i] == 0 {
        1 + zero_run_at_exec(gs, i + 1)
    } else {
        0
    }
}

/// The leftmost longest zero run at or after `i`.
fn best_zero_run_exec(gs: &Vec<u16>, i: usize) -> (r: (usize, usize))
    requires
        i <= gs@.len(),
    ensures
        (r.0 as int, r.1 as int) == best_zero_run(gs@, i as int),
        r.0 + r.1 <= gs@.len(),
        i <= r.0,
    decreases gs@.len() - i,
{
    if i >= gs.len() {
        (i, 0)
    } else {
        let cur = zero_run_at_exec(gs, i);
        let rest = best_zero_run_exec(gs, i + 1);
        if cur >= rest.1 {
            (i, cur)
        } else {
            rest
        }
    }
}

impl Ipv6Addr {
    /// Renders the address in its displayed (compressed) form.
    pub fn to_text(&self) -> (r: String)
        ensures
            r@ == self.spec_text(),
    {
        let mut gs: Vec<u16> = Vec::new();
        gs.push(self.seg0);
        gs.push(self.seg1);
        gs.push(self.seg2);
        gs.push(self.seg3);
        gs.push(self.seg4);
        gs.push(self.seg5);
        gs.push(self.seg6);
        gs.push(self.seg7);
        proof {
            assert(gs@ =~= self.spec_groups());
        }
        if self.seg0 == 0 && self.seg1 == 0 && self.seg2 == 0 && self.seg3 == 0 && self.seg4 == 0
            && self.seg5 == 0xffff {
            let v4 = Ipv4Addr {
                octet0: (self.seg6 / 256) as u8,
                octet1: (self.seg6 % 256) as u8,
                octet2: (self.seg7 / 256) as u8,
                octet3: (self.seg7 % 256) as u8,
            };
            proof {
                assert(v4 == mapped_v4(self.spec_groups()));
            }
            let mut r = String::from_str("::ffff:");
            let t = v4.to_text();
            r.append(t.as_str());
            proof {
                assert(r@ =~= self.spec_text());
            }
            r
        } else {
            let (st, ln) = best_zero_run_exec(&gs, 0);
            if ln >= 2 {
                let mut r = String::new();
                if st > 0 {
                    let mut prefix: Vec<u16> = Vec::new();
                    let mut k: usize = 0;
                    while k < st
                        invariant
                            0 <= k <= st <= gs@.len(),
                            prefix@ =~= gs@.take(k as int),
                            gs@ == self.spec_groups(),
                        decreases st - k,
                    {
                        prefix.push(gs[k]);
                        k = k + 1;
                    }
                    proof {
                        reveal_strlit(":");
                    }
                    let p = groups_to_text(&prefix, 16, ":");
                    r.append(p.as_str());
                }
                r.append("::");
                if st + ln < 8 {
                    let mut suffix: Vec<u16> = Vec::new();
                    let mut k: usize = st + ln;
                    while k < 8
                        invariant
                            st + ln <= k <= 8,
                            gs@.len() == 8,
                            suffix@ =~= gs@.subrange(st + ln, k as int),
                            gs@ == self.spec_groups(),
                        decreases 8 - k,
                    {
                        suffix.push(gs[k]);
                        k = k + 1;
                    }
                    proof {
                        reveal_strlit(":");
                        assert(suffix@ =~= gs@.skip(st + ln));
                    }
                    let q = groups_to_text(&suffix, 16, ":");
                    r.append(q.as_str());
                }
                proof {
                    reveal_strlit("::");
                    assert("::"@ =~= seq![':', ':']);
                    if st == 0 {
                        assert(gs@.take(0) =~= Seq::<u16>::empty());
                        assert(groups_text(Seq::<u16>::empty(), 16, ':')
                            == Seq::<char>::empty());
                    }
                    if st + ln == 8 {
                        assert(gs@.skip(st + ln) =~= Seq::<u16>::empty());
                        assert(groups_text(Seq::<u16>::empty(), 16, ':')
                            == Seq::<char>::empty());
                    }
                    assert(r@ =~= self.spec_text());
                }
                r
            } else {
                proof {
                    reveal_strlit(":");
                }
                let r = groups_to_text(&gs, 16, ":");
                proof {
                    assert(r@ =~= self.spec_text());
                }
                r
            }
        }
    }
}

impl IpAddr {
    /// The all-zero IPv4 address.
    pub open spec fn unspecified_v4_spec() -> IpAddr {
        IpAddr::V4(Ipv4Addr { octet0: 0u8, octet1: 0u8, octet2: 0u8, octet3: 0u8 })
    }

    /// The all-zero IPv4 address, the placeholder the defaults use.
    pub fn unspecified_v4() -> (r: Self)
        ensures
            r == IpAddr::unspecified_v4_spec(),
    {
        IpAddr::V4(Ipv4Addr::unspecified())
    }

    /// Renders the address in its family's canonical text.
    pub fn to_text(&self) -> (r: String)
        ensures
            r@ == ip_text(*self),
    {
        match self {
            IpAddr::V4(x) => x.to_text(),
            IpAddr::V6(x) => x.to_text(),
        }
    }
}

/// Parses an IP address literal of either family: first as dotted
/// decimal, then as colon-separated hexadecimal.
pub fn parse_ip(s: &Vec<char>) -> (r: Option<IpAddr>)
    ensures
        r == ip_of_text(s@),
{
    match parse_ipv4(s) {
        Some(x) => {
            proof {
                assert(exists|y: Ipv4Addr| y.spec_text() == s@) by {
                    assert(x.spec_text() == s@);
                }
                let y = choose|y: Ipv4Addr| y.spec_text() == s@;
                lemma_ipv4_text_injective(x, y);
            }
            Some(IpAddr::V4(x))
        },
        None => {
            match parse_ipv6(s) {
                Some(x) => {
                    proof {
                        assert(ipv4_of_text(s@) is None);
                        let gs = x.spec_groups();
                        assert(x == (Ipv6Addr {
                            seg0: gs[0],
                            seg1: gs[1],
                            seg2: gs[2],
                            seg3: gs[3],
                            seg4: gs[4],
                            seg5: gs[5],
                            seg6: gs[6],
                            seg7: gs[7],
                        }));
                    }
                    Some(IpAddr::V6(x))
                },
                None => {
                    proof {
                        assert(ipv4_of_text(s@) is None);
                    }
                    None
                },
            }
        },
    }
}

} // verus!
