//! Separator-joined groups of numbers: the textual form shared by
//! dotted-decimal IPv4 literals and colon-separated hexadecimal IPv6
//! literals, with a verified scanner and renderer for it.
//!
//! A group list renders as the canonical text of each group, joined
//! by a single separator character.  The scanner accepts exactly the
//! strings of that form whose groups stay within a bound.

use vstd::prelude::*;

use crate::digits::digit_of_char;
use crate::digits::digits_of;
use crate::digits::is_digit_b;
use crate::digits::lemma_canonical_digits;
use crate::digits::lemma_digits_of_len;
use crate::digits::lemma_digits_of_props;
use crate::digits::lemma_run_end_is;
use crate::digits::nat_to_text;
use crate::digits::run_end;
use crate::digits::value_of;

verus! {

/// The text of a group list: the canonical text of each group, joined
/// by the separator.
pub open spec fn groups_text(gs: Seq<u16>, base: nat, sep: char) -> Seq<char>
    decreases gs.len(),
{
    if gs.len() == 0 {
        Seq::<char>::empty()
    } else if gs.len() == 1 {
        digits_of(gs[0] as nat, base)
    } else {
        digits_of(gs[0] as nat, base) + seq![sep] + groups_text(gs.drop_first(), base, sep)
    }
}

/// Appending a group appends its text behind one separator.
pub proof fn lemma_groups_text_push(gs: Seq<u16>, v: u16, base: nat, sep: char)
    ensures
        gs.len() == 0 ==> groups_text(gs.push(v), base, sep) == digits_of(v as nat, base),
        gs.len() >= 1 ==> groups_text(gs.push(v), base, sep) == groups_text(gs, base, sep)
            + seq![sep] + digits_of(v as nat, base),
    decreases gs.len(),
{
    let p = gs.push(v);
    if gs.len() == 0 {
        assert(p.len() == 1);
        assert(p[0] == v);
    } else if gs.len() == 1 {
        assert(p.len() == 2);
        assert(p[0] == gs[0]);
        assert(p.drop_first() =~= seq![v]);
        assert(groups_text(seq![v], base, sep) == digits_of(v as nat, base));
    } else {
        assert(p.drop_first() =~= gs.drop_first().push(v));
        lemma_groups_text_push(gs.drop_first(), v, base, sep);
        assert(p[0] == gs[0]);
        assert(groups_text(p, base, sep) == digits_of(gs[0] as nat, base) + seq![sep]
            + groups_text(gs.drop_first().push(v), base, sep));
        assert(digits_of(gs[0] as nat, base) + seq![sep] + (groups_text(
            gs.drop_first(),
            base,
            sep,
        ) + seq![sep] + digits_of(v as nat, base)) =~= (digits_of(gs[0] as nat, base) + seq![sep]
            + groups_text(gs.drop_first(), base, sep)) + seq![sep] + digits_of(v as nat, base));
    }
}

/// Splitting a group list splits its text at one separator.
pub proof fn lemma_groups_text_split(gs: Seq<u16>, k: int, base: nat, sep: char)
    requires
        1 <= k < gs.len(),
    ensures
        groups_text(gs, base, sep) == groups_text(gs.take(k), base, sep) + seq![sep]
            + groups_text(gs.skip(k), base, sep),
    decreases k,
{
    if k == 1 {
        assert(gs.take(1) =~= seq![gs[0]]);
        assert(gs.skip(1) =~= gs.drop_first());
        assert(groups_text(seq![gs[0]], base, sep) == digits_of(gs[0] as nat, base));
    } else {
        let t = gs.drop_first();
        lemma_groups_text_split(t, k - 1, base, sep);
        assert(gs.take(k).drop_first() =~= t.take(k - 1));
        assert(gs.skip(k) =~= t.skip(k - 1));
        assert(gs.take(k).len() >= 2);
        assert(gs.take(k)[0] == gs[0]);
        assert(groups_text(gs.take(k), base, sep) == digits_of(gs[0] as nat, base) + seq![sep]
            + groups_text(t.take(k - 1), base, sep));
        assert(digits_of(gs[0] as nat, base) + seq![sep] + (groups_text(t.take(k - 1), base, sep)
            + seq![sep] + groups_text(t.skip(k - 1), base, sep)) =~= (digits_of(
            gs[0] as nat,
            base,
        ) + seq![sep] + groups_text(t.take(k - 1), base, sep)) + seq![sep] + groups_text(
            t.skip(k - 1),
            base,
            sep,
        ));
    }
}

/// Every character of a group-list text is a digit of the base or the
/// separator.
pub proof fn lemma_groups_text_chars(gs: Seq<u16>, base: nat, sep: char)
    requires
        base == 10 || base == 16,
    ensures
        forall|i: int|
            0 <= i < groups_text(gs, base, sep).len() ==> (is_digit_b(
                #[trigger] groups_text(gs, base, sep)[i],
                base,
            ) || groups_text(gs, base, sep)[i] == sep),
    decreases gs.len(),
{
    let s = groups_text(gs, base, sep);
    if gs.len() == 0 {
    } else if gs.len() == 1 {
        lemma_digits_of_props(gs[0] as nat, base);
        let a = digits_of(gs[0] as nat, base);
        assert forall|i: int| 0 <= i < s.len() implies (is_digit_b(s[i], base) || s[i]
            == sep) by {
            assert(s[i] == a[i]);
            assert(is_digit_b(a[i], base));
        }
    } else {
        lemma_digits_of_props(gs[0] as nat, base);
        lemma_groups_text_chars(gs.drop_first(), base, sep);
        let a = digits_of(gs[0] as nat, base);
        let rest = groups_text(gs.drop_first(), base, sep);
        assert(s == a + seq![sep] + rest);
        assert forall|i: int| 0 <= i < s.len() implies (is_digit_b(s[i], base) || s[i]
            == sep) by {
            if i < a.len() {
                assert(s[i] == a[i]);
                assert(is_digit_b(a[i], base));
            } else if i == a.len() {
                assert(s[i] == sep);
            } else {
                assert(s[i] == rest[i - a.len() - 1]);
            }
        }
    }
}

/// A group-list text determines the groups: equal texts of equally
/// long lists mean equal lists.
pub proof fn lemma_groups_text_injective(gs1: Seq<u16>, gs2: Seq<u16>, base: nat, sep: char)
    requires
        base == 10 || base == 16,
        !is_digit_b(sep, base),
        gs1.len() == gs2.len(),
        groups_text(gs1, base, sep) == groups_text(gs2, base, sep),
    ensures
        gs1 == gs2,
    decreases gs1.len(),
{
    if gs1.len() == 0 {
        assert(gs1 =~= gs2);
    } else {
        let s = groups_text(gs1, base, sep);
        let a1 = digits_of(gs1[0] as nat, base);
        let a2 = digits_of(gs2[0] as nat, base);
        lemma_digits_of_props(gs1[0] as nat, base);
        lemma_digits_of_props(gs2[0] as nat, base);
        if gs1.len() == 1 {
            assert(a1 == a2);
            assert(value_of(a1, base) == value_of(a2, base));
            assert(gs1[0] as nat == gs2[0] as nat);
            assert(gs1[0] == gs2[0]);
            assert(gs1 =~= gs2);
        } else {
            let r1 = groups_text(gs1.drop_first(), base, sep);
            let r2 = groups_text(gs2.drop_first(), base, sep);
            assert(s == a1 + seq![sep] + r1);
            assert(s == a2 + seq![sep] + r2);
            assert(forall|k: int| 0 <= k < a1.len() ==> s[k] == a1[k]);
            assert(forall|k: int| 0 <= k < a2.len() ==> s[k] == a2[k]);
            assert(s[a1.len() as int] == sep);
            assert(s[a2.len() as int] == sep);
            lemma_run_end_is(s, 0, a1.len() as int, base);
            lemma_run_end_is(s, 0, a2.len() as int, base);
            assert(a1.len() == a2.len());
            assert(a1 =~= a2);
            assert(value_of(a1, base) == value_of(a2, base));
            assert(gs1[0] == gs2[0]);
            assert(r1 =~= r2) by {
                assert(forall|k: int|
                    0 <= k < r1.len() ==> r1[k] == s[a1.len() + 1 + k] && r2[k] == s[a1.len() + 1
                        + k]);
            }
            lemma_groups_text_injective(gs1.drop_first(), gs2.drop_first(), base, sep);
            assert forall|i: int| 0 <= i < gs1.len() implies gs1[i] == gs2[i] by {
                if i >= 1 {
                    assert(gs1[i] == gs1.drop_first()[i - 1]);
                    assert(gs2[i] == gs2.drop_first()[i - 1]);
                }
            }
            assert(gs1 =~= gs2);
        }
    }
}

/// Scans one group at `start`: the maximal digit run there, accepted
/// exactly when it is the canonical text of a value not above
/// `max_val`.
#[verifier::loop_isolation(false)]
pub fn scan_group(s: &Vec<char>, start: usize, base: u16, max_len: usize, max_val: u16) -> (r:
    Option<(u16, usize)>)
    requires
        start <= s@.len(),
        base == 10 || base == 16,
        1 <= max_len <= 4,
        (max_val as nat) < vstd::arithmetic::power::pow(base as int, max_len as nat),
        vstd::arithmetic::power::pow(base as int, max_len as nat) <= 65536,
    ensures
        match r {
            Some(p) => p.1 == run_end(s@, start as int, base as nat) && start < p.1 <= s@.len()
                && p.0 <= max_val && s@.subrange(start as int, p.1 as int) == digits_of(
                p.0 as nat,
                base as nat,
            ),
            None => forall|v: u16|
                v <= max_val ==> s@.subrange(
                    start as int,
                    run_end(s@, start as int, base as nat),
                ) != digits_of(v as nat, base as nat),
        },
{
    let ghost bs = base as nat;
    let mut e: usize = start;
    while e < s.len() && is_digit_exec(s[e], base)
        invariant
            start <= e <= s@.len(),
            forall|k: int| start <= k <= e - 1 ==> is_digit_b(s@[k], base as nat),
        decreases s@.len() - e,
    {
        e = e + 1;
    }
    proof {
        lemma_run_end_is(s@, start as int, e as int, bs);
    }
    let ghost re = run_end(s@, start as int, bs);
    let ghost g = s@.subrange(start as int, e as int);
    let len: usize = e - start;
    if len == 0 {
        proof {
            assert forall|v: u16| v <= max_val implies s@.subrange(start as int, re) != digits_of(
                v as nat,
                bs,
            ) by {
                lemma_digits_of_props(v as nat, bs);
            }
        }
        return None;
    }
    if len > max_len {
        proof {
            assert forall|v: u16| v <= max_val implies s@.subrange(start as int, re) != digits_of(
                v as nat,
                bs,
            ) by {
                lemma_digits_of_len(v as nat, bs, max_len as nat);
            }
        }
        return None;
    }
    if len > 1 && s[start] == '0' {
        proof {
            assert forall|v: u16| v <= max_val implies s@.subrange(start as int, re) != digits_of(
                v as nat,
                bs,
            ) by {
                lemma_digits_of_props(v as nat, bs);
                if s@.subrange(start as int, re) == digits_of(v as nat, bs) {
                    assert(digits_of(v as nat, bs)[0] == '0');
                    assert(v == 0);
                    assert(digits_of(v as nat, bs).len() == 1);
                }
            }
        }
        return None;
    }
    proof {
        vstd::arithmetic::power::lemma_pow0(base as int);
        assert(s@.subrange(start as int, start as int) =~= Seq::<char>::empty());
        assert(value_of(Seq::<char>::empty(), bs) == 0);
    }
    let mut acc: u32 = 0;
    let mut i: usize = start;
    while i < e
        invariant
            start <= i <= e,
            acc as nat == value_of(s@.subrange(start as int, i as int), base as nat),
            (acc as int) < vstd::arithmetic::power::pow(base as int, (i - start) as nat),
        decreases e - i,
    {
        // The run below `e` holds digits only, so the conversion
        // cannot fail.
        let d = match digit_of_char(s[i], base) {
            Some(d) => d,
            None => unreached(),
        };
        proof {
            let pi = vstd::arithmetic::power::pow(base as int, (i - start) as nat);
            let pj = vstd::arithmetic::power::pow(base as int, (i + 1 - start) as nat);
            assert(pj == pi * base) by {
                vstd::arithmetic::power::lemma_pow1(base as int);
                vstd::arithmetic::power::lemma_pow_adds(base as int, (i - start) as nat, 1);
            }
            assert(pj <= 65536) by {
                vstd::arithmetic::power::lemma_pow_increases(
                    base as nat,
                    (i + 1 - start) as nat,
                    max_len as nat,
                );
            }
            assert((acc as int) * (base as int) + (d as int) < pj) by (nonlinear_arith)
                requires
                    (acc as int) < pi,
                    (d as int) < (base as int),
                    pj == pi * (base as int),
                    (base as int) >= 2,
                    pi >= 1,
            ;
            assert(s@.subrange(start as int, i + 1).drop_last() =~= s@.subrange(
                start as int,
                i as int,
            ));
            assert(s@.subrange(start as int, i + 1).last() == s@[i as int]);
        }
        acc = acc * (base as u32) + (d as u32);
        i = i + 1;
    }
    proof {
        assert(s@.subrange(start as int, i as int) == g);
    }
    if acc > max_val as u32 {
        proof {
            assert forall|v: u16| v <= max_val implies s@.subrange(start as int, re) != digits_of(
                v as nat,
                bs,
            ) by {
                lemma_digits_of_props(v as nat, bs);
                if s@.subrange(start as int, re) == digits_of(v as nat, bs) {
                    assert(value_of(g, bs) == v);
                }
            }
        }
        return None;
    }
    proof {
        lemma_canonical_digits(g, bs);
    }
    Some((acc as u16, e))
}

/// Whether the character is a digit of the base.
pub fn is_digit_exec(c: char, base: u16) -> (r: bool)
    requires
        base == 10 || base == 16,
    ensures
        r == is_digit_b(c, base as nat),
{
    match digit_of_char(c, base) {
        Some(_) => true,
        None => false,
    }
}

/// Parses the whole string as exactly `count` groups joined by the
/// separator, each group canonical and not above `max_val`.
#[verifier::loop_isolation(false)]
#[verifier::rlimit(60)]
pub fn parse_groups(s: &Vec<char>, base: u16, sep: char, count: usize, max_len: usize, max_val: u16)
    -> (r: Option<Vec<u16>>)
    requires
        base == 10 || base == 16,
        !is_digit_b(sep, base as nat),
        1 <= count,
        1 <= max_len <= 4,
        (max_val as nat) < vstd::arithmetic::power::pow(base as int, max_len as nat),
        vstd::arithmetic::power::pow(base as int, max_len as nat) <= 65536,
    ensures
        match r {
            Some(vs) => vs@.len() == count && (forall|i: int| 0 <= i < count ==> vs@[i] <= max_val)
                && s@ == groups_text(vs@, base as nat, sep),
            None => forall|gs: Seq<u16>|
                gs.len() == count && (forall|i: int| 0 <= i < gs.len() ==> gs[i] <= max_val)
                    ==> s@ != #[trigger] groups_text(gs, base as nat, sep),
        },
{
    let ghost bs = base as nat;
    let mut vs: Vec<u16> = Vec::new();
    let mut pos: usize = 0;
    let mut k: usize = 0;
    while k < count
        invariant
            0 <= k <= count,
            vs@.len() == k,
            pos <= s@.len(),
            forall|i: int| 0 <= i < k ==> vs@[i] <= max_val,
            k == 0 ==> pos == 0,
            k > 0 ==> pos as int == groups_text(vs@, bs, sep).len() && s@.subrange(0, pos as int)
                == groups_text(vs@, bs, sep),
            forall|gs: Seq<u16>|
                (gs.len() == count && (forall|i: int| 0 <= i < gs.len() ==> gs[i] <= max_val) && s@
                    == #[trigger] groups_text(gs, bs, sep)) ==> gs.take(k as int) == vs@,
        decreases count - k,
    {
        let ghost old_pos = pos;
        if k > 0 {
            if pos == s.len() || s[pos] != sep {
                proof {
                    assert forall|gs: Seq<u16>|
                        (gs.len() == count && (forall|i: int|
                            0 <= i < gs.len() ==> gs[i] <= max_val) && s@ == #[trigger] groups_text(
                            gs,
                            bs,
                            sep,
                        )) implies false by {
                        lemma_groups_text_split(gs, k as int, bs, sep);
                        assert(gs.take(k as int) == vs@);
                        assert(s@[pos as int] == sep);
                    }
                }
                return None;
            }
            pos = pos + 1;
        }
        // For any group list whose text is the whole string, the text
        // of its group `k` begins exactly at `pos` and runs to the
        // next separator or the end.
        proof {
            assert forall|gs: Seq<u16>|
                (gs.len() == count && (forall|i: int| 0 <= i < gs.len() ==> gs[i] <= max_val) && s@
                    == #[trigger] groups_text(gs, bs, sep)) implies {
                let gl = digits_of(gs[k as int] as nat, bs).len();
                &&& pos + gl <= s@.len()
                &&& s@.subrange(pos as int, pos + gl) == digits_of(gs[k as int] as nat, bs)
                &&& run_end(s@, pos as int, bs) == pos + gl
            } by {
                let tail = gs.skip(k as int);
                let gtxt = digits_of(gs[k as int] as nat, bs);
                let gl = gtxt.len();
                lemma_digits_of_props(gs[k as int] as nat, bs);
                assert(gs.take(k as int) == vs@);
                if k == 0 {
                    assert(tail =~= gs);
                    assert(s@ == groups_text(tail, bs, sep));
                } else {
                    lemma_groups_text_split(gs, k as int, bs, sep);
                    assert(s@ == groups_text(vs@, bs, sep) + seq![sep] + groups_text(
                        tail,
                        bs,
                        sep,
                    ));
                }
                assert(tail.len() == count - k);
                if tail.len() == 1 {
                    assert(groups_text(tail, bs, sep) == gtxt);
                    assert(pos + gl == s@.len());
                    assert(forall|j: int| 0 <= j < gl ==> s@[pos + j] == gtxt[j]);
                    assert(s@.subrange(pos as int, pos + gl) =~= gtxt);
                    lemma_run_end_is(s@, pos as int, pos + gl, bs);
                } else {
                    assert(tail[0] == gs[k as int]);
                    assert(groups_text(tail, bs, sep) == gtxt + seq![sep] + groups_text(
                        tail.drop_first(),
                        bs,
                        sep,
                    ));
                    assert(forall|j: int| 0 <= j < gl ==> s@[pos + j] == gtxt[j]);
                    assert(s@[pos + gl] == sep);
                    assert(s@.subrange(pos as int, pos + gl) =~= gtxt);
                    lemma_run_end_is(s@, pos as int, pos + gl, bs);
                }
            }
        }
        match scan_group(s, pos, base, max_len, max_val) {
            None => {
                proof {
                    assert forall|gs: Seq<u16>|
                        (gs.len() == count && (forall|i: int|
                            0 <= i < gs.len() ==> gs[i] <= max_val) && s@ == #[trigger] groups_text(
                            gs,
                            bs,
                            sep,
                        )) implies false by {
                        let gl = digits_of(gs[k as int] as nat, bs).len();
                        assert(s@.subrange(pos as int, run_end(s@, pos as int, bs)) == digits_of(
                            gs[k as int] as nat,
                            bs,
                        ));
                        assert(gs[k as int] <= max_val);
                    }
                }
                return None;
            },
            Some((v, end)) => {
                proof {
                    let nvs = vs@.push(v);
                    lemma_groups_text_push(vs@, v, bs, sep);
                    if k == 0 {
                        assert(pos == 0);
                        assert(groups_text(nvs, bs, sep) == digits_of(v as nat, bs));
                        assert(s@.subrange(0, end as int) == digits_of(v as nat, bs));
                    } else {
                        assert(groups_text(nvs, bs, sep) == groups_text(vs@, bs, sep) + seq![sep]
                            + digits_of(v as nat, bs));
                        assert(s@[old_pos as int] == sep);
                        assert(s@.subrange(0, end as int) =~= s@.subrange(0, old_pos as int)
                            + seq![s@[old_pos as int]] + s@.subrange(pos as int, end as int));
                    }
                    assert(s@.subrange(0, end as int) == groups_text(nvs, bs, sep));
                    assert(groups_text(nvs, bs, sep).len() == end);
                    assert forall|gs: Seq<u16>|
                        (gs.len() == count && (forall|i: int|
                            0 <= i < gs.len() ==> gs[i] <= max_val) && s@ == #[trigger] groups_text(
                            gs,
                            bs,
                            sep,
                        )) implies gs.take(k + 1) == nvs by {
                        let gtxt = digits_of(gs[k as int] as nat, bs);
                        let gl = gtxt.len();
                        assert(run_end(s@, pos as int, bs) == pos + gl);
                        assert(end == pos + gl);
                        assert(s@.subrange(pos as int, end as int) == gtxt);
                        assert(digits_of(v as nat, bs) == gtxt);
                        lemma_digits_of_props(v as nat, bs);
                        lemma_digits_of_props(gs[k as int] as nat, bs);
                        assert(value_of(digits_of(v as nat, bs), bs) == value_of(gtxt, bs));
                        assert(v == gs[k as int]);
                        assert(gs.take(k as int) == vs@);
                        assert(gs.take(k + 1) =~= gs.take(k as int).push(gs[k as int]));
                    }
                }
                vs.push(v);
                pos = end;
            },
        }
        k = k + 1;
    }
    if pos != s.len() {
        proof {
            assert forall|gs: Seq<u16>|
                (gs.len() == count && (forall|i: int| 0 <= i < gs.len() ==> gs[i] <= max_val) && s@
                    == #[trigger] groups_text(gs, bs, sep)) implies false by {
                assert(gs.take(count as int) =~= gs);
                assert(groups_text(gs, bs, sep).len() == pos as int);
            }
        }
        return None;
    }
    proof {
        assert(s@.subrange(0, pos as int) =~= s@);
    }
    Some(vs)
}

/// Renders a group list as the canonical text of each group joined by
/// the one-character separator.
#[verifier::loop_isolation(false)]
pub fn groups_to_text(vs: &Vec<u16>, base: u16, sep_text: &str) -> (r: String)
    requires
        base == 10 || base == 16,
        vs@.len() >= 1,
        sep_text@.len() == 1,
    ensures
        r@ == groups_text(vs@, base as nat, sep_text@[0]),
{
    let ghost bs = base as nat;
    let ghost sep = sep_text@[0];
    let mut r = String::new();
    let mut i: usize = 0;
    while i < vs.len()
        invariant
            0 <= i <= vs@.len(),
            i == 0 ==> r@ == Seq::<char>::empty(),
            i > 0 ==> r@ == groups_text(vs@.take(i as int), bs, sep),
        decreases vs@.len() - i,
    {
        if i > 0 {
            r.append(sep_text);
            proof {
                assert(sep_text@ =~= seq![sep]);
            }
        }
        let t = nat_to_text(vs[i] as u64, base);
        r.append(t.as_str());
        proof {
            lemma_groups_text_push(vs@.take(i as int), vs@[i as int], bs, sep);
            assert(vs@.take(i as int).push(vs@[i as int]) =~= vs@.take(i + 1));
        }
        i = i + 1;
    }
    proof {
        assert(vs@.take(vs@.len() as int) =~= vs@);
    }
    r
}

} // verus!
