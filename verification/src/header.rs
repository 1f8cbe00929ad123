//! The persisted usage-statistics header.
//!
//! The header is the textual, pipe-delimited encoding of the four counters,
//! `read_count|write_count|append_count|num_pages`, stored at the start of
//! the medium inside the reserved first page-sized region. The counter text
//! is NUL-terminated within that region; everything from the first NUL on is
//! padding. On open, the text is split on `|` into exactly four fields, each
//! trimmed of surrounding whitespace and parsed as a non-negative integer;
//! a genuinely zero-valued counter is valid data.
//!
//! A header that does not split into exactly four non-empty fields is
//! tolerated: the store opens with all counters reset to zero (availability
//! over strict header integrity). A field that is present but not numeric,
//! or too large for this machine to hold or address, is fatal: the store
//! cannot be opened.

use vstd::arithmetic::div_mod::lemma_fundamental_div_mod;
use vstd::prelude::*;

use crate::error::StoreError;
use crate::layout::MAX_PAGES;

verus! {

/// ASCII decimal digit.
pub open spec fn is_digit(b: u8) -> bool {
    48 <= b <= 57
}

/// ASCII whitespace trimmed from header fields.
pub open spec fn is_space(b: u8) -> bool {
    b == 32 || b == 9 || b == 10 || b == 13
}

pub open spec fn all_digits(s: Seq<u8>) -> bool {
    forall|i: int| 0 <= i < s.len() ==> is_digit(#[trigger] s[i])
}

/// Numeric value of a digit string, most significant digit first.
pub open spec fn dec_value(s: Seq<u8>) -> nat
    recommends
        all_digits(s),
    decreases s.len(),
{
    if s.len() == 0 {
        0
    } else {
        dec_value(s.drop_last()) * 10 + ((s.last() - 48) as nat)
    }
}

/// Canonical decimal digit string of a number: no sign, no leading zero
/// (except for the single digit of zero itself).
pub open spec fn dec_digits(n: nat) -> Seq<u8>
    decreases n,
{
    if n < 10 {
        seq![(48 + n) as u8]
    } else {
        dec_digits(n / 10).push((48 + n % 10) as u8)
    }
}

pub proof fn lemma_dec_digits_are_digits(n: nat)
    ensures
        all_digits(dec_digits(n)),
        dec_digits(n).len() >= 1,
    decreases n,
{
    if n >= 10 {
        lemma_dec_digits_are_digits(n / 10);
        let s = dec_digits(n / 10);
        assert forall|i: int| 0 <= i < dec_digits(n).len() implies is_digit(
            #[trigger] dec_digits(n)[i],
        ) by {
            if i < s.len() {
                assert(is_digit(s[i]));
            }
        }
    }
}

/// Decoding inverts encoding: the digit string of `n` evaluates to `n`.
pub proof fn lemma_dec_value_of_digits(n: nat)
    ensures
        dec_value(dec_digits(n)) == n,
    decreases n,
{
    if n < 10 {
        let s = dec_digits(n);
        assert(s == seq![(48 + n) as u8]);
        assert(s.len() == 1);
        assert(s.drop_last() =~= Seq::<u8>::empty());
        assert(dec_value(s.drop_last()) == 0);
        assert(s.last() == (48 + n) as u8);
        assert(((s.last() - 48) as nat) == n);
        assert(dec_value(s) == n);
    } else {
        lemma_dec_value_of_digits(n / 10);
        let s = dec_digits(n);
        assert(s == dec_digits(n / 10).push((48 + n % 10) as u8));
        assert(s.len() == dec_digits(n / 10).len() + 1);
        assert(s.drop_last() =~= dec_digits(n / 10));
        assert(s.last() == (48 + n % 10) as u8);
        assert(((s.last() - 48) as nat) == n % 10);
        assert(dec_value(s) == dec_value(dec_digits(n / 10)) * 10 + n % 10);
        lemma_fundamental_div_mod(n as int, 10);
        assert(dec_value(s) == (n / 10) * 10 + n % 10);
    }
}

pub open spec fn pow10(k: nat) -> nat
    decreases k,
{
    if k == 0 {
        1
    } else {
        10 * pow10((k - 1) as nat)
    }
}

pub proof fn lemma_dec_digits_len(n: nat, k: nat)
    requires
        k >= 1,
        n < pow10(k),
    ensures
        dec_digits(n).len() <= k,
    decreases n,
{
    if n >= 10 {
        assert(k >= 2) by {
            if k == 1 {
                assert(pow10(0) == 1);
                assert(pow10(1) == 10);
            }
        }
        assert(n / 10 < pow10((k - 1) as nat)) by (nonlinear_arith)
            requires
                n < 10 * pow10((k - 1) as nat),
        ;
        lemma_dec_digits_len(n / 10, (k - 1) as nat);
    }
}

/// Every `usize` value prints in at most 20 digits.
pub proof fn lemma_dec_digits_len_usize(n: usize)
    ensures
        dec_digits(n as nat).len() <= 20,
{
    assert(pow10(20) == 100000000000000000000) by {
        reveal_with_fuel(pow10, 21);
    }
    assert(n < pow10(20));
    lemma_dec_digits_len(n as nat, 20);
}

/// Appends the decimal digit string of `x` to `out`.
fn push_dec(out: &mut Vec<u8>, x: usize)
    ensures
        final(out)@ == old(out)@ + dec_digits(x as nat),
{
    let mut tmp: Vec<u8> = Vec::new();
    let mut cur: usize = x;
    let d0: u8 = (cur % 10) as u8 + 48;
    tmp.push(d0);
    cur = cur / 10;
    proof {
        if x < 10 {
            assert(tmp@.reverse() =~= seq![d0]);
            assert(dec_digits(x as nat) =~= Seq::<u8>::empty() + tmp@.reverse());
        } else {
            assert(tmp@.reverse() =~= seq![d0]);
            assert(dec_digits(x as nat) == dec_digits((x as nat) / 10).push(d0));
            assert(dec_digits(x as nat) =~= dec_digits(cur as nat) + tmp@.reverse());
        }
    }
    while cur > 0
        invariant
            dec_digits(x as nat) == (if cur > 0 {
                dec_digits(cur as nat)
            } else {
                Seq::<u8>::empty()
            }) + tmp@.reverse(),
        decreases cur,
    {
        let d: u8 = (cur % 10) as u8 + 48;
        let ghost pre = tmp@;
        tmp.push(d);
        let next = cur / 10;
        proof {
            assert(tmp@.reverse() =~= seq![d] + pre.reverse());
            if cur < 10 {
                assert(dec_digits(cur as nat) =~= seq![d]);
                assert(dec_digits(x as nat) =~= Seq::<u8>::empty() + tmp@.reverse());
            } else {
                assert(dec_digits(cur as nat) == dec_digits((cur as nat) / 10).push(d));
                assert(dec_digits(cur as nat) =~= dec_digits(next as nat) + seq![d]);
                assert(dec_digits(x as nat) =~= dec_digits(next as nat) + tmp@.reverse());
            }
        }
        cur = next;
    }
    assert(dec_digits(x as nat) == Seq::<u8>::empty() + tmp@.reverse());
    assert(dec_digits(x as nat) =~= tmp@.reverse());
    let k = tmp.len();
    let mut i: usize = 0;
    while i < k
        invariant
            0 <= i <= k,
            k == tmp@.len(),
            dec_digits(x as nat) == tmp@.reverse(),
            out@ == old(out)@ + tmp@.reverse().take(i as int),
        decreases k - i,
    {
        let b = tmp[k - 1 - i];
        out.push(b);
        proof {
            assert(tmp@.reverse().take(i + 1 as int) =~= tmp@.reverse().take(i as int).push(
                tmp@[k - 1 - i as int],
            ));
            assert(out@ =~= old(out)@ + tmp@.reverse().take(i + 1 as int));
        }
        i = i + 1;
    }
    proof {
        assert(tmp@.reverse().take(k as int) =~= tmp@.reverse());
    }
}

/// The textual header encoding of the four counters, in the stored order
/// `read_count|write_count|append_count|num_pages`.
pub open spec fn header_bytes(r: nat, w: nat, a: nat, n: nat) -> Seq<u8> {
    dec_digits(r) + seq![124u8] + dec_digits(w) + seq![124u8] + dec_digits(a) + seq![124u8]
        + dec_digits(n)
}

/// Encodes the four counters as the pipe-delimited header text.
pub fn encode_header(r: usize, w: usize, a: usize, n: usize) -> (out: Vec<u8>)
    ensures
        out@ == header_bytes(r as nat, w as nat, a as nat, n as nat),
{
    let mut out: Vec<u8> = Vec::new();
    push_dec(&mut out, r);
    out.push(124);
    push_dec(&mut out, w);
    out.push(124);
    push_dec(&mut out, a);
    out.push(124);
    push_dec(&mut out, n);
    proof {
        assert(out@ =~= header_bytes(r as nat, w as nat, a as nat, n as nat));
    }
    out
}

/// Index of the first occurrence of `b` in `s`, or `s.len()` if absent.
pub open spec fn find_byte(s: Seq<u8>, b: u8) -> int
    decreases s.len(),
{
    if s.len() == 0 {
        0
    } else if s[0] == b {
        0
    } else {
        1 + find_byte(s.drop_first(), b)
    }
}

pub proof fn lemma_find_byte_at(s: Seq<u8>, b: u8, i: int)
    requires
        0 <= i <= s.len(),
        forall|j: int| 0 <= j < i ==> s[j] != b,
        i < s.len() ==> s[i] == b,
    ensures
        find_byte(s, b) == i,
    decreases i,
{
    if i > 0 {
        let t = s.drop_first();
        assert(forall|j: int| 0 <= j < i - 1 ==> #[trigger] t[j] == s[j + 1]);
        lemma_find_byte_at(t, b, i - 1);
    }
}

/// Positions of the `|` separators in `s`, in ascending order.
pub open spec fn seps(s: Seq<u8>) -> Seq<int>
    decreases s.len(),
{
    if s.len() == 0 {
        Seq::empty()
    } else if s.last() == 124 {
        seps(s.drop_last()).push(s.len() - 1)
    } else {
        seps(s.drop_last())
    }
}

pub proof fn lemma_seps_props(s: Seq<u8>)
    ensures
        forall|k: int|
            0 <= k < seps(s).len() ==> 0 <= #[trigger] seps(s)[k] < s.len() && s[seps(s)[k]]
                == 124,
        forall|k1: int, k2: int| 0 <= k1 < k2 < seps(s).len() ==> seps(s)[k1] < seps(s)[k2],
    decreases s.len(),
{
    if s.len() > 0 {
        lemma_seps_props(s.drop_last());
        let t = s.drop_last();
        assert(forall|j: int| 0 <= j < t.len() ==> #[trigger] t[j] == s[j]);
        if s.last() == 124 {
            assert(seps(s) == seps(t).push(s.len() - 1));
            assert forall|k: int| 0 <= k < seps(s).len() implies 0 <= #[trigger] seps(s)[k]
                < s.len() && s[seps(s)[k]] == 124 by {
                if k < seps(t).len() {
                    assert(seps(s)[k] == seps(t)[k]);
                } else {
                    assert(seps(s)[k] == s.len() - 1);
                }
            }
        } else {
            assert(seps(s) == seps(t));
        }
    }
}

/// Drops leading whitespace.
pub open spec fn trim_start(s: Seq<u8>) -> Seq<u8>
    decreases s.len(),
{
    if s.len() > 0 && is_space(s[0]) {
        trim_start(s.drop_first())
    } else {
        s
    }
}

/// Drops trailing whitespace.
pub open spec fn trim_end(s: Seq<u8>) -> Seq<u8>
    decreases s.len(),
{
    if s.len() > 0 && is_space(s.last()) {
        trim_end(s.drop_last())
    } else {
        s
    }
}

/// Drops surrounding whitespace.
pub open spec fn trim(s: Seq<u8>) -> Seq<u8> {
    trim_end(trim_start(s))
}

pub proof fn lemma_trim_start_skip(s: Seq<u8>, k: int)
    requires
        0 <= k <= s.len(),
        forall|j: int| 0 <= j < k ==> is_space(#[trigger] s[j]),
        k < s.len() ==> !is_space(s[k]),
    ensures
        trim_start(s) == s.skip(k),
    decreases k,
{
    if k == 0 {
        assert(s.skip(0) =~= s);
    } else {
        let t = s.drop_first();
        assert(forall|j: int| 0 <= j < t.len() ==> #[trigger] t[j] == s[j + 1]);
        lemma_trim_start_skip(t, k - 1);
        assert(t.skip(k - 1) =~= s.skip(k));
    }
}

pub proof fn lemma_trim_end_take(s: Seq<u8>, m: int)
    requires
        0 <= m <= s.len(),
        forall|j: int| m <= j < s.len() ==> is_space(#[trigger] s[j]),
        m > 0 ==> !is_space(s[m - 1]),
    ensures
        trim_end(s) == s.take(m),
    decreases s.len() - m,
{
    if m == s.len() {
        assert(s.take(m) =~= s);
    } else {
        let t = s.drop_last();
        assert(forall|j: int| 0 <= j < t.len() ==> #[trigger] t[j] == s[j]);
        lemma_trim_end_take(t, m);
        assert(t.take(m) =~= s.take(m));
    }
}

/// Outcome of parsing one header field.
#[derive(Clone, Copy, Debug, PartialEq, Eq, Structural)]
pub enum FieldVal {
    /// Field is empty after trimming.
    Empty,
    /// Field is non-empty but not a `usize`-sized decimal number.
    Bad,
    /// Field parsed to this value.
    Num(usize),
}

/// What one `|`-delimited field parses to: trimmed, all digits, and within
/// `usize` range, or else empty or bad.
pub open spec fn spec_field(f: Seq<u8>) -> FieldVal {
    let t = trim(f);
    if t.len() == 0 {
        FieldVal::Empty
    } else if all_digits(t) && dec_value(t) <= usize::MAX as nat {
        FieldVal::Num(dec_value(t) as usize)
    } else {
        FieldVal::Bad
    }
}

/// What the header text parses to. `Some` carries the recovered counters
/// `(read_count, write_count, append_count, num_pages)`; text that does not
/// split into exactly four non-empty fields falls back to all zeroes;
/// `None` is the fatal case: a non-numeric field, a value above
/// `usize::MAX`, or a page count above `MAX_PAGES`.
pub open spec fn spec_parse_header(s: Seq<u8>) -> Option<(usize, usize, usize, usize)> {
    let ps = seps(s);
    if ps.len() != 3 {
        Some((0, 0, 0, 0))
    } else {
        let r0 = spec_field(s.subrange(0, ps[0]));
        let r1 = spec_field(s.subrange(ps[0] + 1, ps[1]));
        let r2 = spec_field(s.subrange(ps[1] + 1, ps[2]));
        let r3 = spec_field(s.subrange(ps[2] + 1, s.len() as int));
        if r0 == FieldVal::Empty || r1 == FieldVal::Empty || r2 == FieldVal::Empty || r3
            == FieldVal::Empty {
            Some((0, 0, 0, 0))
        } else {
            match (r0, r1, r2, r3) {
                (FieldVal::Num(v0), FieldVal::Num(v1), FieldVal::Num(v2), FieldVal::Num(v3)) => {
                    if v3 <= MAX_PAGES {
                        Some((v0, v1, v2, v3))
                    } else {
                        None
                    }
                },
                _ => None,
            }
        }
    }
}

/// The header text within a medium: the reserved first page-sized region,
/// cut at the first NUL byte.
pub open spec fn header_region(d: Seq<u8>) -> Seq<u8> {
    let h = if d.len() <= 4096 {
        d
    } else {
        d.take(4096)
    };
    h.take(find_byte(h, 0))
}

/// What opening a non-empty medium recovers from its header.
pub open spec fn spec_open_counters(d: Seq<u8>) -> Option<(usize, usize, usize, usize)> {
    spec_parse_header(header_region(d))
}

proof fn lemma_seps_pipe_free(s: Seq<u8>)
    requires
        forall|i: int| 0 <= i < s.len() ==> s[i] != 124,
    ensures
        seps(s) == Seq::<int>::empty(),
    decreases s.len(),
{
    if s.len() > 0 {
        let t = s.drop_last();
        assert(forall|j: int| 0 <= j < t.len() ==> #[trigger] t[j] == s[j]);
        lemma_seps_pipe_free(t);
    }
}

proof fn lemma_seps_concat(x: Seq<u8>, y: Seq<u8>)
    ensures
        seps(x + y) == seps(x) + seps(y).map_values(|p: int| p + x.len()),
    decreases y.len(),
{
    let f = |p: int| p + x.len();
    if y.len() == 0 {
        assert(x + y =~= x);
        assert(seps(y) == Seq::<int>::empty());
        assert(seps(x) + seps(y).map_values(f) =~= seps(x));
    } else {
        let t = y.drop_last();
        lemma_seps_concat(x, t);
        assert((x + y).drop_last() =~= x + t);
        assert((x + y).last() == y.last());
        if y.last() == 124 {
            assert(seps(x + y) == seps(x + t).push(x.len() + y.len() - 1));
            assert(seps(y) == seps(t).push(y.len() - 1));
            assert(seps(y).map_values(f) =~= seps(t).map_values(f).push(x.len() + y.len() - 1));
            assert((seps(x) + seps(t).map_values(f)).push(x.len() + y.len() - 1) =~= seps(x) + seps(
                y,
            ).map_values(f));
        } else {
            assert(seps(x + y) == seps(x + t));
            assert(seps(y) == seps(t));
        }
    }
}

/// The positions of the three separators in an encoded header.
proof fn lemma_seps_header(r: nat, w: nat, a: nat, n: nat)
    ensures
        ({
            let d0 = dec_digits(r);
            let d1 = dec_digits(w);
            let d2 = dec_digits(a);
            let q0 = d0.len() as int;
            let q1 = d0.len() + 1 + d1.len() as int;
            let q2 = d0.len() + d1.len() + 2 + d2.len() as int;
            seps(header_bytes(r, w, a, n)) == seq![q0, q1, q2]
        }),
{
    let d0 = dec_digits(r);
    let d1 = dec_digits(w);
    let d2 = dec_digits(a);
    let d3 = dec_digits(n);
    let p = seq![124u8];
    let q0 = d0.len() as int;
    let q1 = d0.len() + 1 + d1.len() as int;
    let q2 = d0.len() + d1.len() + 2 + d2.len() as int;
    lemma_dec_digits_are_digits(r);
    lemma_dec_digits_are_digits(w);
    lemma_dec_digits_are_digits(a);
    lemma_dec_digits_are_digits(n);
    lemma_seps_pipe_free(d0);
    lemma_seps_pipe_free(d1);
    lemma_seps_pipe_free(d2);
    lemma_seps_pipe_free(d3);
    assert(p.drop_last() =~= Seq::<u8>::empty());
    assert(seps(Seq::<u8>::empty()) == Seq::<int>::empty());
    assert(seps(p) == seps(p.drop_last()).push(0));
    assert(seps(p) =~= seq![0int]);
    let x1 = d0 + p;
    lemma_seps_concat(d0, p);
    assert(seps(x1) =~= seq![q0]);
    let x2 = x1 + d1;
    lemma_seps_concat(x1, d1);
    assert(seps(x2) =~= seq![q0]);
    let x3 = x2 + p;
    lemma_seps_concat(x2, p);
    assert(seps(x3) =~= seq![q0, q1]);
    let x4 = x3 + d2;
    lemma_seps_concat(x3, d2);
    assert(seps(x4) =~= seq![q0, q1]);
    let x5 = x4 + p;
    lemma_seps_concat(x4, p);
    assert(seps(x5) =~= seq![q0, q1, q2]);
    let x6 = x5 + d3;
    lemma_seps_concat(x5, d3);
    assert(seps(x6) =~= seq![q0, q1, q2]);
    assert(header_bytes(r, w, a, n) == x6);
}

/// A digit string is its own trim and parses to its value.
proof fn lemma_field_of_digits(v: usize)
    ensures
        spec_field(dec_digits(v as nat)) == FieldVal::Num(v),
{
    let d = dec_digits(v as nat);
    lemma_dec_digits_are_digits(v as nat);
    assert(!is_space(d[0]));
    assert(trim_start(d) == d);
    assert(!is_space(d.last()));
    assert(trim_end(d) == d);
    lemma_dec_value_of_digits(v as nat);
}

/// Law: a header encoded from any counters, written NUL-terminated at the
/// start of any medium, is recovered exactly on the next open.
pub proof fn lemma_header_round_trip(d: Seq<u8>, r: usize, w: usize, a: usize, n: usize)
    requires
        n <= MAX_PAGES,
    ensures
        spec_open_counters(crate::disk::store_at(d, 0, header_bytes(
            r as nat,
            w as nat,
            a as nat,
            n as nat,
        ).push(0u8))) == Some((r, w, a, n)),
{
    let hb = header_bytes(r as nat, w as nat, a as nat, n as nat);
    let d0 = dec_digits(r as nat);
    let d1 = dec_digits(w as nat);
    let d2 = dec_digits(a as nat);
    let d3 = dec_digits(n as nat);
    let q0 = d0.len() as int;
    let q1 = d0.len() + 1 + d1.len() as int;
    let q2 = d0.len() + d1.len() + 2 + d2.len() as int;
    lemma_dec_digits_are_digits(r as nat);
    lemma_dec_digits_are_digits(w as nat);
    lemma_dec_digits_are_digits(a as nat);
    lemma_dec_digits_are_digits(n as nat);
    lemma_dec_digits_len_usize(r);
    lemma_dec_digits_len_usize(w);
    lemma_dec_digits_len_usize(a);
    lemma_dec_digits_len_usize(n);
    assert(hb.len() == d0.len() + d1.len() + d2.len() + d3.len() + 3);
    assert(hb.len() <= 83);
    let nd = crate::disk::store_at(d, 0, hb.push(0u8));
    assert(nd.len() >= hb.len() + 1);
    assert(forall|i: int| 0 <= i < hb.len() + 1 ==> #[trigger] nd[i] == hb.push(0u8)[i]);
    let limit = if nd.len() <= 4096 {
        nd
    } else {
        nd.take(4096)
    };
    assert(limit.len() >= hb.len() + 1);
    assert(forall|i: int| 0 <= i < hb.len() + 1 ==> #[trigger] limit[i] == hb.push(0u8)[i]);
    assert(forall|j: int| 0 <= j < hb.len() ==> #[trigger] hb[j] != 0) by {
        assert(forall|j: int| 0 <= j < hb.len() ==> is_digit(#[trigger] hb[j]) || hb[j] == 124);
    }
    assert(limit[hb.len() as int] == 0);
    lemma_find_byte_at(limit, 0, hb.len() as int);
    let region = limit.take(hb.len() as int);
    assert(region =~= hb);
    lemma_seps_header(r as nat, w as nat, a as nat, n as nat);
    assert(seps(hb) == seq![q0, q1, q2]);
    assert(seps(hb).len() == 3);
    assert(hb.subrange(0, q0) =~= d0);
    assert(hb.subrange(q0 + 1, q1) =~= d1);
    assert(hb.subrange(q1 + 1, q2) =~= d2);
    assert(hb.subrange(q2 + 1, hb.len() as int) =~= d3);
    lemma_field_of_digits(r);
    lemma_field_of_digits(w);
    lemma_field_of_digits(a);
    lemma_field_of_digits(n);
    assert(spec_parse_header(hb) == Some((r, w, a, n)));
}

fn byte_is_space(b: u8) -> (r: bool)
    ensures
        r == is_space(b),
{
    b == 32 || b == 9 || b == 10 || b == 13
}

/// Index of the first occurrence of `b` in `v`, or `v.len()` if absent.
fn find_byte_in(v: &Vec<u8>, b: u8) -> (i: usize)
    ensures
        i as int == find_byte(v@, b),
        i <= v@.len(),
{
    let n = v.len();
    let mut i: usize = 0;
    while i < n
        invariant
            0 <= i <= n,
            n == v@.len(),
            forall|j: int| 0 <= j < i ==> v@[j] != b,
        decreases n - i,
    {
        if v[i] == b {
            proof {
                lemma_find_byte_at(v@, b, i as int);
            }
            return i;
        }
        i = i + 1;
    }
    proof {
        lemma_find_byte_at(v@, b, v@.len() as int);
    }
    i
}

/// A longer all-digit string never evaluates below one of its prefixes.
proof fn lemma_dec_value_prefix(t: Seq<u8>, j: int)
    requires
        all_digits(t),
        0 <= j <= t.len(),
    ensures
        dec_value(t.take(j)) <= dec_value(t),
    decreases t.len() - j,
{
    if j == t.len() {
        assert(t.take(j) =~= t);
    } else {
        let u = t.take(j + 1);
        assert(u.drop_last() =~= t.take(j));
        assert(is_digit(t[j]));
        assert(dec_value(u) == dec_value(t.take(j)) * 10 + ((t[j] - 48) as nat));
        assert(dec_value(t.take(j)) * 10 >= dec_value(t.take(j)));
        lemma_dec_value_prefix(t, j + 1);
    }
}

/// Parses the field of `raw` lying in `[lo, hi)`.
fn parse_field(raw: &Vec<u8>, lo: usize, hi: usize) -> (r: FieldVal)
    requires
        lo <= hi <= raw@.len(),
    ensures
        r == spec_field(raw@.subrange(lo as int, hi as int)),
{
    let ghost f = raw@.subrange(lo as int, hi as int);
    let mut a = lo;
    while a < hi && byte_is_space(raw[a])
        invariant
            lo <= a <= hi <= raw@.len(),
            forall|j: int| lo <= j < a ==> is_space(#[trigger] raw@[j]),
        decreases hi - a,
    {
        a = a + 1;
    }
    proof {
        assert(forall|j: int| 0 <= j < f.len() ==> #[trigger] f[j] == raw@[lo + j]);
        lemma_trim_start_skip(f, a - lo);
        assert(f.skip(a - lo) =~= raw@.subrange(a as int, hi as int));
    }
    let mut b = hi;
    while b > a && byte_is_space(raw[b - 1])
        invariant
            a <= b <= hi <= raw@.len(),
            forall|j: int| b <= j < hi ==> is_space(#[trigger] raw@[j]),
        decreases b,
    {
        b = b - 1;
    }
    let ghost g = raw@.subrange(a as int, hi as int);
    proof {
        assert(forall|j: int| 0 <= j < g.len() ==> #[trigger] g[j] == raw@[a + j]);
        lemma_trim_end_take(g, b - a);
        assert(g.take(b - a) =~= raw@.subrange(a as int, b as int));
        assert(trim(f) == raw@.subrange(a as int, b as int));
    }
    let ghost t = raw@.subrange(a as int, b as int);
    if a == b {
        assert(t.len() == 0);
        return FieldVal::Empty;
    }
    let mut v: usize = 0;
    let mut i = a;
    while i < b
        invariant
            lo <= a <= i <= b <= hi <= raw@.len(),
            f == raw@.subrange(lo as int, hi as int),
            t == raw@.subrange(a as int, b as int),
            trim(f) == t,
            a < b,
            forall|j: int| a <= j < i ==> is_digit(#[trigger] raw@[j]),
            v as nat == dec_value(raw@.subrange(a as int, i as int)),
        decreases b - i,
    {
        let c = raw[i];
        proof {
            assert(forall|j: int| 0 <= j < t.len() ==> #[trigger] t[j] == raw@[a + j]);
        }
        if c < 48 || c > 57 {
            assert(!is_digit(t[i - a]));
            assert(!all_digits(t));
            return FieldVal::Bad;
        }
        let d = (c - 48) as usize;
        proof {
            lemma_fundamental_div_mod((usize::MAX - d) as int, 10);
        }
        if v > (usize::MAX - d) / 10 {
            proof {
                assert(v * 10 + d > usize::MAX);
                if all_digits(t) {
                    let pre = raw@.subrange(a as int, i + 1 as int);
                    assert(pre =~= raw@.subrange(a as int, i as int).push(raw@[i as int]));
                    assert(pre.drop_last() =~= raw@.subrange(a as int, i as int));
                    assert(dec_value(pre) == (v as nat) * 10 + ((c - 48) as nat));
                    assert(pre =~= t.take(i + 1 - a));
                    lemma_dec_value_prefix(t, i + 1 - a);
                    assert(dec_value(t) > usize::MAX as nat);
                }
            }
            return FieldVal::Bad;
        }
        let ghost pre = raw@.subrange(a as int, i as int);
        v = v * 10 + d;
        proof {
            assert(raw@.subrange(a as int, i + 1 as int) =~= pre.push(raw@[i as int]));
            assert(raw@.subrange(a as int, i + 1 as int).drop_last() =~= pre);
        }
        i = i + 1;
    }
    assert(t =~= raw@.subrange(a as int, i as int));
    assert(all_digits(t));
    FieldVal::Num(v)
}

/// Parses the raw leading bytes of a medium as the counter header, cutting
/// the text at the first NUL. Fatal outcomes are `MalformedNumericField`;
/// text that does not split into four non-empty fields recovers as all
/// zeroes.
pub fn parse_header(raw: &Vec<u8>) -> (r: Result<(usize, usize, usize, usize), StoreError>)
    ensures
        (match spec_parse_header(raw@.take(find_byte(raw@, 0))) {
            Some(c) => r == Ok::<(usize, usize, usize, usize), StoreError>(c),
            None => r == Err::<(usize, usize, usize, usize), StoreError>(
                StoreError::MalformedNumericField,
            ),
        }),
{
    let nul = find_byte_in(raw, 0);
    let ghost s = raw@.take(nul as int);
    let mut count: usize = 0;
    let mut p0: usize = 0;
    let mut p1: usize = 0;
    let mut p2: usize = 0;
    let mut i: usize = 0;
    while i < nul
        invariant
            0 <= i <= nul <= raw@.len(),
            s == raw@.take(nul as int),
            count == seps(s.take(i as int)).len(),
            count <= i,
            count >= 1 ==> p0 as int == seps(s.take(i as int))[0],
            count >= 2 ==> p1 as int == seps(s.take(i as int))[1],
            count >= 3 ==> p2 as int == seps(s.take(i as int))[2],
        decreases nul - i,
    {
        let c = raw[i];
        proof {
            assert(s.take(i + 1 as int).drop_last() =~= s.take(i as int));
            assert(s.take(i + 1 as int).last() == raw@[i as int]);
        }
        if c == 124 {
            if count == 0 {
                p0 = i;
            } else if count == 1 {
                p1 = i;
            } else if count == 2 {
                p2 = i;
            }
            count = count + 1;
        }
        i = i + 1;
    }
    proof {
        assert(s.take(nul as int) =~= s);
    }
    if count != 3 {
        return Ok((0, 0, 0, 0));
    }
    proof {
        lemma_seps_props(s);
        assert(forall|j: int| 0 <= j < s.len() ==> #[trigger] s[j] == raw@[j]);
    }
    let f0 = parse_field(raw, 0, p0);
    let f1 = parse_field(raw, p0 + 1, p1);
    let f2 = parse_field(raw, p1 + 1, p2);
    let f3 = parse_field(raw, p2 + 1, nul);
    proof {
        assert(s.subrange(0, p0 as int) =~= raw@.subrange(0, p0 as int));
        assert(s.subrange(p0 + 1, p1 as int) =~= raw@.subrange(p0 + 1, p1 as int));
        assert(s.subrange(p1 + 1, p2 as int) =~= raw@.subrange(p1 + 1, p2 as int));
        assert(s.subrange(p2 + 1, s.len() as int) =~= raw@.subrange(p2 + 1, nul as int));
    }
    if matches!(f0, FieldVal::Empty) || matches!(f1, FieldVal::Empty) || matches!(
        f2,
        FieldVal::Empty,
    ) || matches!(f3, FieldVal::Empty) {
        return Ok((0, 0, 0, 0));
    }
    match (f0, f1, f2, f3) {
        (FieldVal::Num(v0), FieldVal::Num(v1), FieldVal::Num(v2), FieldVal::Num(v3)) => {
            if v3 > MAX_PAGES {
                Err(StoreError::MalformedNumericField)
            } else {
                Ok((v0, v1, v2, v3))
            }
        },
        _ => Err(StoreError::MalformedNumericField),
    }
}

} // verus!
