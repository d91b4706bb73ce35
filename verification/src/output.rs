//! Canonical output: `{NAME=MIN/MEAN/MAX, ...}` with keys in raw-byte
//! order, every value rendered to exactly one decimal, and the mean
//! rounded toward positive infinity at the tenths place. All of it is
//! integer arithmetic on tenths; keys that are not valid UTF-8 are
//! omitted from the printed output.

use vstd::prelude::*;

use vstd::arithmetic::div_mod::{lemma_fundamental_div_mod, lemma_fundamental_div_mod_converse};

use crate::result::{lemma_sorted_assoc_unique, TemperStatResult};
use crate::{spec_parse_temp, temp_valid, temp_value, StatModel, COUNT_LIMIT};

verus! {

/// What std::str::from_utf8 accepts: whether the bytes are valid
/// UTF-8.
pub uninterp spec fn is_utf8(s: Seq<u8>) -> bool;

/// Relies on std::str::from_utf8: it returns `Ok` exactly when the
/// bytes are valid UTF-8.
#[verifier::external_body]
fn utf8_check(b: &[u8]) -> (r: bool)
    ensures
        r == is_utf8(b@),
{
    std::str::from_utf8(b).is_ok()
}

/// The decimal digits of `n`, most significant first.
pub open spec fn u_digits(n: nat) -> Seq<u8>
    decreases n,
{
    if n < 10 {
        seq![(48 + n) as u8]
    } else {
        u_digits(n / 10).push((48 + n % 10) as u8)
    }
}

/// The smallest integer at least `a / b` (for positive `b`).
pub open spec fn ceil_div(a: int, b: int) -> int {
    if a % b == 0 {
        a / b
    } else {
        a / b + 1
    }
}

/// The printed mean, in tenths: the exact mean rounded toward positive
/// infinity at the tenths place.
pub open spec fn mean_tenths(m: StatModel) -> int {
    ceil_div(m.sum, m.count as int)
}

/// A tenths value rendered with one digit after the decimal point.
pub open spec fn render_tenths(t: int) -> Seq<u8> {
    let m = if t < 0 {
        -t
    } else {
        t
    };
    (if t < 0 {
        seq![45u8]
    } else {
        Seq::empty()
    }) + u_digits((m / 10) as nat) + seq![46u8, (48 + m % 10) as u8]
}

/// One statistics value rendered as `MIN/MEAN/MAX`.
pub open spec fn render_stat(m: StatModel) -> Seq<u8> {
    render_tenths(m.min) + seq![47u8] + render_tenths(mean_tenths(m)) + seq![47u8] + render_tenths(
        m.max,
    )
}

/// The entries rendered in order, `, `-separated, keys that are not
/// valid UTF-8 omitted; `first` says whether no entry was emitted yet.
pub open spec fn render_list(keys: Seq<Seq<u8>>, stats: Seq<StatModel>, first: bool) -> Seq<u8>
    decreases keys.len(),
{
    if keys.len() == 0 || stats.len() != keys.len() {
        Seq::empty()
    } else {
        let head = if is_utf8(keys[0]) {
            (if first {
                Seq::empty()
            } else {
                seq![44u8, 32u8]
            }) + keys[0] + seq![61u8] + render_stat(stats[0])
        } else {
            Seq::empty()
        };
        head + render_list(keys.drop_first(), stats.drop_first(), first && !is_utf8(keys[0]))
    }
}

/// The canonical output of an ordered result.
pub open spec fn spec_render(keys: Seq<Seq<u8>>, stats: Seq<StatModel>) -> Seq<u8> {
    seq![123u8] + render_list(keys, stats, true) + seq![125u8]
}

/// The mean lies between the extremes.
pub proof fn lemma_mean_range(m: StatModel)
    requires
        m.wf(),
    ensures
        m.min <= mean_tenths(m) <= m.max,
{
    let c = m.count as int;
    let q = m.sum / c;
    let r = m.sum % c;
    lemma_fundamental_div_mod(m.sum, c);
    assert(m.min <= q) by (nonlinear_arith)
        requires
            m.sum == c * q + r,
            0 <= r < c,
            m.min * c <= m.sum,
            c >= 1,
    ;
    if r == 0 {
        assert(q <= m.max) by (nonlinear_arith)
            requires
                m.sum == c * q + r,
                r == 0,
                m.sum <= m.max * c,
                c >= 1,
        ;
    } else {
        assert(q + 1 <= m.max) by (nonlinear_arith)
            requires
                m.sum == c * q + r,
                0 < r < c,
                m.sum <= m.max * c,
                c >= 1,
        ;
    }
}

/// Round trip of the fixed-point grammar: rendering any tenths value
/// in range with one decimal digit parses back to exactly that value.
pub proof fn lemma_parse_render_roundtrip(t: int)
    requires
        -999 <= t <= 999,
    ensures
        spec_parse_temp(render_tenths(t)) == Some(t),
{
    let m = if t < 0 {
        -t
    } else {
        t
    };
    let s = render_tenths(t);
    if m < 100 {
        if t < 0 {
            assert(s =~= seq![45u8, (48 + m / 10) as u8, 46u8, (48 + m % 10) as u8]);
        } else {
            assert(s =~= seq![(48 + m / 10) as u8, 46u8, (48 + m % 10) as u8]);
        }
    } else {
        let h = m / 10;
        assert(u_digits((h / 10) as nat) =~= seq![(48 + h / 10) as u8]);
        assert(u_digits((m / 10) as nat) =~= u_digits((h / 10) as nat).push((48 + h % 10) as u8));
        assert(u_digits((m / 10) as nat) =~= seq![(48 + h / 10) as u8, (48 + h % 10) as u8]);
        if t < 0 {
            assert(s =~= seq![
                45u8,
                (48 + h / 10) as u8,
                (48 + h % 10) as u8,
                46u8,
                (48 + m % 10) as u8,
            ]);
        } else {
            assert(s =~= seq![(48 + h / 10) as u8, (48 + h % 10) as u8, 46u8, (48 + m % 10) as u8]);
        }
    }
    assert(temp_valid(s));
    assert(temp_value(s) == t);
}

/// Two well-formed results that present the same mapping render the
/// same bytes: the printed line is determined by the aggregate alone,
/// not by the order in which worker maps were absorbed.
pub proof fn lemma_output_deterministic(a: TemperStatResult, b: TemperStatResult)
    requires
        a.wf(),
        b.wf(),
        a@ == b@,
    ensures
        spec_render(a.keys_view(), a.stats_view()) == spec_render(b.keys_view(), b.stats_view()),
{
    lemma_sorted_assoc_unique(a.keys@, a.stats@, b.keys@, b.stats@);
    assert(a.keys_view() =~= b.keys_view());
    assert(a.stats_view() =~= b.stats_view());
}

/// Append the bytes of a slice.
fn push_bytes(out: &mut Vec<u8>, s: &[u8])
    ensures
        final(out)@ == old(out)@ + s@,
{
    let mut i: usize = 0;
    while i < s.len()
        invariant
            i <= s@.len(),
            out@ == old(out)@ + s@.subrange(0, i as int),
        decreases s@.len() - i,
    {
        let b = s[i];
        out.push(b);
        proof {
            assert(old(out)@ + s@.subrange(0, i as int + 1) =~= (old(out)@ + s@.subrange(
                0,
                i as int,
            )).push(s@[i as int]));
        }
        i = i + 1;
    }
    proof {
        assert(s@.subrange(0, s@.len() as int) =~= s@);
    }
}

/// Append the decimal digits of `n`.
fn push_digits(out: &mut Vec<u8>, n: u64)
    ensures
        final(out)@ == old(out)@ + u_digits(n as nat),
    decreases n,
{
    if n < 10 {
        out.push(48 + n as u8);
        proof {
            assert(old(out)@ + u_digits(n as nat) =~= out@);
        }
    } else {
        proof {
            assert(n / 10 < n) by (nonlinear_arith)
                requires
                    n >= 10,
            ;
        }
        push_digits(out, n / 10);
        out.push(48 + (n % 10) as u8);
        proof {
            assert(old(out)@ + u_digits(n as nat) =~= out@);
        }
    }
}

/// Append a tenths value with one digit after the decimal point.
fn push_tenths(out: &mut Vec<u8>, t: i64)
    requires
        -1000 < t < 1000,
    ensures
        final(out)@ == old(out)@ + render_tenths(t as int),
{
    let m: u64;
    if t < 0 {
        out.push(45);
        m = (-t) as u64;
    } else {
        m = t as u64;
    }
    push_digits(out, m / 10);
    out.push(46);
    out.push(48 + (m % 10) as u8);
    proof {
        assert(out@ =~= old(out)@ + render_tenths(t as int));
    }
}

/// The printed mean in tenths: exact integer division of the sum by
/// the count, rounded toward positive infinity.
fn mean_of(sum: i64, count: usize) -> (r: i64)
    requires
        count >= 1,
        count as int <= COUNT_LIMIT as int,
        -999 * (count as int) <= sum as int <= 999 * (count as int),
    ensures
        r as int == ceil_div(sum as int, count as int),
        -999 <= r <= 999,
{
    let c = count as u64;
    let ghost ci = count as int;
    let ghost qq = (sum as int) / ci;
    let ghost rr = (sum as int) % ci;
    proof {
        lemma_fundamental_div_mod(sum as int, ci);
    }
    if sum >= 0 {
        let s = sum as u64;
        let q = s / c;
        let rem = s % c;
        proof {
            assert(q <= 999) by (nonlinear_arith)
                requires
                    s == c * q + rem,
                    0 <= rem < c,
                    s <= 999 * c,
                    c >= 1,
            ;
            lemma_fundamental_div_mod_converse(s as int, c as int, q as int, rem as int);
        }
        let mut r = q as i64;
        if rem > 0 {
            proof {
                assert(q < 999) by (nonlinear_arith)
                    requires
                        s == c * q + rem,
                        0 < rem < c,
                        s <= 999 * c,
                        c >= 1,
                ;
            }
            r = r + 1;
        }
        proof {
            assert(0 <= (sum as int) / ci) by (nonlinear_arith)
                requires
                    sum as int == ci * qq + rr,
                    0 <= rr < ci,
                    sum >= 0,
                    ci >= 1,
            ;
        }
        r
    } else {
        let s = (-sum) as u64;
        let q = s / c;
        proof {
            lemma_fundamental_div_mod(s as int, ci);
            assert(s as int == ci * (-qq) - rr) by (nonlinear_arith)
                requires
                    sum as int == ci * qq + rr,
                    s as int == -(sum as int),
            ;
            if rr == 0 {
                assert(s as int == (-qq) * ci + 0) by (nonlinear_arith)
                    requires
                        s as int == ci * (-qq) - rr,
                        rr == 0,
                ;
                lemma_fundamental_div_mod_converse(s as int, ci, -qq, 0);
            } else {
                assert(s as int == (-qq - 1) * ci + (ci - rr)) by (nonlinear_arith)
                    requires
                        s as int == ci * (-qq) - rr,
                ;
                lemma_fundamental_div_mod_converse(s as int, ci, -qq - 1, ci - rr);
            }
            assert(q <= 999) by (nonlinear_arith)
                requires
                    s as int == ci * (q as int) + (s as int) % ci,
                    0 <= (s as int) % ci < ci,
                    s as int <= 999 * ci,
                    ci >= 1,
            ;
        }
        -(q as i64)
    }
}

/// Append one statistics value as `MIN/MEAN/MAX`.
fn push_stat(out: &mut Vec<u8>, st: &crate::TemperStat)
    requires
        st@.wf(),
        st@.count <= COUNT_LIMIT as nat,
    ensures
        final(out)@ == old(out)@ + render_stat(st@),
{
    proof {
        lemma_mean_range(st@);
    }
    push_tenths(out, st.min as i64);
    out.push(47);
    let mean = mean_of(st.sum, st.count);
    push_tenths(out, mean);
    out.push(47);
    push_tenths(out, st.max as i64);
    proof {
        assert(out@ =~= old(out)@ + render_stat(st@));
    }
}

impl TemperStatResult {
    /// The model views of the keys.
    pub open spec fn keys_view(self) -> Seq<Seq<u8>> {
        self.keys@.map_values(|k: Vec<u8>| k@)
    }

    /// The model views of the statistics.
    pub open spec fn stats_view(self) -> Seq<StatModel> {
        self.stats@.map_values(|s: crate::TemperStat| s@)
    }

    /// Render the canonical output line.
    pub fn render(&self) -> (out: Vec<u8>)
        requires
            self.wf(),
            forall|i: int|
                0 <= i < self.stats@.len() ==> (#[trigger] self.stats@[i])@.count
                    <= COUNT_LIMIT as nat,
        ensures
            out@ == spec_render(self.keys_view(), self.stats_view()),
    {
        let ghost gkeys = self.keys_view();
        let ghost gstats = self.stats_view();
        let mut out: Vec<u8> = Vec::new();
        out.push(123);
        let mut first = true;
        let mut i: usize = 0;
        proof {
            assert(gkeys.skip(0) =~= gkeys);
            assert(gstats.skip(0) =~= gstats);
            assert(out@ =~= seq![123u8]);
        }
        let mut done = false;
        while i < self.keys.len()
            invariant
                self.wf(),
                forall|j: int|
                    0 <= j < self.stats@.len() ==> (#[trigger] self.stats@[j])@.count
                        <= COUNT_LIMIT as nat,
                i <= self.keys@.len(),
                gkeys == self.keys_view(),
                gstats == self.stats_view(),
                gkeys.len() == self.keys@.len(),
                gstats.len() == self.stats@.len(),
                seq![123u8] + render_list(gkeys, gstats, true) == out@ + render_list(
                    gkeys.skip(i as int),
                    gstats.skip(i as int),
                    first,
                ),
            decreases self.keys@.len() - i,
        {
            let ghost pre = out@;
            let ghost ki = gkeys.skip(i as int);
            let ghost si = gstats.skip(i as int);
            proof {
                assert(ki[0] == self.keys@[i as int]@);
                assert(si[0] == self.stats@[i as int]@);
                assert(ki.drop_first() =~= gkeys.skip(i as int + 1));
                assert(si.drop_first() =~= gstats.skip(i as int + 1));
            }
            if utf8_check(self.keys[i].as_slice()) {
                if !first {
                    out.push(44);
                    out.push(32);
                }
                push_bytes(&mut out, self.keys[i].as_slice());
                out.push(61);
                let st = self.stats[i];
                push_stat(&mut out, &st);
                proof {
                    assert(out@ =~= pre + (if first {
                        Seq::<u8>::empty()
                    } else {
                        seq![44u8, 32u8]
                    }) + ki[0] + seq![61u8] + render_stat(si[0]));
                    assert(out@ + render_list(gkeys.skip(i as int + 1), gstats.skip(i as int + 1), false)
                        =~= pre + render_list(ki, si, first));
                }
                first = false;
            } else {
                proof {
                    assert(render_list(ki, si, first) == render_list(
                        ki.drop_first(),
                        si.drop_first(),
                        first,
                    ));
                }
            }
            i = i + 1;
        }
        proof {
            assert(gkeys.skip(gkeys.len() as int).len() == 0);
            assert(render_list(gkeys.skip(i as int), gstats.skip(i as int), first)
                =~= Seq::<u8>::empty());
            assert(out@ =~= seq![123u8] + render_list(gkeys, gstats, true));
        }
        out.push(125);
        proof {
            assert(out@ =~= spec_render(gkeys, gstats));
        }
        out
    }
}

} // verus!
