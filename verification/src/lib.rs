//! Per-station aggregation of weather measurements: a fixed-point
//! temperature parser, per-station statistics, a streaming line decoder
//! over a byte region, a shard splitter that never cuts a line, an
//! ordered merge of per-shard results, and the canonical output string.

use vstd::prelude::*;

pub mod block;
pub mod bytes;
pub mod engine;
pub mod model;
pub mod output;
pub mod result;
pub mod shard;

pub use block::process_block;

verus! {

/// Longest station name, in bytes.
pub const STATION_NAME_MAX_LEN: usize = 100;

/// Longest temperature rendering, in bytes (`-99.9`).
pub const MEASUREMENT_MAX_LEN: usize = 5;

/// Longest line: name, `;`, temperature, `\n`.
pub const LINE_MAX_LEN: usize = STATION_NAME_MAX_LEN + MEASUREMENT_MAX_LEN + 2;

/// Observation counts stay below this bound, so that a sum of
/// temperatures (each at most 999 tenths in magnitude) fits in `i64`:
/// `999 * COUNT_LIMIT < i64::MAX`.
pub const COUNT_LIMIT: u64 = 9_000_000_000_000_000;

/// `0`..`9`
pub open spec fn is_digit(b: u8) -> bool {
    48 <= b <= 57
}

/// Numeric value of a digit byte.
pub open spec fn digit(b: u8) -> int {
    b - 48
}

/// Whether the byte at the head is a minus sign.
pub open spec fn temp_is_neg(s: Seq<u8>) -> bool {
    s.len() > 0 && s[0] == 45u8
}

/// The accepted temperature grammar: `[-]?(\d{1,2})\.\d`, so the slice
/// is 3 to 5 bytes, the second-to-last byte is `.`, the last byte and
/// the ones digit are digits, and exactly one or two integral digits
/// follow the optional sign.
pub open spec fn temp_valid(s: Seq<u8>) -> bool {
    let n = s.len() as int;
    let first = if temp_is_neg(s) { 1int } else { 0int };
    &&& 3 <= n <= 5
    &&& s[n - 2] == 46u8
    &&& is_digit(s[n - 1])
    &&& is_digit(s[n - 3])
    &&& (n - 3 - first == 0 || (n - 3 - first == 1 && is_digit(s[first])))
}

/// The signed value in tenths of a valid temperature slice.
pub open spec fn temp_value(s: Seq<u8>) -> int {
    let n = s.len() as int;
    let first = if temp_is_neg(s) { 1int } else { 0int };
    let mag = if n - 3 - first == 1 {
        digit(s[first]) * 100 + digit(s[n - 3]) * 10 + digit(s[n - 1])
    } else {
        digit(s[n - 3]) * 10 + digit(s[n - 1])
    };
    if temp_is_neg(s) {
        -mag
    } else {
        mag
    }
}

/// What the parser returns: the tenths value on a valid slice, nothing
/// on any other slice.
pub open spec fn spec_parse_temp(s: Seq<u8>) -> Option<int> {
    if temp_valid(s) {
        Some(temp_value(s))
    } else {
        None
    }
}

/// Parse a temperature byte slice to tenths of a degree; `None` exactly
/// on slices outside the grammar. The result is always in `-999..=999`.
pub fn i16_from_bytes(buf: &[u8]) -> (r: Option<i16>)
    ensures
        r is Some <==> temp_valid(buf@),
        r matches Some(v) ==> v as int == temp_value(buf@) && -999 <= v <= 999,
{
    let buf_len = buf.len();
    if buf_len > 2 && buf_len < 6 && buf[buf_len - 2] == 46u8 {
        let fractional = buf[buf_len - 1];
        if !(48 <= fractional && fractional <= 57) {
            return None;
        }
        let fractional = fractional - 48;

        let integral_last_pos = buf_len - 3;
        let integral_last = buf[integral_last_pos];
        if !(48 <= integral_last && integral_last <= 57) {
            return None;
        }
        let integral_last = integral_last - 48;

        let negative = buf[0] == 45u8;
        let integral_first_pos: usize = if negative {
            1
        } else {
            0
        };

        if integral_last_pos == integral_first_pos {
            let mag = (integral_last as i16) * 10 + (fractional as i16);
            if negative {
                Some(-mag)
            } else {
                Some(mag)
            }
        } else if integral_last_pos == integral_first_pos + 1 {
            let integral_first = buf[integral_first_pos];
            if !(48 <= integral_first && integral_first <= 57) {
                return None;
            }
            let integral_first = integral_first - 48;
            let mag = (integral_first as i16) * 100 + (integral_last as i16) * 10 + (
            fractional as i16);
            if negative {
                Some(-mag)
            } else {
                Some(mag)
            }
        } else {
            None
        }
    } else {
        None
    }
}

/// Mathematical model of a station's statistics.
pub ghost struct StatModel {
    pub min: int,
    pub max: int,
    pub sum: int,
    pub count: nat,
}

impl StatModel {
    /// Every statistics value built from temperatures in `-999..=999`
    /// satisfies this: at least one observation, ordered extremes in
    /// range, and a sum bracketed by the extremes times the count.
    pub open spec fn wf(self) -> bool {
        &&& 1 <= self.count
        &&& -999 <= self.min <= self.max <= 999
        &&& self.min * self.count <= self.sum <= self.max * self.count
        &&& -999 * self.count <= self.sum <= 999 * self.count
    }
}

/// Statistics of a single observation.
pub open spec fn spec_from(t: int) -> StatModel {
    StatModel { min: t, max: t, sum: t, count: 1 }
}

/// Statistics after one more observation.
pub open spec fn spec_update(m: StatModel, t: int) -> StatModel {
    StatModel {
        min: if t < m.min { t } else { m.min },
        max: if t > m.max { t } else { m.max },
        sum: m.sum + t,
        count: m.count + 1,
    }
}

/// Statistics of two disjoint observation groups taken together.
pub open spec fn spec_merge(a: StatModel, b: StatModel) -> StatModel {
    StatModel {
        min: if b.min < a.min { b.min } else { a.min },
        max: if b.max > a.max { b.max } else { a.max },
        sum: a.sum + b.sum,
        count: a.count + b.count,
    }
}

pub proof fn lemma_from_wf(t: int)
    requires
        -999 <= t <= 999,
    ensures
        spec_from(t).wf(),
{
}

pub proof fn lemma_update_wf(m: StatModel, t: int)
    requires
        m.wf(),
        -999 <= t <= 999,
    ensures
        spec_update(m, t).wf(),
{
    let u = spec_update(m, t);
    assert(u.min * u.count <= u.sum && u.sum <= u.max * u.count) by (nonlinear_arith)
        requires
            m.wf(),
            -999 <= t <= 999,
            u == spec_update(m, t),
    ;
}

pub proof fn lemma_merge_wf(a: StatModel, b: StatModel)
    requires
        a.wf(),
        b.wf(),
    ensures
        spec_merge(a, b).wf(),
{
    let u = spec_merge(a, b);
    assert(u.min * u.count <= u.sum && u.sum <= u.max * u.count) by (nonlinear_arith)
        requires
            a.wf(),
            b.wf(),
            u == spec_merge(a, b),
    ;
    assert(-999 * u.count <= u.sum <= 999 * u.count) by (nonlinear_arith)
        requires
            a.wf(),
            b.wf(),
            u == spec_merge(a, b),
    ;
}

/// Updating with one observation is merging with that observation's
/// single-element statistics.
pub proof fn lemma_update_is_merge_from(m: StatModel, t: int)
    ensures
        spec_update(m, t) == spec_merge(m, spec_from(t)),
{
}

/// Merging statistics is commutative.
pub proof fn lemma_merge_comm(a: StatModel, b: StatModel)
    ensures
        spec_merge(a, b) == spec_merge(b, a),
{
}

/// Merging statistics is associative.
pub proof fn lemma_merge_assoc(a: StatModel, b: StatModel, c: StatModel)
    ensures
        spec_merge(spec_merge(a, b), c) == spec_merge(a, spec_merge(b, c)),
{
}

/// **Temper**ature **Stat**istics: minimum, maximum, sum and count of
/// the observed temperatures of one station, in tenths of a degree.
#[derive(Clone, Copy, Debug)]
pub struct TemperStat {
    pub min: i16,
    pub max: i16,
    pub sum: i64,
    pub count: usize,
}

impl View for TemperStat {
    type V = StatModel;

    open spec fn view(&self) -> StatModel {
        StatModel {
            min: self.min as int,
            max: self.max as int,
            sum: self.sum as int,
            count: self.count as nat,
        }
    }
}

impl TemperStat {
    /// The statistics of a single observation.
    pub fn from_i16(v: i16) -> (r: Self)
        requires
            -999 <= v <= 999,
        ensures
            r@ == spec_from(v as int),
            r@.wf(),
    {
        proof {
            lemma_from_wf(v as int);
        }
        TemperStat { min: v, max: v, sum: v as i64, count: 1 }
    }

    /// Add one observation in place.
    pub fn update(&mut self, v: i16)
        requires
            old(self)@.wf(),
            -999 <= v <= 999,
            (old(self).count as int) < COUNT_LIMIT as int,
            old(self).count < usize::MAX,
        ensures
            final(self)@ == spec_update(old(self)@, v as int),
            final(self)@.wf(),
    {
        proof {
            lemma_update_wf(old(self)@, v as int);
        }
        if self.min > v {
            self.min = v;
        }
        if v > self.max {
            self.max = v;
        }
        self.sum = self.sum + v as i64;
        self.count = self.count + 1;
    }

    /// Fold another station's statistics into this one, in place.
    pub fn merge(&mut self, other: &Self)
        requires
            old(self)@.wf(),
            other@.wf(),
            old(self).count as int + other.count as int <= COUNT_LIMIT as int,
            old(self).count as int + other.count as int <= usize::MAX as int,
        ensures
            final(self)@ == spec_merge(old(self)@, other@),
            final(self)@.wf(),
    {
        proof {
            lemma_merge_wf(old(self)@, other@);
        }
        if self.min > other.min {
            self.min = other.min;
        }
        if other.max > self.max {
            self.max = other.max;
        }
        self.sum = self.sum + other.sum;
        self.count = self.count + other.count;
    }
}

} // verus!
