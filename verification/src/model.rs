//! The mathematical model of block processing: the decomposition of a
//! byte region into lines, the per-line evaluation, the per-key
//! temperature sequences, and the laws that make per-shard processing
//! compose — processing shards separately and merging gives exactly
//! the statistics, line count and error count of the whole region.

use vstd::prelude::*;

use crate::bytes::{lemma_find_from, spec_find, spec_rfind};
use crate::{
    lemma_from_wf,
    lemma_merge_assoc,
    lemma_update_is_merge_from,
    lemma_update_wf,
    spec_from,
    spec_merge,
    spec_parse_temp,
    spec_update,
    temp_value,
    StatModel,
};

verus! {

/// The line terminator.
pub const NL: u8 = 10;

/// The name / temperature delimiter.
pub const SEMI: u8 = 59;

/// The lines of a byte region, in order: each maximal range before a
/// `\n`, the terminator excluded. A trailing range with no terminator
/// is not a line.
pub open spec fn spec_lines(s: Seq<u8>) -> Seq<Seq<u8>>
    decreases s.len(),
{
    let i = spec_find(s, NL);
    if 0 <= i < s.len() {
        seq![s.subrange(0, i)] + spec_lines(s.subrange(i + 1, s.len() as int))
    } else {
        Seq::empty()
    }
}

/// What one line contributes: the key before the last `;` and the
/// parsed temperature after it, or nothing when the line has no
/// delimiter or its temperature is outside the grammar.
pub open spec fn line_temp(ln: Seq<u8>) -> Option<(Seq<u8>, int)> {
    let c = spec_rfind(ln, SEMI);
    if c < 0 {
        None
    } else {
        match spec_parse_temp(ln.subrange(c + 1, ln.len() as int)) {
            Some(t) => Some((ln.subrange(0, c), t)),
            None => None,
        }
    }
}

/// The temperatures recorded for key `k` by a sequence of lines, in
/// order.
pub open spec fn temps_of(lines: Seq<Seq<u8>>, k: Seq<u8>) -> Seq<int>
    decreases lines.len(),
{
    if lines.len() == 0 {
        Seq::empty()
    } else {
        let rest = temps_of(lines.drop_last(), k);
        match line_temp(lines.last()) {
            Some(p) => if p.0 == k {
                rest.push(p.1)
            } else {
                rest
            },
            None => rest,
        }
    }
}

/// How many lines of the sequence are errors (no delimiter, or a
/// malformed temperature).
pub open spec fn error_count(lines: Seq<Seq<u8>>) -> nat
    decreases lines.len(),
{
    if lines.len() == 0 {
        0
    } else {
        error_count(lines.drop_last()) + if line_temp(lines.last()) is None {
            1nat
        } else {
            0nat
        }
    }
}

/// The statistics of a sequence of observations, first to last.
pub open spec fn fold_stat(ts: Seq<int>) -> StatModel
    decreases ts.len(),
{
    if ts.len() == 0 {
        spec_from(0)
    } else if ts.len() == 1 {
        spec_from(ts[0])
    } else {
        spec_update(fold_stat(ts.drop_last()), ts.last())
    }
}

/// The station map a sequence of lines produces: every key that was
/// observed, with the statistics of its observations.
pub open spec fn block_map(lines: Seq<Seq<u8>>) -> Map<Seq<u8>, StatModel> {
    Map::new(
        |k: Seq<u8>| temps_of(lines, k).len() > 0,
        |k: Seq<u8>| fold_stat(temps_of(lines, k)),
    )
}

/// Two station maps folded together: statistics of common keys are
/// merged, all other keys keep their statistics.
pub open spec fn merge_maps(a: Map<Seq<u8>, StatModel>, b: Map<Seq<u8>, StatModel>) -> Map<
    Seq<u8>,
    StatModel,
> {
    Map::new(
        |k: Seq<u8>| a.contains_key(k) || b.contains_key(k),
        |k: Seq<u8>|
            if a.contains_key(k) && b.contains_key(k) {
                spec_merge(a[k], b[k])
            } else if a.contains_key(k) {
                a[k]
            } else {
                b[k]
            },
    )
}

/// A key is observed at most once per line.
pub proof fn lemma_temps_len(lines: Seq<Seq<u8>>, k: Seq<u8>)
    ensures
        temps_of(lines, k).len() <= lines.len(),
    decreases lines.len(),
{
    if lines.len() > 0 {
        lemma_temps_len(lines.drop_last(), k);
    }
}

/// Every recorded temperature is in the parser's range.
pub proof fn lemma_temps_range(lines: Seq<Seq<u8>>, k: Seq<u8>)
    ensures
        forall|i: int|
            0 <= i < temps_of(lines, k).len() ==> -999 <= #[trigger] temps_of(lines, k)[i] <= 999,
    decreases lines.len(),
{
    if lines.len() > 0 {
        lemma_temps_range(lines.drop_last(), k);
        let rest = temps_of(lines.drop_last(), k);
        match line_temp(lines.last()) {
            Some(p) => {
                if p.0 == k {
                    assert(temps_of(lines, k) == rest.push(p.1));
                    assert(-999 <= p.1 <= 999);
                    assert(forall|i: int|
                        0 <= i < rest.len() ==> #[trigger] rest.push(p.1)[i] == rest[i]);
                }
            },
            None => {},
        }
    }
}

/// The statistics of a non-empty observation sequence in range are
/// well formed and count exactly the observations.
pub proof fn lemma_fold_wf(ts: Seq<int>)
    requires
        ts.len() > 0,
        forall|i: int| 0 <= i < ts.len() ==> -999 <= #[trigger] ts[i] <= 999,
    ensures
        fold_stat(ts).wf(),
        fold_stat(ts).count == ts.len(),
    decreases ts.len(),
{
    if ts.len() == 1 {
        lemma_from_wf(ts[0]);
    } else {
        assert(forall|i: int|
            0 <= i < ts.drop_last().len() ==> -999 <= #[trigger] ts.drop_last()[i] <= 999);
        lemma_fold_wf(ts.drop_last());
        lemma_update_wf(fold_stat(ts.drop_last()), ts.last());
    }
}

/// Merging station maps is commutative.
pub proof fn lemma_merge_maps_comm(a: Map<Seq<u8>, StatModel>, b: Map<Seq<u8>, StatModel>)
    ensures
        merge_maps(a, b) == merge_maps(b, a),
{
    assert forall|k: Seq<u8>| #[trigger]
        merge_maps(a, b).contains_key(k) implies merge_maps(a, b)[k] == merge_maps(b, a)[k] by {
        if a.contains_key(k) && b.contains_key(k) {
            crate::lemma_merge_comm(a[k], b[k]);
        }
    }
    assert(merge_maps(a, b) =~= merge_maps(b, a));
}

/// The aggregator may absorb two worker maps in either completion
/// order: the folded mapping is the same.
pub proof fn lemma_absorb_order_irrelevant(
    r: Map<Seq<u8>, StatModel>,
    a: Map<Seq<u8>, StatModel>,
    b: Map<Seq<u8>, StatModel>,
)
    ensures
        merge_maps(merge_maps(r, a), b) == merge_maps(merge_maps(r, b), a),
{
    assert forall|k: Seq<u8>| #[trigger]
        merge_maps(merge_maps(r, a), b).contains_key(k) implies merge_maps(merge_maps(r, a), b)[k]
        == merge_maps(merge_maps(r, b), a)[k] by {
        if r.contains_key(k) && a.contains_key(k) && b.contains_key(k) {
            crate::lemma_merge_assoc(r[k], a[k], b[k]);
            crate::lemma_merge_comm(a[k], b[k]);
            crate::lemma_merge_assoc(r[k], b[k], a[k]);
        } else if a.contains_key(k) && b.contains_key(k) {
            crate::lemma_merge_comm(a[k], b[k]);
        }
    }
    assert(merge_maps(merge_maps(r, a), b) =~= merge_maps(merge_maps(r, b), a));
}

/// At most every line is an error.
pub proof fn lemma_errors_le(lines: Seq<Seq<u8>>)
    ensures
        error_count(lines) <= lines.len(),
    decreases lines.len(),
{
    if lines.len() > 0 {
        lemma_errors_le(lines.drop_last());
    }
}

/// A region has at most as many lines as bytes.
pub proof fn lemma_lines_len(s: Seq<u8>)
    ensures
        spec_lines(s).len() <= s.len(),
    decreases s.len(),
{
    lemma_find_from(s, NL, 0);
    let i = spec_find(s, NL);
    if 0 <= i < s.len() {
        lemma_lines_len(s.subrange(i + 1, s.len() as int));
    }
}

/// Every statistics value of a block's map is well formed and counts
/// at most one observation per line.
pub proof fn lemma_block_map_wf(lines: Seq<Seq<u8>>)
    ensures
        forall|k: Seq<u8>| #[trigger]
            block_map(lines).contains_key(k) ==> block_map(lines)[k].wf() && block_map(
                lines,
            )[k].count <= lines.len(),
{
    assert forall|k: Seq<u8>| #[trigger] block_map(lines).contains_key(k) implies block_map(
        lines,
    )[k].wf() && block_map(lines)[k].count <= lines.len() by {
        lemma_temps_range(lines, k);
        lemma_temps_len(lines, k);
        lemma_fold_wf(temps_of(lines, k));
    }
}

/// Lines split at a terminator: when a region ends on `\n` (or is
/// empty), the lines of it followed by more bytes are its own lines
/// followed by the lines of the rest.
pub proof fn lemma_lines_concat(a: Seq<u8>, b: Seq<u8>)
    requires
        a.len() == 0 || a[a.len() - 1] == NL,
    ensures
        spec_lines(a + b) == spec_lines(a) + spec_lines(b),
    decreases a.len(),
{
    if a.len() == 0 {
        assert(a + b =~= b);
        assert(spec_lines(a) + spec_lines(b) =~= spec_lines(b));
    } else {
        lemma_find_from(a, NL, 0);
        let i = spec_find(a, NL);
        assert(i != -1);
        lemma_find_from(a + b, NL, 0);
        let j = spec_find(a + b, NL);
        assert((a + b)[i] == NL);
        assert(j == i);
        let a2 = a.subrange(i + 1, a.len() as int);
        assert((a + b).subrange(0, j) =~= a.subrange(0, i));
        assert((a + b).subrange(j + 1, (a + b).len() as int) =~= a2 + b);
        if a2.len() > 0 {
            assert(a2[a2.len() - 1] == a[a.len() - 1]);
        }
        lemma_lines_concat(a2, b);
        assert(spec_lines(a + b) =~= spec_lines(a) + spec_lines(b));
    }
}

/// A trailing range with no terminator changes nothing: it is not a
/// line, is not counted, and records no observation.
pub proof fn lemma_partial_tail_dropped(s: Seq<u8>, t: Seq<u8>)
    requires
        forall|j: int| 0 <= j < t.len() ==> t[j] != NL,
    ensures
        spec_lines(s + t) == spec_lines(s),
    decreases s.len(),
{
    lemma_find_from(s, NL, 0);
    lemma_find_from(s + t, NL, 0);
    let i = spec_find(s, NL);
    let j = spec_find(s + t, NL);
    if i == -1 {
        assert(j == -1);
        assert(spec_lines(s + t) =~= spec_lines(s));
    } else {
        assert((s + t)[i] == NL);
        assert(j == i);
        let s2 = s.subrange(i + 1, s.len() as int);
        assert((s + t).subrange(0, j) =~= s.subrange(0, i));
        assert((s + t).subrange(j + 1, (s + t).len() as int) =~= s2 + t);
        lemma_partial_tail_dropped(s2, t);
        assert(spec_lines(s + t) =~= spec_lines(s));
    }
}

/// Observations per key concatenate along a split of the lines.
pub proof fn lemma_temps_concat(l1: Seq<Seq<u8>>, l2: Seq<Seq<u8>>, k: Seq<u8>)
    ensures
        temps_of(l1 + l2, k) == temps_of(l1, k) + temps_of(l2, k),
    decreases l2.len(),
{
    if l2.len() == 0 {
        assert(l1 + l2 =~= l1);
        assert(temps_of(l1, k) + temps_of(l2, k) =~= temps_of(l1, k));
    } else {
        assert((l1 + l2).drop_last() =~= l1 + l2.drop_last());
        lemma_temps_concat(l1, l2.drop_last(), k);
        assert((l1 + l2).last() == l2.last());
        assert(temps_of(l1 + l2, k) =~= temps_of(l1, k) + temps_of(l2, k));
    }
}

/// Error counts add along a split of the lines.
pub proof fn lemma_errors_concat(l1: Seq<Seq<u8>>, l2: Seq<Seq<u8>>)
    ensures
        error_count(l1 + l2) == error_count(l1) + error_count(l2),
    decreases l2.len(),
{
    if l2.len() == 0 {
        assert(l1 + l2 =~= l1);
    } else {
        assert((l1 + l2).drop_last() =~= l1 + l2.drop_last());
        lemma_errors_concat(l1, l2.drop_last());
        assert((l1 + l2).last() == l2.last());
    }
}

/// Folding a concatenation of observations merges the two folds.
pub proof fn lemma_fold_concat(t1: Seq<int>, t2: Seq<int>)
    requires
        t1.len() > 0,
        t2.len() > 0,
    ensures
        fold_stat(t1 + t2) == spec_merge(fold_stat(t1), fold_stat(t2)),
    decreases t2.len(),
{
    if t2.len() == 1 {
        assert((t1 + t2).drop_last() =~= t1);
        assert((t1 + t2).last() == t2[0]);
        lemma_update_is_merge_from(fold_stat(t1), t2[0]);
    } else {
        let t2p = t2.drop_last();
        let t = t2.last();
        assert((t1 + t2).drop_last() =~= t1 + t2p);
        lemma_fold_concat(t1, t2p);
        lemma_update_is_merge_from(spec_merge(fold_stat(t1), fold_stat(t2p)), t);
        lemma_merge_assoc(fold_stat(t1), fold_stat(t2p), spec_from(t));
        lemma_update_is_merge_from(fold_stat(t2p), t);
    }
}

/// The law of shard composition: when a region splits at a line
/// terminator, processing the parts and merging equals processing the
/// whole — the line counts add, the error counts add, and the station
/// map of the whole is the merge of the parts' station maps.
pub proof fn lemma_block_concat(a: Seq<u8>, b: Seq<u8>)
    requires
        a.len() == 0 || a[a.len() - 1] == NL,
    ensures
        spec_lines(a + b).len() == spec_lines(a).len() + spec_lines(b).len(),
        error_count(spec_lines(a + b)) == error_count(spec_lines(a)) + error_count(spec_lines(b)),
        block_map(spec_lines(a + b)) == merge_maps(
            block_map(spec_lines(a)),
            block_map(spec_lines(b)),
        ),
{
    lemma_lines_concat(a, b);
    let l1 = spec_lines(a);
    let l2 = spec_lines(b);
    lemma_errors_concat(l1, l2);
    assert forall|k: Seq<u8>| true implies temps_of(l1 + l2, k) == temps_of(l1, k) + temps_of(
        l2,
        k,
    ) by {
        lemma_temps_concat(l1, l2, k);
    }
    assert forall|k: Seq<u8>| #[trigger]
        block_map(l1 + l2).contains_key(k) implies merge_maps(
        block_map(l1),
        block_map(l2),
    ).contains_key(k) && block_map(l1 + l2)[k] == merge_maps(block_map(l1), block_map(l2))[k] by {
        let t1 = temps_of(l1, k);
        let t2 = temps_of(l2, k);
        if t1.len() > 0 && t2.len() > 0 {
            lemma_fold_concat(t1, t2);
        } else if t1.len() == 0 {
            assert(t1 + t2 =~= t2);
        } else {
            assert(t1 + t2 =~= t1);
        }
    }
    assert(block_map(l1 + l2) =~= merge_maps(block_map(l1), block_map(l2)));
}

} // verus!
