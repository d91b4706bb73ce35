//! The ordered result: merge per-worker maps into one mapping ordered
//! lexicographically by raw key bytes, independent of the order in
//! which workers finish.

use vstd::prelude::*;

use crate::block::{ahm_entries, contents_model, tuple_model};
use crate::bytes::{bytes_eq, bytes_lt, lemma_lex_irrefl, lemma_lex_total, lemma_lex_trans, lex_lt};
use crate::model::merge_maps;
use crate::{StatModel, TemperStat, COUNT_LIMIT};

verus! {

/// The map an association of keys and statistics stands for; on equal
/// keys the later binding wins, but the keys of a well-formed result
/// are unique.
pub open spec fn pairs_map(keys: Seq<Vec<u8>>, stats: Seq<TemperStat>) -> Map<Seq<u8>, StatModel>
    decreases keys.len(),
{
    if keys.len() == 0 || stats.len() != keys.len() {
        Map::empty()
    } else {
        pairs_map(keys.drop_last(), stats.drop_last()).insert(keys.last()@, stats.last()@)
    }
}

/// No two positions hold the same key.
pub open spec fn keys_unique(keys: Seq<Vec<u8>>) -> bool {
    forall|i: int, j: int| 0 <= i < j < keys.len() ==> keys[i]@ != keys[j]@
}

/// Keys strictly ascending in raw-byte lexicographic order.
pub open spec fn keys_sorted(keys: Seq<Vec<u8>>) -> bool {
    forall|i: int, j: int| 0 <= i < j < keys.len() ==> lex_lt(keys[i]@, keys[j]@)
}

/// Strictly sorted keys are unique.
pub proof fn lemma_sorted_unique(keys: Seq<Vec<u8>>)
    requires
        keys_sorted(keys),
    ensures
        keys_unique(keys),
{
    assert forall|i: int, j: int| 0 <= i < j < keys.len() implies keys[i]@ != keys[j]@ by {
        lemma_lex_irrefl(keys[i]@);
    }
}

pub proof fn lemma_pairs_map_index(keys: Seq<Vec<u8>>, stats: Seq<TemperStat>, i: int)
    requires
        keys.len() == stats.len(),
        keys_unique(keys),
        0 <= i < keys.len(),
    ensures
        pairs_map(keys, stats).contains_key(keys[i]@),
        pairs_map(keys, stats)[keys[i]@] == stats[i]@,
    decreases keys.len(),
{
    if i < keys.len() - 1 {
        assert(keys_unique(keys.drop_last()));
        assert(keys.drop_last()[i] == keys[i]);
        lemma_pairs_map_index(keys.drop_last(), stats.drop_last(), i);
    }
}

pub proof fn lemma_pairs_map_absent(keys: Seq<Vec<u8>>, stats: Seq<TemperStat>, k: Seq<u8>)
    requires
        keys.len() == stats.len(),
        forall|i: int| 0 <= i < keys.len() ==> keys[i]@ != k,
    ensures
        !pairs_map(keys, stats).contains_key(k),
    decreases keys.len(),
{
    if keys.len() > 0 {
        assert(forall|i: int|
            0 <= i < keys.drop_last().len() ==> #[trigger] keys.drop_last()[i]@ != k);
        lemma_pairs_map_absent(keys.drop_last(), stats.drop_last(), k);
    }
}

pub proof fn lemma_pairs_map_dom(keys: Seq<Vec<u8>>, stats: Seq<TemperStat>)
    requires
        keys.len() == stats.len(),
    ensures
        forall|k: Seq<u8>|
            pairs_map(keys, stats).contains_key(k) ==> exists|i: int|
                0 <= i < keys.len() && #[trigger] keys[i]@ == k,
    decreases keys.len(),
{
    if keys.len() > 0 {
        lemma_pairs_map_dom(keys.drop_last(), stats.drop_last());
        assert forall|k: Seq<u8>| pairs_map(keys, stats).contains_key(k) implies exists|i: int|
            0 <= i < keys.len() && #[trigger] keys[i]@ == k by {
            if k == keys.last()@ {
                assert(keys[keys.len() - 1]@ == k);
            } else {
                assert(pairs_map(keys.drop_last(), stats.drop_last()).contains_key(k));
                let i = choose|i: int|
                    0 <= i < keys.drop_last().len() && #[trigger] keys.drop_last()[i]@ == k;
                assert(keys[i]@ == k);
            }
        }
    }
}

pub proof fn lemma_pairs_map_update(keys: Seq<Vec<u8>>, stats: Seq<TemperStat>, i: int, s: TemperStat)
    requires
        keys.len() == stats.len(),
        keys_unique(keys),
        0 <= i < keys.len(),
    ensures
        pairs_map(keys, stats.update(i, s)) == pairs_map(keys, stats).insert(keys[i]@, s@),
    decreases keys.len(),
{
    let n = keys.len() - 1;
    if i == n {
        assert(stats.update(i, s).drop_last() =~= stats.drop_last());
        assert(pairs_map(keys, stats.update(i, s)) =~= pairs_map(keys, stats).insert(
            keys[i]@,
            s@,
        ));
    } else {
        assert(stats.update(i, s).drop_last() =~= stats.drop_last().update(i, s));
        assert(keys_unique(keys.drop_last()));
        assert(keys.drop_last()[i] == keys[i]);
        lemma_pairs_map_update(keys.drop_last(), stats.drop_last(), i, s);
        assert(stats.update(i, s).last() == stats.last());
        assert(keys[i]@ != keys.last()@);
        assert(pairs_map(keys, stats.update(i, s)) =~= pairs_map(keys, stats).insert(
            keys[i]@,
            s@,
        ));
    }
}

pub proof fn lemma_pairs_map_insert(
    keys: Seq<Vec<u8>>,
    stats: Seq<TemperStat>,
    p: int,
    k: Vec<u8>,
    s: TemperStat,
)
    requires
        keys.len() == stats.len(),
        0 <= p <= keys.len(),
        forall|i: int| 0 <= i < keys.len() ==> keys[i]@ != k@,
    ensures
        pairs_map(keys.insert(p, k), stats.insert(p, s)) == pairs_map(keys, stats).insert(k@, s@),
    decreases keys.len(),
{
    let n = keys.len();
    if p == n {
        assert(keys.insert(p, k).drop_last() =~= keys);
        assert(stats.insert(p, s).drop_last() =~= stats);
        assert(keys.insert(p, k).last() == k);
        assert(stats.insert(p, s).last() == s);
    } else {
        assert(keys.insert(p, k).drop_last() =~= keys.drop_last().insert(p, k));
        assert(stats.insert(p, s).drop_last() =~= stats.drop_last().insert(p, s));
        assert(keys.insert(p, k).last() == keys.last());
        assert(stats.insert(p, s).last() == stats.last());
        assert(forall|i: int|
            0 <= i < keys.drop_last().len() ==> #[trigger] keys.drop_last()[i]@ != k@);
        lemma_pairs_map_insert(keys.drop_last(), stats.drop_last(), p, k, s);
        assert(keys.last()@ != k@);
        assert(pairs_map(keys.insert(p, k), stats.insert(p, s)) =~= pairs_map(
            keys,
            stats,
        ).insert(k@, s@));
    }
}

/// Two strictly sorted associations that stand for the same mapping
/// are the same association, key for key and value for value.
pub proof fn lemma_sorted_assoc_unique(
    k1: Seq<Vec<u8>>,
    s1: Seq<TemperStat>,
    k2: Seq<Vec<u8>>,
    s2: Seq<TemperStat>,
)
    requires
        k1.len() == s1.len(),
        k2.len() == s2.len(),
        keys_sorted(k1),
        keys_sorted(k2),
        pairs_map(k1, s1) == pairs_map(k2, s2),
    ensures
        k1.len() == k2.len(),
        forall|i: int| 0 <= i < k1.len() ==> k1[i]@ == k2[i]@ && s1[i]@ == s2[i]@,
    decreases k1.len(),
{
    lemma_sorted_unique(k1);
    lemma_sorted_unique(k2);
    lemma_pairs_map_dom(k1, s1);
    lemma_pairs_map_dom(k2, s2);
    if k1.len() == 0 {
        if k2.len() > 0 {
            lemma_pairs_map_index(k2, s2, k2.len() - 1);
            assert(false);
        }
    } else if k2.len() == 0 {
        lemma_pairs_map_index(k1, s1, k1.len() - 1);
        assert(false);
    } else {
        let x = k1.last()@;
        let y = k2.last()@;
        lemma_pairs_map_index(k1, s1, k1.len() - 1);
        lemma_pairs_map_index(k2, s2, k2.len() - 1);
        if x != y {
            assert(pairs_map(k2, s2).contains_key(x));
            let j = choose|j: int| 0 <= j < k2.len() && #[trigger] k2[j]@ == x;
            assert(j < k2.len() - 1);
            assert(lex_lt(x, y));
            assert(pairs_map(k1, s1).contains_key(y));
            let j1 = choose|j1: int| 0 <= j1 < k1.len() && #[trigger] k1[j1]@ == y;
            assert(j1 < k1.len() - 1);
            assert(lex_lt(y, x));
            lemma_lex_trans(x, y, x);
            lemma_lex_irrefl(x);
            assert(false);
        }
        assert(s1.last()@ == s2.last()@);
        lemma_pairs_map_absent(k1.drop_last(), s1.drop_last(), x);
        lemma_pairs_map_absent(k2.drop_last(), s2.drop_last(), y);
        assert(pairs_map(k1.drop_last(), s1.drop_last()) =~= pairs_map(k1, s1).remove(x));
        assert(pairs_map(k2.drop_last(), s2.drop_last()) =~= pairs_map(k2, s2).remove(y));
        assert(keys_sorted(k1.drop_last()));
        assert(keys_sorted(k2.drop_last()));
        lemma_sorted_assoc_unique(k1.drop_last(), s1.drop_last(), k2.drop_last(), s2.drop_last());
        assert forall|i: int| 0 <= i < k1.len() implies k1[i]@ == k2[i]@ && s1[i]@ == s2[i]@ by {
            if i < k1.len() - 1 {
                assert(k1.drop_last()[i]@ == k2.drop_last()[i]@);
                assert(s1.drop_last()[i]@ == s2.drop_last()[i]@);
            }
        }
    }
}

/// The map the first `n` entries of a worker's entry list stand for.
pub open spec fn entries_model(es: Seq<(Vec<u8>, (i16, i16, i64, usize))>, n: int) -> Map<
    Seq<u8>,
    StatModel,
>
    decreases n,
{
    if n <= 0 {
        Map::empty()
    } else {
        entries_model(es, n - 1).insert(es[n - 1].0@, tuple_model(es[n - 1].1))
    }
}

pub proof fn lemma_entries_model_dom(es: Seq<(Vec<u8>, (i16, i16, i64, usize))>, n: int)
    requires
        0 <= n <= es.len(),
    ensures
        forall|k: Seq<u8>|
            entries_model(es, n).contains_key(k) ==> exists|i: int|
                0 <= i < n && #[trigger] es[i].0@ == k,
        forall|i: int| 0 <= i < n ==> entries_model(es, n).contains_key(#[trigger] es[i].0@),
    decreases n,
{
    if n > 0 {
        lemma_entries_model_dom(es, n - 1);
        assert forall|k: Seq<u8>| entries_model(es, n).contains_key(k) implies exists|i: int|
            0 <= i < n && #[trigger] es[i].0@ == k by {
            if k == es[n - 1].0@ {
                assert(es[n - 1].0@ == k);
            } else {
                assert(entries_model(es, n - 1).contains_key(k));
                let i = choose|i: int| 0 <= i < n - 1 && #[trigger] es[i].0@ == k;
                assert(es[i].0@ == k);
            }
        }
    }
}

pub proof fn lemma_entries_model_val(es: Seq<(Vec<u8>, (i16, i16, i64, usize))>, n: int, i: int)
    requires
        forall|i1: int, j1: int| 0 <= i1 < j1 < es.len() ==> es[i1].0@ != es[j1].0@,
        0 <= i < n <= es.len(),
    ensures
        entries_model(es, n)[es[i].0@] == tuple_model(es[i].1),
    decreases n,
{
    if i < n - 1 {
        lemma_entries_model_val(es, n - 1, i);
    }
}

/// **Temper**ature **Stat**istic **Result**: the final mapping from
/// station key to statistics, held in strictly ascending raw-byte
/// order.
#[derive(Debug)]
pub struct TemperStatResult {
    pub keys: Vec<Vec<u8>>,
    pub stats: Vec<TemperStat>,
}

impl View for TemperStatResult {
    type V = Map<Seq<u8>, StatModel>;

    open spec fn view(&self) -> Map<Seq<u8>, StatModel> {
        pairs_map(self.keys@, self.stats@)
    }
}

impl TemperStatResult {
    /// One key per statistics value, keys strictly sorted, every
    /// statistics value well formed.
    pub open spec fn wf(self) -> bool {
        &&& self.keys@.len() == self.stats@.len()
        &&& keys_sorted(self.keys@)
        &&& forall|i: int| 0 <= i < self.stats@.len() ==> (#[trigger] self.stats@[i])@.wf()
    }

    /// An empty result.
    pub fn new() -> (r: Self)
        ensures
            r.wf(),
            r@ =~= Map::empty(),
    {
        TemperStatResult { keys: Vec::new(), stats: Vec::new() }
    }

    /// Index of the key in the result, if present.
    fn find_index(&self, k: &[u8]) -> (r: Option<usize>)
        requires
            self.keys@.len() == self.stats@.len(),
        ensures
            match r {
                Some(i) => i < self.keys@.len() && self.keys@[i as int]@ == k@,
                None => forall|i: int| 0 <= i < self.keys@.len() ==> self.keys@[i]@ != k@,
            },
    {
        let mut i: usize = 0;
        while i < self.keys.len()
            invariant
                i <= self.keys@.len(),
                forall|j: int| 0 <= j < i ==> self.keys@[j]@ != k@,
            decreases self.keys@.len() - i,
        {
            if bytes_eq(self.keys[i].as_slice(), k) {
                return Some(i);
            }
            i = i + 1;
        }
        None
    }

    /// Fold one worker's map into the result: statistics of a key both
    /// sides know are merged, fresh keys are inserted in key order.
    pub fn aggregate(&mut self, m: &ahash::AHashMap<Vec<u8>, (i16, i16, i64, usize)>)
        requires
            old(self).wf(),
            forall|k: Seq<u8>| #[trigger]
                contents_model(*m).contains_key(k) ==> contents_model(*m)[k].wf(),
            forall|k: Seq<u8>|
                old(self)@.contains_key(k) && #[trigger] contents_model(*m).contains_key(k)
                    ==> old(self)@[k].count + contents_model(*m)[k].count <= COUNT_LIMIT as int
                    && old(self)@[k].count + contents_model(*m)[k].count <= usize::MAX as int,
        ensures
            final(self).wf(),
            final(self)@ == merge_maps(old(self)@, contents_model(*m)),
    {
        let entries = ahm_entries(m);
        let ghost m0 = contents_model(*m);
        let ghost base = self@;
        let mut idx: usize = 0;
        proof {
            assert(merge_maps(base, entries_model(entries@, 0)) =~= base);
        }
        while idx < entries.len()
            invariant
                self.wf(),
                idx <= entries@.len(),
                self@ == merge_maps(base, entries_model(entries@, idx as int)),
                forall|i: int, j: int| 0 <= i < j < entries@.len() ==> entries@[i].0@ != entries@[j].0@,
                forall|i: int|
                    0 <= i < entries@.len() ==> m0.contains_key(#[trigger] entries@[i].0@)
                        && m0[entries@[i].0@] == tuple_model(entries@[i].1),
                forall|k: Seq<u8>| #[trigger] m0.contains_key(k) ==> m0[k].wf(),
                forall|k: Seq<u8>|
                    base.contains_key(k) && #[trigger] m0.contains_key(k) ==> base[k].count
                        + m0[k].count <= COUNT_LIMIT as int && base[k].count + m0[k].count
                        <= usize::MAX as int,
            decreases entries@.len() - idx,
        {
            let val = entries[idx].1;
            let ghost k = entries@[idx as int].0@;
            let ghost pre = self@;
            let ghost partial = entries_model(entries@, idx as int);
            proof {
                lemma_entries_model_dom(entries@, idx as int);
                assert(!partial.contains_key(k));
            }
            let other = TemperStat { min: val.0, max: val.1, sum: val.2, count: val.3 };
            proof {
                assert(other@ == m0[k]);
                assert(other@.wf());
            }
            match self.find_index(entries[idx].0.as_slice()) {
                Some(i) => {
                    proof {
                        lemma_sorted_unique(self.keys@);
                        lemma_pairs_map_index(self.keys@, self.stats@, i as int);
                        assert(pre.contains_key(k));
                        assert(pre[k] == self.stats@[i as int]@);
                        assert(base.contains_key(k));
                        assert(pre[k] == base[k]);
                    }
                    let ghost pre_stats = self.stats@;
                    let mut st = self.stats[i];
                    st.merge(&other);
                    self.stats.set(i, st);
                    proof {
                        lemma_sorted_unique(self.keys@);
                        lemma_pairs_map_update(self.keys@, pre_stats, i as int, st);
                        assert(self.stats@ == pre_stats.update(i as int, st));
                        assert(self@ == pre.insert(k, st@));
                        assert(entries_model(entries@, idx as int + 1) == partial.insert(
                            k,
                            m0[k],
                        ));
                        assert(self@ =~= merge_maps(
                            base,
                            entries_model(entries@, idx as int + 1),
                        ));
                        assert(forall|j: int|
                            0 <= j < self.stats@.len() ==> (#[trigger] self.stats@[j])@.wf());
                    }
                },
                None => {
                    proof {
                        lemma_pairs_map_absent(self.keys@, self.stats@, k);
                        assert(!pre.contains_key(k));
                        assert(!base.contains_key(k));
                    }
                    let key = vstd::slice::slice_to_vec(entries[idx].0.as_slice());
                    let mut p: usize = 0;
                    while p < self.keys.len() && bytes_lt(self.keys[p].as_slice(), key.as_slice())
                        invariant
                            p <= self.keys@.len(),
                            forall|j: int| 0 <= j < p ==> lex_lt(#[trigger] self.keys@[j]@, key@),
                        decreases self.keys@.len() - p,
                    {
                        p = p + 1;
                    }
                    proof {
                        if p < self.keys@.len() {
                            lemma_lex_total(key@, self.keys@[p as int]@);
                            assert(self.keys@[p as int]@ != key@);
                            assert(lex_lt(key@, self.keys@[p as int]@));
                        }
                        lemma_pairs_map_insert(self.keys@, self.stats@, p as int, key, other);
                    }
                    let ghost old_keys = self.keys@;
                    self.keys.insert(p, key);
                    self.stats.insert(p, other);
                    proof {
                        assert(self@ == pre.insert(k, other@));
                        assert(keys_sorted(self.keys@)) by {
                            assert forall|a: int, b: int|
                                0 <= a < b < self.keys@.len() implies lex_lt(
                                self.keys@[a]@,
                                self.keys@[b]@,
                            ) by {
                                if a < p && b == p {
                                    assert(lex_lt(old_keys[a]@, key@));
                                } else if a == p && b > p {
                                    assert(lex_lt(key@, old_keys[p as int]@));
                                    if b - 1 > p {
                                        assert(lex_lt(old_keys[p as int]@, old_keys[b - 1]@));
                                        lemma_lex_trans(key@, old_keys[p as int]@, old_keys[b - 1]@);
                                    }
                                } else if a < p && b > p {
                                    assert(lex_lt(old_keys[a]@, old_keys[b - 1]@));
                                } else if a > p && b > p {
                                    assert(lex_lt(old_keys[a - 1]@, old_keys[b - 1]@));
                                } else if a < p && b < p {
                                    assert(lex_lt(old_keys[a]@, old_keys[b]@));
                                }
                            }
                        }
                        assert(entries_model(entries@, idx as int + 1) == partial.insert(
                            k,
                            m0[k],
                        ));
                        assert(self@ =~= merge_maps(
                            base,
                            entries_model(entries@, idx as int + 1),
                        ));
                        assert(forall|j: int|
                            0 <= j < self.stats@.len() ==> (#[trigger] self.stats@[j])@.wf());
                    }
                },
            }
            idx = idx + 1;
        }
        proof {
            let n = entries@.len() as int;
            let em = entries_model(entries@, n);
            lemma_entries_model_dom(entries@, n);
            assert forall|k: Seq<u8>| #[trigger]
                m0.contains_key(k) implies em.contains_key(k) && em[k] == m0[k] by {
                let i = choose|i: int| 0 <= i < entries@.len() && #[trigger] entries@[i].0@ == k;
                lemma_entries_model_val(entries@, n, i);
            }
            assert forall|k: Seq<u8>| #[trigger] em.contains_key(k) implies m0.contains_key(k) by {
                let i = choose|i: int| 0 <= i < n && #[trigger] entries@[i].0@ == k;
            }
            assert(em =~= m0);
            assert(self@ =~= merge_maps(old(self)@, contents_model(*m)));
        }
    }
}

} // verus!
