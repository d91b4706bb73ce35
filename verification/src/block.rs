//! Streaming line decoder: walk one contiguous byte region, split it
//! on line terminators, parse each line, and build the local
//! station-to-statistics map. The map is ahash's hash map, seen by the
//! proofs only through its contents.

use vstd::prelude::*;

use crate::bytes::{find_byte, lemma_find_from, lemma_rfind_before, rfind_byte};
use crate::model::{
    block_map,
    error_count,
    fold_stat,
    line_temp,
    spec_lines,
    temps_of,
    NL,
    SEMI,
};
use crate::{StatModel, TemperStat, COUNT_LIMIT};

verus! {

#[verifier::external_type_specification]
#[verifier::external_body]
#[verifier::reject_recursive_types(K)]
#[verifier::reject_recursive_types(V)]
#[verifier::reject_recursive_types(S)]
pub struct ExAHashMap<K, V, S>(ahash::AHashMap<K, V, S>);

#[verifier::external_type_specification]
#[verifier::external_body]
pub struct ExRandomState(ahash::RandomState);

/// What a worker's map holds: each station key, with its statistics as
/// the plain tuple `(min, max, sum, count)`.
pub uninterp spec fn ahm_contents(m: ahash::AHashMap<Vec<u8>, (i16, i16, i64, usize)>) -> Map<
    Seq<u8>,
    (i16, i16, i64, usize),
>;

/// The statistics model a stored tuple stands for.
pub open spec fn tuple_model(t: (i16, i16, i64, usize)) -> StatModel {
    StatModel { min: t.0 as int, max: t.1 as int, sum: t.2 as int, count: t.3 as nat }
}

/// A worker's map, as a map from key to statistics model.
pub open spec fn contents_model(m: ahash::AHashMap<Vec<u8>, (i16, i16, i64, usize)>) -> Map<
    Seq<u8>,
    StatModel,
> {
    ahm_contents(m).map_values(|t: (i16, i16, i64, usize)| tuple_model(t))
}

/// Relies on ahash::AHashMap::with_capacity: a freshly created map is
/// empty.
#[verifier::external_body]
pub(crate) fn ahm_with_capacity(capacity: usize) -> (m: ahash::AHashMap<Vec<u8>, (i16, i16, i64, usize)>)
    ensures
        ahm_contents(m) =~= Map::empty(),
{
    ahash::AHashMap::with_capacity(capacity)
}

/// Relies on ahash::AHashMap::get: the value stored under the key, or
/// `None` when the key is absent.
#[verifier::external_body]
pub(crate) fn ahm_get(m: &ahash::AHashMap<Vec<u8>, (i16, i16, i64, usize)>, k: &[u8]) -> (r: Option<(i16, i16, i64, usize)>)
    ensures
        r == if ahm_contents(*m).contains_key(k@) {
            Some(ahm_contents(*m)[k@])
        } else {
            None::<(i16, i16, i64, usize)>
        },
{
    m.get(k).copied()
}

/// Relies on ahash::AHashMap::insert: the key is now bound to the
/// value, and every other key is unchanged.
#[verifier::external_body]
pub(crate) fn ahm_insert(
    m: &mut ahash::AHashMap<Vec<u8>, (i16, i16, i64, usize)>,
    k: Vec<u8>,
    v: (i16, i16, i64, usize),
)
    ensures
        ahm_contents(*final(m)) == ahm_contents(*old(m)).insert(k@, v),
{
    m.insert(k, v);
}

/// Relies on ahash::AHashMap::iter: every entry of the map, each key
/// exactly once, in no promised order.
#[verifier::external_body]
pub(crate) fn ahm_entries(m: &ahash::AHashMap<Vec<u8>, (i16, i16, i64, usize)>) -> (r: Vec<(Vec<u8>, (i16, i16, i64, usize))>)
    ensures
        forall|i: int, j: int| 0 <= i < j < r@.len() ==> r@[i].0@ != r@[j].0@,
        forall|i: int|
            0 <= i < r@.len() ==> ahm_contents(*m).contains_key(#[trigger] r@[i].0@)
                && ahm_contents(*m)[r@[i].0@] == r@[i].1,
        forall|k: Seq<u8>|
            ahm_contents(*m).contains_key(k) ==> exists|i: int|
                0 <= i < r@.len() && #[trigger] r@[i].0@ == k,
{
    m.iter().map(|e| (e.0.clone(), *e.1)).collect()
}

/// Parse one block of lines into the map from station name to
/// statistics, the count of lines seen, and the count of lines that
/// were malformed (no delimiter, or a temperature outside the
/// grammar). A trailing range with no terminator is ignored.
pub fn process_block(block: &[u8], capacity: usize) -> (r: (
    ahash::AHashMap<Vec<u8>, (i16, i16, i64, usize)>,
    usize,
    usize,
))
    requires
        block@.len() < COUNT_LIMIT as int,
    ensures
        contents_model(r.0) == block_map(spec_lines(block@)),
        r.1 == spec_lines(block@).len(),
        r.2 == error_count(spec_lines(block@)),
{
    let mut map = ahm_with_capacity(capacity);
    let mut lines: usize = 0;
    let mut errors: usize = 0;
    let mut begin: usize = 0;
    let ghost mut done: Seq<Seq<u8>> = Seq::empty();
    proof {
        assert(block@.subrange(0, block@.len() as int) =~= block@);
        assert(done + spec_lines(block@) =~= spec_lines(block@));
    }
    loop
        invariant
            begin <= block@.len() < COUNT_LIMIT as int,
            lines == done.len(),
            errors == error_count(done),
            errors <= lines,
            done.len() <= begin,
            spec_lines(block@) == done + spec_lines(
                block@.subrange(begin as int, block@.len() as int),
            ),
            forall|k: Seq<u8>|
                #[trigger] ahm_contents(map).contains_key(k) <==> temps_of(done, k).len() > 0,
            forall|k: Seq<u8>| #[trigger]
                ahm_contents(map).contains_key(k) ==> tuple_model(ahm_contents(map)[k])
                    == fold_stat(temps_of(done, k)),
        ensures
            begin <= block@.len(),
            lines == done.len(),
            errors == error_count(done),
            spec_lines(block@) == done + spec_lines(
                block@.subrange(begin as int, block@.len() as int),
            ),
            forall|k: Seq<u8>|
                #[trigger] ahm_contents(map).contains_key(k) <==> temps_of(done, k).len() > 0,
            forall|k: Seq<u8>| #[trigger]
                ahm_contents(map).contains_key(k) ==> tuple_model(ahm_contents(map)[k])
                    == fold_stat(temps_of(done, k)),
            forall|j: int| begin <= j < block@.len() ==> block@[j] != NL,
        decreases block@.len() - begin,
    {
        let rest = vstd::slice::slice_subrange(block, begin, block.len());
        match find_byte(NL, rest) {
            None => {
                proof {
                    assert forall|j: int| begin <= j < block@.len() implies block@[j] != NL by {
                        assert(rest@[j - begin] == block@[j]);
                    }
                }
                break ;
            },
            Some(off) => {
                let end = begin + off;
                let line = vstd::slice::slice_subrange(block, begin, end);
                let ghost old_done = done;
                proof {
                    lemma_find_from(rest@, NL, 0);
                    assert(spec_lines(rest@) == seq![line@] + spec_lines(
                        block@.subrange(end + 1, block@.len() as int),
                    )) by {
                        assert(rest@.subrange(0, off as int) =~= line@);
                        assert(rest@.subrange(off + 1, rest@.len() as int) =~= block@.subrange(
                            end + 1,
                            block@.len() as int,
                        ));
                    }
                    done = done.push(line@);
                    assert(done + spec_lines(block@.subrange(end + 1, block@.len() as int))
                        =~= old_done + spec_lines(block@.subrange(begin as int, block@.len() as int)));
                    assert(done.drop_last() =~= old_done);
                }
                lines = lines + 1;
                match rfind_byte(SEMI, line) {
                    None => {
                        proof {
                            lemma_rfind_before(line@, SEMI, line@.len() as int);
                            assert(line_temp(line@) is None);
                        }
                        errors = errors + 1;
                    },
                    Some(c) => {
                        let name = vstd::slice::slice_subrange(line, 0, c);
                        let tail = vstd::slice::slice_subrange(line, c + 1, line.len());
                        proof {
                            lemma_rfind_before(line@, SEMI, line@.len() as int);
                            assert(crate::bytes::spec_rfind(line@, SEMI) == c as int);
                        }
                        match crate::i16_from_bytes(tail) {
                            None => {
                                proof {
                                    assert(line_temp(line@) is None);
                                }
                                errors = errors + 1;
                            },
                            Some(t) => {
                                proof {
                                    assert(line_temp(line@) == Some((name@, t as int)));
                                }
                                match ahm_get(&map, name) {
                                    Some(cur) => {
                                        let mut st = TemperStat {
                                            min: cur.0,
                                            max: cur.1,
                                            sum: cur.2,
                                            count: cur.3,
                                        };
                                        proof {
                                            crate::model::lemma_temps_range(old_done, name@);
                                            crate::model::lemma_temps_len(old_done, name@);
                                            crate::model::lemma_fold_wf(temps_of(old_done, name@));
                                        }
                                        st.update(t);
                                        let key = vstd::slice::slice_to_vec(name);
                                        ahm_insert(&mut map, key, (st.min, st.max, st.sum, st.count));
                                        proof {
                                            assert(temps_of(done, name@) == temps_of(
                                                old_done,
                                                name@,
                                            ).push(t as int));
                                            assert(temps_of(done, name@).drop_last() =~= temps_of(
                                                old_done,
                                                name@,
                                            ));
                                        }
                                    },
                                    None => {
                                        let st = TemperStat::from_i16(t);
                                        let key = vstd::slice::slice_to_vec(name);
                                        ahm_insert(&mut map, key, (st.min, st.max, st.sum, st.count));
                                        proof {
                                            assert(temps_of(done, name@) == temps_of(
                                                old_done,
                                                name@,
                                            ).push(t as int));
                                            assert(temps_of(done, name@).len() == 1);
                                            assert(temps_of(done, name@)[0] == t as int);
                                        }
                                    },
                                }
                            },
                        }
                    },
                }
                begin = end + 1;
            },
        }
    }
    proof {
        lemma_find_from(block@.subrange(begin as int, block@.len() as int), NL, 0);
        assert(spec_lines(block@.subrange(begin as int, block@.len() as int))
            =~= Seq::<Seq<u8>>::empty());
        assert(done + Seq::<Seq<u8>>::empty() =~= done);
        assert(spec_lines(block@) == done);
        assert(contents_model(map) =~= block_map(done));
    }
    (map, lines, errors)
}

} // verus!
