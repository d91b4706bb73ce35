//! The engine: split a mapped byte region into shards, process every
//! shard, fold the per-shard results into the ordered aggregate, and
//! render the canonical output line. The contract ties everything to
//! the model of the whole region, so the shard boundaries and the
//! worker count cannot show in the result.

use vstd::prelude::*;

use crate::block::process_block;
use crate::model::{
    block_map,
    error_count,
    lemma_block_concat,
    lemma_block_map_wf,
    lemma_errors_le,
    lemma_lines_len,
    spec_lines,
    NL,
};
use crate::output::spec_render;
use crate::result::{lemma_pairs_map_index, lemma_sorted_unique, TemperStatResult};
use crate::shard::split_shards;
use crate::{COUNT_LIMIT, LINE_MAX_LEN};

verus! {

/// Aggregate a whole region: split it for `workers` workers, process
/// every shard, merge the per-shard maps, and render. The output
/// bytes, the final mapping and the two counters are exactly those of
/// the region's line model, whatever the worker count.
pub fn run(region: &[u8], workers: usize) -> (r: (Vec<u8>, TemperStatResult, usize, usize))
    requires
        workers >= 1,
        region@.len() < COUNT_LIMIT as int,
        region@.len() + LINE_MAX_LEN as int + 1 <= usize::MAX as int,
    ensures
        r.1.wf(),
        r.1@ == block_map(spec_lines(region@)),
        r.2 == spec_lines(region@).len(),
        r.3 == error_count(spec_lines(region@)),
        r.0@ == spec_render(r.1.keys_view(), r.1.stats_view()),
{
    let len = region.len();
    let shards = split_shards(region, workers);
    let mut result = TemperStatResult::new();
    let mut lines: usize = 0;
    let mut errors: usize = 0;
    let mut i: usize = 0;
    let ghost mut consumed: int = 0;
    proof {
        assert(region@.subrange(0, 0) =~= Seq::<u8>::empty());
        assert(spec_lines(Seq::<u8>::empty()).len() == 0);
        assert(result@ =~= block_map(spec_lines(region@.subrange(0, 0))));
    }
    while i < shards.len()
        invariant
            len == region@.len(),
            region@.len() < COUNT_LIMIT as int,
            i <= shards@.len(),
            shards@.len() > 0 ==> shards@[0].0 == 0 && shards@[shards@.len() - 1].1 == len,
            forall|j: int|
                0 <= j < shards@.len() - 1 ==> (#[trigger] shards@[j]).1 == shards@[j + 1].0,
            forall|j: int|
                0 <= j < shards@.len() ==> (#[trigger] shards@[j]).0 < shards@[j].1 <= len,
            forall|j: int|
                0 <= j < shards@.len() - 1 ==> region@[(#[trigger] shards@[j]).1 - 1] == NL,
            region@.len() > 0 ==> shards@.len() >= 1,
            i == 0 ==> consumed == 0,
            i > 0 ==> i - 1 < shards@.len() && consumed == shards@[i - 1].1,
            0 <= consumed <= len,
            i < shards@.len() ==> consumed == shards@[i as int].0,
            i > 0 && i < shards@.len() ==> region@[consumed - 1] == NL,
            result.wf(),
            result@ == block_map(spec_lines(region@.subrange(0, consumed))),
            lines == spec_lines(region@.subrange(0, consumed)).len(),
            errors == error_count(spec_lines(region@.subrange(0, consumed))),
            errors <= lines,
            lines as int <= consumed,
        decreases shards@.len() - i,
    {
        let pair = shards[i];
        let b = pair.0;
        let e = pair.1;
        let block = vstd::slice::slice_subrange(region, b, e);
        let ghost prefix = region@.subrange(0, consumed);
        proof {
            assert(b as int == consumed);
            assert(prefix.len() == 0 || prefix[prefix.len() - 1] == NL) by {
                if consumed > 0 {
                    assert(prefix[prefix.len() - 1] == region@[consumed - 1]);
                }
            }
            lemma_block_concat(prefix, block@);
            assert(prefix + block@ =~= region@.subrange(0, e as int));
            lemma_lines_len(region@.subrange(0, e as int));
            lemma_block_map_wf(spec_lines(block@));
            lemma_block_map_wf(spec_lines(prefix));
            lemma_errors_le(spec_lines(region@.subrange(0, e as int)));
        }
        let out = process_block(block, 7000);
        let map = out.0;
        let l = out.1;
        let er = out.2;
        result.aggregate(&map);
        lines = lines + l;
        errors = errors + er;
        proof {
            consumed = e as int;
        }
        i = i + 1;
    }
    proof {
        assert(consumed == len as int);
        assert(region@.subrange(0, len as int) =~= region@);
        lemma_block_map_wf(spec_lines(region@));
        lemma_lines_len(region@);
        assert forall|j: int| 0 <= j < result.stats@.len() implies (#[trigger] result.stats@[j])@.count
            <= COUNT_LIMIT as nat by {
            lemma_sorted_unique(result.keys@);
            lemma_pairs_map_index(result.keys@, result.stats@, j);
        }
    }
    let out = result.render();
    (out, result, lines, errors)
}

} // verus!
