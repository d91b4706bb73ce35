//! Shard splitting: cut a byte region into contiguous sub-regions, one
//! per worker, so that no line is cut — every shard but the last ends
//! exactly on a line terminator, and the shards concatenate back to
//! the region.

use vstd::prelude::*;

use crate::bytes::rfind_byte;
use crate::model::NL;
use crate::LINE_MAX_LEN;

verus! {

/// Split `region` into at most as many non-empty contiguous shards as
/// needed for `workers` workers, cutting only after a line terminator:
/// the shards cover the region in order without gaps, and every shard
/// except the last ends on `\n`. A shard only degenerates to the whole
/// remainder when its candidate window holds no terminator at all.
pub fn split_shards(region: &[u8], workers: usize) -> (shards: Vec<(usize, usize)>)
    requires
        workers >= 1,
        region@.len() + LINE_MAX_LEN as int + 1 <= usize::MAX as int,
    ensures
        region@.len() == 0 ==> shards@.len() == 0,
        region@.len() > 0 ==> shards@.len() >= 1,
        shards@.len() > 0 ==> shards@[0].0 == 0 && shards@[shards@.len() - 1].1 == region@.len(),
        forall|i: int| 0 <= i < shards@.len() - 1 ==> (#[trigger] shards@[i]).1 == shards@[i + 1].0,
        forall|i: int|
            0 <= i < shards@.len() ==> (#[trigger] shards@[i]).0 < shards@[i].1 <= region@.len(),
        forall|i: int|
            0 <= i < shards@.len() - 1 ==> region@[(#[trigger] shards@[i]).1 - 1] == NL,
{
    let len = region.len();
    let mut target: usize = len / workers;
    if len % workers != 0 {
        target = target + 1;
    }
    target = target + LINE_MAX_LEN;
    let mut shards: Vec<(usize, usize)> = Vec::new();
    let mut begin: usize = 0;
    while begin < len
        invariant
            len == region@.len(),
            begin <= len,
            target >= 1,
            shards@.len() == 0 ==> begin == 0,
            shards@.len() > 0 ==> shards@[0].0 == 0 && shards@[shards@.len() - 1].1 == begin,
            forall|i: int|
                0 <= i < shards@.len() - 1 ==> (#[trigger] shards@[i]).1 == shards@[i + 1].0,
            forall|i: int|
                0 <= i < shards@.len() ==> (#[trigger] shards@[i]).0 < shards@[i].1 <= begin,
            forall|i: int|
                0 <= i < shards@.len() - 1 ==> region@[(#[trigger] shards@[i]).1 - 1] == NL,
            begin < len && shards@.len() > 0 ==> region@[begin - 1] == NL,
        decreases len - begin,
    {
        let remaining = len - begin;
        if remaining <= target {
            shards.push((begin, len));
            begin = len;
        } else {
            let tentative = begin + target;
            let window = vstd::slice::slice_subrange(region, begin, tentative);
            match rfind_byte(NL, window) {
                Some(j) => {
                    let end = begin + j + 1;
                    proof {
                        assert(region@[end - 1] == window@[j as int]);
                    }
                    shards.push((begin, end));
                    begin = end;
                },
                None => {
                    shards.push((begin, len));
                    begin = len;
                },
            }
        }
    }
    shards
}

/// The bytes of a shard sequence, in order.
pub open spec fn concat_shards(region: Seq<u8>, shards: Seq<(usize, usize)>) -> Seq<u8>
    decreases shards.len(),
{
    if shards.len() == 0 {
        Seq::empty()
    } else {
        region.subrange(shards[0].0 as int, shards[0].1 as int) + concat_shards(
            region,
            shards.drop_first(),
        )
    }
}

/// Contiguous shards concatenate to the region they cover: together
/// with the splitter's contract, the shards of a region concatenate
/// byte for byte back to the region.
pub proof fn lemma_shards_concat(region: Seq<u8>, shards: Seq<(usize, usize)>, from: int)
    requires
        0 <= from <= region.len(),
        shards.len() > 0 ==> shards[0].0 == from,
        forall|j: int| 0 <= j < shards.len() - 1 ==> (#[trigger] shards[j]).1 == shards[j + 1].0,
        forall|j: int|
            0 <= j < shards.len() ==> (#[trigger] shards[j]).0 <= shards[j].1 <= region.len(),
    ensures
        concat_shards(region, shards) == region.subrange(
            from,
            if shards.len() == 0 {
                from
            } else {
                shards[shards.len() - 1].1 as int
            },
        ),
        shards.len() > 0 ==> from <= shards[shards.len() - 1].1 as int,
    decreases shards.len(),
{
    if shards.len() == 0 {
        assert(region.subrange(from, from) =~= Seq::<u8>::empty());
    } else {
        let rest = shards.drop_first();
        let mid = shards[0].1 as int;
        assert(forall|j: int|
            0 <= j < rest.len() ==> #[trigger] rest[j] == shards[j + 1]);
        lemma_shards_concat(region, rest, mid);
        let to = if rest.len() == 0 {
            mid
        } else {
            rest[rest.len() - 1].1 as int
        };
        assert(to == shards[shards.len() - 1].1 as int);
        assert(from <= mid <= to);
        assert(region.subrange(from, mid) + region.subrange(mid, to) =~= region.subrange(
            from,
            to,
        ));
    }
}

} // verus!
