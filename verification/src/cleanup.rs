//! What a clean-up leaves: a graph that a second clean-up does not change.
use vstd::prelude::*;
use crate::cfg::{
    BasicBlock, BlockId, block_ids, cleaned, first_in, id_path_ok, id_reach_keep, id_reachable, kept_by_id,
    lemma_first_in, steps_to, term_targets,
};

verus! {

/// Whether block `i` stays when `keep` marks the kept first blocks.
pub open spec fn keeps(bs: Seq<BasicBlock>, keep: Seq<bool>, i: int) -> bool {
    first_in(block_ids(bs), bs[i].id, 0) is Some && keep[first_in(block_ids(bs), bs[i].id, 0)->0]
}

/// The first block with id `x` stands at `p` when `x` is there and not before.
proof fn lemma_first_at(ids: Seq<BlockId>, x: BlockId, p: int)
    requires
        0 <= p < ids.len(),
        ids[p] == x,
        forall|j: int| 0 <= j < p ==> ids[j] != x,
    ensures
        first_in(ids, x, 0) == Some(p),
{
    lemma_first_in(ids, x, 0);
    match first_in(ids, x, 0) {
        Some(q) => {
            if q < p {
                assert(ids[q] == x);
            } else if q > p {
                assert(ids[p] != x);
            }
        },
        None => {
            assert(ids[p] != x);
        },
    }
}

/// A shorter run of the filter is a prefix of a longer one.
proof fn lemma_kept_prefix(bs: Seq<BasicBlock>, keep: Seq<bool>, m: int, i: int)
    requires
        0 <= m <= i <= bs.len(),
    ensures
        kept_by_id(bs, keep, m).len() <= kept_by_id(bs, keep, i).len(),
        forall|j: int| 0 <= j < kept_by_id(bs, keep, m).len() ==> #[trigger] kept_by_id(bs, keep, i)[j] == kept_by_id(bs, keep, m)[j],
    decreases i - m,
{
    if m < i {
        lemma_kept_prefix(bs, keep, m, i - 1);
    }
}

/// Each kept block is the block at some earlier place that stays, and the
/// blocks kept before it number exactly its index.
proof fn lemma_kept_origin(bs: Seq<BasicBlock>, keep: Seq<bool>, i: int, j: int)
    requires
        0 <= i <= bs.len(),
        0 <= j < kept_by_id(bs, keep, i).len(),
    ensures
        exists|i2: int|
            0 <= i2 < i && keeps(bs, keep, i2) && #[trigger] kept_by_id(bs, keep, i2).len() == j && kept_by_id(bs, keep, i)[j]
                == bs[i2],
    decreases i,
{
    if j < kept_by_id(bs, keep, i - 1).len() {
        lemma_kept_origin(bs, keep, i - 1, j);
        let i2 = choose|i2: int|
            0 <= i2 < i - 1 && keeps(bs, keep, i2) && #[trigger] kept_by_id(bs, keep, i2).len() == j && kept_by_id(bs, keep, i - 1)[j]
                == bs[i2];
        assert(kept_by_id(bs, keep, i)[j] == kept_by_id(bs, keep, i - 1)[j]);
    } else {
        assert(keeps(bs, keep, i - 1));
        assert(kept_by_id(bs, keep, i - 1).len() == j);
    }
}

/// A block that stays is found, in the result, at the count of blocks kept
/// before it.
proof fn lemma_kept_at(bs: Seq<BasicBlock>, keep: Seq<bool>, i: int)
    requires
        0 <= i < bs.len(),
        keeps(bs, keep, i),
    ensures
        kept_by_id(bs, keep, i).len() < kept_by_id(bs, keep, bs.len() as int).len(),
        kept_by_id(bs, keep, bs.len() as int)[kept_by_id(bs, keep, i).len() as int] == bs[i],
{
    lemma_kept_prefix(bs, keep, i + 1, bs.len() as int);
    assert(kept_by_id(bs, keep, i + 1) == kept_by_id(bs, keep, i).push(bs[i]));
    assert(kept_by_id(bs, keep, i + 1)[kept_by_id(bs, keep, i).len() as int] == bs[i]);
}

/// A reachable block is the first block with its id.
proof fn lemma_reached_is_first(bs: Seq<BasicBlock>, e: BlockId, q: int)
    requires
        id_reachable(bs, e, q),
    ensures
        0 <= q < bs.len(),
        first_in(block_ids(bs), bs[q].id, 0) == Some(q),
{
    let (s, path) = choose|s: int, path: Seq<int>|
        first_in(block_ids(bs), e, 0) == Some(s) && #[trigger] id_path_ok(bs, s, path) && path.last() == q;
    if path.len() == 1 {
        lemma_first_in(block_ids(bs), e, 0);
        assert(block_ids(bs)[q] == e);
    } else {
        let p = path[path.len() - 2];
        assert(steps_to(bs, p, q));
        let ts = term_targets(bs[p].terminator);
        let k = choose|k: int| 0 <= k < ts.len() && #[trigger] first_in(block_ids(bs), ts[k], 0) == Some(q);
        lemma_first_in(block_ids(bs), ts[k], 0);
        assert(block_ids(bs)[q] == ts[k]);
    }
}

/// A reachable block stays, and in the result it is the first block with
/// its id, at the count of blocks kept before it.
proof fn lemma_first_in_cleaned(bs: Seq<BasicBlock>, e: BlockId, q: int)
    requires
        id_reachable(bs, e, q),
    ensures
        0 <= q < bs.len(),
        keeps(bs, id_reach_keep(bs, e), q),
        kept_by_id(bs, id_reach_keep(bs, e), q).len() < cleaned(bs, e).len(),
        cleaned(bs, e)[kept_by_id(bs, id_reach_keep(bs, e), q).len() as int] == bs[q],
        first_in(block_ids(cleaned(bs, e)), bs[q].id, 0) == Some(kept_by_id(bs, id_reach_keep(bs, e), q).len() as int),
{
    let k = id_reach_keep(bs, e);
    let c = cleaned(bs, e);
    let x = bs[q].id;
    let p = kept_by_id(bs, k, q).len() as int;
    lemma_reached_is_first(bs, e, q);
    assert(k[q]);
    assert(keeps(bs, k, q));
    lemma_kept_at(bs, k, q);
    lemma_kept_prefix(bs, k, q, bs.len() as int);
    lemma_first_in(block_ids(bs), x, 0);
    assert forall|j: int| 0 <= j < p implies block_ids(c)[j] != x by {
        lemma_kept_origin(bs, k, q, j);
        let i2 = choose|i2: int|
            0 <= i2 < q && keeps(bs, k, i2) && #[trigger] kept_by_id(bs, k, i2).len() == j && kept_by_id(bs, k, q)[j] == bs[i2];
        assert(c[j] == kept_by_id(bs, k, q)[j]);
        assert(block_ids(bs)[i2] != x);
    }
    assert(block_ids(c)[p] == x);
    lemma_first_at(block_ids(c), x, p);
}

/// A path of the graph, taken block by block into the result, is a path
/// there: what was reachable stays reachable.
proof fn lemma_path_cleaned(bs: Seq<BasicBlock>, e: BlockId, s: int, path: Seq<int>)
    requires
        first_in(block_ids(bs), e, 0) == Some(s),
        id_path_ok(bs, s, path),
    ensures
        id_reachable(cleaned(bs, e), e, kept_by_id(bs, id_reach_keep(bs, e), path.last()).len() as int),
{
    let k = id_reach_keep(bs, e);
    let c = cleaned(bs, e);
    assert forall|i: int| 0 <= i < path.len() implies #[trigger] id_reachable(bs, e, path[i]) by {
        let pp = path.subrange(0, i + 1);
        assert forall|j: int| 0 <= j < pp.len() - 1 implies 0 <= #[trigger] pp[j] < bs.len() && steps_to(bs, pp[j], pp[j + 1]) by {
            assert(pp[j] == path[j]);
            assert(pp[j + 1] == path[j + 1]);
        }
        assert(id_path_ok(bs, s, pp));
        assert(pp.last() == path[i]);
    }
    let mp = Seq::new(path.len(), |i: int| kept_by_id(bs, k, path[i]).len() as int);
    lemma_first_in(block_ids(bs), e, 0);
    assert(id_reachable(bs, e, path[0]));
    lemma_first_in_cleaned(bs, e, s);
    assert(bs[s].id == e);
    assert forall|i: int| 0 <= i < mp.len() - 1 implies 0 <= #[trigger] mp[i] < c.len() && steps_to(c, mp[i], mp[i + 1]) by {
        assert(id_reachable(bs, e, path[i]));
        assert(id_reachable(bs, e, path[i + 1]));
        lemma_first_in_cleaned(bs, e, path[i]);
        lemma_first_in_cleaned(bs, e, path[i + 1]);
        assert(steps_to(bs, path[i], path[i + 1]));
        let ts = term_targets(bs[path[i]].terminator);
        let kk = choose|kk: int| 0 <= kk < ts.len() && #[trigger] first_in(block_ids(bs), ts[kk], 0) == Some(path[i + 1]);
        lemma_first_in(block_ids(bs), ts[kk], 0);
        assert(ts[kk] == bs[path[i + 1]].id);
        assert(c[mp[i]] == bs[path[i]]);
        assert(first_in(block_ids(c), term_targets(c[mp[i]].terminator)[kk], 0) == Some(mp[i + 1]));
    }
    assert(id_path_ok(c, mp[0], mp));
    assert(first_in(block_ids(c), e, 0) == Some(mp[0]));
    assert(mp.last() == kept_by_id(bs, k, path.last()).len() as int);
}

/// When every block stays, the filter gives the blocks back.
proof fn lemma_all_kept(bs: Seq<BasicBlock>, keep: Seq<bool>, m: int)
    requires
        0 <= m <= bs.len(),
        forall|j: int| 0 <= j < m ==> #[trigger] keeps(bs, keep, j),
    ensures
        kept_by_id(bs, keep, m) == bs.subrange(0, m),
    decreases m,
{
    if m > 0 {
        lemma_all_kept(bs, keep, m - 1);
        assert(keeps(bs, keep, m - 1));
        assert(bs.subrange(0, m) =~= bs.subrange(0, m - 1).push(bs[m - 1]));
    }
}

/// A clean-up leaves a graph that a second clean-up, from the same entry,
/// does not change: every block it keeps is still reached.
pub proof fn law_clean_up_settles(bs: Seq<BasicBlock>, e: BlockId)
    ensures
        cleaned(cleaned(bs, e), e) == cleaned(bs, e),
{
    let k = id_reach_keep(bs, e);
    let c = cleaned(bs, e);
    let k2 = id_reach_keep(c, e);
    assert forall|j: int| 0 <= j < c.len() implies #[trigger] keeps(c, k2, j) by {
        lemma_kept_origin(bs, k, bs.len() as int, j);
        let i2 = choose|i2: int|
            0 <= i2 < bs.len() && keeps(bs, k, i2) && #[trigger] kept_by_id(bs, k, i2).len() == j && kept_by_id(
                bs,
                k,
                bs.len() as int,
            )[j] == bs[i2];
        let q = first_in(block_ids(bs), bs[i2].id, 0)->0;
        lemma_first_in(block_ids(bs), bs[i2].id, 0);
        assert(k[q]);
        assert(id_reachable(bs, e, q));
        assert(bs[q].id == bs[i2].id);
        lemma_first_in_cleaned(bs, e, q);
        let (s, path) = choose|s: int, path: Seq<int>|
            first_in(block_ids(bs), e, 0) == Some(s) && #[trigger] id_path_ok(bs, s, path) && path.last() == q;
        lemma_path_cleaned(bs, e, s, path);
        let p = kept_by_id(bs, k, q).len() as int;
        assert(c[j] == bs[i2]);
        assert(first_in(block_ids(c), c[j].id, 0) == Some(p));
        assert(k2[p]);
    }
    lemma_all_kept(c, k2, c.len() as int);
    assert(c.subrange(0, c.len() as int) =~= c);
}

} // verus!
