//! Store-wide laws of the fetch-and-build pipeline, stated over the same
//! spec functions the entry points' contracts use.

use vstd::prelude::*;

use crate::block::{v_children, v_id, BlockV, PageBlock};
use crate::props::{page_props_of, rec_ok};
use crate::query::{
    chain_ok, expands, in_subtree, in_subtree_el, lemma_chain_extend, lemma_chain_single,
    lemma_el_index, subtree_recs,
};
use crate::record::{
    first_idx, has_rec, lemma_filter_sub, lemma_filter_take_step, lemma_rec_of_wf, page_kind,
    page_recs, rec_of, recs_wf, root_page_recs, RecV,
};
use crate::tree::{fetch_page_post, fetch_pages_post, spec_block, spec_children, subtree_ok};
use crate::BlockError;

verus! {

/// Whether `r` is exactly the given failure.
pub open spec fn is_err_with<T>(r: Result<T, BlockError>, e: BlockError) -> bool {
    match r {
        Err(x) => x == e,
        Ok(_) => false,
    }
}

/// The identifiers a sequence of tree nodes carries, in order.
pub open spec fn block_ids(s: Seq<BlockV>) -> Seq<u128> {
    s.map_values(|b: BlockV| v_id(b))
}

/// The identifiers a sequence of rows carries, in order.
pub open spec fn rec_ids(s: Seq<RecV>) -> Seq<u128> {
    s.map_values(|rv: RecV| rv.id)
}

/// For every stored row, fetching it as a page fails with `RootNotAPage`
/// exactly when its kind tag is not the page tag.
pub proof fn lemma_root_kind_gates(sv: Seq<RecV>, i: int, r: Result<PageBlock, BlockError>)
    requires
        recs_wf(sv),
        0 <= i < sv.len(),
        fetch_page_post(sv, sv[i].id, r),
    ensures
        is_err_with(r, BlockError::RootNotAPage) <==> sv[i].kind != page_kind(),
{
    assert(has_rec(sv, sv[i].id));
    lemma_rec_of_wf(sv, sv[i].id);
    assert(rec_of(sv, sv[i].id) == sv[i]);
}

/// Fetching the same page twice from the same store yields structurally
/// identical trees, and identical failures.
pub proof fn lemma_fetch_deterministic(
    sv: Seq<RecV>,
    pid: u128,
    r1: Result<PageBlock, BlockError>,
    r2: Result<PageBlock, BlockError>,
)
    requires
        fetch_page_post(sv, pid, r1),
        fetch_page_post(sv, pid, r2),
    ensures
        match (r1, r2) {
            (Ok(a), Ok(b)) => a@ == b@,
            (Err(a), Err(b)) => a == b,
            _ => false,
        },
{
}

/// A page row whose stored payload does not parse makes the fetch of that
/// page fail with `MalformedProperties` rather than yield a page with a
/// default or empty title.
pub proof fn lemma_malformed_page_fails(sv: Seq<RecV>, i: int, r: Result<PageBlock, BlockError>)
    requires
        recs_wf(sv),
        0 <= i < sv.len(),
        sv[i].kind == page_kind(),
        page_props_of(sv[i].props) is None,
        fetch_page_post(sv, sv[i].id, r),
    ensures
        is_err_with(r, BlockError::MalformedProperties),
{
    let pid = sv[i].id;
    assert(has_rec(sv, pid));
    lemma_rec_of_wf(sv, pid);
    assert(rec_of(sv, pid) == sv[i]);
    lemma_chain_single(sv, pid, i);
    lemma_el_index(sv, pid, i);
    sv.lemma_filter_contains(|rv: RecV| in_subtree_el(sv, pid, rv), i);
    let sub = subtree_recs(sv, pid);
    assert(sub.contains(sv[i]));
    let j = choose|j: int| 0 <= j < sub.len() && sub[j] == sv[i];
    assert(!rec_ok(sub[j]));
    assert(!subtree_ok(sv, pid));
}

/// The navigation forest's roots are exactly the root-level page rows of
/// the store, in store order: same count, same identifiers, and no root
/// carries a parent pointer.
pub proof fn lemma_forest_roots(sv: Seq<RecV>, out: Vec<PageBlock>, r: Result<
    Vec<PageBlock>,
    BlockError,
>)
    requires
        fetch_pages_post(sv, r),
        r == Ok::<Vec<PageBlock>, BlockError>(out),
    ensures
        out@.len() == root_page_recs(sv).len(),
        forall|k: int|
            0 <= k < out@.len() ==> (#[trigger] out@[k])@.id == root_page_recs(sv)[k].id
                && out@[k]@.parent_id is None,
{
    let pages = page_recs(sv);
    let roots = root_page_recs(sv);
    lemma_filter_sub(pages, |rv: RecV| rv.parent_id is None);
    lemma_filter_sub(sv, |rv: RecV| rv.kind == page_kind());
    assert forall|k: int|
        0 <= k < out@.len() implies (#[trigger] out@[k])@.id == roots[k].id
            && out@[k]@.parent_id is None by {
        assert(BlockV::Page(out@[k]@) == spec_block(pages, roots[k], pages.len() as nat));
        assert(roots[k].parent_id is None);
        assert(pages.contains(roots[k]));
        let w = choose|w: int| 0 <= w < pages.len() && pages[w] == roots[k];
        assert(roots[k].kind == page_kind());
        assert(v_id(spec_block(pages, roots[k], pages.len() as nat)) == roots[k].id);
    }
}

/// Filtering by `q` after filtering by a pointwise weaker `p` equals
/// filtering by `q` alone.
pub proof fn lemma_filter_filter(s: Seq<RecV>, p: spec_fn(RecV) -> bool, q: spec_fn(RecV) -> bool)
    requires
        forall|i: int| 0 <= i < s.len() && q(#[trigger] s[i]) ==> p(s[i]),
    ensures
        s.filter(p).filter(q) == s.filter(q),
    decreases s.len(),
{
    reveal(Seq::filter);
    if s.len() > 0 {
        let dl = s.drop_last();
        assert forall|i: int| 0 <= i < dl.len() && q(#[trigger] dl[i]) implies p(dl[i]) by {
            assert(dl[i] == s[i]);
        }
        lemma_filter_filter(dl, p, q);
        assert(s[s.len() - 1] == s.last());
        if p(s.last()) {
            assert(s.filter(p) == dl.filter(p).push(s.last()));
            assert(s.filter(p).drop_last() =~= dl.filter(p));
            assert(s.filter(p).last() == s.last());
            assert(s.filter(p).len() > 0);
        } else {
            assert(!q(s.last()));
            assert(s.filter(p) == dl.filter(p));
        }
    } else {
        assert(s.filter(p).len() == 0);
        assert(s.filter(p).filter(q) =~= s.filter(q));
    }
}

/// The children built over `sv2` for parent `pid` are the typed images of
/// the rows whose parent pointer names `pid`, in row order.
pub proof fn lemma_children_chars(sv2: Seq<RecV>, pid: u128, fuel: nat, n: int)
    requires
        0 <= n <= sv2.len(),
    ensures
        spec_children(sv2, pid, fuel, n) == sv2.take(n).filter(
            |rv: RecV| rv.parent_id == Some(pid),
        ).map_values(|rv: RecV| spec_block(sv2, rv, fuel)),
    decreases n,
{
    let q = |rv: RecV| rv.parent_id == Some(pid);
    let f = |rv: RecV| spec_block(sv2, rv, fuel);
    if n == 0 {
        assert(sv2.take(0).len() == 0);
        assert(sv2.take(0).filter(q).len() == 0) by {
            reveal(Seq::filter);
        }
        assert(sv2.take(0).filter(q).map_values(f) =~= spec_children(sv2, pid, fuel, 0));
    } else {
        lemma_children_chars(sv2, pid, fuel, n - 1);
        lemma_filter_take_step(sv2, q, n - 1);
        if sv2[n - 1].parent_id == Some(pid) {
            assert(sv2.take(n).filter(q) == sv2.take(n - 1).filter(q).push(sv2[n - 1]));
            assert(sv2.take(n).filter(q).map_values(f) =~= sv2.take(n - 1).filter(q).map_values(
                f,
            ).push(f(sv2[n - 1])));
        } else {
            assert(sv2.take(n).filter(q) == sv2.take(n - 1).filter(q));
        }
    }
}

/// Every row whose parent pointer names the root is in the root's
/// subtree.
pub proof fn lemma_direct_children_reach(sv: Seq<RecV>, pid: u128)
    requires
        recs_wf(sv),
        has_rec(sv, pid),
    ensures
        forall|i: int|
            0 <= i < sv.len() && (#[trigger] sv[i]).parent_id == Some(pid) ==> in_subtree_el(
                sv,
                pid,
                sv[i],
            ),
{
    lemma_rec_of_wf(sv, pid);
    let r0 = first_idx(sv, pid);
    assert forall|i: int|
        0 <= i < sv.len() && (#[trigger] sv[i]).parent_id == Some(pid) implies in_subtree_el(
        sv,
        pid,
        sv[i],
    ) by {
        lemma_chain_single(sv, pid, r0);
        lemma_chain_extend(sv, pid, r0, i);
        lemma_el_index(sv, pid, i);
    }
}

/// On a successful page fetch, the root's children carry exactly the
/// identifiers of the rows whose parent pointer names the root, in store
/// order: direct children are all present, and nothing else is.
pub proof fn lemma_page_children(
    sv: Seq<RecV>,
    pid: u128,
    pb: PageBlock,
    r: Result<PageBlock, BlockError>,
)
    requires
        recs_wf(sv),
        fetch_page_post(sv, pid, r),
        r == Ok::<PageBlock, BlockError>(pb),
    ensures
        block_ids(pb@.children) == rec_ids(sv.filter(|rv: RecV| rv.parent_id == Some(pid))),
{
    let sub = subtree_recs(sv, pid);
    let root = rec_of(sv, pid);
    crate::tree::lemma_subtree_bridge(sv, pid);
    lemma_rec_of_wf(sv, pid);
    assert(root.id == pid);
    assert(has_rec(sub, pid));
    assert(sub.len() > 0);
    let fuel = (sub.len() - 1) as nat;
    assert(BlockV::Page(pb@) == spec_block(sub, root, sub.len() as nat));
    assert(pb@.children == spec_children(sub, root.id, fuel, sub.len() as int));
    lemma_children_chars(sub, pid, fuel, sub.len() as int);
    assert(sub.take(sub.len() as int) =~= sub);
    let q = |rv: RecV| rv.parent_id == Some(pid);
    let f = |rv: RecV| spec_block(sub, rv, fuel);
    assert(pb@.children == sub.filter(q).map_values(f));
    lemma_direct_children_reach(sv, pid);
    lemma_filter_filter(sv, |rv: RecV| in_subtree_el(sv, pid, rv), q);
    assert(sub.filter(q) == sv.filter(q));
    assert forall|k: int| 0 <= k < pb@.children.len() implies v_id(#[trigger] pb@.children[k])
        == sv.filter(q)[k].id by {
        assert(pb@.children[k] == f(sv.filter(q)[k]));
    }
    assert(block_ids(pb@.children) =~= rec_ids(sv.filter(q)));
}

/// Every row reachable from the root by a walk that leaves only
/// expandable rows is kept by the subtree query: multi-level chains of
/// non-page descendants are included in full.
pub proof fn lemma_subtree_complete(sv: Seq<RecV>, pid: u128, ch: Seq<int>)
    requires
        recs_wf(sv),
        chain_ok(sv, pid, ch),
    ensures
        subtree_recs(sv, pid).contains(sv[ch.last()]),
{
    let i = ch.last();
    assert(0 <= ch[ch.len() - 1] < sv.len());
    assert(in_subtree(sv, pid, i));
    lemma_el_index(sv, pid, i);
    sv.lemma_filter_contains(|rv: RecV| in_subtree_el(sv, pid, rv), i);
}

/// Whether every page below `b`, other than the node carrying the root
/// identifier, has an empty child sequence, through the whole tree.
pub open spec fn nested_pages_childless(b: BlockV, root: u128) -> bool
    decreases b,
{
    &&& (b is Page && v_id(b) != root ==> v_children(b).len() == 0)
    &&& forall|k: int|
        0 <= k < v_children(b).len() ==> nested_pages_childless(
            #[trigger] v_children(b)[k],
            root,
        )
}

/// Whether the root row's own parent pointer stays outside the root's
/// subtree. A store with a parent cycle through the root violates this.
pub open spec fn root_parent_outside(sv: Seq<RecV>, pid: u128) -> bool {
    match rec_of(sv, pid).parent_id {
        Some(pp) => !has_rec(subtree_recs(sv, pid), pp),
        None => true,
    }
}

/// Every tree built over a subtree whose root parent stays outside has
/// its nested pages childless.
pub proof fn lemma_block_nested(sv: Seq<RecV>, pid: u128, rv: RecV, fuel: nat)
    requires
        recs_wf(sv),
        has_rec(sv, pid),
        root_parent_outside(sv, pid),
        subtree_recs(sv, pid).contains(rv),
    ensures
        nested_pages_childless(spec_block(subtree_recs(sv, pid), rv, fuel), pid),
    decreases fuel,
{
    let sub = subtree_recs(sv, pid);
    let b = spec_block(sub, rv, fuel);
    lemma_rec_of_wf(sv, pid);
    lemma_filter_sub(sv, |rv2: RecV| in_subtree_el(sv, pid, rv2));
    assert(v_id(b) == rv.id);
    if fuel == 0 {
        assert(v_children(b).len() == 0);
    } else {
        let sfuel = (fuel - 1) as nat;
        let ch = spec_children(sub, rv.id, sfuel, sub.len() as int);
        lemma_children_chars(sub, rv.id, sfuel, sub.len() as int);
        assert(sub.take(sub.len() as int) =~= sub);
        let q = |rv2: RecV| rv2.parent_id == Some(rv.id);
        let f = |rv2: RecV| spec_block(sub, rv2, sfuel);
        assert(ch == sub.filter(q).map_values(f));
        lemma_filter_sub(sub, q);
        assert(v_children(b) == ch);
        assert forall|k: int| 0 <= k < v_children(b).len() implies nested_pages_childless(
            #[trigger] v_children(b)[k],
            pid,
        ) by {
            let c = sub.filter(q)[k];
            assert(sub.contains(c));
            lemma_block_nested(sv, pid, c, sfuel);
            assert(v_children(b)[k] == f(c));
        }
        if rv.kind == page_kind() && rv.id != pid {
            assert forall|w: int| 0 <= w < sub.len() implies !q(#[trigger] sub[w]) by {
                if sub[w].parent_id == Some(rv.id) {
                    assert(sub.contains(sub[w]));
                    assert(in_subtree_el(sv, pid, sub[w])) by {
                        let wi = choose|wi: int| 0 <= wi < sub.len() && sub[wi] == sub[w];
                    }
                    let m = choose|m: int|
                        0 <= m < sv.len() && #[trigger] sv[m] == sub[w] && in_subtree(sv, pid, m);
                    let chn = choose|chn: Seq<int>|
                        #[trigger] chain_ok(sv, pid, chn) && chn.last() == m;
                    assert(0 <= chn[chn.len() - 1] < sv.len());
                    if chn.len() == 1 {
                        assert(chn.last() == chn[0]);
                        assert(sv[m].id == pid);
                        assert(sv[m] == rec_of(sv, pid));
                        let mm = choose|mm: int| 0 <= mm < sub.len() && #[trigger] sub[mm] == rv;
                        assert(sub[mm].id == rv.id);
                        assert(has_rec(sub, rv.id));
                        assert(false);
                    } else {
                        let e = chn.len() - 2;
                        assert(sv[chn[e + 1]].parent_id == Some(sv[chn[e]].id));
                        assert(chn[e + 1] == chn.last());
                        assert(sv[chn[e]].id == rv.id);
                        assert(expands(sv[chn[e]], pid));
                        assert(sv.contains(rv)) by {
                            let mm = choose|mm: int|
                                0 <= mm < sub.len() && #[trigger] sub[mm] == rv;
                        }
                        let rvi = choose|rvi: int| 0 <= rvi < sv.len() && #[trigger] sv[rvi] == rv;
                        if chn[e] < rvi {
                            assert(sv[chn[e]].id != sv[rvi].id);
                        } else if rvi < chn[e] {
                            assert(sv[rvi].id != sv[chn[e]].id);
                        }
                        assert(sv[chn[e]] == rv);
                        assert(!expands(rv, pid));
                        assert(false);
                    }
                }
            }
            assert(sub.filter(q).len() == 0) by {
                if sub.filter(q).len() > 0 {
                    assert(q(sub.filter(q)[0]));
                    assert(sub.contains(sub.filter(q)[0]));
                    let w = choose|w: int| 0 <= w < sub.len() && #[trigger] sub[w] == sub.filter(
                        q,
                    )[0];
                    assert(false);
                }
            }
            assert(v_children(b).len() == 0);
        }
    }
    assert(nested_pages_childless(b, pid));
}

/// On a successful page fetch from a store where the root's own parent
/// pointer does not point back into the fetched subtree, every page of
/// the resulting tree other than the root has an empty child sequence:
/// descendants of nested pages are cut off at the page boundary.
pub proof fn lemma_nested_pages_cut(
    sv: Seq<RecV>,
    pid: u128,
    pb: PageBlock,
    r: Result<PageBlock, BlockError>,
)
    requires
        recs_wf(sv),
        fetch_page_post(sv, pid, r),
        r == Ok::<PageBlock, BlockError>(pb),
        root_parent_outside(sv, pid),
    ensures
        nested_pages_childless(BlockV::Page(pb@), pid),
{
    crate::tree::lemma_subtree_bridge(sv, pid);
    lemma_rec_of_wf(sv, pid);
    let sub = subtree_recs(sv, pid);
    let root = rec_of(sv, pid);
    assert(has_rec(sub, pid));
    lemma_rec_of_wf(sub, pid);
    assert(sub.contains(root)) by {
        assert(sub[first_idx(sub, pid)] == root);
    }
    lemma_block_nested(sv, pid, root, sub.len() as nat);
    assert(BlockV::Page(pb@) == spec_block(sub, root, sub.len() as nat));
}

} // verus!
