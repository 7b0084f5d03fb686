//! The tree builder: turns a flat record set into one fully nested, typed
//! page tree, and the combined fetch-and-build entry points.

use vstd::prelude::*;

use crate::block::{
    blocks_view, Block, BlockV, DummyBlock, DummyBlockV, PageBlock, PageBlockV, TextBlock,
    TextBlockV,
};
use crate::props::{
    check_props, page_props_of, parented_ok, parse_text_prop, parse_title_prop, rec_ok,
    text_props_of, PageProps, TextProps,
};
use crate::query::{chain_ok, in_subtree, in_subtree_el, lemma_chain_single, lemma_el_index, subtree_recs};
use crate::record::{
    first_idx, has_rec, is_first_idx, lemma_filter_sub, lemma_filter_take_step, lemma_filter_wf,
    lemma_first_idx_unique, lemma_rec_of_wf, page_kind, page_recs, rec_of, recs_view, recs_wf,
    root_page_recs, text_kind, find_first, is_page_kind, BlockRecord, BlockStore, Id, RecV,
};
use crate::BlockError;

verus! {

/// A parsed payload, or the empty sequence where there is none.
pub open spec fn opt_seq(o: Option<Seq<char>>) -> Seq<char> {
    match o {
        Some(s) => s,
        None => Seq::empty(),
    }
}

/// The typed images of the children of row `pid` drawn from the first `n`
/// rows of `sv`, each built with the given fuel, in row order.
pub open spec fn spec_children(sv: Seq<RecV>, pid: u128, fuel: nat, n: int) -> Seq<BlockV>
    decreases fuel, 2int, n,
{
    if n <= 0 || n > sv.len() {
        Seq::empty()
    } else {
        let pre = spec_children(sv, pid, fuel, n - 1);
        if sv[n - 1].parent_id == Some(pid) {
            pre.push(spec_block(sv, sv[n - 1], fuel))
        } else {
            pre
        }
    }
}

/// The typed image of row `rv` over record set `sv`: its kind selects the
/// variant, its payload the properties, and its children are the rows of
/// `sv` whose parent pointer names it, recursively, down to the fuel bound.
pub open spec fn spec_block(sv: Seq<RecV>, rv: RecV, fuel: nat) -> BlockV
    decreases fuel, 1int, 0int,
{
    let ch = if fuel == 0 {
        Seq::<BlockV>::empty()
    } else {
        spec_children(sv, rv.id, (fuel - 1) as nat, sv.len() as int)
    };
    if rv.kind == page_kind() {
        BlockV::Page(
            PageBlockV {
                id: rv.id,
                parent_id: rv.parent_id,
                title: opt_seq(page_props_of(rv.props)),
                children: ch,
            },
        )
    } else if rv.kind == text_kind() {
        BlockV::Text(
            TextBlockV {
                id: rv.id,
                parent_id: rv.parent_id,
                text: opt_seq(text_props_of(rv.props)),
                children: ch,
            },
        )
    } else {
        BlockV::Dummy(DummyBlockV { id: rv.id, parent_id: rv.parent_id, children: ch })
    }
}

/// Builds the typed children of row `pid` from the supplied rows.
fn build_children(recs: &Vec<BlockRecord>, pid: Id, fuel: usize) -> (r: Result<
    Vec<Block>,
    BlockError,
>)
    requires
        parented_ok(recs_view(recs@)),
    ensures
        r matches Ok(v) && blocks_view(v@) == spec_children(
            recs_view(recs@),
            pid.val,
            fuel as nat,
            recs@.len() as int,
        ),
    decreases fuel, 1int,
{
    let ghost sv = recs_view(recs@);
    let mut out: Vec<Block> = Vec::new();
    proof {
        assert(blocks_view(out@) =~= spec_children(sv, pid.val, fuel as nat, 0));
    }
    let mut j: usize = 0;
    while j < recs.len()
        invariant
            j <= recs@.len(),
            sv == recs_view(recs@),
            parented_ok(sv),
            blocks_view(out@) == spec_children(sv, pid.val, fuel as nat, j as int),
        decreases recs@.len() - j,
    {
        let po = recs[j].parent_id;
        let keep = match po {
            Some(p) => p.val == pid.val,
            None => false,
        };
        if keep {
            proof {
                assert(sv[j as int].parent_id == Some(pid.val));
                assert(rec_ok(sv[j as int]));
            }
            match build_node(recs, j, fuel) {
                Ok(b) => {
                    let ghost pre = blocks_view(out@);
                    out.push(b);
                    proof {
                        assert(blocks_view(out@) =~= pre.push(b@));
                    }
                },
                Err(e) => {
                    return Err(e);
                },
            }
        } else {
            proof {
                assert(sv[j as int].parent_id != Some(pid.val));
            }
        }
        j += 1;
    }
    Ok(out)
}

/// Builds the typed node of the row at `idx`, children attached down to
/// the fuel bound.
fn build_node(recs: &Vec<BlockRecord>, idx: usize, fuel: usize) -> (r: Result<Block, BlockError>)
    requires
        idx < recs@.len(),
        parented_ok(recs_view(recs@)),
        rec_ok(recs_view(recs@)[idx as int]),
    ensures
        r matches Ok(b) && b@ == spec_block(
            recs_view(recs@),
            recs_view(recs@)[idx as int],
            fuel as nat,
        ),
    decreases fuel, 0int,
{
    let ghost sv = recs_view(recs@);
    let children: Vec<Block> = if fuel == 0 {
        Vec::new()
    } else {
        match build_children(recs, recs[idx].id, fuel - 1) {
            Ok(v) => v,
            Err(e) => {
                return Err(e);
            },
        }
    };
    proof {
        crate::record::lemma_kinds_distinct();
        if fuel == 0 {
            assert(blocks_view(children@) =~= Seq::<BlockV>::empty());
        }
    }
    let rec = &recs[idx];
    let ghost rv = sv[idx as int];
    let ghost sb = spec_block(sv, rv, fuel as nat);
    proof {
        assert(blocks_view(children@) == crate::block::v_children(sb));
    }
    if is_page_kind(&rec.kind) {
        let title = match parse_title_prop(rec.props.as_str()) {
            Some(t) => t,
            None => {
                return Err(BlockError::MalformedProperties);
            },
        };
        let b = Block::Page(
            PageBlock {
                id: rec.id,
                parent_id: rec.parent_id,
                children,
                props: PageProps { title },
            },
        );
        proof {
            assert(b@ is Page && sb is Page);
            assert(b@->Page_0.children == blocks_view(children@));
            assert(b@ =~~= sb);
        }
        Ok(b)
    } else if crate::record::is_text_kind(&rec.kind) {
        let text = match parse_text_prop(rec.props.as_str()) {
            Some(t) => t,
            None => {
                return Err(BlockError::MalformedProperties);
            },
        };
        let b = Block::Text(
            TextBlock {
                id: rec.id,
                parent_id: rec.parent_id,
                children,
                props: TextProps { text },
            },
        );
        proof {
            assert(b@ is Text && sb is Text);
            assert(b@->Text_0.children == blocks_view(children@));
            assert(b@ =~~= sb);
        }
        Ok(b)
    } else {
        let b = Block::Dummy(DummyBlock { id: rec.id, parent_id: rec.parent_id, children });
        proof {
            assert(b@ is Dummy && sb is Dummy);
            assert(b@->Dummy_0.children == blocks_view(children@));
            assert(b@ =~~= sb);
        }
        Ok(b)
    }
}

/// What `build_page_tree` returns for each record set and root identifier.
pub open spec fn build_post(sv: Seq<RecV>, pid: u128, r: Result<PageBlock, BlockError>) -> bool {
    match r {
        Ok(pb) => {
            &&& has_rec(sv, pid)
            &&& rec_of(sv, pid).kind == page_kind()
            &&& parented_ok(sv)
            &&& rec_ok(rec_of(sv, pid))
            &&& BlockV::Page(pb@) == spec_block(sv, rec_of(sv, pid), sv.len() as nat)
        },
        Err(e) => {
            if !has_rec(sv, pid) {
                e == BlockError::RootMissing
            } else if rec_of(sv, pid).kind != page_kind() {
                e == BlockError::RootNotAPage
            } else {
                e == BlockError::MalformedProperties && !(parented_ok(sv) && rec_ok(
                    rec_of(sv, pid),
                ))
            }
        },
    }
}

/// Builds the page tree rooted at `page_id` from the supplied rows: fails
/// with `RootMissing` when no row matches, with `RootNotAPage` when the
/// matching row is not a page, and with `MalformedProperties` when a
/// payload to be converted does not parse; otherwise returns the fully
/// attached page. Children follow the order rows were supplied in.
pub fn build_page_tree(page_id: Id, blocks: &Vec<BlockRecord>) -> (r: Result<
    PageBlock,
    BlockError,
>)
    ensures
        build_post(recs_view(blocks@), page_id.val, r),
{
    let ghost sv = recs_view(blocks@);
    let root_idx = match find_first(blocks, page_id) {
        Some(i) => i,
        None => {
            return Err(BlockError::RootMissing);
        },
    };
    proof {
        lemma_first_idx_unique(sv, page_id.val, root_idx as int);
        assert(rec_of(sv, page_id.val) == sv[root_idx as int]);
    }
    if !is_page_kind(&blocks[root_idx].kind) {
        return Err(BlockError::RootNotAPage);
    }
    if !check_props(&blocks[root_idx]) {
        return Err(BlockError::MalformedProperties);
    }
    let mut i: usize = 0;
    while i < blocks.len()
        invariant
            i <= blocks@.len(),
            sv == recs_view(blocks@),
            root_idx < blocks@.len(),
            rec_of(sv, page_id.val) == sv[root_idx as int],
            has_rec(sv, page_id.val),
            sv[root_idx as int].kind == page_kind(),
            rec_ok(sv[root_idx as int]),
            forall|k: int|
                0 <= k < i && (#[trigger] sv[k]).parent_id is Some ==> rec_ok(sv[k]),
        decreases blocks@.len() - i,
    {
        let po = blocks[i].parent_id;
        let has_parent = match po {
            Some(_) => true,
            None => false,
        };
        if has_parent {
            if !check_props(&blocks[i]) {
                proof {
                    assert(sv[i as int].parent_id is Some);
                    assert(!rec_ok(sv[i as int]));
                    assert(!parented_ok(sv));
                }
                return Err(BlockError::MalformedProperties);
            }
        }
        i += 1;
    }
    proof {
        assert(parented_ok(sv));
    }
    match build_node(blocks, root_idx, blocks.len()) {
        Ok(b) => match b {
            Block::Page(pb) => {
                proof {
                    assert(b == Block::Page(pb));
                    assert(b@ is Page);
                    assert(b@->Page_0.children.len() == pb@.children.len());
                    assert forall|ii: int| 0 <= ii < b@->Page_0.children.len()
                        implies b@->Page_0.children[ii] == pb@.children[ii] by {}
                    assert(b@->Page_0.children =~= pb@.children);
                    assert(b@ =~~= BlockV::Page(pb@));
                    assert(BlockV::Page(pb@) == spec_block(
                        sv,
                        rec_of(sv, page_id.val),
                        sv.len() as nat,
                    ));
                }
                Ok(pb)
            },
            Block::Text(_) => Err(BlockError::RootNotAPage),
            Block::Dummy(_) => Err(BlockError::RootNotAPage),
        },
        Err(_) => Err(BlockError::RootMissing),
    }
}

/// Every row of the subtree rooted at `root` has a payload that parses
/// under its kind's schema.
pub open spec fn subtree_ok(sv: Seq<RecV>, root: u128) -> bool {
    forall|i: int|
        0 <= i < subtree_recs(sv, root).len() ==> rec_ok(#[trigger] subtree_recs(sv, root)[i])
}

/// The subtree of a well-formed store again has distinct identifiers, it
/// contains the root row, and its payloads are all well-formed exactly
/// when its parented rows and the root row are.
pub proof fn lemma_subtree_bridge(sv: Seq<RecV>, pid: u128)
    requires
        recs_wf(sv),
        has_rec(sv, pid),
    ensures
        recs_wf(subtree_recs(sv, pid)),
        has_rec(subtree_recs(sv, pid), pid),
        rec_of(subtree_recs(sv, pid), pid) == rec_of(sv, pid),
        subtree_ok(sv, pid) <==> (parented_ok(subtree_recs(sv, pid)) && rec_ok(rec_of(sv, pid))),
{
    let sub = subtree_recs(sv, pid);
    let p = |rv: RecV| in_subtree_el(sv, pid, rv);
    lemma_filter_wf(sv, p);
    lemma_rec_of_wf(sv, pid);
    let i0 = first_idx(sv, pid);
    lemma_chain_single(sv, pid, i0);
    lemma_el_index(sv, pid, i0);
    assert(p(sv[i0]));
    sv.lemma_filter_contains(p, i0);
    assert(sub.contains(sv[i0]));
    let j0 = choose|j: int| 0 <= j < sub.len() && sub[j] == sv[i0];
    assert(sub[j0].id == pid);
    assert(has_rec(sub, pid));
    lemma_rec_of_wf(sub, pid);
    lemma_filter_sub(sv, p);
    let rf = rec_of(sub, pid);
    assert(is_first_idx(sub, pid, first_idx(sub, pid)));
    assert(sub.contains(rf)) by {
        assert(sub[first_idx(sub, pid)] == rf);
    }
    let m = choose|m: int| 0 <= m < sub.len() && sub[m] == rf;
    assert(sv.contains(rf)) by {
        assert(sub[m] == rf);
    }
    let m2 = choose|m2: int| 0 <= m2 < sv.len() && sv[m2] == rf;
    assert(sv[m2].id == pid);
    assert(rf == rec_of(sv, pid));
    if parented_ok(sub) && rec_ok(rec_of(sv, pid)) {
        assert forall|i: int| 0 <= i < sub.len() implies rec_ok(#[trigger] sub[i]) by {
            assert(p(sub[i]));
            let w = choose|w: int|
                0 <= w < sv.len() && #[trigger] sv[w] == sub[i] && in_subtree(sv, pid, w);
            let ch = choose|ch: Seq<int>| #[trigger] chain_ok(sv, pid, ch) && ch.last() == w;
            if ch.len() == 1 {
                assert(ch.last() == ch[0]);
                assert(sv[ch[0]].id == pid);
                assert(sv[w].id == pid);
                assert(sv[w] == rec_of(sv, pid));
            } else {
                let e = ch.len() - 2;
                assert(sv[ch[e + 1]].parent_id == Some(sv[ch[e]].id));
                assert(ch[e + 1] == ch.last());
                assert(sub[i].parent_id is Some);
            }
        }
    }
    if subtree_ok(sv, pid) {
        assert(rec_ok(rec_of(sv, pid))) by {
            assert(sub[first_idx(sub, pid)] == rf);
            assert(rec_ok(sub[first_idx(sub, pid)]));
        }
    }
}

/// What `fetch_page` returns for each store and page identifier.
pub open spec fn fetch_page_post(
    sv: Seq<RecV>,
    pid: u128,
    r: Result<PageBlock, BlockError>,
) -> bool {
    let sub = subtree_recs(sv, pid);
    match r {
        Ok(pb) => {
            &&& has_rec(sv, pid)
            &&& rec_of(sv, pid).kind == page_kind()
            &&& subtree_ok(sv, pid)
            &&& BlockV::Page(pb@) == spec_block(sub, rec_of(sv, pid), sub.len() as nat)
        },
        Err(e) => {
            if !has_rec(sv, pid) {
                e == BlockError::NotFound
            } else if rec_of(sv, pid).kind != page_kind() {
                e == BlockError::RootNotAPage
            } else {
                e == BlockError::MalformedProperties && !subtree_ok(sv, pid)
            }
        },
    }
}

/// Fetches the subtree rooted at `page_id` from the store and builds its
/// page tree in one call.
pub fn fetch_page(store: &BlockStore, page_id: Id) -> (r: Result<PageBlock, BlockError>)
    requires
        store.wf(),
    ensures
        fetch_page_post(store@, page_id.val, r),
{
    let ghost sv = store@;
    let ghost pid = page_id.val;
    let records = match store.list(page_id) {
        Ok(v) => v,
        Err(e) => {
            return Err(e);
        },
    };
    proof {
        lemma_subtree_bridge(sv, pid);
    }
    match build_page_tree(page_id, &records) {
        Ok(pb) => Ok(pb),
        Err(e) => Err(e),
    }
}

/// Every page row of `sv` has a payload that parses under its schema.
pub open spec fn pages_ok(sv: Seq<RecV>) -> bool {
    forall|i: int| 0 <= i < page_recs(sv).len() ==> rec_ok(#[trigger] page_recs(sv)[i])
}

/// What `fetch_pages` returns for each store.
pub open spec fn fetch_pages_post(sv: Seq<RecV>, r: Result<Vec<PageBlock>, BlockError>) -> bool {
    let pages = page_recs(sv);
    let roots = root_page_recs(sv);
    match r {
        Ok(out) => {
            &&& (roots.len() == 0 || pages_ok(sv))
            &&& out@.len() == roots.len()
            &&& forall|k: int|
                0 <= k < roots.len() ==> BlockV::Page((#[trigger] out@[k])@) == spec_block(
                    pages,
                    roots[k],
                    pages.len() as nat,
                )
        },
        Err(e) => e == BlockError::MalformedProperties && roots.len() > 0 && !pages_ok(sv),
    }
}

/// Builds the navigation forest: every root-level page row of the store,
/// each as a page tree built over the full set of page rows.
pub fn fetch_pages(store: &BlockStore) -> (r: Result<Vec<PageBlock>, BlockError>)
    requires
        store.wf(),
    ensures
        fetch_pages_post(store@, r),
{
    let ghost sv = store@;
    let pages = store.list_pages();
    let ghost pv = page_recs(sv);
    proof {
        lemma_filter_wf(sv, |rv: RecV| rv.kind == page_kind());
        lemma_filter_sub(sv, |rv: RecV| rv.kind == page_kind());
    }
    let mut out: Vec<PageBlock> = Vec::new();
    let mut i: usize = 0;
    while i < pages.len()
        invariant
            i <= pages@.len(),
            sv == store@,
            recs_view(pages@) == pv,
            pv == page_recs(sv),
            recs_wf(pv),
            forall|k: int| 0 <= k < pv.len() ==> (#[trigger] pv[k]).kind == page_kind(),
            out@.len() == pv.take(i as int).filter(|rv: RecV| rv.parent_id is None).len(),
            forall|k: int|
                0 <= k < out@.len() ==> BlockV::Page((#[trigger] out@[k])@) == spec_block(
                    pv,
                    pv.take(i as int).filter(|rv: RecV| rv.parent_id is None)[k],
                    pv.len() as nat,
                ) && rec_ok(pv.take(i as int).filter(|rv: RecV| rv.parent_id is None)[k]),
            out@.len() > 0 ==> parented_ok(pv),
        decreases pages@.len() - i,
    {
        let ghost rp = pv.take(i as int).filter(|rv: RecV| rv.parent_id is None);
        proof {
            lemma_filter_take_step(pv, |rv: RecV| rv.parent_id is None, i as int);
        }
        let po = pages[i].parent_id;
        let parentless = match po {
            Some(_) => false,
            None => true,
        };
        if parentless {
            proof {
                assert(pv[i as int].parent_id is None);
                assert(has_rec(pv, pv[i as int].id));
            }
            match build_page_tree(pages[i].id, &pages) {
                Ok(pb) => {
                    proof {
                        lemma_rec_of_wf(pv, pv[i as int].id);
                        assert(rec_of(pv, pv[i as int].id) == pv[i as int]);
                    }
                    out.push(pb);
                    proof {
                        assert(pv.take(i as int + 1).filter(|rv: RecV| rv.parent_id is None)
                            == rp.push(pv[i as int]));
                    }
                },
                Err(e) => {
                    proof {
                        lemma_rec_of_wf(pv, pv[i as int].id);
                        assert(rec_of(pv, pv[i as int].id) == pv[i as int]);
                        assert(e == BlockError::MalformedProperties);
                        assert(!(parented_ok(pv) && rec_ok(pv[i as int])));
                        pv.lemma_filter_contains(|rv: RecV| rv.parent_id is None, i as int);
                        let roots = root_page_recs(sv);
                        assert(roots.contains(pv[i as int]));
                        assert(roots.len() > 0);
                        assert(page_recs(sv) == pv);
                        if !rec_ok(pv[i as int]) {
                            assert(!rec_ok(page_recs(sv)[i as int]));
                            assert(!pages_ok(sv));
                        } else {
                            assert(!parented_ok(pv));
                            let w = choose|w: int|
                                0 <= w < pv.len() && (#[trigger] pv[w]).parent_id is Some
                                    && !rec_ok(pv[w]);
                            assert(!rec_ok(page_recs(sv)[w]));
                            assert(!pages_ok(sv));
                        }
                    }
                    return Err(BlockError::MalformedProperties);
                },
            }
        }
        i += 1;
    }
    proof {
        assert(pv.take(pages@.len() as int) =~= pv);
        let roots = root_page_recs(sv);
        assert(roots == pv.take(pages@.len() as int).filter(|rv: RecV| rv.parent_id is None));
        if roots.len() > 0 {
            assert(parented_ok(pv));
            assert forall|i2: int| 0 <= i2 < pv.len() implies rec_ok(#[trigger] pv[i2]) by {
                if pv[i2].parent_id is Some {
                } else {
                    pv.lemma_filter_contains(|rv: RecV| rv.parent_id is None, i2);
                    assert(roots.contains(pv[i2]));
                    let k = choose|k: int| 0 <= k < roots.len() && roots[k] == pv[i2];
                    assert(out@.len() == roots.len());
                    let built = out@[k];
                    assert(rec_ok(roots[k]));
                }
            }
        }
    }
    Ok(out)
}

} // verus!
