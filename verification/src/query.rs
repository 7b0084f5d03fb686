//! The subtree query: a bounded closure over parent pointers that stops at
//! nested page boundaries and terminates on any stored shape.

use vstd::prelude::*;
use vstd::pervasive::VecAdditionalExecFns;

use crate::record::{
    find_first, has_rec, lemma_filter_take_step, page_kind, recs_view, recs_wf, BlockRecord,
    BlockStore, Id, RecV,
};
use crate::BlockError;

verus! {

/// Whether the closure may step from row `r` to its children: it may unless
/// `r` is a page other than the requested root.
pub open spec fn expands(r: RecV, root: u128) -> bool {
    r.kind != page_kind() || r.id == root
}

/// Whether `ch` is a valid walk of indices into `sv`: it starts at a row
/// carrying the root identifier, follows parent pointers one step per hop,
/// and only leaves rows that the closure may expand.
pub open spec fn chain_ok(sv: Seq<RecV>, root: u128, ch: Seq<int>) -> bool {
    &&& ch.len() > 0
    &&& forall|k: int| 0 <= k < ch.len() ==> 0 <= #[trigger] ch[k] < sv.len()
    &&& sv[ch[0]].id == root
    &&& forall|k: int|
        0 <= k < ch.len() - 1 ==> sv[#[trigger] ch[k + 1]].parent_id == Some(sv[ch[k]].id)
            && expands(sv[ch[k]], root)
}

/// Whether the row at index `i` belongs to the subtree rooted at `root`.
pub open spec fn in_subtree(sv: Seq<RecV>, root: u128, i: int) -> bool {
    exists|ch: Seq<int>| #[trigger] chain_ok(sv, root, ch) && ch.last() == i
}

/// Whether row `rv` belongs to the subtree rooted at `root`.
pub open spec fn in_subtree_el(sv: Seq<RecV>, root: u128, rv: RecV) -> bool {
    exists|i: int| 0 <= i < sv.len() && #[trigger] sv[i] == rv && in_subtree(sv, root, i)
}

/// The rows of the subtree rooted at `root`, in store order.
pub open spec fn subtree_recs(sv: Seq<RecV>, root: u128) -> Seq<RecV> {
    sv.filter(|rv: RecV| in_subtree_el(sv, root, rv))
}

/// A row carrying the root identifier is in its own subtree.
pub proof fn lemma_chain_single(sv: Seq<RecV>, root: u128, i: int)
    requires
        0 <= i < sv.len(),
        sv[i].id == root,
    ensures
        in_subtree(sv, root, i),
{
    let ch: Seq<int> = seq![i];
    assert(chain_ok(sv, root, ch));
    assert(ch.last() == i);
}

/// A walk reaching an expandable row extends to each of its children.
pub proof fn lemma_chain_extend(sv: Seq<RecV>, root: u128, k: int, j: int)
    requires
        0 <= k < sv.len(),
        0 <= j < sv.len(),
        in_subtree(sv, root, k),
        sv[j].parent_id == Some(sv[k].id),
        expands(sv[k], root),
    ensures
        in_subtree(sv, root, j),
{
    let ch = choose|ch: Seq<int>| #[trigger] chain_ok(sv, root, ch) && ch.last() == k;
    let ch2 = ch.push(j);
    assert(ch2[ch.len() as int] == j);
    assert forall|m: int| 0 <= m < ch2.len() - 1 implies sv[#[trigger] ch2[m + 1]].parent_id
        == Some(sv[ch2[m]].id) && expands(sv[ch2[m]], root) by {
        if m < ch.len() - 1 {
            assert(ch2[m] == ch[m]);
            assert(ch2[m + 1] == ch[m + 1]);
        } else {
            assert(ch2[m] == ch[ch.len() - 1]);
        }
    }
    assert(chain_ok(sv, root, ch2));
    assert(ch2.last() == j);
}

/// Any valid walk can be replaced by one without repeated indices that
/// reaches the same endpoint.
pub proof fn lemma_chain_distinct(sv: Seq<RecV>, root: u128, ch: Seq<int>)
    requires
        chain_ok(sv, root, ch),
    ensures
        exists|ch2: Seq<int>|
            #[trigger] chain_ok(sv, root, ch2) && ch2.last() == ch.last()
                && ch2.no_duplicates(),
    decreases ch.len(),
{
    if ch.no_duplicates() {
        assert(chain_ok(sv, root, ch) && ch.last() == ch.last() && ch.no_duplicates());
    } else {
        let (i0, j0) = choose|i0: int, j0: int|
            0 <= i0 < ch.len() && 0 <= j0 < ch.len() && i0 != j0 && ch[i0] == ch[j0];
        let k1 = if i0 < j0 { i0 } else { j0 };
        let k2 = if i0 < j0 { j0 } else { i0 };
        assert(0 <= k1 < k2 < ch.len() && ch[k1] == ch[k2]);
        let ch2 = ch.subrange(0, k1) + ch.subrange(k2, ch.len() as int);
        assert(ch2.len() == k1 + ch.len() - k2);
        assert(ch2.len() < ch.len());
        assert(ch2.len() > 0);
        assert forall|m: int| 0 <= m < ch2.len() implies 0 <= #[trigger] ch2[m] < sv.len() by {
            if m < k1 {
                assert(ch2[m] == ch[m]);
            } else {
                assert(ch2[m] == ch[m - k1 + k2]);
            }
        }
        assert(ch2[0] == if k1 > 0 { ch[0] } else { ch[k2] });
        assert(sv[ch2[0]].id == root);
        assert forall|m: int| 0 <= m < ch2.len() - 1 implies sv[#[trigger] ch2[m + 1]].parent_id
            == Some(sv[ch2[m]].id) && expands(sv[ch2[m]], root) by {
            if m + 1 < k1 {
                assert(ch2[m] == ch[m]);
                assert(ch2[m + 1] == ch[m + 1]);
                assert(sv[ch[m + 1]].parent_id == Some(sv[ch[m]].id) && expands(sv[ch[m]], root));
            } else if m + 1 == k1 {
                assert(ch2[m] == ch[m]);
                assert(ch2[m + 1] == ch[k2]);
                assert(ch[k2] == ch[k1]);
                assert(ch[m + 1] == ch[k1]);
                assert(sv[ch[m + 1]].parent_id == Some(sv[ch[m]].id) && expands(sv[ch[m]], root));
            } else {
                let w = m - k1 + k2;
                assert(ch2[m] == ch[w]);
                assert(ch2[m + 1] == ch[w + 1]);
                assert(0 <= w < ch.len() - 1);
                assert(sv[ch[w + 1]].parent_id == Some(sv[ch[w]].id) && expands(sv[ch[w]], root));
            }
        }
        assert(chain_ok(sv, root, ch2));
        assert(ch2.last() == ch[ch.len() - 1]);
        lemma_chain_distinct(sv, root, ch2);
    }
}

/// A walk without repeated indices is no longer than the record set.
pub proof fn lemma_distinct_chain_len(sv: Seq<RecV>, ch: Seq<int>)
    requires
        ch.no_duplicates(),
        forall|k: int| 0 <= k < ch.len() ==> 0 <= #[trigger] ch[k] < sv.len(),
    ensures
        ch.len() <= sv.len(),
{
    broadcast use vstd::set::group_set_axioms;

    ch.unique_seq_to_set();
    let rng = vstd::set_lib::set_int_range(0, sv.len() as int);
    vstd::set_lib::lemma_int_range(0, sv.len() as int);
    assert forall|x: int| ch.to_set().contains(x) implies rng.contains(x) by {
        let m = choose|m: int| 0 <= m < ch.len() && ch[m] == x;
    }
    vstd::set_lib::lemma_len_subset(ch.to_set(), rng);
}

/// Whether the closure round may mark row `j` given the marks `pre`.
pub open spec fn step_cond(sv: Seq<RecV>, root: u128, pre: Seq<bool>, j: int) -> bool {
    match sv[j].parent_id {
        Some(p) => exists|k: int|
            0 <= k < sv.len() && (#[trigger] sv[k]).id == p && pre[k] && expands(sv[k], root),
        None => false,
    }
}

/// Under distinct identifiers, membership of a row and membership of its
/// index agree.
pub proof fn lemma_el_index(sv: Seq<RecV>, root: u128, j: int)
    requires
        recs_wf(sv),
        0 <= j < sv.len(),
    ensures
        in_subtree_el(sv, root, sv[j]) <==> in_subtree(sv, root, j),
{
    if in_subtree_el(sv, root, sv[j]) {
        let i = choose|i: int| 0 <= i < sv.len() && #[trigger] sv[i] == sv[j]
            && in_subtree(sv, root, i);
        assert(sv[i].id == sv[j].id);
        if i < j {
            assert(sv[i].id != sv[j].id);
        } else if j < i {
            assert(sv[j].id != sv[i].id);
        }
    }
    if in_subtree(sv, root, j) {
        assert(0 <= j < sv.len() && sv[j] == sv[j] && in_subtree(sv, root, j));
    }
}

/// Tests whether the closure may step from this row to its children.
fn expands_exec(rec: &BlockRecord, root: Id) -> (r: bool)
    ensures
        r == expands(rec@, root.val),
{
    !crate::record::is_page_kind(&rec.kind) || rec.id.val == root.val
}

impl BlockStore {
    /// Returns the root row carrying `parent_id` together with every
    /// descendant row reachable without stepping through a nested page
    /// other than the root, in store order. The walk is bounded by the
    /// store size, so it terminates even on a store with a parent cycle.
    pub fn list(&self, parent_id: Id) -> (r: Result<Vec<BlockRecord>, BlockError>)
        requires
            self.wf(),
        ensures
            match r {
                Ok(out) => has_rec(self@, parent_id.val) && recs_view(out@) == subtree_recs(
                    self@,
                    parent_id.val,
                ),
                Err(e) => e == BlockError::NotFound && !has_rec(self@, parent_id.val),
            },
    {
        let ghost sv = self@;
        let ghost root = parent_id.val;
        let n = self.records.len();
        let root_idx = match find_first(&self.records, parent_id) {
            Some(i) => i,
            None => {
                return Err(BlockError::NotFound);
            },
        };
        let mut included: Vec<bool> = Vec::new();
        let mut t: usize = 0;
        while t < n
            invariant
                t <= n,
                included@.len() == t,
                forall|k: int| 0 <= k < t ==> !included@[k],
            decreases n - t,
        {
            included.push(false);
            t += 1;
        }
        included.set(root_idx, true);
        proof {
            lemma_chain_single(sv, root, root_idx as int);
            assert forall|ch: Seq<int>|
                #[trigger] chain_ok(sv, root, ch) && ch.len() <= 1 implies included@[ch.last()] by {
                assert(0 <= ch[0] < sv.len());
                assert(sv[ch[0]].id == root);
                assert(sv[root_idx as int].id == root);
                if ch[0] < root_idx as int {
                    assert(sv[ch[0]].id != sv[root_idx as int].id);
                } else if (root_idx as int) < ch[0] {
                    assert(sv[root_idx as int].id != sv[ch[0]].id);
                }
                assert(ch.last() == ch[0]);
            }
        }
        let mut round: usize = 0;
        while round < n
            invariant
                self.wf(),
                sv == self@,
                root == parent_id.val,
                n == self.records@.len(),
                round <= n,
                included@.len() == n,
                forall|j: int| 0 <= j < n && included@[j] ==> in_subtree(sv, root, j),
                forall|ch: Seq<int>|
                    #[trigger] chain_ok(sv, root, ch) && ch.len() <= round + 1
                        ==> included@[ch.last()],
            decreases n - round,
        {
            let ghost pre = included@;
            let mut j: usize = 0;
            while j < n
                invariant
                    self.wf(),
                    sv == self@,
                    root == parent_id.val,
                    n == self.records@.len(),
                    j <= n,
                    included@.len() == n,
                    pre.len() == n,
                    forall|m: int| 0 <= m < n && pre[m] ==> included@[m],
                    forall|m: int| 0 <= m < n && included@[m] ==> in_subtree(sv, root, m),
                    forall|j2: int|
                        0 <= j2 < j && #[trigger] step_cond(sv, root, pre, j2)
                            ==> included@[j2],
                decreases n - j,
            {
                if !included[j] {
                    let po = self.records[j].parent_id;
                    if let Some(p) = po {
                        match find_first(&self.records, p) {
                            Some(k) => {
                                if included[k] && expands_exec(&self.records[k], parent_id) {
                                    proof {
                                        assert(sv[j as int].parent_id == Some(p.val));
                                        assert(sv[k as int].id == p.val);
                                        lemma_chain_extend(sv, root, k as int, j as int);
                                    }
                                    included.set(j, true);
                                } else {
                                    proof {
                                        if step_cond(sv, root, pre, j as int) {
                                            let k2 = choose|k2: int|
                                                0 <= k2 < sv.len() && (#[trigger] sv[k2]).id
                                                    == p.val && pre[k2] && expands(sv[k2], root);
                                            if k2 < k as int {
                                                assert(sv[k2].id != sv[k as int].id);
                                            } else if (k as int) < k2 {
                                                assert(sv[k as int].id != sv[k2].id);
                                            }
                                        }
                                    }
                                }
                            },
                            None => {
                                proof {
                                    if step_cond(sv, root, pre, j as int) {
                                        let k2 = choose|k2: int|
                                            0 <= k2 < sv.len() && (#[trigger] sv[k2]).id == p.val
                                                && pre[k2] && expands(sv[k2], root);
                                        assert(has_rec(sv, p.val));
                                    }
                                }
                            },
                        }
                    }
                }
                j += 1;
            }
            proof {
                assert forall|ch: Seq<int>|
                    #[trigger] chain_ok(sv, root, ch) && ch.len() <= round + 2 implies included@[ch.last()] by {
                    assert(0 <= ch[ch.len() - 1] < sv.len());
                    if ch.len() <= round + 1 {
                        assert(pre[ch.last()]);
                    } else {
                        let chp = ch.drop_last();
                        assert(chp.len() == ch.len() - 1);
                        assert forall|m: int| 0 <= m < chp.len() implies 0 <= #[trigger] chp[m]
                            < sv.len() by {
                            assert(chp[m] == ch[m]);
                        }
                        assert(chp[0] == ch[0]);
                        assert forall|m: int| 0 <= m < chp.len() - 1 implies sv[
                        #[trigger] chp[m + 1]].parent_id == Some(sv[chp[m]].id) && expands(
                            sv[chp[m]],
                            root,
                        ) by {
                            assert(chp[m] == ch[m]);
                            assert(chp[m + 1] == ch[m + 1]);
                        }
                        assert(chain_ok(sv, root, chp));
                        assert(pre[chp.last()]);
                        let q = ch[ch.len() - 2];
                        assert(chp.last() == q);
                        let lst = ch[ch.len() - 1];
                        assert(sv[lst].parent_id == Some(sv[q].id) && expands(sv[q], root));
                        assert(step_cond(sv, root, pre, lst));
                    }
                }
            }
            round += 1;
        }
        proof {
            assert forall|j: int| 0 <= j < n implies included@[j] == in_subtree_el(
                sv,
                root,
                sv[j],
            ) by {
                lemma_el_index(sv, root, j);
                if in_subtree(sv, root, j) {
                    let ch = choose|ch: Seq<int>|
                        #[trigger] chain_ok(sv, root, ch) && ch.last() == j;
                    lemma_chain_distinct(sv, root, ch);
                    let ch2 = choose|ch2: Seq<int>|
                        #[trigger] chain_ok(sv, root, ch2) && ch2.last() == j
                            && ch2.no_duplicates();
                    lemma_distinct_chain_len(sv, ch2);
                    assert(included@[ch2.last()]);
                }
            }
        }
        let mut out: Vec<BlockRecord> = Vec::new();
        let mut i: usize = 0;
        while i < n
            invariant
                self.wf(),
                sv == self@,
                root == parent_id.val,
                n == self.records@.len(),
                i <= n,
                included@.len() == n,
                forall|j: int| 0 <= j < n ==> included@[j] == in_subtree_el(sv, root, sv[j]),
                recs_view(out@) == sv.take(i as int).filter(
                    |rv: RecV| in_subtree_el(sv, root, rv),
                ),
            decreases n - i,
        {
            proof {
                lemma_filter_take_step(sv, |rv: RecV| in_subtree_el(sv, root, rv), i as int);
            }
            if included[i] {
                out.push(self.records[i].duplicate());
                proof {
                    assert(recs_view(out@) =~= sv.take(i as int).filter(
                        |rv: RecV| in_subtree_el(sv, root, rv),
                    ).push(sv[i as int]));
                }
            }
            i += 1;
        }
        proof {
            assert(sv.take(n as int) =~= sv);
        }
        Ok(out)
    }
}

} // verus!
