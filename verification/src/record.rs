//! Flat block rows and the in-memory block store they live in.

use vstd::prelude::*;

use crate::BlockError;

verus! {

/// A stable block identifier, held as the 128-bit value of a UUID.
#[derive(Clone, Copy, PartialEq, Eq, Structural, Debug)]
pub struct Id {
    pub val: u128,
}

/// The kinds of block that can be created explicitly.
#[derive(Clone, Copy, PartialEq, Eq, Structural, Debug)]
pub enum BlockKind {
    Page,
    Text,
}

/// The canonical stored tag of a page row.
pub open spec fn page_kind() -> Seq<char> {
    "page"@
}

/// The canonical stored tag of a text row.
pub open spec fn text_kind() -> Seq<char> {
    "text"@
}

/// The canonical stored form of a creatable kind.
pub open spec fn kind_str(k: BlockKind) -> Seq<char> {
    match k {
        BlockKind::Page => page_kind(),
        BlockKind::Text => text_kind(),
    }
}

/// What parsing a stored kind tag yields; unrecognized tags yield nothing.
pub open spec fn spec_parse_kind(s: Seq<char>) -> Option<BlockKind> {
    if s == page_kind() {
        Some(BlockKind::Page)
    } else if s == text_kind() {
        Some(BlockKind::Text)
    } else {
        None
    }
}

/// The two canonical kind tags differ.
pub proof fn lemma_kinds_distinct()
    ensures
        page_kind() != text_kind(),
{
    reveal_strlit("page");
    reveal_strlit("text");
    assert(page_kind()[0] == 'p');
    assert(text_kind()[0] == 't');
}

/// Compares two string slices by their character sequences.
fn str_eq(a: &str, b: &str) -> (r: bool)
    ensures
        r == (a@ == b@),
{
    let x: String = a.to_owned();
    let y: String = b.to_owned();
    x == y
}

/// Renders a creatable kind in its canonical stored form.
pub fn kind_to_string(k: BlockKind) -> (r: String)
    ensures
        r@ == kind_str(k),
{
    match k {
        BlockKind::Page => "page".to_owned(),
        BlockKind::Text => "text".to_owned(),
    }
}

/// Parses a stored kind tag; unrecognized tags yield `None`.
pub fn parse_kind(s: &str) -> (r: Option<BlockKind>)
    ensures
        r == spec_parse_kind(s@),
{
    if str_eq(s, "page") {
        Some(BlockKind::Page)
    } else if str_eq(s, "text") {
        Some(BlockKind::Text)
    } else {
        None
    }
}

/// The kind codec is round-trip stable.
pub proof fn lemma_kind_round_trip(k: BlockKind)
    ensures
        spec_parse_kind(kind_str(k)) == Some(k),
{
    lemma_kinds_distinct();
}

/// Tests for the canonical page tag.
pub fn is_page_kind(s: &String) -> (r: bool)
    ensures
        r == (s@ == page_kind()),
{
    str_eq(s.as_str(), "page")
}

/// Tests for the canonical text tag.
pub fn is_text_kind(s: &String) -> (r: bool)
    ensures
        r == (s@ == text_kind()),
{
    str_eq(s.as_str(), "text")
}

/// A flat stored block row.
pub struct BlockRecord {
    pub id: Id,
    pub kind: String,
    pub parent_id: Option<Id>,
    pub children: Vec<Id>,
    pub props: String,
    pub start: Option<i64>,
    pub end: Option<i64>,
    pub done: bool,
}

/// The mathematical image of a stored block row.
#[verifier::ext_equal]
pub struct RecV {
    pub id: u128,
    pub kind: Seq<char>,
    pub parent_id: Option<u128>,
    pub children: Seq<u128>,
    pub props: Seq<char>,
    pub start: Option<i64>,
    pub end: Option<i64>,
    pub done: bool,
}

/// An optional identifier as an optional plain value.
pub open spec fn opt_id(o: Option<Id>) -> Option<u128> {
    match o {
        Some(i) => Some(i.val),
        None => None,
    }
}

/// A sequence of identifiers as plain values.
pub open spec fn ids_view(s: Seq<Id>) -> Seq<u128> {
    s.map_values(|x: Id| x.val)
}

impl View for BlockRecord {
    type V = RecV;

    open spec fn view(&self) -> RecV {
        RecV {
            id: self.id.val,
            kind: self.kind@,
            parent_id: opt_id(self.parent_id),
            children: ids_view(self.children@),
            props: self.props@,
            start: self.start,
            end: self.end,
            done: self.done,
        }
    }
}

/// A sequence of rows as their mathematical images.
pub open spec fn recs_view(s: Seq<BlockRecord>) -> Seq<RecV> {
    s.map_values(|r: BlockRecord| r@)
}

/// Whether some row of `sv` carries identifier `id`.
pub open spec fn has_rec(sv: Seq<RecV>, id: u128) -> bool {
    exists|i: int| 0 <= i < sv.len() && (#[trigger] sv[i]).id == id
}

/// Whether `i` is the first index of `sv` whose row carries `id`.
pub open spec fn is_first_idx(sv: Seq<RecV>, id: u128, i: int) -> bool {
    &&& 0 <= i < sv.len()
    &&& sv[i].id == id
    &&& forall|k: int| 0 <= k < i ==> (#[trigger] sv[k]).id != id
}

/// The first index of `sv` whose row carries `id`.
pub open spec fn first_idx(sv: Seq<RecV>, id: u128) -> int {
    choose|i: int| is_first_idx(sv, id, i)
}

/// The first row of `sv` carrying `id`.
pub open spec fn rec_of(sv: Seq<RecV>, id: u128) -> RecV {
    sv[first_idx(sv, id)]
}

/// All rows carry pairwise distinct identifiers.
pub open spec fn recs_wf(sv: Seq<RecV>) -> bool {
    forall|i: int, j: int|
        0 <= i < j < sv.len() ==> (#[trigger] sv[i]).id != (#[trigger] sv[j]).id
}

/// The first matching index is unique.
pub proof fn lemma_first_idx_unique(sv: Seq<RecV>, id: u128, i: int)
    requires
        is_first_idx(sv, id, i),
    ensures
        first_idx(sv, id) == i,
        is_first_idx(sv, id, first_idx(sv, id)),
{
    assert(exists|k: int| is_first_idx(sv, id, k));
    let j = first_idx(sv, id);
    assert(is_first_idx(sv, id, j));
    if i < j {
        assert(sv[i].id != id);
    } else if j < i {
        assert(sv[j].id != id);
    }
}

/// Under distinct identifiers, any row carrying `id` is the row `rec_of`
/// designates.
pub proof fn lemma_rec_of_wf(sv: Seq<RecV>, id: u128)
    requires
        recs_wf(sv),
        has_rec(sv, id),
    ensures
        is_first_idx(sv, id, first_idx(sv, id)),
        rec_of(sv, id).id == id,
        forall|i: int|
            0 <= i < sv.len() && (#[trigger] sv[i]).id == id ==> sv[i] == rec_of(sv, id)
                && first_idx(sv, id) == i,
{
    let i0 = choose|i: int| 0 <= i < sv.len() && (#[trigger] sv[i]).id == id;
    assert forall|k: int| 0 <= k < i0 implies (#[trigger] sv[k]).id != id by {
        assert(sv[k].id != sv[i0].id);
    }
    assert(is_first_idx(sv, id, i0));
    lemma_first_idx_unique(sv, id, i0);
    assert forall|i: int|
        0 <= i < sv.len() && (#[trigger] sv[i]).id == id implies sv[i] == rec_of(sv, id)
            && first_idx(sv, id) == i by {
        if i < i0 {
            assert(sv[i].id != sv[i0].id);
        } else if i0 < i {
            assert(sv[i0].id != sv[i].id);
        }
    }
}

/// Finds the first row whose identifier matches.
pub fn find_first(recs: &Vec<BlockRecord>, id: Id) -> (r: Option<usize>)
    ensures
        match r {
            Some(i) => is_first_idx(recs_view(recs@), id.val, i as int),
            None => !has_rec(recs_view(recs@), id.val),
        },
{
    let mut i: usize = 0;
    while i < recs.len()
        invariant
            i <= recs@.len(),
            forall|k: int| 0 <= k < i ==> (#[trigger] recs_view(recs@)[k]).id != id.val,
        decreases recs@.len() - i,
    {
        if recs[i].id.val == id.val {
            return Some(i);
        }
        i += 1;
    }
    None
}

/// Tests whether some row carries the identifier.
pub fn contains_id(recs: &Vec<BlockRecord>, id: Id) -> (r: bool)
    ensures
        r == has_rec(recs_view(recs@), id.val),
{
    match find_first(recs, id) {
        Some(_) => true,
        None => false,
    }
}

impl BlockRecord {
    /// A fresh row with the same stored content.
    pub fn duplicate(&self) -> (r: BlockRecord)
        ensures
            r@ == self@,
    {
        let mut children: Vec<Id> = Vec::new();
        let mut k: usize = 0;
        while k < self.children.len()
            invariant
                k <= self.children@.len(),
                children@ == self.children@.take(k as int),
            decreases self.children@.len() - k,
        {
            children.push(self.children[k]);
            proof {
                assert(self.children@.take(k as int).push(self.children@[k as int])
                    =~= self.children@.take(k + 1));
            }
            k += 1;
        }
        proof {
            assert(children@ =~= self.children@);
        }
        BlockRecord {
            id: self.id,
            kind: self.kind.clone(),
            parent_id: self.parent_id,
            children,
            props: self.props.clone(),
            start: self.start,
            end: self.end,
            done: self.done,
        }
    }
}

/// The row a create operation appends for the given arguments and identifier.
pub open spec fn new_rec_v(
    id: u128,
    kind: BlockKind,
    parent: Option<u128>,
    child_order: Seq<u128>,
    props: Seq<char>,
) -> RecV {
    RecV {
        id,
        kind: kind_str(kind),
        parent_id: parent,
        children: child_order,
        props,
        start: None,
        end: None,
        done: false,
    }
}

/// Relies on uuid::Uuid::now_v7 for a fresh time-ordered identifier;
/// nothing is assumed of the value it returns.
#[verifier::external_body]
fn fresh_id() -> (r: Id)
{
    Id { val: uuid::Uuid::now_v7().as_u128() }
}

/// An in-memory table of block rows, standing in for the backing store.
pub struct BlockStore {
    pub records: Vec<BlockRecord>,
}

impl View for BlockStore {
    type V = Seq<RecV>;

    open spec fn view(&self) -> Seq<RecV> {
        recs_view(self.records@)
    }
}

impl BlockStore {
    /// All stored rows carry pairwise distinct identifiers.
    pub open spec fn wf(self) -> bool {
        recs_wf(self@)
    }

    /// An empty store.
    pub fn new() -> (r: BlockStore)
        ensures
            r.wf(),
            r@ == Seq::<RecV>::empty(),
    {
        let store = BlockStore { records: Vec::new() };
        proof {
            assert(store@ =~= Seq::<RecV>::empty());
        }
        store
    }

    /// Inserts a row under the given identifier, enforcing identifier
    /// uniqueness and parent existence.
    pub fn create_with_id(
        &mut self,
        id: Id,
        kind: BlockKind,
        parent_id: Option<Id>,
        children: Vec<Id>,
        props: String,
    ) -> (r: Result<(), BlockError>)
        requires
            old(self).wf(),
        ensures
            final(self).wf(),
            match r {
                Ok(_) => {
                    &&& !has_rec(old(self)@, id.val)
                    &&& (parent_id matches Some(p) ==> has_rec(old(self)@, p.val))
                    &&& final(self)@ == old(self)@.push(
                        new_rec_v(id.val, kind, opt_id(parent_id), ids_view(children@), props@),
                    )
                },
                Err(e) => {
                    &&& e == BlockError::ConstraintViolation
                    &&& *final(self) == *old(self)
                    &&& (has_rec(old(self)@, id.val)
                        || (parent_id matches Some(p) && !has_rec(old(self)@, p.val)))
                },
            },
    {
        if contains_id(&self.records, id) {
            return Err(BlockError::ConstraintViolation);
        }
        let parent_ok = match parent_id {
            Some(p) => contains_id(&self.records, p),
            None => true,
        };
        if !parent_ok {
            return Err(BlockError::ConstraintViolation);
        }
        let rec = BlockRecord {
            id,
            kind: kind_to_string(kind),
            parent_id,
            children,
            props,
            start: None,
            end: None,
            done: false,
        };
        self.records.push(rec);
        proof {
            let rv = new_rec_v(id.val, kind, opt_id(parent_id), ids_view(children@), props@);
            assert(self@ =~= old(self)@.push(rv));
        }
        Ok(())
    }

    /// Creates a block row with a fresh time-ordered identifier; the stored
    /// child order and payload are kept verbatim.
    pub fn create(
        &mut self,
        kind: BlockKind,
        parent_id: Option<Id>,
        children: Vec<Id>,
        props: String,
    ) -> (r: Result<(), BlockError>)
        requires
            old(self).wf(),
        ensures
            final(self).wf(),
            match r {
                Ok(_) => {
                    &&& final(self)@.len() == old(self)@.len() + 1
                    &&& final(self)@.subrange(0, old(self)@.len() as int) == old(self)@
                    &&& !has_rec(old(self)@, final(self)@.last().id)
                    &&& (parent_id matches Some(p) ==> has_rec(old(self)@, p.val))
                    &&& final(self)@.last() == new_rec_v(
                        final(self)@.last().id,
                        kind,
                        opt_id(parent_id),
                        ids_view(children@),
                        props@,
                    )
                },
                Err(e) => e == BlockError::ConstraintViolation && *final(self) == *old(self),
            },
    {
        let id = fresh_id();
        match self.create_with_id(id, kind, parent_id, children, props) {
            Ok(_) => {
                proof {
                    let rv = new_rec_v(id.val, kind, opt_id(parent_id), ids_view(children@), props@);
                    assert(self@.subrange(0, old(self)@.len() as int) =~= old(self)@);
                    assert(self@.last() == rv);
                }
                Ok(())
            },
            Err(e) => Err(e),
        }
    }

    /// Returns every row whose kind tag is the page tag, in store order.
    pub fn list_pages(&self) -> (r: Vec<BlockRecord>)
        ensures
            recs_view(r@) == page_recs(self@),
    {
        let mut out: Vec<BlockRecord> = Vec::new();
        let mut i: usize = 0;
        while i < self.records.len()
            invariant
                i <= self.records@.len(),
                recs_view(out@) == page_recs(self@.take(i as int)),
            decreases self.records@.len() - i,
        {
            proof {
                lemma_filter_take_step(self@, |rv: RecV| rv.kind == page_kind(), i as int);
            }
            if is_page_kind(&self.records[i].kind) {
                out.push(self.records[i].duplicate());
                proof {
                    assert(recs_view(out@) =~= page_recs(self@.take(i as int)).push(
                        self@[i as int],
                    ));
                }
            }
            i += 1;
        }
        proof {
            assert(self@.take(self.records@.len() as int) =~= self@);
        }
        out
    }
}

/// The rows whose kind tag is the page tag, in order.
pub open spec fn page_recs(sv: Seq<RecV>) -> Seq<RecV> {
    sv.filter(|rv: RecV| rv.kind == page_kind())
}

/// The page rows stored at root level, in order.
pub open spec fn root_page_recs(sv: Seq<RecV>) -> Seq<RecV> {
    page_recs(sv).filter(|rv: RecV| rv.parent_id is None)
}

/// Filtering a prefix one element longer extends the filtered sequence
/// exactly when the new element satisfies the predicate.
pub proof fn lemma_filter_take_step<A>(s: Seq<A>, p: spec_fn(A) -> bool, i: int)
    requires
        0 <= i < s.len(),
    ensures
        s.take(i + 1).filter(p) == if p(s[i]) {
            s.take(i).filter(p).push(s[i])
        } else {
            s.take(i).filter(p)
        },
{
    reveal(Seq::filter);
    assert(s.take(i + 1).drop_last() =~= s.take(i));
    assert(s.take(i + 1).last() == s[i]);
}

/// Every element of a filtered sequence is an element of the unfiltered
/// sequence and satisfies the predicate.
pub proof fn lemma_filter_sub<A>(s: Seq<A>, p: spec_fn(A) -> bool)
    ensures
        forall|k: int|
            0 <= k < s.filter(p).len() ==> p(#[trigger] s.filter(p)[k]) && s.contains(
                s.filter(p)[k],
            ),
    decreases s.len(),
{
    reveal(Seq::filter);
    if s.len() > 0 {
        lemma_filter_sub(s.drop_last(), p);
        assert forall|k: int| 0 <= k < s.filter(p).len() implies p(#[trigger] s.filter(p)[k])
            && s.contains(s.filter(p)[k]) by {
            let sub = s.drop_last().filter(p);
            if k < sub.len() {
                assert(s.filter(p)[k] == sub[k]);
                let j = choose|j: int| 0 <= j < s.drop_last().len() && s.drop_last()[j] == sub[k];
                assert(s[j] == sub[k]);
            } else {
                assert(s.filter(p)[k] == s.last());
                assert(s[s.len() - 1] == s.last());
            }
        }
    }
}

/// A filtered sequence of rows with distinct identifiers again has
/// distinct identifiers.
pub proof fn lemma_filter_wf(sv: Seq<RecV>, p: spec_fn(RecV) -> bool)
    requires
        recs_wf(sv),
    ensures
        recs_wf(sv.filter(p)),
    decreases sv.len(),
{
    reveal(Seq::filter);
    if sv.len() > 0 {
        assert(forall|i: int, j: int|
            0 <= i < j < sv.drop_last().len() ==> (#[trigger] sv.drop_last()[i]).id
                != (#[trigger] sv.drop_last()[j]).id);
        lemma_filter_wf(sv.drop_last(), p);
        let sub = sv.drop_last().filter(p);
        if p(sv.last()) {
            lemma_filter_sub(sv.drop_last(), p);
            assert forall|i: int, j: int| 0 <= i < j < sv.filter(p).len() implies (
            #[trigger] sv.filter(p)[i]).id != (#[trigger] sv.filter(p)[j]).id by {
                if j < sub.len() {
                } else {
                    assert(sv.filter(p)[j] == sv.last());
                    assert(sub.contains(sub[i]));
                    let m = choose|m: int|
                        0 <= m < sv.drop_last().len() && sv.drop_last()[m] == sub[i];
                    assert(sv[m] == sv.filter(p)[i]);
                    assert(sv[m].id != sv[sv.len() - 1].id);
                }
            }
        }
    }
}

} // verus!
