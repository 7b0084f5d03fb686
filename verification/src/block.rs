//! The typed in-memory block tree: pages, text blocks, and a dummy
//! fallback for unrecognized kinds.

use vstd::prelude::*;

use crate::props::{PageProps, TextProps};
use crate::record::{opt_id, Id};

verus! {

broadcast use {vstd::std_specs::vec::group_vec_axioms, vstd::seq::group_seq_axioms};

/// The placeholder image used outside a child sequence's range.
pub open spec fn empty_block_v() -> BlockV {
    BlockV::Dummy(DummyBlockV { id: 0, parent_id: None, children: Seq::empty() })
}

/// A page node: carries a title and its child blocks.
pub struct PageBlock {
    pub id: Id,
    pub parent_id: Option<Id>,
    pub children: Vec<Block>,
    pub props: PageProps,
}

/// A text node: carries its text and its child blocks.
pub struct TextBlock {
    pub id: Id,
    pub parent_id: Option<Id>,
    pub children: Vec<Block>,
    pub props: TextProps,
}

/// A fallback node for rows whose kind tag is unrecognized.
pub struct DummyBlock {
    pub id: Id,
    pub parent_id: Option<Id>,
    pub children: Vec<Block>,
}

/// A typed tree node.
pub enum Block {
    Page(PageBlock),
    Text(TextBlock),
    Dummy(DummyBlock),
}

/// The mathematical image of a page node.
#[verifier::ext_equal]
pub struct PageBlockV {
    pub id: u128,
    pub parent_id: Option<u128>,
    pub title: Seq<char>,
    pub children: Seq<BlockV>,
}

/// The mathematical image of a text node.
#[verifier::ext_equal]
pub struct TextBlockV {
    pub id: u128,
    pub parent_id: Option<u128>,
    pub text: Seq<char>,
    pub children: Seq<BlockV>,
}

/// The mathematical image of a dummy node.
#[verifier::ext_equal]
pub struct DummyBlockV {
    pub id: u128,
    pub parent_id: Option<u128>,
    pub children: Seq<BlockV>,
}

/// The mathematical image of a tree node.
#[verifier::ext_equal]
pub enum BlockV {
    Page(PageBlockV),
    Text(TextBlockV),
    Dummy(DummyBlockV),
}

/// The mathematical image of a tree node, children included.
pub open spec fn block_view(b: Block) -> BlockV
    decreases b,
{
    match b {
        Block::Page(pb) => BlockV::Page(
            PageBlockV {
                id: pb.id.val,
                parent_id: opt_id(pb.parent_id),
                title: pb.props.title@,
                children: Seq::new(
                    pb.children@.len(),
                    |i: int| if 0 <= i < pb.children@.len() {
                        block_view(pb.children@[i])
                    } else {
                        empty_block_v()
                    },
                ),
            },
        ),
        Block::Text(tb) => BlockV::Text(
            TextBlockV {
                id: tb.id.val,
                parent_id: opt_id(tb.parent_id),
                text: tb.props.text@,
                children: Seq::new(
                    tb.children@.len(),
                    |i: int| if 0 <= i < tb.children@.len() {
                        block_view(tb.children@[i])
                    } else {
                        empty_block_v()
                    },
                ),
            },
        ),
        Block::Dummy(db) => BlockV::Dummy(
            DummyBlockV {
                id: db.id.val,
                parent_id: opt_id(db.parent_id),
                children: Seq::new(
                    db.children@.len(),
                    |i: int| if 0 <= i < db.children@.len() {
                        block_view(db.children@[i])
                    } else {
                        empty_block_v()
                    },
                ),
            },
        ),
    }
}

/// A sequence of tree nodes as their mathematical images.
pub open spec fn blocks_view(s: Seq<Block>) -> Seq<BlockV> {
    Seq::new(
        s.len(),
        |i: int| if 0 <= i < s.len() {
            block_view(s[i])
        } else {
            empty_block_v()
        },
    )
}

impl View for Block {
    type V = BlockV;

    open spec fn view(&self) -> BlockV {
        block_view(*self)
    }
}

impl View for PageBlock {
    type V = PageBlockV;

    open spec fn view(&self) -> PageBlockV {
        PageBlockV {
            id: self.id.val,
            parent_id: opt_id(self.parent_id),
            title: self.props.title@,
            children: blocks_view(self.children@),
        }
    }
}

impl View for TextBlock {
    type V = TextBlockV;

    open spec fn view(&self) -> TextBlockV {
        TextBlockV {
            id: self.id.val,
            parent_id: opt_id(self.parent_id),
            text: self.props.text@,
            children: blocks_view(self.children@),
        }
    }
}

impl View for DummyBlock {
    type V = DummyBlockV;

    open spec fn view(&self) -> DummyBlockV {
        DummyBlockV {
            id: self.id.val,
            parent_id: opt_id(self.parent_id),
            children: blocks_view(self.children@),
        }
    }
}

/// The identifier a tree node carries.
pub open spec fn v_id(b: BlockV) -> u128 {
    match b {
        BlockV::Page(p) => p.id,
        BlockV::Text(t) => t.id,
        BlockV::Dummy(d) => d.id,
    }
}

/// The parent pointer a tree node carries.
pub open spec fn v_parent(b: BlockV) -> Option<u128> {
    match b {
        BlockV::Page(p) => p.parent_id,
        BlockV::Text(t) => t.parent_id,
        BlockV::Dummy(d) => d.parent_id,
    }
}

/// The child sequence a tree node carries.
pub open spec fn v_children(b: BlockV) -> Seq<BlockV> {
    match b {
        BlockV::Page(p) => p.children,
        BlockV::Text(t) => t.children,
        BlockV::Dummy(d) => d.children,
    }
}

/// The same tree node with its child sequence replaced.
pub open spec fn with_children(b: BlockV, ch: Seq<BlockV>) -> BlockV {
    match b {
        BlockV::Page(p) => BlockV::Page(PageBlockV { children: ch, ..p }),
        BlockV::Text(t) => BlockV::Text(TextBlockV { children: ch, ..t }),
        BlockV::Dummy(d) => BlockV::Dummy(DummyBlockV { children: ch, ..d }),
    }
}

impl Block {
    /// The identifier of this node.
    pub fn id(&self) -> (r: Id)
        ensures
            r.val == v_id(self@),
    {
        match self {
            Block::Page(blk) => blk.id,
            Block::Text(blk) => blk.id,
            Block::Dummy(blk) => blk.id,
        }
    }

    /// This node with its child sequence replaced.
    pub fn set_children(self, children: Vec<Block>) -> (r: Block)
        ensures
            r@ == with_children(self@, blocks_view(children@)),
    {
        match self {
            Block::Page(blk) => {
                proof {
                    assert(self == Block::Page(blk));
                }
                let r = Block::Page(
                    PageBlock { id: blk.id, parent_id: blk.parent_id, children, props: blk.props },
                );
                proof {
                    let rv = r@;
                    let wv = with_children(self@, blocks_view(children@));
                    assert(rv is Page);
                    assert(wv is Page);
                    assert(rv->Page_0.id == wv->Page_0.id);
                    assert(rv->Page_0.parent_id == wv->Page_0.parent_id);
                    assert(rv->Page_0.title == wv->Page_0.title);
                    assert(rv->Page_0.children.len() == wv->Page_0.children.len());
                    assert forall|i: int| 0 <= i < rv->Page_0.children.len() implies rv->Page_0.children[i] == wv->Page_0.children[i] by {}
                    assert(rv->Page_0.children =~= wv->Page_0.children);
                    assert(r@ =~~= with_children(self@, blocks_view(children@)));
                }
                r
            },
            Block::Text(blk) => {
                proof {
                    assert(self == Block::Text(blk));
                }
                let r = Block::Text(
                    TextBlock { id: blk.id, parent_id: blk.parent_id, children, props: blk.props },
                );
                proof {
                    let rv = r@;
                    let wv = with_children(self@, blocks_view(children@));
                    assert(rv is Text);
                    assert(wv is Text);
                    assert(rv->Text_0.id == wv->Text_0.id);
                    assert(rv->Text_0.parent_id == wv->Text_0.parent_id);
                    assert(rv->Text_0.text == wv->Text_0.text);
                    assert(rv->Text_0.children.len() == wv->Text_0.children.len());
                    assert forall|i: int| 0 <= i < rv->Text_0.children.len() implies rv->Text_0.children[i] == wv->Text_0.children[i] by {}
                    assert(rv->Text_0.children =~= wv->Text_0.children);
                    assert(r@ =~~= with_children(self@, blocks_view(children@)));
                }
                r
            },
            Block::Dummy(blk) => {
                proof {
                    assert(self == Block::Dummy(blk));
                }
                let r = Block::Dummy(
                    DummyBlock { id: blk.id, parent_id: blk.parent_id, children },
                );
                proof {
                    let rv = r@;
                    let wv = with_children(self@, blocks_view(children@));
                    assert(rv is Dummy);
                    assert(wv is Dummy);
                    assert(rv->Dummy_0.id == wv->Dummy_0.id);
                    assert(rv->Dummy_0.parent_id == wv->Dummy_0.parent_id);
                    assert(rv->Dummy_0.children.len() == wv->Dummy_0.children.len());
                    assert forall|i: int| 0 <= i < rv->Dummy_0.children.len() implies rv->Dummy_0.children[i] == wv->Dummy_0.children[i] by {}
                    assert(rv->Dummy_0.children =~= wv->Dummy_0.children);
                    assert(r@ =~~= with_children(self@, blocks_view(children@)));
                }
                r
            },
        }
    }
}

} // verus!
