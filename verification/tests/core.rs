use takenote::block::Block;
use takenote::record::{kind_to_string, parse_kind, BlockKind, BlockRecord, BlockStore, Id};
use takenote::tree::{build_page_tree, fetch_page, fetch_pages};
use takenote::BlockError;

fn rec(id: u128, kind: &str, parent: Option<u128>, props: &str) -> BlockRecord {
    BlockRecord {
        id: Id { val: id },
        kind: kind.to_string(),
        parent_id: parent.map(|p| Id { val: p }),
        children: Vec::new(),
        props: props.to_string(),
        start: None,
        end: None,
        done: false,
    }
}

fn store(records: Vec<BlockRecord>) -> BlockStore {
    BlockStore { records }
}

fn child_ids(children: &[Block]) -> Vec<u128> {
    children.iter().map(|c| c.id().val).collect()
}

#[test]
fn round_trip_create_then_fetch() {
    let mut s = BlockStore::new();
    let r = s.create(BlockKind::Page, None, Vec::new(), "{\"title\":\"T\"}".to_string());
    assert!(r.is_ok());
    assert_eq!(s.records.len(), 1);
    let new_id = s.records[0].id;
    let page = fetch_page(&s, new_id).expect("fresh page should fetch");
    assert_eq!(page.id, new_id);
    assert_eq!(page.props.title, "T");
    assert!(page.children.is_empty());
    assert_eq!(page.parent_id, None);
}

#[test]
fn create_assigns_distinct_ids() {
    let mut s = BlockStore::new();
    s.create(BlockKind::Page, None, Vec::new(), "{\"title\":\"a\"}".to_string()).unwrap();
    s.create(BlockKind::Page, None, Vec::new(), "{\"title\":\"b\"}".to_string()).unwrap();
    assert_eq!(s.records.len(), 2);
    assert_ne!(s.records[0].id, s.records[1].id);
}

#[test]
fn create_rejects_missing_parent() {
    let mut s = BlockStore::new();
    let r = s.create(
        BlockKind::Text,
        Some(Id { val: 42 }),
        Vec::new(),
        "{\"text\":\"x\"}".to_string(),
    );
    assert_eq!(r, Err(BlockError::ConstraintViolation));
    assert!(s.records.is_empty());
}

#[test]
fn create_with_id_rejects_duplicates() {
    let mut s = BlockStore::new();
    s.create_with_id(Id { val: 7 }, BlockKind::Page, None, Vec::new(), "{\"title\":\"x\"}".to_string())
        .unwrap();
    let r = s.create_with_id(
        Id { val: 7 },
        BlockKind::Text,
        None,
        Vec::new(),
        "{\"text\":\"y\"}".to_string(),
    );
    assert_eq!(r, Err(BlockError::ConstraintViolation));
    assert_eq!(s.records.len(), 1);
}

#[test]
fn create_stores_child_order_verbatim() {
    let mut s = BlockStore::new();
    s.create_with_id(Id { val: 1 }, BlockKind::Page, None, Vec::new(), "{\"title\":\"p\"}".to_string())
        .unwrap();
    s.create(
        BlockKind::Text,
        Some(Id { val: 1 }),
        vec![Id { val: 9 }, Id { val: 8 }],
        "{\"text\":\"t\"}".to_string(),
    )
    .unwrap();
    let last = &s.records[1];
    assert_eq!(last.children, vec![Id { val: 9 }, Id { val: 8 }]);
    assert_eq!(last.kind, "text");
    assert_eq!(last.parent_id, Some(Id { val: 1 }));
    assert_eq!(last.props, "{\"text\":\"t\"}");
    assert_eq!(last.start, None);
    assert_eq!(last.end, None);
    assert!(!last.done);
}

#[test]
fn fetch_page_not_found() {
    let s = store(vec![rec(1, "page", None, "{\"title\":\"a\"}")]);
    assert_eq!(fetch_page(&s, Id { val: 2 }).err(), Some(BlockError::NotFound));
}

#[test]
fn fetch_page_root_not_a_page() {
    let s = store(vec![rec(1, "text", None, "{\"text\":\"hi\"}")]);
    assert_eq!(fetch_page(&s, Id { val: 1 }).err(), Some(BlockError::RootNotAPage));
}

#[test]
fn fetch_page_malformed_root_props() {
    let s = store(vec![rec(1, "page", None, "not json at all")]);
    assert_eq!(fetch_page(&s, Id { val: 1 }).err(), Some(BlockError::MalformedProperties));
}

#[test]
fn fetch_page_missing_title_is_malformed() {
    let s = store(vec![rec(1, "page", None, "{\"headline\":\"T\"}")]);
    assert_eq!(fetch_page(&s, Id { val: 1 }).err(), Some(BlockError::MalformedProperties));
}

#[test]
fn fetch_page_malformed_child_props() {
    let s = store(vec![
        rec(1, "page", None, "{\"title\":\"a\"}"),
        rec(2, "text", Some(1), "{\"words\":\"x\"}"),
    ]);
    assert_eq!(fetch_page(&s, Id { val: 1 }).err(), Some(BlockError::MalformedProperties));
}

#[test]
fn fetch_page_cuts_nested_page_subtrees() {
    // A page root with a text child and a nested page child whose own
    // descendant must be excluded by the query boundary.
    let s = store(vec![
        rec(1, "page", None, "{\"title\":\"A\"}"),
        rec(2, "text", Some(1), "{\"text\":\"B\"}"),
        rec(3, "page", Some(1), "{\"title\":\"C\"}"),
        rec(4, "text", Some(3), "{\"text\":\"D\"}"),
    ]);
    let page = fetch_page(&s, Id { val: 1 }).expect("root page fetches");
    assert_eq!(child_ids(&page.children), vec![2, 3]);
    match &page.children[1] {
        Block::Page(c) => {
            assert_eq!(c.props.title, "C");
            assert!(c.children.is_empty());
        }
        _ => panic!("child C should be a page"),
    }
    match &page.children[0] {
        Block::Text(b) => assert_eq!(b.props.text, "B"),
        _ => panic!("child B should be a text block"),
    }
}

#[test]
fn fetch_page_follows_deep_text_chains() {
    let s = store(vec![
        rec(1, "page", None, "{\"title\":\"root\"}"),
        rec(2, "text", Some(1), "{\"text\":\"one\"}"),
        rec(3, "text", Some(2), "{\"text\":\"two\"}"),
        rec(4, "text", Some(3), "{\"text\":\"three\"}"),
    ]);
    let page = fetch_page(&s, Id { val: 1 }).expect("root page fetches");
    assert_eq!(child_ids(&page.children), vec![2]);
    let c2 = match &page.children[0] {
        Block::Text(t) => t,
        _ => panic!("expected text"),
    };
    assert_eq!(child_ids(&c2.children), vec![3]);
    let c3 = match &c2.children[0] {
        Block::Text(t) => t,
        _ => panic!("expected text"),
    };
    assert_eq!(child_ids(&c3.children), vec![4]);
}

#[test]
fn unknown_kind_becomes_dummy() {
    let s = store(vec![
        rec(1, "page", None, "{\"title\":\"A\"}"),
        rec(2, "widget", Some(1), "whatever"),
    ]);
    let page = fetch_page(&s, Id { val: 1 }).expect("root page fetches");
    assert_eq!(page.children.len(), 1);
    match &page.children[0] {
        Block::Dummy(d) => {
            assert_eq!(d.id, Id { val: 2 });
            assert_eq!(d.parent_id, Some(Id { val: 1 }));
        }
        _ => panic!("unrecognized kind should become a dummy block"),
    }
}

#[test]
fn fetch_page_reads_are_idempotent() {
    let s = store(vec![
        rec(1, "page", None, "{\"title\":\"A\"}"),
        rec(2, "text", Some(1), "{\"text\":\"B\"}"),
    ]);
    let a = fetch_page(&s, Id { val: 1 }).expect("fetches");
    let b = fetch_page(&s, Id { val: 1 }).expect("fetches");
    assert_eq!(a.id, b.id);
    assert_eq!(a.props.title, b.props.title);
    assert_eq!(child_ids(&a.children), child_ids(&b.children));
}

#[test]
fn cycle_through_root_terminates() {
    // The root's parent points at its own descendant: the walk and the
    // builder must still terminate, cutting the repetition at the fuel
    // bound instead of hanging.
    let s = store(vec![
        rec(1, "page", Some(2), "{\"title\":\"A\"}"),
        rec(2, "text", Some(1), "{\"text\":\"B\"}"),
    ]);
    let page = fetch_page(&s, Id { val: 1 }).expect("cycle still yields a page");
    assert_eq!(child_ids(&page.children), vec![2]);
    match &page.children[0] {
        Block::Text(b) => {
            assert_eq!(child_ids(&b.children), vec![1]);
            match &b.children[0] {
                Block::Page(inner) => assert!(inner.children.is_empty()),
                _ => panic!("inner node should be the page again"),
            }
        }
        _ => panic!("child should be the text block"),
    }
}

#[test]
fn build_page_tree_root_missing() {
    let blocks = vec![rec(1, "page", None, "{\"title\":\"A\"}")];
    assert_eq!(
        build_page_tree(Id { val: 9 }, &blocks).err(),
        Some(BlockError::RootMissing)
    );
}

#[test]
fn build_page_tree_orders_children_by_supply_order() {
    let blocks = vec![
        rec(1, "page", None, "{\"title\":\"A\"}"),
        rec(3, "text", Some(1), "{\"text\":\"later\"}"),
        rec(2, "text", Some(1), "{\"text\":\"earlier\"}"),
    ];
    let page = build_page_tree(Id { val: 1 }, &blocks).expect("builds");
    assert_eq!(child_ids(&page.children), vec![3, 2]);
}

#[test]
fn fetch_pages_forest_roots() {
    let s = store(vec![
        rec(1, "page", None, "{\"title\":\"one\"}"),
        rec(2, "page", Some(1), "{\"title\":\"nested\"}"),
        rec(3, "text", Some(1), "{\"text\":\"body\"}"),
        rec(4, "page", None, "{\"title\":\"two\"}"),
    ]);
    let forest = fetch_pages(&s).expect("forest builds");
    let root_ids: Vec<u128> = forest.iter().map(|p| p.id.val).collect();
    assert_eq!(root_ids, vec![1, 4]);
    // The forest is built over page rows only: the text row is absent,
    // while the nested page hangs under its parent.
    assert_eq!(child_ids(&forest[0].children), vec![2]);
    assert!(forest[1].children.is_empty());
    assert_eq!(forest[0].props.title, "one");
    assert_eq!(forest[1].props.title, "two");
}

#[test]
fn fetch_pages_empty_store() {
    let s = BlockStore::new();
    assert_eq!(fetch_pages(&s).expect("empty forest").len(), 0);
}

#[test]
fn fetch_pages_malformed_page_fails() {
    let s = store(vec![
        rec(1, "page", None, "{\"title\":\"ok\"}"),
        rec(2, "page", Some(1), "broken"),
    ]);
    assert_eq!(fetch_pages(&s).err(), Some(BlockError::MalformedProperties));
}

#[test]
fn kind_codec_round_trips() {
    assert_eq!(parse_kind("page"), Some(BlockKind::Page));
    assert_eq!(parse_kind("text"), Some(BlockKind::Text));
    assert_eq!(parse_kind("widget"), None);
    assert_eq!(kind_to_string(BlockKind::Page), "page");
    assert_eq!(kind_to_string(BlockKind::Text), "text");
    assert_eq!(parse_kind(&kind_to_string(BlockKind::Page)), Some(BlockKind::Page));
    assert_eq!(parse_kind(&kind_to_string(BlockKind::Text)), Some(BlockKind::Text));
}

#[test]
fn set_children_replaces_children_on_every_variant() {
    let s = store(vec![
        rec(1, "page", None, "{\"title\":\"A\"}"),
        rec(2, "text", Some(1), "{\"text\":\"B\"}"),
    ]);
    let page = fetch_page(&s, Id { val: 1 }).expect("fetches");
    let text_child = match &page.children[0] {
        Block::Text(t) => Block::Text(takenote::block::TextBlock {
            id: t.id,
            parent_id: t.parent_id,
            children: Vec::new(),
            props: takenote::props::TextProps { text: t.props.text.clone() },
        }),
        _ => panic!("expected text child"),
    };
    let node = Block::Page(page).set_children(vec![text_child]);
    match node {
        Block::Page(p) => assert_eq!(child_ids(&p.children), vec![2]),
        _ => panic!("variant must be preserved"),
    }
}

#[test]
fn error_descriptions_are_distinct() {
    let errors = [
        BlockError::StoreUnavailable,
        BlockError::ConstraintViolation,
        BlockError::NotFound,
        BlockError::RootMissing,
        BlockError::RootNotAPage,
        BlockError::MalformedProperties,
    ];
    for (i, a) in errors.iter().enumerate() {
        for (j, b) in errors.iter().enumerate() {
            if i != j {
                assert_ne!(a.describe(), b.describe());
            }
        }
    }
}
