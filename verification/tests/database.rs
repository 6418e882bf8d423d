use cheguers_core::catalog::{Catalog, EdgeTypeEntry, NodeLabelEntry, PropertyDef};
use cheguers_core::command::Command;
use cheguers_core::error::StorageError;
use cheguers_core::io::header::DatabaseHeader;
use cheguers_core::state::metadata::serialize_catalog_block;
use cheguers_core::state::node_table::NodeGroupPageInfo;
use cheguers_core::types::{
    ColumnId, DataType, Direction, EdgeId, LabelId, NodeGroupIdx, NodeId, PageIdx, PageRange, PropertyValue,
    TableId,
};
use cheguers_core::{OpenError, Page, StorageManager};

fn person() -> NodeLabelEntry {
    NodeLabelEntry {
        table_id: TableId(0),
        label_id: LabelId(0),
        name: "Person".into(),
        pk_column_id: ColumnId(0),
        properties: vec![
            PropertyDef {
                name: "name".into(),
                column_id: ColumnId(0),
                data_type: DataType::String,
                nullable: false,
            },
            PropertyDef {
                name: "age".into(),
                column_id: ColumnId(1),
                data_type: DataType::Int64,
                nullable: true,
            },
        ],
    }
}

fn knows() -> EdgeTypeEntry {
    EdgeTypeEntry {
        table_id: TableId(1),
        label_id: LabelId(1),
        name: "Knows".into(),
        from_label_id: LabelId(0),
        to_label_id: LabelId(0),
        properties: vec![PropertyDef {
            name: "weight".into(),
            column_id: ColumnId(0),
            data_type: DataType::Float64,
            nullable: false,
        }],
    }
}

fn test_catalog() -> Catalog {
    Catalog { node_labels: vec![person()], edge_types: vec![knows()] }
}

/// A data file in memory.
struct MemoryFile {
    pages: Vec<Page>,
}

fn create(catalog: Catalog) -> (StorageManager, MemoryFile) {
    let (sm, pages) = StorageManager::create(catalog, [7u8; 16]).unwrap().unwrap();
    (sm, MemoryFile { pages })
}

fn flush(sm: &mut StorageManager, file: &mut MemoryFile) {
    let (pages, header) = sm.flush(file.pages.len() as u64, &file.pages[0]).unwrap().unwrap();
    file.pages.extend(pages);
    file.pages[0] = header;
}

fn open(file: &MemoryFile) -> StorageManager {
    let sm = StorageManager::open(&file.pages).unwrap().unwrap();
    assert!(sm.is_sound());
    sm
}

fn create_person(id: u64, name: &str, age: i64) -> Command {
    Command::CreateNode {
        node_id: NodeId(id),
        label_id: LabelId(0),
        properties: vec![PropertyValue::String(name.into()), PropertyValue::Int64(age)],
    }
}

fn create_knows(id: u64, from: u64, to: u64, weight: f64) -> Command {
    Command::CreateEdge {
        edge_id: EdgeId(id),
        type_id: LabelId(1),
        from: NodeId(from),
        to: NodeId(to),
        properties: vec![PropertyValue::Float64(weight.to_bits())],
    }
}

fn neighbors(sm: &StorageManager, id: u64, dir: Direction) -> Vec<(u64, u64)> {
    let mut out = Vec::new();
    sm.neighbors(NodeId(id), dir, &mut out);
    out.iter().map(|r| (r.edge_id.0, r.neighbor.0)).collect()
}

#[test]
fn create_flush_reopen_roundtrip() {
    let (mut sm, mut file) = create(test_catalog());

    sm.apply_command(&Command::CreateNode {
        node_id: NodeId(1),
        label_id: LabelId(0),
        properties: vec![PropertyValue::String("Alice".into()), PropertyValue::Int64(30)],
    })
    .unwrap();
    sm.apply_command(&Command::CreateNode {
        node_id: NodeId(2),
        label_id: LabelId(0),
        properties: vec![PropertyValue::String("Bob".into()), PropertyValue::Int64(25)],
    })
    .unwrap();

    sm.apply_command(&Command::CreateEdge {
        edge_id: EdgeId(1),
        type_id: LabelId(1),
        from: NodeId(1),
        to: NodeId(2),
        properties: vec![PropertyValue::Float64(f64::to_bits(0.95))],
    })
    .unwrap();

    let alice = sm.get_node(NodeId(1), LabelId(0)).unwrap();
    assert_eq!(alice[0], Some(PropertyValue::String("Alice".into())));

    flush(&mut sm, &mut file);
    drop(sm);

    let sm2 = open(&file);

    let alice2 = sm2.get_node(NodeId(1), LabelId(0)).unwrap();
    assert_eq!(alice2[0], Some(PropertyValue::String("Alice".into())));

    let bob2 = sm2.get_node(NodeId(2), LabelId(0)).unwrap();
    assert_eq!(bob2[0], Some(PropertyValue::String("Bob".into())));

    let edge = sm2.get_edge(EdgeId(1), LabelId(1)).unwrap();
    assert_eq!(edge.from, NodeId(1));
    assert_eq!(edge.to, NodeId(2));
    assert_eq!(edge.properties[0], Some(PropertyValue::Float64(f64::to_bits(0.95))));

    let mut fwd = Vec::new();
    sm2.neighbors(NodeId(1), Direction::Forward, &mut fwd);
    assert_eq!(fwd.len(), 1);
    assert_eq!(fwd[0].edge_id, EdgeId(1));
    assert_eq!(fwd[0].neighbor, NodeId(2));

    let mut bwd = Vec::new();
    sm2.neighbors(NodeId(2), Direction::Backward, &mut bwd);
    assert_eq!(bwd.len(), 1);
    assert_eq!(bwd[0].neighbor, NodeId(1));
}

#[test]
fn create_empty_database() {
    let (sm, file) = create(Catalog::default());
    drop(sm);
    let _ = open(&file);
}

#[test]
fn a_created_file_has_its_header_first() {
    let (_, file) = create(test_catalog());
    let header = DatabaseHeader::deserialize(&file.pages[0]).unwrap();
    assert_eq!(header.version, 1);
    assert_eq!(header.db_id, [7u8; 16]);
    assert_eq!(header.catalog_page_range, PageRange { start_page: PageIdx(1), num_pages: 1 });
    assert_eq!(file.pages.len(), 2);
}

#[test]
fn an_opened_database_goes_on_and_is_flushed_again() {
    let (mut sm, mut file) = create(test_catalog());
    sm.apply_command(&create_person(1, "Alice", 30)).unwrap();
    sm.apply_command(&create_person(2, "Bob", 25)).unwrap();
    sm.apply_command(&create_knows(1, 1, 2, 0.5)).unwrap();
    flush(&mut sm, &mut file);

    let mut sm = open(&file);
    sm.apply_command(&create_person(3, "Carol", 40)).unwrap();
    sm.apply_command(&create_knows(2, 1, 3, 0.25)).unwrap();
    sm.apply_command(&Command::DeleteEdge { edge_id: EdgeId(1) }).unwrap();
    sm.apply_command(&Command::DeleteNode { node_id: NodeId(2) }).unwrap();
    flush(&mut sm, &mut file);

    let sm = open(&file);
    assert!(sm.get_node(NodeId(2), LabelId(0)).is_none());
    assert!(sm.get_edge(EdgeId(1), LabelId(1)).is_none());
    let carol = sm.get_node(NodeId(3), LabelId(0)).unwrap();
    assert_eq!(carol[1], Some(PropertyValue::Int64(40)));
    assert_eq!(neighbors(&sm, 1, Direction::Forward), vec![(2, 3)]);
    assert_eq!(neighbors(&sm, 3, Direction::Backward), vec![(2, 1)]);
    assert_eq!(neighbors(&sm, 2, Direction::Backward), vec![]);
}

#[test]
fn flushing_without_changes_writes_only_the_catalog_block() {
    let (mut sm, mut file) = create(test_catalog());
    sm.apply_command(&create_person(1, "Alice", 30)).unwrap();
    flush(&mut sm, &mut file);
    let before = file.pages.len();
    flush(&mut sm, &mut file);
    assert_eq!(file.pages.len(), before + 1);
    let header = DatabaseHeader::deserialize(&file.pages[0]).unwrap();
    assert_eq!(header.catalog_page_range.start_page, PageIdx(before as u64));
    assert!(open(&file).get_node(NodeId(1), LabelId(0)).is_some());
}

#[test]
fn a_refused_edge_does_not_hurt_what_is_stored() {
    let mut catalog = test_catalog();
    catalog.edge_types[0].properties.push(PropertyDef {
        name: "since".into(),
        column_id: ColumnId(1),
        data_type: DataType::Int64,
        nullable: true,
    });
    let (mut sm, mut file) = create(catalog);
    sm.apply_command(&create_person(1, "Alice", 30)).unwrap();
    sm.apply_command(&create_person(2, "Bob", 25)).unwrap();
    sm.apply_command(&create_knows(1, 1, 2, 0.5)).unwrap();
    flush(&mut sm, &mut file);
    let refused = sm.apply_command(&Command::CreateEdge {
        edge_id: EdgeId(2),
        type_id: LabelId(1),
        from: NodeId(1),
        to: NodeId(2),
        properties: vec![PropertyValue::Float64(1.0f64.to_bits()), PropertyValue::Bool(true)],
    });
    assert_eq!(
        refused,
        Err(StorageError::ColumnTypeMismatch {
            expected: DataType::Int64,
            got: DataType::Bool,
        })
    );
    assert_eq!(neighbors(&sm, 1, Direction::Forward), vec![(1, 2)]);
    flush(&mut sm, &mut file);
    let sm = open(&file);
    assert_eq!(neighbors(&sm, 1, Direction::Forward), vec![(1, 2)]);
    let edge = sm.get_edge(EdgeId(1), LabelId(1)).unwrap();
    assert_eq!(edge.properties, vec![Some(PropertyValue::Float64(0.5f64.to_bits())), None]);
}

#[test]
fn edges_need_their_nodes() {
    let (mut sm, _) = create(test_catalog());
    sm.apply_command(&create_person(1, "Alice", 30)).unwrap();
    assert_eq!(
        sm.apply_command(&create_knows(1, 1, 2, 0.5)),
        Err(StorageError::NodeNotFound { node_id: NodeId(2) })
    );
    assert_eq!(
        sm.apply_command(&create_knows(1, 9, 2, 0.5)),
        Err(StorageError::NodeNotFound { node_id: NodeId(9) })
    );
    sm.apply_command(&create_person(2, "Bob", 25)).unwrap();
    assert_eq!(sm.apply_command(&create_knows(1, 1, 2, 0.5)), Ok(()));
    assert_eq!(neighbors(&sm, 1, Direction::Forward), vec![(1, 2)]);
    assert_eq!(neighbors(&sm, 2, Direction::Backward), vec![(1, 1)]);
    assert_eq!(neighbors(&sm, 2, Direction::Forward), vec![]);
}

#[test]
fn edge_commands_leave_nodes_and_vectors_change_nothing() {
    let (mut sm, _) = create(test_catalog());
    sm.apply_command(&create_person(1, "Alice", 30)).unwrap();
    sm.apply_command(&create_person(2, "Bob", 25)).unwrap();
    sm.apply_command(&create_knows(1, 1, 2, 0.5)).unwrap();
    let vector = Command::UpsertVector {
        node_id: NodeId(1),
        column_id: ColumnId(0),
        vector: vec![1.5f32.to_bits()],
    };
    assert_eq!(sm.apply_command(&vector), Ok(()));
    sm.apply_command(&Command::DeleteEdge { edge_id: EdgeId(1) }).unwrap();
    assert!(sm.get_node(NodeId(1), LabelId(0)).is_some());
    assert!(sm.get_node(NodeId(2), LabelId(0)).is_some());
    assert_eq!(
        sm.apply_command(&Command::DeleteEdge { edge_id: EdgeId(1) }),
        Err(StorageError::EdgeNotFound { edge_id: EdgeId(1) })
    );
}

#[test]
fn replaying_commands_gives_the_same_database() {
    let mut log = Vec::new();
    for i in 0..6u64 {
        log.push(create_person(i, "X", i as i64));
    }
    for i in 0..5u64 {
        log.push(create_knows(i, i, i + 1, 0.5));
    }
    log.push(Command::DeleteEdge { edge_id: EdgeId(3) });
    log.push(Command::DeleteNode { node_id: NodeId(5) });

    let mut a = StorageManager::new(test_catalog());
    let mut b = StorageManager::new(test_catalog());
    for cmd in &log {
        a.apply_command(cmd).unwrap();
    }
    for cmd in &log[..7] {
        b.apply_command(cmd).unwrap();
    }
    for cmd in &log[7..] {
        b.apply_command(cmd).unwrap();
    }
    for i in 0..6 {
        assert_eq!(a.get_node(NodeId(i), LabelId(0)), b.get_node(NodeId(i), LabelId(0)));
        assert_eq!(neighbors(&a, i, Direction::Forward), neighbors(&b, i, Direction::Forward));
        assert_eq!(neighbors(&a, i, Direction::Backward), neighbors(&b, i, Direction::Backward));
    }
    assert_eq!(neighbors(&a, 3, Direction::Forward), vec![]);
    assert_eq!(neighbors(&a, 2, Direction::Forward), vec![(2, 3)]);
}

#[test]
fn a_file_without_a_header_is_refused() {
    let empty: Vec<Page> = Vec::new();
    assert_eq!(
        StorageManager::open(&empty).unwrap().err(),
        Some(OpenError::Unreadable(PageIdx(0)))
    );
    let blank = vec![Page::new()];
    assert_eq!(
        StorageManager::open(&blank).unwrap().err(),
        Some(OpenError::Storage(StorageError::CorruptHeader))
    );
}

#[test]
fn a_file_that_was_cut_is_refused() {
    let (mut sm, mut file) = create(test_catalog());
    sm.apply_command(&create_person(1, "Alice", 30)).unwrap();
    flush(&mut sm, &mut file);
    let last = file.pages.len() as u64 - 1;
    file.pages.pop();
    assert_eq!(
        StorageManager::open(&file.pages).unwrap().err(),
        Some(OpenError::Unreadable(PageIdx(last)))
    );
}

#[test]
fn flushing_to_a_file_without_a_header_is_refused() {
    let (mut sm, _) = create(test_catalog());
    assert_eq!(
        sm.flush(1, &Page::new()).unwrap().err(),
        Some(StorageError::CorruptHeader)
    );
}

#[test]
fn flushing_behind_too_many_pages_is_refused() {
    let (mut sm, file) = create(test_catalog());
    assert!(sm.flush(u64::MAX, &file.pages[0]).is_none());
}

/// A file of a header, a catalog block and one more page.
fn file_with_infos(catalog: &Catalog, infos: &[NodeGroupPageInfo], more: Page) -> Vec<Page> {
    let block = serialize_catalog_block(catalog, infos, &[]).unwrap().unwrap();
    assert_eq!(block.len(), 1);
    let mut header = DatabaseHeader::new([7u8; 16]);
    header.set_catalog_page_range(PageRange { start_page: PageIdx(1), num_pages: 1 });
    let mut file = vec![header.serialize()];
    file.extend(block);
    file.push(more);
    file
}

fn info(group: u64, start: u64) -> NodeGroupPageInfo {
    NodeGroupPageInfo {
        group_idx: NodeGroupIdx(group),
        page_range: PageRange { start_page: PageIdx(start), num_pages: 1 },
    }
}

#[test]
fn groups_of_no_table_are_not_read() {
    let infos = [info(0, u64::MAX)];
    let file = file_with_infos(&Catalog::default(), &infos, Page::new());
    assert!(StorageManager::open(&file).unwrap().unwrap().is_sound());
    let file = file_with_infos(&test_catalog(), &infos, Page::new());
    assert_eq!(
        StorageManager::open(&file).unwrap().err(),
        Some(OpenError::Unreadable(PageIdx(u64::MAX)))
    );
}

#[test]
fn a_damaged_group_comes_before_a_missing_page() {
    let infos = [info(0, 2), info(1, 9)];
    // A group of no chunks, then one whose chunk starts behind the end.
    let file = file_with_infos(&test_catalog(), &infos, Page::new());
    assert_eq!(
        StorageManager::open(&file).unwrap().err(),
        Some(OpenError::Unreadable(PageIdx(9)))
    );
    let mut damaged = vec![0u8; 28];
    damaged[20] = 1;
    damaged[25] = 0x20;
    let file = file_with_infos(&test_catalog(), &infos, Page::from_bytes(&damaged));
    assert_eq!(
        StorageManager::open(&file).unwrap().err(),
        Some(OpenError::Storage(StorageError::SerDe(
            "chunk offsets out of range: start=8220 end=4096 buf_len=4096".into()
        )))
    );
}
