use std::collections::HashSet;

use sqlite_riir::page::{Page, ParsedPage};
use sqlite_riir::pager::Pager;
use sqlite_riir::record::{OwnedValue, Value};
use sqlite_riir::schema::Schema;
use sqlite_riir::table_iter::{Step, TableIter};
use sqlite_riir::DbError;

/// Encodes `n` as a varint, most significant group first.
fn varint(n: u64) -> Vec<u8> {
    let mut groups = vec![(n & 0x7f) as u8];
    let mut rest = n >> 7;
    while rest > 0 {
        groups.push((rest & 0x7f) as u8 | 0x80);
        rest >>= 7;
    }
    groups.reverse();
    groups
}

/// A column of a record to build: a type code and its body bytes.
enum Col {
    Int(i64),
    Text(&'static str),
    Owned(String),
}

fn record(cols: &[Col]) -> Vec<u8> {
    let mut codes = Vec::new();
    let mut body = Vec::new();
    for col in cols {
        match col {
            Col::Int(n) if (-128..128).contains(n) => {
                codes.extend(varint(1));
                body.push(*n as i8 as u8);
            }
            Col::Int(n) => {
                codes.extend(varint(2));
                body.extend_from_slice(&(*n as i16).to_be_bytes());
            }
            Col::Text(s) => {
                codes.extend(varint(13 + 2 * s.len() as u64));
                body.extend_from_slice(s.as_bytes());
            }
            Col::Owned(s) => {
                codes.extend(varint(13 + 2 * s.len() as u64));
                body.extend_from_slice(s.as_bytes());
            }
        }
    }
    let mut payload = varint(codes.len() as u64 + 1);
    payload.extend(codes);
    payload.extend(body);
    payload
}

fn schema_row(name: &str, root: i64) -> Vec<u8> {
    record(&[
        Col::Text("table"),
        Col::Owned(name.to_owned()),
        Col::Owned(name.to_owned()),
        Col::Int(root),
        Col::Owned(format!("CREATE TABLE {name}(x)")),
    ])
}

fn db_header(page_size_word: u16, page_count: u32) -> Vec<u8> {
    let mut h = vec![0u8; 100];
    h[..16].copy_from_slice(b"SQLite format 3\0");
    h[16..18].copy_from_slice(&page_size_word.to_be_bytes());
    h[28..32].copy_from_slice(&page_count.to_be_bytes());
    h[56..60].copy_from_slice(&1u32.to_be_bytes());
    h
}

/// Lays out a B-tree page: header (after the database header on page 1), cell
/// pointers, and cells packed at the end of the page.
fn btree_page(page_size: usize, first: bool, kind: u8, rightmost: Option<u32>, cells: &[Vec<u8>]) -> Vec<u8> {
    let mut page = vec![0u8; page_size];
    let h = if first { 100 } else { 0 };
    let mut end = page_size;
    let mut pointers = Vec::new();
    for cell in cells {
        end -= cell.len();
        page[end..end + cell.len()].copy_from_slice(cell);
        pointers.push(end as u16);
    }
    page[h] = kind;
    page[h + 3..h + 5].copy_from_slice(&(cells.len() as u16).to_be_bytes());
    page[h + 5..h + 7].copy_from_slice(&((end % 65536) as u16).to_be_bytes());
    let mut p = h + 8;
    if let Some(child) = rightmost {
        page[h + 8..h + 12].copy_from_slice(&child.to_be_bytes());
        p += 4;
    }
    for ptr in pointers {
        page[p..p + 2].copy_from_slice(&ptr.to_be_bytes());
        p += 2;
    }
    page
}

fn leaf_cell(row_id: u64, payload: &[u8]) -> Vec<u8> {
    let mut cell = varint(payload.len() as u64);
    cell.extend(varint(row_id));
    cell.extend_from_slice(payload);
    cell
}

fn internal_cell(child: u32, key: u64) -> Vec<u8> {
    let mut cell = child.to_be_bytes().to_vec();
    cell.extend(varint(key));
    cell
}

/// A database image from its pages; the database header is written over page 1.
fn image(page_size_word: u16, pages: Vec<Vec<u8>>) -> Vec<u8> {
    let header = db_header(page_size_word, pages.len() as u32);
    let mut bytes: Vec<u8> = pages.concat();
    bytes[..100].copy_from_slice(&header);
    bytes
}

/// The minimal database: tables t1 and t2, both empty, rooted at pages 2 and 3.
fn minimal_db() -> Vec<u8> {
    let ps = 512;
    let page1 = btree_page(ps, true, 0x0d, None, &[
        leaf_cell(1, &schema_row("t1", 2)),
        leaf_cell(2, &schema_row("t2", 3)),
    ]);
    let empty = btree_page(ps, false, 0x0d, None, &[]);
    image(512, vec![page1, empty.clone(), empty])
}

/// A database of 1024 empty tables whose schema table is an internal root over
/// leaves.
fn many_tables_db() -> Vec<u8> {
    let ps = 1024;
    let per_leaf = 16;
    let n_leaves = 1024 / per_leaf;
    let first_table_page = 2 + n_leaves;
    let mut leaves = Vec::new();
    let mut keys = Vec::new();
    for leaf in 0..n_leaves {
        let mut cells = Vec::new();
        for k in 0..per_leaf {
            let i = leaf * per_leaf + k;
            let row_id = i as u64 + 1;
            let name = format!("t{i:04}");
            cells.push(leaf_cell(row_id, &schema_row(&name, (first_table_page + i) as i64)));
        }
        keys.push(((leaf + 1) * per_leaf) as u64);
        leaves.push(btree_page(ps, false, 0x0d, None, &cells));
    }
    let inner: Vec<Vec<u8>> = (0..n_leaves - 1).map(|l| internal_cell(2 + l as u32, keys[l])).collect();
    let root = btree_page(ps, true, 0x05, Some(1 + n_leaves as u32), &inner);
    let mut pages = vec![root];
    pages.extend(leaves);
    for _ in 0..1024 {
        pages.push(btree_page(ps, false, 0x0d, None, &[]));
    }
    image(1024, pages)
}

fn open(image: &[u8]) -> Pager {
    Pager::new(&image[..100], image.len() as u64).expect("database opens")
}

/// Loads page `n` of the image into the pager, as a file reader would.
fn load(image: &[u8], pager: &mut Pager, n: usize) -> Result<(), DbError> {
    if let Some(offset) = pager.page_to_load(n)? {
        let offset = offset as usize;
        pager.load_page(n, image[offset..offset + pager.page_size()].to_vec())?;
    }
    Ok(())
}

/// Runs a walk to its end, loading pages on demand; also reports the deepest stack.
fn scan(image: &[u8], pager: &mut Pager, mut it: TableIter) -> Result<(Vec<Vec<OwnedValue>>, usize), DbError> {
    let mut rows = Vec::new();
    let mut depth = it.depth();
    loop {
        match it.next(pager) {
            Step::Row(row) => rows.push(row),
            Step::Moved => {}
            Step::NeedPage(n) => load(image, pager, n)?,
            Step::Done => return Ok((rows, depth)),
            Step::Failed(e) => return Err(e),
        }
        depth = depth.max(it.depth());
    }
}

fn read_schema(image: &[u8], pager: &mut Pager) -> Schema {
    let mut schema = Schema::new();
    let it = TableIter::new(&schema, b"sqlite_schema").expect("schema table is known");
    let (rows, _) = scan(image, pager, it).expect("schema scans");
    for row in &rows {
        schema.add_row(row);
    }
    schema
}

fn row_count(image: &[u8], pager: &mut Pager, schema: &Schema, name: &str) -> usize {
    let it = TableIter::new(schema, name.as_bytes()).expect("Failed to make iterator");
    scan(image, pager, it).expect("table scans").0.len()
}

#[test]
fn test_table_root_page_indices() {
    let image = minimal_db();
    let mut pager = open(&image);
    let schema = read_schema(&image, &mut pager);
    let tables: HashSet<(String, usize)> = schema
        .tables()
        .iter()
        .map(|(name, root)| (String::from_utf8(name.clone()).unwrap(), *root))
        .collect();
    assert_eq!(
        tables,
        HashSet::from_iter([
            ("sqlite_schema".to_owned(), 1),
            ("t1".to_owned(), 2),
            ("t2".to_owned(), 3),
        ]),
    );
    let names: HashSet<String> =
        schema.table_names().into_iter().map(|n| String::from_utf8(n).unwrap()).collect();
    assert_eq!(names, HashSet::from_iter(["sqlite_schema".to_owned(), "t1".to_owned(), "t2".to_owned()]));
}

#[test]
fn test_with_leaf_root() {
    let image = minimal_db();
    let mut pager = open(&image);
    let schema = read_schema(&image, &mut pager);
    assert_eq!(row_count(&image, &mut pager, &schema, "sqlite_schema"), 2);
    assert_eq!(row_count(&image, &mut pager, &schema, "t1"), 0);
    assert_eq!(row_count(&image, &mut pager, &schema, "t2"), 0);
}

#[test]
fn test_two_layers_tree() {
    let image = many_tables_db();
    let mut pager = open(&image);
    let schema = Schema::new();
    let it = TableIter::new(&schema, b"sqlite_schema").expect("Failed to make iterator");
    let (rows, depth) = scan(&image, &mut pager, it).expect("schema scans");
    assert_eq!(rows.len(), 1024);
    assert_eq!(depth, 2);
}

#[test]
fn full_scan_yields_rows_in_key_order() {
    let image = many_tables_db();
    let mut pager = open(&image);
    let schema = read_schema(&image, &mut pager);
    assert_eq!(schema.tables().len(), 1025);
    let names: Vec<String> = schema.table_names()[1..]
        .iter()
        .map(|n| String::from_utf8(n.clone()).unwrap())
        .collect();
    let expected: Vec<String> = (0..1024).map(|i| format!("t{i:04}")).collect();
    assert_eq!(names, expected);
    // Root pages above 127 are stored as int16.
    assert_eq!(schema.root_page(b"t1023"), Ok(66 + 1023));
    assert_eq!(row_count(&image, &mut pager, &schema, "t0500"), 0);
}

#[test]
fn schema_rows_decode() {
    let image = minimal_db();
    let mut pager = open(&image);
    let it = TableIter::new(&Schema::new(), b"sqlite_master").expect("schema table is known");
    let (rows, depth) = scan(&image, &mut pager, it).expect("schema scans");
    assert_eq!(depth, 1);
    assert_eq!(
        rows[0],
        vec![
            Value::String(b"table".to_vec()),
            Value::String(b"t1".to_vec()),
            Value::String(b"t1".to_vec()),
            Value::I8(2),
            Value::String(b"CREATE TABLE t1(x)".to_vec()),
        ]
    );
}

#[test]
fn unknown_table() {
    let image = minimal_db();
    let mut pager = open(&image);
    let schema = read_schema(&image, &mut pager);
    assert!(matches!(TableIter::new(&schema, b"t3"), Err(DbError::UnknownTable)));
}

#[test]
fn page_size_word_zero_means_65536() {
    let page1 = btree_page(65536, true, 0x0d, None, &[leaf_cell(1, &schema_row("t1", 1))]);
    let image = image(0, vec![page1]);
    let mut pager = open(&image);
    assert_eq!(pager.page_size(), 65536);
    assert_eq!(pager.page_count(), 1);
    load(&image, &mut pager, 1).expect("page loads");
    let page = pager.read_page(1).expect("page reads");
    assert_eq!(page.bytes().len(), 65536);
    assert!(matches!(page.parse(), ParsedPage::BTreeTableLeaf(_)));
    let schema = read_schema(&image, &mut pager);
    assert_eq!(schema.root_page(b"t1"), Ok(1));
}

#[test]
fn malformed_magic() {
    let mut image = minimal_db();
    image[0] = b's';
    assert!(matches!(Pager::new(&image[..100], image.len() as u64), Err(DbError::FormatMagic)));
    assert!(matches!(Pager::new(&image[..50], image.len() as u64), Err(DbError::FormatTruncated)));
}

#[test]
fn header_errors() {
    let image = minimal_db();
    assert!(matches!(Pager::new(&image[..100], image.len() as u64 - 1), Err(DbError::FormatHeader)));
    let mut bad = image.clone();
    bad[16..18].copy_from_slice(&300u16.to_be_bytes());
    assert!(matches!(Pager::new(&bad[..100], bad.len() as u64), Err(DbError::FormatHeader)));
    let mut bad = image.clone();
    bad[56..60].copy_from_slice(&4u32.to_be_bytes());
    assert!(matches!(Pager::new(&bad[..100], bad.len() as u64), Err(DbError::FormatHeader)));
}

#[test]
fn file_length_is_page_size_times_page_count() {
    let image = minimal_db();
    let pager = open(&image);
    assert_eq!(pager.page_size() * pager.page_count(), image.len());
}

#[test]
fn pager_caches_pages() {
    let image = minimal_db();
    let mut pager = open(&image);
    assert!(matches!(pager.read_page(2), Err(DbError::NotLoaded)));
    assert_eq!(pager.page_to_load(2), Ok(Some(512)));
    assert_eq!(pager.page_to_load(0), Err(DbError::Bounds));
    assert_eq!(pager.page_to_load(4), Err(DbError::Bounds));
    assert!(matches!(pager.read_page(4), Err(DbError::Bounds)));
    assert_eq!(pager.load_page(2, vec![0; 10]), Err(DbError::Io));
    load(&image, &mut pager, 2).expect("page loads");
    assert_eq!(pager.page_to_load(2), Ok(None));
    // A cached page keeps its bytes.
    assert_eq!(pager.load_page(2, vec![0xee; 512]), Ok(()));
    let first = pager.read_page(2).expect("page reads");
    let second = pager.read_page(2).expect("page reads");
    assert_eq!(first.bytes().len(), 512);
    assert_eq!(first.bytes(), second.bytes());
    assert_eq!(first.bytes(), &image[512..1024]);
    match (first.parse(), second.parse()) {
        (ParsedPage::BTreeTableLeaf(a), ParsedPage::BTreeTableLeaf(b)) => {
            assert_eq!(a.num_cells(), 0);
            assert_eq!(b.num_cells(), 0);
        }
        _ => panic!("page 2 is a leaf"),
    }
}

#[test]
fn page_checks() {
    let image = minimal_db();
    let page1 = &image[..512];
    let page = Page::new(page1).expect("page 1 checks");
    match page.parse() {
        ParsedPage::BTreeTableLeaf(leaf) => {
            assert_eq!(leaf.num_cells(), 2);
            let cells = leaf.cells();
            assert_eq!(cells[0].row_id(), 1);
            assert_eq!(cells[1].row_id(), 2);
            assert_eq!(cells[1].payload().value_iter()[1], Value::String(&b"t2"[..]));
        }
        _ => panic!("page 1 is a leaf"),
    }
    // A cell pointer below the cell content start.
    let mut bad = page1.to_vec();
    let ptr = u16::from_be_bytes([bad[108], bad[109]]);
    bad[105..107].copy_from_slice(&(ptr + 1).to_be_bytes());
    assert!(matches!(Page::new(&bad), Err(DbError::Bounds)));
    // An unknown page type.
    let mut bad = page1.to_vec();
    bad[100] = 0x02;
    assert!(matches!(Page::new(&bad), Err(DbError::UnsupportedPageType(0x02))));
}

#[test]
fn internal_page_cells() {
    let image = many_tables_db();
    let page = Page::new(&image[..1024]).expect("root checks");
    match page.parse() {
        ParsedPage::BTreeTableInternal(internal) => {
            assert_eq!(internal.num_cells(), 63);
            assert_eq!(internal.rightmost_child_idx(), 65);
            let cells = internal.cells();
            assert_eq!(cells[0].left_child_page, 2);
            assert_eq!(cells[0].key, 16);
            assert_eq!(cells[62].left_child_page, 64);
            assert_eq!(cells[62].key, 1008);
        }
        _ => panic!("root is internal"),
    }
}

#[test]
fn cell_pointers_lie_in_the_content_area() {
    let image = many_tables_db();
    for page_idx in 0..66 {
        let bytes = &image[page_idx * 1024..(page_idx + 1) * 1024];
        let h = if page_idx == 0 { 100 } else { 0 };
        let internal = bytes[h] == 0x05;
        let count = u16::from_be_bytes([bytes[h + 3], bytes[h + 4]]) as usize;
        let content_start = u16::from_be_bytes([bytes[h + 5], bytes[h + 6]]) as usize;
        let array = h + if internal { 12 } else { 8 };
        let mut cell_bytes = 0;
        for i in 0..count {
            let p = u16::from_be_bytes([bytes[array + 2 * i], bytes[array + 2 * i + 1]]) as usize;
            assert!(p >= content_start);
            cell_bytes += if internal {
                let (_, end) = sqlite_riir::parse_varint(bytes, p + 4).unwrap();
                end - p
            } else {
                let (len, after_len) = sqlite_riir::parse_varint(bytes, p).unwrap();
                let (_, after_id) = sqlite_riir::parse_varint(bytes, after_len).unwrap();
                after_id + len as usize - p
            };
        }
        assert!(cell_bytes <= 1024 - array - 2 * count);
        assert!(Page::new(bytes).is_ok());
    }
}
