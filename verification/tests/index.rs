use std::path::{Path, PathBuf};

use backy::bytes::Order;
use backy::error::Error;
use backy::index::{group_by_source, group_files, index_files};
use backy::index::{Contents, Entries, EntryPath, Found, Index, SourceListing, Sources};
use backy::pack::{container_name, decimal_string, pack};
use backy::{Entry, Source};

fn source(id: &str, is_file: bool) -> Source {
    Source { id: id.to_string(), is_file, path: format!("/data/{id}") }
}

fn path(text: &str) -> EntryPath {
    EntryPath::from_bytes(text.as_bytes().to_vec()).unwrap()
}

fn entry(id: &str, is_file: bool, text: &str, size: u64) -> Entry {
    Entry { source: source(id, is_file), path: path(text), size }
}

fn found(text: &str, is_file: bool, size: u64) -> Found {
    Found { path: path(text), is_file, size }
}

fn directory(id: &str, files: Vec<Found>) -> SourceListing {
    SourceListing { source: source(id, false), size: 4096, found: files }
}

fn file(id: &str, size: u64) -> SourceListing {
    SourceListing { source: source(id, true), size, found: Vec::new() }
}

fn shape(sources: &Sources) -> Vec<(String, bool, Vec<(String, u64)>)> {
    (0..sources.len())
        .map(|i| {
            let item = sources.get(i);
            let files = (0..item.entries.len())
                .map(|j| (item.entries.get(j).path.to_string(), item.entries.get(j).size))
                .collect();
            (item.source.id.clone(), matches!(item.entries, Entries::File(_)), files)
        })
        .collect()
}

fn files(list: &[(&str, u64)]) -> Vec<(String, u64)> {
    list.iter().map(|(n, s)| (n.to_string(), *s)).collect()
}

#[test]
fn entry_path_is_text() {
    assert_eq!(EntryPath::empty().as_str(), "");
    assert!(EntryPath::empty().is_empty());
    assert_eq!(EntryPath::empty().as_bytes(), b"");
    let p = path("dir/\u{e9}.txt");
    assert_eq!(p.as_str(), "dir/\u{e9}.txt");
    assert_eq!(p.as_bytes(), "dir/\u{e9}.txt".as_bytes());
    assert_eq!(p.to_string(), "dir/\u{e9}.txt");
    assert!(!p.is_empty());
    assert_eq!(p.clone().as_str(), p.as_str());
    assert_eq!(p.as_path(), Path::new("dir/\u{e9}.txt"));
}

#[test]
fn paths_and_sources_are_ordered() {
    assert_eq!(path("a").order(&path("b")), Order::Less);
    assert_eq!(path("a/b").order(&path("a")), Order::Greater);
    assert_eq!(path("").order(&path("")), Order::Equal);
    assert_eq!(path("B").order(&path("a")), Order::Less);
    let a = source("a", false);
    let b = source("b", true);
    let mut a_elsewhere = source("a", false);
    a_elsewhere.path = "/other/a".to_string();
    assert_eq!(a.order(&b), Order::Less);
    assert_eq!(b.order(&a), Order::Greater);
    assert_eq!(a.order(&a), Order::Equal);
    assert_eq!(a.order(&a_elsewhere), Order::Less);
    assert_eq!(a_elsewhere.order(&b), Order::Less);
}

#[test]
fn entry_path_rejects_invalid_utf8() {
    assert!(EntryPath::from_bytes(vec![b'a', 0xff]).is_none());
    assert!(EntryPath::from_bytes(vec![0xc3]).is_none());
    assert!(EntryPath::from_bytes(vec![0xed, 0xa0, 0x80]).is_none());
    assert_eq!(EntryPath::from_bytes(vec![0xc3, 0xa9]).unwrap().as_str(), "\u{e9}");
    assert_eq!(EntryPath::from_bytes(Vec::new()).unwrap().as_str(), "");
}

#[test]
fn entry_path_holds_the_text_of_a_path() {
    assert_eq!(EntryPath::from_path(Path::new("2024/a.jpg")).unwrap().as_str(), "2024/a.jpg");
    assert_eq!(EntryPath::from_path(Path::new("")).unwrap().as_str(), "");
    let path = EntryPath::from_path(Path::new("r\u{e9}sum\u{e9}")).unwrap();
    assert_eq!(path.as_path(), Path::new("r\u{e9}sum\u{e9}"));
    assert_eq!(path.as_path().to_str(), Some("r\u{e9}sum\u{e9}"));
}

#[test]
fn entry_path_is_relative_to_its_source() {
    let root = source("photos", false);
    let inside = EntryPath::new(&root, Path::new("/data/photos/2024/a.jpg")).unwrap();
    assert_eq!(inside.as_str(), "2024/a.jpg");
    assert_eq!(inside.in_source(&root), PathBuf::from("/data/photos/2024/a.jpg"));
    assert_eq!(EntryPath::new(&root, Path::new("/data/photos")).unwrap().as_str(), "");
    assert!(EntryPath::new(&root, Path::new("/data/other/a.jpg")).is_none());
    assert!(EntryPath::new(&root, Path::new("/data/photosx/a.jpg")).is_none());
    assert_eq!(EntryPath::new(&root, Path::new("/data/photos//2024/a.jpg")).unwrap().as_str(), "2024/a.jpg");
    let deep = EntryPath::new(&source("d", false), Path::new("/data/d/sub/a.txt")).unwrap();
    assert_eq!(deep.as_str(), "sub/a.txt");
    assert_eq!(deep.in_source(&source("d", false)), PathBuf::from("/data/d/sub/a.txt"));
    assert_eq!(deep.in_source(&source("d", false)).to_str(), Some("/data/d/sub/a.txt"));
    assert_eq!(EntryPath::empty().in_source(&source("f", true)), PathBuf::from("/data/f"));
}

#[test]
fn index_has_one_entry_for_a_file_and_one_for_each_regular_file() {
    let listings = vec![
        directory(
            "photos",
            vec![
                found("", false, 4096),
                found("2024", false, 4096),
                found("2024/b.jpg", true, 20),
                found("2024/a.jpg", true, 10),
                found("socket", false, 0),
                found("empty", true, 0),
            ],
        ),
        file("notes.txt", 5),
        directory("nothing", vec![found("", false, 4096)]),
    ];
    let (index, total) = index_files(&listings).unwrap();
    let got: Vec<(String, bool, String, u64)> = index
        .iter()
        .map(|e| (e.source.id.clone(), e.source.is_file, e.path.to_string(), e.size))
        .collect();
    let want: Vec<(String, bool, String, u64)> = [
        ("photos", false, "2024/b.jpg", 20),
        ("photos", false, "2024/a.jpg", 10),
        ("photos", false, "empty", 0),
        ("notes.txt", true, "", 5),
    ]
    .iter()
    .map(|(i, f, p, s)| (i.to_string(), *f, p.to_string(), *s))
    .collect();
    assert_eq!(got, want);
    // The total counts what lies below directories.
    assert_eq!(total, 30);
}

#[test]
fn index_of_nothing_is_empty() {
    assert_eq!(index_files(&Vec::new()).map(|(i, t)| (i.len(), t)), Ok((0, 0)));
}

#[test]
fn index_size_that_cannot_be_held_is_too_large() {
    let listings = vec![
        directory("a", vec![found("x", true, u64::MAX)]),
        directory("b", vec![found("y", true, 1)]),
    ];
    assert_eq!(index_files(&listings).err(), Some(Error::TooLarge));
    assert_eq!(Index::from_sources(&listings, None).err(), Some(Error::TooLarge));
    let within = vec![directory("a", vec![found("x", true, u64::MAX - 1), found("y", true, 1)])];
    assert_eq!(index_files(&within).map(|(_, t)| t), Ok(u64::MAX));
    let one_source = vec![directory("a", vec![found("x", true, u64::MAX), found("y", true, 1)])];
    assert_eq!(index_files(&one_source).err(), Some(Error::TooLarge));
    // Sizes of non-files and of file sources do not count.
    let uncounted = vec![directory("a", vec![found("x", true, u64::MAX), found("d", false, 9)]), file("f", 9)];
    assert_eq!(index_files(&uncounted).map(|(_, t)| t), Ok(u64::MAX));
}

#[test]
fn sources_are_grouped_in_order_of_id_and_path() {
    let sources = group_by_source(vec![
        entry("photos", false, "2024/b.jpg", 20),
        entry("notes.txt", true, "", 5),
        entry("photos", false, "2024/a.jpg", 10),
        entry("docs", false, "z", 30),
        entry("photos", false, "2023/z.jpg", 40),
        entry("docs", false, "Z", 31),
    ])
    .unwrap();
    let expected = vec![
        ("docs".to_string(), false, files(&[("Z", 31), ("z", 30)])),
        ("notes.txt".to_string(), true, files(&[("", 5)])),
        ("photos".to_string(), false, files(&[("2023/z.jpg", 40), ("2024/a.jpg", 10), ("2024/b.jpg", 20)])),
    ];
    assert_eq!(shape(&sources), expected);
    assert_eq!(Sources::new().len(), 0);
    assert_eq!(group_by_source(Vec::new()).unwrap().len(), 0);
}

#[test]
fn entries_in_conflict_are_rejected() {
    // The same path twice in one source.
    let twice = vec![entry("d", false, "a", 1), entry("d", false, "b", 1), entry("d", false, "a", 2)];
    assert_eq!(group_by_source(twice).err(), Some(Error::DuplicateEntry));
    // A file source has one entry.
    let two_files = vec![entry("f", true, "", 1), entry("f", true, "", 1)];
    assert_eq!(group_by_source(two_files).err(), Some(Error::DuplicateEntry));
    // One id for a file and a directory.
    let mixed = vec![entry("x", false, "a", 1), entry("x", true, "", 1)];
    assert_eq!(group_by_source(mixed).err(), Some(Error::DuplicateEntry));
    // One id for two roots.
    let mut other_root = entry("d", false, "b", 1);
    other_root.source.path = "/elsewhere/d".to_string();
    assert_eq!(
        group_by_source(vec![entry("d", false, "a", 1), other_root]).err(),
        Some(Error::DuplicateEntry)
    );
    // In groups too.
    let twice = vec![entry("d", false, "a", 1), entry("d", false, "a", 2)];
    assert_eq!(group_files(twice, 100).err(), Some(Error::DuplicateEntry));
}

#[test]
fn insert_keeps_sources_sorted_and_unchanged_on_conflict() {
    let mut sources = Sources::new();
    assert_eq!(sources.insert(entry("b", false, "y", 1)), Ok(()));
    assert_eq!(sources.insert(entry("a", true, "", 2)), Ok(()));
    assert_eq!(sources.insert(entry("b", false, "x", 3)), Ok(()));
    assert_eq!(sources.insert(entry("b", false, "x", 4)), Err(Error::DuplicateEntry));
    assert_eq!(sources.insert(entry("a", true, "", 2)), Err(Error::DuplicateEntry));
    let expected = vec![
        ("a".to_string(), true, files(&[("", 2)])),
        ("b".to_string(), false, files(&[("x", 3), ("y", 1)])),
    ];
    assert_eq!(shape(&sources), expected);
}

#[test]
fn grouped_index_groups_each_group_by_source() {
    let index = vec![
        entry("s1", false, "big", 5),
        entry("s2", false, "b", 2),
        entry("s1", false, "a", 2),
        entry("s2", false, "tiny", 1),
    ];
    let groups = group_files(index, 5).unwrap();
    assert_eq!(groups.len(), 2);
    assert_eq!(groups[0].size, 5);
    assert_eq!(shape(&groups[0].sources), vec![("s1".to_string(), false, files(&[("big", 5)]))]);
    assert_eq!(groups[1].size, 5);
    assert_eq!(
        shape(&groups[1].sources),
        vec![
            ("s1".to_string(), false, files(&[("a", 2)])),
            ("s2".to_string(), false, files(&[("b", 2), ("tiny", 1)])),
        ]
    );
}

#[test]
fn index_from_sources_is_simple_or_grouped() {
    let listings = vec![
        directory("d", vec![found("b", true, 2), found("a", true, 4), found("sub", false, 0)]),
        file("f", 7),
    ];
    let simple = Index::from_sources(&listings, None).unwrap();
    assert_eq!(simple.total_size(), 6);
    match simple.entries() {
        Contents::Simple(sources) => assert_eq!(
            shape(sources),
            vec![
                ("d".to_string(), false, files(&[("a", 4), ("b", 2)])),
                ("f".to_string(), true, files(&[("", 7)])),
            ]
        ),
        Contents::Grouped(_) => panic!("no cap was given"),
    }
    let grouped = Index::from_sources(&listings, Some(7)).unwrap();
    assert_eq!(grouped.total_size(), 6);
    match grouped.entries() {
        Contents::Grouped(groups) => {
            let sizes: Vec<u64> = groups.iter().map(|g| g.size).collect();
            assert_eq!(sizes, vec![7, 6]);
            assert_eq!(shape(&groups[0].sources), vec![("f".to_string(), true, files(&[("", 7)]))]);
            assert_eq!(
                shape(&groups[1].sources),
                vec![("d".to_string(), false, files(&[("a", 4), ("b", 2)]))]
            );
        },
        Contents::Simple(_) => panic!("a cap was given"),
    }
}

#[test]
fn container_names_count_from_one() {
    assert_eq!(container_name(0), "1.bky");
    assert_eq!(container_name(1), "2.bky");
    assert_eq!(container_name(8), "9.bky");
    assert_eq!(container_name(9), "10.bky");
    assert_eq!(container_name(99), "100.bky");
    assert_eq!(container_name(1_234_566), "1234567.bky");
    assert_eq!(decimal_string(0), "0");
    assert_eq!(decimal_string(usize::MAX), usize::MAX.to_string());
}

#[test]
fn pack_plans_one_container_for_each_group() {
    let gib = 1u64 << 30;
    let listings = vec![
        directory("s1", vec![found("x", true, 3 * gib)]),
        directory("s2", vec![found("y", true, 2 * gib)]),
    ];
    let plan = pack(&listings, Some(4 * gib)).unwrap();
    assert!(!plan.is_single_source);
    assert_eq!(plan.names, vec!["1.bky".to_string(), "2.bky".to_string()]);
    assert_eq!(plan.index.total_size(), 5 * gib);
    match plan.index.entries() {
        Contents::Grouped(groups) => {
            assert_eq!(groups.len(), 2);
            assert_eq!(shape(&groups[0].sources), vec![("s1".to_string(), false, files(&[("x", 3 * gib)]))]);
            assert_eq!(shape(&groups[1].sources), vec![("s2".to_string(), false, files(&[("y", 2 * gib)]))]);
        },
        Contents::Simple(_) => panic!("a cap was given"),
    }
}

#[test]
fn pack_of_no_sources_plans_an_empty_container() {
    let plan = pack(&Vec::new(), None).unwrap();
    assert!(!plan.is_single_source);
    assert!(plan.names.is_empty());
    assert_eq!(plan.index.total_size(), 0);
    match plan.index.entries() {
        Contents::Simple(sources) => assert_eq!(sources.len(), 0),
        Contents::Grouped(_) => panic!("no cap was given"),
    }
    let grouped = pack(&Vec::new(), Some(10)).unwrap();
    assert!(grouped.names.is_empty());
}

#[test]
fn pack_without_cap_plans_one_unnamed_container() {
    let plan = pack(&vec![file("hello.txt", 6)], None).unwrap();
    assert!(plan.is_single_source);
    assert!(plan.names.is_empty());
    assert!(matches!(plan.index.entries(), Contents::Simple(_)));
    let two = pack(&vec![file("a", 1), file("b", 1)], None).unwrap();
    assert!(!two.is_single_source);
    assert_eq!(pack(&vec![file("a", 1), file("a", 1)], None).err(), Some(Error::DuplicateEntry));
}
