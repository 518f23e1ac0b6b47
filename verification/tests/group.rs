use backy::group::{create_groups, reversed, sort_entries, Group};
use backy::index::EntryPath;
use backy::{Entry, Source};

const GIB: u64 = 1 << 30;

fn entry(id: &str, name: &str, size: u64) -> Entry {
    Entry {
        source: Source { id: id.to_string(), is_file: false, path: format!("/{id}") },
        path: EntryPath::from_bytes(name.as_bytes().to_vec()).unwrap(),
        size,
    }
}

fn entries(sizes: &[u64]) -> Vec<Entry> {
    sizes.iter().enumerate().map(|(i, size)| entry("s", &format!("f{i}"), *size)).collect()
}

fn shape(groups: &[Group]) -> Vec<(u64, Vec<String>)> {
    groups
        .iter()
        .map(|g| (g.size, g.entries.iter().map(|e| e.path.to_string()).collect()))
        .collect()
}

fn names(list: &[&str]) -> Vec<String> {
    list.iter().map(|n| n.to_string()).collect()
}

#[test]
fn sort_is_descending_and_stable() {
    let sorted = sort_entries(entries(&[3, 9, 3, 1, 9, 3, 0]));
    let order: Vec<(u64, String)> = sorted.iter().map(|e| (e.size, e.path.to_string())).collect();
    let expected: Vec<(u64, String)> =
        [(9, "f1"), (9, "f4"), (3, "f0"), (3, "f2"), (3, "f5"), (1, "f3"), (0, "f6")]
            .iter()
            .map(|(s, n)| (*s, n.to_string()))
            .collect();
    assert_eq!(order, expected);
    assert!(sort_entries(Vec::new()).is_empty());
    assert_eq!(sort_entries(entries(&[5])).len(), 1);
}

#[test]
fn sort_agrees_with_std_stable_sort() {
    let sizes: Vec<u64> = (0..500u64).map(|i| (i * 7919 + 13) % 37).collect();
    let sorted = sort_entries(entries(&sizes));
    let mut expected: Vec<(u64, usize)> = sizes.iter().enumerate().map(|(i, s)| (*s, i)).collect();
    expected.sort_by(|l, r| r.0.cmp(&l.0));
    let got: Vec<(u64, String)> = sorted.iter().map(|e| (e.size, e.path.to_string())).collect();
    let want: Vec<(u64, String)> = expected.iter().map(|(s, i)| (*s, format!("f{i}"))).collect();
    assert_eq!(got, want);
}

#[test]
fn reversed_turns_the_order() {
    assert_eq!(reversed(vec![1, 2, 3]), vec![3, 2, 1]);
    assert_eq!(reversed(Vec::<u8>::new()), Vec::<u8>::new());
}

#[test]
fn first_fit_with_reordering() {
    let groups = create_groups(entries(&[1, 2, 3, 4, 5]), 6);
    // 5 | 4 | 3, then 2 joins 4 and the group moves to the front, then 1 joins 5.
    let expected = vec![(6, names(&["f3", "f1"])), (6, names(&["f4", "f0"])), (3, names(&["f2"]))];
    assert_eq!(shape(&groups), expected);
}

#[test]
fn grown_group_goes_behind_groups_of_its_size() {
    // 6 | 6 | 4, then 2 joins 4: it is now 6 and stays behind the other sixes.
    let groups = create_groups(entries(&[6, 6, 4, 2]), 6);
    let expected = vec![(6, names(&["f0"])), (6, names(&["f1"])), (6, names(&["f2", "f3"]))];
    assert_eq!(shape(&groups), expected);
    // 5 | 3 | 3, then 2 joins the first group of 3 and passes only the other.
    let groups = create_groups(entries(&[5, 3, 3, 2]), 5);
    let expected = vec![(5, names(&["f0"])), (5, names(&["f1", "f3"])), (3, names(&["f2"]))];
    assert_eq!(shape(&groups), expected);
}

#[test]
fn oversized_entry_gets_its_own_group() {
    let groups = create_groups(entries(&[10, 2, 50, 3]), 5);
    let expected = vec![(50, names(&["f2"])), (10, names(&["f0"])), (5, names(&["f3", "f1"]))];
    assert_eq!(shape(&groups), expected);
}

#[test]
fn nothing_to_pack_gives_no_groups() {
    assert!(create_groups(Vec::new(), 100).is_empty());
}

#[test]
fn zero_cap_puts_every_entry_alone_but_the_empty_ones() {
    let groups = create_groups(entries(&[1, 0, 1, 0]), 0);
    let expected = vec![(1, names(&["f0"])), (1, names(&["f2"])), (0, names(&["f1", "f3"]))];
    assert_eq!(shape(&groups), expected);
}

#[test]
fn sizes_near_the_top_do_not_overflow() {
    let groups = create_groups(entries(&[u64::MAX, u64::MAX, 1]), u64::MAX);
    let expected =
        vec![(u64::MAX, names(&["f0"])), (u64::MAX, names(&["f1"])), (1, names(&["f2"]))];
    assert_eq!(shape(&groups), expected);
}

#[test]
fn multi_source_grouped() {
    let index = vec![entry("s1", "x", 3 * GIB), entry("s2", "y", 2 * GIB)];
    let groups = create_groups(index, 4 * GIB);
    assert_eq!(groups.len(), 2);
    assert_eq!(groups[0].size, 3 * GIB);
    assert_eq!(groups[0].entries[0].source.id, "s1");
    assert_eq!(groups[0].entries[0].path.as_str(), "x");
    assert_eq!(groups[1].size, 2 * GIB);
    assert_eq!(groups[1].entries[0].source.id, "s2");
    assert_eq!(groups[1].entries[0].path.as_str(), "y");
}

#[test]
fn every_group_is_within_the_cap_or_one_oversized_entry() {
    for (seed, cap) in [(1u64, 100u64), (2, 1), (3, 37), (4, 250), (5, 1000)] {
        let sizes: Vec<u64> = (0..200u64).map(|i| (i * 2654435761 + seed * 97) % 120).collect();
        let groups = create_groups(entries(&sizes), cap);
        let mut seen = Vec::new();
        for group in &groups {
            let sum: u64 = group.entries.iter().map(|e| e.size).sum();
            assert_eq!(group.size, sum);
            assert!(!group.entries.is_empty());
            assert!(group.size <= cap || (group.entries.len() == 1 && group.entries[0].size > cap));
            seen.extend(group.entries.iter().map(|e| e.path.to_string()));
        }
        // Every entry is in exactly one group.
        seen.sort();
        let mut all: Vec<String> = (0..200).map(|i| format!("f{i}")).collect();
        all.sort();
        assert_eq!(seen, all);
        // The groups descend by size.
        for pair in groups.windows(2) {
            assert!(pair[0].size >= pair[1].size);
        }
    }
}

#[test]
fn grouping_is_a_function_of_its_input() {
    let sizes: Vec<u64> = (0..300u64).map(|i| (i * 48271) % 91).collect();
    let first = create_groups(entries(&sizes), 200);
    let second = create_groups(entries(&sizes), 200);
    assert_eq!(shape(&first), shape(&second));
    let other_cap = create_groups(entries(&sizes), 201);
    assert_ne!(shape(&first), shape(&other_cap));
}
