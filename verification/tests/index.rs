use pak::artifact::{PakIndexSlot, PakPageSlot};
use pak::builder::lay_out;
use pak::wire::{put_counted, to_bytes};
use pak::{
    Pak, PakBuilder, PakError, PakMeta, PakPointerSet, PakSearch, PakSource, PakTree,
    PakTreeBuilder, PakTreePage, PakTreePageEntry, PakTypedPointer, PakUntypedPointer,
    PakValue,
};
use std::collections::VecDeque;

fn meta() -> PakMeta {
    PakMeta {
        name: String::new(),
        version: "1.0".to_string(),
        description: String::new(),
        author: String::new(),
    }
}

fn pointer_for(key: u64) -> PakTypedPointer {
    PakTypedPointer::new(key * 100, 1, "Key")
}

fn tree_of(power: u32, keys: &[u64]) -> PakTreeBuilder {
    let mut tree = PakTreeBuilder::new(power);
    for key in keys {
        tree.access().insert(PakValue::Uint(*key), pointer_for(*key));
    }
    tree
}

fn persisted(tree: PakTreeBuilder) -> Pak {
    let mut builder = PakBuilder::new();
    let pointer = tree.into_pak(&mut builder).unwrap();
    let directory = vec![PakIndexSlot { key: "k".to_string(), pointer: pointer.as_untyped() }];
    let (bytes, _) = lay_out(&meta(), &directory, &builder.vault).unwrap();
    Pak::new(PakSource::new(bytes)).unwrap()
}

fn with_pages(pages: Vec<(usize, PakTreePage)>) -> Pak {
    let mut vault = Vec::new();
    let mut lines = Vec::new();
    for (index, page) in pages {
        let bytes = to_bytes(&page);
        lines.push(PakPageSlot {
            index,
            pointer: PakUntypedPointer::new(vault.len() as u64, bytes.len() as u64),
        });
        vault.extend(bytes);
    }
    let mut table = Vec::new();
    put_counted(&mut table, &lines);
    let pointer = PakUntypedPointer::new(vault.len() as u64, table.len() as u64);
    vault.extend(table);
    let directory = vec![PakIndexSlot { key: "k".to_string(), pointer }];
    let (bytes, _) = lay_out(&meta(), &directory, &vault).unwrap();
    Pak::new(PakSource::new(bytes)).unwrap()
}

fn keys_of(set: &PakPointerSet) -> Vec<u64> {
    let mut keys: Vec<u64> = set.items.iter().map(|p| p.offset / 100).collect();
    keys.sort();
    keys
}

fn page_keys(page: &PakTreePage) -> Vec<u64> {
    page.values.iter().map(|e| e.key.as_u64().unwrap()).collect()
}

const SCENARIO: [u64; 10] = [10, 20, 30, 40, 25, 5, 15, 35, 45, 46];

#[test]
fn small_pages_split_as_described() {
    let tree = tree_of(2, &SCENARIO);
    assert_eq!(tree.max_size, 4);
    assert_eq!(tree.pages.len(), 3);
    assert_eq!(page_keys(&tree.pages[0]), vec![35, 40, 45, 46]);
    assert_eq!(page_keys(&tree.pages[1]), vec![5, 10, 15, 20]);
    assert_eq!(page_keys(&tree.pages[2]), vec![25, 30]);
    assert_eq!(tree.pages[0].values[0].previous, Some(2));
    assert_eq!(tree.pages[2].values[0].previous, Some(1));
    assert_eq!(tree.pages[1].values[0].previous, None);
    for page in &tree.pages {
        assert!(page.values.len() <= 4);
        assert!(page.next.is_none());
        for pair in page_keys(page).windows(2) {
            assert!(pair[0] < pair[1]);
        }
    }
}

#[test]
fn first_split_puts_the_median_in_front() {
    let tree = tree_of(2, &[10, 20, 30, 40, 25]);
    assert_eq!(tree.pages.len(), 2);
    assert_eq!(page_keys(&tree.pages[0]), vec![25, 30, 40]);
    assert_eq!(page_keys(&tree.pages[1]), vec![10, 20]);
    assert_eq!(tree.pages[0].values[0].previous, Some(1));
}

#[test]
fn persisted_small_tree_answers_like_a_sorted_list() {
    let pak = persisted(tree_of(2, &SCENARIO));
    let tree = PakTree::new(&pak, "k").unwrap();
    assert_eq!(tree.meta.pages.len(), 3);
    assert_eq!(keys_of(&tree.get(&PakValue::Uint(25)).unwrap()), vec![25]);
    assert_eq!(keys_of(&tree.get_less(&PakValue::Uint(20)).unwrap()), vec![5, 10, 15]);
    assert_eq!(keys_of(&tree.get_greater_eq(&PakValue::Uint(40)).unwrap()), vec![40, 45, 46]);
    let mut all = SCENARIO.to_vec();
    all.sort();
    assert_eq!(keys_of(&tree.get_greater_eq(&PakValue::Uint(0)).unwrap()), all);
    assert_eq!(keys_of(&tree.get_less_eq(&PakValue::Uint(100)).unwrap()), all);
    assert_eq!(keys_of(&tree.get_greater(&PakValue::Uint(46)).unwrap()), Vec::<u64>::new());
    assert_eq!(keys_of(&tree.get_less(&PakValue::Uint(5)).unwrap()), Vec::<u64>::new());
    assert_eq!(keys_of(&tree.get(&PakValue::Uint(26)).unwrap()), Vec::<u64>::new());
    for probe in 0..50u64 {
        let value = PakValue::Uint(probe);
        let less: Vec<u64> = all.iter().copied().filter(|k| *k < probe).collect();
        let less_eq: Vec<u64> = all.iter().copied().filter(|k| *k <= probe).collect();
        let greater: Vec<u64> = all.iter().copied().filter(|k| *k > probe).collect();
        let greater_eq: Vec<u64> = all.iter().copied().filter(|k| *k >= probe).collect();
        let equal: Vec<u64> = all.iter().copied().filter(|k| *k == probe).collect();
        assert_eq!(keys_of(&tree.get_less(&value).unwrap()), less);
        assert_eq!(keys_of(&tree.get_less_eq(&value).unwrap()), less_eq);
        assert_eq!(keys_of(&tree.get_greater(&value).unwrap()), greater);
        assert_eq!(keys_of(&tree.get_greater_eq(&value).unwrap()), greater_eq);
        assert_eq!(keys_of(&tree.get(&value).unwrap()), equal);
        assert_eq!(keys_of(&tree.find(&value, PakSearch::Equal).unwrap()), equal);
    }
}

#[test]
fn many_keys_in_any_order_are_all_found() {
    let mut keys: Vec<u64> = Vec::new();
    let mut x: u64 = 12345;
    for _ in 0..700 {
        x = x.wrapping_mul(6364136223846793005).wrapping_add(1442695040888963407);
        keys.push((x >> 33) % 1000);
    }
    for power in [1u32, 2, 3, 6] {
        let tree = tree_of(power, &keys);
        for page in &tree.pages {
            assert!(page.values.len() <= tree.max_size);
            for pair in page_keys(page).windows(2) {
                assert!(pair[0] < pair[1]);
            }
        }
        let pak = persisted(tree);
        let tree = PakTree::new(&pak, "k").unwrap();
        let mut all = keys.clone();
        all.sort();
        all.dedup();
        for probe in [0u64, 1, 17, 250, 499, 500, 731, 999, 1000] {
            let value = PakValue::Uint(probe);
            let less: Vec<u64> = all.iter().copied().filter(|k| *k < probe).collect();
            let greater_eq: Vec<u64> = all.iter().copied().filter(|k| *k >= probe).collect();
            let equal: Vec<u64> = all.iter().copied().filter(|k| *k == probe).collect();
            assert_eq!(keys_of(&tree.get_less(&value).unwrap()), less);
            assert_eq!(keys_of(&tree.get_greater_eq(&value).unwrap()), greater_eq);
            assert_eq!(keys_of(&tree.get(&value).unwrap()), equal);
        }
    }
}

#[test]
fn pointers_of_one_key_share_an_entry() {
    let mut tree = PakTreeBuilder::new(6);
    let first = PakTypedPointer::new(0, 10, "T");
    let second = PakTypedPointer::new(10, 10, "T");
    tree.access().insert(PakValue::Uint(7), first.clone());
    tree.access().insert(PakValue::Uint(7), second.clone());
    assert_eq!(tree.pages.len(), 1);
    assert_eq!(tree.pages[0].values.len(), 1);
    assert_eq!(tree.pages[0].values[0].values, vec![first.clone(), second.clone()]);
    let pak = persisted(tree);
    let found = PakTree::new(&pak, "k").unwrap().get(&PakValue::Uint(7)).unwrap();
    assert_eq!(found.len(), 2);
    assert!(found.contains(&first));
    assert!(found.contains(&second));
}

#[test]
fn add_files_from_the_root() {
    let mut tree = PakTreeBuilder::new(1);
    for key in [3u64, 1, 2, 5, 4] {
        tree.add(PakValue::Uint(key), pointer_for(key));
    }
    let mut keys: Vec<u64> = tree.pages.iter().flat_map(|p| page_keys(p)).collect();
    keys.sort();
    assert_eq!(keys, vec![1, 2, 3, 4, 5]);
    for page in &tree.pages {
        assert!(page.values.len() <= 2);
    }
}

#[test]
fn page_push_reports_where_the_entry_went() {
    let mut page = PakTreePage::new();
    let entry = |key: u64| PakTreePageEntry::new(PakValue::Uint(key), pointer_for(key));
    assert!(matches!(page.push(entry(20)), pak::page::PakTreeStatus::Done(0)));
    assert!(matches!(page.push(entry(10)), pak::page::PakTreeStatus::Done(0)));
    assert!(matches!(page.push(entry(30)), pak::page::PakTreeStatus::Done(2)));
    assert!(matches!(page.push(entry(20)), pak::page::PakTreeStatus::Done(1)));
    assert_eq!(page_keys(&page), vec![10, 20, 30]);
    assert_eq!(page.values[1].values.len(), 2);
    page.values[1].previous = Some(4);
    match page.push(entry(15)) {
        pak::page::PakTreeStatus::Next(child, back) => {
            assert_eq!(child, 4);
            assert_eq!(back.key, PakValue::Uint(15));
        },
        _ => panic!("the entry belongs into the page below"),
    }
    page.next = Some(9);
    assert!(matches!(page.push(entry(40)), pak::page::PakTreeStatus::Next(9, _)));
    let (leading, median) = {
        let mut values = VecDeque::new();
        for key in [1u64, 2, 3, 4, 5] {
            values.push_back(entry(key));
        }
        let mut full = PakTreePage::new_with_entries(values);
        let taken = full.split_off(2);
        assert_eq!(page_keys(&full), vec![4, 5]);
        taken
    };
    assert_eq!(leading.len(), 2);
    assert_eq!(median.key, PakValue::Uint(3));
}

#[test]
fn missing_page_is_corruption() {
    let pak = with_pages(vec![(1, PakTreePage::new())]);
    let tree = PakTree::new(&pak, "k").unwrap();
    assert!(matches!(tree.get(&PakValue::Uint(1)), Err(PakError::Corruption)));
    assert!(matches!(tree.load(0), Err(PakError::Corruption)));
    assert!(tree.load(1).is_ok());
}

#[test]
fn pages_in_a_circle_are_corruption() {
    let mut entry = PakTreePageEntry::new(PakValue::Uint(9), pointer_for(9));
    entry.previous = Some(0);
    let mut values = VecDeque::new();
    values.push_back(entry);
    let pak = with_pages(vec![(0, PakTreePage::new_with_entries(values))]);
    let tree = PakTree::new(&pak, "k").unwrap();
    assert!(matches!(tree.get(&PakValue::Uint(1)), Err(PakError::Corruption)));
    assert!(matches!(tree.get_less(&PakValue::Uint(1)), Err(PakError::Corruption)));
    // A search that does not look below the entry never enters the circle.
    assert_eq!(keys_of(&tree.get(&PakValue::Uint(9)).unwrap()), vec![9]);
}

#[test]
fn the_page_behind_the_last_entry_is_searched() {
    let entry = |key: u64| PakTreePageEntry::new(PakValue::Uint(key), pointer_for(key));
    let mut first = VecDeque::new();
    first.push_back(entry(1));
    first.push_back(entry(2));
    let mut first = PakTreePage::new_with_entries(first);
    first.next = Some(1);
    let mut second = VecDeque::new();
    second.push_back(entry(3));
    let second = PakTreePage::new_with_entries(second);
    let pak = with_pages(vec![(0, first), (1, second)]);
    let tree = PakTree::new(&pak, "k").unwrap();
    assert_eq!(keys_of(&tree.get(&PakValue::Uint(3)).unwrap()), vec![3]);
    assert_eq!(keys_of(&tree.get_greater(&PakValue::Uint(1)).unwrap()), vec![2, 3]);
    assert_eq!(keys_of(&tree.get_less_eq(&PakValue::Uint(3)).unwrap()), vec![1, 2, 3]);
    assert_eq!(keys_of(&tree.get_less(&PakValue::Uint(2)).unwrap()), vec![1]);
}

#[test]
fn broken_page_is_a_decode_error() {
    let mut vault = vec![0xffu8; 4];
    let lines = vec![PakPageSlot { index: 0, pointer: PakUntypedPointer::new(0, 4) }];
    let mut table = Vec::new();
    put_counted(&mut table, &lines);
    let pointer = PakUntypedPointer::new(4, table.len() as u64);
    vault.extend(table);
    let directory = vec![PakIndexSlot { key: "k".to_string(), pointer }];
    let (bytes, _) = lay_out(&meta(), &directory, &vault).unwrap();
    let pak = Pak::new(PakSource::new(bytes)).unwrap();
    let tree = PakTree::new(&pak, "k").unwrap();
    assert!(matches!(tree.get(&PakValue::Uint(1)), Err(PakError::Decode)));
    // A line that points outside the vault.
    let directory = vec![PakIndexSlot { key: "k".to_string(), pointer: PakUntypedPointer::new(1 << 30, 8) }];
    let (bytes, _) = lay_out(&meta(), &directory, &vec![]).unwrap();
    let pak = Pak::new(PakSource::new(bytes)).unwrap();
    assert!(matches!(PakTree::new(&pak, "k"), Err(PakError::Io)));
    assert!(matches!(PakTree::new(&pak, "other"), Err(PakError::IndexMissing(key)) if key == "other"));
}

#[test]
fn later_directory_line_wins() {
    let tree = tree_of(6, &[1, 2]);
    let mut builder = PakBuilder::new();
    let pointer = tree.into_pak(&mut builder).unwrap().as_untyped();
    let directory = vec![
        PakIndexSlot { key: "k".to_string(), pointer: PakUntypedPointer::new(1 << 40, 1) },
        PakIndexSlot { key: "k".to_string(), pointer },
    ];
    assert_eq!(pak::pak::find_index(&directory, "k"), Some(pointer));
    assert_eq!(pak::pak::find_index(&directory, "j"), None);
    let (bytes, _) = lay_out(&meta(), &directory, &builder.vault).unwrap();
    let pak = Pak::new(PakSource::new(bytes)).unwrap();
    assert_eq!(keys_of(&pak.get_tree("k").unwrap().get(&PakValue::Uint(2)).unwrap()), vec![2]);
}

#[test]
fn one_cursor_files_every_entry_from_the_root() {
    let mut tree = PakTreeBuilder::new(2);
    {
        let mut cursor = tree.access();
        for key in [10u64, 20, 30, 40, 25, 5] {
            cursor.insert(PakValue::Uint(key), pointer_for(key));
        }
        // The split left the cursor below the root; the next entry starts at the root all the same.
        cursor.insert(PakValue::Uint(50), pointer_for(50));
    }
    assert_eq!(page_keys(&tree.pages[0]), vec![25, 30, 40, 50]);
    assert_eq!(page_keys(&tree.pages[1]), vec![5, 10, 20]);
    assert_eq!(tree.pages[0].values[0].previous, Some(1));
    let pak = persisted(tree);
    let found = PakTree::new(&pak, "k").unwrap();
    assert_eq!(keys_of(&found.get(&PakValue::Uint(50)).unwrap()), vec![50]);
    assert_eq!(keys_of(&found.get_less(&PakValue::Uint(25)).unwrap()), vec![5, 10, 20]);
    assert_eq!(keys_of(&found.get_greater_eq(&PakValue::Uint(0)).unwrap()), vec![5, 10, 20, 25, 30, 40, 50]);
}

#[test]
fn one_cursor_builds_the_same_tree_as_a_cursor_for_each_entry() {
    let mut tree = PakTreeBuilder::new(2);
    {
        let mut cursor = tree.access();
        for key in SCENARIO {
            cursor.insert(PakValue::Uint(key), pointer_for(key));
        }
    }
    let other = tree_of(2, &SCENARIO);
    assert_eq!(tree.pages.len(), other.pages.len());
    for (a, b) in tree.pages.iter().zip(other.pages.iter()) {
        assert_eq!(page_keys(a), page_keys(b));
    }
}
