use map_iced::tile_cache::file_util::TileData;
use map_iced::tile_cache::lru_list::LastRecentlyUsedList;

fn tiles_of(ids: &[u64], size: u64) -> Vec<TileData> {
    ids.iter().map(|x| TileData { tile_id: *x, size_on_disc: size }).collect::<Vec<_>>()
}

#[test]
fn empty_test() {
    let cand = LastRecentlyUsedList::new(20);
    assert_eq!(cand.generate_usage_list(), Vec::<u64>::new());
}

#[test]
fn filter_test() {
    let raw_data = vec![0, 1, 2, 3, 4, 5];
    let test_data = vec![5, 2, 3, 22];
    let file_data = test_data.iter().map(|x| TileData { tile_id: *x, size_on_disc: 1 }).collect::<Vec<_>>();
    let expected_data = vec![2, 3, 5, 22];
    let mut cand = LastRecentlyUsedList::new(20);
    cand.reconstruct_from(&raw_data, &file_data);
    assert_eq!(cand.generate_usage_list(), expected_data);
}

#[test]
fn fill_test() {
    let mut cand = LastRecentlyUsedList::new(20);
    let total_vec = vec![0, 1, 2, 3, 4];
    let entry_vec = total_vec.iter().map(|x| TileData { tile_id: *x, size_on_disc: 1 }).collect::<Vec<_>>();
    for i in total_vec.iter().rev() {
        cand.insert_and_clear(*i, 1);
    }

    let usage_list = cand.generate_usage_list();

    assert_eq!(cand.generate_usage_list(), vec![0, 1, 2, 3, 4]);
    cand.touch(0);
    assert_eq!(cand.generate_usage_list(), vec![0, 1, 2, 3, 4]);
    cand.touch(4);
    assert_eq!(cand.generate_usage_list(), vec![4, 0, 1, 2, 3]);
    cand.reconstruct_from(&usage_list, &entry_vec);
    cand.touch(2);
    assert_eq!(cand.generate_usage_list(), vec![2, 0, 1, 3, 4]);
}

#[test]
fn reconstruct_test() {
    let mut cand = LastRecentlyUsedList::new(20);
    let total_vec = vec![0, 1, 2, 3, 4, 5];
    let input_vec = total_vec.iter().map(|x| TileData { tile_id: *x, size_on_disc: 1 }).collect::<Vec<_>>();

    cand.reconstruct_from(&[], &input_vec);
    let mut list = cand.generate_usage_list();
    list.sort();
    assert_eq!(list, total_vec);
}

#[test]
fn eviction_order_test() {
    let mut cand = LastRecentlyUsedList::new(10);
    assert_eq!(cand.insert_and_clear(1, 4), Vec::<u64>::new());
    assert_eq!(cand.insert_and_clear(2, 4), Vec::<u64>::new());
    assert_eq!(cand.space_on_disc(), 8);
    // The least recently used one goes first.
    assert_eq!(cand.insert_and_clear(3, 4), vec![1]);
    assert_eq!(cand.generate_usage_list(), vec![3, 2]);
    cand.touch(2);
    assert_eq!(cand.insert_and_clear(4, 8), vec![3, 2]);
    assert_eq!(cand.generate_usage_list(), vec![4]);
    assert_eq!(cand.space_on_disc(), 8);
}

#[test]
fn oversized_entry_test() {
    let mut cand = LastRecentlyUsedList::new(10);
    cand.insert_and_clear(1, 4);
    // An entry larger than the budget evicts everything, itself last.
    assert_eq!(cand.insert_and_clear(2, 11), vec![1, 2]);
    assert_eq!(cand.generate_usage_list(), Vec::<u64>::new());
    assert_eq!(cand.space_on_disc(), 0);
}

#[test]
fn reconstruct_budget_test() {
    let mut cand = LastRecentlyUsedList::new(2);
    let evicted = cand.reconstruct_from(&[7, 8, 9, 7], &tiles_of(&[9, 8, 7], 1));
    assert_eq!(cand.generate_usage_list(), vec![7, 8]);
    assert_eq!(evicted, vec![9]);
    assert!(cand.contains(7));
    assert!(!cand.contains(9));
}

#[test]
fn save_restore_round_trip_test() {
    let mut cand = LastRecentlyUsedList::new(100);
    for i in [5u64, 9, 1, 7] {
        cand.insert_and_clear(i, 3);
    }
    cand.touch(9);
    let saved = cand.generate_usage_list();
    let files = tiles_of(&saved, 3);
    let mut restored = LastRecentlyUsedList::new(100);
    assert_eq!(restored.reconstruct_from(&saved, &files), Vec::<u64>::new());
    assert_eq!(restored.generate_usage_list(), saved);
}

#[test]
fn rebuild_lists_each_file_once_test() {
    // The usage list names a missing file, names one file twice and misses two files.
    let files = vec![
        TileData { tile_id: 4, size_on_disc: 2 },
        TileData { tile_id: 6, size_on_disc: 3 },
        TileData { tile_id: 8, size_on_disc: 5 },
        TileData { tile_id: 10, size_on_disc: 7 },
    ];
    let mut cand = LastRecentlyUsedList::new(10);
    let evicted = cand.reconstruct_from(&[8, 99, 8, 4], &files);
    let kept = cand.generate_usage_list();
    // The named files come first, in the order of the usage list.
    assert_eq!(&kept[..2], &[8, 4]);
    let mut all: Vec<u64> = kept.iter().chain(evicted.iter()).copied().collect();
    all.sort();
    assert_eq!(all, vec![4, 6, 8, 10]);
    assert!(cand.space_on_disc() <= 10);
    let kept_size: u64 = files.iter().filter(|f| kept.contains(&f.tile_id)).map(|f| f.size_on_disc).sum();
    assert_eq!(cand.space_on_disc(), kept_size);
}

#[test]
fn touch_reports_change_test() {
    let mut cand = LastRecentlyUsedList::new(20);
    for i in [3u64, 2, 1] {
        cand.insert_and_clear(i, 1);
    }
    assert_eq!(cand.generate_usage_list(), vec![1, 2, 3]);
    // Already first: nothing changes, nothing to save.
    assert!(!cand.touch(1));
    assert_eq!(cand.generate_usage_list(), vec![1, 2, 3]);
    assert!(cand.touch(3));
    assert_eq!(cand.generate_usage_list(), vec![3, 1, 2]);
    assert!(cand.touch(1));
    assert_eq!(cand.generate_usage_list(), vec![1, 3, 2]);
}

#[test]
fn refresh_test() {
    let mut cand = LastRecentlyUsedList::new(10);
    for i in [1u64, 2, 3] {
        cand.insert_and_clear(i, 2);
    }
    assert_eq!(cand.generate_usage_list(), vec![3, 2, 1]);
    assert_eq!(cand.refresh(1, 3), Vec::<u64>::new());
    assert_eq!(cand.generate_usage_list(), vec![1, 3, 2]);
    assert_eq!(cand.space_on_disc(), 7);
    // Too large now: the least recently used entries go, least recently used first.
    assert_eq!(cand.refresh(3, 8), vec![2, 1]);
    assert_eq!(cand.generate_usage_list(), vec![3]);
    assert_eq!(cand.space_on_disc(), 8);
}
