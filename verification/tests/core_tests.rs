use fuzzy_finder::arena::Arena;
use fuzzy_finder::byte_storage::FilePath;
use fuzzy_finder::collector::Collector;
use fuzzy_finder::fuzzy_match::FuzzyMatcher;
use fuzzy_finder::search::rank_chunk;
use fuzzy_finder::search::worker_step;
use fuzzy_finder::search::WorkerAction;
use fuzzy_finder::walker::{walker_step, WalkerAction};

#[test]
fn test_iterator() {
    let path = "/home/paavo/.config/i3/config";

    let file_path = FilePath::new(path.as_bytes().to_vec());

    let parts = file_path.segments();
    assert_eq!(
        parts,
        vec![
            b"home".to_vec(),
            b"paavo".to_vec(),
            b".config".to_vec(),
            b"i3".to_vec(),
            b"config".to_vec()
        ]
    );
}

#[test]
fn iterator_yields_segments_one_by_one() {
    let file_path = FilePath::new(b"/a/bc//d/".to_vec());
    let mut it = file_path.iter();
    assert_eq!(it.next(), Some(b"a".to_vec()));
    assert_eq!(it.next(), Some(b"bc".to_vec()));
    assert_eq!(it.next(), Some(b"d".to_vec()));
    assert_eq!(it.next(), None);
    assert_eq!(it.next(), None);
}

#[test]
fn arena_len_counts_all_appends() {
    let mut arena: Arena<u8> = Arena::new();
    assert_eq!(arena.len(), 0);
    arena.push(1);
    arena.push(2);
    arena.extend(vec![3, 4, 5]);
    assert_eq!(arena.len(), 5);
}

#[test]
fn arena_view_concatenates_to_insertion_sequence() {
    let mut arena: Arena<u8> = Arena::new();
    arena.extend(vec![10, 11]);
    arena.push(12);
    let chunks = arena.read_only_view();
    let mut flat: Vec<u8> = Vec::new();
    for chunk in chunks {
        flat.extend_from_slice(chunk);
    }
    assert_eq!(flat, vec![10, 11, 12]);
}

#[test]
fn arena_handles_stay_valid_across_appends() {
    let mut arena: Arena<u8> = Arena::new();
    let first = arena.extend_and_get(b"alpha".to_vec());
    let second = arena.extend_and_get(b"beta".to_vec());
    for i in 0..5000u32 {
        arena.push((i % 251) as u8);
    }
    let third = arena.extend_and_get(b"gamma".to_vec());
    assert_eq!(arena.read_handle(first), b"alpha".to_vec());
    assert_eq!(arena.read_handle(second), b"beta".to_vec());
    assert_eq!(arena.read_handle(third), b"gamma".to_vec());
}

#[test]
fn path_name_is_last_segment() {
    let p = FilePath::new(b"/tmp/t/b/foo".to_vec());
    assert_eq!(p.name(), b"foo".to_vec());
    let empty = FilePath::new(b"/".to_vec());
    assert_eq!(empty.name(), b"".to_vec());
    let trailing = FilePath::new(b"/tmp/t/b/".to_vec());
    assert_eq!(trailing.name(), b"b".to_vec());
}

#[test]
fn path_file_ext_after_rightmost_dot() {
    assert_eq!(FilePath::new(b"/a/foo.txt".to_vec()).file_ext(), b"txt".to_vec());
    assert_eq!(FilePath::new(b"/home/u/.config".to_vec()).file_ext(), b"config".to_vec());
    assert_eq!(FilePath::new(b"/a/archive.tar.gz".to_vec()).file_ext(), b"gz".to_vec());
    assert_eq!(FilePath::new(b"/a/noext".to_vec()).file_ext(), b"".to_vec());
    assert_eq!(FilePath::new(b"/a/dot.".to_vec()).file_ext(), b"".to_vec());
    assert_eq!(FilePath::new(b"/a.b/plain".to_vec()).file_ext(), b"".to_vec());
}

#[test]
fn containing_folder_of_file_is_parent() {
    let p = FilePath::new(b"/tmp/t/b/foo".to_vec());
    assert_eq!(p.containing_folder(false), b"/tmp/t/b".to_vec());
}

#[test]
fn containing_folder_of_directory_is_itself() {
    let p = FilePath::new(b"/tmp/t/b".to_vec());
    assert_eq!(p.containing_folder(true), b"/tmp/t/b".to_vec());
    let single = FilePath::new(b"/foo".to_vec());
    assert_eq!(single.containing_folder(false), b"/".to_vec());
    let bare = FilePath::new(b"foo".to_vec());
    assert_eq!(bare.containing_folder(false), b"".to_vec());
}

#[test]
fn instant_match_on_equal_segment() {
    let matcher = FuzzyMatcher::new();
    let candidate = FilePath::new(b"/tmp/t/b/foo".to_vec());
    assert_eq!(matcher.instant_match(&b"foo".to_vec(), &candidate), Some(i32::MAX));
    assert_eq!(matcher.instant_match(&b"fo".to_vec(), &candidate), None);
}

#[test]
fn smith_waterman_exact_segment_scores_max() {
    let mut matcher = FuzzyMatcher::new();
    let candidate = FilePath::new(b"/tmp/t/b/foo".to_vec());
    assert_eq!(matcher.smith_waterman(&b"foo".to_vec(), &candidate), i32::MAX);
}

#[test]
fn smith_waterman_exact_value_single_byte() {
    // query "a" against "/ba": one match in row one earns both bonuses.
    let mut matcher = FuzzyMatcher::new();
    let candidate = FilePath::new(b"/ba".to_vec());
    assert_eq!(matcher.smith_waterman(&b"a".to_vec(), &candidate), 30);
}

#[test]
fn smith_waterman_exact_value_across_separator() {
    // query "ab" against "a/b": matrix maximum is the first-row match.
    let mut matcher = FuzzyMatcher::new();
    let candidate = FilePath::new(b"a/b".to_vec());
    assert_eq!(matcher.smith_waterman(&b"ab".to_vec(), &candidate), 30);
}

#[test]
fn smith_waterman_empty_query_scores_zero() {
    let mut matcher = FuzzyMatcher::new();
    let candidate = FilePath::new(b"/tmp/t/b/foo".to_vec());
    assert_eq!(matcher.smith_waterman(&b"".to_vec(), &candidate), 0);
}

#[test]
fn smith_waterman_never_negative() {
    let mut matcher = FuzzyMatcher::new();
    let candidate = FilePath::new(b"/zzz/qqq".to_vec());
    let score = matcher.smith_waterman(&b"abcdef".to_vec(), &candidate);
    assert!(score >= 0);
}

#[test]
fn query_foo_ranks_exact_segment_first() {
    // the sample tree: the exact segment match must come first.
    let mut matcher = FuzzyMatcher::new();
    let query = b"foo".to_vec();
    let chunk = vec![
        FilePath::new(b"/tmp/t/a/foo.txt".to_vec()),
        FilePath::new(b"/tmp/t/b/foo".to_vec()),
        FilePath::new(b"/tmp/t/b/bar.md".to_vec()),
    ];
    let (points, items) = rank_chunk(&mut matcher, &query, &chunk, 0);
    assert!(points.len() >= 2);
    assert_eq!(points[0], i32::MAX);
    assert_eq!(items[0].path(), &b"/tmp/t/b/foo".to_vec());
    assert_eq!(items[1].path(), &b"/tmp/t/a/foo.txt".to_vec());
    assert!(points[1] > 0 && points[1] < i32::MAX);
}

#[test]
fn rank_chunk_filters_and_sorts() {
    let mut matcher = FuzzyMatcher::new();
    let query = b"foo".to_vec();
    let chunk = vec![
        FilePath::new(b"/tmp/t/b/bar.md".to_vec()),
        FilePath::new(b"/tmp/t/b/foo".to_vec()),
    ];
    let min = 1000;
    let (points, items) = rank_chunk(&mut matcher, &query, &chunk, min);
    assert_eq!(points.len(), items.len());
    for window in points.windows(2) {
        assert!(window[0] >= window[1]);
    }
    for p in &points {
        assert!(*p > min);
    }
    assert_eq!(points, vec![i32::MAX]);
}

#[test]
fn collector_keeps_at_most_capacity_sorted() {
    let mut collector = Collector::new(3);
    let tag = collector.generation_tag();
    let items: Vec<FilePath> =
        (0..5).map(|i| FilePath::new(format!("/p/{}", i).into_bytes())).collect();
    let new_min = collector.update(vec![50, 40, 30, 20, 10], items, tag);
    assert_eq!(collector.len(), 3);
    assert_eq!(new_min, 30);
    assert_eq!(collector.entry_at(0).0, 50);
    assert_eq!(collector.entry_at(1).0, 40);
    assert_eq!(collector.entry_at(2).0, 30);
}

#[test]
fn collector_not_full_returns_minus_one() {
    let mut collector = Collector::new(15);
    let tag = collector.generation_tag();
    let items = vec![FilePath::new(b"/x".to_vec()), FilePath::new(b"/y".to_vec())];
    let new_min = collector.update(vec![7, 3], items, tag);
    assert_eq!(new_min, -1);
    assert_eq!(collector.len(), 2);
}

#[test]
fn collector_merges_top_scores_across_updates() {
    let mut collector = Collector::new(3);
    let tag = collector.generation_tag();
    let first = vec![FilePath::new(b"/a".to_vec()), FilePath::new(b"/b".to_vec())];
    collector.update(vec![40, 10], first, tag);
    let second = vec![FilePath::new(b"/c".to_vec()), FilePath::new(b"/d".to_vec())];
    let new_min = collector.update(vec![30, 20], second, tag);
    // top 3 of {40, 10, 30, 20} are 40, 30, 20
    assert_eq!(collector.len(), 3);
    assert_eq!(collector.entry_at(0).0, 40);
    assert_eq!(collector.entry_at(1).0, 30);
    assert_eq!(collector.entry_at(2).0, 20);
    assert_eq!(collector.entry_at(0).1.path(), &b"/a".to_vec());
    assert_eq!(collector.entry_at(1).1.path(), &b"/c".to_vec());
    assert_eq!(collector.entry_at(2).1.path(), &b"/d".to_vec());
    assert_eq!(new_min, 20);
}

#[test]
fn collector_stale_generation_changes_nothing() {
    let mut collector = Collector::new(3);
    let tag = collector.generation_tag();
    let items = vec![FilePath::new(b"/bar".to_vec())];
    collector.update(vec![25], items, tag);
    collector.clear();
    // work scored under the old generation arrives late and is dropped
    let stale = vec![FilePath::new(b"/old".to_vec())];
    let new_min = collector.update(vec![99], stale, tag);
    assert_eq!(new_min, -1);
    assert_eq!(collector.len(), 0);
}

#[test]
fn collector_clear_bumps_generation_and_empties() {
    let mut collector = Collector::new(3);
    let tag = collector.generation_tag();
    let items = vec![FilePath::new(b"/bar".to_vec())];
    collector.update(vec![25], items, tag);
    assert_eq!(collector.len(), 1);
    collector.clear();
    assert_eq!(collector.len(), 0);
    assert_eq!(collector.generation_tag(), tag + 1);
    // fresh work under the new generation is accepted
    let fresh = vec![FilePath::new(b"/baz".to_vec())];
    collector.update(vec![12], fresh, collector.generation_tag());
    assert_eq!(collector.len(), 1);
    assert_eq!(collector.entry_at(0).1.path(), &b"/baz".to_vec());
}

#[test]
fn collector_empty_query_never_submitted_stays_empty() {
    // an empty query is never broadcast, so no update ever reaches the
    // collector and it stays empty
    let collector = Collector::new(15);
    assert_eq!(collector.len(), 0);
}

#[test]
fn collector_ties_keep_existing_entries_first() {
    let mut collector = Collector::new(2);
    let tag = collector.generation_tag();
    collector.update(vec![10], vec![FilePath::new(b"/first".to_vec())], tag);
    collector.update(vec![10], vec![FilePath::new(b"/second".to_vec())], tag);
    assert_eq!(collector.len(), 2);
    assert_eq!(collector.entry_at(0).1.path(), &b"/first".to_vec());
    assert_eq!(collector.entry_at(1).1.path(), &b"/second".to_vec());
}

#[test]
fn path_equality_is_byte_equality() {
    let a = FilePath::new(b"/x/y".to_vec());
    let b = FilePath::new(b"/x/y".to_vec());
    let c = FilePath::new(b"/x/z".to_vec());
    assert!(a == b);
    assert!(a != c);
    assert!(a == a.duplicate());
}

#[test]
fn worker_exits_on_shutdown_before_anything_else() {
    assert!(matches!(worker_step(true, true), WorkerAction::Exit));
    assert!(matches!(worker_step(true, false), WorkerAction::Exit));
    assert!(matches!(worker_step(false, true), WorkerAction::Rescan));
    assert!(matches!(worker_step(false, false), WorkerAction::Continue));
}

#[test]
fn walker_exits_only_when_idle_and_none_active() {
    assert!(matches!(walker_step(true, false, 3), WalkerAction::Work { leave_idle: false }));
    assert!(matches!(walker_step(true, true, 0), WalkerAction::Work { leave_idle: true }));
    assert!(matches!(walker_step(false, false, 3), WalkerAction::EnterIdle));
    assert!(matches!(walker_step(false, true, 2), WalkerAction::Wait));
    assert!(matches!(walker_step(false, true, 0), WalkerAction::Exit));
}
