use ascii_frames::discover::{discover_and_sort_frames, discover_seconds, ListingEntry};
use ascii_frames::names::{frame_number_of_name, parse_u64};
use ascii_frames::store::{frame_file_name, frame_rel_path, CleanupGuard};

fn dir(name: &[u8], files: &[&[u8]]) -> ListingEntry {
    ListingEntry::Dir {
        name: name.to_vec(),
        files: files.iter().map(|f| f.to_vec()).collect(),
    }
}

fn file(name: &[u8]) -> ListingEntry {
    ListingEntry::File { name: name.to_vec() }
}

fn copy_listing(listing: &[ListingEntry]) -> Vec<ListingEntry> {
    listing
        .iter()
        .map(|e| match e {
            ListingEntry::Dir { name, files } => ListingEntry::Dir {
                name: name.clone(),
                files: files.clone(),
            },
            ListingEntry::File { name } => ListingEntry::File { name: name.clone() },
        })
        .collect()
}

fn flat(listing: Vec<ListingEntry>) -> Vec<(Vec<u8>, u64)> {
    discover_and_sort_frames(&listing)
        .into_iter()
        .map(|f| (f.path, f.number))
        .collect()
}

#[test]
fn round_trip_order_is_independent_of_listing_order() {
    // A store written as buckets {0: [1, 2], 3: [1]} comes back as exactly
    // three frames in order [0/1, 0/2, 3/1], whatever order the directory
    // reader produced.
    let expected = vec![
        (b"0/1.txt".to_vec(), 1),
        (b"0/2.txt".to_vec(), 2),
        (b"3/1.txt".to_vec(), 1),
    ];
    let one = vec![
        dir(b"0", &[b"1.txt", b"2.txt"]),
        dir(b"3", &[b"1.txt"]),
    ];
    let two = vec![
        dir(b"3", &[b"1.txt"]),
        dir(b"0", &[b"2.txt", b"1.txt"]),
    ];
    assert_eq!(flat(one), expected);
    assert_eq!(flat(two), expected);
}

#[test]
fn loose_root_files_merge_into_bucket_zero() {
    // Loose files 1.txt and 2.txt plus the explicit 0/3.txt all land in
    // bucket 0, ordered [1, 2, 3] by numeric id.
    let listing = vec![
        file(b"2.txt"),
        dir(b"0", &[b"3.txt"]),
        file(b"1.txt"),
    ];
    assert_eq!(
        flat(copy_listing(&listing)),
        vec![
            (b"1.txt".to_vec(), 1),
            (b"2.txt".to_vec(), 2),
            (b"0/3.txt".to_vec(), 3),
        ]
    );
    let seconds = discover_seconds(&listing);
    assert_eq!(seconds.len(), 1);
    assert_eq!(seconds[0].number, 0);
    let numbers: Vec<u64> = seconds[0].frames.iter().map(|f| f.number).collect();
    assert_eq!(numbers, vec![1, 2, 3]);
}

#[test]
fn unparseable_entries_are_ignored() {
    let listing = vec![
        dir(b"notes", &[b"1.txt"]),
        dir(b"1", &[b"cover.png", b"a.txt", b".txt", b"2.txt"]),
        file(b"readme.md"),
        file(b"frame.txt"),
    ];
    assert_eq!(flat(listing), vec![(b"1/2.txt".to_vec(), 2)]);
}

#[test]
fn empty_or_unusable_listing_discovers_an_empty_sequence() {
    assert_eq!(flat(vec![]), vec![]);
    assert_eq!(flat(vec![file(b"cover.jpg")]), vec![]);
}

#[test]
fn leading_zeros_and_signs_parse_to_the_same_bucket() {
    // "007" and "+7" both parse to bucket 7 and are merged; parse order
    // breaks the tie between their equal-numbered frames.
    let listing = vec![
        dir(b"007", &[b"2.txt"]),
        dir(b"+7", &[b"1.txt"]),
    ];
    let seconds = discover_seconds(&listing);
    assert_eq!(seconds.len(), 1);
    assert_eq!(seconds[0].number, 7);
    let numbers: Vec<u64> = seconds[0].frames.iter().map(|f| f.number).collect();
    assert_eq!(numbers, vec![1, 2]);
    assert_eq!(seconds[0].frames[0].path, b"+7/1.txt".to_vec());
    assert_eq!(seconds[0].frames[1].path, b"007/2.txt".to_vec());
}

#[test]
fn buckets_come_back_strictly_sorted() {
    let listing = vec![
        dir(b"10", &[b"1.txt"]),
        dir(b"2", &[b"1.txt"]),
        file(b"9.txt"),
        dir(b"2", &[b"2.txt"]),
    ];
    let seconds = discover_seconds(&listing);
    let numbers: Vec<u64> = seconds.iter().map(|s| s.number).collect();
    assert_eq!(numbers, vec![0, 2, 10]);
    assert_eq!(seconds[1].frames.len(), 2);
}

#[test]
fn parse_u64_accepts_what_rust_parses() {
    assert_eq!(parse_u64(&b"0".to_vec()), Some(0));
    assert_eq!(parse_u64(&b"007".to_vec()), Some(7));
    assert_eq!(parse_u64(&b"+3".to_vec()), Some(3));
    assert_eq!(parse_u64(&b"18446744073709551615".to_vec()), Some(u64::MAX));
    assert_eq!(parse_u64(&b"18446744073709551616".to_vec()), None);
    assert_eq!(parse_u64(&b"".to_vec()), None);
    assert_eq!(parse_u64(&b"+".to_vec()), None);
    assert_eq!(parse_u64(&b"++3".to_vec()), None);
    assert_eq!(parse_u64(&b"-3".to_vec()), None);
    assert_eq!(parse_u64(&b"12a".to_vec()), None);
}

#[test]
fn frame_numbers_come_only_from_canonical_names() {
    assert_eq!(frame_number_of_name(&b"5.txt".to_vec()), Some(5));
    assert_eq!(frame_number_of_name(&b"007.txt".to_vec()), Some(7));
    assert_eq!(frame_number_of_name(&b"5.png".to_vec()), None);
    assert_eq!(frame_number_of_name(&b".txt".to_vec()), None);
    assert_eq!(frame_number_of_name(&b"a.b.txt".to_vec()), None);
    assert_eq!(frame_number_of_name(&b"5".to_vec()), None);
}

#[test]
fn written_names_round_trip_through_discovery() {
    assert_eq!(frame_file_name(1), b"1.txt".to_vec());
    assert_eq!(frame_file_name(120), b"120.txt".to_vec());
    assert_eq!(frame_rel_path(3, 1), b"3/1.txt".to_vec());
    assert_eq!(frame_rel_path(0, 42), b"0/42.txt".to_vec());
    // The writer's names parse back to the numbers they were written for.
    for n in [0u64, 1, 9, 10, 99, 12345, u64::MAX] {
        assert_eq!(frame_number_of_name(&frame_file_name(n)), Some(n));
    }
}

#[test]
fn cleanup_guard_remembers_its_path() {
    let g = CleanupGuard::new(b"out/_temp_frame.png".to_vec());
    assert_eq!(g.0, b"out/_temp_frame.png".to_vec());
}
