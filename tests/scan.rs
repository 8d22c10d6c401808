use std::collections::HashMap;

use fdupes::{
    walk_depth, BucketMatcher, Comparator, Config, ConfigError, DupeMessage, DupeScanner, Scan,
    ScanAction, ScanPhase,
    ExactGroupComparator, FdupesGroup, Fingerprint, GroupComparator, JsonGroupComparator, Request,
    BLOCK_SIZE, CHUNK_SIZE,
};

type Disk = HashMap<String, Option<Vec<u8>>>;

fn disk(files: &[(&str, Option<&[u8]>)]) -> Disk {
    files
        .iter()
        .map(|(p, c)| (p.to_string(), c.map(|b| b.to_vec())))
        .collect()
}

fn answer(req: &Request, disk: &Disk) -> Option<Vec<u8>> {
    match req {
        Request::Prefix(p, len) => disk[p]
            .as_ref()
            .map(|c| c[..std::cmp::min(*len as usize, c.len())].to_vec()),
        Request::Whole(p) => disk[p].clone(),
        Request::Chunk(p, off, len) => disk[p].as_ref().map(|c| {
            let lo = std::cmp::min(*off as usize, c.len());
            let hi = std::cmp::min((*off + *len) as usize, c.len());
            c[lo..hi].to_vec()
        }),
        Request::Done => panic!("no read is pending"),
    }
}

fn exact() -> Comparator {
    Comparator::Exact(ExactGroupComparator::new())
}

/// Drives a matcher over one bucket; returns its messages and the reads it
/// asked for.
fn run(size: u64, paths: &[&str], disk: &Disk) -> (Vec<DupeMessage>, Vec<Request>) {
    let files = paths.iter().map(|p| p.to_string()).collect();
    let mut m = BucketMatcher::new(size, exact(), files);
    let mut log = Vec::new();
    while !m.is_done() {
        let req = m.request();
        let data = answer(&req, disk);
        log.push(req);
        m.step(data);
    }
    assert_eq!(m.request(), Request::Done);
    (m.into_messages(), log)
}

fn group(size: u64, names: &[&str]) -> DupeMessage {
    DupeMessage::Group(size, 1, 0, names.iter().map(|s| s.to_string()).collect())
}

fn config(min_size: u64) -> Config {
    Config {
        roots: vec![String::from("/a")],
        non_recursive: false,
        min_size,
        show_sizes: false,
        prompt: false,
        trash: false,
        classic_mode: true,
    }
}

#[test]
fn scenario_two_equal_one_different() {
    let d = disk(&[
        ("/a/x", Some(b"AAAAAAAAAA")),
        ("/a/y", Some(b"AAAAAAAAAA")),
        ("/a/z", Some(b"BBBBBBBBBB")),
    ]);
    let scanner = DupeScanner::new(config(0), vec![exact()]).unwrap();
    let found = vec![
        (10, String::from("/a/x")),
        (10, String::from("/a/y")),
        (10, String::from("/a/z")),
    ];
    let buckets = scanner.find_files(&found);
    assert_eq!(buckets.len(), 1);
    assert_eq!(buckets[0].size, 10);
    assert_eq!(buckets[0].files, vec!["/a/x", "/a/y", "/a/z"]);
    let (messages, _) = run(10, &["/a/x", "/a/y", "/a/z"], &d);
    assert_eq!(messages, vec![group(10, &["/a/x", "/a/y"])]);
}

#[test]
fn block_sized_file_needs_no_second_pass() {
    let content = vec![7u8; 1024];
    let d = disk(&[("/f1", Some(&content)), ("/f2", Some(&content))]);
    let (messages, log) = run(1024, &["/f1", "/f2"], &d);
    assert_eq!(messages, vec![group(1024, &["/f1", "/f2"])]);
    assert!(log.iter().all(|r| !matches!(r, Request::Whole(_))));
    assert_eq!(log[0], Request::Prefix(String::from("/f2"), 1024));
    assert_eq!(log[1], Request::Prefix(String::from("/f1"), 1024));

    let mut g = FdupesGroup::new("/f1", 1024, exact());
    g.record_partial(Some(content.clone()));
    assert!(matches!(g.partialcrc(), Fingerprint::Known(_)));
    assert_eq!(g.partialcrc(), g.fullcrc());
}

#[test]
fn larger_file_gets_its_own_full_fingerprint() {
    let mut g = FdupesGroup::new("/f", 1025, exact());
    g.record_partial(Some(vec![1u8; 1024]));
    assert!(matches!(g.partialcrc(), Fingerprint::Known(_)));
    assert_eq!(g.fullcrc(), Fingerprint::Pending);
    assert_eq!(g.prefix_len(), BLOCK_SIZE);
}

#[test]
fn unreadable_file_mid_bucket() {
    let d = disk(&[
        ("/a", Some(b"same")),
        ("/b", None),
        ("/c", Some(b"same")),
        ("/d", Some(b"diff")),
        ("/e", Some(b"same")),
    ]);
    let (messages, _) = run(4, &["/a", "/b", "/c", "/d", "/e"], &d);
    assert_eq!(messages, vec![group(4, &["/a", "/c", "/e"])]);
}

#[test]
fn unreadable_representative_does_not_block_others() {
    let d = disk(&[("/a", None), ("/b", Some(b"xy")), ("/c", Some(b"xy"))]);
    let (messages, _) = run(2, &["/a", "/b", "/c"], &d);
    assert_eq!(messages, vec![group(2, &["/b", "/c"])]);
}

#[test]
fn checksum_collision_is_not_a_duplicate() {
    // Two different contents of one size whose partial (and, at this size,
    // full) fingerprints agree.
    let usb = crc::Crc::<u16>::new(&crc::CRC_16_USB);
    let mut seen: HashMap<u16, Vec<u8>> = HashMap::new();
    let (a, b) = (0u64..)
        .find_map(|i| {
            let content = format!("collision-{i:08}").into_bytes();
            let sum = usb.checksum(&content);
            match seen.get(&sum) {
                Some(other) => Some((other.clone(), content)),
                None => {
                    seen.insert(sum, content);
                    None
                }
            }
        })
        .unwrap();
    assert_ne!(a, b);
    assert_eq!(a.len(), b.len());
    let d = disk(&[("/a", Some(&a)), ("/b", Some(&b))]);
    let (messages, log) = run(a.len() as u64, &["/a", "/b"], &d);
    assert!(messages.is_empty());
    assert!(log.iter().any(|r| matches!(r, Request::Chunk(..))));

    let mut ga = FdupesGroup::new("/a", a.len() as u64, exact());
    let mut gb = FdupesGroup::new("/b", b.len() as u64, exact());
    ga.record_partial(Some(a.clone()));
    gb.record_partial(Some(b.clone()));
    assert_eq!(ga.partialcrc(), gb.partialcrc());
    assert_eq!(ga.fullcrc(), gb.fullcrc());
}

/// Two files that share their first block and differ after it.
fn prefix_twins() -> (Vec<u8>, Vec<u8>) {
    let a = vec![b'a'; 2000];
    let mut b = a.clone();
    b[1999] = b'b';
    (a, b)
}

fn test_group(path: &str, content: &[u8]) -> FdupesGroup {
    let mut g = FdupesGroup::new(path, content.len() as u64, exact());
    g.record_partial(Some(content[..std::cmp::min(content.len(), 1024)].to_vec()));
    g.record_full(Some(content.to_vec()));
    g
}

#[test]
fn partialcrc_diff() {
    let (a, b) = prefix_twins();
    let group1 = test_group("file1.txt", &a);
    let group2 = test_group("file2.txt", &b);
    assert_eq!(group1.partialcrc(), group2.partialcrc());
}

#[test]
fn fullcrc_diff() {
    let (a, b) = prefix_twins();
    let group1 = test_group("file1.txt", &a);
    let group2 = test_group("file2.txt", &b);
    assert_ne!(group1.fullcrc(), group2.fullcrc());
}

#[test]
fn collision() {
    let sdlc = crc::Crc::<u16>::new(&crc::CRC_16_IBM_SDLC);
    let head = vec![b'h'; 1024];
    let mut seen: HashMap<u16, Vec<u8>> = HashMap::new();
    let (a, b) = (0u64..)
        .find_map(|i| {
            let mut content = head.clone();
            content.extend_from_slice(format!("{i:08}").as_bytes());
            let sum = sdlc.checksum(&content);
            match seen.get(&sum) {
                Some(other) => Some((other.clone(), content)),
                None => {
                    seen.insert(sum, content);
                    None
                }
            }
        })
        .unwrap();
    let group_a = test_group("collision_file_a", &a);
    let group_b = test_group("collision_file_b", &b);
    assert_eq!(group_a.partialcrc(), group_b.partialcrc());
    assert_eq!(group_a.fullcrc(), group_b.fullcrc());
    assert_eq!(group_a.size, group_b.size);
    assert_ne!(a, b);
    let d = disk(&[("/a", Some(&a)), ("/b", Some(&b)), ("/c", Some(&a))]);
    let (messages, log) = run(1032, &["/a", "/b", "/c"], &d);
    assert_eq!(messages, vec![group(1032, &["/a", "/c"])]);
    assert!(log.iter().any(|r| matches!(r, Request::Whole(_))));
}

#[test]
fn singleton_is_never_reported() {
    let d = disk(&[("/u", Some(b"unique")), ("/p", Some(b"pair!!")), ("/q", Some(b"pair!!"))]);
    let (messages, _) = run(6, &["/u", "/p", "/q"], &d);
    assert_eq!(messages, vec![group(6, &["/p", "/q"])]);
    for m in &messages {
        if let DupeMessage::Group(_, _, _, names) = m {
            assert!(!names.contains(&String::from("/u")));
        }
    }
}

#[test]
fn all_unique_reports_nothing() {
    let d = disk(&[("/1", Some(b"a")), ("/2", Some(b"b")), ("/3", Some(b"c"))]);
    let (messages, _) = run(1, &["/1", "/2", "/3"], &d);
    assert!(messages.is_empty());
}

#[test]
fn interleaved_duplicates_form_two_groups() {
    let d = disk(&[
        ("/x", Some(b"one")),
        ("/y", Some(b"two")),
        ("/z", Some(b"one")),
        ("/w", Some(b"two")),
    ]);
    let (messages, _) = run(3, &["/x", "/y", "/z", "/w"], &d);
    assert_eq!(
        messages,
        vec![
            DupeMessage::Group(3, 2, 0, vec![String::from("/x"), String::from("/z")]),
            DupeMessage::Group(3, 2, 1, vec![String::from("/y"), String::from("/w")]),
        ]
    );
}

#[test]
fn scanning_twice_gives_the_same_groups() {
    let d = disk(&[
        ("/x", Some(b"one")),
        ("/y", Some(b"two")),
        ("/z", Some(b"one")),
        ("/w", Some(b"two")),
        ("/v", None),
    ]);
    let paths = ["/x", "/y", "/z", "/w", "/v"];
    let (first, _) = run(3, &paths, &d);
    let (second, _) = run(3, &paths, &d);
    assert_eq!(first, second);
}

#[test]
fn exact_comparison_spans_chunks() {
    let size = 3 * CHUNK_SIZE as usize + 5;
    let a = vec![9u8; size];
    let mut b = a.clone();
    b[2 * CHUNK_SIZE as usize + 1] = 8;
    let d = disk(&[("/a", Some(&a)), ("/b", Some(&b)), ("/c", Some(&a))]);
    let (messages, log) = run(size as u64, &["/a", "/b", "/c"], &d);
    assert_eq!(messages, vec![group(size as u64, &["/a", "/c"])]);
    assert!(log.contains(&Request::Chunk(String::from("/c"), 3 * CHUNK_SIZE, CHUNK_SIZE)));
}

#[test]
fn grown_file_is_not_identical() {
    // The walk saw both at 4 bytes; one has grown since.
    let d = disk(&[("/a", Some(b"abcd")), ("/b", Some(b"abcdef"))]);
    let (messages, _) = run(4, &["/a", "/b"], &d);
    assert!(messages.is_empty());
}

#[test]
fn empty_bucket_is_done_at_once() {
    let d = disk(&[]);
    let (messages, log) = run(5, &[], &d);
    assert!(messages.is_empty());
    assert!(log.is_empty());
}

#[test]
fn single_file_needs_no_read() {
    let d = disk(&[("/only", Some(b"x"))]);
    let (messages, log) = run(1, &["/only"], &d);
    assert!(messages.is_empty());
    assert!(log.is_empty());
}

#[test]
fn empty_files_are_duplicates() {
    let d = disk(&[("/e1", Some(b"")), ("/e2", Some(b""))]);
    let (messages, _) = run(0, &["/e1", "/e2"], &d);
    assert_eq!(messages, vec![group(0, &["/e1", "/e2"])]);
}

#[test]
fn messages_carry_their_position_within_the_bucket() {
    let files = vec![
        String::from("/p"),
        String::from("/r"),
        String::from("/q"),
        String::from("/s"),
        String::from("/t"),
    ];
    let mut m = BucketMatcher::new(1, exact(), files);
    let d = disk(&[
        ("/p", Some(b"z")),
        ("/r", Some(b"y")),
        ("/q", Some(b"z")),
        ("/s", Some(b"x")),
        ("/t", Some(b"y")),
    ]);
    while !m.is_done() {
        let data = answer(&m.request(), &d);
        m.step(data);
    }
    assert_eq!(
        m.into_messages(),
        vec![
            DupeMessage::Group(1, 2, 0, vec![String::from("/p"), String::from("/q")]),
            DupeMessage::Group(1, 2, 1, vec![String::from("/r"), String::from("/t")]),
        ]
    );
}

#[test]
fn partial_fingerprint_is_crc16_usb() {
    let mut g = FdupesGroup::new("/f", 9, exact());
    assert_eq!(g.partialcrc(), Fingerprint::Pending);
    g.record_partial(Some(b"123456789".to_vec()));
    assert_eq!(g.partialcrc(), Fingerprint::Known(0xb4c8));
    g.record_partial(Some(b"other".to_vec()));
    assert_eq!(g.partialcrc(), Fingerprint::Known(0xb4c8));
}

#[test]
fn full_fingerprint_is_crc16_ibm_sdlc() {
    let mut g = FdupesGroup::new("/f", 2048, exact());
    g.record_partial(Some(b"123456789".to_vec()));
    g.record_full(Some(b"123456789".to_vec()));
    assert_eq!(g.fullcrc(), Fingerprint::Known(0x906e));
    g.record_full(None);
    assert_eq!(g.fullcrc(), Fingerprint::Known(0x906e));
}

#[test]
fn failed_read_is_cached() {
    let mut g = FdupesGroup::new("/f", 10, exact());
    g.record_partial(None);
    assert_eq!(g.partialcrc(), Fingerprint::Failed);
    assert_eq!(g.fullcrc(), Fingerprint::Failed);
    g.record_partial(Some(b"0123456789".to_vec()));
    assert_eq!(g.partialcrc(), Fingerprint::Failed);
}

#[test]
fn group_add_and_message() {
    let mut g = FdupesGroup::new("/a", 3, exact());
    assert!(!g.is_empty());
    assert_eq!(g.len(), 1);
    g.add("/b");
    assert_eq!(g.len(), 2);
    assert_eq!(
        g.into_dupe_message(4, 2),
        DupeMessage::Group(3, 4, 2, vec![String::from("/a"), String::from("/b")])
    );
}

#[test]
fn find_files_orders_and_filters_buckets() {
    let scanner = DupeScanner::new(config(2), vec![exact()]).unwrap();
    let found = vec![
        (5, String::from("/s1")),
        (9, String::from("/b1")),
        (1, String::from("/tiny1")),
        (5, String::from("/s2")),
        (7, String::from("/alone")),
        (9, String::from("/b2")),
        (1, String::from("/tiny2")),
        (9, String::from("/b3")),
    ];
    let buckets = scanner.find_files(&found);
    assert_eq!(buckets.len(), 2);
    assert_eq!(buckets[0].size, 9);
    assert_eq!(buckets[0].files, vec!["/b1", "/b2", "/b3"]);
    assert_eq!(buckets[1].size, 5);
    assert_eq!(buckets[1].files, vec!["/s1", "/s2"]);
}

#[test]
fn json_comparator_declines_every_file() {
    let json = JsonGroupComparator::new();
    assert_eq!(json.name(), "json");
    assert!(!json.can_analyse("/x.json"));
    let scanner = DupeScanner::new(
        config(0),
        vec![Comparator::Json(JsonGroupComparator::default()), exact()],
    )
    .unwrap();
    assert_eq!(scanner.comparators().len(), 2);
    assert_eq!(scanner.comparators()[0].name(), "exact");
    assert_eq!(scanner.comparators()[1].name(), "json");
    let found = vec![(4, String::from("/x.json")), (4, String::from("/y.json"))];
    let buckets = scanner.find_files(&found);
    assert_eq!(buckets.len(), 1);
    assert_eq!(buckets[0].comparator.name(), "exact");
}

#[test]
fn exact_comparator_accepts_every_file() {
    let c = ExactGroupComparator::default();
    assert_eq!(c.name(), "exact");
    assert!(c.can_analyse("/anything"));
}

#[test]
fn duplicate_comparator_names_are_refused() {
    let r = DupeScanner::new(config(0), vec![exact(), exact()]);
    assert!(matches!(r, Err(ConfigError::DuplicateComparator(ref n)) if n == "exact"));
}

#[test]
fn scanner_keeps_its_config() {
    let scanner = DupeScanner::new(config(11), vec![]).unwrap();
    assert_eq!(scanner.config().min_size, 11);
    assert!(scanner.find_files(&vec![(20, String::from("/a")), (20, String::from("/b"))]).is_empty());
}

#[test]
fn walk_depth_follows_the_recursion_setting() {
    assert_eq!(walk_depth(true), 1);
    assert_eq!(walk_depth(false), usize::MAX);
}

/// Drives a whole scan over `found`, answering reads from `disk`.
fn run_scan(found: Vec<(u64, String)>, disk: &Disk, min_size: u64) -> Vec<DupeMessage> {
    let scanner = DupeScanner::new(config(min_size), vec![exact()]).unwrap();
    let mut scan = Scan::new();
    scan.start();
    scan.files_found(&scanner, &found);
    let mut sent = Vec::new();
    loop {
        match scan.next_action() {
            ScanAction::Read(comparator, request) => {
                assert_eq!(comparator, exact());
                let data = answer(&request, disk);
                scan.answer(data);
            }
            ScanAction::Send(message) => sent.push(message),
            ScanAction::Finished => break,
        }
    }
    assert_eq!(scan.next_action(), ScanAction::Finished);
    sent
}

#[test]
fn scan_reports_scenario_then_ends() {
    let d = disk(&[
        ("/a/x", Some(b"AAAAAAAAAA")),
        ("/a/y", Some(b"AAAAAAAAAA")),
        ("/a/z", Some(b"BBBBBBBBBB")),
    ]);
    let found = vec![
        (10, String::from("/a/x")),
        (10, String::from("/a/y")),
        (10, String::from("/a/z")),
    ];
    let sent = run_scan(found, &d, 0);
    assert_eq!(sent, vec![group(10, &["/a/x", "/a/y"]), DupeMessage::End]);
}

#[test]
fn scan_goes_from_the_largest_size_down() {
    let d = disk(&[
        ("/s1", Some(b"ab")),
        ("/s2", Some(b"ab")),
        ("/b1", Some(b"abcd")),
        ("/b2", Some(b"abcd")),
        ("/m1", Some(b"abc")),
        ("/m2", Some(b"xyz")),
    ]);
    let found = vec![
        (2, String::from("/s1")),
        (4, String::from("/b1")),
        (3, String::from("/m1")),
        (2, String::from("/s2")),
        (3, String::from("/m2")),
        (4, String::from("/b2")),
    ];
    let sent = run_scan(found, &d, 0);
    assert_eq!(
        sent,
        vec![
            DupeMessage::Group(4, 1, 0, vec![String::from("/b1"), String::from("/b2")]),
            DupeMessage::Group(2, 1, 0, vec![String::from("/s1"), String::from("/s2")]),
            DupeMessage::End,
        ]
    );
}

#[test]
fn scan_of_nothing_only_ends() {
    let sent = run_scan(vec![], &disk(&[]), 0);
    assert_eq!(sent, vec![DupeMessage::End]);
}

#[test]
fn scan_respects_min_size() {
    let d = disk(&[("/a", Some(b"q")), ("/b", Some(b"q"))]);
    let found = vec![(1, String::from("/a")), (1, String::from("/b"))];
    assert_eq!(run_scan(found, &d, 2), vec![DupeMessage::End]);
}

#[test]
fn scan_phases_follow_in_order() {
    let scanner = DupeScanner::new(config(0), vec![exact()]).unwrap();
    let mut scan = Scan::new();
    assert_eq!(scan.current_phase(), ScanPhase::Idle);
    scan.start();
    assert_eq!(scan.current_phase(), ScanPhase::Scanning);
    scan.files_found(&scanner, &vec![]);
    assert_eq!(scan.current_phase(), ScanPhase::Matching);
    assert_eq!(scan.next_action(), ScanAction::Send(DupeMessage::End));
    assert_eq!(scan.current_phase(), ScanPhase::Matching);
    assert_eq!(scan.next_action(), ScanAction::Finished);
    assert_eq!(scan.current_phase(), ScanPhase::Done);
    assert_eq!(scan.next_action(), ScanAction::Finished);
    assert_eq!(scan.current_phase(), ScanPhase::Done);
}

#[test]
fn full_fingerprint_survives_a_later_partial_read() {
    let content = vec![3u8; 1024];
    let mut g = FdupesGroup::new("/f", 1024, exact());
    g.record_partial(Some(content.clone()));
    let full = g.fullcrc();
    assert!(matches!(full, Fingerprint::Known(_)));
    g.record_partial(None);
    assert_eq!(g.fullcrc(), full);
}

#[test]
fn small_file_gets_no_whole_stream_fingerprint() {
    let mut g = FdupesGroup::new("/f", 9, exact());
    g.record_full(Some(b"123456789".to_vec()));
    assert_eq!(g.fullcrc(), Fingerprint::Pending);
    g.record_partial(Some(b"123456789".to_vec()));
    assert_eq!(g.fullcrc(), Fingerprint::Known(0xb4c8));
}

#[test]
fn scan_with_failing_reads_reaches_the_end() {
    let d = disk(&[
        ("/a", Some(b"same")),
        ("/u", None),
        ("/b", Some(b"same")),
        ("/v", None),
        ("/w", None),
    ]);
    let found = vec![
        (4, String::from("/a")),
        (4, String::from("/u")),
        (4, String::from("/b")),
        (7, String::from("/v")),
        (7, String::from("/w")),
    ];
    let sent = run_scan(found, &d, 0);
    assert_eq!(
        sent,
        vec![
            DupeMessage::Group(4, 1, 0, vec![String::from("/a"), String::from("/b")]),
            DupeMessage::End,
        ]
    );
}

fn read_path(r: &Request) -> &str {
    match r {
        Request::Prefix(p, _) | Request::Whole(p) | Request::Chunk(p, _, _) => p,
        Request::Done => panic!("no read is pending"),
    }
}

#[test]
fn reads_touch_only_candidates_and_representatives() {
    let d = disk(&[
        ("/r", Some(b"one")),
        ("/m", Some(b"one")),
        ("/x", Some(b"two")),
        ("/y", Some(b"thr")),
    ]);
    let (messages, log) = run(3, &["/r", "/m", "/x", "/y"], &d);
    assert_eq!(messages, vec![group(3, &["/r", "/m"])]);
    // once "/m" has joined the group of "/r", placing later files never
    // reads "/m"; "/r"'s fingerprints are cached and not read again
    let first_x = log.iter().position(|r| read_path(r) == "/x").unwrap();
    assert!(log[..first_x].iter().any(|r| read_path(r) == "/m"));
    assert!(log[first_x..].iter().all(|r| read_path(r) != "/m"));
    assert!(log.iter().all(|r| ["/r", "/m", "/x", "/y"].contains(&read_path(r))));
}

#[test]
fn partial_mismatch_ends_the_reads_of_a_pair() {
    let a = vec![1u8; 3000];
    let b = vec![2u8; 3000];
    let d = disk(&[("/a", Some(&a)), ("/b", Some(&b))]);
    let (messages, log) = run(3000, &["/a", "/b"], &d);
    assert!(messages.is_empty());
    assert_eq!(
        log,
        vec![
            Request::Prefix(String::from("/b"), 1024),
            Request::Prefix(String::from("/a"), 1024),
        ]
    );
}
