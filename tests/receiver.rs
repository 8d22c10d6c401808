use fdupes::{mark_group, BasicReceiver, Config, Mark};

#[test]
fn mark_group_false() {
    let mut files = vec![
        (String::from("test1"), Mark::Keep),
        (String::from("test2"), Mark::Keep),
        (String::from("test3"), Mark::Keep),
    ];
    mark_group(&mut files, Mark::Purge);
    for (file, mark) in files {
        assert!(mark == Mark::Purge, "{file:?} should be purged");
    }
}

#[test]
fn mark_group_true() {
    let mut files = vec![
        (String::from("test1"), Mark::Purge),
        (String::from("test2"), Mark::Purge),
        (String::from("test3"), Mark::Purge),
    ];
    mark_group(&mut files, Mark::Keep);
    for (file, mark) in files {
        assert!(mark == Mark::Keep, "{file:?} should be retained");
    }
}

#[test]
fn mark_group_keeps_names_and_order() {
    let mut files = vec![(String::from("b"), Mark::Keep), (String::from("a"), Mark::Purge)];
    mark_group(&mut files, Mark::Purge);
    assert_eq!(
        files,
        vec![(String::from("b"), Mark::Purge), (String::from("a"), Mark::Purge)]
    );
}

#[test]
fn basic_receiver_holds_config() {
    let config = Config {
        roots: vec![String::from("/a")],
        non_recursive: false,
        min_size: 3,
        show_sizes: true,
        prompt: false,
        trash: true,
        classic_mode: true,
    };
    let receiver = BasicReceiver::new(config);
    assert_eq!(receiver.config.min_size, 3);
    assert!(receiver.config.trash);
}

fn three(mark: Mark) -> Vec<(String, Mark)> {
    vec![
        (String::from("test1"), mark),
        (String::from("test2"), mark),
        (String::from("test3"), mark),
    ]
}

#[test]
fn process_input_empty() {
    let mut files = three(Mark::Purge);
    let done = BasicReceiver::process_input("", &mut files);
    assert!(!done);
    for (file, mark) in files {
        assert!(mark == Mark::Purge, "{file:?} should be purged");
    }
}

#[test]
fn process_input_all() {
    let mut files = three(Mark::Purge);
    let done = BasicReceiver::process_input("all", &mut files);
    assert!(done);
    for (file, mark) in files {
        assert!(mark == Mark::Keep, "{file:?} should be retained");
    }
}

#[test]
fn process_input_none() {
    let mut files = three(Mark::Purge);
    let done = BasicReceiver::process_input("none", &mut files);
    assert!(done);
    for (file, mark) in files {
        assert!(mark == Mark::Purge, "{file:?} should be purged");
    }
}

#[test]
fn process_input_single() {
    let mut files = three(Mark::Purge);
    let done = BasicReceiver::process_input("2", &mut files);
    assert!(done);
    for (file, mark) in files {
        if file == "test2" {
            assert!(mark == Mark::Keep, "{file:?} should be retained");
        } else {
            assert!(mark == Mark::Purge, "{file:?} should be purged");
        }
    }
}

#[test]
fn process_input_several_choices() {
    let mut files = three(Mark::Purge);
    assert!(BasicReceiver::process_input(" 1,3\n", &mut files));
    let marks: Vec<Mark> = files.iter().map(|f| f.1).collect();
    assert_eq!(marks, vec![Mark::Keep, Mark::Purge, Mark::Keep]);
}

#[test]
fn process_input_later_choice_wins() {
    let mut files = three(Mark::Purge);
    assert!(BasicReceiver::process_input("all none", &mut files));
    assert!(files.iter().all(|f| f.1 == Mark::Purge));
    let mut files = three(Mark::Purge);
    assert!(BasicReceiver::process_input("none\u{3000}+2", &mut files));
    let marks: Vec<Mark> = files.iter().map(|f| f.1).collect();
    assert_eq!(marks, vec![Mark::Purge, Mark::Keep, Mark::Purge]);
}

#[test]
fn process_input_ignores_what_it_cannot_use() {
    let mut files = three(Mark::Purge);
    let done = BasicReceiver::process_input("0 4 x -1 + 99999999999999999999999 quit", &mut files);
    assert!(!done);
    assert!(files.iter().all(|f| f.1 == Mark::Purge));
    assert_eq!(files[1].0, "test2");
}

#[test]
fn requests_quit_finds_the_word() {
    assert!(BasicReceiver::requests_quit("1, quit"));
    assert!(BasicReceiver::requests_quit("quit"));
    assert!(!BasicReceiver::requests_quit("quitting 1"));
    assert!(!BasicReceiver::requests_quit(""));
}

#[test]
fn files_to_purge_lists_purged_names_in_order() {
    let files = vec![
        (String::from("a"), Mark::Purge),
        (String::from("b"), Mark::Keep),
        (String::from("c"), Mark::Purge),
    ];
    assert_eq!(BasicReceiver::files_to_purge(&files), vec!["a", "c"]);
    assert!(BasicReceiver::files_to_purge(&vec![(String::from("k"), Mark::Keep)]).is_empty());
}

#[test]
fn size_unit_is_singular_for_one() {
    assert_eq!(BasicReceiver::size_unit(1), "byte");
    assert_eq!(BasicReceiver::size_unit(0), "bytes");
    assert_eq!(BasicReceiver::size_unit(1024), "bytes");
}
