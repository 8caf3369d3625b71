use notfail::cache::{DirEntry, TestCache};
use notfail::paths::{cache_path_in, get_socket_path, socket_path_in};
use notfail::select::{
    menu, recent_directories, select_digit, valid_directories, SelectError, MAX_OFFERED,
};

fn strings(v: &[&str]) -> Vec<String> {
    v.iter().map(|s| s.to_string()).collect()
}

fn bytes(s: &str) -> Option<Vec<u8>> {
    Some(s.as_bytes().to_vec())
}

#[test]
fn counts_are_given_back() {
    let mut cache = TestCache::default();
    assert_eq!(cache.get_expected_tests("/a"), None);
    cache.set_expected_tests("/a", 7, Some(100));
    cache.set_expected_tests("/b", 8, Some(50));
    assert_eq!(cache.get_expected_tests("/a"), Some(7));
    assert_eq!(cache.get_expected_tests("/b"), Some(8));
    cache.set_expected_tests("/a", 9, None);
    assert_eq!(cache.get_expected_tests("/a"), Some(9));
    assert_eq!(cache.get_expected_tests("/b"), Some(8));
    assert_eq!(cache.save().len(), 2);
    assert!(cache.save().contains(&("/a".to_string(), DirEntry { test_count: 9, last_run: 0 })));
}

#[test]
fn touch_keeps_the_count() {
    let mut cache = TestCache::default();
    cache.touch("/new", Some(5));
    assert_eq!(cache.get_expected_tests("/new"), Some(0));
    cache.set_expected_tests("/new", 4, Some(6));
    cache.touch("/new", Some(9));
    assert_eq!(cache.save(), &vec![("/new".to_string(), DirEntry { test_count: 4, last_run: 9 })]);
    cache.touch("/new", None);
    assert_eq!(cache.save(), &vec![("/new".to_string(), DirEntry { test_count: 4, last_run: 0 })]);
}

#[test]
fn latest_directories_come_first() {
    let mut cache = TestCache::default();
    for (dir, time) in [("/a", 30), ("/b", 10), ("/c", 40), ("/d", 20)] {
        cache.touch(dir, Some(time));
    }
    assert_eq!(cache.get_recent_directories(10), strings(&["/c", "/a", "/d", "/b"]));
    assert_eq!(cache.get_recent_directories(2), strings(&["/c", "/a"]));
    assert!(cache.get_recent_directories(0).is_empty());
    cache.touch("/b", Some(41));
    assert_eq!(cache.get_recent_directories(1), strings(&["/b"]));
    cache.set_expected_tests("/d", 3, Some(42));
    assert_eq!(cache.get_recent_directories(2), strings(&["/d", "/b"]));
    cache.touch("/d", Some(1));
    // Where two were run in at the same time, either may come first.
    cache.touch("/a", Some(41));
    let mut first = cache.get_recent_directories(2);
    first.sort();
    assert_eq!(first, strings(&["/a", "/b"]));
}

#[test]
fn stored_entries_are_loaded() {
    let mut cache = TestCache::default();
    cache.set_expected_tests("/a", 1, Some(2));
    cache.set_expected_tests("/b", 3, Some(4));
    let mut entries = cache.save().clone();
    entries.reverse();
    let loaded = TestCache::load(Some(entries));
    assert_eq!(loaded.get_expected_tests("/a"), Some(1));
    assert_eq!(loaded.get_expected_tests("/b"), Some(3));
    assert_eq!(loaded.get_recent_directories(9), cache.get_recent_directories(9));
    assert!(TestCache::load(None).save().is_empty());
    // Of two entries for one directory the later one counts.
    let twice = vec![
        ("/a".to_string(), DirEntry { test_count: 1, last_run: 1 }),
        ("/a".to_string(), DirEntry { test_count: 2, last_run: 2 }),
    ];
    assert_eq!(TestCache::load(Some(twice)).get_expected_tests("/a"), Some(2));
}

#[test]
fn cache_file_lies_with_the_caches() {
    let expected = dirs::cache_dir()
        .unwrap_or_else(|| "/tmp".into())
        .join("notfail")
        .join("test_cache.json");
    assert_eq!(TestCache::cache_path(), expected.into_os_string().into_encoded_bytes());
    assert_eq!(cache_path_in(None), b"/tmp/notfail/test_cache.json");
    assert_eq!(cache_path_in(bytes("/h/.cache")), b"/h/.cache/notfail/test_cache.json");
    assert_eq!(cache_path_in(bytes("/")), b"/notfail/test_cache.json");
    assert_eq!(cache_path_in(bytes("")), b"notfail/test_cache.json");
}

#[test]
fn socket_lies_with_the_session() {
    let command = "npm test -- --silent";
    let hash = command
        .bytes()
        .fold(0u64, |acc, b| acc.wrapping_mul(31).wrapping_add(b as u64));
    let expected = dirs::runtime_dir()
        .or_else(dirs::cache_dir)
        .unwrap_or_else(|| "/tmp".into())
        .join(format!("notfail-{:x}.sock", hash));
    assert_eq!(get_socket_path(command), expected.into_os_string().into_encoded_bytes());
    assert_eq!(socket_path_in(None, None, ""), b"/tmp/notfail-0.sock");
    assert_eq!(socket_path_in(None, bytes("/c"), "a"), b"/c/notfail-61.sock");
    assert_eq!(socket_path_in(bytes("/r/"), bytes("/c"), "ab"), b"/r/notfail-c21.sock");
    // One socket for each hash: these two have the same.
    assert_eq!(socket_path_in(None, None, "Aa"), socket_path_in(None, None, "BB"));
    assert_ne!(socket_path_in(None, None, "Aa"), socket_path_in(None, None, "Ab"));
}

#[test]
fn recent_directories_are_offered() {
    let mut cache = TestCache::default();
    assert_eq!(recent_directories(&cache), Err(SelectError::NoneCached));
    for i in 0..12u64 {
        cache.touch(&format!("/{}", i), Some(i));
    }
    let recent = recent_directories(&cache).unwrap();
    assert_eq!(recent.len(), MAX_OFFERED);
    assert_eq!(recent[0], "/11");
    assert_eq!(recent[9], "/2");
}

#[test]
fn only_packages_are_offered() {
    let recent = strings(&["/a", "/b", "/c"]);
    assert_eq!(
        valid_directories(&recent, &vec![true, false, true]),
        Ok(strings(&["/a", "/c"]))
    );
    assert_eq!(
        valid_directories(&recent, &vec![false, false, false]),
        Err(SelectError::NoneValid)
    );
    assert_eq!(valid_directories(&vec![], &vec![]), Err(SelectError::NoneValid));
}

#[test]
fn menu_of_the_readme() {
    let dirs = strings(&["/Users/you/projects/app", "/Users/you/projects/library"]);
    assert_eq!(
        menu(&dirs),
        "No package.json found. Select a recent directory:\n\
         0> /Users/you/projects/app\n\
         1> /Users/you/projects/library\n\
         \n\
         Press 0-1: "
    );
    assert_eq!(
        menu(&vec![]),
        "No package.json found. Select a recent directory:\n\nPress 0-0: "
    );
}

#[test]
fn keys_select() {
    for i in 0..10usize {
        assert_eq!(select_digit(b'0' + i as u8, 10), Ok(i));
    }
    assert_eq!(select_digit(b'2', 2), Err(SelectError::InvalidKey('2')));
    assert_eq!(select_digit(b'0', 0), Err(SelectError::InvalidKey('0')));
    for key in 0..=u8::MAX {
        let expected = match (key as char).to_digit(10) {
            Some(digit) if digit < 7 => Ok(digit as usize),
            _ => Err(SelectError::InvalidKey(key as char)),
        };
        assert_eq!(select_digit(key, 7), expected);
    }
}

#[test]
fn errors_are_told() {
    assert_eq!(
        SelectError::NoneCached.message(),
        "No package.json found and no recent test directories cached"
    );
    assert_eq!(
        SelectError::NoneValid.message(),
        "No package.json found and no valid cached directories"
    );
    assert_eq!(SelectError::InvalidKey('x').message(), "Invalid selection: x");
}
