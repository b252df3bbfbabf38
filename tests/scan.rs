use dupe_sort::scan::{Placement, Scan};
use dupe_sort::tracker::DupeTracker;
use std::collections::{BTreeMap, BTreeSet, HashMap};

/// Record store and group folders, kept in memory the way the program
/// keeps them on disk.
struct World {
    store: HashMap<String, String>,
    dirs: BTreeMap<u64, BTreeSet<String>>,
}

impl World {
    fn new() -> World {
        World { store: HashMap::new(), dirs: BTreeMap::new() }
    }

    fn lookup(&self, fp: &str) -> Option<String> {
        self.store.iter().find(|(_, v)| v.as_str() == fp).map(|(k, _)| k.clone())
    }
}

/// Runs one scan over `entries` (filename, fingerprint if decodable), carrying
/// out each decision as the program does. Returns (processed, groups).
fn run(persist: bool, w: &mut World, entries: &[(&str, Option<&str>)]) -> (u64, u64) {
    if !persist {
        w.store.clear();
    }
    let mut scan = Scan::new();
    for (name, fp) in entries {
        let known = persist && w.store.contains_key(*name);
        if scan.skip_known(persist, known) {
            continue;
        }
        let fp = match fp {
            Some(fp) => fp.to_string(),
            None => continue,
        };
        match scan.place(w.lookup(&fp)) {
            Placement::Canonical => {
                if !w.store.contains_key(*name) {
                    w.store.insert(name.to_string(), fp);
                }
            }
            Placement::NewGroup { ordinal, original } => {
                if !w.dirs.contains_key(&ordinal) {
                    let set: BTreeSet<String> =
                        [original, name.to_string()].into_iter().collect();
                    w.dirs.insert(ordinal, set);
                }
            }
            Placement::JoinGroup { ordinal } => {
                w.dirs.get_mut(&ordinal).unwrap().insert(name.to_string());
            }
        }
    }
    if !persist {
        w.store.clear();
    }
    (scan.processed(), scan.groups())
}

fn set(names: &[&str]) -> BTreeSet<String> {
    names.iter().map(|n| n.to_string()).collect()
}

#[test]
fn tracker_registers_in_order() {
    let mut t = DupeTracker::new();
    assert_eq!(t.len(), 0);
    assert_eq!(t.find(&"a.jpg".to_string()), None);
    assert_eq!(t.register("a.jpg".to_string()), 1);
    assert_eq!(t.register("b.jpg".to_string()), 2);
    assert_eq!(t.find(&"a.jpg".to_string()), Some(1));
    assert_eq!(t.find(&"b.jpg".to_string()), Some(2));
    assert_eq!(t.find(&"c.jpg".to_string()), None);
    assert_eq!(t.len(), 2);
}

#[test]
fn skip_only_known_files_in_persistent_runs() {
    let mut s = Scan::new();
    assert!(!s.skip_known(false, true));
    assert!(!s.skip_known(true, false));
    assert!(!s.skip_known(false, false));
    assert_eq!(s.processed(), 0);
    assert!(s.skip_known(true, true));
    assert_eq!(s.processed(), 1);
    assert_eq!(s.groups(), 0);
}

#[test]
fn place_decides_each_sighting() {
    let mut s = Scan::new();
    assert!(matches!(s.place(None), Placement::Canonical));
    match s.place(Some("a.jpg".to_string())) {
        Placement::NewGroup { ordinal, original } => {
            assert_eq!(ordinal, 1);
            assert_eq!(original, "a.jpg");
        }
        _ => panic!("expected a new group"),
    }
    assert!(matches!(s.place(Some("a.jpg".to_string())), Placement::JoinGroup { ordinal: 1 }));
    match s.place(Some("x.jpg".to_string())) {
        Placement::NewGroup { ordinal, original } => {
            assert_eq!(ordinal, 2);
            assert_eq!(original, "x.jpg");
        }
        _ => panic!("expected a new group"),
    }
    assert!(matches!(s.place(Some("a.jpg".to_string())), Placement::JoinGroup { ordinal: 1 }));
    assert_eq!(s.processed(), 5);
    assert_eq!(s.groups(), 2);
    assert!(s.has_room());
}

#[test]
fn two_copies_and_one_distinct() {
    let mut w = World::new();
    let r = run(false, &mut w, &[("A.jpg", Some("h1")), ("B.jpg", Some("h1")), ("C.jpg", Some("h2"))]);
    assert_eq!(r, (3, 1));
    assert_eq!(w.dirs.len(), 1);
    assert_eq!(w.dirs[&1], set(&["A.jpg", "B.jpg"]));
}

#[test]
fn three_copies_share_one_folder() {
    let mut w = World::new();
    let r = run(false, &mut w, &[("A.jpg", Some("h1")), ("B.jpg", Some("h1")), ("C.jpg", Some("h1"))]);
    assert_eq!(r, (3, 1));
    assert_eq!(w.dirs.len(), 1);
    assert_eq!(w.dirs[&1], set(&["A.jpg", "B.jpg", "C.jpg"]));
}

#[test]
fn distinct_images_open_no_group() {
    let mut w = World::new();
    let r = run(false, &mut w, &[("a", Some("1")), ("b", Some("2")), ("c", Some("3")), ("d", Some("4"))]);
    assert_eq!(r, (4, 0));
    assert!(w.dirs.is_empty());
}

#[test]
fn empty_directory() {
    let mut w = World::new();
    assert_eq!(run(true, &mut w, &[]), (0, 0));
    assert!(w.dirs.is_empty());
    assert!(w.store.is_empty());
}

#[test]
fn undecodable_files_are_not_counted() {
    let mut w = World::new();
    let r = run(false, &mut w, &[("a", Some("1")), ("notes.txt", None), ("b", Some("1"))]);
    assert_eq!(r, (2, 1));
    assert_eq!(w.dirs[&1], set(&["a", "b"]));
}

#[test]
fn two_sets_get_consecutive_folders() {
    let mut w = World::new();
    let entries = [
        ("p1", Some("P")),
        ("q1", Some("Q")),
        ("q2", Some("Q")),
        ("p2", Some("P")),
        ("q3", Some("Q")),
        ("p3", Some("P")),
    ];
    assert_eq!(run(false, &mut w, &entries), (6, 2));
    assert_eq!(w.dirs.len(), 2);
    assert_eq!(w.dirs[&1], set(&["q1", "q2", "q3"]));
    assert_eq!(w.dirs[&2], set(&["p1", "p2", "p3"]));
}

#[test]
fn persistent_rerun_skips_and_adds_no_folder() {
    let mut w = World::new();
    let entries = [("A.jpg", Some("h1")), ("B.jpg", Some("h1")), ("C.jpg", Some("h2")), ("D.jpg", Some("h2"))];
    assert_eq!(run(true, &mut w, &entries), (4, 2));
    let dirs_after_first = w.dirs.clone();
    assert_eq!(w.store.len(), 2);
    let second = run(true, &mut w, &entries);
    assert_eq!(second.0, 4);
    assert_eq!(w.dirs.keys().collect::<Vec<_>>(), dirs_after_first.keys().collect::<Vec<_>>());
    assert_eq!(w.dirs, dirs_after_first);
}

#[test]
fn stateless_rerun_finds_the_same_groups() {
    let mut w = World::new();
    let entries = [("A.jpg", Some("h1")), ("B.jpg", Some("h1")), ("C.jpg", Some("h2"))];
    let first = run(false, &mut w, &entries);
    assert!(w.store.is_empty());
    let second = run(false, &mut w, &entries);
    assert!(w.store.is_empty());
    assert_eq!(first, second);
    assert_eq!(w.dirs[&1], set(&["A.jpg", "B.jpg"]));
}

#[test]
fn existing_folder_is_left_alone() {
    let mut w = World::new();
    w.dirs.insert(1, set(&["old.jpg"]));
    let r = run(false, &mut w, &[("A.jpg", Some("h1")), ("B.jpg", Some("h1"))]);
    assert_eq!(r, (2, 1));
    assert_eq!(w.dirs[&1], set(&["old.jpg"]));
}
