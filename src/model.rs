use vstd::prelude::*;
use crate::tracker::ordinal_of;

verus! {

/// What becomes of a decoded file once its fingerprint has been looked up.
pub enum Decision {
    /// No stored record shares the fingerprint: the file is stored as its
    /// canonical record.
    Canonical,
    /// Second sighting of a fingerprint: a group folder numbered `ordinal`
    /// is opened, and `original` and the file are copied into it.
    NewGroup { ordinal: nat, original: Seq<char> },
    /// Later sighting: the file is copied into the folder of its group.
    JoinGroup { ordinal: nat },
}

/// The scan-local state: the originals whose groups were opened, in order,
/// and the number of files processed.
pub struct ScanModel {
    pub dupes: Seq<Seq<char>>,
    pub processed: nat,
}

/// What outlives a scan: the record store (filename to fingerprint) and the
/// group folders under the scanned directory (number to filenames copied).
pub struct World {
    pub store: Map<Seq<char>, Seq<char>>,
    pub dirs: Map<nat, Set<Seq<char>>>,
}

/// A regular file of the scanned directory: its name, and its fingerprint
/// when it decodes as an image.
pub struct FileEntry {
    pub name: Seq<char>,
    pub fp: Option<Seq<char>>,
}

pub open spec fn initial_scan() -> ScanModel {
    ScanModel { dupes: Seq::empty(), processed: 0 }
}

/// The filename of a stored record with fingerprint `fp`, if there is one.
pub open spec fn lookup(store: Map<Seq<char>, Seq<char>>, fp: Seq<char>) -> Option<Seq<char>> {
    if exists|n: Seq<char>| store.contains_key(n) && store[n] == fp {
        Some(choose|n: Seq<char>| store.contains_key(n) && store[n] == fp)
    } else {
        None
    }
}

/// The decision for a decoded file whose lookup returned `matching`.
pub open spec fn decide(s: ScanModel, matching: Option<Seq<char>>) -> Decision {
    match matching {
        None => Decision::Canonical,
        Some(o) => match ordinal_of(s.dupes, o) {
            Some(k) => Decision::JoinGroup { ordinal: k },
            None => Decision::NewGroup { ordinal: s.dupes.len() + 1, original: o },
        },
    }
}

/// The scan state after a decoded file whose lookup returned `matching`.
pub open spec fn advance(s: ScanModel, matching: Option<Seq<char>>) -> ScanModel {
    let dupes = match decide(s, matching) {
        Decision::NewGroup { ordinal, original } => s.dupes.push(original),
        _ => s.dupes,
    };
    ScanModel { dupes, processed: s.processed + 1 }
}

/// The scan state after a file skipped because the store already knows it.
pub open spec fn count_known(s: ScanModel) -> ScanModel {
    ScanModel { processed: s.processed + 1, ..s }
}

/// Whether a file is skipped without being opened.
pub open spec fn skips(persist: bool, w: World, name: Seq<char>) -> bool {
    persist && w.store.contains_key(name)
}

/// The effect on the store and the folders of carrying out decision `d`
/// for the file `name` with fingerprint `fp`. A record whose filename is
/// already stored is refused; a folder that already exists is not
/// created again, and nothing is copied into it then.
pub open spec fn perform(w: World, name: Seq<char>, fp: Seq<char>, d: Decision) -> World {
    match d {
        Decision::Canonical => if w.store.contains_key(name) {
            w
        } else {
            World { store: w.store.insert(name, fp), ..w }
        },
        Decision::NewGroup { ordinal, original } => if w.dirs.contains_key(ordinal) {
            w
        } else {
            World { dirs: w.dirs.insert(ordinal, set![original, name]), ..w }
        },
        Decision::JoinGroup { ordinal } => World {
            dirs: w.dirs.insert(ordinal, w.dirs[ordinal].insert(name)),
            ..w
        },
    }
}

/// One directory entry handled by the scan.
pub open spec fn entry_step(persist: bool, w: World, s: ScanModel, e: FileEntry) -> (World, ScanModel) {
    if skips(persist, w, e.name) {
        (w, count_known(s))
    } else {
        match e.fp {
            None => (w, s),
            Some(fp) => {
                let m = lookup(w.store, fp);
                (perform(w, e.name, fp, decide(s, m)), advance(s, m))
            },
        }
    }
}

/// The entries handled in order.
pub open spec fn scan(persist: bool, w: World, s: ScanModel, entries: Seq<FileEntry>) -> (World, ScanModel)
    decreases entries.len(),
{
    if entries.len() == 0 {
        (w, s)
    } else {
        let (w1, s1) = scan(persist, w, s, entries.drop_last());
        entry_step(persist, w1, s1, entries.last())
    }
}

/// A whole run. Without `persist` the store is emptied before and after.
pub open spec fn run(persist: bool, w: World, entries: Seq<FileEntry>) -> (World, ScanModel) {
    let w0 = if persist { w } else { World { store: Map::empty(), ..w } };
    let (w1, s) = scan(persist, w0, initial_scan(), entries);
    (if persist { w1 } else { World { store: Map::empty(), ..w1 } }, s)
}

} // verus!
