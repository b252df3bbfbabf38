use vstd::prelude::*;
use crate::model::{advance, count_known, decide, initial_scan, Decision, ScanModel};
use crate::tracker::DupeTracker;

verus! {

/// The decision for one decoded file, as the caller carries it out.
pub enum Placement {
    /// Store the file as the canonical record of its fingerprint.
    Canonical,
    /// Create folder `ordinal`, then copy `original` and the file into it.
    NewGroup { ordinal: u64, original: String },
    /// Copy the file into folder `ordinal`.
    JoinGroup { ordinal: u64 },
}

impl View for Placement {
    type V = Decision;

    open spec fn view(&self) -> Decision {
        match self {
            Placement::Canonical => Decision::Canonical,
            Placement::NewGroup { ordinal, original } => Decision::NewGroup {
                ordinal: *ordinal as nat,
                original: original@,
            },
            Placement::JoinGroup { ordinal } => Decision::JoinGroup { ordinal: *ordinal as nat },
        }
    }
}

/// The view of a lookup result.
pub open spec fn matching_view(m: Option<String>) -> Option<Seq<char>> {
    match m {
        Some(s) => Some(s@),
        None => None,
    }
}

/// The state of one scan: the groups opened and the files processed.
pub struct Scan {
    tracker: DupeTracker,
    processed: u64,
}

impl View for Scan {
    type V = ScanModel;

    closed spec fn view(&self) -> ScanModel {
        ScanModel { dupes: self.tracker@, processed: self.processed as nat }
    }
}

impl Scan {
    pub closed spec fn wf(&self) -> bool {
        self.tracker.wf() && self.tracker@.len() <= self.processed
    }

    pub fn new() -> (r: Scan)
        ensures
            r.wf(),
            r@ == initial_scan(),
    {
        Scan { tracker: DupeTracker::new(), processed: 0 }
    }

    /// Number of files counted as processed.
    pub fn processed(&self) -> (r: u64)
        ensures
            r == self@.processed,
    {
        self.processed
    }

    /// Number of duplicate groups opened.
    pub fn groups(&self) -> (r: u64)
        requires
            self.wf(),
        ensures
            r == self@.dupes.len(),
    {
        self.tracker.len()
    }

    /// Whether the scan can count one more file.
    pub fn has_room(&self) -> (r: bool)
        ensures
            r == (self@.processed < u64::MAX),
    {
        self.processed < u64::MAX
    }

    /// Skip check for a file whose name the store knows (`known`): in a
    /// persistent run such a file is counted and not opened.
    pub fn skip_known(&mut self, persist: bool, known: bool) -> (r: bool)
        requires
            old(self).wf(),
            old(self)@.processed < u64::MAX,
        ensures
            final(self).wf(),
            r == (persist && known),
            final(self)@ == if r { count_known(old(self)@) } else { old(self)@ },
    {
        if persist && known {
            self.processed = self.processed + 1;
            true
        } else {
            false
        }
    }

    /// Decides what becomes of a decoded file, given the filename of the
    /// stored record with the same fingerprint (`matching`), and counts it.
    pub fn place(&mut self, matching: Option<String>) -> (r: Placement)
        requires
            old(self).wf(),
            old(self)@.processed < u64::MAX,
        ensures
            final(self).wf(),
            r@ == decide(old(self)@, matching_view(matching)),
            final(self)@ == advance(old(self)@, matching_view(matching)),
    {
        let r = match matching {
            None => Placement::Canonical,
            Some(original) => match self.tracker.find(&original) {
                Some(k) => Placement::JoinGroup { ordinal: k },
                None => {
                    let ordinal = self.tracker.register(original.clone());
                    Placement::NewGroup { ordinal, original }
                },
            },
        };
        self.processed = self.processed + 1;
        r
    }
}

} // verus!
