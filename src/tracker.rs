use vstd::prelude::*;

verus! {

/// The ordinal of the group opened for `original`, if any: the position
/// (counted from one) of its entry among the registered originals.
pub open spec fn ordinal_of(dupes: Seq<Seq<char>>, original: Seq<char>) -> Option<nat>
    decreases dupes.len(),
{
    if dupes.len() == 0 {
        None
    } else if dupes.last() == original {
        Some(dupes.len())
    } else {
        ordinal_of(dupes.drop_last(), original)
    }
}

/// A duplicate set found during a scan: the filename of its canonical
/// record and the number of the folder that collects it.
pub struct KnownDupe {
    pub filename: String,
    pub folder: u64,
}

/// The registry of duplicate sets found so far in one scan.
pub struct DupeTracker {
    entries: Vec<KnownDupe>,
}

impl View for DupeTracker {
    type V = Seq<Seq<char>>;

    /// The registered originals, in the order their groups were opened.
    closed spec fn view(&self) -> Seq<Seq<char>> {
        self.entries@.map_values(|e: KnownDupe| e.filename@)
    }
}

impl DupeTracker {
    /// Each entry's folder is its position counted from one.
    pub closed spec fn wf(&self) -> bool {
        forall|i: int| 0 <= i < self.entries@.len() ==> #[trigger] self.entries@[i].folder == i + 1
    }

    pub fn new() -> (r: DupeTracker)
        ensures
            r.wf(),
            r@ == Seq::<Seq<char>>::empty(),
    {
        DupeTracker { entries: Vec::new() }
    }

    /// Number of groups opened so far.
    pub fn len(&self) -> (r: u64)
        requires
            self.wf(),
        ensures
            r == self@.len(),
    {
        let n = self.entries.len();
        if n == 0 {
            0
        } else {
            self.entries[n - 1].folder
        }
    }

    /// The folder of the group opened for `original`, if one was.
    pub fn find(&self, original: &String) -> (r: Option<u64>)
        requires
            self.wf(),
        ensures
            r matches Some(k) ==> ordinal_of(self@, original@) == Some(k as nat),
            r is None ==> ordinal_of(self@, original@) is None,
    {
        let mut i: usize = self.entries.len();
        assert(self@.take(i as int) =~= self@);
        while i > 0
            invariant
                self.wf(),
                i <= self.entries@.len(),
                ordinal_of(self@, original@) == ordinal_of(self@.take(i as int), original@),
            decreases i,
        {
            let ghost d = self@.take(i as int);
            assert(d.drop_last() =~= self@.take(i - 1));
            if self.entries[i - 1].filename == *original {
                return Some(self.entries[i - 1].folder);
            }
            i = i - 1;
        }
        assert(self@.take(0) =~= Seq::<Seq<char>>::empty());
        None
    }

    /// Opens the next group for `original` and returns its folder number.
    pub fn register(&mut self, original: String) -> (r: u64)
        requires
            old(self).wf(),
            old(self)@.len() < u64::MAX,
        ensures
            final(self).wf(),
            final(self)@ == old(self)@.push(original@),
            r == final(self)@.len(),
    {
        let folder = self.len() + 1;
        self.entries.push(KnownDupe { filename: original, folder });
        assert(self@ =~= old(self)@.push(original@));
        folder
    }
}

} // verus!
