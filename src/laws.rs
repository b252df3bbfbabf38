use vstd::prelude::*;
use crate::tracker::ordinal_of;
use crate::model::{
    count_known, decide, entry_step, initial_scan, lookup, perform, run, scan, skips, FileEntry,
    ScanModel, World,
};

verus! {

/// No two entries share a filename, as in one directory.
pub open spec fn names_distinct(es: Seq<FileEntry>) -> bool {
    forall|i: int, j: int| 0 <= i < j < es.len() ==> es[i].name != es[j].name
}

/// Every entry decodes as an image.
pub open spec fn all_decodable(es: Seq<FileEntry>) -> bool {
    forall|i: int| 0 <= i < es.len() ==> (#[trigger] es[i]).fp is Some
}

/// No two entries share a fingerprint.
pub open spec fn fps_distinct(es: Seq<FileEntry>) -> bool {
    forall|i: int, j: int| 0 <= i < j < es.len() ==> es[i].fp != es[j].fp
}

/// The filenames of the entries.
pub open spec fn names_of(es: Seq<FileEntry>) -> Set<Seq<char>> {
    Set::new(|n: Seq<char>| exists|i: int| 0 <= i < es.len() && es[i].name == n)
}

/// The records of entries stored in order, each under its filename.
pub open spec fn store_of(es: Seq<FileEntry>) -> Map<Seq<char>, Seq<char>>
    decreases es.len(),
{
    if es.len() == 0 {
        Map::empty()
    } else {
        store_of(es.drop_last()).insert(es.last().name, es.last().fp.unwrap())
    }
}

proof fn lemma_store_of_records(es: Seq<FileEntry>)
    requires
        all_decodable(es),
    ensures
        forall|n: Seq<char>| #[trigger] store_of(es).contains_key(n) ==> exists|i: int|
            0 <= i < es.len() && es[i].name == n && es[i].fp == Some(store_of(es)[n]),
    decreases es.len(),
{
    if es.len() > 0 {
        let pre = es.drop_last();
        assert(forall|i: int| 0 <= i < pre.len() ==> pre[i] == es[i]);
        assert(es[es.len() - 1].fp is Some);
        lemma_store_of_records(pre);
        assert forall|n: Seq<char>| #[trigger] store_of(es).contains_key(n) implies exists|i: int|
            0 <= i < es.len() && es[i].name == n && es[i].fp == Some(store_of(es)[n]) by {
            if n == es.last().name {
                assert(es[es.len() - 1].name == n);
            } else {
                let i = choose|i: int|
                    0 <= i < pre.len() && pre[i].name == n && pre[i].fp == Some(store_of(pre)[n]);
                assert(es[i] == pre[i]);
            }
        }
    }
}

/// The scan state depends on the store alone, and so does the store it
/// leaves, whatever the folders hold.
proof fn lemma_scan_ignores_dirs(persist: bool, w1: World, w2: World, s: ScanModel, es: Seq<FileEntry>)
    requires
        w1.store == w2.store,
    ensures
        scan(persist, w1, s, es).1 == scan(persist, w2, s, es).1,
        scan(persist, w1, s, es).0.store == scan(persist, w2, s, es).0.store,
    decreases es.len(),
{
    if es.len() > 0 {
        lemma_scan_ignores_dirs(persist, w1, w2, s, es.drop_last());
    }
}

/// A run without `persist` leaves no record behind, and a second such run
/// over the same entries finds the same groups and the same count.
pub proof fn lemma_stateless_run(w: World, entries: Seq<FileEntry>)
    ensures
        run(false, w, entries).0.store == Map::<Seq<char>, Seq<char>>::empty(),
        run(false, run(false, w, entries).0, entries).1 == run(false, w, entries).1,
{
    let w1 = run(false, w, entries).0;
    lemma_scan_ignores_dirs(
        false,
        World { store: Map::empty(), ..w },
        World { store: Map::empty(), ..w1 },
        initial_scan(),
        entries,
    );
}

proof fn lemma_distinct_scan(persist: bool, w: World, es: Seq<FileEntry>)
    requires
        w.store == Map::<Seq<char>, Seq<char>>::empty(),
        names_distinct(es),
        all_decodable(es),
        fps_distinct(es),
    ensures
        scan(persist, w, initial_scan(), es).0 == (World { store: store_of(es), dirs: w.dirs }),
        scan(persist, w, initial_scan(), es).1 == (ScanModel {
            dupes: Seq::empty(),
            processed: es.len(),
        }),
    decreases es.len(),
{
    if es.len() > 0 {
        let pre = es.drop_last();
        let e = es.last();
        assert(forall|i: int| 0 <= i < pre.len() ==> pre[i] == es[i]);
        lemma_distinct_scan(persist, w, pre);
        lemma_store_of_records(pre);
        let st = store_of(pre);
        let fp = e.fp.unwrap();
        assert(es[es.len() - 1].fp is Some);
        if st.contains_key(e.name) {
            let i = choose|i: int| 0 <= i < pre.len() && pre[i].name == e.name && pre[i].fp == Some(st[e.name]);
            assert(es[i].name != es[es.len() - 1].name);
        }
        if exists|n: Seq<char>| st.contains_key(n) && st[n] == fp {
            let n = choose|n: Seq<char>| st.contains_key(n) && st[n] == fp;
            let i = choose|i: int| 0 <= i < pre.len() && pre[i].name == n && pre[i].fp == Some(st[n]);
            assert(es[i].fp != es[es.len() - 1].fp);
        }
        assert(lookup(st, fp) is None);
    }
}

/// Images with pairwise distinct fingerprints in a fresh store: every one
/// is processed, no group is opened and no folder changes.
pub proof fn lemma_distinct_images(persist: bool, w: World, entries: Seq<FileEntry>)
    requires
        persist ==> w.store == Map::<Seq<char>, Seq<char>>::empty(),
        names_distinct(entries),
        all_decodable(entries),
        fps_distinct(entries),
    ensures
        run(persist, w, entries).1.processed == entries.len(),
        run(persist, w, entries).1.dupes.len() == 0,
        run(persist, w, entries).0.dirs == w.dirs,
{
    let w0 = if persist { w } else { World { store: Map::empty(), ..w } };
    lemma_distinct_scan(persist, w0, entries);
}

/// Every entry has fingerprint `f`.
pub open spec fn all_share(es: Seq<FileEntry>, f: Seq<char>) -> bool {
    forall|i: int| 0 <= i < es.len() ==> (#[trigger] es[i]).fp == Some(f)
}

proof fn lemma_names_of_push(es: Seq<FileEntry>)
    requires
        es.len() > 0,
    ensures
        names_of(es) == names_of(es.drop_last()).insert(es.last().name),
{
    let pre = es.drop_last();
    assert forall|n: Seq<char>| #[trigger] names_of(es).contains(n) implies names_of(pre).insert(
        es.last().name,
    ).contains(n) by {
        let i = choose|i: int| 0 <= i < es.len() && es[i].name == n;
        if i < pre.len() {
            assert(pre[i] == es[i]);
        }
    }
    assert forall|n: Seq<char>| #[trigger] names_of(pre).insert(es.last().name).contains(n)
        implies names_of(es).contains(n) by {
        if n == es.last().name {
            assert(es[es.len() - 1].name == n);
        } else {
            let i = choose|i: int| 0 <= i < pre.len() && pre[i].name == n;
            assert(pre[i] == es[i]);
        }
    }
    assert(names_of(es) =~= names_of(pre).insert(es.last().name));
}

proof fn lemma_one_set_scan(persist: bool, w: World, es: Seq<FileEntry>, f: Seq<char>)
    requires
        w.store == Map::<Seq<char>, Seq<char>>::empty(),
        !w.dirs.contains_key(1),
        es.len() >= 1,
        names_distinct(es),
        all_share(es, f),
    ensures
        scan(persist, w, initial_scan(), es).0.store == map![es[0].name => f],
        scan(persist, w, initial_scan(), es).1.processed == es.len(),
        es.len() == 1 ==> scan(persist, w, initial_scan(), es).1.dupes == Seq::<Seq<char>>::empty(),
        es.len() == 1 ==> scan(persist, w, initial_scan(), es).0.dirs == w.dirs,
        es.len() >= 2 ==> scan(persist, w, initial_scan(), es).1.dupes == seq![es[0].name],
        es.len() >= 2 ==> scan(persist, w, initial_scan(), es).0.dirs == w.dirs.insert(
            1,
            names_of(es),
        ),
    decreases es.len(),
{
    let pre = es.drop_last();
    let e = es.last();
    assert(es[es.len() - 1].fp == Some(f));
    if es.len() == 1 {
        assert(pre.len() == 0);
        assert(lookup(Map::<Seq<char>, Seq<char>>::empty(), f) is None);
        assert(w.store.insert(es[0].name, f) =~= map![es[0].name => f]);
    } else {
        assert(forall|i: int| 0 <= i < pre.len() ==> pre[i] == es[i]);
        lemma_one_set_scan(persist, w, pre, f);
        let st = map![es[0].name => f];
        assert(es[0].name != es[es.len() - 1].name);
        assert(st.contains_key(es[0].name) && st[es[0].name] == f);
        assert(lookup(st, f) == Some(es[0].name));
        lemma_names_of_push(es);
        if pre.len() == 1 {
            assert(names_of(pre) =~= set![es[0].name]) by {
                assert(pre[0].name == es[0].name);
            }
            assert(set![es[0].name, e.name] =~= names_of(es));
            assert(ordinal_of(Seq::<Seq<char>>::empty(), es[0].name) is None);
            assert(Seq::<Seq<char>>::empty().push(es[0].name) =~= seq![es[0].name]);
        } else {
            assert(seq![es[0].name].drop_last() =~= Seq::<Seq<char>>::empty());
            assert(ordinal_of(seq![es[0].name], es[0].name) == Some(1nat));
        }
    }
}

/// Files that all share one fingerprint, and no others, in a fresh store:
/// one group is opened, as folder 1, and it receives every one of them.
pub proof fn lemma_one_duplicate_set(persist: bool, w: World, entries: Seq<FileEntry>, f: Seq<char>)
    requires
        persist ==> w.store == Map::<Seq<char>, Seq<char>>::empty(),
        !w.dirs.contains_key(1),
        entries.len() >= 2,
        names_distinct(entries),
        all_share(entries, f),
    ensures
        run(persist, w, entries).1.processed == entries.len(),
        run(persist, w, entries).1.dupes.len() == 1,
        run(persist, w, entries).0.dirs == w.dirs.insert(1, names_of(entries)),
        names_of(entries).len() == entries.len(),
{
    let w0 = if persist { w } else { World { store: Map::empty(), ..w } };
    lemma_one_set_scan(persist, w0, entries, f);
    lemma_names_card(entries);
}

proof fn lemma_names_card(es: Seq<FileEntry>)
    requires
        names_distinct(es),
    ensures
        names_of(es).finite(),
        names_of(es).len() == es.len(),
    decreases es.len(),
{
    if es.len() == 0 {
        assert(names_of(es) =~= Set::<Seq<char>>::empty());
    } else {
        let pre = es.drop_last();
        assert(forall|i: int| 0 <= i < pre.len() ==> pre[i] == es[i]);
        lemma_names_card(pre);
        lemma_names_of_push(es);
        if names_of(pre).contains(es.last().name) {
            let i = choose|i: int| 0 <= i < pre.len() && pre[i].name == es.last().name;
            assert(es[i].name != es[es.len() - 1].name);
        }
    }
}

} // verus!
