use vstd::prelude::*;
use crate::laws::{all_decodable, names_distinct};
use crate::model::{entry_step, initial_scan, lookup, run, scan, FileEntry, ScanModel, World};
use crate::tracker::ordinal_of;

verus! {

/// An entry before `j` has the same fingerprint as entry `j`.
pub open spec fn seen_before(es: Seq<FileEntry>, j: int) -> bool {
    exists|i: int| 0 <= i < j && es[i].fp == es[j].fp
}

/// Entry `j` is the second sighting of its fingerprint.
pub open spec fn is_second(es: Seq<FileEntry>, j: int) -> bool {
    &&& seen_before(es, j)
    &&& forall|i1: int, i2: int|
        0 <= i1 < i2 < j && es[i1].fp == es[j].fp ==> es[i2].fp != es[j].fp
}

/// Fingerprint `f` occurs at least twice.
pub open spec fn repeated(es: Seq<FileEntry>, f: Seq<char>) -> bool {
    exists|i: int, j: int| 0 <= i < j < es.len() && es[i].fp == Some(f) && es[j].fp == Some(f)
}

/// The filenames of the entries with fingerprint `f`.
pub open spec fn sharing(es: Seq<FileEntry>, f: Seq<char>) -> Set<Seq<char>> {
    Set::new(|n: Seq<char>| exists|i: int| 0 <= i < es.len() && es[i].name == n && es[i].fp == Some(f))
}

/// No folder numbered 1 up to `n` exists.
pub open spec fn folders_free(dirs: Map<nat, Set<Seq<char>>>, n: nat) -> bool {
    forall|k: nat| 1 <= k <= n ==> !#[trigger] dirs.contains_key(k)
}

/// Each record is the first sighting of its fingerprint, each fingerprint
/// seen has a record, and no two records share a fingerprint.
pub open spec fn records_first(es: Seq<FileEntry>, st: Map<Seq<char>, Seq<char>>) -> bool {
    &&& forall|n: Seq<char>| #[trigger] st.contains_key(n) ==> exists|i: int|
        0 <= i < es.len() && es[i].name == n && es[i].fp == Some(st[n]) && !seen_before(es, i)
    &&& forall|i: int| 0 <= i < es.len() ==> exists|n: Seq<char>|
        st.contains_key(n) && st[n] == (#[trigger] es[i]).fp.unwrap()
    &&& forall|n1: Seq<char>, n2: Seq<char>|
        #[trigger] st.contains_key(n1) && #[trigger] st.contains_key(n2) && n1 != n2 ==> st[n1] != st[n2]
}

/// The originals of the groups are the records whose fingerprint repeats.
pub open spec fn originals_repeated(es: Seq<FileEntry>, st: Map<Seq<char>, Seq<char>>, d: Seq<Seq<char>>) -> bool {
    &&& d.no_duplicates()
    &&& forall|m: int| 0 <= m < d.len() ==> st.contains_key(#[trigger] d[m]) && repeated(es, st[d[m]])
    &&& forall|n: Seq<char>| #[trigger] st.contains_key(n) && repeated(es, st[n]) ==> d.contains(n)
}

/// Folder m + 1 exists and holds every file of group m.
pub open spec fn folder_of_group(
    es: Seq<FileEntry>,
    st: Map<Seq<char>, Seq<char>>,
    d: Seq<Seq<char>>,
    dirs: Map<nat, Set<Seq<char>>>,
    m: int,
) -> bool {
    dirs.contains_key((m + 1) as nat) && dirs[(m + 1) as nat] == sharing(es, st[d[m]])
}

/// Folder k is as it was before the scan.
pub open spec fn folder_untouched(d0: Map<nat, Set<Seq<char>>>, dirs: Map<nat, Set<Seq<char>>>, k: nat) -> bool {
    dirs.contains_key(k) == d0.contains_key(k) && dirs[k] == d0[k]
}

/// Folder m + 1 holds every file of group m; other folders are as before.
pub open spec fn folders_hold(
    es: Seq<FileEntry>,
    d0: Map<nat, Set<Seq<char>>>,
    st: Map<Seq<char>, Seq<char>>,
    d: Seq<Seq<char>>,
    dirs: Map<nat, Set<Seq<char>>>,
) -> bool {
    &&& forall|m: int| 0 <= m < d.len() ==> #[trigger] folder_of_group(es, st, d, dirs, m)
    &&& forall|k: nat| !(1 <= k <= d.len()) ==> #[trigger] folder_untouched(d0, dirs, k)
}

/// Groups are numbered in the order of the second sightings.
pub open spec fn numbered_in_order(es: Seq<FileEntry>, st: Map<Seq<char>, Seq<char>>, d: Seq<Seq<char>>) -> bool {
    forall|m1: int, m2: int, j1: int, j2: int|
        #![trigger d[m1], d[m2], es[j1], es[j2]]
        0 <= m1 < m2 < d.len() && 0 <= j1 < es.len() && 0 <= j2 < es.len() && is_second(es, j1)
            && is_second(es, j2) && es[j1].fp == Some(st[d[m1]]) && es[j2].fp == Some(st[d[m2]])
            ==> j1 < j2
}

/// What holds after a scan from a fresh store over `es`, with folders `d0`
/// before it.
pub open spec fn grouped(es: Seq<FileEntry>, d0: Map<nat, Set<Seq<char>>>, w: World, s: ScanModel) -> bool {
    &&& s.processed == es.len()
    &&& s.dupes.len() <= es.len()
    &&& records_first(es, w.store)
    &&& originals_repeated(es, w.store, s.dupes)
    &&& folders_hold(es, d0, w.store, s.dupes, w.dirs)
    &&& numbered_in_order(es, w.store, s.dupes)
}

proof fn lemma_ordinal_of(d: Seq<Seq<char>>, n: Seq<char>)
    requires
        d.no_duplicates(),
    ensures
        forall|m: int| 0 <= m < d.len() && d[m] == n ==> ordinal_of(d, n) == Some((m + 1) as nat),
        !d.contains(n) ==> ordinal_of(d, n) is None,
    decreases d.len(),
{
    if d.len() > 0 {
        let pre = d.drop_last();
        assert(forall|i: int| 0 <= i < pre.len() ==> pre[i] == d[i]);
        lemma_ordinal_of(pre, n);
        if !d.contains(n) {
            assert(d[d.len() - 1] != n);
            assert(!pre.contains(n));
        }
    }
}

proof fn lemma_sharing_push(es: Seq<FileEntry>, g: Seq<char>)
    requires
        es.len() > 0,
    ensures
        es.last().fp == Some(g) ==> sharing(es, g) == sharing(es.drop_last(), g).insert(es.last().name),
        es.last().fp != Some(g) ==> sharing(es, g) == sharing(es.drop_last(), g),
{
    let pre = es.drop_last();
    let j = es.len() - 1;
    assert(forall|i: int| 0 <= i < pre.len() ==> pre[i] == es[i]);
    if es.last().fp == Some(g) {
        assert forall|n: Seq<char>| sharing(es, g).contains(n) <==> sharing(pre, g).insert(es.last().name).contains(n) by {
            if n == es.last().name {
                assert(es[j].name == n && es[j].fp == Some(g));
            }
        }
        assert(sharing(es, g) =~= sharing(pre, g).insert(es.last().name));
    } else {
        assert forall|n: Seq<char>| sharing(es, g).contains(n) <==> sharing(pre, g).contains(n) by {
            if sharing(es, g).contains(n) {
                let i = choose|i: int| 0 <= i < es.len() && es[i].name == n && es[i].fp == Some(g);
                assert(i != j);
            }
        }
        assert(sharing(es, g) =~= sharing(pre, g));
    }
}

proof fn lemma_repeated_push(es: Seq<FileEntry>, g: Seq<char>)
    requires
        es.len() > 0,
    ensures
        es.last().fp != Some(g) ==> (repeated(es, g) == repeated(es.drop_last(), g)),
        repeated(es.drop_last(), g) ==> repeated(es, g),
{
    let pre = es.drop_last();
    assert(forall|i: int| 0 <= i < pre.len() ==> pre[i] == es[i]);
    if repeated(pre, g) {
        let (i, j) = choose|i: int, j: int|
            0 <= i < j < pre.len() && pre[i].fp == Some(g) && pre[j].fp == Some(g);
        assert(es[i].fp == Some(g) && es[j].fp == Some(g));
    }
    if es.last().fp != Some(g) && repeated(es, g) {
        let (i, j) = choose|i: int, j: int|
            0 <= i < j < es.len() && es[i].fp == Some(g) && es[j].fp == Some(g);
        assert(j != es.len() - 1);
        assert(pre[i].fp == Some(g) && pre[j].fp == Some(g));
    }
}

proof fn lemma_prefix_sightings(es: Seq<FileEntry>)
    requires
        es.len() > 0,
    ensures
        forall|i: int| 0 <= i < es.len() - 1 ==> (seen_before(es, i) == seen_before(es.drop_last(), i)),
        forall|i: int| 0 <= i < es.len() - 1 ==> (is_second(es, i) == is_second(es.drop_last(), i)),
{
    let pre = es.drop_last();
    assert(forall|i: int| 0 <= i < pre.len() ==> pre[i] == es[i]);
    assert forall|i: int| 0 <= i < es.len() - 1 implies (seen_before(es, i) == seen_before(pre, i)) by {
        if seen_before(es, i) {
            let k = choose|k: int| 0 <= k < i && es[k].fp == es[i].fp;
            assert(pre[k].fp == pre[i].fp);
        }
        if seen_before(pre, i) {
            let k = choose|k: int| 0 <= k < i && pre[k].fp == pre[i].fp;
            assert(es[k].fp == es[i].fp);
        }
    }
}

/// The facts shared by the three cases of a step.
spec fn step_ready(es: Seq<FileEntry>, d0: Map<nat, Set<Seq<char>>>, w: World, s: ScanModel) -> bool {
    &&& es.len() > 0
    &&& names_distinct(es)
    &&& all_decodable(es)
    &&& folders_free(d0, es.len() as nat)
    &&& grouped(es.drop_last(), d0, w, s)
    &&& es.last().fp is Some
    &&& !w.store.contains_key(es.last().name)
    &&& forall|i: int| 0 <= i < es.len() - 1 ==> es.drop_last()[i] == es[i]
    &&& forall|i: int| 0 <= i < es.len() - 1 ==> (is_second(es, i) == is_second(es.drop_last(), i))
    &&& forall|i: int| 0 <= i < es.len() - 1 ==> (seen_before(es, i) == seen_before(es.drop_last(), i))
    &&& forall|g: Seq<char>| g != es.last().fp.unwrap() ==> #[trigger] sharing(es, g) == sharing(es.drop_last(), g)
    &&& forall|g: Seq<char>| g != es.last().fp.unwrap() ==> #[trigger] repeated(es, g) == repeated(es.drop_last(), g)
    &&& sharing(es, es.last().fp.unwrap()) == sharing(es.drop_last(), es.last().fp.unwrap()).insert(es.last().name)
    &&& repeated(es.drop_last(), es.last().fp.unwrap()) ==> repeated(es, es.last().fp.unwrap())
}

proof fn lemma_records_kept(es: Seq<FileEntry>, st: Map<Seq<char>, Seq<char>>, n: Seq<char>)
    requires
        es.len() > 0,
        records_first(es.drop_last(), st),
        forall|i: int| 0 <= i < es.len() - 1 ==> es.drop_last()[i] == es[i],
        forall|i: int| 0 <= i < es.len() - 1 ==> (seen_before(es, i) == seen_before(es.drop_last(), i)),
        st.contains_key(n),
        st[n] == es.last().fp.unwrap(),
    ensures
        records_first(es, st),
{
    let pre = es.drop_last();
    let j = es.len() - 1;
    assert(es[j] == es.last());
    assert forall|x: Seq<char>| #[trigger] st.contains_key(x) implies exists|i: int|
        0 <= i < es.len() && es[i].name == x && es[i].fp == Some(st[x]) && !seen_before(es, i) by {
        let i = choose|i: int|
            0 <= i < pre.len() && pre[i].name == x && pre[i].fp == Some(st[x]) && !seen_before(pre, i);
        assert(es[i] == pre[i]);
        assert(!seen_before(es, i));
    }
}

#[verifier::spinoff_prover]
proof fn lemma_step_join(es: Seq<FileEntry>, d0: Map<nat, Set<Seq<char>>>, w: World, s: ScanModel, m: int)
    requires
        step_ready(es, d0, w, s),
        0 <= m < s.dupes.len(),
        w.store[s.dupes[m]] == es.last().fp.unwrap(),
    ensures
        grouped(
            es,
            d0,
            World {
                dirs: w.dirs.insert((m + 1) as nat, w.dirs[(m + 1) as nat].insert(es.last().name)),
                ..w
            },
            ScanModel { processed: s.processed + 1, ..s },
        ),
{
    let pre = es.drop_last();
    let j = es.len() - 1;
    let f = es.last().fp.unwrap();
    let st = w.store;
    let d = s.dupes;
    assert(es[j] == es.last());
    let w2 = World { dirs: w.dirs.insert((m + 1) as nat, w.dirs[(m + 1) as nat].insert(es.last().name)), ..w };
    assert(repeated(pre, st[d[m]]));
    let (i1, i2) = choose|i1: int, i2: int|
        0 <= i1 < i2 < pre.len() && pre[i1].fp == Some(f) && pre[i2].fp == Some(f);
    assert(es[i1].fp == es[j].fp && es[i2].fp == es[j].fp);
    assert(!is_second(es, j));
    assert forall|m1: int| 0 <= m1 < d.len() implies st.contains_key(#[trigger] d[m1]) && repeated(es, st[d[m1]]) by {
        if m1 != m {
            assert(d[m1] != d[m]);
        }
    }
    assert forall|n: Seq<char>| #[trigger] st.contains_key(n) && repeated(es, st[n]) implies d.contains(n) by {
        if st[n] == f {
            assert(n == d[m]);
        }
    }
    assert(folders_hold(pre, d0, st, d, w.dirs));
    assert forall|m1: int| 0 <= m1 < d.len() implies #[trigger] folder_of_group(es, st, d, w2.dirs, m1) by {
        assert(folder_of_group(pre, st, d, w.dirs, m1));
        if m1 != m {
            assert(d[m1] != d[m]);
            assert(st[d[m1]] != st[d[m]]);
            assert(sharing(es, st[d[m1]]) == sharing(pre, st[d[m1]]));
        } else {
            assert(st[d[m1]] == f);
        }
    }
    assert forall|k: nat| !(1 <= k <= d.len()) implies #[trigger] folder_untouched(d0, w2.dirs, k) by {
        assert(k != (m + 1) as nat);
        assert(folder_untouched(d0, w.dirs, k));
    }
    lemma_records_kept(es, st, d[m]);
    assert(originals_repeated(es, st, d));
    assert(folders_hold(es, d0, st, d, w2.dirs));
    assert(numbered_in_order(es, st, d)) by {
        assert forall|m1: int, m2: int, j1: int, j2: int|
            #![trigger d[m1], d[m2], es[j1], es[j2]]
            0 <= m1 < m2 < d.len() && 0 <= j1 < es.len() && 0 <= j2 < es.len() && is_second(es, j1)
                && is_second(es, j2) && es[j1].fp == Some(st[d[m1]]) && es[j2].fp == Some(st[d[m2]])
                implies j1 < j2 by {
            assert(pre[j1] == es[j1] && pre[j2] == es[j2]);
        }
    }
}

#[verifier::spinoff_prover]
#[verifier::rlimit(100)]
proof fn lemma_step_new(es: Seq<FileEntry>, d0: Map<nat, Set<Seq<char>>>, w: World, s: ScanModel, n: Seq<char>)
    requires
        step_ready(es, d0, w, s),
        w.store.contains_key(n),
        w.store[n] == es.last().fp.unwrap(),
        !s.dupes.contains(n),
    ensures
        grouped(
            es,
            d0,
            World { dirs: w.dirs.insert((s.dupes.len() + 1) as nat, set![n, es.last().name]), ..w },
            ScanModel { dupes: s.dupes.push(n), processed: s.processed + 1 },
        ),
        !w.dirs.contains_key((s.dupes.len() + 1) as nat),
{
    let pre = es.drop_last();
    let j = es.len() - 1;
    let e = es.last();
    let f = e.fp.unwrap();
    let st = w.store;
    let d = s.dupes;
    assert(es[j] == e);
    let k = (d.len() + 1) as nat;
    let w2 = World { dirs: w.dirs.insert(k, set![n, e.name]), ..w };
    let d2 = d.push(n);
    if repeated(pre, f) {
        assert(st.contains_key(n) && repeated(pre, st[n]));
    }
    assert(!d0.contains_key(k));
    let i_n = choose|i: int|
        0 <= i < pre.len() && pre[i].name == n && pre[i].fp == Some(st[n]) && !seen_before(pre, i);
    assert forall|x: Seq<char>| sharing(pre, f).contains(x) <==> x == n by {
        if sharing(pre, f).contains(x) {
            let i = choose|i: int| 0 <= i < pre.len() && pre[i].name == x && pre[i].fp == Some(f);
            if i < i_n {
                assert(pre[i].fp == pre[i_n].fp);
            } else if i > i_n {
                assert(repeated(pre, f));
            }
        }
        if x == n {
            assert(pre[i_n].name == x && pre[i_n].fp == Some(f));
        }
    }
    assert(sharing(pre, f) =~= set![n]);
    assert(set![n, e.name] =~= set![n].insert(e.name));
    assert(es[i_n].fp == Some(f));
    assert(repeated(es, f));
    assert forall|j2: int| 0 <= j2 < es.len() && is_second(es, j2) && es[j2].fp == Some(f) implies j2 == j by {
        if j2 < j {
            assert(is_second(pre, j2));
            let i = choose|i: int| 0 <= i < j2 && pre[i].fp == pre[j2].fp;
            assert(repeated(pre, f));
        }
    }
    assert forall|i: int| 0 <= i < es.len() implies exists|x: Seq<char>|
        st.contains_key(x) && st[x] == (#[trigger] es[i]).fp.unwrap() by {
        if i == j {
            assert(st.contains_key(n) && st[n] == f);
        } else {
            assert(pre[i] == es[i]);
        }
    }
    assert forall|m1: int| 0 <= m1 < d2.len() implies st.contains_key(#[trigger] d2[m1]) && repeated(es, st[d2[m1]]) by {
        if m1 < d.len() {
            assert(d2[m1] == d[m1]);
            assert(st[d[m1]] != f);
        }
    }
    assert forall|x: Seq<char>| #[trigger] st.contains_key(x) && repeated(es, st[x]) implies d2.contains(x) by {
        if st[x] == f {
            assert(x == n);
            assert(d2[d.len() as int] == n);
        } else {
            assert(d.contains(x));
            let m = choose|m: int| 0 <= m < d.len() && d[m] == x;
            assert(d2[m] == x);
        }
    }
    assert(folders_hold(pre, d0, st, d, w.dirs));
    assert(folder_untouched(d0, w.dirs, k));
    assert forall|m1: int| 0 <= m1 < d2.len() implies #[trigger] folder_of_group(es, st, d2, w2.dirs, m1) by {
        if m1 < d.len() {
            assert(d2[m1] == d[m1]);
            assert(st[d[m1]] != f);
            assert(folder_of_group(pre, st, d, w.dirs, m1));
            assert(sharing(es, st[d[m1]]) == sharing(pre, st[d[m1]]));
        } else {
            assert(d2[m1] == n);
        }
    }
    assert(d2.no_duplicates());
    assert forall|m1: int, m2: int, j1: int, j2: int|
        #![trigger d2[m1], d2[m2], es[j1], es[j2]]
        0 <= m1 < m2 < d2.len() && 0 <= j1 < es.len() && 0 <= j2 < es.len() && is_second(es, j1)
            && is_second(es, j2) && es[j1].fp == Some(st[d2[m1]]) && es[j2].fp == Some(st[d2[m2]])
            implies j1 < j2 by {
        assert(d2[m1] == d[m1]);
        assert(st[d[m1]] != f);
        if m2 < d.len() {
            assert(d2[m2] == d[m2]);
            assert(st[d[m2]] != f);
            assert(pre[j1] == es[j1] && pre[j2] == es[j2]);
        } else {
            assert(j2 == j);
        }
    }
    lemma_records_kept(es, st, n);
    assert(originals_repeated(es, st, d2));
    assert forall|k2: nat| !(1 <= k2 <= d2.len()) implies #[trigger] folder_untouched(d0, w2.dirs, k2) by {
        assert(k2 != k);
        assert(folder_untouched(d0, w.dirs, k2));
    }
    assert(folders_hold(es, d0, st, d2, w2.dirs));
    assert(numbered_in_order(es, st, d2));
}

proof fn lemma_records_added(es: Seq<FileEntry>, st: Map<Seq<char>, Seq<char>>)
    requires
        es.len() > 0,
        es.last().fp is Some,
        !st.contains_key(es.last().name),
        !seen_before(es, es.len() - 1),
        records_first(es.drop_last(), st),
        forall|i: int| 0 <= i < es.len() - 1 ==> es.drop_last()[i] == es[i],
        forall|i: int| 0 <= i < es.len() - 1 ==> (seen_before(es, i) == seen_before(es.drop_last(), i)),
    ensures
        forall|x: Seq<char>| st.contains_key(x) ==> st[x] != es.last().fp.unwrap(),
        records_first(es, st.insert(es.last().name, es.last().fp.unwrap())),
{
    let pre = es.drop_last();
    let j = es.len() - 1;
    let e = es.last();
    let f = e.fp.unwrap();
    let st2 = st.insert(e.name, f);
    assert(es[j] == e);
    assert forall|x: Seq<char>| st.contains_key(x) implies st[x] != f by {
        let i = choose|i: int|
            0 <= i < pre.len() && pre[i].name == x && pre[i].fp == Some(st[x]) && !seen_before(pre, i);
        if st[x] == f {
            assert(es[i].fp == es[j].fp);
        }
    }
    assert forall|x: Seq<char>| #[trigger] st2.contains_key(x) implies exists|i: int|
        0 <= i < es.len() && es[i].name == x && es[i].fp == Some(st2[x]) && !seen_before(es, i) by {
        if x != e.name {
            let i = choose|i: int|
                0 <= i < pre.len() && pre[i].name == x && pre[i].fp == Some(st[x]) && !seen_before(pre, i);
            assert(es[i] == pre[i]);
            assert(!seen_before(es, i));
        } else {
            assert(es[j].name == x && es[j].fp == Some(st2[x]) && !seen_before(es, j));
        }
    }
    assert forall|i: int| 0 <= i < es.len() implies exists|x: Seq<char>|
        st2.contains_key(x) && st2[x] == (#[trigger] es[i]).fp.unwrap() by {
        if i == j {
            assert(st2.contains_key(e.name) && st2[e.name] == f);
        } else {
            assert(pre[i] == es[i]);
            let x = choose|x: Seq<char>| st.contains_key(x) && st[x] == pre[i].fp.unwrap();
            assert(st2.contains_key(x) && st2[x] == es[i].fp.unwrap());
        }
    }
}

#[verifier::spinoff_prover]
#[verifier::rlimit(100)]
proof fn lemma_step_canonical(es: Seq<FileEntry>, d0: Map<nat, Set<Seq<char>>>, w: World, s: ScanModel)
    requires
        step_ready(es, d0, w, s),
        !seen_before(es, es.len() - 1),
    ensures
        lookup(w.store, es.last().fp.unwrap()) is None,
        grouped(
            es,
            d0,
            World { store: w.store.insert(es.last().name, es.last().fp.unwrap()), ..w },
            ScanModel { processed: s.processed + 1, ..s },
        ),
{
    let pre = es.drop_last();
    let j = es.len() - 1;
    let e = es.last();
    let f = e.fp.unwrap();
    let st = w.store;
    let st2 = st.insert(e.name, f);
    let d = s.dupes;
    assert(es[j] == e);
    lemma_records_added(es, st);
    if repeated(es, f) {
        let (i1, i2) = choose|i1: int, i2: int|
            0 <= i1 < i2 < es.len() && es[i1].fp == Some(f) && es[i2].fp == Some(f);
        assert(es[i1].fp == es[j].fp);
    }
    assert(!is_second(es, j));
    assert forall|m1: int| 0 <= m1 < d.len() implies st2.contains_key(#[trigger] d[m1]) && repeated(es, st2[d[m1]]) by {
        assert(st[d[m1]] != f);
    }
    assert forall|x: Seq<char>| #[trigger] st2.contains_key(x) && repeated(es, st2[x]) implies d.contains(x) by {
        if x != e.name {
            assert(st[x] != f);
        }
    }
    assert(originals_repeated(es, st2, d));
    assert(folders_hold(pre, d0, st, d, w.dirs));
    assert forall|m1: int| 0 <= m1 < d.len() implies #[trigger] folder_of_group(es, st2, d, w.dirs, m1) by {
        assert(folder_of_group(pre, st, d, w.dirs, m1));
        assert(st[d[m1]] != f);
    }
    assert(folders_hold(es, d0, st2, d, w.dirs));
    assert forall|m1: int, m2: int, j1: int, j2: int|
        #![trigger d[m1], d[m2], es[j1], es[j2]]
        0 <= m1 < m2 < d.len() && 0 <= j1 < es.len() && 0 <= j2 < es.len() && is_second(es, j1)
            && is_second(es, j2) && es[j1].fp == Some(st2[d[m1]]) && es[j2].fp == Some(st2[d[m2]])
            implies j1 < j2 by {
        assert(pre[j1] == es[j1] && pre[j2] == es[j2]);
    }
    assert(numbered_in_order(es, st2, d));
}

proof fn lemma_grouped_step(persist: bool, es: Seq<FileEntry>, d0: Map<nat, Set<Seq<char>>>, w: World, s: ScanModel)
    requires
        es.len() > 0,
        names_distinct(es),
        all_decodable(es),
        folders_free(d0, es.len() as nat),
        grouped(es.drop_last(), d0, w, s),
    ensures
        grouped(es, d0, entry_step(persist, w, s, es.last()).0, entry_step(persist, w, s, es.last()).1),
{
    let pre = es.drop_last();
    let j = es.len() - 1;
    let e = es.last();
    assert(forall|i: int| 0 <= i < pre.len() ==> pre[i] == es[i]);
    assert(es[j] == e);
    assert(es[j].fp is Some);
    let f = e.fp.unwrap();
    let st = w.store;
    let d = s.dupes;
    lemma_prefix_sightings(es);
    assert forall|g: Seq<char>| g != f implies #[trigger] sharing(es, g) == sharing(pre, g) by {
        lemma_sharing_push(es, g);
    }
    assert forall|g: Seq<char>| g != f implies #[trigger] repeated(es, g) == repeated(pre, g) by {
        lemma_repeated_push(es, g);
    }
    lemma_sharing_push(es, f);
    lemma_repeated_push(es, f);
    if st.contains_key(e.name) {
        let i = choose|i: int|
            0 <= i < pre.len() && pre[i].name == e.name && pre[i].fp == Some(st[e.name]) && !seen_before(pre, i);
        assert(es[i].name != es[j].name);
    }
    assert(step_ready(es, d0, w, s));
    if seen_before(es, j) {
        let i0 = choose|i: int| 0 <= i < j && es[i].fp == es[j].fp;
        assert(pre[i0].fp.unwrap() == f);
        let n = choose|n: Seq<char>| st.contains_key(n) && st[n] == f;
        let c = choose|x: Seq<char>| st.contains_key(x) && st[x] == f;
        assert(c == n);
        assert(lookup(st, f) == Some(n));
        lemma_ordinal_of(d, n);
        if d.contains(n) {
            let m = choose|m: int| 0 <= m < d.len() && d[m] == n;
            lemma_step_join(es, d0, w, s, m);
        } else {
            lemma_step_new(es, d0, w, s, n);
        }
    } else {
        lemma_step_canonical(es, d0, w, s);
    }
}

proof fn lemma_grouped_scan(persist: bool, w: World, es: Seq<FileEntry>)
    requires
        w.store == Map::<Seq<char>, Seq<char>>::empty(),
        names_distinct(es),
        all_decodable(es),
        folders_free(w.dirs, es.len() as nat),
    ensures
        grouped(es, w.dirs, scan(persist, w, initial_scan(), es).0, scan(persist, w, initial_scan(), es).1),
    decreases es.len(),
{
    if es.len() == 0 {
        assert(forall|k: nat| #[trigger] folder_untouched(w.dirs, w.dirs, k));
    } else {
        let pre = es.drop_last();
        assert(forall|i: int| 0 <= i < pre.len() ==> pre[i] == es[i]);
        lemma_grouped_scan(persist, w, pre);
        let (w1, s1) = scan(persist, w, initial_scan(), pre);
        lemma_grouped_step(persist, es, w.dirs, w1, s1);
    }
}

/// Two duplicate sets, with fingerprints `a` and `b` and no other files,
/// in a fresh store: two groups are opened, folders 1 and 2, numbered in
/// the order in which each set was first seen twice; each folder receives
/// exactly the files of its set, and no other folder changes.
pub proof fn lemma_two_duplicate_sets(
    persist: bool,
    w: World,
    entries: Seq<FileEntry>,
    a: Seq<char>,
    b: Seq<char>,
)
    requires
        persist ==> w.store == Map::<Seq<char>, Seq<char>>::empty(),
        folders_free(w.dirs, entries.len() as nat),
        names_distinct(entries),
        a != b,
        forall|i: int| 0 <= i < entries.len() ==> (#[trigger] entries[i]).fp == Some(a) || entries[i].fp == Some(b),
        repeated(entries, a),
        repeated(entries, b),
    ensures
        run(persist, w, entries).1.processed == entries.len(),
        run(persist, w, entries).1.dupes.len() == 2,
        exists|g1: Seq<char>, g2: Seq<char>| {
            &&& (g1 == a && g2 == b) || (g1 == b && g2 == a)
            &&& run(persist, w, entries).0.dirs.contains_key(1)
            &&& run(persist, w, entries).0.dirs[1] == sharing(entries, g1)
            &&& run(persist, w, entries).0.dirs.contains_key(2)
            &&& run(persist, w, entries).0.dirs[2] == sharing(entries, g2)
            &&& forall|j1: int, j2: int|
                0 <= j1 < entries.len() && 0 <= j2 < entries.len() && #[trigger] is_second(entries, j1)
                    && #[trigger] is_second(entries, j2) && entries[j1].fp == Some(g1) && entries[j2].fp
                    == Some(g2) ==> j1 < j2
        },
        forall|k: nat| k != 1 && k != 2 ==> #[trigger] folder_untouched(w.dirs, run(persist, w, entries).0.dirs, k),
{
    let w0 = if persist { w } else { World { store: Map::empty(), ..w } };
    assert(all_decodable(entries));
    lemma_grouped_scan(persist, w0, entries);
    let (w1, s) = scan(persist, w0, initial_scan(), entries);
    let st = w1.store;
    let d = s.dupes;
    let (ia, ja) = choose|i: int, j: int| 0 <= i < j < entries.len() && entries[i].fp == Some(a) && entries[j].fp == Some(a);
    let (ib, jb) = choose|i: int, j: int| 0 <= i < j < entries.len() && entries[i].fp == Some(b) && entries[j].fp == Some(b);
    assert(entries[ia].fp.unwrap() == a);
    assert(entries[ib].fp.unwrap() == b);
    let na = choose|n: Seq<char>| st.contains_key(n) && st[n] == a;
    let nb = choose|n: Seq<char>| st.contains_key(n) && st[n] == b;
    assert(d.contains(na));
    assert(d.contains(nb));
    assert forall|x: Seq<char>| st.contains_key(x) implies x == na || x == nb by {
        let i = choose|i: int|
            0 <= i < entries.len() && entries[i].name == x && entries[i].fp == Some(st[x]) && !seen_before(entries, i);
        assert(entries[i].fp == Some(a) || entries[i].fp == Some(b));
    }
    let ma = choose|m: int| 0 <= m < d.len() && d[m] == na;
    let mb = choose|m: int| 0 <= m < d.len() && d[m] == nb;
    assert(ma != mb);
    if d.len() > 2 {
        assert(st.contains_key(d[0]) && st.contains_key(d[1]) && st.contains_key(d[2]));
        assert(d[0] != d[1] && d[0] != d[2] && d[1] != d[2]);
    }
    assert(d.len() == 2);
    assert(folder_of_group(entries, st, d, w1.dirs, 0));
    assert(folder_of_group(entries, st, d, w1.dirs, 1));
    let g1 = st[d[0]];
    let g2 = st[d[1]];
    assert(d[0] == na || d[0] == nb);
    assert(d[1] == na || d[1] == nb);
    assert forall|j1: int, j2: int|
        0 <= j1 < entries.len() && 0 <= j2 < entries.len() && #[trigger] is_second(entries, j1)
            && #[trigger] is_second(entries, j2) && entries[j1].fp == Some(g1) && entries[j2].fp
            == Some(g2) implies j1 < j2 by {
        assert(numbered_in_order(entries, st, d));
        assert(d[0] == d[0] && d[1] == d[1] && entries[j1] == entries[j1] && entries[j2] == entries[j2]);
    }
    assert forall|k: nat| k != 1 && k != 2 implies #[trigger] folder_untouched(w.dirs, w1.dirs, k) by {
        assert(folder_untouched(w.dirs, w1.dirs, k));
    }
}

proof fn lemma_second_exists(es: Seq<FileEntry>, g: Seq<char>)
    requires
        repeated(es, g),
    ensures
        exists|j: int| 0 <= j < es.len() && is_second(es, j) && es[j].fp == Some(g),
    decreases es.len(),
{
    let pre = es.drop_last();
    let j = es.len() - 1;
    assert(forall|i: int| 0 <= i < pre.len() ==> pre[i] == es[i]);
    lemma_prefix_sightings(es);
    if repeated(pre, g) {
        lemma_second_exists(pre, g);
        let k = choose|k: int| 0 <= k < pre.len() && is_second(pre, k) && pre[k].fp == Some(g);
        assert(is_second(es, k));
    } else {
        let (i1, i2) = choose|i1: int, i2: int| 0 <= i1 < i2 < es.len() && es[i1].fp == Some(g) && es[i2].fp == Some(g);
        if i2 < j {
            assert(pre[i1].fp == Some(g) && pre[i2].fp == Some(g));
        }
        assert(es[i1].fp == es[j].fp);
        assert forall|k1: int, k2: int| 0 <= k1 < k2 < j && es[k1].fp == es[j].fp implies es[k2].fp != es[j].fp by {
            if es[k2].fp == es[j].fp {
                assert(pre[k1].fp == Some(g) && pre[k2].fp == Some(g));
            }
        }
        assert(is_second(es, j));
    }
}

/// Fingerprint `f` occurs twice among the entries before `i`.
pub open spec fn repeated_before(es: Seq<FileEntry>, i: int, f: Seq<char>) -> bool {
    exists|i1: int, i2: int| 0 <= i1 < i2 < i && es[i1].fp == Some(f) && es[i2].fp == Some(f)
}

/// What holds after the first `i` entries of a second persistent run, from
/// the world `w1` and the groups `d1` that the first run left.
spec fn rerun_inv(es: Seq<FileEntry>, i: int, w1: World, d1: Seq<Seq<char>>, w: World, s: ScanModel) -> bool {
    &&& w == w1
    &&& s.processed == i
    &&& s.dupes.len() <= d1.len()
    &&& s.dupes == d1.take(s.dupes.len() as int)
    &&& forall|n: Seq<char>| #[trigger] w1.store.contains_key(n) && repeated_before(es, i, w1.store[n]) ==> s.dupes.contains(n)
}

#[verifier::spinoff_prover]
#[verifier::rlimit(100)]
proof fn lemma_rerun_step(es: Seq<FileEntry>, i: int, w1: World, d1: Seq<Seq<char>>, s: ScanModel)
    requires
        0 <= i < es.len(),
        names_distinct(es),
        all_decodable(es),
        records_first(es, w1.store),
        originals_repeated(es, w1.store, d1),
        folders_hold(es, w1.dirs, w1.store, d1, w1.dirs),
        numbered_in_order(es, w1.store, d1),
        rerun_inv(es, i, w1, d1, w1, s),
    ensures
        rerun_inv(es, i + 1, w1, d1, entry_step(true, w1, s, es[i]).0, entry_step(true, w1, s, es[i]).1),
{
    let st = w1.store;
    let e = es[i];
    assert(e.fp is Some);
    let f = e.fp.unwrap();
    let d2 = s.dupes;
    let (w2, s2) = entry_step(true, w1, s, e);
    assert(d2.no_duplicates()) by {
        assert forall|a: int, b: int| 0 <= a < b < d2.len() implies d2[a] != d2[b] by {
            assert(d2[a] == d1[a] && d2[b] == d1[b]);
        }
    }
    if st.contains_key(e.name) {
        let k = choose|k: int| 0 <= k < es.len() && es[k].name == e.name && es[k].fp == Some(st[e.name]) && !seen_before(es, k);
        if k != i {
            assert(es[k].name != es[i].name);
        }
        assert forall|x: Seq<char>| #[trigger] st.contains_key(x) && repeated_before(es, i + 1, st[x]) implies d2.contains(x) by {
            let (i1, i2) = choose|i1: int, i2: int| 0 <= i1 < i2 < i + 1 && es[i1].fp == Some(st[x]) && es[i2].fp == Some(st[x]);
            if i2 == i {
                assert(seen_before(es, i));
            }
            assert(repeated_before(es, i, st[x]));
        }
        assert(rerun_inv(es, i + 1, w1, d1, w2, s2));
    } else {
        let x0 = choose|x: Seq<char>| st.contains_key(x) && st[x] == es[i].fp.unwrap();
        let k0 = choose|k: int| 0 <= k < es.len() && es[k].name == x0 && es[k].fp == Some(st[x0]) && !seen_before(es, k);
        if k0 > i {
            assert(es[i].fp == es[k0].fp);
        }
        assert(k0 < i);
        let n = x0;
        let c = choose|x: Seq<char>| st.contains_key(x) && st[x] == f;
        assert(c == n);
        assert(lookup(st, f) == Some(n));
        lemma_ordinal_of(d2, n);
        assert(repeated(es, f));
        assert(d1.contains(n));
        let mf = choose|m: int| 0 <= m < d1.len() && d1[m] == n;
        assert(folder_of_group(es, st, d1, w1.dirs, mf));
        if d2.contains(n) {
            let m = choose|m: int| 0 <= m < d2.len() && d2[m] == n;
            assert(d1[m] == n);
            assert(m == mf);
            assert(sharing(es, f).contains(e.name));
            assert(w1.dirs[(m + 1) as nat].insert(e.name) =~= w1.dirs[(m + 1) as nat]);
            assert(w1.dirs.insert((m + 1) as nat, w1.dirs[(m + 1) as nat]) =~= w1.dirs);
            assert(w2 == w1);
            assert forall|x: Seq<char>| #[trigger] st.contains_key(x) && repeated_before(es, i + 1, st[x]) implies d2.contains(x) by {
                if st[x] != f {
                    let (i1, i2) = choose|i1: int, i2: int| 0 <= i1 < i2 < i + 1 && es[i1].fp == Some(st[x]) && es[i2].fp == Some(st[x]);
                    assert(repeated_before(es, i, st[x]));
                } else {
                    assert(x == n);
                }
            }
            assert(rerun_inv(es, i + 1, w1, d1, w2, s2));
        } else {
            let l = d2.len() as int;
            // f is seen once before i, so entry i is its second sighting
            if repeated_before(es, i, f) {
                assert(st.contains_key(n) && repeated_before(es, i, st[n]));
            }
            assert(seen_before(es, i)) by {
                assert(es[k0].fp == es[i].fp);
            }
            assert forall|a: int, b: int| 0 <= a < b < i && es[a].fp == es[i].fp implies es[b].fp != es[i].fp by {
                if es[b].fp == es[i].fp {
                    assert(repeated_before(es, i, f));
                }
            }
            assert(is_second(es, i));
            // the groups opened so far are the first l of the first run
            if mf < l {
                assert(d2[mf] == d1[mf]);
            }
            assert(mf >= l);
            if mf > l {
                let g = st[d1[l]];
                assert(st.contains_key(d1[l]) && repeated(es, st[d1[l]]));
                lemma_second_exists(es, g);
                let jg = choose|jg: int| 0 <= jg < es.len() && is_second(es, jg) && es[jg].fp == Some(g);
                assert(d1[l] != n);
                assert(g != f);
                // in the order of second sightings, d1[l] comes before f
                assert(jg < i) by {
                    assert(d1[l] == d1[l] && d1[mf] == d1[mf] && es[jg] == es[jg] && es[i] == es[i]);
                }
                let i1 = choose|i1: int| 0 <= i1 < jg && es[i1].fp == es[jg].fp;
                assert(repeated_before(es, i, g));
                if d2.contains(d1[l]) {
                    let q = choose|q: int| 0 <= q < d2.len() && d2[q] == d1[l];
                    assert(d1[q] == d1[l]);
                }
                assert(false);
            }
            assert(mf == l);
            assert(folder_of_group(es, st, d1, w1.dirs, l));
            assert(w2 == w1);
            assert(s2.dupes == d2.push(n));
            assert(d2.push(n) =~= d1.take(l + 1));
            assert forall|x: Seq<char>| #[trigger] st.contains_key(x) && repeated_before(es, i + 1, st[x]) implies s2.dupes.contains(x) by {
                if st[x] != f {
                    let (i1, i2) = choose|i1: int, i2: int| 0 <= i1 < i2 < i + 1 && es[i1].fp == Some(st[x]) && es[i2].fp == Some(st[x]);
                    assert(repeated_before(es, i, st[x]));
                    let q = choose|q: int| 0 <= q < d2.len() && d2[q] == x;
                    assert(s2.dupes[q] == x);
                } else {
                    assert(x == n);
                    assert(s2.dupes[l] == n);
                }
            }
            assert(rerun_inv(es, i + 1, w1, d1, w2, s2));
        }
    }
}

proof fn lemma_rerun_scan(es: Seq<FileEntry>, i: int, w1: World, d1: Seq<Seq<char>>)
    requires
        0 <= i <= es.len(),
        names_distinct(es),
        all_decodable(es),
        records_first(es, w1.store),
        originals_repeated(es, w1.store, d1),
        folders_hold(es, w1.dirs, w1.store, d1, w1.dirs),
        numbered_in_order(es, w1.store, d1),
    ensures
        rerun_inv(
            es,
            i,
            w1,
            d1,
            scan(true, w1, initial_scan(), es.take(i)).0,
            scan(true, w1, initial_scan(), es.take(i)).1,
        ),
    decreases i,
{
    if i == 0 {
        assert(d1.take(0) =~= Seq::<Seq<char>>::empty());
    } else {
        lemma_rerun_scan(es, i - 1, w1, d1);
        assert(es.take(i).drop_last() =~= es.take(i - 1));
        assert(es.take(i).last() == es[i - 1]);
        let (w, s) = scan(true, w1, initial_scan(), es.take(i - 1));
        lemma_rerun_step(es, i - 1, w1, d1, s);
    }
}

/// Persistent runs from a fresh store over decodable files: the first run
/// counts every file, and a second run over the same files counts every
/// file again, skipping those it stored, and changes neither the store nor
/// any folder.
pub proof fn lemma_persistent_rerun(w: World, entries: Seq<FileEntry>)
    requires
        w.store == Map::<Seq<char>, Seq<char>>::empty(),
        names_distinct(entries),
        all_decodable(entries),
        folders_free(w.dirs, entries.len() as nat),
    ensures
        run(true, w, entries).1.processed == entries.len(),
        run(true, run(true, w, entries).0, entries).1.processed == entries.len(),
        run(true, run(true, w, entries).0, entries).0 == run(true, w, entries).0,
{
    lemma_grouped_scan(true, w, entries);
    let (w1, s1) = scan(true, w, initial_scan(), entries);
    assert(folders_hold(entries, w.dirs, w1.store, s1.dupes, w1.dirs));
    assert forall|k: nat| #[trigger] folder_untouched(w1.dirs, w1.dirs, k) by {}
    assert(folders_hold(entries, w1.dirs, w1.store, s1.dupes, w1.dirs));
    lemma_rerun_scan(entries, entries.len() as int, w1, s1.dupes);
    assert(entries.take(entries.len() as int) =~= entries);
}

} // verus!
