use vstd::prelude::*;

use crate::dirs::{common_prefixes_of, prefix_hits};
use crate::entry::{is_dir_kind, lemma_parent_dir_nonempty, parent_dir, EntryHeader};
use crate::splitter::{
    before_write, enter_dir, entry_item, fresh_dirs, must_rotate, records_dir,
    rotated, run, step, stored_after, with_dirs, write_entry, Emitted, SplitConfig,
    SplitModel,
};

verus! {

/// `a` is a prefix of `b`.
pub open spec fn is_prefix(a: Seq<u8>, b: Seq<u8>) -> bool {
    a.len() <= b.len() && b.subrange(0, a.len() as int) == a
}

/// The items hold a directory with path `k`.
pub open spec fn has_dir(items: Seq<Emitted>, k: Seq<u8>) -> bool {
    exists|j: int| 0 <= j < items.len() && #[trigger] items[j].is_dir && items[j].path == k
}

/// No two directories of the items share a path.
pub open spec fn dirs_distinct(items: Seq<Emitted>) -> bool {
    forall|a: int, b: int|
        0 <= a < b < items.len() && #[trigger] items[a].is_dir && #[trigger] items[b].is_dir
            ==> items[a].path != items[b].path
}

/// No two directory entries of the input share a path.
pub open spec fn input_dirs_distinct(hs: Seq<EntryHeader>) -> bool {
    forall|a: int, b: int|
        0 <= a < b < hs.len() && is_dir_kind(#[trigger] hs[a].kind) && is_dir_kind(#[trigger] hs[b].kind)
            ==> hs[a].path@ != hs[b].path@
}

/// The item at `j` is an input entry, and every directory that came
/// before it in the input and holds it is in the same volume, ahead of it.
pub open spec fn ancestors_present(hs: Seq<EntryHeader>, items: Seq<Emitted>, j: int) -> bool {
    let e = items[j];
    !e.reinjected && parent_dir(e.path) is Some ==> forall|o: int|
        0 <= o < e.ordinal && is_dir_kind(hs[o].kind) && is_prefix(#[trigger] hs[o].path@, parent_dir(e.path).unwrap())
            ==> has_dir(items.take(j), hs[o].path@)
}

proof fn lemma_prefix_hits(m: Map<Seq<u8>, u64>, key: Seq<u8>, n: nat)
    requires
        n <= key.len() + 1,
    ensures
        forall|i: int| 0 <= i < prefix_hits(m, key, n).len() ==> {
            let p = #[trigger] prefix_hits(m, key, n)[i];
            m.contains_key(p.0) && p.1 == m[p.0] && is_prefix(p.0, key)
        },
        forall|k: Seq<u8>| m.contains_key(k) && is_prefix(k, key) && k.len() < n ==> exists|i: int|
            0 <= i < prefix_hits(m, key, n).len() && (#[trigger] prefix_hits(m, key, n)[i]).0 == k,
    decreases n,
{
    if n > 0 {
        let prev = prefix_hits(m, key, (n - 1) as nat);
        lemma_prefix_hits(m, key, (n - 1) as nat);
        let k0 = key.subrange(0, n - 1);
        let cur = prefix_hits(m, key, n);
        assert forall|k: Seq<u8>| m.contains_key(k) && is_prefix(k, key) && k.len() < n implies exists|i: int|
            0 <= i < cur.len() && (#[trigger] cur[i]).0 == k by {
            if k.len() < n - 1 {
                let i = choose|i: int| 0 <= i < prev.len() && (#[trigger] prev[i]).0 == k;
                assert(cur[i] == prev[i]);
            } else {
                assert(k =~= k0);
                assert(cur[prev.len() as int].0 == k);
            }
        }
    }
}

proof fn lemma_common_prefixes(m: Map<Seq<u8>, u64>, key: Seq<u8>)
    ensures
        forall|i: int| 0 <= i < common_prefixes_of(m, key).len() ==> {
            let p = #[trigger] common_prefixes_of(m, key)[i];
            m.contains_key(p.0) && p.1 == m[p.0] && is_prefix(p.0, key)
        },
        forall|k: Seq<u8>| m.contains_key(k) && is_prefix(k, key) ==> exists|i: int|
            0 <= i < common_prefixes_of(m, key).len() && (#[trigger] common_prefixes_of(m, key)[i]).0 == k,
{
    lemma_prefix_hits(m, key, key.len() + 1);
    let cp = common_prefixes_of(m, key);
    assert forall|k: Seq<u8>| m.contains_key(k) && is_prefix(k, key) implies exists|i: int|
        0 <= i < cp.len() && (#[trigger] cp[i]).0 == k by {
        assert(k.len() < key.len() + 1);
    }
}

proof fn lemma_fresh_dirs(hits: Seq<(Seq<u8>, u64)>, st: Set<Seq<u8>>)
    ensures
        forall|i: int| 0 <= i < hits.len() ==> stored_after(hits, st).contains(#[trigger] hits[i].0),
        forall|k: Seq<u8>| st.contains(k) ==> stored_after(hits, st).contains(k),
        forall|k: Seq<u8>| #[trigger] stored_after(hits, st).contains(k) ==> st.contains(k) || exists|i: int|
            0 <= i < hits.len() && (#[trigger] hits[i]).0 == k,
        forall|j: int| 0 <= j < fresh_dirs(hits, st).len() ==> {
            let e = #[trigger] fresh_dirs(hits, st)[j];
            e.reinjected && e.is_dir && !st.contains(e.path) && exists|i: int|
                0 <= i < hits.len() && (#[trigger] hits[i]).0 == e.path && hits[i].1 == e.ordinal
        },
        forall|i: int| 0 <= i < hits.len() ==> st.contains(#[trigger] hits[i].0) || has_dir(fresh_dirs(hits, st), hits[i].0),
        dirs_distinct(fresh_dirs(hits, st)),
    decreases hits.len(),
{
    if hits.len() > 0 {
        let k = hits[0].0;
        let rest = hits.drop_first();
        let st2 = st.insert(k);
        lemma_fresh_dirs(rest, st2);
        let fr = fresh_dirs(rest, st2);
        let f = fresh_dirs(hits, st);
        let sa = stored_after(hits, st);
        assert(sa == stored_after(rest, st2));
        assert forall|kk: Seq<u8>| st.contains(kk) implies sa.contains(kk) by {
            assert(st2.contains(kk));
        }
        assert forall|i: int| 0 <= i < hits.len() implies sa.contains(#[trigger] hits[i].0) by {
            if i > 0 {
                assert(hits[i] == rest[i - 1]);
            } else {
                assert(st2.contains(k));
            }
        }
        assert forall|kk: Seq<u8>| #[trigger] sa.contains(kk) implies st.contains(kk) || exists|i: int|
            0 <= i < hits.len() && (#[trigger] hits[i]).0 == kk by {
            if !st2.contains(kk) {
                let i = choose|i: int| 0 <= i < rest.len() && (#[trigger] rest[i]).0 == kk;
                assert(hits[i + 1] == rest[i]);
            } else if kk == k {
                assert(hits[0].0 == kk);
            }
        }
        let x = Emitted { ordinal: hits[0].1, reinjected: true, path: k, is_dir: true, size: 512 };
        if st.contains(k) {
            assert(f == fr);
        } else {
            assert(f == seq![x] + fr);
        }
        assert forall|j: int| 0 <= j < f.len() implies {
            let e = #[trigger] f[j];
            e.reinjected && e.is_dir && !st.contains(e.path) && exists|i: int|
                0 <= i < hits.len() && (#[trigger] hits[i]).0 == e.path && hits[i].1 == e.ordinal
        } by {
            if !st.contains(k) && j == 0 {
                assert(f[0] == x);
                assert(hits[0].0 == x.path && hits[0].1 == x.ordinal);
            } else {
                let jj = if st.contains(k) { j } else { j - 1 };
                assert(f[j] == fr[jj]);
                let i = choose|i: int| 0 <= i < rest.len() && (#[trigger] rest[i]).0 == fr[jj].path && rest[i].1 == fr[jj].ordinal;
                assert(hits[i + 1] == rest[i]);
            }
        }
        assert forall|i: int| 0 <= i < hits.len() implies st.contains(#[trigger] hits[i].0) || has_dir(f, hits[i].0) by {
            if i == 0 {
                if !st.contains(k) {
                    assert(f[0] == x);
                }
            } else {
                assert(hits[i] == rest[i - 1]);
                if !st.contains(hits[i].0) {
                    if hits[i].0 == k {
                        assert(f[0] == x);
                    } else {
                        assert(has_dir(fr, hits[i].0));
                        let j = choose|j: int| 0 <= j < fr.len() && #[trigger] fr[j].is_dir && fr[j].path == hits[i].0;
                        if st.contains(k) {
                            assert(f[j] == fr[j]);
                        } else {
                            assert(f[j + 1] == fr[j]);
                        }
                    }
                }
            }
        }
        assert forall|a: int, b: int|
            0 <= a < b < f.len() && #[trigger] f[a].is_dir && #[trigger] f[b].is_dir implies f[a].path != f[b].path by {
            if st.contains(k) {
                assert(f[a] == fr[a] && f[b] == fr[b]);
            } else if a == 0 {
                assert(f[b] == fr[b - 1]);
                assert(!st2.contains(fr[b - 1].path));
            } else {
                assert(f[a] == fr[a - 1] && f[b] == fr[b - 1]);
            }
        }
    }
}

/// The item is the record of a directory or entry of the input, taken
/// before the state it is found in.
spec fn item_ok(hs: Seq<EntryHeader>, n: nat, e: Emitted) -> bool {
    &&& e.ordinal < n
    &&& e.path == hs[e.ordinal as int].path@
    &&& e.is_dir ==> is_dir_kind(hs[e.ordinal as int].kind)
}

/// What a run with directory copies keeps, after the first `m.count`
/// entries of `hs`.
spec fn dirs_kept(hs: Seq<EntryHeader>, m: SplitModel) -> bool {
    &&& m.count <= hs.len()
    &&& hs.len() <= u64::MAX
    &&& m.volumes.len() >= 1
    &&& forall|o: int|
        0 <= o < m.count && is_dir_kind(hs[o].kind) ==> m.index.contains_key(#[trigger] hs[o].path@)
    &&& forall|k: Seq<u8>| #[trigger]
        m.index.contains_key(k) ==> m.index[k] < m.count && hs[m.index[k] as int].path@ == k
            && is_dir_kind(hs[m.index[k] as int].kind)
    &&& forall|k: Seq<u8>| #[trigger] m.stored.contains(k) <==> has_dir(m.volumes.last(), k)
    &&& m.prev_dir.len() > 0 ==> forall|k: Seq<u8>|
        m.index.contains_key(k) && is_prefix(k, m.prev_dir) ==> #[trigger] m.stored.contains(k)
    &&& forall|v: int, j: int|
        0 <= v < m.volumes.len() && 0 <= j < m.volumes[v].len() ==> item_ok(hs, m.count, #[trigger] m.volumes[v][j])
    &&& forall|v: int, j: int|
        0 <= v < m.volumes.len() && 0 <= j < m.volumes[v].len() ==> #[trigger] ancestors_present(hs, m.volumes[v], j)
    &&& input_dirs_distinct(hs) ==> forall|v: int| 0 <= v < m.volumes.len() ==> dirs_distinct(#[trigger] m.volumes[v])
}

proof fn lemma_has_dir_extend(items: Seq<Emitted>, more: Seq<Emitted>, k: Seq<u8>)
    requires
        has_dir(items, k),
    ensures
        has_dir(items + more, k),
{
    let j = choose|j: int| 0 <= j < items.len() && #[trigger] items[j].is_dir && items[j].path == k;
    assert((items + more)[j] == items[j]);
}

proof fn lemma_ancestors_extend(hs: Seq<EntryHeader>, items: Seq<Emitted>, more: Seq<Emitted>, j: int)
    requires
        0 <= j < items.len(),
        ancestors_present(hs, items, j),
    ensures
        ancestors_present(hs, items + more, j),
{
    let e = items[j];
    assert((items + more)[j] == e);
    if !e.reinjected && parent_dir(e.path) is Some {
        assert forall|o: int|
            0 <= o < e.ordinal && is_dir_kind(hs[o].kind) && is_prefix(#[trigger] hs[o].path@, parent_dir(e.path).unwrap())
            implies has_dir((items + more).take(j), hs[o].path@) by {
            assert((items + more).take(j) =~= items.take(j));
        }
    }
}

proof fn lemma_dirs_kept_rotated(hs: Seq<EntryHeader>, m: SplitModel)
    requires
        dirs_kept(hs, m),
    ensures
        dirs_kept(hs, rotated(m)),
{
    let r = rotated(m);
    assert forall|v: int, j: int| 0 <= v < r.volumes.len() && 0 <= j < r.volumes[v].len() implies item_ok(hs, r.count, #[trigger] r.volumes[v][j]) && ancestors_present(hs, r.volumes[v], j) by {
        assert(r.volumes[v] == m.volumes[v]);
    }
    assert forall|k: Seq<u8>| #[trigger] r.stored.contains(k) <==> has_dir(r.volumes.last(), k) by {
        assert(r.volumes.last().len() == 0);
    }
    if input_dirs_distinct(hs) {
        assert forall|v: int| 0 <= v < r.volumes.len() implies dirs_distinct(#[trigger] r.volumes[v]) by {
            if v < m.volumes.len() {
                assert(r.volumes[v] == m.volumes[v]);
            }
        }
    }
}

proof fn lemma_dirs_kept_inject(hs: Seq<EntryHeader>, m: SplitModel, d: Seq<u8>)
    requires
        dirs_kept(hs, m),
        d.len() > 0,
    ensures
        dirs_kept(hs, enter_dir(m, d)),
        enter_dir(m, d).count == m.count,
        enter_dir(m, d).index == m.index,
        enter_dir(m, d).prev_dir == d,
{
    let hits = common_prefixes_of(m.index, d);
    let fresh = fresh_dirs(hits, m.stored);
    let r = enter_dir(m, d);
    let last = m.volumes.last();
    let nl = last + fresh;
    let lv = m.volumes.len() - 1;
    lemma_common_prefixes(m.index, d);
    lemma_fresh_dirs(hits, m.stored);
    assert(r.volumes.last() == nl);
    assert forall|j: int| 0 <= j < fresh.len() implies item_ok(hs, m.count, #[trigger] fresh[j]) by {
        let e = fresh[j];
        let i = choose|i: int| 0 <= i < hits.len() && (#[trigger] hits[i]).0 == e.path && hits[i].1 == e.ordinal;
        assert(m.index.contains_key(hits[i].0));
    }
    assert forall|v: int, j: int| 0 <= v < r.volumes.len() && 0 <= j < r.volumes[v].len() implies item_ok(hs, r.count, #[trigger] r.volumes[v][j]) && ancestors_present(hs, r.volumes[v], j) by {
        if v < lv {
            assert(r.volumes[v] == m.volumes[v]);
        } else if j < last.len() {
            assert(nl[j] == last[j]);
            lemma_ancestors_extend(hs, last, fresh, j);
        } else {
            assert(nl[j] == fresh[j - last.len()]);
        }
    }
    assert forall|k: Seq<u8>| #[trigger] r.stored.contains(k) <==> has_dir(nl, k) by {
        if r.stored.contains(k) {
            if m.stored.contains(k) {
                lemma_has_dir_extend(last, fresh, k);
            } else {
                let i = choose|i: int| 0 <= i < hits.len() && (#[trigger] hits[i]).0 == k;
                assert(has_dir(fresh, hits[i].0));
                let j = choose|j: int| 0 <= j < fresh.len() && #[trigger] fresh[j].is_dir && fresh[j].path == k;
                assert(nl[last.len() + j] == fresh[j]);
            }
        }
        if has_dir(nl, k) {
            let j = choose|j: int| 0 <= j < nl.len() && #[trigger] nl[j].is_dir && nl[j].path == k;
            if j < last.len() {
                assert(nl[j] == last[j]);
                assert(has_dir(last, k));
                assert(m.stored.contains(k));
                assert(r.stored.contains(k));
            } else {
                assert(nl[j] == fresh[j - last.len()]);
                let i = choose|i: int| 0 <= i < hits.len() && (#[trigger] hits[i]).0 == fresh[j - last.len()].path && hits[i].1 == fresh[j - last.len()].ordinal;
                assert(r.stored.contains(hits[i].0));
            }
        }
    }
    assert forall|k: Seq<u8>| r.index.contains_key(k) && is_prefix(k, r.prev_dir) implies #[trigger] r.stored.contains(k) by {
        let i = choose|i: int| 0 <= i < hits.len() && (#[trigger] hits[i]).0 == k;
    }
    if input_dirs_distinct(hs) {
        assert forall|v: int| 0 <= v < r.volumes.len() implies dirs_distinct(#[trigger] r.volumes[v]) by {
            if v < lv {
                assert(r.volumes[v] == m.volumes[v]);
            } else {
                assert(dirs_distinct(last));
                assert forall|a: int, b: int|
                    0 <= a < b < nl.len() && #[trigger] nl[a].is_dir && #[trigger] nl[b].is_dir implies nl[a].path != nl[b].path by {
                    if b < last.len() {
                        assert(nl[a] == last[a] && nl[b] == last[b]);
                    } else if a < last.len() {
                        assert(nl[a] == last[a]);
                        assert(nl[b] == fresh[b - last.len()]);
                        assert(has_dir(last, last[a].path));
                        assert(m.stored.contains(last[a].path));
                    } else {
                        assert(nl[a] == fresh[a - last.len()]);
                        assert(nl[b] == fresh[b - last.len()]);
                    }
                }
            }
        }
    }
}

proof fn lemma_dirs_kept_with_dirs(cfg: SplitConfig, hs: Seq<EntryHeader>, m: SplitModel, h: EntryHeader)
    requires
        cfg.recreate_dirs,
        dirs_kept(hs, m),
    ensures
        dirs_kept(hs, with_dirs(cfg, m, h)),
        with_dirs(cfg, m, h).count == m.count,
        with_dirs(cfg, m, h).index == m.index,
        parent_dir(h.path@) is Some ==> forall|k: Seq<u8>|
            m.index.contains_key(k) && is_prefix(k, parent_dir(h.path@).unwrap())
                ==> #[trigger] with_dirs(cfg, m, h).stored.contains(k),
{
    lemma_parent_dir_nonempty(h.path@);
    match parent_dir(h.path@) {
        Some(d) => {
            if d != m.prev_dir {
                lemma_dirs_kept_inject(hs, m, d);
            }
        },
        None => {},
    }
}

/// The state before an entry is written, with the directories that hold
/// it all present.
spec fn ready_for(hs: Seq<EntryHeader>, m2: SplitModel, h: EntryHeader) -> bool {
    &&& dirs_kept(hs, m2)
    &&& m2.count < hs.len()
    &&& h == hs[m2.count as int]
    &&& parent_dir(h.path@) is Some ==> forall|k: Seq<u8>|
        m2.index.contains_key(k) && is_prefix(k, parent_dir(h.path@).unwrap()) ==> #[trigger] m2.stored.contains(k)
}

proof fn lemma_write_items(cfg: SplitConfig, hs: Seq<EntryHeader>, m2: SplitModel, h: EntryHeader)
    requires
        cfg.recreate_dirs,
        ready_for(hs, m2, h),
    ensures
        forall|v: int, j: int|
            0 <= v < write_entry(cfg, m2, h, m2.count).volumes.len() && 0 <= j < write_entry(cfg, m2, h, m2.count).volumes[v].len()
            ==> item_ok(hs, m2.count + 1, #[trigger] write_entry(cfg, m2, h, m2.count).volumes[v][j])
                && ancestors_present(hs, write_entry(cfg, m2, h, m2.count).volumes[v], j),
{
    let r = write_entry(cfg, m2, h, m2.count);
    let item = entry_item(m2.count, h);
    let l2 = m2.volumes.last();
    let nl = l2.push(item);
    let lv = m2.volumes.len() - 1;
    let n = m2.count;
    assert(l2 + seq![item] =~= nl);
    assert(r.volumes == m2.volumes.update(lv, nl));
    assert forall|v: int, j: int| 0 <= v < r.volumes.len() && 0 <= j < r.volumes[v].len() implies item_ok(hs, n + 1, #[trigger] r.volumes[v][j]) && ancestors_present(hs, r.volumes[v], j) by {
        if v < lv {
            assert(r.volumes[v] == m2.volumes[v]);
            assert(item_ok(hs, n, m2.volumes[v][j]));
        } else if j < l2.len() {
            assert(nl[j] == l2[j]);
            assert(item_ok(hs, n, l2[j]));
            lemma_ancestors_extend(hs, l2, seq![item], j);
            assert(l2 + seq![item] == nl);
        } else {
            assert(nl[j] == item);
            assert(item.ordinal == n);
            assert(item_ok(hs, n + 1, item));
            match parent_dir(item.path) {
                Some(d) => {
                    assert forall|o: int|
                        0 <= o < item.ordinal && is_dir_kind(hs[o].kind) && is_prefix(#[trigger] hs[o].path@, d)
                        implies has_dir(nl.take(j), hs[o].path@) by {
                        assert(m2.index.contains_key(hs[o].path@));
                        assert(m2.stored.contains(hs[o].path@));
                        assert(nl.take(j) =~= l2);
                    }
                },
                None => {},
            }
        }
    }
}

proof fn lemma_write_stored(cfg: SplitConfig, hs: Seq<EntryHeader>, m2: SplitModel, h: EntryHeader)
    requires
        cfg.recreate_dirs,
        ready_for(hs, m2, h),
    ensures
        forall|k: Seq<u8>| #[trigger] write_entry(cfg, m2, h, m2.count).stored.contains(k)
            <==> has_dir(write_entry(cfg, m2, h, m2.count).volumes.last(), k),
{
    let r = write_entry(cfg, m2, h, m2.count);
    let item = entry_item(m2.count, h);
    let l2 = m2.volumes.last();
    let nl = l2.push(item);
    assert(l2 + seq![item] =~= nl);
    assert(r.volumes.last() == nl);
    assert(nl[l2.len() as int] == item);
    assert forall|k: Seq<u8>| #[trigger] r.stored.contains(k) <==> has_dir(nl, k) by {
        if has_dir(nl, k) {
            let j = choose|j: int| 0 <= j < nl.len() && #[trigger] nl[j].is_dir && nl[j].path == k;
            if j < l2.len() {
                assert(nl[j] == l2[j]);
                assert(has_dir(l2, k));
                assert(m2.stored.contains(k));
            } else {
                assert(nl[j] == item);
                assert(records_dir(cfg, h));
                assert(k == h.path@);
            }
            assert(r.stored.contains(k));
        }
        if r.stored.contains(k) {
            if m2.stored.contains(k) {
                lemma_has_dir_extend(l2, seq![item], k);
            } else {
                assert(records_dir(cfg, h));
                assert(k == h.path@);
                assert(nl[l2.len() as int].is_dir);
            }
            assert(has_dir(nl, k));
        }
    }
}

proof fn lemma_write_distinct(cfg: SplitConfig, hs: Seq<EntryHeader>, m2: SplitModel, h: EntryHeader)
    requires
        cfg.recreate_dirs,
        ready_for(hs, m2, h),
        input_dirs_distinct(hs),
    ensures
        forall|v: int| 0 <= v < write_entry(cfg, m2, h, m2.count).volumes.len()
            ==> dirs_distinct(#[trigger] write_entry(cfg, m2, h, m2.count).volumes[v]),
{
    let r = write_entry(cfg, m2, h, m2.count);
    let item = entry_item(m2.count, h);
    let l2 = m2.volumes.last();
    let nl = l2.push(item);
    let lv = m2.volumes.len() - 1;
    let n = m2.count;
    assert(l2 + seq![item] =~= nl);
    assert(r.volumes == m2.volumes.update(lv, nl));
    assert forall|v: int| 0 <= v < r.volumes.len() implies dirs_distinct(#[trigger] r.volumes[v]) by {
        if v < lv {
            assert(r.volumes[v] == m2.volumes[v]);
        } else {
            assert(dirs_distinct(l2));
            assert forall|a: int, b: int|
                0 <= a < b < nl.len() && #[trigger] nl[a].is_dir && #[trigger] nl[b].is_dir implies nl[a].path != nl[b].path by {
                assert(nl[a] == l2[a]);
                if b < l2.len() {
                    assert(nl[b] == l2[b]);
                } else {
                    assert(nl[b] == item);
                    assert(item_ok(hs, n, l2[a]));
                    let o = l2[a].ordinal as int;
                    assert(is_dir_kind(hs[o].kind));
                    assert(is_dir_kind(hs[n as int].kind));
                }
            }
        }
    }
}

proof fn lemma_dirs_kept_step(cfg: SplitConfig, hs: Seq<EntryHeader>, m: SplitModel)
    requires
        cfg.recreate_dirs,
        dirs_kept(hs, m),
        m.count < hs.len(),
        step(cfg, m, hs[m.count as int]) is Some,
    ensures
        dirs_kept(hs, step(cfg, m, hs[m.count as int]).unwrap()),
        step(cfg, m, hs[m.count as int]).unwrap().count == m.count + 1,
{
    let h = hs[m.count as int];
    let m1 = if must_rotate(cfg, m, h) {
        rotated(m)
    } else {
        m
    };
    if must_rotate(cfg, m, h) {
        lemma_dirs_kept_rotated(hs, m);
    }
    let m2 = with_dirs(cfg, m1, h);
    lemma_dirs_kept_with_dirs(cfg, hs, m1, h);
    assert(m2 == before_write(cfg, m, h));
    assert(ready_for(hs, m2, h));
    let r = write_entry(cfg, m2, h, m2.count);
    assert(r == step(cfg, m, h).unwrap());
    lemma_write_items(cfg, hs, m2, h);
    lemma_write_stored(cfg, hs, m2, h);
    if input_dirs_distinct(hs) {
        lemma_write_distinct(cfg, hs, m2, h);
    }
    assert forall|o: int|
        0 <= o < r.count && is_dir_kind(hs[o].kind) implies r.index.contains_key(#[trigger] hs[o].path@) by {
        if o < m.count {
            assert(m2.index.contains_key(hs[o].path@));
        }
    }
}

proof fn lemma_run_dirs_kept(cfg: SplitConfig, hs: Seq<EntryHeader>, n: nat)
    requires
        cfg.recreate_dirs,
        n <= hs.len(),
        hs.len() <= u64::MAX,
    ensures
        run(cfg, hs.take(n as int)) is Some ==> dirs_kept(hs, run(cfg, hs.take(n as int)).unwrap())
            && run(cfg, hs.take(n as int)).unwrap().count == n,
    decreases n,
{
    if n == 0 {
        let m = crate::splitter::initial_model();
        assert(hs.take(0) =~= Seq::<EntryHeader>::empty());
        assert(m.volumes[0].len() == 0);
        assert forall|k: Seq<u8>| #[trigger] m.stored.contains(k) <==> has_dir(m.volumes.last(), k) by {
            assert(m.volumes.last().len() == 0);
        }
        assert forall|v: int| 0 <= v < m.volumes.len() implies dirs_distinct(#[trigger] m.volumes[v]) by {
            assert(v == 0);
        }
    } else {
        lemma_run_dirs_kept(cfg, hs, (n - 1) as nat);
        let t = hs.take(n as int);
        assert(t.drop_last() =~= hs.take(n - 1));
        assert(t.last() == hs[n - 1]);
        if run(cfg, hs.take(n - 1)) is Some && run(cfg, t) is Some {
            lemma_dirs_kept_step(cfg, hs, run(cfg, hs.take(n - 1)).unwrap());
        }
    }
}

/// With directory copies, every input entry finds in its own volume,
/// ahead of it, each directory that came before it in the input and holds
/// it (a directory whose path is a prefix of the entry's parent directory). Where no two
/// directory entries of the input share a path, no directory path comes
/// twice in one volume.
pub proof fn lemma_dirs_complete(cfg: SplitConfig, hs: Seq<EntryHeader>)
    requires
        cfg.recreate_dirs,
        hs.len() <= u64::MAX,
    ensures
        run(cfg, hs) is Some ==> forall|v: int, j: int|
            0 <= v < run(cfg, hs).unwrap().volumes.len() && 0 <= j < run(cfg, hs).unwrap().volumes[v].len()
                ==> #[trigger] ancestors_present(hs, run(cfg, hs).unwrap().volumes[v], j),
        run(cfg, hs) is Some && input_dirs_distinct(hs) ==> forall|v: int|
            0 <= v < run(cfg, hs).unwrap().volumes.len() ==> dirs_distinct(#[trigger] run(cfg, hs).unwrap().volumes[v]),
{
    lemma_run_dirs_kept(cfg, hs, hs.len());
    assert(hs.take(hs.len() as int) =~= hs);
}

} // verus!
