use vstd::prelude::*;

use crate::entry::{parent_dir, EntryHeader, TAR_HEADER_SIZE};
use crate::dirs::common_prefixes_of;
use crate::splitter::{
    copies_needed, dir_to_enter, lemma_sat_add, stored_after, with_dirs, append_last, before_write, entry_item, fresh_dirs, inject_dirs, must_rotate, reinjected_for,
    rotated, run, sat, step, too_large, Emitted, SplitConfig, SplitModel, TRAILER_SIZE,
};

verus! {

/// The items of a volume that are input entries in their own place, in order.
pub open spec fn input_entries(items: Seq<Emitted>) -> Seq<Emitted>
    decreases items.len(),
{
    if items.len() == 0 {
        Seq::empty()
    } else if items.last().reinjected {
        input_entries(items.drop_last())
    } else {
        input_entries(items.drop_last()).push(items.last())
    }
}

/// The input entries of all volumes, volume after volume.
pub open spec fn all_input_entries(vols: Seq<Seq<Emitted>>) -> Seq<Emitted>
    decreases vols.len(),
{
    if vols.len() == 0 {
        Seq::empty()
    } else {
        all_input_entries(vols.drop_last()) + input_entries(vols.last())
    }
}

/// The bytes of the items of a volume.
pub open spec fn items_size(items: Seq<Emitted>) -> int
    decreases items.len(),
{
    if items.len() == 0 {
        0
    } else {
        items_size(items.drop_last()) + items.last().size
    }
}

/// The bytes of a volume: its items and its end markers.
pub open spec fn volume_size(items: Seq<Emitted>) -> int {
    TRAILER_SIZE + items_size(items)
}

/// The items are one input entry, last, after directory copies only.
pub open spec fn lone_entry(items: Seq<Emitted>) -> bool {
    &&& items.len() >= 1
    &&& !items.last().reinjected
    &&& forall|i: int| 0 <= i < items.len() - 1 ==> (#[trigger] items[i]).reinjected
}

/// A volume keeps to the limit, or holds one input entry, with the copies
/// of the directories that hold it, that together do not fit in any volume.
pub open spec fn within_limit(cfg: SplitConfig, items: Seq<Emitted>) -> bool {
    volume_size(items) <= cfg.max_size || lone_entry(items)
}

proof fn lemma_input_entries_concat(a: Seq<Emitted>, b: Seq<Emitted>)
    ensures
        input_entries(a + b) == input_entries(a) + input_entries(b),
    decreases b.len(),
{
    if b.len() == 0 {
        assert(a + b =~= a);
        assert(input_entries(a) + input_entries(b) =~= input_entries(a));
    } else {
        assert((a + b).drop_last() =~= a + b.drop_last());
        assert((a + b).last() == b.last());
        lemma_input_entries_concat(a, b.drop_last());
        if !b.last().reinjected {
            assert(input_entries(a) + input_entries(b.drop_last()).push(b.last()) =~= (input_entries(a) + input_entries(
                b.drop_last(),
            )).push(b.last()));
        }
    }
}

proof fn lemma_input_entries_single(x: Emitted)
    ensures
        input_entries(seq![x]) == (if x.reinjected {
            Seq::<Emitted>::empty()
        } else {
            seq![x]
        }),
{
    let s = seq![x];
    assert(s.len() == 1);
    assert(s.last() == x);
    assert(s.drop_last() =~= Seq::<Emitted>::empty());
    assert(input_entries(s.drop_last()) == Seq::<Emitted>::empty());
    assert(Seq::<Emitted>::empty().push(x) =~= s);
}

proof fn lemma_fresh_dirs_reinjected(hits: Seq<(Seq<u8>, u64)>, stored: Set<Seq<u8>>)
    ensures
        input_entries(fresh_dirs(hits, stored)) == Seq::<Emitted>::empty(),
    decreases hits.len(),
{
    if hits.len() > 0 {
        let k = hits[0].0;
        lemma_fresh_dirs_reinjected(hits.drop_first(), stored.insert(k));
        if !stored.contains(k) {
            let x = Emitted { ordinal: hits[0].1, reinjected: true, path: k, is_dir: true, size: 512 };
            lemma_input_entries_concat(seq![x], fresh_dirs(hits.drop_first(), stored.insert(k)));
            lemma_input_entries_single(x);
            assert(Seq::<Emitted>::empty() + Seq::<Emitted>::empty() =~= Seq::<Emitted>::empty());
        }
    }
}

proof fn lemma_all_input_entries_append(vols: Seq<Seq<Emitted>>, items: Seq<Emitted>)
    requires
        vols.len() >= 1,
    ensures
        all_input_entries(append_last(vols, items)) == all_input_entries(vols) + input_entries(items),
{
    let v2 = append_last(vols, items);
    assert(v2.drop_last() =~= vols.drop_last());
    lemma_input_entries_concat(vols.last(), items);
    assert(all_input_entries(vols.drop_last()) + (input_entries(vols.last()) + input_entries(items)) =~= (
    all_input_entries(vols.drop_last()) + input_entries(vols.last())) + input_entries(items));
}

proof fn lemma_before_write_keeps_input_entries(cfg: SplitConfig, m: SplitModel, h: EntryHeader)
    requires
        m.volumes.len() >= 1,
    ensures
        all_input_entries(before_write(cfg, m, h).volumes) == all_input_entries(m.volumes),
        before_write(cfg, m, h).volumes.len() >= 1,
        before_write(cfg, m, h).count == m.count,
{
    let m1 = if must_rotate(cfg, m, h) {
        rotated(m)
    } else {
        m
    };
    if must_rotate(cfg, m, h) {
        assert(m1.volumes.drop_last() =~= m.volumes);
        assert(input_entries(m1.volumes.last()) =~= Seq::<Emitted>::empty());
        assert(all_input_entries(m1.volumes) =~= all_input_entries(m.volumes));
    }
    if cfg.recreate_dirs {
        match parent_dir(h.path@) {
            Some(d) => {
                if d != m1.prev_dir {
                    let m2 = inject_dirs(m1, d);
                    let fresh = fresh_dirs(crate::dirs::common_prefixes_of(m1.index, d), m1.stored);
                    lemma_all_input_entries_append(m1.volumes, fresh);
                    lemma_fresh_dirs_reinjected(crate::dirs::common_prefixes_of(m1.index, d), m1.stored);
                    assert(all_input_entries(m1.volumes) + Seq::<Emitted>::empty() =~= all_input_entries(m1.volumes));
                }
            },
            None => {},
        }
    }
}

/// Every input entry is written exactly once, in its own place, and the
/// input entries of the volumes, read volume after volume, are the input
/// in its order: the headers written again between them are copies of
/// directories only. With no limit on the size of an entry, every input
/// is taken whole.
pub proof fn lemma_entries_kept_in_order(cfg: SplitConfig, hs: Seq<EntryHeader>)
    requires
        hs.len() <= u64::MAX,
    ensures
        !cfg.fail_on_large_file ==> run(cfg, hs) is Some,
        run(cfg, hs) is Some ==> all_input_entries(run(cfg, hs).unwrap().volumes) == Seq::new(
            hs.len(),
            |i: int| entry_item(i as nat, hs[i]),
        ),
        run(cfg, hs) is Some ==> run(cfg, hs).unwrap().count == hs.len(),
        run(cfg, hs) is Some ==> run(cfg, hs).unwrap().volumes.len() >= 1,
    decreases hs.len(),
{
    if hs.len() == 0 {
        let v = crate::splitter::initial_model().volumes;
        assert(v.drop_last() =~= Seq::<Seq<Emitted>>::empty());
        assert(v.last() =~= Seq::<Emitted>::empty());
        assert(input_entries(v.last()) == Seq::<Emitted>::empty());
        assert(all_input_entries(v.drop_last()) == Seq::<Emitted>::empty());
        assert(all_input_entries(v) =~= Seq::<Emitted>::empty());
        assert(Seq::new(0, |i: int| entry_item(i as nat, hs[i])) =~= Seq::<Emitted>::empty());
    } else {
        let prev = hs.drop_last();
        lemma_entries_kept_in_order(cfg, prev);
        if run(cfg, prev) is Some {
            let m = run(cfg, prev).unwrap();
            let h = hs.last();
            if !too_large(cfg, h) {
                let m2 = before_write(cfg, m, h);
                lemma_before_write_keeps_input_entries(cfg, m, h);
                let item = entry_item(m.count, h);
                lemma_all_input_entries_append(m2.volumes, seq![item]);
                lemma_input_entries_single(item);
                assert(Seq::new(prev.len(), |i: int| entry_item(i as nat, prev[i])).push(item) =~= Seq::new(
                    hs.len(),
                    |i: int| entry_item(i as nat, hs[i]),
                ));
                let m3 = step(cfg, m, h).unwrap();
                assert(m3.volumes == append_last(m2.volumes, seq![item]));
            }
        }
    }
}

proof fn lemma_items_size_push(items: Seq<Emitted>, x: Emitted)
    ensures
        items_size(items.push(x)) == items_size(items) + x.size,
{
    assert(items.push(x).drop_last() =~= items);
}

proof fn lemma_items_size_nonneg(items: Seq<Emitted>)
    ensures
        items_size(items) >= 0,
    decreases items.len(),
{
    if items.len() > 0 {
        lemma_items_size_nonneg(items.drop_last());
    }
}

proof fn lemma_items_size_concat(a: Seq<Emitted>, b: Seq<Emitted>)
    ensures
        items_size(a + b) == items_size(a) + items_size(b),
    decreases b.len(),
{
    if b.len() == 0 {
        assert(a + b =~= a);
    } else {
        assert((a + b).drop_last() =~= a + b.drop_last());
        lemma_items_size_concat(a, b.drop_last());
    }
}

proof fn lemma_fresh_dirs_shape(hits: Seq<(Seq<u8>, u64)>, stored: Set<Seq<u8>>)
    ensures
        items_size(fresh_dirs(hits, stored)) == TAR_HEADER_SIZE * fresh_dirs(hits, stored).len(),
        forall|j: int| 0 <= j < fresh_dirs(hits, stored).len() ==> (#[trigger] fresh_dirs(hits, stored)[j]).reinjected,
    decreases hits.len(),
{
    if hits.len() > 0 {
        let k = hits[0].0;
        let rest = fresh_dirs(hits.drop_first(), stored.insert(k));
        lemma_fresh_dirs_shape(hits.drop_first(), stored.insert(k));
        if !stored.contains(k) {
            let x = Emitted { ordinal: hits[0].1, reinjected: true, path: k, is_dir: true, size: 512 };
            lemma_items_size_concat(seq![x], rest);
            assert(seq![x].drop_last() =~= Seq::<Emitted>::empty());
            assert(seq![x].last() == x);
            assert(items_size(seq![x].drop_last()) == 0);
            assert(items_size(seq![x]) == 512);
            let f = seq![x] + rest;
            assert forall|j: int| 0 <= j < f.len() implies (#[trigger] f[j]).reinjected by {
                if j > 0 {
                    assert(f[j] == rest[j - 1]);
                }
            }
        }
    }
}

proof fn lemma_with_dirs_shape(cfg: SplitConfig, m: SplitModel, h: EntryHeader)
    requires
        m.volumes.len() >= 1,
        m.acc <= u64::MAX,
    ensures
        with_dirs(cfg, m, h).volumes == append_last(m.volumes, copies_needed(cfg, m, h)),
        with_dirs(cfg, m, h).acc == sat(m.acc + TAR_HEADER_SIZE * copies_needed(cfg, m, h).len()),
{
    if dir_to_enter(cfg, m, h) is None {
        assert(m.volumes.last() + Seq::<Emitted>::empty() =~= m.volumes.last());
        assert(append_last(m.volumes, Seq::<Emitted>::empty()) =~= m.volumes);
    }
}

/// What every run keeps of every volume.
spec fn sizes_kept(cfg: SplitConfig, m: SplitModel) -> bool {
    &&& m.volumes.len() >= 1
    &&& m.acc == sat(volume_size(m.volumes.last()))
    &&& forall|i: int| 0 <= i < m.volumes.len() ==> within_limit(cfg, #[trigger] m.volumes[i])
}

proof fn lemma_sizes_kept_by_step(cfg: SplitConfig, m: SplitModel, h: EntryHeader)
    requires
        cfg.max_size >= TRAILER_SIZE,
        sizes_kept(cfg, m),
        step(cfg, m, h) is Some,
    ensures
        sizes_kept(cfg, step(cfg, m, h).unwrap()),
{
    let m1 = if must_rotate(cfg, m, h) {
        rotated(m)
    } else {
        m
    };
    let c = copies_needed(cfg, m1, h);
    let m2 = with_dirs(cfg, m1, h);
    let m3 = step(cfg, m, h).unwrap();
    let item = entry_item(m.count, h);
    let last = m1.volumes.last();
    let nl = (last + c).push(item);
    lemma_with_dirs_shape(cfg, m1, h);
    lemma_fresh_dirs_shape(
        common_prefixes_of(m1.index, dir_to_enter(cfg, m1, h).unwrap()),
        m1.stored,
    );
    assert(items_size(c) == TAR_HEADER_SIZE * c.len()) by {
        if dir_to_enter(cfg, m1, h) is None {
            assert(c =~= Seq::<Emitted>::empty());
        }
    }
    assert(forall|j: int| 0 <= j < c.len() ==> (#[trigger] c[j]).reinjected) by {
        if dir_to_enter(cfg, m1, h) is None {
            assert(c =~= Seq::<Emitted>::empty());
        }
    }
    assert(m2.volumes.last() == last + c);
    assert(m2.volumes.last() + seq![item] =~= nl);
    assert(m3.volumes.last() == nl);
    assert(m3.acc == sat(m2.acc + item.size as int));
    lemma_items_size_concat(last, c);
    lemma_items_size_push(last + c, item);
    lemma_items_size_nonneg(last);
    assert(item.size >= 512);
    if must_rotate(cfg, m, h) || m.volumes.last().len() == 0 {
        assert(last =~= Seq::<Emitted>::empty());
        assert(items_size(last) == 0);
        assert(m1.acc == TRAILER_SIZE);
        assert(last + c =~= c);
        assert forall|i: int| 0 <= i < nl.len() - 1 implies (#[trigger] nl[i]).reinjected by {
            assert(nl[i] == c[i]);
        }
        assert(lone_entry(nl));
        lemma_sat_add(TRAILER_SIZE as int, TAR_HEADER_SIZE * c.len(), item.size as int);
    } else {
        assert(m1 == m);
        assert(m.acc + TAR_HEADER_SIZE * c.len() + item.size <= cfg.max_size);
        assert(m.acc == volume_size(last));
        assert(within_limit(cfg, nl));
    }
    assert forall|i: int| 0 <= i < m3.volumes.len() implies within_limit(cfg, #[trigger] m3.volumes[i]) by {
        if i < m3.volumes.len() - 1 {
            assert(m3.volumes[i] == m2.volumes[i]);
            assert(m2.volumes[i] == m1.volumes[i]);
            if i < m.volumes.len() {
                assert(m1.volumes[i] == m.volumes[i]);
            }
        }
    }
}

proof fn lemma_run_sizes_kept(cfg: SplitConfig, hs: Seq<EntryHeader>)
    requires
        cfg.max_size >= TRAILER_SIZE,
    ensures
        run(cfg, hs) is Some ==> sizes_kept(cfg, run(cfg, hs).unwrap()),
    decreases hs.len(),
{
    if hs.len() == 0 {
        let m = crate::splitter::initial_model();
        assert(m.volumes[0] =~= Seq::<Emitted>::empty());
        assert(items_size(m.volumes[0]) == 0);
        assert(within_limit(cfg, m.volumes[0]));
    } else {
        lemma_run_sizes_kept(cfg, hs.drop_last());
        if run(cfg, hs.drop_last()) is Some && run(cfg, hs) is Some {
            lemma_sizes_kept_by_step(cfg, run(cfg, hs.drop_last()).unwrap(), hs.last());
        }
    }
}

/// No volume is larger than the limit, but for one that holds a single
/// input entry, after the copies of the directories that hold it, which
/// together with the end markers do not fit.
pub proof fn lemma_volume_size_bounded(cfg: SplitConfig, hs: Seq<EntryHeader>)
    requires
        cfg.max_size >= TRAILER_SIZE,
    ensures
        run(cfg, hs) is Some ==> forall|i: int|
            0 <= i < run(cfg, hs).unwrap().volumes.len() ==> within_limit(
                cfg,
                #[trigger] run(cfg, hs).unwrap().volumes[i],
            ),
{
    lemma_run_sizes_kept(cfg, hs);
}

/// Two entries in a row from the same directory: the second writes no
/// copy of a directory, unless it opens a new volume.
pub proof fn lemma_same_dir_injects_once(cfg: SplitConfig, m: SplitModel, h1: EntryHeader, h2: EntryHeader)
    requires
        parent_dir(h1.path@) == parent_dir(h2.path@),
        step(cfg, m, h1) is Some,
        !must_rotate(cfg, step(cfg, m, h1).unwrap(), h2),
    ensures
        reinjected_for(cfg, step(cfg, m, h1).unwrap(), h2) == Seq::<Emitted>::empty(),
{
    let m1 = step(cfg, m, h1).unwrap();
    let m2 = before_write(cfg, m1, h2);
    if cfg.recreate_dirs && parent_dir(h2.path@) is Some {
        assert(m1.prev_dir == parent_dir(h1.path@).unwrap());
    }
    assert(m2 == m1);
    assert(reinjected_for(cfg, m1, h2) =~= Seq::<Emitted>::empty());
}

/// One entry taken adds it, and only it, to the input entries of the
/// volumes, after all those already written; volumes already closed are
/// left as they were.
pub proof fn lemma_step_appends_entry(cfg: SplitConfig, m: SplitModel, h: EntryHeader)
    requires
        m.volumes.len() >= 1,
        step(cfg, m, h) is Some,
    ensures
        all_input_entries(step(cfg, m, h).unwrap().volumes) == all_input_entries(m.volumes).push(
            entry_item(m.count, h),
        ),
        forall|i: int| 0 <= i < m.volumes.len() - 1 ==> step(cfg, m, h).unwrap().volumes[i] == m.volumes[i],
{
    let m2 = before_write(cfg, m, h);
    lemma_before_write_keeps_input_entries(cfg, m, h);
    let item = entry_item(m.count, h);
    lemma_all_input_entries_append(m2.volumes, seq![item]);
    lemma_input_entries_single(item);
    let m1 = if must_rotate(cfg, m, h) {
        rotated(m)
    } else {
        m
    };
    let r = step(cfg, m, h).unwrap();
    assert forall|i: int| 0 <= i < m.volumes.len() - 1 implies r.volumes[i] == m.volumes[i] by {
        assert(r.volumes[i] == m2.volumes[i]);
        assert(m2.volumes[i] == m1.volumes[i]);
    }
}

proof fn lemma_fresh_dirs_all_stored(hits: Seq<(Seq<u8>, u64)>, stored: Set<Seq<u8>>)
    requires
        forall|i: int| 0 <= i < hits.len() ==> stored.contains(#[trigger] hits[i].0),
    ensures
        fresh_dirs(hits, stored) == Seq::<Emitted>::empty(),
        stored_after(hits, stored) == stored,
    decreases hits.len(),
{
    if hits.len() > 0 {
        let rest = hits.drop_first();
        assert(stored.insert(hits[0].0) =~= stored);
        assert forall|i: int| 0 <= i < rest.len() implies stored.contains(#[trigger] rest[i].0) by {
            assert(rest[i] == hits[i + 1]);
        }
        lemma_fresh_dirs_all_stored(rest, stored);
    }
}

proof fn lemma_stored_after_holds_hits(hits: Seq<(Seq<u8>, u64)>, stored: Set<Seq<u8>>)
    ensures
        forall|i: int| 0 <= i < hits.len() ==> stored_after(hits, stored).contains(#[trigger] hits[i].0),
        forall|k: Seq<u8>| stored.contains(k) ==> stored_after(hits, stored).contains(k),
    decreases hits.len(),
{
    if hits.len() > 0 {
        let rest = hits.drop_first();
        let st2 = stored.insert(hits[0].0);
        lemma_stored_after_holds_hits(rest, st2);
        assert forall|i: int| 0 <= i < hits.len() implies stored_after(hits, stored).contains(#[trigger] hits[i].0) by {
            if i > 0 {
                assert(hits[i] == rest[i - 1]);
            } else {
                assert(st2.contains(hits[0].0));
            }
        }
        assert forall|k: Seq<u8>| stored.contains(k) implies stored_after(hits, stored).contains(k) by {
            assert(st2.contains(k));
        }
    }
}

/// Seeing to the directories that hold `d` a second time, with nothing
/// written between, writes nothing and changes nothing.
pub proof fn lemma_inject_dirs_idempotent(m: SplitModel, d: Seq<u8>)
    requires
        m.volumes.len() >= 1,
    ensures
        inject_dirs(inject_dirs(m, d), d) == inject_dirs(m, d),
{
    let m2 = inject_dirs(m, d);
    let hits = common_prefixes_of(m.index, d);
    lemma_stored_after_holds_hits(hits, m.stored);
    lemma_fresh_dirs_all_stored(hits, m2.stored);
    assert(m2.volumes.last() + Seq::<Emitted>::empty() =~= m2.volumes.last());
    assert(append_last(m2.volumes, Seq::<Emitted>::empty()) =~= m2.volumes);
}

} // verus!
