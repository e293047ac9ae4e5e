use vstd::prelude::*;
use patricia_tree::PatriciaSet;

use crate::dirs::{
    common_prefixes_of, prefix_hits, dir_map_common_prefixes, dir_map_contents, dir_map_insert, dir_map_new,
    dir_set_contains, dir_set_contents, dir_set_insert, dir_set_new, DirMap,
};
use crate::entry::{is_dir_kind, parent_dir, parent_dir_of, EntryHeader, TAR_HEADER_SIZE};

verus! {

/// The room kept in every volume for the two zero blocks that end an archive.
pub const TRAILER_SIZE: u64 = 1024;

/// What the splitter is asked to do.
#[derive(Clone, Copy, Debug, PartialEq, Eq, Structural)]
pub struct SplitConfig {
    /// The most bytes that a volume may take, its end markers included.
    pub max_size: u64,
    /// Stop at an entry that cannot fit into a volume of its own.
    pub fail_on_large_file: bool,
    /// Write again, into each new volume, the directories that hold its entries.
    pub recreate_dirs: bool,
}

/// Why the splitter stopped.
#[derive(Clone, Debug)]
pub enum SplitError {
    /// The entry at this path, with its header, is larger than a volume.
    FileTooLarge(Vec<u8>),
}

/// What the writer has to do for one input entry, in this order: finish the
/// volume and open the next one where `rotate` holds; write, with no data,
/// the headers of the directories that `reinject` names by the ordinal of
/// the input entry that described them; write the entry itself; and, where
/// `record_dir` holds, keep the entry's header under its ordinal, to be
/// written again later.
#[derive(Clone, Debug)]
pub struct Step {
    pub rotate: bool,
    pub reinject: Vec<u64>,
    pub record_dir: bool,
}

/// One header written into a volume.
pub struct Emitted {
    /// The position of the input entry it comes from.
    pub ordinal: u64,
    /// A copy of a directory seen earlier, written so that the volume is
    /// complete, rather than an input entry in its own place.
    pub reinjected: bool,
    pub path: Seq<u8>,
    pub is_dir: bool,
    /// The bytes that it takes in the volume.
    pub size: nat,
}

/// The state of a run, as a value.
pub struct SplitModel {
    /// What each volume holds so far; the last one is being written.
    pub volumes: Seq<Seq<Emitted>>,
    /// The bytes of the last volume, its end markers included.
    pub acc: nat,
    /// The directory whose ancestors were last made present in the last volume.
    pub prev_dir: Seq<u8>,
    /// The directory paths written into the last volume.
    pub stored: Set<Seq<u8>>,
    /// Each directory seen so far, with the ordinal of its latest entry.
    pub index: Map<Seq<u8>, u64>,
    /// The number of input entries taken.
    pub count: nat,
}

/// `x`, capped at the largest `u64`.
pub open spec fn sat(x: int) -> nat {
    if x > u64::MAX as int {
        u64::MAX as nat
    } else if x < 0 {
        0
    } else {
        x as nat
    }
}

/// The bytes that an entry takes in a volume: its header and its data.
pub open spec fn entry_cost(h: EntryHeader) -> nat {
    sat(TAR_HEADER_SIZE + h.data_size)
}

pub open spec fn initial_model() -> SplitModel {
    SplitModel {
        volumes: seq![Seq::<Emitted>::empty()],
        acc: TRAILER_SIZE as nat,
        prev_dir: Seq::empty(),
        stored: Set::empty(),
        index: Map::empty(),
        count: 0,
    }
}

/// Whether the entry is refused outright.
pub open spec fn too_large(cfg: SplitConfig, h: EntryHeader) -> bool {
    cfg.fail_on_large_file && entry_cost(h) > cfg.max_size
}

pub open spec fn rotated(m: SplitModel) -> SplitModel {
    SplitModel {
        volumes: m.volumes.push(Seq::empty()),
        acc: TRAILER_SIZE as nat,
        prev_dir: Seq::empty(),
        stored: Set::empty(),
        ..m
    }
}

/// The copies of directories written for `hits`, in their order, each
/// unless its path is already in the volume.
pub open spec fn fresh_dirs(hits: Seq<(Seq<u8>, u64)>, stored: Set<Seq<u8>>) -> Seq<Emitted>
    decreases hits.len(),
{
    if hits.len() == 0 {
        Seq::empty()
    } else {
        let k = hits[0].0;
        let rest = fresh_dirs(hits.drop_first(), stored.insert(k));
        if stored.contains(k) {
            rest
        } else {
            seq![Emitted { ordinal: hits[0].1, reinjected: true, path: k, is_dir: true, size: TAR_HEADER_SIZE as nat }]
                + rest
        }
    }
}

/// `stored` with the paths of `hits` added.
pub open spec fn stored_after(hits: Seq<(Seq<u8>, u64)>, stored: Set<Seq<u8>>) -> Set<Seq<u8>>
    decreases hits.len(),
{
    if hits.len() == 0 {
        stored
    } else {
        stored_after(hits.drop_first(), stored.insert(hits[0].0))
    }
}

/// The last volume of `vols` with `items` appended.
pub open spec fn append_last(vols: Seq<Seq<Emitted>>, items: Seq<Emitted>) -> Seq<Seq<Emitted>> {
    vols.update(vols.len() - 1, vols.last() + items)
}

/// The directories known to hold `d` (those whose path is a prefix of it),
/// root first, each written into the last volume unless already there.
pub open spec fn inject_dirs(m: SplitModel, d: Seq<u8>) -> SplitModel {
    let hits = common_prefixes_of(m.index, d);
    let fresh = fresh_dirs(hits, m.stored);
    SplitModel {
        volumes: append_last(m.volumes, fresh),
        acc: sat(m.acc + TAR_HEADER_SIZE * fresh.len()),
        stored: stored_after(hits, m.stored),
        ..m
    }
}

/// The directory whose ancestors have to be seen to before the entry is
/// written: its parent, where directory copies are asked for and the
/// parent is not the one last seen to in this volume.
pub open spec fn dir_to_enter(cfg: SplitConfig, m: SplitModel, h: EntryHeader) -> Option<Seq<u8>> {
    if cfg.recreate_dirs {
        match parent_dir(h.path@) {
            Some(d) => if d == m.prev_dir {
                None
            } else {
                Some(d)
            },
            None => None,
        }
    } else {
        None
    }
}

/// The directory copies that the entry would need in the last volume.
pub open spec fn copies_needed(cfg: SplitConfig, m: SplitModel, h: EntryHeader) -> Seq<Emitted> {
    match dir_to_enter(cfg, m, h) {
        Some(d) => fresh_dirs(common_prefixes_of(m.index, d), m.stored),
        None => Seq::empty(),
    }
}

/// Whether the entry opens a new volume: the last one holds something and
/// the entry, with the directory copies it needs there, would take it over
/// the limit.
pub open spec fn must_rotate(cfg: SplitConfig, m: SplitModel, h: EntryHeader) -> bool {
    m.volumes.last().len() > 0 && m.acc + TAR_HEADER_SIZE * copies_needed(cfg, m, h).len() + entry_cost(h)
        > cfg.max_size
}

/// The state after the directories that hold `d` were seen to; `d` is
/// remembered as the last directory seen to.
pub open spec fn enter_dir(m: SplitModel, d: Seq<u8>) -> SplitModel {
    SplitModel { prev_dir: d, ..inject_dirs(m, d) }
}

/// The state after the directories that hold the entry were seen to.
pub open spec fn with_dirs(cfg: SplitConfig, m: SplitModel, h: EntryHeader) -> SplitModel {
    match dir_to_enter(cfg, m, h) {
        Some(d) => enter_dir(m, d),
        None => m,
    }
}

/// The record of an input entry written in its own place.
pub open spec fn entry_item(ordinal: nat, h: EntryHeader) -> Emitted {
    Emitted {
        ordinal: ordinal as u64,
        reinjected: false,
        path: h.path@,
        is_dir: is_dir_kind(h.kind),
        size: entry_cost(h),
    }
}

/// The state before the entry itself is written.
pub open spec fn before_write(cfg: SplitConfig, m: SplitModel, h: EntryHeader) -> SplitModel {
    let m1 = if must_rotate(cfg, m, h) {
        rotated(m)
    } else {
        m
    };
    with_dirs(cfg, m1, h)
}

/// The directory copies written for the entry.
pub open spec fn reinjected_for(cfg: SplitConfig, m: SplitModel, h: EntryHeader) -> Seq<Emitted> {
    let m1 = if must_rotate(cfg, m, h) {
        rotated(m)
    } else {
        m
    };
    let m2 = before_write(cfg, m, h);
    m2.volumes.last().subrange(m1.volumes.last().len() as int, m2.volumes.last().len() as int)
}

/// Whether the entry is kept as the latest word on its directory.
pub open spec fn records_dir(cfg: SplitConfig, h: EntryHeader) -> bool {
    cfg.recreate_dirs && is_dir_kind(h.kind)
}

/// The entry written, in its own place, after what `before_write` did.
pub open spec fn write_entry(cfg: SplitConfig, m2: SplitModel, h: EntryHeader, ordinal: nat) -> SplitModel {
    let m3 = SplitModel {
        volumes: append_last(m2.volumes, seq![entry_item(ordinal, h)]),
        acc: sat(m2.acc + entry_cost(h) as int),
        count: ordinal + 1,
        ..m2
    };
    if records_dir(cfg, h) {
        SplitModel { index: m3.index.insert(h.path@, ordinal as u64), stored: m3.stored.insert(h.path@), ..m3 }
    } else {
        m3
    }
}

/// One input entry taken: none where it is refused.
pub open spec fn step(cfg: SplitConfig, m: SplitModel, h: EntryHeader) -> Option<SplitModel> {
    if too_large(cfg, h) {
        None
    } else {
        Some(write_entry(cfg, before_write(cfg, m, h), h, m.count))
    }
}

/// A whole input taken, entry by entry: none where an entry is refused.
pub open spec fn run(cfg: SplitConfig, hs: Seq<EntryHeader>) -> Option<SplitModel>
    decreases hs.len(),
{
    if hs.len() == 0 {
        Some(initial_model())
    } else {
        match run(cfg, hs.drop_last()) {
            Some(m) => step(cfg, m, hs.last()),
            None => None,
        }
    }
}

/// The decisions of a run: when to open a new volume, which directories to
/// write again, and the bytes that the volume being written holds.
pub struct Splitter {
    config: SplitConfig,
    volume_index: u64,
    count: u64,
    acc_size: u64,
    volume_used: bool,
    prev_dir: Vec<u8>,
    stored_dirs: PatriciaSet,
    dirs: DirMap,
    volumes: Ghost<Seq<Seq<Emitted>>>,
}

impl View for Splitter {
    type V = SplitModel;

    closed spec fn view(&self) -> SplitModel {
        SplitModel {
            volumes: self.volumes@,
            acc: self.acc_size as nat,
            prev_dir: self.prev_dir@,
            stored: dir_set_contents(self.stored_dirs),
            index: dir_map_contents(self.dirs),
            count: self.count as nat,
        }
    }
}

fn sat_add(a: u64, b: u64) -> (r: u64)
    ensures
        r == sat(a + b),
{
    if a <= u64::MAX - b {
        a + b
    } else {
        u64::MAX
    }
}

fn bytes_eq(a: &[u8], b: &[u8]) -> (r: bool)
    ensures
        r == (a@ == b@),
{
    if a.len() != b.len() {
        return false;
    }
    let mut i: usize = 0;
    while i < a.len()
        invariant
            a@.len() == b@.len(),
            i <= a@.len(),
            forall|j: int| 0 <= j < i ==> a@[j] == b@[j],
        decreases a@.len() - i,
    {
        if a[i] != b[i] {
            return false;
        }
        i = i + 1;
    }
    assert(a@ =~= b@);
    true
}

pub(crate) proof fn lemma_sat_add(a: int, x: int, y: int)
    requires
        a >= 0,
        x >= 0,
        y >= 0,
    ensures
        sat(sat(a + x) + y) == sat(a + x + y),
{
}

/// How many of `hits` have a path outside `stored`.
spec fn count_missing(hits: Seq<(Seq<u8>, u64)>, stored: Set<Seq<u8>>) -> nat
    decreases hits.len(),
{
    if hits.len() == 0 {
        0
    } else {
        (if stored.contains(hits[0].0) {
            0nat
        } else {
            1nat
        }) + count_missing(hits.drop_first(), stored)
    }
}

/// The paths of `hits` grow strictly longer.
spec fn by_length(hits: Seq<(Seq<u8>, u64)>) -> bool {
    forall|i: int, j: int| 0 <= i < j < hits.len() ==> (#[trigger] hits[i]).0.len() < (#[trigger] hits[j]).0.len()
}

proof fn lemma_prefix_hits_by_length(m: Map<Seq<u8>, u64>, key: Seq<u8>, n: nat)
    requires
        n <= key.len() + 1,
    ensures
        by_length(prefix_hits(m, key, n)),
        forall|i: int| 0 <= i < prefix_hits(m, key, n).len() ==> (#[trigger] prefix_hits(m, key, n)[i]).0.len() < n,
    decreases n,
{
    if n > 0 {
        lemma_prefix_hits_by_length(m, key, (n - 1) as nat);
        let prev = prefix_hits(m, key, (n - 1) as nat);
        let cur = prefix_hits(m, key, n);
        assert(key.subrange(0, n - 1).len() == n - 1);
        assert forall|i: int| 0 <= i < cur.len() implies (#[trigger] cur[i]).0.len() < n by {
            if i < prev.len() {
                assert(cur[i] == prev[i]);
            }
        }
        assert forall|i: int, j: int| 0 <= i < j < cur.len() implies (#[trigger] cur[i]).0.len() < (
        #[trigger] cur[j]).0.len() by {
            assert(cur[i] == prev[i]);
            if j < prev.len() {
                assert(cur[j] == prev[j]);
            }
        }
    }
}

proof fn lemma_count_missing_insert(hits: Seq<(Seq<u8>, u64)>, stored: Set<Seq<u8>>, k: Seq<u8>)
    requires
        forall|i: int| 0 <= i < hits.len() ==> (#[trigger] hits[i]).0 != k,
    ensures
        count_missing(hits, stored.insert(k)) == count_missing(hits, stored),
    decreases hits.len(),
{
    if hits.len() > 0 {
        let rest = hits.drop_first();
        assert forall|i: int| 0 <= i < rest.len() implies (#[trigger] rest[i]).0 != k by {
            assert(rest[i] == hits[i + 1]);
        }
        lemma_count_missing_insert(rest, stored, k);
        assert(hits[0].0 != k);
    }
}

proof fn lemma_fresh_dirs_count(hits: Seq<(Seq<u8>, u64)>, stored: Set<Seq<u8>>)
    requires
        by_length(hits),
    ensures
        fresh_dirs(hits, stored).len() == count_missing(hits, stored),
    decreases hits.len(),
{
    if hits.len() > 0 {
        let k = hits[0].0;
        let rest = hits.drop_first();
        assert forall|i: int, j: int| 0 <= i < j < rest.len() implies (#[trigger] rest[i]).0.len() < (
        #[trigger] rest[j]).0.len() by {
            assert(rest[i] == hits[i + 1] && rest[j] == hits[j + 1]);
        }
        lemma_fresh_dirs_count(rest, stored.insert(k));
        assert forall|i: int| 0 <= i < rest.len() implies (#[trigger] rest[i]).0 != k by {
            assert(rest[i] == hits[i + 1]);
            assert(hits[0].0.len() < hits[i + 1].0.len());
        }
        lemma_count_missing_insert(rest, stored, k);
    }
}

impl Splitter {
    pub closed spec fn wf(&self) -> bool {
        &&& self.inner_wf()
        &&& self.volume_index <= self.count
    }

    closed spec fn inner_wf(&self) -> bool {
        &&& self.volumes@.len() >= 1
        &&& self.volume_index == self.volumes@.len() - 1
        &&& self.volume_used == (self.volumes@.last().len() > 0)
    }

    pub closed spec fn spec_config(&self) -> SplitConfig {
        self.config
    }

    /// A splitter at the start of a run: one empty volume, nothing seen.
    pub fn new(config: SplitConfig) -> (r: Splitter)
        ensures
            r.wf(),
            r@ == initial_model(),
            r.spec_config() == config,
    {
        Splitter {
            config,
            volume_index: 0,
            count: 0,
            acc_size: TRAILER_SIZE,
            volume_used: false,
            prev_dir: Vec::new(),
            stored_dirs: dir_set_new(),
            dirs: dir_map_new(),
            volumes: Ghost(initial_model().volumes),
        }
    }

    pub fn config(&self) -> (r: SplitConfig)
        ensures
            r == self.spec_config(),
    {
        self.config
    }

    /// The index of the volume being written; volumes are numbered from 0.
    pub fn volume_index(&self) -> (r: u64)
        requires
            self.wf(),
        ensures
            r == self@.volumes.len() - 1,
    {
        self.volume_index
    }

    /// The number of input entries taken; the next one gets this ordinal.
    pub fn entries_seen(&self) -> (r: u64)
        ensures
            r == self@.count,
    {
        self.count
    }

    /// The bytes that the volume being written takes, end markers included.
    pub fn accumulated_size(&self) -> (r: u64)
        ensures
            r == self@.acc,
    {
        self.acc_size
    }

    /// Close the volume being written and start the next one.
    fn start_new_volume(&mut self)
        requires
            old(self).inner_wf(),
            old(self).volume_used,
            old(self).volume_index < u64::MAX,
        ensures
            final(self).inner_wf(),
            final(self).volume_index == old(self).volume_index + 1,
            final(self)@ == rotated(old(self)@),
            final(self).config == old(self).config,
            final(self).count == old(self).count,
    {
        self.volume_index = self.volume_index + 1;
        self.acc_size = TRAILER_SIZE;
        self.volume_used = false;
        self.prev_dir = Vec::new();
        self.stored_dirs = dir_set_new();
        self.volumes = Ghost(self.volumes@.push(Seq::empty()));
    }

    /// Write into the volume being written the known directories that hold
    /// `dirname`, root first, skipping those already in it; answer their
    /// ordinals.
    fn inject_dirs_for_path(&mut self, dirname: &[u8]) -> (r: Vec<u64>)
        requires
            old(self).inner_wf(),
        ensures
            final(self).inner_wf(),
            final(self).volume_index == old(self).volume_index,
            final(self)@ == inject_dirs(old(self)@, dirname@),
            final(self).config == old(self).config,
            final(self).count == old(self).count,
            r@ == fresh_dirs(common_prefixes_of(old(self)@.index, dirname@), old(self)@.stored).map_values(
                |e: Emitted| e.ordinal,
            ),
    {
        let ghost m0 = self@;
        let ghost cfg0 = self.config;
        let ghost m0_index = self.volume_index;
        let hits = dir_map_common_prefixes(&self.dirs, dirname);
        let ghost hv = common_prefixes_of(m0.index, dirname@);
        let ghost total = fresh_dirs(hv, m0.stored);
        let ghost mut done: Seq<Emitted> = Seq::empty();
        let mut out: Vec<u64> = Vec::new();
        let mut i: usize = 0;
        assert(m0.volumes.last() + done =~= m0.volumes.last());
        assert(append_last(m0.volumes, done) =~= m0.volumes);
        assert(hv.skip(0) =~= hv);
        assert(done + total =~= total);
        assert(out@ =~= done.map_values(|e: Emitted| e.ordinal));
        while i < hits.len()
            invariant
                self.inner_wf(),
                self.volume_index == m0_index,
                self.config == cfg0,
                hits@.len() == hv.len(),
                forall|j: int| 0 <= j < hv.len() ==> hits@[j].0@ == #[trigger] hv[j].0 && hits@[j].1 == hv[j].1,
                i <= hits@.len(),
                self@.index == m0.index,
                self@.prev_dir == m0.prev_dir,
                self@.count == m0.count,
                self.volumes@.len() == m0.volumes.len(),
                self.volumes@ == append_last(m0.volumes, done),
                done + fresh_dirs(hv.skip(i as int), self@.stored) == total,
                stored_after(hv.skip(i as int), self@.stored) == stored_after(hv, m0.stored),
                self@.acc == sat(m0.acc + TAR_HEADER_SIZE * done.len()),
                out@ == done.map_values(|e: Emitted| e.ordinal),
                m0.volumes.len() >= 1,
                done.len() > 0 ==> self.volume_used,
                self.volume_used == (m0.volumes.last().len() > 0 || done.len() > 0),
            decreases hits@.len() - i,
        {
            let ghost rest = hv.skip(i as int);
            assert(rest[0] == hv[i as int]);
            assert(rest.drop_first() =~= hv.skip(i + 1));
            let key = hits[i].0.as_slice();
            let ordinal = hits[i].1;
            if !dir_set_contains(&self.stored_dirs, key) {
                let ghost item = Emitted {
                    ordinal,
                    reinjected: true,
                    path: key@,
                    is_dir: true,
                    size: TAR_HEADER_SIZE as nat,
                };
                proof {
                    lemma_sat_add(m0.acc as int, TAR_HEADER_SIZE * done.len(), TAR_HEADER_SIZE as int);
                    assert(done.push(item) + fresh_dirs(hv.skip(i + 1), self@.stored.insert(key@)) =~= done
                        + fresh_dirs(rest, self@.stored));
                    assert(append_last(m0.volumes, done.push(item)) =~= append_last(m0.volumes, done).update(
                        m0.volumes.len() - 1,
                        append_last(m0.volumes, done).last().push(item),
                    ));
                    assert(done.push(item).map_values(|e: Emitted| e.ordinal) =~= done.map_values(
                        |e: Emitted| e.ordinal,
                    ).push(ordinal));
                }
                self.volumes = Ghost(self.volumes@.update(self.volumes@.len() - 1, self.volumes@.last().push(item)));
                self.acc_size = sat_add(self.acc_size, TAR_HEADER_SIZE);
                self.volume_used = true;
                out.push(ordinal);
                proof {
                    done = done.push(item);
                }
            }
            dir_set_insert(&mut self.stored_dirs, key);
            i = i + 1;
        }
        assert(hv.skip(hits@.len() as int) =~= Seq::<(Seq<u8>, u64)>::empty());
        assert(done == total);
        out
    }

    /// How many directory copies entering `dirname` would write into the
    /// volume being written.
    fn count_copies(&self, dirname: &[u8]) -> (r: u64)
        ensures
            r == fresh_dirs(common_prefixes_of(self@.index, dirname@), self@.stored).len(),
    {
        let hits = dir_map_common_prefixes(&self.dirs, dirname);
        let ghost hv = common_prefixes_of(self@.index, dirname@);
        proof {
            lemma_prefix_hits_by_length(self@.index, dirname@, dirname@.len() + 1);
            lemma_fresh_dirs_count(hv, self@.stored);
            assert(hv.skip(0) =~= hv);
        }
        let mut n: u64 = 0;
        let mut i: usize = 0;
        while i < hits.len()
            invariant
                hits@.len() == hv.len(),
                forall|j: int| 0 <= j < hv.len() ==> hits@[j].0@ == #[trigger] hv[j].0 && hits@[j].1 == hv[j].1,
                i <= hits@.len(),
                n <= i,
                n + count_missing(hv.skip(i as int), self@.stored) == count_missing(hv, self@.stored),
            decreases hits@.len() - i,
        {
            let ghost rest = hv.skip(i as int);
            assert(rest[0] == hv[i as int]);
            assert(rest.drop_first() =~= hv.skip(i + 1));
            if !dir_set_contains(&self.stored_dirs, hits[i].0.as_slice()) {
                n = n + 1;
            }
            i = i + 1;
        }
        assert(hv.skip(hits@.len() as int) =~= Seq::<(Seq<u8>, u64)>::empty());
        n
    }

    /// The directory to see to before `header` is written, as
    /// `dir_to_enter` says.
    fn dir_to_enter_for(&self, header: &EntryHeader) -> (r: Option<Vec<u8>>)
        ensures
            r.is_none() == dir_to_enter(self.config, self@, *header).is_none(),
            r.is_some() ==> r.unwrap()@ == dir_to_enter(self.config, self@, *header).unwrap(),
    {
        if self.config.recreate_dirs {
            match parent_dir_of(header.path.as_slice()) {
                Some(d) => {
                    if bytes_eq(d.as_slice(), self.prev_dir.as_slice()) {
                        None
                    } else {
                        Some(d)
                    }
                },
                None => None,
            }
        } else {
            None
        }
    }

    /// Take the next input entry: decide whether it opens a new volume,
    /// which directories to write again before it, and account for it.
    /// An entry that cannot fit into a volume of its own is refused when
    /// the configuration asks so; nothing is then changed.
    pub fn next_file(&mut self, header: &EntryHeader) -> (r: Result<Step, SplitError>)
        requires
            old(self).wf(),
            old(self)@.count < u64::MAX,
        ensures
            final(self).wf(),
            final(self).spec_config() == old(self).spec_config(),
            too_large(old(self).spec_config(), *header) <==> r is Err,
            step(old(self).spec_config(), old(self)@, *header) is None <==> r is Err,
            match r {
                Err(SplitError::FileTooLarge(p)) => {
                    &&& p@ == header.path@
                    &&& final(self)@ == old(self)@
                },
                Ok(s) => {
                    &&& step(old(self).spec_config(), old(self)@, *header) == Some(final(self)@)
                    &&& s.rotate == must_rotate(old(self).spec_config(), old(self)@, *header)
                    &&& s.reinject@ == reinjected_for(old(self).spec_config(), old(self)@, *header).map_values(
                        |e: Emitted| e.ordinal,
                    )
                    &&& s.record_dir == records_dir(old(self).spec_config(), *header)
                },
            },
    {
        let ghost m0 = self@;
        let ghost cfg = self.config;
        let cost = sat_add(TAR_HEADER_SIZE, header.data_size);
        let max_size = self.config.max_size;
        if self.config.fail_on_large_file && cost > max_size {
            return Err(SplitError::FileTooLarge(header.path.clone()));
        }
        let mut target = self.dir_to_enter_for(header);
        let needed = match &target {
            Some(d) => self.count_copies(d.as_slice()),
            None => 0,
        };
        let total: u128 = self.acc_size as u128 + 512 * (needed as u128) + cost as u128;
        let rotate = self.volume_used && total > max_size as u128;
        proof {
            assert(needed == copies_needed(cfg, m0, *header).len());
            assert(rotate == must_rotate(cfg, m0, *header));
        }
        if rotate {
            self.start_new_volume();
            target = self.dir_to_enter_for(header);
        }
        let ghost m1 = self@;
        let mut reinject: Vec<u64> = Vec::new();
        match target {
            Some(d) => {
                reinject = self.inject_dirs_for_path(d.as_slice());
                self.prev_dir = d;
            },
            None => {},
        }
        let ghost m2 = self@;
        assert(m2 == before_write(cfg, m0, *header));
        proof {
            let added = m2.volumes.last().subrange(m1.volumes.last().len() as int, m2.volumes.last().len() as int);
            match dir_to_enter(cfg, m1, *header) {
                Some(d) => {
                    assert(added =~= fresh_dirs(common_prefixes_of(m1.index, d), m1.stored));
                },
                None => {
                    assert(added =~= Seq::<Emitted>::empty());
                },
            }
            assert(reinject@ =~= added.map_values(|e: Emitted| e.ordinal));
        }
        let ghost item = entry_item(m0.count, *header);
        self.volumes = Ghost(self.volumes@.update(self.volumes@.len() - 1, self.volumes@.last().push(item)));
        self.acc_size = sat_add(self.acc_size, cost);
        self.volume_used = true;
        let record_dir = self.config.recreate_dirs && header.is_dir();
        if record_dir {
            dir_map_insert(&mut self.dirs, header.path.as_slice(), self.count);
            dir_set_insert(&mut self.stored_dirs, header.path.as_slice());
        }
        self.count = self.count + 1;
        assert(m2.volumes.last() + seq![item] =~= m2.volumes.last().push(item));
        assert(append_last(m2.volumes, seq![item]) =~= self.volumes@);
        Ok(Step { rotate, reinject, record_dir })
    }
}

} // verus!
