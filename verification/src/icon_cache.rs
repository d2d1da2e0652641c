//! The cache of icons: what is held, what is being loaded, and what has to go
//! when more is held than the budget allows.
//!
//! An image is known here by a number.

use crate::text::same_text;
use vstd::multiset::Multiset;
use vstd::prelude::*;

verus! {

broadcast use vstd::seq_lib::group_to_multiset_ensures;

/// One icon at one size. An icon that no theme has is held without an image.
#[derive(Debug, PartialEq, Eq)]
pub struct CacheEntry {
    pub id: String,
    pub px: u32,
    pub image: Option<u64>,
    /// When it was last asked for.
    pub last_used: u64,
}

#[derive(Debug, PartialEq, Eq)]
pub struct IconCache {
    pub enabled: bool,
    pub budget_bytes: u128,
    pub used_bytes: u128,
    pub entries: Vec<CacheEntry>,
    /// The icons that are being loaded.
    pub pending: Vec<(String, u32)>,
    /// Counts what is asked for.
    pub tick: u64,
    /// The images that went and are still to be dropped.
    pub evicted: Vec<u64>,
}

/// What asking for an icon leads to.
#[derive(Clone, Copy, Debug, PartialEq, Eq, Structural)]
pub enum IconLookup {
    /// Icons are switched off.
    Disabled,
    /// The icon is held, or it is held that there is none.
    Held(Option<u64>),
    /// It is being loaded.
    Pending,
    /// The tables are not there yet.
    NotReady,
    /// It is to be loaded, at this size.
    Load(u32),
}

/// The largest size of an image whose bytes, four to a pixel, fit in 64 bits.
pub const MAX_PX: u32 = 2147483647;

pub open spec fn image_bytes(entry: CacheEntry) -> nat {
    if entry.image is Some {
        (entry.px as int * entry.px as int * 4) as nat
    } else {
        0
    }
}

/// The bytes of all images.
pub open spec fn total_bytes(entries: Seq<CacheEntry>) -> nat
    decreases entries.len(),
{
    if entries.len() == 0 {
        0
    } else {
        total_bytes(entries.drop_last()) + image_bytes(entries.last())
    }
}

pub open spec fn is_key(entry: CacheEntry, id: Seq<char>, px: u32) -> bool {
    entry.id@ == id && entry.px == px
}

/// The place of the first entry at or behind `from` with a key.
pub open spec fn entry_at(entries: Seq<CacheEntry>, id: Seq<char>, px: u32, from: int) -> Option<
    int,
>
    decreases entries.len() - from,
{
    if from < 0 || from >= entries.len() {
        None
    } else if is_key(entries[from], id, px) {
        Some(from)
    } else {
        entry_at(entries, id, px, from + 1)
    }
}

/// Whether an icon is being loaded.
pub open spec fn is_pending(pending: Seq<(String, u32)>, id: Seq<char>, px: u32) -> bool {
    exists|i: int| 0 <= i < pending.len() && pending_is(#[trigger] pending[i], id, px)
}

pub open spec fn pending_is(key: (String, u32), id: Seq<char>, px: u32) -> bool {
    key.0@ == id && key.1 == px
}

/// Whether an entry can go: it holds an image, and it is not the one that is
/// about to be drawn.
pub open spec fn can_go(entry: CacheEntry, id: Seq<char>, px: u32) -> bool {
    entry.image is Some && !is_key(entry, id, px)
}

/// Whether the entry at `v` is the one to go first: of those that can go, the
/// one that was asked for the longest ago.
pub open spec fn goes_first(entries: Seq<CacheEntry>, id: Seq<char>, px: u32, v: int) -> bool {
    &&& 0 <= v < entries.len()
    &&& can_go(entries[v], id, px)
    &&& forall|i: int|
        0 <= i < entries.len() && can_go(#[trigger] entries[i], id, px) ==> entries[v].last_used
            <= entries[i].last_used
}

/// Whether `left` is what is left of `entries`, and `gone` the images that
/// went in their order, after making room: while more is held than the budget
/// allows, the one to go first goes.
pub open spec fn made_room(
    entries: Seq<CacheEntry>,
    id: Seq<char>,
    px: u32,
    budget: nat,
    left: Seq<CacheEntry>,
    gone: Seq<u64>,
) -> bool
    decreases entries.len(),
{
    if total_bytes(entries) <= budget || !exists|v: int| goes_first(entries, id, px, v) {
        left == entries && gone.len() == 0
    } else {
        exists|v: int|
            {
                &&& #[trigger] goes_first(entries, id, px, v)
                &&& gone.len() > 0
                &&& Some(gone[0]) == entries[v].image
                &&& made_room(entries.remove(v), id, px, budget, left, gone.skip(1))
            }
    }
}

/// Whether no two entries have the same key.
pub open spec fn distinct_keys(entries: Seq<CacheEntry>) -> bool {
    forall|i: int, j: int|
        0 <= i < j < entries.len() ==> !((#[trigger] entries[i]).id@ == (#[trigger] entries[j]).id@
            && entries[i].px == entries[j].px)
}

/// Whether no two entries were last asked for at the same time, and none
/// after `tick`.
pub open spec fn distinct_uses(entries: Seq<CacheEntry>, tick: u64) -> bool {
    &&& forall|i: int| 0 <= i < entries.len() ==> (#[trigger] entries[i]).last_used <= tick
    &&& forall|i: int, j: int|
        0 <= i < j < entries.len() ==> (#[trigger] entries[i]).last_used != (
        #[trigger] entries[j]).last_used
}

pub open spec fn size_fits(entry: CacheEntry) -> bool {
    entry.image is Some ==> entry.px <= MAX_PX
}

pub open spec fn sizes_fit(entries: Seq<CacheEntry>) -> bool {
    forall|i: int| 0 <= i < entries.len() ==> size_fits(#[trigger] entries[i])
}

proof fn lemma_total_of_remove(entries: Seq<CacheEntry>, at: int)
    requires
        0 <= at < entries.len(),
    ensures
        total_bytes(entries) == total_bytes(entries.remove(at)) + image_bytes(entries[at]),
    decreases entries.len(),
{
    let n = entries.len() - 1;
    if at < n {
        lemma_total_of_remove(entries.drop_last(), at);
        assert(entries.remove(at).drop_last() =~= entries.drop_last().remove(at));
        assert(entries.remove(at).last() == entries.last());
    } else {
        assert(entries.remove(at) =~= entries.drop_last());
    }
}

proof fn lemma_total_of_push(entries: Seq<CacheEntry>, entry: CacheEntry)
    ensures
        total_bytes(entries.push(entry)) == total_bytes(entries) + image_bytes(entry),
{
    assert(entries.push(entry).drop_last() =~= entries);
}

proof fn lemma_bytes_fit(entry: CacheEntry)
    requires
        size_fits(entry),
    ensures
        image_bytes(entry) <= 0xffff_ffff_ffff_ffff,
{
    if entry.image is Some {
        assert(entry.px as int * entry.px as int <= 2147483647 * 2147483647) by (nonlinear_arith)
            requires
                0 <= entry.px <= 2147483647,
        ;
    }
}

proof fn lemma_total_fits(entries: Seq<CacheEntry>)
    requires
        sizes_fit(entries),
    ensures
        total_bytes(entries) <= entries.len() * 0xffff_ffff_ffff_ffff,
    decreases entries.len(),
{
    if entries.len() > 0 {
        assert(size_fits(entries[entries.len() - 1]));
        lemma_bytes_fit(entries.last());
        lemma_total_fits(entries.drop_last());
        assert(entries.len() * 0xffff_ffff_ffff_ffff == (entries.len() - 1)
            * 0xffff_ffff_ffff_ffff + 0xffff_ffff_ffff_ffff) by (nonlinear_arith)
            requires
                entries.len() > 0,
        ;
    }
}

/// Making room leaves what the budget allows, or nothing else that can go.
pub proof fn lemma_room_was_made(
    entries: Seq<CacheEntry>,
    id: Seq<char>,
    px: u32,
    budget: nat,
    left: Seq<CacheEntry>,
    gone: Seq<u64>,
)
    requires
        made_room(entries, id, px, budget, left, gone),
    ensures
        total_bytes(left) <= budget || forall|i: int|
            0 <= i < left.len() ==> !can_go(#[trigger] left[i], id, px),
    decreases entries.len(),
{
    if total_bytes(entries) <= budget || !exists|v: int| goes_first(entries, id, px, v) {
        if total_bytes(entries) > budget {
            assert forall|i: int| 0 <= i < left.len() implies !can_go(#[trigger] left[i], id, px) by {
                if can_go(entries[i], id, px) {
                    let v = lemma_one_goes_first(entries, id, px, i);
                    assert(goes_first(entries, id, px, v));
                }
            }
        }
    } else {
        let v = choose|v: int|
            {
                &&& #[trigger] goes_first(entries, id, px, v)
                &&& gone.len() > 0
                &&& Some(gone[0]) == entries[v].image
                &&& made_room(entries.remove(v), id, px, budget, left, gone.skip(1))
            };
        lemma_room_was_made(entries.remove(v), id, px, budget, left, gone.skip(1));
    }
}

proof fn lemma_one_goes_first(entries: Seq<CacheEntry>, id: Seq<char>, px: u32, i: int) -> (v: int)
    requires
        0 <= i < entries.len(),
        can_go(entries[i], id, px),
    ensures
        goes_first(entries, id, px, v),
    decreases entries[i].last_used,
{
    if exists|j: int|
        0 <= j < entries.len() && can_go(#[trigger] entries[j], id, px) && entries[j].last_used
            < entries[i].last_used {
        let j = choose|j: int|
            0 <= j < entries.len() && can_go(#[trigger] entries[j], id, px) && entries[j].last_used
                < entries[i].last_used;
        lemma_one_goes_first(entries, id, px, j)
    } else {
        i
    }
}

/// Making room takes nothing that cannot go: every entry without an image,
/// and the one about to be drawn, is left.
pub proof fn lemma_room_spares(
    entries: Seq<CacheEntry>,
    id: Seq<char>,
    px: u32,
    budget: nat,
    left: Seq<CacheEntry>,
    gone: Seq<u64>,
    i: int,
)
    requires
        made_room(entries, id, px, budget, left, gone),
        0 <= i < entries.len(),
        !can_go(entries[i], id, px),
    ensures
        left.contains(entries[i]),
    decreases entries.len(),
{
    if total_bytes(entries) <= budget || !exists|v: int| goes_first(entries, id, px, v) {
        assert(left[i] == entries[i]);
    } else {
        let v = choose|v: int|
            {
                &&& #[trigger] goes_first(entries, id, px, v)
                &&& gone.len() > 0
                &&& Some(gone[0]) == entries[v].image
                &&& made_room(entries.remove(v), id, px, budget, left, gone.skip(1))
            };
        let rest = entries.remove(v);
        let k = if i < v {
            i
        } else {
            i - 1
        };
        assert(rest[k] == entries[i]);
        lemma_room_spares(rest, id, px, budget, left, gone.skip(1), k);
    }
}

/// Which entries go is settled: where no two were last asked for at the same
/// time, making room has one outcome.
pub proof fn lemma_room_is_settled(
    entries: Seq<CacheEntry>,
    tick: u64,
    id: Seq<char>,
    px: u32,
    budget: nat,
    left1: Seq<CacheEntry>,
    gone1: Seq<u64>,
    left2: Seq<CacheEntry>,
    gone2: Seq<u64>,
)
    requires
        distinct_uses(entries, tick),
        made_room(entries, id, px, budget, left1, gone1),
        made_room(entries, id, px, budget, left2, gone2),
    ensures
        left1 == left2,
        gone1 == gone2,
    decreases entries.len(),
{
    if total_bytes(entries) <= budget || !exists|v: int| goes_first(entries, id, px, v) {
        assert(gone1 =~= gone2);
    } else {
        let v1 = choose|v: int|
            {
                &&& #[trigger] goes_first(entries, id, px, v)
                &&& gone1.len() > 0
                &&& Some(gone1[0]) == entries[v].image
                &&& made_room(entries.remove(v), id, px, budget, left1, gone1.skip(1))
            };
        let v2 = choose|v: int|
            {
                &&& #[trigger] goes_first(entries, id, px, v)
                &&& gone2.len() > 0
                &&& Some(gone2[0]) == entries[v].image
                &&& made_room(entries.remove(v), id, px, budget, left2, gone2.skip(1))
            };
        assert(entries[v1].last_used == entries[v2].last_used);
        if v1 < v2 {
            assert(entries[v1].last_used != entries[v2].last_used);
        } else if v2 < v1 {
            assert(entries[v2].last_used != entries[v1].last_used);
        }
        lemma_remove_keeps(entries, tick, v1);
        lemma_room_is_settled(
            entries.remove(v1),
            tick,
            id,
            px,
            budget,
            left1,
            gone1.skip(1),
            left2,
            gone2.skip(1),
        );
        assert(gone1 =~= seq![gone1[0]] + gone1.skip(1));
        assert(gone2 =~= seq![gone2[0]] + gone2.skip(1));
    }
}

proof fn lemma_remove_keeps(entries: Seq<CacheEntry>, tick: u64, at: int)
    requires
        0 <= at < entries.len(),
        distinct_uses(entries, tick),
    ensures
        distinct_uses(entries.remove(at), tick),
{
    let rest = entries.remove(at);
    assert forall|i: int| 0 <= i < rest.len() implies #[trigger] rest[i] == entries[if i < at {
        i
    } else {
        i + 1
    }] by {}
}

impl IconCache {
    /// No icon is held twice at one size, no two were last asked for at the
    /// same time, and the bytes are those of the images.
    pub open spec fn wf(self) -> bool {
        &&& distinct_keys(self.entries@)
        &&& distinct_uses(self.entries@, self.tick)
        &&& sizes_fit(self.entries@)
        &&& self.used_bytes == total_bytes(self.entries@)
    }

    pub fn new(enabled: bool, budget_bytes: u128) -> (cache: Self)
        ensures
            cache.wf(),
            cache.enabled == enabled,
            cache.budget_bytes == budget_bytes,
            cache.entries@.len() == 0,
            cache.pending@.len() == 0,
            cache.evicted@.len() == 0,
            cache.tick == 0,
    {
        IconCache {
            enabled,
            budget_bytes,
            used_bytes: 0,
            entries: Vec::new(),
            pending: Vec::new(),
            tick: 0,
            evicted: Vec::new(),
        }
    }

    fn find(&self, id: &str, px: u32) -> (at: Option<usize>)
        ensures
            match at {
                Some(i) => entry_at(self.entries@, id@, px, 0) == Some(i as int) && i
                    < self.entries@.len() && is_key(self.entries@[i as int], id@, px),
                None => entry_at(self.entries@, id@, px, 0) is None && forall|j: int|
                    0 <= j < self.entries@.len() ==> !is_key(
                        #[trigger] self.entries@[j],
                        id@,
                        px,
                    ),
            },
    {
        let mut i: usize = 0;
        while i < self.entries.len()
            invariant
                i <= self.entries@.len(),
                entry_at(self.entries@, id@, px, 0) == entry_at(self.entries@, id@, px, i as int),
                forall|j: int| 0 <= j < i ==> !is_key(#[trigger] self.entries@[j], id@, px),
            decreases self.entries@.len() - i,
        {
            if self.entries[i].px == px && same_text(self.entries[i].id.as_str(), id) {
                return Some(i);
            }
            i = i + 1;
        }
        None
    }

    fn pending_at(&self, id: &str, px: u32) -> (at: Option<usize>)
        ensures
            match at {
                Some(i) => i < self.pending@.len() && pending_is(
                    self.pending@[i as int],
                    id@,
                    px,
                ) && is_pending(self.pending@, id@, px),
                None => !is_pending(self.pending@, id@, px),
            },
    {
        let mut i: usize = 0;
        while i < self.pending.len()
            invariant
                i <= self.pending@.len(),
                forall|j: int| 0 <= j < i ==> !pending_is(#[trigger] self.pending@[j], id@, px),
            decreases self.pending@.len() - i,
        {
            if self.pending[i].1 == px && same_text(self.pending[i].0.as_str(), id) {
                return Some(i);
            }
            i = i + 1;
        }
        None
    }

    fn use_entry(&mut self, at: usize)
        requires
            old(self).wf(),
            at < old(self).entries@.len(),
            old(self).tick < u64::MAX,
        ensures
            final(self).wf(),
            final(self).tick == old(self).tick + 1,
            final(self).entries@ == old(self).entries@.update(
                at as int,
                CacheEntry {
                    last_used: (old(self).tick + 1) as u64,
                    ..old(self).entries@[at as int]
                },
            ),
            final(self).enabled == old(self).enabled,
            final(self).budget_bytes == old(self).budget_bytes,
            final(self).used_bytes == old(self).used_bytes,
            final(self).pending == old(self).pending,
            final(self).evicted == old(self).evicted,
    {
        let ghost before = self.entries@;
        let tick: u64 = self.tick + 1;
        self.tick = tick;
        let mut entry = self.entries.remove(at);
        entry.last_used = tick;
        let ghost rest = self.entries@;
        self.entries.insert(at, entry);
        proof {
            let after = self.entries@;
            assert(after =~= before.update(at as int, entry));
            lemma_total_of_remove(before, at as int);
            lemma_total_of_remove(after, at as int);
            assert(after.remove(at as int) =~= rest);
            assert forall|i: int, j: int| 0 <= i < j < after.len() implies !((
            #[trigger] after[i]).id@ == (#[trigger] after[j]).id@ && after[i].px == after[j].px) by {
                assert(!(before[i].id@ == before[j].id@ && before[i].px == before[j].px));
            }
            assert forall|i: int| 0 <= i < after.len() implies (#[trigger] after[i]).last_used
                <= tick && size_fits(after[i]) by {
                assert(size_fits(before[i]) && before[i].last_used < tick);
            }
            assert forall|i: int, j: int| 0 <= i < j < after.len() implies (
            #[trigger] after[i]).last_used != (#[trigger] after[j]).last_used by {
                assert(before[i].last_used != before[j].last_used);
                assert(before[i].last_used < tick && before[j].last_used < tick);
            }
        }
    }

    /// Asks for an icon at `logical_px` times `scale` pixels. One that is not
    /// held is to be loaded, once, and as soon as the tables are there.
    pub fn get_or_load(&mut self, id: &str, logical_px: u32, scale: u32, tables_ready: bool) -> (
        lookup: IconLookup)
        requires
            old(self).wf(),
            logical_px as int * scale as int <= u32::MAX,
            old(self).tick < u64::MAX,
        ensures
            final(self).wf(),
            final(self).enabled == old(self).enabled,
            final(self).budget_bytes == old(self).budget_bytes,
            final(self).used_bytes == old(self).used_bytes,
            final(self).evicted == old(self).evicted,
            ({
                let px = (logical_px as int * scale as int) as u32;
                let held = entry_at(old(self).entries@, id@, px, 0);
                if !old(self).enabled {
                    lookup == IconLookup::Disabled && *final(self) == *old(self)
                } else {
                    &&& final(self).tick == old(self).tick + 1
                    &&& if held is Some {
                        &&& lookup == IconLookup::Held(old(self).entries@[held->0].image)
                        &&& final(self).entries@ == old(self).entries@.update(
                            held->0,
                            CacheEntry {
                                last_used: final(self).tick,
                                ..old(self).entries@[held->0]
                            },
                        )
                        &&& final(self).pending == old(self).pending
                    } else {
                        &&& final(self).entries == old(self).entries
                        &&& if is_pending(old(self).pending@, id@, px) {
                            lookup == IconLookup::Pending && final(self).pending == old(self).pending
                        } else if !tables_ready {
                            lookup == IconLookup::NotReady && final(self).pending == old(self).pending
                        } else {
                            &&& lookup == IconLookup::Load(px)
                            &&& final(self).pending@.len() == old(self).pending@.len() + 1
                            &&& final(self).pending@.drop_last() == old(self).pending@
                            &&& pending_is(final(self).pending@.last(), id@, px)
                        }
                    }
                }
            }),
    {
        if !self.enabled {
            return IconLookup::Disabled;
        }
        let px: u32 = logical_px * scale;
        if let Some(at) = self.find(id, px) {
            let image = self.entries[at].image;
            self.use_entry(at);
            return IconLookup::Held(image);
        }
        self.tick = self.tick + 1;
        proof {
            assert(distinct_uses(self.entries@, self.tick)) by {
                assert forall|i: int| 0 <= i < self.entries@.len() implies (
                #[trigger] self.entries@[i]).last_used <= self.tick by {
                    assert(old(self).entries@[i].last_used <= old(self).tick);
                }
            }
        }
        if self.pending_at(id, px).is_some() {
            return IconLookup::Pending;
        }
        if !tables_ready {
            return IconLookup::NotReady;
        }
        let ghost before = self.pending@;
        self.pending.push((id.to_owned(), px));
        assert(self.pending@.drop_last() =~= before);
        IconLookup::Load(px)
    }

    fn victim(&self, id: &str, px: u32) -> (v: Option<usize>)
        ensures
            match v {
                Some(i) => goes_first(self.entries@, id@, px, i as int),
                None => forall|j: int|
                    0 <= j < self.entries@.len() ==> !can_go(
                        #[trigger] self.entries@[j],
                        id@,
                        px,
                    ),
            },
    {
        let mut best: Option<usize> = None;
        let mut i: usize = 0;
        while i < self.entries.len()
            invariant
                i <= self.entries@.len(),
                match best {
                    Some(b) => b < i && can_go(self.entries@[b as int], id@, px) && forall|j: int|
                        0 <= j < i && can_go(#[trigger] self.entries@[j], id@, px)
                            ==> self.entries@[b as int].last_used <= self.entries@[j].last_used,
                    None => forall|j: int|
                        0 <= j < i ==> !can_go(#[trigger] self.entries@[j], id@, px),
                },
            decreases self.entries@.len() - i,
        {
            let entry = &self.entries[i];
            let candidate = entry.image.is_some() && !(entry.px == px && same_text(
                entry.id.as_str(),
                id,
            ));
            if candidate {
                let earlier = match best {
                    Some(b) => entry.last_used < self.entries[b].last_used,
                    None => true,
                };
                if earlier {
                    best = Some(i);
                }
            }
            i = i + 1;
        }
        best
    }

    /// Makes room for what is about to be drawn.
    fn make_room(&mut self, id: &str, px: u32)
        requires
            old(self).wf(),
        ensures
            final(self).wf(),
            exists|gone: Seq<u64>|
                {
                    &&& #[trigger] made_room(
                        old(self).entries@,
                        id@,
                        px,
                        old(self).budget_bytes as nat,
                        final(self).entries@,
                        gone,
                    )
                    &&& final(self).evicted@ == old(self).evicted@ + gone
                },
            final(self).enabled == old(self).enabled,
            final(self).budget_bytes == old(self).budget_bytes,
            final(self).pending == old(self).pending,
            final(self).tick == old(self).tick,
        decreases old(self).entries@.len(),
    {
        let ghost before = self.entries@;
        let ghost evicted_before = self.evicted@;
        let ghost budget = self.budget_bytes as nat;
        if self.used_bytes <= self.budget_bytes {
            assert(made_room(before, id@, px, budget, before, Seq::<u64>::empty()));
            assert(self.evicted@ =~= evicted_before + Seq::<u64>::empty());
            return;
        }
        match self.victim(id, px) {
            None => {
                assert(!exists|v: int| goes_first(before, id@, px, v));
                assert(made_room(before, id@, px, budget, before, Seq::<u64>::empty()));
                assert(self.evicted@ =~= evicted_before + Seq::<u64>::empty());
            },
            Some(v) => {
                assert(size_fits(before[v as int]));
                proof {
                    lemma_total_of_remove(before, v as int);
                    lemma_bytes_fit(before[v as int]);
                    lemma_remove_keeps(before, self.tick, v as int);
                }
                let entry = self.entries.remove(v);
                let bytes: u128 = entry.px as u128 * entry.px as u128 * 4;
                self.used_bytes = self.used_bytes - bytes;
                proof {
                    let rest = self.entries@;
                    assert forall|i: int| 0 <= i < rest.len() implies #[trigger] rest[i]
                        == before[if i < v {
                        i
                    } else {
                        i + 1
                    }] by {}
                    assert(distinct_keys(rest));
                    assert(sizes_fit(rest));
                }
                let ghost rest = self.entries@;
                if let Some(image) = entry.image {
                    self.evicted.push(image);
                    self.make_room(id, px);
                    proof {
                        let gone = choose|gone: Seq<u64>|
                            {
                                &&& #[trigger] made_room(
                                    rest,
                                    id@,
                                    px,
                                    budget,
                                    self.entries@,
                                    gone,
                                )
                                &&& self.evicted@ == evicted_before.push(image) + gone
                            };
                        let all = seq![image] + gone;
                        assert(all.skip(1) =~= gone);
                        assert(goes_first(before, id@, px, v as int));
                        assert(made_room(before, id@, px, budget, self.entries@, all));
                        assert(self.evicted@ =~= evicted_before + all);
                    }
                }
            },
        }
    }

    /// Loading an icon ended, with an image or without. It is held, and room
    /// is made. What was held for it before goes.
    pub fn insert(&mut self, id: &str, px: u32, image: Option<u64>)
        requires
            old(self).wf(),
            image is Some ==> px <= MAX_PX,
            old(self).tick < u64::MAX,
            old(self).entries@.len() < usize::MAX,
        ensures
            final(self).wf(),
            final(self).tick == old(self).tick + 1,
            final(self).enabled == old(self).enabled,
            final(self).budget_bytes == old(self).budget_bytes,
            !is_pending(final(self).pending@, id@, px),
            forall|other: Seq<char>, size: u32|
                !(other == id@ && size == px) ==> #[trigger] is_pending(
                    final(self).pending@,
                    other,
                    size,
                ) == is_pending(old(self).pending@, other, size),
            image_inserted(*old(self), *final(self), id@, px, image),
    {
        self.settle_pending(id, px);
        let ghost before = self.entries@;
        let ghost evicted_before = self.evicted@;
        let tick: u64 = self.tick + 1;
        self.tick = tick;
        if let Some(at) = self.find(id, px) {
            assert(size_fits(before[at as int]));
            proof {
                lemma_total_of_remove(before, at as int);
                lemma_bytes_fit(before[at as int]);
            }
            let held = self.entries.remove(at);
            if let Some(old_image) = held.image {
                let bytes: u128 = held.px as u128 * held.px as u128 * 4;
                self.used_bytes = self.used_bytes - bytes;
                self.evicted.push(old_image);
            }
        }
        let ghost rest = self.entries@;
        proof {
            assert(rest == without_key(before, id@, px));
            assert(self.evicted@ =~= evicted_before + replaced_image(before, id@, px));
            lemma_without_key(before, old(self).tick, id@, px);
            lemma_total_fits(rest);
            lemma_total_fits(before);
        }
        let entry = CacheEntry { id: id.to_owned(), px, image, last_used: tick };
        proof {
            lemma_total_of_push(rest, entry);
            lemma_bytes_fit(entry);
            assert(rest.len() * 0xffff_ffff_ffff_ffff <= 0xffff_ffff_ffff_ffff
                * 0xffff_ffff_ffff_ffff) by (nonlinear_arith)
                requires
                    rest.len() <= 0xffff_ffff_ffff_ffff,
            ;
        }
        if image.is_some() {
            let bytes: u128 = px as u128 * px as u128 * 4;
            self.used_bytes = self.used_bytes + bytes;
        }
        let ghost new_entry = entry;
        self.entries.push(entry);
        proof {
            let after = self.entries@;
            assert forall|i: int, j: int| 0 <= i < j < after.len() implies !((
            #[trigger] after[i]).id@ == (#[trigger] after[j]).id@ && after[i].px == after[j].px) by {
                if j < rest.len() {
                    assert(!(rest[i].id@ == rest[j].id@ && rest[i].px == rest[j].px));
                } else {
                    assert(!is_key(rest[i], id@, px));
                }
            }
            assert forall|i: int| 0 <= i < after.len() implies (#[trigger] after[i]).last_used
                <= tick && size_fits(after[i]) by {
                if i < rest.len() {
                    assert(rest[i].last_used < tick && size_fits(rest[i]));
                }
            }
            assert forall|i: int, j: int| 0 <= i < j < after.len() implies (
            #[trigger] after[i]).last_used != (#[trigger] after[j]).last_used by {
                if j < rest.len() {
                    assert(rest[i].last_used != rest[j].last_used);
                } else {
                    assert(rest[i].last_used < tick);
                }
            }
        }
        let ghost filled = self.entries@;
        let ghost evicted_now = self.evicted@;
        let ghost pending_now = self.pending@;
        self.make_room(id, px);
        proof {
            let gone = choose|gone: Seq<u64>|
                {
                    &&& #[trigger] made_room(
                        filled,
                        id@,
                        px,
                        self.budget_bytes as nat,
                        self.entries@,
                        gone,
                    )
                    &&& self.evicted@ == evicted_now + gone
                };
            assert(filled == without_key(old(self).entries@, id@, px).push(new_entry));
            assert(made_room(
                without_key(old(self).entries@, id@, px).push(new_entry),
                id@,
                px,
                old(self).budget_bytes as nat,
                self.entries@,
                gone,
            ));
        }
    }

    fn settle_pending(&mut self, id: &str, px: u32)
        ensures
            !is_pending(final(self).pending@, id@, px),
            forall|other: Seq<char>, size: u32|
                !(other == id@ && size == px) ==> #[trigger] is_pending(
                    final(self).pending@,
                    other,
                    size,
                ) == is_pending(old(self).pending@, other, size),
            *final(self) == (IconCache { pending: final(self).pending, ..*old(self) }),
        decreases old(self).pending@.len(),
    {
        if let Some(at) = self.pending_at(id, px) {
            let ghost before = self.pending@;
            self.pending.remove(at);
            proof {
                let rest = self.pending@;
                assert forall|other: Seq<char>, size: u32|
                    !(other == id@ && size == px) implies #[trigger] is_pending(rest, other, size)
                    == is_pending(before, other, size) by {
                    if is_pending(rest, other, size) {
                        let k = choose|k: int|
                            0 <= k < rest.len() && pending_is(#[trigger] rest[k], other, size);
                        let o = if k < at {
                            k
                        } else {
                            k + 1
                        };
                        assert(pending_is(before[o], other, size));
                    }
                    if is_pending(before, other, size) {
                        let k = choose|k: int|
                            0 <= k < before.len() && pending_is(#[trigger] before[k], other, size);
                        let o = if k < at {
                            k
                        } else {
                            k - 1
                        };
                        assert(pending_is(rest[o], other, size));
                    }
                }
            }
            let ghost rest = *self;
            self.settle_pending(id, px);
            proof {
                assert forall|other: Seq<char>, size: u32|
                    !(other == id@ && size == px) implies #[trigger] is_pending(
                    self.pending@,
                    other,
                    size,
                ) == is_pending(before, other, size) by {
                    assert(is_pending(rest.pending@, other, size) == is_pending(
                        before,
                        other,
                        size,
                    ));
                }
            }
        }
    }

    /// The images that went since this was last asked.
    pub fn take_evicted(&mut self) -> (images: Vec<u64>)
        ensures
            images@ == old(self).evicted@,
            final(self).evicted@.len() == 0,
            *final(self) == (IconCache { evicted: final(self).evicted, ..*old(self) }),
            old(self).wf() ==> final(self).wf(),
    {
        let images = self.evicted.clone();
        assert(images@ =~= self.evicted@);
        self.evicted = Vec::new();
        images
    }

    /// Whether icons are shown, and their tables are to be kept.
    pub fn tables(&self) -> (wanted: bool)
        ensures
            wanted == self.enabled,
    {
        self.enabled
    }
}

/// The entries without the one that has a key.
pub open spec fn without_key(entries: Seq<CacheEntry>, id: Seq<char>, px: u32) -> Seq<CacheEntry> {
    match entry_at(entries, id, px, 0) {
        Some(at) => entries.remove(at),
        None => entries,
    }
}

/// The image that was held under a key, if there was one.
pub open spec fn replaced_image(entries: Seq<CacheEntry>, id: Seq<char>, px: u32) -> Seq<u64> {
    match entry_at(entries, id, px, 0) {
        Some(at) => match entries[at].image {
            Some(image) => seq![image],
            None => Seq::empty(),
        },
        None => Seq::empty(),
    }
}

proof fn lemma_entry_at(entries: Seq<CacheEntry>, id: Seq<char>, px: u32, from: int)
    requires
        0 <= from,
    ensures
        match entry_at(entries, id, px, from) {
            Some(at) => from <= at < entries.len() && is_key(entries[at], id, px),
            None => forall|i: int|
                from <= i < entries.len() ==> !is_key(#[trigger] entries[i], id, px),
        },
    decreases entries.len() - from,
{
    if from < entries.len() && !is_key(entries[from], id, px) {
        lemma_entry_at(entries, id, px, from + 1);
    }
}

proof fn lemma_without_key(entries: Seq<CacheEntry>, tick: u64, id: Seq<char>, px: u32)
    requires
        distinct_keys(entries),
        distinct_uses(entries, tick),
        sizes_fit(entries),
    ensures
        ({
            let rest = without_key(entries, id, px);
            &&& distinct_keys(rest)
            &&& distinct_uses(rest, tick)
            &&& sizes_fit(rest)
            &&& rest.len() <= entries.len()
            &&& forall|i: int| 0 <= i < rest.len() ==> !is_key(#[trigger] rest[i], id, px)
        }),
{
    lemma_entry_at(entries, id, px, 0);
    if let Some(at) = entry_at(entries, id, px, 0) {
        let rest = entries.remove(at);
        assert forall|i: int| 0 <= i < rest.len() implies #[trigger] rest[i] == entries[if i < at {
            i
        } else {
            i + 1
        }] by {}
        assert forall|i: int| 0 <= i < rest.len() implies !is_key(#[trigger] rest[i], id, px) by {
            if i < at {
                assert(!(entries[i].id@ == entries[at].id@ && entries[i].px == entries[at].px));
            } else {
                assert(!(entries[at].id@ == entries[i + 1].id@ && entries[at].px == entries[i
                    + 1].px));
            }
        }
    }
}

/// Whether holding an icon leads from `before` to `after`: what was held for it
/// goes, it is held, and room is made. What went is to be dropped.
pub open spec fn image_inserted(
    before: IconCache,
    after: IconCache,
    id: Seq<char>,
    px: u32,
    image: Option<u64>,
) -> bool {
    exists|entry: CacheEntry, gone: Seq<u64>|
        {
            &&& is_key(entry, id, px)
            &&& entry.image == image
            &&& entry.last_used == after.tick
            &&& #[trigger] made_room(
                without_key(before.entries@, id, px).push(entry),
                id,
                px,
                before.budget_bytes as nat,
                after.entries@,
                gone,
            )
            &&& after.evicted@ == before.evicted@ + replaced_image(before.entries@, id, px) + gone
        }
}

/// An image, if there is one.
pub open spec fn images_in(image: Option<u64>) -> Multiset<u64> {
    match image {
        Some(image) => Multiset::empty().insert(image),
        None => Multiset::empty(),
    }
}

/// The images of some entries, each as often as it is held.
pub open spec fn images_of(entries: Seq<CacheEntry>) -> Multiset<u64>
    decreases entries.len(),
{
    if entries.len() == 0 {
        Multiset::empty()
    } else {
        images_of(entries.drop_last()).add(images_in(entries.last().image))
    }
}

proof fn lemma_images_of_remove(entries: Seq<CacheEntry>, at: int)
    requires
        0 <= at < entries.len(),
    ensures
        images_of(entries) == images_of(entries.remove(at)).add(images_in(entries[at].image)),
    decreases entries.len(),
{
    let n = entries.len() - 1;
    if at < n {
        lemma_images_of_remove(entries.drop_last(), at);
        assert(entries.remove(at).drop_last() =~= entries.drop_last().remove(at));
        assert(entries.remove(at).last() == entries.last());
        assert(images_of(entries) =~= images_of(entries.remove(at)).add(
            images_in(entries[at].image),
        ));
    } else {
        assert(entries.remove(at) =~= entries.drop_last());
    }
}

/// Making room reports every image that goes, once.
pub proof fn lemma_room_reports_once(
    entries: Seq<CacheEntry>,
    id: Seq<char>,
    px: u32,
    budget: nat,
    left: Seq<CacheEntry>,
    gone: Seq<u64>,
)
    requires
        made_room(entries, id, px, budget, left, gone),
    ensures
        images_of(entries) == images_of(left).add(gone.to_multiset()),
    decreases entries.len(),
{
    if total_bytes(entries) <= budget || !exists|v: int| goes_first(entries, id, px, v) {
        assert(gone =~= Seq::<u64>::empty());
        assert(images_of(entries) =~= images_of(left).add(gone.to_multiset()));
    } else {
        let v = choose|v: int|
            {
                &&& #[trigger] goes_first(entries, id, px, v)
                &&& gone.len() > 0
                &&& Some(gone[0]) == entries[v].image
                &&& made_room(entries.remove(v), id, px, budget, left, gone.skip(1))
            };
        lemma_room_reports_once(entries.remove(v), id, px, budget, left, gone.skip(1));
        lemma_images_of_remove(entries, v);
        assert(gone.remove(0) =~= gone.skip(1));
        assert(gone.contains(gone[0]));
        assert(gone.to_multiset() =~= gone.skip(1).to_multiset().insert(gone[0]));
        assert(images_of(entries) =~= images_of(left).add(gone.to_multiset()));
    }
}

proof fn lemma_left_was_there(
    entries: Seq<CacheEntry>,
    id: Seq<char>,
    px: u32,
    budget: nat,
    left: Seq<CacheEntry>,
    gone: Seq<u64>,
    k: int,
)
    requires
        made_room(entries, id, px, budget, left, gone),
        0 <= k < left.len(),
    ensures
        entries.contains(left[k]),
    decreases entries.len(),
{
    if total_bytes(entries) <= budget || !exists|v: int| goes_first(entries, id, px, v) {
        assert(entries[k] == left[k]);
    } else {
        let v = choose|v: int|
            {
                &&& #[trigger] goes_first(entries, id, px, v)
                &&& gone.len() > 0
                &&& Some(gone[0]) == entries[v].image
                &&& made_room(entries.remove(v), id, px, budget, left, gone.skip(1))
            };
        let rest = entries.remove(v);
        lemma_left_was_there(rest, id, px, budget, left, gone.skip(1), k);
        let i = choose|i: int| 0 <= i < rest.len() && rest[i] == left[k];
        assert(entries[if i < v {
            i
        } else {
            i + 1
        }] == left[k]);
    }
}

/// What goes was asked for no later than anything that could have gone and was
/// left.
pub proof fn lemma_room_takes_the_oldest(
    entries: Seq<CacheEntry>,
    id: Seq<char>,
    px: u32,
    budget: nat,
    left: Seq<CacheEntry>,
    gone: Seq<u64>,
    i: int,
    k: int,
)
    requires
        made_room(entries, id, px, budget, left, gone),
        0 <= i < entries.len(),
        !left.contains(entries[i]),
        0 <= k < left.len(),
        can_go(left[k], id, px),
    ensures
        entries[i].last_used <= left[k].last_used,
    decreases entries.len(),
{
    if total_bytes(entries) <= budget || !exists|v: int| goes_first(entries, id, px, v) {
        assert(left[i] == entries[i]);
    } else {
        let v = choose|v: int|
            {
                &&& #[trigger] goes_first(entries, id, px, v)
                &&& gone.len() > 0
                &&& Some(gone[0]) == entries[v].image
                &&& made_room(entries.remove(v), id, px, budget, left, gone.skip(1))
            };
        let rest = entries.remove(v);
        if i == v {
            lemma_left_was_there(entries, id, px, budget, left, gone, k);
            let o = choose|o: int| 0 <= o < entries.len() && entries[o] == left[k];
            assert(can_go(entries[o], id, px));
        } else {
            let j = if i < v {
                i
            } else {
                i - 1
            };
            assert(rest[j] == entries[i]);
            lemma_room_takes_the_oldest(rest, id, px, budget, left, gone.skip(1), j, k);
        }
    }
}

/// Whether an entry was held for another icon and is not held any more.
pub open spec fn was_dropped(
    before: IconCache,
    after: IconCache,
    id: Seq<char>,
    px: u32,
    entry: CacheEntry,
) -> bool {
    before.entries@.contains(entry) && !is_key(entry, id, px) && !after.entries@.contains(entry)
}

/// What holding an icon promises. The icon is held with its image. The budget
/// is kept, or no other image is held. What is known not to exist stays known.
/// Every image that was dropped for the budget was asked for no later than every
/// other image that is held. Every image that was dropped or replaced is
/// reported once, behind those reported before.
pub proof fn lemma_insert_keeps_the_budget(
    before: IconCache,
    after: IconCache,
    id: Seq<char>,
    px: u32,
    image: Option<u64>,
)
    requires
        before.wf(),
        after.wf(),
        image_inserted(before, after, id, px, image),
    ensures
        exists|i: int|
            0 <= i < after.entries@.len() && is_key(#[trigger] after.entries@[i], id, px)
                && after.entries@[i].image == image,
        after.used_bytes == total_bytes(after.entries@),
        after.used_bytes <= before.budget_bytes || forall|i: int|
            0 <= i < after.entries@.len() && (#[trigger] after.entries@[i]).image is Some
                ==> is_key(after.entries@[i], id, px),
        forall|entry: CacheEntry| #[trigger]
            was_dropped(before, after, id, px, entry) ==> entry.image is Some,
        forall|entry: CacheEntry, k: int|
            was_dropped(before, after, id, px, entry) && 0 <= k < after.entries@.len()
                && after.entries@[k].image is Some && !is_key(after.entries@[k], id, px)
                ==> #[trigger] entry.last_used <= (#[trigger] after.entries@[k]).last_used,
        before.evicted@.is_prefix_of(after.evicted@),
        images_of(before.entries@).add(images_in(image)) == images_of(after.entries@).add(
            after.evicted@.skip(before.evicted@.len() as int).to_multiset(),
        ),
{
    let (entry, gone) = choose|entry: CacheEntry, gone: Seq<u64>|
        {
            &&& is_key(entry, id, px)
            &&& entry.image == image
            &&& entry.last_used == after.tick
            &&& #[trigger] made_room(
                without_key(before.entries@, id, px).push(entry),
                id,
                px,
                before.budget_bytes as nat,
                after.entries@,
                gone,
            )
            &&& after.evicted@ == before.evicted@ + replaced_image(before.entries@, id, px) + gone
        };
    let rest = without_key(before.entries@, id, px);
    let all = rest.push(entry);
    let budget = before.budget_bytes as nat;
    let left = after.entries@;
    lemma_entry_at(before.entries@, id, px, 0);
    lemma_room_was_made(all, id, px, budget, left, gone);
    lemma_room_spares(all, id, px, budget, left, gone, rest.len() as int);
    let at = choose|i: int| 0 <= i < left.len() && left[i] == entry;
    assert(is_key(left[at], id, px));
    assert forall|old_entry: CacheEntry| #[trigger]
        was_dropped(before, after, id, px, old_entry) implies old_entry.image is Some && all.contains(
        old_entry,
    ) by {
        let i = lemma_dropped_was_among(before.entries@, id, px, old_entry);
        assert(all[i] == old_entry);
        if old_entry.image is None {
            lemma_room_spares(all, id, px, budget, left, gone, i);
        }
    }
    assert forall|old_entry: CacheEntry, k: int|
        was_dropped(before, after, id, px, old_entry) && 0 <= k < left.len()
            && left[k].image is Some && !is_key(left[k], id, px) implies #[trigger]
    old_entry.last_used <= (#[trigger] left[k]).last_used by {
        let i = lemma_dropped_was_among(before.entries@, id, px, old_entry);
        assert(all[i] == old_entry);
        lemma_room_takes_the_oldest(all, id, px, budget, left, gone, i, k);
    }
    let replaced = replaced_image(before.entries@, id, px);
    assert(after.evicted@.skip(before.evicted@.len() as int) =~= replaced + gone);
    lemma_room_reports_once(all, id, px, budget, left, gone);
    assert(all.drop_last() =~= rest);
    vstd::seq_lib::lemma_multiset_commutative(replaced, gone);
    if let Some(old_at) = entry_at(before.entries@, id, px, 0) {
        lemma_images_of_remove(before.entries@, old_at);
        if let Some(old_image) = before.entries@[old_at].image {
            assert(replaced =~= Seq::<u64>::empty().push(old_image));
        }
        assert(images_in(before.entries@[old_at].image) =~= replaced.to_multiset());
    }
    assert(images_of(before.entries@) =~= images_of(rest).add(replaced.to_multiset()));
    assert(images_of(all) == images_of(rest).add(images_in(image)));
    assert((replaced + gone).to_multiset() =~= replaced.to_multiset().add(gone.to_multiset()));
    assert(images_of(before.entries@).add(images_in(image)) =~= images_of(all).add(
        replaced.to_multiset(),
    ));
    assert(images_of(left).add((replaced + gone).to_multiset()) =~= images_of(left).add(
        gone.to_multiset(),
    ).add(replaced.to_multiset()));
}

proof fn lemma_dropped_was_among(
    entries: Seq<CacheEntry>,
    id: Seq<char>,
    px: u32,
    entry: CacheEntry,
) -> (i: int)
    requires
        entries.contains(entry),
        !is_key(entry, id, px),
    ensures
        0 <= i < without_key(entries, id, px).len(),
        without_key(entries, id, px)[i] == entry,
{
    lemma_entry_at(entries, id, px, 0);
    let k = choose|k: int| 0 <= k < entries.len() && entries[k] == entry;
    match entry_at(entries, id, px, 0) {
        Some(at) => if k < at {
            k
        } else {
            k - 1
        },
        None => k,
    }
}

/// What is held is counted by its pixels, four bytes to a pixel; what is known
/// not to exist takes nothing.
pub proof fn lemma_bytes_are_those_of_the_pixels(entries: Seq<CacheEntry>)
    ensures
        total_bytes(entries) == entries.fold_left(
            0int,
            |sum: int, entry: CacheEntry|
                if entry.image is Some {
                    sum + 4 * (entry.px as int * entry.px as int)
                } else {
                    sum
                },
        ),
    decreases entries.len(),
{
    reveal(Seq::fold_left);
    if entries.len() > 0 {
        lemma_bytes_are_those_of_the_pixels(entries.drop_last());
        let px = entries.last().px as int;
        assert(px * px >= 0) by (nonlinear_arith);
    }
}

/// An icon is looked up by its name and its size together; of a cache that fits,
/// one entry at most is of both.
pub proof fn lemma_held_under_its_own_key(cache: IconCache, id: Seq<char>, px: u32, i: int)
    requires
        cache.wf(),
        0 <= i < cache.entries@.len(),
    ensures
        cache.entries@[i].id@ == id && cache.entries@[i].px == px <==> entry_at(
            cache.entries@,
            id,
            px,
            0,
        ) == Some(i),
{
    let entries = cache.entries@;
    lemma_entry_at(entries, id, px, 0);
    if let Some(at) = entry_at(entries, id, px, 0) {
        if at < i {
            assert(!(entries[at].id@ == entries[i].id@ && entries[at].px == entries[i].px));
        } else if i < at {
            assert(!(entries[i].id@ == entries[at].id@ && entries[i].px == entries[at].px));
        }
    }
}

/// An icon is being loaded exactly where its name and its size were asked for
/// together.
pub proof fn lemma_pending_under_its_own_key(
    pending: Seq<(String, u32)>,
    id: Seq<char>,
    px: u32,
)
    ensures
        is_pending(pending, id, px) <==> exists|i: int|
            0 <= i < pending.len() && (#[trigger] pending[i]).0@ == id && pending[i].1 == px,
{
    if is_pending(pending, id, px) {
        let i = choose|i: int| 0 <= i < pending.len() && pending_is(#[trigger] pending[i], id, px);
        assert(pending[i].0@ == id && pending[i].1 == px);
    }
    if exists|i: int| 0 <= i < pending.len() && (#[trigger] pending[i]).0@ == id && pending[i].1
        == px {
        let i = choose|i: int|
            0 <= i < pending.len() && (#[trigger] pending[i]).0@ == id && pending[i].1 == px;
        assert(pending_is(pending[i], id, px));
    }
}

/// Nothing goes while the budget holds, and no more goes than has to: with the
/// last that went, more would be held than the budget allows.
pub proof fn lemma_no_more_goes_than_has_to(
    entries: Seq<CacheEntry>,
    id: Seq<char>,
    px: u32,
    budget: nat,
    left: Seq<CacheEntry>,
    gone: Seq<u64>,
)
    requires
        made_room(entries, id, px, budget, left, gone),
    ensures
        total_bytes(entries) <= budget ==> left == entries && gone.len() == 0,
        gone.len() > 0 ==> exists|i: int|
            {
                &&& 0 <= i < entries.len()
                &&& (#[trigger] entries[i]).image == Some(gone.last())
                &&& total_bytes(left) + 4 * (entries[i].px as int * entries[i].px as int) > budget
            },
    decreases entries.len(),
{
    if total_bytes(entries) <= budget || !exists|v: int| goes_first(entries, id, px, v) {
    } else {
        let v = choose|v: int|
            {
                &&& #[trigger] goes_first(entries, id, px, v)
                &&& gone.len() > 0
                &&& Some(gone[0]) == entries[v].image
                &&& made_room(entries.remove(v), id, px, budget, left, gone.skip(1))
            };
        let rest = entries.remove(v);
        lemma_no_more_goes_than_has_to(rest, id, px, budget, left, gone.skip(1));
        lemma_total_of_remove(entries, v);
        let side = entries[v].px as int;
        assert(side * side >= 0) by (nonlinear_arith);
        if gone.len() == 1 {
            assert(gone.skip(1).len() == 0);
            assert(left == rest) by {
                if !(total_bytes(rest) <= budget || !exists|w: int| goes_first(rest, id, px, w)) {
                    assert(gone.skip(1).len() > 0);
                }
            }
            assert(entries[v].image == Some(gone.last()));
        } else {
            assert(gone.skip(1).last() == gone.last());
            let i = choose|i: int|
                {
                    &&& 0 <= i < rest.len()
                    &&& (#[trigger] rest[i]).image == Some(gone.skip(1).last())
                    &&& total_bytes(left) + 4 * (rest[i].px as int * rest[i].px as int) > budget
                };
            assert(entries[if i < v {
                i
            } else {
                i + 1
            }] == rest[i]);
        }
    }
}

/// An icon that is held replaces what was held for it, is the one that was asked
/// for last, and never goes to make room for itself.
pub proof fn lemma_inserted_icon_is_held(
    before: IconCache,
    after: IconCache,
    id: Seq<char>,
    px: u32,
    image: Option<u64>,
)
    requires
        before.wf(),
        after.wf(),
        image_inserted(before, after, id, px, image),
    ensures
        exists|i: int|
            {
                &&& 0 <= i < after.entries@.len()
                &&& (#[trigger] after.entries@[i]).id@ == id
                &&& after.entries@[i].px == px
                &&& after.entries@[i].image == image
                &&& after.entries@[i].last_used == after.tick
            },
        before.entries@.len() == 0 ==> after.entries@.len() == 1,
{
    let (entry, gone) = choose|entry: CacheEntry, gone: Seq<u64>|
        {
            &&& is_key(entry, id, px)
            &&& entry.image == image
            &&& entry.last_used == after.tick
            &&& #[trigger] made_room(
                without_key(before.entries@, id, px).push(entry),
                id,
                px,
                before.budget_bytes as nat,
                after.entries@,
                gone,
            )
            &&& after.evicted@ == before.evicted@ + replaced_image(before.entries@, id, px) + gone
        };
    let rest = without_key(before.entries@, id, px);
    let all = rest.push(entry);
    let budget = before.budget_bytes as nat;
    assert(all[rest.len() as int] == entry);
    lemma_room_spares(all, id, px, budget, after.entries@, gone, rest.len() as int);
    let i = choose|i: int| 0 <= i < after.entries@.len() && after.entries@[i] == entry;
    assert(after.entries@[i].id@ == id);
    if before.entries@.len() == 0 {
        assert(all.len() == 1);
        assert(!exists|v: int| goes_first(all, id, px, v));
    }
}

} // verus!
