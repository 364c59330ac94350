//! Fixed-capacity ring of tick-indexed entries.
//!
//! A `SequenceBuffer` holds at most `capacity` live entries, kept in a window
//! of ticks ending at `sequence_num`, the latest tick ever inserted (under
//! wrapping comparison). An entry for tick `t` lives in slot `t % capacity`;
//! inserting a newer tick advances the window and clears everything that
//! falls out of it. All operations are total: out-of-window ticks are
//! silently dropped.

use vstd::prelude::*;

use crate::tick::{tick_gt, wrapping_diff, wrapping_diff_spec};

verus! {

broadcast use vstd::arithmetic::div_mod::lemma_mod_bound;

/// Mathematical model of a [`SequenceBuffer`]: the slot contents and the
/// latest inserted tick.
#[verifier::ext_equal]
#[verifier::reject_recursive_types(V)]
pub struct SeqBufView<V> {
    pub slots: Seq<Option<(u16, V)>>,
    pub sequence_num: u16,
}

impl<V> SeqBufView<V> {
    /// Number of slots in the ring.
    pub open spec fn cap(self) -> int {
        self.slots.len() as int
    }

    /// Ring slot that tick `t` maps to.
    pub open spec fn slot_of(self, t: u16) -> int {
        (t as int) % self.cap()
    }

    /// Well-formed: at least one slot, slot count fits a tick, and every
    /// stored entry sits in its own slot within the live window that ends at
    /// `sequence_num`.
    pub open spec fn wf(self) -> bool {
        &&& 1 <= self.cap() <= 65535
        &&& forall|i: int|
            0 <= i < self.cap() ==> match #[trigger] self.slots[i] {
                Some(p) => self.slot_of(p.0) == i && 0 <= wrapping_diff_spec(
                    self.sequence_num,
                    p.0,
                ) < self.cap(),
                None => true,
            }
    }

    /// The value stored for tick `t`: present only when the slot for `t`
    /// holds exactly that tick.
    pub open spec fn entry_at(self, t: u16) -> Option<V> {
        match self.slots[self.slot_of(t)] {
            Some(p) => if p.0 == t {
                Some(p.1)
            } else {
                None
            },
            None => None,
        }
    }

    /// An empty buffer of `cap` slots, with `sequence_num` zero.
    pub open spec fn fresh(cap: int) -> SeqBufView<V> {
        SeqBufView { slots: Seq::new(cap as nat, |i: int| None), sequence_num: 0 }
    }

    /// The buffer after `insert(tick, value)`.
    ///
    /// A strictly newer tick advances `sequence_num`, clears every entry that
    /// left the window of the last `cap` ticks, and writes `(tick, value)`
    /// into its slot. A tick inside the current window overwrites its slot.
    /// Anything else is dropped.
    pub open spec fn insert_spec(self, tick: u16, value: V) -> SeqBufView<V> {
        if tick_gt(tick, self.sequence_num) {
            SeqBufView {
                slots: Seq::new(
                    self.slots.len(),
                    |i: int|
                        if i == self.slot_of(tick) {
                            Some((tick, value))
                        } else {
                            match self.slots[i] {
                                Some(p) => if 0 <= wrapping_diff_spec(tick, p.0) < self.cap() {
                                    Some(p)
                                } else {
                                    None
                                },
                                None => None,
                            }
                        },
                ),
                sequence_num: tick,
            }
        } else if 0 <= wrapping_diff_spec(self.sequence_num, tick) < self.cap() {
            SeqBufView {
                slots: self.slots.update(self.slot_of(tick), Some((tick, value))),
                sequence_num: self.sequence_num,
            }
        } else {
            self
        }
    }

    /// The buffer after `remove_until(t)`: every entry with a tick strictly
    /// older than `t` is cleared.
    pub open spec fn remove_until_spec(self, t: u16) -> SeqBufView<V> {
        SeqBufView {
            slots: Seq::new(
                self.slots.len(),
                |i: int|
                    match self.slots[i] {
                        Some(p) => if wrapping_diff_spec(t, p.0) > 0 {
                            None
                        } else {
                            Some(p)
                        },
                        None => None,
                    },
            ),
            sequence_num: self.sequence_num,
        }
    }

    /// Number of occupied slots.
    pub open spec fn occupied(self) -> int {
        count_some(self.slots)
    }

    /// The live `(tick, value)` pairs at wrapping distances `n` down to
    /// `d` behind `sequence_num`, oldest first: ascending tick order under
    /// wrapping comparison.
    pub open spec fn entries_back(self, n: int, d: int) -> Seq<(u16, V)>
        decreases n + 1 - d,
    {
        if d > n || d < 0 {
            Seq::empty()
        } else {
            self.entries_back(n, d + 1) + match self.entry_at(tick_back(self.sequence_num, d)) {
                Some(v) => seq![(tick_back(self.sequence_num, d), v)],
                None => Seq::empty(),
            }
        }
    }

    /// The live `(tick, value)` pairs whose ticks lie in the
    /// wrapping-inclusive range `[from, sequence_num]`, in ascending
    /// wrapping tick order; empty when `from` is not at or behind
    /// `sequence_num` under wrapping comparison.
    pub open spec fn replay_entries(self, from: u16) -> Seq<(u16, V)> {
        if wrapping_diff_spec(self.sequence_num, from) >= 0 {
            self.entries_back(wrapping_diff_spec(self.sequence_num, from), 0)
        } else {
            Seq::empty()
        }
    }
}

/// The tick `d` steps behind `t` on the mod-2^16 circle.
pub open spec fn tick_back(t: u16, d: int) -> u16 {
    if t - d >= 0 {
        (t - d) as u16
    } else {
        (t - d + 65536) as u16
    }
}

impl<V> SeqBufView<V> {
    /// The live `(tick, value)` pairs at distances `cap - 1` down to `d`
    /// behind `sequence_num`: the older part of the window, oldest first.
    pub open spec fn window_entries_from(self, d: int) -> Seq<(u16, V)>
        decreases self.cap() - d,
    {
        if d < 0 || d >= self.cap() {
            Seq::empty()
        } else {
            self.window_entries_from(d + 1) + match self.entry_at(
                tick_back(self.sequence_num, d),
            ) {
                Some(v) => seq![(tick_back(self.sequence_num, d), v)],
                None => Seq::empty(),
            }
        }
    }

    /// All live `(tick, value)` pairs, in ascending tick order under the
    /// window ending at `sequence_num`: oldest first, `sequence_num` last.
    pub open spec fn window_entries(self) -> Seq<(u16, V)> {
        self.window_entries_from(0)
    }
}

impl<V> SeqBufView<V> {
    /// Whatever is inserted, the number of live entries never exceeds the
    /// capacity.
    pub proof fn lemma_occupied_bounded(self)
        ensures
            0 <= self.occupied() <= self.cap(),
    {
        lemma_occupied_le_capacity(self.slots);
    }

    /// `sequence_num` never moves backwards across an insert, under
    /// wrapping comparison.
    pub proof fn lemma_insert_seq_monotonic(self, tick: u16, value: V)
        ensures
            wrapping_diff_spec(self.insert_spec(tick, value).sequence_num, self.sequence_num)
                >= 0,
    {
    }

    /// An entry for `t` survives `insert(tick, value)` exactly when a newer
    /// `tick` did not push it out of the window, and it is not displaced
    /// from the slot that `tick` claims.
    pub open spec fn insert_keeps(self, tick: u16, t: u16) -> bool {
        if tick_gt(tick, self.sequence_num) {
            0 <= wrapping_diff_spec(tick, t) < self.cap() && self.slot_of(t) != self.slot_of(tick)
        } else if 0 <= wrapping_diff_spec(self.sequence_num, tick) < self.cap() {
            self.slot_of(t) != self.slot_of(tick)
        } else {
            true
        }
    }

    /// The fate of every entry across an insert: the inserted value is
    /// retrievable under its tick unless it was too old to store (then the
    /// buffer is unchanged), and every other entry either survives
    /// unchanged or is evicted, as [`SeqBufView::insert_keeps`] says.
    pub proof fn lemma_insert_entry_fate(self, tick: u16, value: V)
        requires
            self.wf(),
        ensures
            tick_gt(tick, self.sequence_num) || 0 <= wrapping_diff_spec(self.sequence_num, tick)
                < self.cap() ==> self.insert_spec(tick, value).entry_at(tick) == Some(value),
            !(tick_gt(tick, self.sequence_num) || 0 <= wrapping_diff_spec(
                self.sequence_num,
                tick,
            ) < self.cap()) ==> self.insert_spec(tick, value) == self,
            forall|t: u16|
                t != tick ==> self.insert_spec(tick, value).entry_at(t) == (
                if self.insert_keeps(tick, t) {
                    self.entry_at(t)
                } else {
                    None
                }),
    {
        let r = self.insert_spec(tick, value);
        assert(0 <= self.slot_of(tick) < self.cap());
        assert forall|t: u16| t != tick implies r.entry_at(t) == (
        if self.insert_keeps(tick, t) {
            self.entry_at(t)
        } else {
            None
        }) by {
            assert(0 <= self.slot_of(t) < self.cap());
        }
    }

    /// Entries of a wrapping range listing: every element's tick lies at a
    /// distance in `[d, n]` behind `sequence_num` and holds its stored
    /// value, ticks are strictly ascending under wrapping comparison, and
    /// every stored tick of the range is listed.
    pub proof fn lemma_entries_back_props(self, n: int, d: int)
        requires
            0 <= d,
            n <= 32767,
        ensures
            forall|k: int|
                0 <= k < self.entries_back(n, d).len() ==> d <= wrapping_diff_spec(
                    self.sequence_num,
                    (#[trigger] self.entries_back(n, d)[k]).0,
                ) <= n && self.entry_at(self.entries_back(n, d)[k].0) == Some(
                    self.entries_back(n, d)[k].1,
                ),
            forall|k1: int, k2: int|
                0 <= k1 < k2 < self.entries_back(n, d).len() ==> wrapping_diff_spec(
                    self.sequence_num,
                    (#[trigger] self.entries_back(n, d)[k1]).0,
                ) > wrapping_diff_spec(
                    self.sequence_num,
                    (#[trigger] self.entries_back(n, d)[k2]).0,
                ),
            forall|dist: int|
                #![trigger self.entry_at(tick_back(self.sequence_num, dist))]
                d <= dist <= n && self.entry_at(tick_back(self.sequence_num, dist)) is Some
                    ==> exists|k: int|
                    0 <= k < self.entries_back(n, d).len() && (
                    #[trigger] self.entries_back(n, d)[k]).0 == tick_back(self.sequence_num, dist)
                        && Some(self.entries_back(n, d)[k].1) == self.entry_at(
                        tick_back(self.sequence_num, dist),
                    ),
        decreases n + 1 - d,
    {
        if !(d > n) {
            self.lemma_entries_back_props(n, d + 1);
            let prefix = self.entries_back(n, d + 1);
            let full = self.entries_back(n, d);
            lemma_diff_of_tick_back(self.sequence_num, d);
            assert forall|dist: int|
                #![trigger self.entry_at(tick_back(self.sequence_num, dist))]
                d <= dist <= n && self.entry_at(tick_back(self.sequence_num, dist))
                    is Some implies exists|k: int|
                0 <= k < full.len() && (#[trigger] full[k]).0 == tick_back(self.sequence_num, dist)
                    && Some(full[k].1) == self.entry_at(tick_back(self.sequence_num, dist)) by {
                if dist > d {
                    let k = choose|k: int|
                        0 <= k < prefix.len() && (#[trigger] prefix[k]).0 == tick_back(
                            self.sequence_num,
                            dist,
                        ) && Some(prefix[k].1) == self.entry_at(tick_back(self.sequence_num, dist));
                    assert(full[k] == prefix[k]);
                } else {
                    assert(full[full.len() - 1].0 == tick_back(self.sequence_num, d));
                }
            }
        }
    }

    /// The replay listing for `from` is exactly the stored entries of the
    /// wrapping-inclusive tick range `[from, sequence_num]`, ascending:
    /// sound, complete, and strictly ordered under wrapping comparison.
    pub proof fn lemma_replay_entries_props(self, from: u16)
        requires
            wrapping_diff_spec(self.sequence_num, from) >= 0,
        ensures
            forall|k: int|
                0 <= k < self.replay_entries(from).len() ==> 0 <= wrapping_diff_spec(
                    self.sequence_num,
                    (#[trigger] self.replay_entries(from)[k]).0,
                ) <= wrapping_diff_spec(self.sequence_num, from) && self.entry_at(
                    self.replay_entries(from)[k].0,
                ) == Some(self.replay_entries(from)[k].1),
            forall|k1: int, k2: int|
                0 <= k1 < k2 < self.replay_entries(from).len() ==> wrapping_diff_spec(
                    (#[trigger] self.replay_entries(from)[k2]).0,
                    (#[trigger] self.replay_entries(from)[k1]).0,
                ) > 0,
            forall|dist: int|
                #![trigger self.entry_at(tick_back(self.sequence_num, dist))]
                0 <= dist <= wrapping_diff_spec(self.sequence_num, from) && self.entry_at(
                    tick_back(self.sequence_num, dist),
                ) is Some ==> exists|k: int|
                    0 <= k < self.replay_entries(from).len() && (
                    #[trigger] self.replay_entries(from)[k]).0 == tick_back(
                        self.sequence_num,
                        dist,
                    ) && Some(self.replay_entries(from)[k].1) == self.entry_at(
                        tick_back(self.sequence_num, dist),
                    ),
    {
        let n = wrapping_diff_spec(self.sequence_num, from);
        self.lemma_entries_back_props(n, 0);
        let r = self.replay_entries(from);
        assert forall|k1: int, k2: int| 0 <= k1 < k2 < r.len() implies wrapping_diff_spec(
            (#[trigger] r[k2]).0,
            (#[trigger] r[k1]).0,
        ) > 0 by {
            let d1 = wrapping_diff_spec(self.sequence_num, r[k1].0);
            let d2 = wrapping_diff_spec(self.sequence_num, r[k2].0);
            lemma_tick_back_of_diff(self.sequence_num, r[k1].0);
            lemma_tick_back_of_diff(self.sequence_num, r[k2].0);
            lemma_tick_back_diff(self.sequence_num, d1, d2);
        }
    }
}

/// A tick at or behind `s` is recovered from its wrapping distance.
pub proof fn lemma_tick_back_of_diff(s: u16, t: u16)
    requires
        wrapping_diff_spec(s, t) >= 0,
    ensures
        tick_back(s, wrapping_diff_spec(s, t)) == t,
{
}

/// Stepping back `d` ticks lands at wrapping distance `d`.
pub proof fn lemma_diff_of_tick_back(s: u16, d: int)
    requires
        0 <= d <= 32767,
    ensures
        wrapping_diff_spec(s, tick_back(s, d)) == d,
{
}

/// The wrapping difference of two ticks stepped back from the same tick is
/// the difference of their distances.
pub proof fn lemma_tick_back_diff(s: u16, d1: int, d2: int)
    requires
        0 <= d1 <= 32767,
        0 <= d2 <= 32767,
    ensures
        wrapping_diff_spec(tick_back(s, d2), tick_back(s, d1)) == d1 - d2,
{
}

/// Number of `Some` elements of `s`.
pub open spec fn count_some<V>(s: Seq<Option<(u16, V)>>) -> int
    decreases s.len(),
{
    if s.len() == 0 {
        0
    } else {
        count_some(s.drop_last()) + if s.last() is Some {
            1int
        } else {
            0int
        }
    }
}

/// There are never more occupied slots than slots.
pub proof fn lemma_occupied_le_capacity<V>(s: Seq<Option<(u16, V)>>)
    ensures
        0 <= count_some(s) <= s.len(),
    decreases s.len(),
{
    if s.len() > 0 {
        lemma_occupied_le_capacity(s.drop_last());
    }
}

/// Fixed-capacity ring of tick-indexed entries; see the module doc.
#[verifier::reject_recursive_types(V)]
pub struct SequenceBuffer<V> {
    entries: Vec<Option<(u16, V)>>,
    sequence_num: u16,
}

impl<V> View for SequenceBuffer<V> {
    type V = SeqBufView<V>;

    closed spec fn view(&self) -> SeqBufView<V> {
        SeqBufView { slots: self.entries@, sequence_num: self.sequence_num }
    }
}

impl<V> SequenceBuffer<V> {
    /// An empty buffer with `capacity` slots.
    pub fn with_capacity(capacity: u16) -> (r: SequenceBuffer<V>)
        requires
            capacity >= 1,
        ensures
            r@ == SeqBufView::<V>::fresh(capacity as int),
            r@.wf(),
    {
        let mut entries: Vec<Option<(u16, V)>> = Vec::new();
        let mut i: usize = 0;
        while i < capacity as usize
            invariant
                i <= capacity as usize,
                entries@.len() == i,
                forall|j: int| 0 <= j < i ==> entries@[j] is None,
            decreases capacity as usize - i,
        {
            entries.push(None);
            i += 1;
        }
        let r = SequenceBuffer { entries, sequence_num: 0 };
        proof {
            assert(r@ =~= SeqBufView::<V>::fresh(capacity as int));
        }
        r
    }

    /// The latest tick ever inserted.
    pub fn sequence_num(&self) -> (r: u16)
        ensures
            r == self@.sequence_num,
    {
        self.sequence_num
    }

    /// Number of slots in the ring.
    pub fn capacity(&self) -> (r: u16)
        requires
            self@.wf(),
        ensures
            r as int == self@.cap(),
    {
        self.entries.len() as u16
    }

    /// Store `value` under `tick`, as [`SeqBufView::insert_spec`] says:
    /// newer ticks advance the window, in-window ticks overwrite their slot,
    /// and too-old ticks are silently dropped.
    pub fn insert(&mut self, tick: u16, value: V)
        requires
            old(self)@.wf(),
        ensures
            final (self)@ == old(self)@.insert_spec(tick, value),
            final (self)@.wf(),
    {
        let ghost orig = self@;
        let cap_usize: usize = self.entries.len();
        let cap: u16 = cap_usize as u16;
        let d_new = wrapping_diff(tick, self.sequence_num);
        if d_new > 0 {
            self.sequence_num = tick;
            let mut i: usize = 0;
            while i < cap_usize
                invariant
                    orig.wf(),
                    i <= cap_usize,
                    cap_usize == orig.cap(),
                    cap as int == orig.cap(),
                    tick_gt(tick, orig.sequence_num),
                    self.sequence_num == tick,
                    self.entries@.len() == cap_usize,
                    forall|j: int| i <= j < cap_usize ==> self.entries@[j] == orig.slots[j],
                    forall|j: int|
                        0 <= j < i ==> self.entries@[j] == match orig.slots[j] {
                            Some(p) => if 0 <= wrapping_diff_spec(tick, p.0) < orig.cap() {
                                Some(p)
                            } else {
                                None
                            },
                            None => None,
                        },
                decreases cap_usize - i,
            {
                let clear: bool = match &self.entries[i] {
                    Some(p) => {
                        let dd = wrapping_diff(tick, p.0);
                        dd < 0 || dd >= cap as i32
                    },
                    None => false,
                };
                if clear {
                    self.entries[i] = None;
                }
                i += 1;
            }
            let idx: usize = (tick % cap) as usize;
            self.entries[idx] = Some((tick, value));
            proof {
                assert(self@ =~= orig.insert_spec(tick, value));
            }
        } else {
            let d_old = wrapping_diff(self.sequence_num, tick);
            if d_old >= 0 && d_old < cap as i32 {
                let idx: usize = (tick % cap) as usize;
                self.entries[idx] = Some((tick, value));
                proof {
                    assert(self@ =~= orig.insert_spec(tick, value));
                }
            } else {
                proof {
                    assert(self@ =~= orig.insert_spec(tick, value));
                }
            }
        }
    }

    /// Borrow the value stored for `tick`, present only when the slot for
    /// `tick` holds exactly that tick.
    pub fn get(&self, tick: u16) -> (r: Option<&V>)
        requires
            self@.wf(),
        ensures
            match r {
                Some(v) => self@.entry_at(tick) == Some(*v),
                None => self@.entry_at(tick) is None,
            },
    {
        let cap: u16 = self.entries.len() as u16;
        let idx: usize = (tick % cap) as usize;
        match &self.entries[idx] {
            Some(p) => if p.0 == tick {
                Some(&p.1)
            } else {
                None
            },
            None => None,
        }
    }

    /// Mutably borrow the value stored for `tick`, present only when the
    /// slot for `tick` holds exactly that tick; the entry then holds
    /// whatever the caller leaves behind the borrow.
    pub fn get_mut(&mut self, tick: u16) -> (r: Option<&mut V>)
        requires
            old(self)@.wf(),
        ensures
            old(self)@.entry_at(tick) is None ==> r is None && final (self)@ == old(self)@,
            match r {
                Some(m) => {
                    &&& old(self)@.entry_at(tick) == Some(*m)
                    &&& final (self)@ == (SeqBufView {
                        slots: old(self)@.slots.update(
                            old(self)@.slot_of(tick),
                            Some((tick, *final (m))),
                        ),
                        sequence_num: old(self)@.sequence_num,
                    })
                },
                None => old(self)@.entry_at(tick) is None && final (self)@ == old(self)@,
            },
            final (self)@.wf(),
    {
        let cap: u16 = self.entries.len() as u16;
        let idx: usize = (tick % cap) as usize;
        let hit: bool = match &self.entries[idx] {
            Some(p) => p.0 == tick,
            None => false,
        };
        if hit {
            match &mut self.entries[idx] {
                Some(p) => Some(&mut p.1),
                None => None,
            }
        } else {
            proof {
                assert(self@ =~= old(self)@);
            }
            None
        }
    }

    /// Clear every entry whose tick is strictly older than `t` under
    /// wrapping comparison.
    pub fn remove_until(&mut self, t: u16)
        requires
            old(self)@.wf(),
        ensures
            final (self)@ == old(self)@.remove_until_spec(t),
            final (self)@.wf(),
    {
        let ghost orig = self@;
        let cap_usize: usize = self.entries.len();
        let mut i: usize = 0;
        while i < cap_usize
            invariant
                orig.wf(),
                i <= cap_usize,
                cap_usize == orig.cap(),
                self.sequence_num == orig.sequence_num,
                self.entries@.len() == cap_usize,
                forall|j: int| i <= j < cap_usize ==> self.entries@[j] == orig.slots[j],
                forall|j: int|
                    0 <= j < i ==> self.entries@[j] == match orig.slots[j] {
                        Some(p) => if wrapping_diff_spec(t, p.0) > 0 {
                            None
                        } else {
                            Some(p)
                        },
                        None => None,
                    },
            decreases cap_usize - i,
        {
            let clear: bool = match &self.entries[i] {
                Some(p) => wrapping_diff(t, p.0) > 0,
                None => false,
            };
            if clear {
                self.entries[i] = None;
            }
            i += 1;
        }
        proof {
            assert(self@ =~= orig.remove_until_spec(t));
        }
    }

    /// Number of occupied slots, at most the capacity.
    pub fn get_entries_count(&self) -> (r: u8)
        requires
            self@.wf(),
            self@.cap() <= 255,
        ensures
            r as int == self@.occupied(),
    {
        let cap_usize: usize = self.entries.len();
        let mut count: u8 = 0;
        let mut i: usize = 0;
        proof {
            lemma_occupied_le_capacity(self@.slots);
        }
        while i < cap_usize
            invariant
                i <= cap_usize,
                cap_usize == self@.cap(),
                cap_usize <= 255,
                count as int == count_some(self@.slots.take(i as int)),
                count as int <= i,
            decreases cap_usize - i,
        {
            proof {
                assert(self@.slots.take(i as int + 1).drop_last() =~= self@.slots.take(i as int));
                assert(self@.slots.take(i as int + 1).last() == self@.slots[i as int]);
            }
            if self.entries[i].is_some() {
                count += 1;
            }
            i += 1;
        }
        proof {
            assert(self@.slots.take(cap_usize as int) =~= self@.slots);
        }
        count
    }
}

} // verus!
