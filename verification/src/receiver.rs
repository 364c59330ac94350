//! The command receiver: queues locally predicted commands, retains a
//! bounded per-pawn history, and drives replay after the server reports a
//! divergence.
//!
//! Commands are opaque shared-ownership handles (`Rc<C>`): the receiver
//! never inspects them, and the same handle may sit in the incoming queue,
//! the history, and the replay queue at once.

use std::collections::VecDeque;
use std::rc::Rc;
use vstd::prelude::*;

use crate::pawn::PawnKey;
use crate::sequence_buffer::{SeqBufView, SequenceBuffer};
use crate::tick::{wrapping_diff, wrapping_diff_spec};

verus! {

/// Number of ticks of command history retained per pawn.
pub const COMMAND_HISTORY_SIZE: u16 = 64;

/// The collaborator that can revert a pawn's predicted state to the most
/// recent authoritative snapshot. Implemented by the host; the receiver is
/// solely responsible for re-driving the simulation after a reset.
pub trait StateManager {
    /// Revert the identified state-pawn to the latest authoritative state.
    fn pawn_reset(&mut self, object_key: u16);

    /// Revert the identified entity-pawn to the latest authoritative state.
    fn pawn_reset_entity(&mut self, entity_key: u16);
}

/// Relies on std's `Rc::clone`: the returned handle refers to the same
/// allocation, so it equals the handle it was cloned from.
#[verifier::external_body]
fn clone_rc<T>(rc: &Rc<T>) -> (r: Rc<T>)
    ensures
        r == *rc,
{
    rc.clone()
}

/// Keys of an association list are pairwise distinct.
pub open spec fn keys_unique<T>(s: Seq<(PawnKey, T)>) -> bool {
    forall|i: int, j: int| 0 <= i < j < s.len() ==> (#[trigger] s[i]).0 != (#[trigger] s[j]).0
}

/// The map that an association list of history buffers denotes.
pub open spec fn history_map_of<C>(s: Seq<(PawnKey, SequenceBuffer<Rc<C>>)>) -> Map<
    PawnKey,
    SeqBufView<Rc<C>>,
> {
    Map::new(
        |p: PawnKey| exists|i: int| 0 <= i < s.len() && (#[trigger] s[i]).0 == p,
        |p: PawnKey|
            s[choose|i: int| 0 <= i < s.len() && (#[trigger] s[i]).0 == p].1@,
    )
}

/// The earlier of the two ticks under wrapping comparison; `a` wins ties.
pub open spec fn earlier_tick(a: u16, b: u16) -> u16 {
    if wrapping_diff_spec(a, b) > 0 {
        b
    } else {
        a
    }
}

/// The trigger list after recording a replay request `(p, h)`: an existing
/// entry for `p` keeps the earlier of its tick and `h`, otherwise `(p, h)`
/// is appended.
pub open spec fn record_trigger(s: Seq<(PawnKey, u16)>, p: PawnKey, h: u16) -> Seq<(PawnKey, u16)>
    decreases s.len(),
{
    if s.len() == 0 {
        seq![(p, h)]
    } else if s[0].0 == p {
        seq![(p, earlier_tick(s[0].1, h))] + s.drop_first()
    } else {
        seq![s[0]] + record_trigger(s.drop_first(), p, h)
    }
}

/// The trigger list with any entry for `p` removed.
pub open spec fn remove_trigger(s: Seq<(PawnKey, u16)>, p: PawnKey) -> Seq<(PawnKey, u16)>
    decreases s.len(),
{
    if s.len() == 0 {
        s
    } else if s[0].0 == p {
        remove_trigger(s.drop_first(), p)
    } else {
        seq![s[0]] + remove_trigger(s.drop_first(), p)
    }
}

/// The entries tagged with the pawn they belong to, in unchanged order.
pub open spec fn tag_entries<C>(p: PawnKey, s: Seq<(u16, Rc<C>)>) -> Seq<(u16, PawnKey, Rc<C>)> {
    s.map_values(|e: (u16, Rc<C>)| (e.0, p, e.1))
}

/// The `(incoming, replays)` queues after one replay pass over the pending
/// triggers, in order. A trigger whose pawn is untracked only resets it; a
/// trigger `(p, h)` with a tracked history clears both queues and fills the
/// replay queue with `p`'s retained commands for the wrapping-inclusive
/// tick range from `h` up to the history's `sequence_num`, in ascending
/// wrapping tick order (nothing when `h` lies wrapping-ahead of it).
pub open spec fn apply_triggers<C>(
    inc: Seq<(u16, PawnKey, Rc<C>)>,
    rep: Seq<(u16, PawnKey, Rc<C>)>,
    hist: Map<PawnKey, SeqBufView<Rc<C>>>,
    trig: Seq<(PawnKey, u16)>,
) -> (Seq<(u16, PawnKey, Rc<C>)>, Seq<(u16, PawnKey, Rc<C>)>)
    decreases trig.len(),
{
    if trig.len() == 0 {
        (inc, rep)
    } else {
        let p = trig[0].0;
        let h = trig[0].1;
        if hist.contains_key(p) {
            apply_triggers(
                Seq::empty(),
                tag_entries(p, hist[p].replay_entries(h)),
                hist,
                trig.drop_first(),
            )
        } else {
            apply_triggers(inc, rep, hist, trig.drop_first())
        }
    }
}

/// A pass over no pending triggers is a no-op: it disturbs neither the
/// incoming queue nor the replay queue. With `process_command_replay`
/// clearing all triggers, a second pass with no intervening replay request
/// leaves both queues unchanged.
pub proof fn lemma_replay_pass_no_pending<C>(
    inc: Seq<(u16, PawnKey, Rc<C>)>,
    rep: Seq<(u16, PawnKey, Rc<C>)>,
    hist: Map<PawnKey, SeqBufView<Rc<C>>>,
)
    ensures
        apply_triggers(inc, rep, hist, Seq::<(PawnKey, u16)>::empty()) == (inc, rep),
{
}

/// An incoming queue that is empty stays empty across a replay pass.
proof fn lemma_replay_pass_keeps_incoming_empty<C>(
    rep: Seq<(u16, PawnKey, Rc<C>)>,
    hist: Map<PawnKey, SeqBufView<Rc<C>>>,
    trig: Seq<(PawnKey, u16)>,
)
    ensures
        apply_triggers(Seq::<(u16, PawnKey, Rc<C>)>::empty(), rep, hist, trig).0 == Seq::<
            (u16, PawnKey, Rc<C>),
        >::empty(),
    decreases trig.len(),
{
    if trig.len() > 0 {
        if hist.contains_key(trig[0].0) {
            lemma_replay_pass_keeps_incoming_empty(
                tag_entries(trig[0].0, hist[trig[0].0].replay_entries(trig[0].1)),
                hist,
                trig.drop_first(),
            );
        } else {
            lemma_replay_pass_keeps_incoming_empty(rep, hist, trig.drop_first());
        }
    }
}

/// Once any trigger of the pass fires for a pawn with a present history,
/// the incoming queue (and the stale replay queue) is emptied: the pass
/// ends with an empty incoming queue.
pub proof fn lemma_replay_pass_clears_incoming<C>(
    inc: Seq<(u16, PawnKey, Rc<C>)>,
    rep: Seq<(u16, PawnKey, Rc<C>)>,
    hist: Map<PawnKey, SeqBufView<Rc<C>>>,
    trig: Seq<(PawnKey, u16)>,
)
    requires
        exists|i: int| 0 <= i < trig.len() && hist.contains_key((#[trigger] trig[i]).0),
    ensures
        apply_triggers(inc, rep, hist, trig).0 == Seq::<(u16, PawnKey, Rc<C>)>::empty(),
    decreases trig.len(),
{
    if hist.contains_key(trig[0].0) {
        lemma_replay_pass_keeps_incoming_empty(
            tag_entries(trig[0].0, hist[trig[0].0].replay_entries(trig[0].1)),
            hist,
            trig.drop_first(),
        );
    } else {
        let i = choose|i: int| 0 <= i < trig.len() && hist.contains_key((#[trigger] trig[i]).0);
        assert(trig.drop_first()[i - 1] == trig[i]);
        lemma_replay_pass_clears_incoming(inc, rep, hist, trig.drop_first());
    }
}

/// Replay order: after a pass whose one trigger is `(p, h)` for a tracked
/// pawn, any two commands retained for `p` at ticks `t1` wrapping-older
/// than `t2`, both inside the wrapping-inclusive range from `h` up to the
/// history's `sequence_num`, stand in the replay queue in ascending
/// wrapping tick order, each carrying the very handle the history stores.
pub proof fn lemma_replay_pass_orders<C>(
    inc: Seq<(u16, PawnKey, Rc<C>)>,
    rep: Seq<(u16, PawnKey, Rc<C>)>,
    hist: Map<PawnKey, SeqBufView<Rc<C>>>,
    p: PawnKey,
    h: u16,
    t1: u16,
    t2: u16,
)
    requires
        hist.contains_key(p),
        wrapping_diff_spec(hist[p].sequence_num, h) >= 0,
        0 <= wrapping_diff_spec(hist[p].sequence_num, t1) <= wrapping_diff_spec(
            hist[p].sequence_num,
            h,
        ),
        0 <= wrapping_diff_spec(hist[p].sequence_num, t2) <= wrapping_diff_spec(
            hist[p].sequence_num,
            h,
        ),
        wrapping_diff_spec(t2, t1) > 0,
        hist[p].entry_at(t1) is Some,
        hist[p].entry_at(t2) is Some,
    ensures
        ({
            let rep2 = apply_triggers(inc, rep, hist, seq![(p, h)]).1;
            exists|k1: int, k2: int|
                {
                    &&& 0 <= k1 < k2 < rep2.len()
                    &&& (#[trigger] rep2[k1]) == (t1, p, hist[p].entry_at(t1)->Some_0)
                    &&& (#[trigger] rep2[k2]) == (t2, p, hist[p].entry_at(t2)->Some_0)
                }
        }),
{
    let v = hist[p];
    let s = v.sequence_num;
    let n = wrapping_diff_spec(s, h);
    let entries = v.replay_entries(h);
    let tagged = tag_entries(p, entries);
    let rep2 = apply_triggers(inc, rep, hist, seq![(p, h)]).1;
    assert(seq![(p, h)][0] == (p, h));
    assert(seq![(p, h)].drop_first() =~= Seq::<(PawnKey, u16)>::empty());
    lemma_replay_pass_no_pending(Seq::<(u16, PawnKey, Rc<C>)>::empty(), tagged, hist);
    assert(rep2 == tagged);
    v.lemma_entries_back_props(n, 0);
    let d1 = wrapping_diff_spec(s, t1);
    let d2 = wrapping_diff_spec(s, t2);
    crate::sequence_buffer::lemma_tick_back_of_diff(s, t1);
    crate::sequence_buffer::lemma_tick_back_of_diff(s, t2);
    crate::sequence_buffer::lemma_tick_back_diff(s, d1, d2);
    assert(d1 - d2 == wrapping_diff_spec(t2, t1));
    assert(v.entry_at(crate::sequence_buffer::tick_back(s, d1)) is Some);
    assert(v.entry_at(crate::sequence_buffer::tick_back(s, d2)) is Some);
    let k1 = choose|k: int|
        0 <= k < entries.len() && (#[trigger] entries[k]).0 == crate::sequence_buffer::tick_back(
            s,
            d1,
        ) && Some(entries[k].1) == v.entry_at(crate::sequence_buffer::tick_back(s, d1));
    let k2 = choose|k: int|
        0 <= k < entries.len() && (#[trigger] entries[k]).0 == crate::sequence_buffer::tick_back(
            s,
            d2,
        ) && Some(entries[k].1) == v.entry_at(crate::sequence_buffer::tick_back(s, d2));
    assert(0 <= k1 < entries.len() && entries[k1].0 == t1 && Some(entries[k1].1) == v.entry_at(t1));
    assert(0 <= k2 < entries.len() && entries[k2].0 == t2 && Some(entries[k2].1) == v.entry_at(t2));
    assert(k1 < k2) by {
        if k2 <= k1 {
            if k2 < k1 {
                assert(wrapping_diff_spec(s, entries[k2].0) > wrapping_diff_spec(
                    s,
                    entries[k1].0,
                ));
            }
        }
    }
    assert(rep2[k1] == (t1, p, v.entry_at(t1)->Some_0));
    assert(rep2[k2] == (t2, p, v.entry_at(t2)->Some_0));
}

/// Recording the same replay request twice is the same as recording it
/// once: redundant divergence reports collapse.
pub proof fn lemma_record_trigger_idempotent(s: Seq<(PawnKey, u16)>, p: PawnKey, h: u16)
    ensures
        record_trigger(record_trigger(s, p, h), p, h) == record_trigger(s, p, h),
    decreases s.len(),
{
    let r = record_trigger(s, p, h);
    if s.len() == 0 {
        assert(record_trigger(r, p, h) =~= r);
    } else if s[0].0 == p {
        assert(earlier_tick(earlier_tick(s[0].1, h), h) == earlier_tick(s[0].1, h));
        assert(r.drop_first() =~= s.drop_first());
        assert(record_trigger(r, p, h) =~= r);
    } else {
        lemma_record_trigger_idempotent(s.drop_first(), p, h);
        assert(r[0] == s[0]);
        assert(r.drop_first() =~= record_trigger(s.drop_first(), p, h));
        assert(record_trigger(r, p, h) =~= r);
    }
}

/// Handles incoming, local, predicted commands: the outbound queue for
/// immediate application, the bounded per-pawn history, the replay queue,
/// and the pending replay requests.
#[verifier::reject_recursive_types(C)]
pub struct CommandReceiver<C> {
    queued_incoming_commands: VecDeque<(u16, PawnKey, Rc<C>)>,
    command_history: Vec<(PawnKey, SequenceBuffer<Rc<C>>)>,
    queued_command_replays: VecDeque<(u16, PawnKey, Rc<C>)>,
    replay_trigger: Vec<(PawnKey, u16)>,
}

impl<C> CommandReceiver<C> {
    /// Commands waiting to be applied locally, in arrival order.
    pub closed spec fn incoming(self) -> Seq<(u16, PawnKey, Rc<C>)> {
        self.queued_incoming_commands@
    }

    /// Commands produced by the last replay pass, in replay order.
    pub closed spec fn replays(self) -> Seq<(u16, PawnKey, Rc<C>)> {
        self.queued_command_replays@
    }

    /// Per-pawn command history.
    pub closed spec fn history(self) -> Map<PawnKey, SeqBufView<Rc<C>>> {
        history_map_of(self.command_history@)
    }

    /// Pending replay requests, in the order they will be processed.
    pub closed spec fn triggers(self) -> Seq<(PawnKey, u16)> {
        self.replay_trigger@
    }

    /// Well-formed: history and trigger keys are unique, and every history
    /// buffer is a well-formed ring of `COMMAND_HISTORY_SIZE` slots.
    pub closed spec fn wf(self) -> bool {
        &&& keys_unique(self.command_history@)
        &&& keys_unique(self.replay_trigger@)
        &&& forall|i: int|
            0 <= i < self.command_history@.len() ==> {
                &&& (#[trigger] self.command_history@[i]).1@.wf()
                &&& self.command_history@[i].1@.cap() == COMMAND_HISTORY_SIZE as int
            }
    }

    /// A receiver with no queued commands, no history, and no pending
    /// replay requests.
    pub fn new() -> (r: CommandReceiver<C>)
        ensures
            r.wf(),
            r.incoming() == Seq::<(u16, PawnKey, Rc<C>)>::empty(),
            r.replays() == Seq::<(u16, PawnKey, Rc<C>)>::empty(),
            r.history() == Map::<PawnKey, SeqBufView<Rc<C>>>::empty(),
            r.triggers() == Seq::<(PawnKey, u16)>::empty(),
    {
        let r = CommandReceiver {
            queued_incoming_commands: VecDeque::new(),
            command_history: Vec::new(),
            queued_command_replays: VecDeque::new(),
            replay_trigger: Vec::new(),
        };
        proof {
            assert(r.history() =~= Map::<PawnKey, SeqBufView<Rc<C>>>::empty());
        }
        r
    }

    /// Index of `p` in the history list, if tracked.
    fn find_history(&self, pawn_key: &PawnKey) -> (r: Option<usize>)
        ensures
            match r {
                Some(j) => j < self.command_history@.len() && self.command_history@[
                    j as int
                ].0 == *pawn_key,
                None => forall|i: int|
                    0 <= i < self.command_history@.len() ==> (
                    #[trigger] self.command_history@[i]).0 != *pawn_key,
            },
    {
        let mut j: usize = 0;
        while j < self.command_history.len()
            invariant
                j <= self.command_history@.len(),
                forall|i: int|
                    0 <= i < j ==> (#[trigger] self.command_history@[i]).0 != *pawn_key,
            decreases self.command_history@.len() - j,
        {
            if self.command_history[j].0 == *pawn_key {
                return Some(j);
            }
            j += 1;
        }
        None
    }

    /// The tracked pawns are exactly the keys of the history list, and the
    /// buffer at a key's index is the map's value there.
    proof fn lemma_history_lookup(self, j: int)
        requires
            self.wf(),
            0 <= j < self.command_history@.len(),
        ensures
            self.history().contains_key(self.command_history@[j].0),
            self.history()[self.command_history@[j].0] == self.command_history@[j].1@,
    {
        let p = self.command_history@[j].0;
        assert(exists|i: int|
            0 <= i < self.command_history@.len() && (#[trigger] self.command_history@[i]).0 == p);
        let i = choose|i: int|
            0 <= i < self.command_history@.len() && (#[trigger] self.command_history@[i]).0 == p;
        assert(i == j);
    }

    /// Appending a pair with a fresh key extends the denoted map.
    proof fn lemma_history_push(
        s: Seq<(PawnKey, SequenceBuffer<Rc<C>>)>,
        p: PawnKey,
        b: SequenceBuffer<Rc<C>>,
    )
        requires
            keys_unique(s),
            forall|i: int| 0 <= i < s.len() ==> (#[trigger] s[i]).0 != p,
        ensures
            keys_unique(s.push((p, b))),
            history_map_of(s.push((p, b))) == history_map_of(s).insert(p, b@),
    {
        let s2 = s.push((p, b));
        let m1 = history_map_of(s2);
        let m2 = history_map_of(s).insert(p, b@);
        assert forall|i: int, k: int| 0 <= i < k < s2.len() implies (#[trigger] s2[i]).0 != (
        #[trigger] s2[k]).0 by {
            if k < s.len() {
                assert(s2[i] == s[i] && s2[k] == s[k]);
            } else {
                assert(s2[i] == s[i] && s2[k] == (p, b));
            }
        }
        assert forall|q: PawnKey| m1.contains_key(q) implies m2.contains_key(q) && m1[q]
            == m2[q] by {
            let iw = choose|i: int| 0 <= i < s2.len() && (#[trigger] s2[i]).0 == q;
            assert(0 <= iw < s2.len() && s2[iw].0 == q);
            if iw < s.len() {
                assert(s2[iw] == s[iw]);
                assert(q != p);
                let i0 = choose|i: int| 0 <= i < s.len() && (#[trigger] s[i]).0 == q;
                assert(0 <= i0 < s.len() && s[i0].0 == q);
                assert(i0 == iw);
                assert(m1[q] == s2[iw].1@ && m2[q] == s[i0].1@);
            } else {
                assert(s2[iw] == (p, b));
                assert(q == p && m1[q] == b@);
            }
        }
        assert forall|q: PawnKey| m2.contains_key(q) implies m1.contains_key(q) by {
            if q == p {
                assert(s2[s.len() as int].0 == p);
            } else {
                let i0 = choose|i: int| 0 <= i < s.len() && (#[trigger] s[i]).0 == q;
                assert(0 <= i0 < s.len() && s[i0].0 == q);
                assert(s2[i0] == s[i0]);
            }
        }
        assert(m1 =~= m2);
    }

    /// Replacing the pair at a key's index updates the denoted map at that
    /// key alone.
    proof fn lemma_history_update(
        s: Seq<(PawnKey, SequenceBuffer<Rc<C>>)>,
        j: int,
        b: SequenceBuffer<Rc<C>>,
    )
        requires
            keys_unique(s),
            0 <= j < s.len(),
        ensures
            keys_unique(s.update(j, (s[j].0, b))),
            history_map_of(s.update(j, (s[j].0, b))) == history_map_of(s).insert(s[j].0, b@),
    {
        let p = s[j].0;
        let s2 = s.update(j, (p, b));
        let m1 = history_map_of(s2);
        let m2 = history_map_of(s).insert(p, b@);
        assert forall|i: int, k: int| 0 <= i < k < s2.len() implies (#[trigger] s2[i]).0 != (
        #[trigger] s2[k]).0 by {
            assert(s2[i].0 == s[i].0 && s2[k].0 == s[k].0);
        }
        assert forall|q: PawnKey| m1.contains_key(q) implies m2.contains_key(q) && m1[q]
            == m2[q] by {
            let iw = choose|i: int| 0 <= i < s2.len() && (#[trigger] s2[i]).0 == q;
            assert(0 <= iw < s2.len() && s2[iw].0 == q);
            if iw == j {
                assert(q == p && m1[q] == b@);
            } else {
                assert(s2[iw] == s[iw]);
                assert(q != p);
                let i0 = choose|i: int| 0 <= i < s.len() && (#[trigger] s[i]).0 == q;
                assert(0 <= i0 < s.len() && s[i0].0 == q);
                assert(i0 == iw);
                assert(m1[q] == s2[iw].1@ && m2[q] == s[i0].1@);
            }
        }
        assert forall|q: PawnKey| m2.contains_key(q) implies m1.contains_key(q) by {
            if q == p {
                assert(s2[j].0 == p);
            } else {
                let i0 = choose|i: int| 0 <= i < s.len() && (#[trigger] s[i]).0 == q;
                assert(0 <= i0 < s.len() && s[i0].0 == q);
                assert(i0 != j);
                assert(s2[i0] == s[i0]);
            }
        }
        assert(m1 =~= m2);
    }

    /// Removing the pair at a key's index removes that key from the
    /// denoted map.
    proof fn lemma_history_remove(s: Seq<(PawnKey, SequenceBuffer<Rc<C>>)>, j: int)
        requires
            keys_unique(s),
            0 <= j < s.len(),
        ensures
            keys_unique(s.remove(j)),
            history_map_of(s.remove(j)) == history_map_of(s).remove(s[j].0),
    {
        let p = s[j].0;
        let s2 = s.remove(j);
        let m1 = history_map_of(s2);
        let m2 = history_map_of(s).remove(p);
        assert forall|i: int, k: int| 0 <= i < k < s2.len() implies (#[trigger] s2[i]).0 != (
        #[trigger] s2[k]).0 by {
            let iorig = if i < j { i } else { i + 1 };
            let korig = if k < j { k } else { k + 1 };
            assert(s2[i] == s[iorig] && s2[k] == s[korig]);
        }
        assert forall|q: PawnKey| m1.contains_key(q) implies m2.contains_key(q) && m1[q]
            == m2[q] by {
            let iw = choose|i: int| 0 <= i < s2.len() && (#[trigger] s2[i]).0 == q;
            assert(0 <= iw < s2.len() && s2[iw].0 == q);
            let iorig = if iw < j { iw } else { iw + 1 };
            assert(s2[iw] == s[iorig] && 0 <= iorig < s.len());
            assert(iorig != j);
            assert(q != p);
            let i0 = choose|i: int| 0 <= i < s.len() && (#[trigger] s[i]).0 == q;
            assert(0 <= i0 < s.len() && s[i0].0 == q);
            assert(i0 == iorig);
            assert(m1[q] == s2[iw].1@);
            assert(m2[q] == s[i0].1@);
        }
        assert forall|q: PawnKey| m2.contains_key(q) implies m1.contains_key(q) by {
            let i0 = choose|i: int| 0 <= i < s.len() && (#[trigger] s[i]).0 == q;
            assert(0 <= i0 < s.len() && s[i0].0 == q);
            assert(q != p);
            assert(i0 != j);
            let inew = if i0 < j { i0 } else { i0 - 1 };
            assert(s2[inew] == s[i0] && 0 <= inew < s2.len());
        }
        assert(m1 =~= m2);
    }

    /// Gets the next queued command, in strict arrival order.
    pub fn pop_command(&mut self) -> (r: Option<(u16, PawnKey, Rc<C>)>)
        ensures
            final (self).history() == old(self).history(),
            final (self).triggers() == old(self).triggers(),
            final (self).replays() == old(self).replays(),
            old(self).wf() ==> final (self).wf(),
            old(self).incoming().len() == 0 ==> r is None && final (self).incoming() == old(
                self,
            ).incoming(),
            old(self).incoming().len() > 0 ==> r == Some(old(self).incoming()[0]) && final (
            self).incoming() == old(self).incoming().drop_first(),
    {
        let r = self.queued_incoming_commands.pop_front();
        proof {
            if old(self).incoming().len() > 0 {
                assert(final (self).incoming() =~= old(self).incoming().drop_first());
            }
        }
        r
    }

    /// Gets the next queued replayed command, in strict replay order.
    pub fn pop_command_replay(&mut self) -> (r: Option<(u16, PawnKey, Rc<C>)>)
        ensures
            final (self).history() == old(self).history(),
            final (self).triggers() == old(self).triggers(),
            final (self).incoming() == old(self).incoming(),
            old(self).wf() ==> final (self).wf(),
            old(self).replays().len() == 0 ==> r is None && final (self).replays() == old(
                self,
            ).replays(),
            old(self).replays().len() > 0 ==> r == Some(old(self).replays()[0]) && final (
            self).replays() == old(self).replays().drop_first(),
    {
        let r = self.queued_command_replays.pop_front();
        proof {
            if old(self).replays().len() > 0 {
                assert(final (self).replays() =~= old(self).replays().drop_first());
            }
        }
        r
    }

    /// Queues a command to be run locally on the client: it is appended to
    /// the incoming queue, and additionally inserted into the pawn's history
    /// when the pawn is tracked. An untracked pawn's command is still queued
    /// but not retained.
    pub fn queue_command(&mut self, host_tick: u16, pawn_key: &PawnKey, command: &Rc<C>)
        requires
            old(self).wf(),
        ensures
            final (self).wf(),
            final (self).incoming() == old(self).incoming().push(
                (host_tick, *pawn_key, *command),
            ),
            final (self).replays() == old(self).replays(),
            final (self).triggers() == old(self).triggers(),
            final (self).history() == if old(self).history().contains_key(*pawn_key) {
                old(self).history().insert(
                    *pawn_key,
                    old(self).history()[*pawn_key].insert_spec(host_tick, *command),
                )
            } else {
                old(self).history()
            },
    {
        let cc = clone_rc(command);
        self.queued_incoming_commands.push_back((host_tick, *pawn_key, cc));
        match self.find_history(pawn_key) {
            Some(j) => {
                let ghost s = self.command_history@;
                let cc2 = clone_rc(command);
                self.command_history[j].1.insert(host_tick, cc2);
                proof {
                    assert(self.command_history@ =~= s.update(
                        j as int,
                        (s[j as int].0, self.command_history@[j as int].1),
                    ));
                    Self::lemma_history_update(s, j as int, self.command_history@[j as int].1);
                    old(self).lemma_history_lookup(j as int);
                }
            },
            None => {
                proof {
                    assert(!old(self).history().contains_key(*pawn_key));
                }
            },
        }
    }

    /// Number of commands currently retained for the pawn, zero when
    /// untracked; bounded by the history capacity.
    pub fn command_history_count(&self, pawn_key: &PawnKey) -> (r: u8)
        requires
            self.wf(),
        ensures
            r as int == if self.history().contains_key(*pawn_key) {
                self.history()[*pawn_key].occupied()
            } else {
                0
            },
            r as int <= COMMAND_HISTORY_SIZE as int,
    {
        match self.find_history(pawn_key) {
            Some(j) => {
                proof {
                    self.lemma_history_lookup(j as int);
                    self.command_history@[j as int].1@.lemma_occupied_bounded();
                }
                self.command_history[j].1.get_entries_count()
            },
            None => 0,
        }
    }

    /// What well-formedness guarantees to callers: the pending replay
    /// requests carry at most one tick per pawn, and every tracked pawn's
    /// history is a well-formed ring of `COMMAND_HISTORY_SIZE` slots.
    pub proof fn lemma_wf_facts(self)
        requires
            self.wf(),
        ensures
            keys_unique(self.triggers()),
            forall|p: PawnKey| #[trigger]
                self.history().contains_key(p) ==> self.history()[p].wf() && self.history()[
                    p
                ].cap() == COMMAND_HISTORY_SIZE as int,
    {
        assert forall|p: PawnKey| #[trigger]
            self.history().contains_key(p) implies self.history()[p].wf() && self.history()[
            p
        ].cap() == COMMAND_HISTORY_SIZE as int by {
            let s = self.command_history@;
            let iw = choose|i: int| 0 <= i < s.len() && (#[trigger] s[i]).0 == p;
            assert(0 <= iw < s.len() && s[iw].0 == p);
            self.lemma_history_lookup(iw);
        }
    }

    /// The pawn's retained commands as `(tick, command)` pairs, in
    /// ascending tick order under the window ending at the history's
    /// `sequence_num` (or descending with `reverse`); nothing when the pawn
    /// is untracked.
    #[verifier::loop_isolation(false)]
    pub fn command_history_iter(&self, pawn_key: &PawnKey, reverse: bool) -> (r: Option<
        Vec<(u16, Rc<C>)>,
    >)
        requires
            self.wf(),
        ensures
            r is Some <==> self.history().contains_key(*pawn_key),
            match r {
                Some(entries) => entries@ == if reverse {
                    self.history()[*pawn_key].window_entries().reverse()
                } else {
                    self.history()[*pawn_key].window_entries()
                },
                None => true,
            },
    {
        match self.find_history(pawn_key) {
            Some(j) => {
                proof {
                    self.lemma_history_lookup(j as int);
                }
                let ghost bufv = self.command_history@[j as int].1@;
                let seqn: u16 = self.command_history[j].1.sequence_num();
                let cap: u16 = self.command_history[j].1.capacity();
                let mut out: Vec<(u16, Rc<C>)> = Vec::new();
                let mut d: u16 = cap;
                proof {
                    assert(out@ =~= bufv.window_entries_from(cap as int));
                }
                while d > 0
                    invariant
                        d <= cap,
                        out@ == bufv.window_entries_from(d as int),
                    decreases d,
                {
                    let dd: u16 = d - 1;
                    let tick: u16 = if seqn >= dd {
                        seqn - dd
                    } else {
                        (seqn as u32 + 65536 - dd as u32) as u16
                    };
                    proof {
                        assert(tick == crate::sequence_buffer::tick_back(seqn, dd as int));
                    }
                    match self.command_history[j].1.get(tick) {
                        Some(c) => {
                            let cc = clone_rc(c);
                            out.push((tick, cc));
                        },
                        None => {},
                    }
                    proof {
                        assert(out@ =~= bufv.window_entries_from(dd as int));
                    }
                    d = dd;
                }
                if reverse {
                    let ghost full = out@;
                    let mut out2 = out;
                    let mut rev: Vec<(u16, Rc<C>)> = Vec::new();
                    proof {
                        assert(out2@ =~= full.take(out2@.len() as int));
                        assert(rev@ =~= full.reverse().take(rev@.len() as int));
                    }
                    while out2.len() > 0
                        invariant
                            rev@.len() + out2@.len() == full.len(),
                            out2@ == full.take(out2@.len() as int),
                            rev@ == full.reverse().take(rev@.len() as int),
                        decreases out2@.len(),
                    {
                        match out2.pop() {
                            Some(x) => {
                                rev.push(x);
                            },
                            None => {},
                        }
                        proof {
                            assert(out2@ =~= full.take(out2@.len() as int));
                            assert(rev@ =~= full.reverse().take(rev@.len() as int));
                        }
                    }
                    proof {
                        assert(rev@ =~= full.reverse());
                    }
                    Some(rev)
                } else {
                    Some(out)
                }
            },
            None => None,
        }
    }

    /// Records a replay request for `pawn_key` starting at `history_tick`.
    /// An earlier divergence report is never hidden by a later one: an
    /// existing request keeps the earlier of the two ticks under wrapping
    /// comparison.
    pub fn replay_commands(&mut self, history_tick: u16, pawn_key: &PawnKey)
        requires
            old(self).wf(),
        ensures
            final (self).wf(),
            final (self).incoming() == old(self).incoming(),
            final (self).replays() == old(self).replays(),
            final (self).history() == old(self).history(),
            final (self).triggers() == record_trigger(
                old(self).triggers(),
                *pawn_key,
                history_tick,
            ),
    {
        let ghost s = self.replay_trigger@;
        let n = self.replay_trigger.len();
        let mut j: usize = 0;
        while j < n
            invariant
                old(self).wf(),
                *self == *old(self),
                n == s.len(),
                j <= n,
                s == self.replay_trigger@,
                forall|i: int| 0 <= i < j ==> (#[trigger] s[i]).0 != *pawn_key,
            decreases n - j,
        {
            if self.replay_trigger[j].0 == *pawn_key {
                let stored = self.replay_trigger[j].1;
                if wrapping_diff(stored, history_tick) > 0 {
                    self.replay_trigger[j] = (*pawn_key, history_tick);
                } else {
                    self.replay_trigger[j] = (*pawn_key, stored);
                }
                proof {
                    assert(self.replay_trigger@ == s.update(
                        j as int,
                        (*pawn_key, earlier_tick(stored, history_tick)),
                    ));
                    Self::lemma_record_trigger_update(s, *pawn_key, history_tick, j as int);
                    assert forall|i1: int, i2: int|
                        0 <= i1 < i2 < self.replay_trigger@.len() implies (
                    #[trigger] self.replay_trigger@[i1]).0 != (
                    #[trigger] self.replay_trigger@[i2]).0 by {
                        assert(self.replay_trigger@[i1].0 == s[i1].0);
                        assert(self.replay_trigger@[i2].0 == s[i2].0);
                    }
                }
                return ;
            }
            j += 1;
        }
        self.replay_trigger.push((*pawn_key, history_tick));
        proof {
            Self::lemma_record_trigger_push(s, *pawn_key, history_tick);
            assert forall|i1: int, i2: int|
                0 <= i1 < i2 < self.replay_trigger@.len() implies (
            #[trigger] self.replay_trigger@[i1]).0 != (#[trigger] self.replay_trigger@[i2]).0 by {
                assert(self.replay_trigger@[i1] == s[i1]);
                if i2 < s.len() {
                    assert(self.replay_trigger@[i2] == s[i2]);
                }
            }
        }
    }

    /// Recording a request for a pawn already pending replaces its entry,
    /// in place, with the earlier of the two ticks.
    proof fn lemma_record_trigger_update(s: Seq<(PawnKey, u16)>, p: PawnKey, h: u16, j: int)
        requires
            0 <= j < s.len(),
            s[j].0 == p,
            forall|i: int| 0 <= i < j ==> (#[trigger] s[i]).0 != p,
        ensures
            record_trigger(s, p, h) == s.update(j, (p, earlier_tick(s[j].1, h))),
        decreases s.len(),
    {
        if j == 0 {
            assert(record_trigger(s, p, h) =~= s.update(0, (p, earlier_tick(s[0].1, h))));
        } else {
            Self::lemma_record_trigger_update(s.drop_first(), p, h, j - 1);
            assert(record_trigger(s, p, h) =~= s.update(j, (p, earlier_tick(s[j].1, h))));
        }
    }

    /// Recording a request for a pawn with none pending appends it.
    proof fn lemma_record_trigger_push(s: Seq<(PawnKey, u16)>, p: PawnKey, h: u16)
        requires
            forall|i: int| 0 <= i < s.len() ==> (#[trigger] s[i]).0 != p,
        ensures
            record_trigger(s, p, h) == s.push((p, h)),
        decreases s.len(),
    {
        if s.len() == 0 {
            assert(record_trigger(s, p, h) =~= s.push((p, h)));
        } else {
            Self::lemma_record_trigger_push(s.drop_first(), p, h);
            assert(record_trigger(s, p, h) =~= s.push((p, h)));
        }
    }

    /// Forgets the pawn's history entries strictly older than
    /// `history_tick`; no effect when untracked.
    pub fn remove_history_until(&mut self, history_tick: u16, pawn_key: &PawnKey)
        requires
            old(self).wf(),
        ensures
            final (self).wf(),
            final (self).incoming() == old(self).incoming(),
            final (self).replays() == old(self).replays(),
            final (self).triggers() == old(self).triggers(),
            final (self).history() == if old(self).history().contains_key(*pawn_key) {
                old(self).history().insert(
                    *pawn_key,
                    old(self).history()[*pawn_key].remove_until_spec(history_tick),
                )
            } else {
                old(self).history()
            },
    {
        match self.find_history(pawn_key) {
            Some(j) => {
                let ghost s = self.command_history@;
                self.command_history[j].1.remove_until(history_tick);
                proof {
                    assert(self.command_history@ =~= s.update(
                        j as int,
                        (s[j as int].0, self.command_history@[j as int].1),
                    ));
                    Self::lemma_history_update(s, j as int, self.command_history@[j as int].1);
                    old(self).lemma_history_lookup(j as int);
                }
            },
            None => {
                proof {
                    assert(!old(self).history().contains_key(*pawn_key));
                }
            },
        }
    }

    /// Starts (or resets) tracking of a pawn with an empty history buffer.
    /// Called when the server assigns the client ownership of the pawn.
    pub fn pawn_init(&mut self, pawn_key: &PawnKey)
        requires
            old(self).wf(),
        ensures
            final (self).wf(),
            final (self).incoming() == old(self).incoming(),
            final (self).replays() == old(self).replays(),
            final (self).triggers() == old(self).triggers(),
            final (self).history() == old(self).history().insert(
                *pawn_key,
                SeqBufView::fresh(COMMAND_HISTORY_SIZE as int),
            ),
    {
        let fresh_buffer = SequenceBuffer::with_capacity(COMMAND_HISTORY_SIZE);
        let ghost s = self.command_history@;
        match self.find_history(pawn_key) {
            Some(j) => {
                self.command_history[j] = (*pawn_key, fresh_buffer);
                proof {
                    assert(s[j as int].0 == *pawn_key);
                    assert(self.command_history@ =~= s.update(
                        j as int,
                        (s[j as int].0, self.command_history@[j as int].1),
                    ));
                    Self::lemma_history_update(s, j as int, self.command_history@[j as int].1);
                }
            },
            None => {
                self.command_history.push((*pawn_key, fresh_buffer));
                proof {
                    Self::lemma_history_push(s, *pawn_key, self.command_history@.last().1);
                }
            },
        }
    }

    /// Stops tracking a pawn: its history buffer and any pending replay
    /// request are removed. Commands already queued for it stay queued.
    /// Called on ownership loss.
    #[verifier::loop_isolation(false)]
    pub fn pawn_cleanup(&mut self, pawn_key: &PawnKey)
        requires
            old(self).wf(),
        ensures
            final (self).wf(),
            final (self).incoming() == old(self).incoming(),
            final (self).replays() == old(self).replays(),
            final (self).history() == old(self).history().remove(*pawn_key),
            final (self).triggers() == remove_trigger(old(self).triggers(), *pawn_key),
    {
        let ghost s = self.command_history@;
        match self.find_history(pawn_key) {
            Some(j) => {
                self.command_history.remove(j);
                proof {
                    Self::lemma_history_remove(s, j as int);
                    if self.history().contains_key(*pawn_key) {
                        let i = choose|i: int|
                            0 <= i < self.command_history@.len() && (
                            #[trigger] self.command_history@[i]).0 == *pawn_key;
                        let iorig = if i < j as int {
                            i
                        } else {
                            i + 1
                        };
                        assert(s[iorig] == self.command_history@[i]);
                    }
                }
            },
            None => {
                proof {
                    assert(!old(self).history().contains_key(*pawn_key));
                    assert(old(self).history().remove(*pawn_key) =~= old(self).history());
                }
            },
        }
        let ghost t = self.replay_trigger@;
        let ghost mid_ch = self.command_history@;
        let ghost mid_inc = self.queued_incoming_commands@;
        let ghost mid_rep = self.queued_command_replays@;
        let n = self.replay_trigger.len();
        let mut j: usize = 0;
        while j < n
            invariant
                keys_unique(t),
                n == t.len(),
                j <= n,
                t == self.replay_trigger@,
                self.command_history@ == mid_ch,
                self.queued_incoming_commands@ == mid_inc,
                self.queued_command_replays@ == mid_rep,
                forall|i: int| 0 <= i < j ==> (#[trigger] t[i]).0 != *pawn_key,
            decreases n - j,
        {
            if self.replay_trigger[j].0 == *pawn_key {
                self.replay_trigger.remove(j);
                proof {
                    Self::lemma_remove_trigger_at(t, *pawn_key, j as int);
                    assert forall|i1: int, i2: int|
                        0 <= i1 < i2 < self.replay_trigger@.len() implies (
                    #[trigger] self.replay_trigger@[i1]).0 != (
                    #[trigger] self.replay_trigger@[i2]).0 by {
                        let o1 = if i1 < j as int {
                            i1
                        } else {
                            i1 + 1
                        };
                        let o2 = if i2 < j as int {
                            i2
                        } else {
                            i2 + 1
                        };
                        assert(self.replay_trigger@[i1] == t[o1]);
                        assert(self.replay_trigger@[i2] == t[o2]);
                    }
                }
                return ;
            }
            j += 1;
        }
        proof {
            Self::lemma_remove_trigger_absent(t, *pawn_key);
        }
    }

    /// The reconciliation pass, run once per tick after network events are
    /// drained and before command application. For each pending trigger
    /// `(p, h)` in order: the state manager resets `p` to the authoritative
    /// baseline, and if `p` is tracked, both queues are cleared and `p`'s
    /// retained commands for the wrapping-inclusive tick range from `h` up
    /// to its history's `sequence_num` are appended to the replay queue in
    /// ascending wrapping tick order, as [`apply_triggers`] says. All
    /// triggers are then cleared, so a second pass with no new replay
    /// request leaves both queues alone.
    #[verifier::loop_isolation(false)]
    pub fn process_command_replay<M: StateManager>(&mut self, state_manager: &mut M)
        requires
            old(self).wf(),
        ensures
            final (self).wf(),
            final (self).history() == old(self).history(),
            final (self).triggers() == Seq::<(PawnKey, u16)>::empty(),
            ({
                let r = apply_triggers(
                    old(self).incoming(),
                    old(self).replays(),
                    old(self).history(),
                    old(self).triggers(),
                );
                final (self).incoming() == r.0 && final (self).replays() == r.1
            }),
    {
        let ghost inc0 = self.incoming();
        let ghost rep0 = self.replays();
        let ghost hist0 = self.history();
        let ghost trig0 = self.triggers();
        let n = self.replay_trigger.len();
        let mut k: usize = 0;
        proof {
            assert(trig0.skip(0) =~= trig0);
        }
        while k < n
            invariant
                k <= n,
                self.command_history@ == old(self).command_history@,
                self.replay_trigger@ == trig0,
                apply_triggers(inc0, rep0, hist0, trig0) == apply_triggers(
                    self.incoming(),
                    self.replays(),
                    hist0,
                    trig0.skip(k as int),
                ),
            decreases n - k,
        {
            let p = self.replay_trigger[k].0;
            let h = self.replay_trigger[k].1;
            match p {
                PawnKey::State(object_key) => state_manager.pawn_reset(object_key),
                PawnKey::Entity(entity_key) => state_manager.pawn_reset_entity(entity_key),
            }
            let ghost inc_k = self.incoming();
            let ghost rep_k = self.replays();
            match self.find_history(&p) {
                Some(j) => {
                    proof {
                        self.lemma_history_lookup(j as int);
                    }
                    self.queued_incoming_commands.clear();
                    self.queued_command_replays.clear();
                    let current: u16 = self.command_history[j].1.sequence_num();
                    let ghost bufv = self.command_history@[j as int].1@;
                    // Walk the wrapping-inclusive tick range [h, current]
                    // by decreasing distance behind `current`: oldest first.
                    let dr: i32 = wrapping_diff(current, h);
                    let mut d: i32 = dr;
                    proof {
                        assert(self.queued_command_replays@ =~= tag_entries(
                            p,
                            bufv.entries_back(dr as int, d as int + 1),
                        ));
                    }
                    while d >= 0
                        invariant
                            d as int <= dr as int,
                            -1 <= d as int || d == dr,
                            dr as int == wrapping_diff_spec(current, h),
                            self.command_history@ == old(self).command_history@,
                            self.replay_trigger@ == trig0,
                            self.queued_incoming_commands@.len() == 0,
                            self.queued_command_replays@ == tag_entries(
                                p,
                                bufv.entries_back(dr as int, d as int + 1),
                            ),
                        decreases d as int + 1,
                    {
                        let dd: u16 = d as u16;
                        let tick: u16 = if current >= dd {
                            current - dd
                        } else {
                            ((current as u32 + 65536) - dd as u32) as u16
                        };
                        proof {
                            assert(tick == crate::sequence_buffer::tick_back(current, d as int));
                        }
                        match self.command_history[j].1.get(tick) {
                            Some(c) => {
                                let cc = clone_rc(c);
                                self.queued_command_replays.push_back((tick, p, cc));
                            },
                            None => {},
                        }
                        proof {
                            assert(bufv.entries_back(dr as int, d as int) == bufv.entries_back(
                                dr as int,
                                d as int + 1,
                            ) + match bufv.entry_at(tick) {
                                Some(v) => seq![(tick, v)],
                                None => Seq::<(u16, Rc<C>)>::empty(),
                            });
                            assert(self.queued_command_replays@ =~= tag_entries(
                                p,
                                bufv.entries_back(dr as int, d as int),
                            ));
                        }
                        d = d - 1;
                    }
                    proof {
                        assert(trig0.skip(k as int).drop_first() =~= trig0.skip(k as int + 1));
                        assert(trig0.skip(k as int)[0] == (p, h));
                        assert(hist0.contains_key(p) && hist0[p] == bufv);
                        assert(current == bufv.sequence_num);
                        assert(self.queued_incoming_commands@ =~= Seq::<
                            (u16, PawnKey, Rc<C>),
                        >::empty());
                        assert(self.replays() == tag_entries(p, bufv.replay_entries(h)));
                        assert(apply_triggers(inc_k, rep_k, hist0, trig0.skip(k as int))
                            == apply_triggers(
                            self.incoming(),
                            self.replays(),
                            hist0,
                            trig0.skip(k as int + 1),
                        ));
                    }
                },
                None => {
                    proof {
                        assert(!hist0.contains_key(p));
                        assert(trig0.skip(k as int).drop_first() =~= trig0.skip(k as int + 1));
                        assert(trig0.skip(k as int)[0] == (p, h));
                        assert(apply_triggers(inc_k, rep_k, hist0, trig0.skip(k as int))
                            == apply_triggers(
                            self.incoming(),
                            self.replays(),
                            hist0,
                            trig0.skip(k as int + 1),
                        ));
                    }
                },
            }
            k += 1;
        }
        self.replay_trigger.clear();
        proof {
            assert(trig0.skip(n as int) =~= Seq::<(PawnKey, u16)>::empty());
            assert(final (self).triggers() =~= Seq::<(PawnKey, u16)>::empty());
        }
    }

    /// Removing a pawn's pending request deletes exactly its entry when it
    /// is the first occurrence and keys before it differ.
    proof fn lemma_remove_trigger_at(s: Seq<(PawnKey, u16)>, p: PawnKey, j: int)
        requires
            keys_unique(s),
            0 <= j < s.len(),
            s[j].0 == p,
            forall|i: int| 0 <= i < j ==> (#[trigger] s[i]).0 != p,
        ensures
            remove_trigger(s, p) == s.remove(j),
        decreases s.len(),
    {
        if j == 0 {
            Self::lemma_remove_trigger_absent(s.drop_first(), p);
            assert(remove_trigger(s, p) =~= s.remove(0));
        } else {
            Self::lemma_remove_trigger_at(s.drop_first(), p, j - 1);
            assert(remove_trigger(s, p) =~= s.remove(j));
        }
    }

    /// Removing a pawn with no pending request is a no-op.
    proof fn lemma_remove_trigger_absent(s: Seq<(PawnKey, u16)>, p: PawnKey)
        requires
            forall|i: int| 0 <= i < s.len() ==> (#[trigger] s[i]).0 != p,
        ensures
            remove_trigger(s, p) == s,
        decreases s.len(),
    {
        if s.len() > 0 {
            Self::lemma_remove_trigger_absent(s.drop_first(), p);
            assert(remove_trigger(s, p) =~= s);
        }
    }
}

} // verus!
