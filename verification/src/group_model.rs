//! A whole group of sinks as a state machine over plain values: any number of
//! sinks that take chunks in any order and are folded into one at the end.

use vstd::multiset::Multiset;
use vstd::prelude::*;
use crate::chunk::Chunk;
use crate::chunk::all_rows;
use crate::model::SortState;
use crate::model::lemma_combine_keeps_rows;
use crate::model::lemma_sink_keeps_rows;
use crate::order::lemma_same_rows_multiset;
use crate::order::lemma_stable_sorted;
use crate::order::stable_sorted;
use crate::row::Row;

verus! {

/// What one sink of a group holds by itself.
#[verifier::ext_equal]
pub struct SinkPart {
    /// Whether the sink is out of core.
    pub ooc: bool,
    /// The chunks buffered in memory, oldest first.
    pub buffered: Seq<Chunk>,
    /// The keys sampled.
    pub sample: Seq<Option<i64>>,
}

/// What happens to a group: one of its sinks takes a chunk, or one of its
/// sinks is folded into another.
pub enum SinkEvent {
    /// Sink `who` takes `chunk`; `over` says whether the group is over its
    /// memory budget with it.
    Sink { who: int, chunk: Chunk, over: bool },
    /// Sink `from` is folded into sink `into`.
    Combine { into: int, from: int },
}

/// The sinks of a group and the chunks that the group has spilled.
#[verifier::ext_equal]
pub struct GroupState {
    /// The chunks spilled, oldest first.
    pub spilled: Seq<Chunk>,
    /// The sinks.
    pub sinks: Seq<SinkPart>,
}

/// The rows buffered by `sinks`, as a multiset.
pub open spec fn part_rows(sinks: Seq<SinkPart>) -> Multiset<Row>
    decreases sinks.len(),
{
    if sinks.len() == 0 {
        Multiset::empty()
    } else {
        part_rows(sinks.drop_last()).add(all_rows(sinks.last().buffered).to_multiset())
    }
}

/// The rows that `event` brings into the group: those of the chunk taken, or
/// none where a sink is folded into another.
pub open spec fn rows_of_event(event: SinkEvent) -> Multiset<Row> {
    match event {
        SinkEvent::Sink { who, chunk, over } => chunk@.to_multiset(),
        SinkEvent::Combine { into, from } => Multiset::empty(),
    }
}

/// The rows of the chunks that the sinks take in `events`, as a multiset.
pub open spec fn event_rows(events: Seq<SinkEvent>) -> Multiset<Row>
    decreases events.len(),
{
    if events.len() == 0 {
        Multiset::empty()
    } else {
        event_rows(events.drop_last()).add(rows_of_event(events.last()))
    }
}

impl GroupState {
    /// A group of sinks that have taken nothing; sink `i` is out of core from
    /// the start if `forced[i]`.
    pub open spec fn fresh(forced: Seq<bool>) -> GroupState {
        GroupState {
            spilled: Seq::<Chunk>::empty(),
            sinks: Seq::new(
                forced.len(),
                |i: int|
                    SinkPart {
                        ooc: forced[i],
                        buffered: Seq::<Chunk>::empty(),
                        sample: Seq::<Option<i64>>::empty(),
                    },
            ),
        }
    }

    /// Sink `i` together with the spilled chunks of the group.
    pub open spec fn sink_state(self, i: int) -> SortState {
        SortState {
            ooc: self.sinks[i].ooc,
            buffered: self.sinks[i].buffered,
            spilled: self.spilled,
            sample: self.sinks[i].sample,
        }
    }

    /// The group with sink `i` and the spilled chunks as `s` has them.
    pub open spec fn put(self, i: int, s: SortState) -> GroupState {
        GroupState {
            spilled: s.spilled,
            sinks: self.sinks.update(i, SinkPart { ooc: s.ooc, buffered: s.buffered, sample: s.sample }),
        }
    }

    /// Whether `event` names sinks of the group, two of them where it folds
    /// one into another.
    pub open spec fn admits(self, event: SinkEvent) -> bool {
        match event {
            SinkEvent::Sink { who, chunk, over } => 0 <= who < self.sinks.len(),
            SinkEvent::Combine { into, from } => 0 <= into < self.sinks.len() && 0 <= from
                < self.sinks.len() && into != from,
        }
    }

    /// The group after `event`.
    pub open spec fn step(self, event: SinkEvent, idx: int) -> GroupState {
        match event {
            SinkEvent::Sink { who, chunk, over } => self.put(who, self.sink_state(who).sink(chunk, over, idx)),
            SinkEvent::Combine { into, from } => {
                let folded = self.sinks[from];
                let joined = self.put(
                    into,
                    self.sink_state(into).combine(folded.ooc, folded.buffered, folded.sample, idx),
                );
                GroupState {
                    spilled: joined.spilled,
                    sinks: joined.sinks.update(
                        from,
                        SinkPart {
                            ooc: folded.ooc,
                            buffered: Seq::<Chunk>::empty(),
                            sample: Seq::<Option<i64>>::empty(),
                        },
                    ),
                }
            },
        }
    }

    /// Whether each of `events` names sinks of the group.
    pub open spec fn admits_all(self, events: Seq<SinkEvent>) -> bool {
        forall|i: int| 0 <= i < events.len() ==> self.admits(#[trigger] events[i])
    }

    /// The group after `events`, one after the other.
    pub open spec fn run(self, events: Seq<SinkEvent>, idx: int) -> GroupState
        decreases events.len(),
    {
        if events.len() == 0 {
            self
        } else {
            self.run(events.drop_last(), idx).step(events.last(), idx)
        }
    }

    /// All rows that the group holds, spilled or buffered, as a multiset.
    pub open spec fn total(self) -> Multiset<Row> {
        all_rows(self.spilled).to_multiset().add(part_rows(self.sinks))
    }

    /// Every sink that is out of core buffers nothing, and chunks are spilled
    /// only where a sink is out of core.
    pub open spec fn settled(self) -> bool {
        &&& forall|i: int| 0 <= i < self.sinks.len() ==> (#[trigger] self.sinks[i]).ooc ==> self.sinks[i].buffered.len() == 0
        &&& self.spilled.len() > 0 ==> exists|i: int| 0 <= i < self.sinks.len() && (#[trigger] self.sinks[i]).ooc
    }

    /// Whether sink `w` is the one left: every other sink buffers nothing,
    /// and `w` is out of core if any sink is.
    pub open spec fn survivor(self, w: int) -> bool {
        &&& 0 <= w < self.sinks.len()
        &&& forall|i: int| 0 <= i < self.sinks.len() && i != w ==> (#[trigger] self.sinks[i]).buffered.len() == 0
        &&& forall|i: int| 0 <= i < self.sinks.len() && (#[trigger] self.sinks[i]).ooc ==> self.sinks[w].ooc
    }
}

/// No chunks hold no rows.
pub proof fn lemma_no_rows()
    ensures
        all_rows(Seq::<Chunk>::empty()) == Seq::<Row>::empty(),
        Seq::<Row>::empty().to_multiset() == Multiset::<Row>::empty(),
{
    broadcast use vstd::multiset::group_multiset_axioms;

    vstd::seq_lib::to_multiset_len(Seq::<Row>::empty());
    assert(all_rows(Seq::<Chunk>::empty()) =~= Seq::<Row>::empty());
    assert(Seq::<Row>::empty().to_multiset() =~= Multiset::<Row>::empty());
}

/// The rows buffered by the sinks, with one sink exchanged.
pub proof fn lemma_part_rows_update(sinks: Seq<SinkPart>, i: int, part: SinkPart)
    requires
        0 <= i < sinks.len(),
    ensures
        part_rows(sinks.update(i, part)).add(all_rows(sinks[i].buffered).to_multiset()) == part_rows(sinks).add(
            all_rows(part.buffered).to_multiset(),
        ),
    decreases sinks.len(),
{
    broadcast use vstd::multiset::group_multiset_axioms;

    let changed = sinks.update(i, part);
    let was = all_rows(sinks[i].buffered).to_multiset();
    let is = all_rows(part.buffered).to_multiset();
    let rest = sinks.drop_last();
    if i == sinks.len() - 1 {
        assert(changed.drop_last() =~= rest);
        assert(changed.last() == part);
        assert forall|r: Row| part_rows(changed).add(was).count(r) == part_rows(sinks).add(is).count(r) by {
            assert(part_rows(changed) == part_rows(rest).add(is));
            assert(part_rows(sinks) == part_rows(rest).add(was));
        }
    } else {
        assert(changed.drop_last() =~= rest.update(i, part));
        assert(changed.last() == sinks.last());
        assert(rest[i] == sinks[i]);
        lemma_part_rows_update(rest, i, part);
        let tail = all_rows(sinks.last().buffered).to_multiset();
        assert forall|r: Row| part_rows(changed).add(was).count(r) == part_rows(sinks).add(is).count(r) by {
            assert(part_rows(changed) == part_rows(rest.update(i, part)).add(tail));
            assert(part_rows(sinks) == part_rows(rest).add(tail));
            assert(part_rows(rest.update(i, part)).add(was).count(r) == part_rows(rest).add(is).count(r));
        }
    }
    assert(part_rows(changed).add(was) =~= part_rows(sinks).add(is));
}

/// Sinks that buffer nothing but for one buffer the rows of that one.
pub proof fn lemma_part_rows_of_one(sinks: Seq<SinkPart>, w: int)
    requires
        0 <= w < sinks.len(),
        forall|i: int| 0 <= i < sinks.len() && i != w ==> (#[trigger] sinks[i]).buffered.len() == 0,
    ensures
        part_rows(sinks) == all_rows(sinks[w].buffered).to_multiset(),
    decreases sinks.len(),
{
    broadcast use vstd::multiset::group_multiset_axioms;

    let rest = sinks.drop_last();
    lemma_no_rows();
    if w == sinks.len() - 1 {
        lemma_part_rows_of_none(rest);
        assert(part_rows(sinks) =~= all_rows(sinks[w].buffered).to_multiset());
    } else {
        assert(rest[w] == sinks[w]);
        assert forall|i: int| 0 <= i < rest.len() && i != w implies (#[trigger] rest[i]).buffered.len() == 0 by {
            assert(rest[i] == sinks[i]);
        }
        lemma_part_rows_of_one(rest, w);
        assert(sinks.last().buffered =~= Seq::<Chunk>::empty());
        assert(part_rows(sinks) =~= all_rows(sinks[w].buffered).to_multiset());
    }
}

/// Sinks that buffer nothing buffer no rows.
pub proof fn lemma_part_rows_of_none(sinks: Seq<SinkPart>)
    requires
        forall|i: int| 0 <= i < sinks.len() ==> (#[trigger] sinks[i]).buffered.len() == 0,
    ensures
        part_rows(sinks) == Multiset::<Row>::empty(),
    decreases sinks.len(),
{
    broadcast use vstd::multiset::group_multiset_axioms;

    if sinks.len() > 0 {
        let rest = sinks.drop_last();
        assert forall|i: int| 0 <= i < rest.len() implies (#[trigger] rest[i]).buffered.len() == 0 by {
            assert(rest[i] == sinks[i]);
        }
        lemma_part_rows_of_none(rest);
        assert(sinks.last().buffered =~= Seq::<Chunk>::empty());
        lemma_no_rows();
        assert(part_rows(sinks) =~= Multiset::<Row>::empty());
    }
}

/// Whatever happens to a group, it holds the rows that it held and the rows
/// of the chunk that was taken, if one was; and it stays settled.
pub proof fn lemma_step_keeps_rows(g: GroupState, event: SinkEvent, idx: int)
    requires
        g.settled(),
        g.admits(event),
    ensures
        g.step(event, idx).total() == g.total().add(rows_of_event(event)),
        g.step(event, idx).settled(),
        g.step(event, idx).sinks.len() == g.sinks.len(),
        forall|i: int| 0 <= i < g.sinks.len() && (#[trigger] g.sinks[i]).ooc ==> g.step(event, idx).sinks[i].ooc,
{
    broadcast use vstd::multiset::group_multiset_axioms;

    let after = g.step(event, idx);
    lemma_no_rows();
    match event {
        SinkEvent::Sink { who, chunk, over } => {
            let s = g.sink_state(who);
            let t = s.sink(chunk, over, idx);
            lemma_sink_keeps_rows(s, chunk, over, idx);
            let part = SinkPart { ooc: t.ooc, buffered: t.buffered, sample: t.sample };
            lemma_part_rows_update(g.sinks, who, part);
            vstd::seq_lib::lemma_multiset_commutative(all_rows(t.spilled), all_rows(t.buffered));
            vstd::seq_lib::lemma_multiset_commutative(all_rows(s.spilled), all_rows(s.buffered));
            vstd::seq_lib::lemma_multiset_commutative(s.rows(), chunk@);
            let held = all_rows(s.buffered).to_multiset();
            let holds = all_rows(t.buffered).to_multiset();
            assert forall|r: Row| after.total().count(r) == g.total().add(chunk@.to_multiset()).count(r) by {
                assert(part_rows(after.sinks).add(held).count(r) == part_rows(g.sinks).add(holds).count(r));
                assert(t.rows().to_multiset().count(r) == s.rows().to_multiset().add(
                    chunk@.to_multiset(),
                ).count(r));
            }
            assert(after.total() =~= g.total().add(chunk@.to_multiset()));
            assert(after.sinks[who] == part);
            if after.spilled.len() > 0 {
                if t.ooc {
                    assert(after.sinks[who].ooc);
                } else {
                    let i = choose|i: int| 0 <= i < g.sinks.len() && (#[trigger] g.sinks[i]).ooc;
                    assert(after.sinks[i] == g.sinks[i]);
                    assert(after.sinks[i].ooc);
                }
            }
        },
        SinkEvent::Combine { into, from } => {
            let folded = g.sinks[from];
            let s = g.sink_state(into);
            let t = s.combine(folded.ooc, folded.buffered, folded.sample, idx);
            lemma_combine_keeps_rows(s, folded.ooc, folded.buffered, folded.sample, idx);
            let part = SinkPart { ooc: t.ooc, buffered: t.buffered, sample: t.sample };
            let emptied = SinkPart {
                ooc: folded.ooc,
                buffered: Seq::<Chunk>::empty(),
                sample: Seq::<Option<i64>>::empty(),
            };
            let joined = g.sinks.update(into, part);
            lemma_part_rows_update(g.sinks, into, part);
            assert(joined[from] == folded);
            lemma_part_rows_update(joined, from, emptied);
            assert(after.sinks =~= joined.update(from, emptied));
            vstd::seq_lib::lemma_multiset_commutative(all_rows(t.spilled), all_rows(t.buffered));
            vstd::seq_lib::lemma_multiset_commutative(all_rows(s.spilled), all_rows(s.buffered));
            vstd::seq_lib::lemma_multiset_commutative(s.rows(), all_rows(folded.buffered));
            let held = all_rows(s.buffered).to_multiset();
            let holds = all_rows(t.buffered).to_multiset();
            let gone = all_rows(folded.buffered).to_multiset();
            let none = all_rows(emptied.buffered).to_multiset();
            assert forall|r: Row| after.total().count(r) == g.total().count(r) by {
                assert(part_rows(joined).add(held).count(r) == part_rows(g.sinks).add(holds).count(r));
                assert(part_rows(after.sinks).add(gone).count(r) == part_rows(joined).add(none).count(r));
                assert(t.rows().to_multiset().count(r) == s.rows().to_multiset().add(gone).count(r));
                assert(none.count(r) == 0);
            }
            assert(after.total() =~= g.total());
            assert(after.total() =~= g.total().add(rows_of_event(event)));
            assert(after.sinks[into] == part);
            assert(after.sinks[from] == emptied);
            if !t.ooc {
                assert(!s.ooc && !folded.ooc);
                assert(t.spilled == g.spilled);
            }
            if after.spilled.len() > 0 {
                if t.ooc {
                    assert(after.sinks[into].ooc);
                } else {
                    let i = choose|i: int| 0 <= i < g.sinks.len() && (#[trigger] g.sinks[i]).ooc;
                    assert(after.sinks[i] == g.sinks[i]);
                    assert(after.sinks[i].ooc);
                }
            }
        },
    }
}

/// Whatever the sinks of a group take, in whatever order, and however they
/// are folded into one another: the group holds the rows that it held and
/// the rows of all chunks taken, and it stays settled.
pub proof fn lemma_run_keeps_rows(g: GroupState, events: Seq<SinkEvent>, idx: int)
    requires
        g.settled(),
        g.admits_all(events),
    ensures
        g.run(events, idx).total() == g.total().add(event_rows(events)),
        g.run(events, idx).settled(),
        g.run(events, idx).sinks.len() == g.sinks.len(),
        forall|i: int| 0 <= i < g.sinks.len() && (#[trigger] g.sinks[i]).ooc ==> g.run(events, idx).sinks[i].ooc,
    decreases events.len(),
{
    broadcast use vstd::multiset::group_multiset_axioms;

    if events.len() == 0 {
        assert(g.total().add(event_rows(events)) =~= g.total());
    } else {
        let before = g.run(events.drop_last(), idx);
        assert(g.admits_all(events.drop_last())) by {
            assert forall|i: int| 0 <= i < events.drop_last().len() implies g.admits(
                #[trigger] events.drop_last()[i],
            ) by {
                assert(events.drop_last()[i] == events[i]);
            }
        }
        lemma_run_keeps_rows(g, events.drop_last(), idx);
        assert(g.admits(events.last()));
        assert(before.admits(events.last()));
        lemma_step_keeps_rows(before, events.last(), idx);
        assert(g.run(events, idx).total() =~= g.total().add(event_rows(events)));
    }
}

/// No row is lost and none is made up in a group: once one sink is left,
/// the rows that it sorts at the end are, as a multiset, the rows of all
/// chunks that the sinks of the group took; and so are, without a slice, the
/// rows that it hands out.
pub proof fn lemma_group_no_data_loss(
    forced: Seq<bool>,
    events: Seq<SinkEvent>,
    w: int,
    idx: int,
    descending: bool,
    nulls_last: bool,
)
    requires
        GroupState::fresh(forced).admits_all(events),
        GroupState::fresh(forced).run(events, idx).survivor(w),
    ensures
        GroupState::fresh(forced).run(events, idx).sink_state(w).held_rows().to_multiset() == event_rows(events),
        GroupState::fresh(forced).run(events, idx).sink_state(w).result(idx, descending, nulls_last, None).to_multiset()
            == event_rows(events),
{
    broadcast use vstd::multiset::group_multiset_axioms;

    let start = GroupState::fresh(forced);
    lemma_no_rows();
    lemma_part_rows_of_none(start.sinks);
    assert(start.total() =~= Multiset::<Row>::empty());
    lemma_run_keeps_rows(start, events, idx);
    let end = start.run(events, idx);
    assert(end.total() =~= event_rows(events));
    lemma_part_rows_of_one(end.sinks, w);
    let s = end.sink_state(w);
    if s.ooc {
        assert(s.buffered.len() == 0);
        assert(s.buffered =~= Seq::<Chunk>::empty());
        assert(end.total() =~= all_rows(end.spilled).to_multiset());
    } else {
        assert(end.spilled.len() == 0);
        assert(end.spilled =~= Seq::<Chunk>::empty());
        assert(end.total() =~= all_rows(s.buffered).to_multiset());
    }
    lemma_stable_sorted(s.held_rows(), idx, descending, nulls_last);
    lemma_same_rows_multiset(stable_sorted(s.held_rows(), idx, descending, nulls_last), s.held_rows(), idx);
}

/// A sink folded into another leaves that one out of core if it was so
/// itself: folding every other sink into one makes that one the sink left.
pub proof fn lemma_combine_makes_survivor(g: GroupState, into: int, from: int, idx: int)
    requires
        g.settled(),
        g.admits(SinkEvent::Combine { into, from }),
    ensures
        g.step(SinkEvent::Combine { into, from }, idx).sinks[from].buffered.len() == 0,
        g.sinks[from].ooc || g.sinks[into].ooc ==> g.step(SinkEvent::Combine { into, from }, idx).sinks[into].ooc,
{
}

} // verus!
