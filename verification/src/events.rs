use vstd::prelude::*;
use vstd::slice::{slice_index_get, slice_subrange, slice_to_vec};
use vstd::utf8::{valid_utf8, decode_utf8, encode_utf8};
use crate::text::string_from_utf8;
use vstd::string::StrSliceExecFns;
use vstd::string::StringExecFns;
use crate::error::Error;
use crate::text::{
    append_hex16, append_u64_pad, lemma_lex_le_total, lemma_lex_le_trans, lex_le,
    parse_u64_range, push_char, spec_dec_pad, spec_hex16, spec_lex_le, spec_name_hash,
    spec_parse_digits, hash_of_str,
};
use crate::csv::CsvObject;
use vstd::multiset::Multiset;
use crate::time::{
    civil_from_days, spec_civil_from_days, spec_civil_to_unix, spec_valid_civil,
    ymd_hms_to_unix_seconds,
};

verus! {

/// The recurrence metadata of an event: the next firing time in seconds
/// since the Unix epoch, an optional repeat period, an optional count of
/// firings left, and whether the event deletes itself after its last firing.
#[derive(Clone, Copy, Debug)]
pub struct ScheduledTrigger {
    pub next_trigger: u64,
    pub trigger_period: Option<u64>,
    pub triggers_remaining: Option<u16>,
    pub auto_delete: bool,
}

impl ScheduledTrigger {
    /// A period and a remaining count, when present, are strictly positive.
    pub open spec fn wf(&self) -> bool {
        &&& (self.trigger_period matches Some(p) ==> p > 0)
        &&& (self.triggers_remaining matches Some(n) ==> n > 0)
    }

    /// Builds a trigger from its four fields.
    pub fn new(
        next_trigger: u64,
        trigger_period: Option<u64>,
        triggers_remaining: Option<u16>,
        auto_delete: bool,
    ) -> (r: ScheduledTrigger)
        requires
            trigger_period matches Some(p) ==> p > 0,
            triggers_remaining matches Some(n) ==> n > 0,
        ensures
            r == (ScheduledTrigger { next_trigger, trigger_period, triggers_remaining, auto_delete }),
            r.wf(),
    {
        ScheduledTrigger { next_trigger, trigger_period, triggers_remaining, auto_delete }
    }

    /// The next firing time, in seconds since the Unix epoch.
    pub fn next_trigger_raw(&self) -> (r: u64)
        ensures
            r == self.next_trigger,
    {
        self.next_trigger
    }

    /// The repeat period in seconds, when the trigger repeats.
    pub fn trigger_period(&self) -> (r: Option<u64>)
        ensures
            r == self.trigger_period,
    {
        self.trigger_period
    }

    /// The number of firings left, or none for an unlimited trigger.
    pub fn triggers_remaining(&self) -> (r: Option<u16>)
        ensures
            r == self.triggers_remaining,
    {
        self.triggers_remaining
    }

    /// Whether the event deletes itself after its last scheduled firing.
    pub fn auto_delete(&self) -> (r: bool)
        ensures
            r == self.auto_delete,
    {
        self.auto_delete
    }
}

/// A named, optionally scheduled unit of playback.
#[derive(Debug)]
pub struct Event {
    /// The trigger of the event; an event without one never fires by itself.
    pub trigger: Option<ScheduledTrigger>,
    /// The display name of the event.
    pub name: String,
}

/// The next firing time of an event that has a trigger.
pub open spec fn next_of(e: Event) -> u64 {
    e.trigger->0.next_trigger
}

/// What one firing does to an event, and whether it was the last firing.
/// An event without a period loses its trigger and does not report a last
/// firing; a repeating event moves its next firing one period later, and a
/// remaining count of one reports the last firing while any larger count is
/// decremented.
pub open spec fn spec_fire(e: Event) -> (Event, bool) {
    match e.trigger {
        None => (e, false),
        Some(t) => match t.trigger_period {
            None => (Event { trigger: None, ..e }, false),
            Some(p) => {
                let t2 = ScheduledTrigger { next_trigger: (t.next_trigger + p) as u64, ..t };
                match t.triggers_remaining {
                    None => (Event { trigger: Some(t2), ..e }, false),
                    Some(n) => if n == 1 {
                        (Event { trigger: Some(t2), ..e }, true)
                    } else {
                        (
                            Event {
                                trigger: Some(
                                    ScheduledTrigger {
                                        triggers_remaining: Some((n - 1) as u16),
                                        ..t2
                                    },
                                ),
                                ..e
                            },
                            false,
                        )
                    },
                }
            },
        },
    }
}

impl Event {
    /// The trigger, when present, is well formed.
    pub open spec fn wf(&self) -> bool {
        self.trigger matches Some(t) ==> t.wf()
    }

    /// Builds an event from a name and an optional trigger.
    pub fn from_parts(name: String, trigger: Option<ScheduledTrigger>) -> (r: Event)
        ensures
            r.name == name,
            r.trigger == trigger,
    {
        Event { name, trigger }
    }

    /// The display name of the event.
    pub fn name(&self) -> (r: &str)
        ensures
            r@ == self.name@,
    {
        self.name.as_str()
    }

    /// Advances this event's trigger by one firing and reports whether that
    /// firing was the last one.
    pub fn update_trigger_time(&mut self) -> (r: bool)
        requires
            old(self).wf(),
            old(self).trigger matches Some(t) ==> (t.trigger_period matches Some(p)
                ==> t.next_trigger + p <= u64::MAX),
        ensures
            *final(self) == spec_fire(*old(self)).0,
            r == spec_fire(*old(self)).1,
    {
        match self.trigger {
            None => false,
            Some(t) => match t.trigger_period {
                None => {
                    self.trigger = None;
                    false
                },
                Some(p) => {
                    let mut t2: ScheduledTrigger = t;
                    t2.next_trigger = t.next_trigger + p;
                    match t.triggers_remaining {
                        None => {
                            self.trigger = Some(t2);
                            false
                        },
                        Some(n) => {
                            if n == 1 {
                                self.trigger = Some(t2);
                                true
                            } else {
                                t2.triggers_remaining = Some(n - 1);
                                self.trigger = Some(t2);
                                false
                            }
                        },
                    }
                },
            },
        }
    }
}

/// Every event of the sequence has a well-formed trigger.
pub open spec fn all_scheduled_wf(q: Seq<Event>) -> bool {
    forall|i: int|
        0 <= i < q.len() ==> (#[trigger] q[i]).trigger is Some && q[i].trigger->0.wf()
}

/// The events are ordered by non-decreasing next firing time.
pub open spec fn sorted_by_next(q: Seq<Event>) -> bool {
    forall|i: int, j: int|
        0 <= i <= j < q.len() ==> next_of(#[trigger] q[i]) <= next_of(#[trigger] q[j])
}

/// No event of the sequence has a trigger.
pub open spec fn all_unscheduled(q: Seq<Event>) -> bool {
    forall|i: int| 0 <= i < q.len() ==> (#[trigger] q[i]).trigger is None
}

/// Every period of the sequence leaves room up to the end of the `u64`
/// range above `now`, so that firing never overflows a timestamp.
pub open spec fn periods_fit(q: Seq<Event>, now: u64) -> bool {
    forall|i: int|
        0 <= i < q.len() ==> ((#[trigger] q[i]).trigger matches Some(t)
            ==> (t.trigger_period matches Some(p) ==> p <= u64::MAX - now))
}

/// What firing requires of a queue: well-formed triggers and periods that
/// cannot overflow past `now`.
pub open spec fn fire_pre(q: Seq<Event>, now: u64) -> bool {
    all_scheduled_wf(q) && periods_fit(q, now)
}

/// The position in front of which a new event with next firing time `x`
/// is placed: just before the first event strictly later than `x`.
pub open spec fn spec_insert_pos(q: Seq<Event>, x: u64) -> int
    decreases q.len(),
{
    if q.len() == 0 {
        0
    } else if x < next_of(q[0]) {
        0
    } else {
        1 + spec_insert_pos(q.drop_first(), x)
    }
}

/// A sorted insertion of one scheduled event.
pub open spec fn spec_insert_sorted(q: Seq<Event>, e: Event) -> Seq<Event> {
    q.insert(spec_insert_pos(q, next_of(e)), e)
}

/// The insert position is the first index whose event fires strictly later
/// than `x`.
pub proof fn lemma_insert_pos_props(q: Seq<Event>, x: u64)
    ensures
        0 <= spec_insert_pos(q, x) <= q.len(),
        forall|j: int| 0 <= j < spec_insert_pos(q, x) ==> next_of(#[trigger] q[j]) <= x,
        spec_insert_pos(q, x) < q.len() ==> x < next_of(q[spec_insert_pos(q, x)]),
    decreases q.len(),
{
    if q.len() == 0 {
    } else if x < next_of(q[0]) {
    } else {
        lemma_insert_pos_props(q.drop_first(), x);
        assert forall|j: int| 0 <= j < spec_insert_pos(q, x) implies next_of(#[trigger] q[j])
            <= x by {
            if j >= 1 {
                assert(q.drop_first()[j - 1] == q[j]);
                assert(next_of(q.drop_first()[j - 1]) <= x);
            }
        }
        if spec_insert_pos(q, x) < q.len() {
            assert(q.drop_first()[spec_insert_pos(q, x) - 1] == q[spec_insert_pos(q, x)]);
        }
    }
}

/// A scan that stopped at the first strictly later event found the insert
/// position.
pub proof fn lemma_insert_pos_first(q: Seq<Event>, x: u64, i: int)
    requires
        0 <= i <= q.len(),
        forall|j: int| 0 <= j < i ==> next_of(#[trigger] q[j]) <= x,
        i < q.len() ==> x < next_of(q[i]),
    ensures
        spec_insert_pos(q, x) == i,
    decreases q.len(),
{
    if q.len() == 0 {
    } else if x < next_of(q[0]) {
        assert(i == 0);
    } else {
        assert(i >= 1);
        let rest = q.drop_first();
        assert(forall|j: int| 0 <= j < rest.len() ==> #[trigger] rest[j] == q[j + 1]);
        lemma_insert_pos_first(rest, x, i - 1);
    }
}

/// Inserting a well-formed scheduled event at its position keeps the queue
/// sorted, keeps every trigger well formed, and keeps every period small
/// enough for `now`.
pub proof fn lemma_insert_sorted_props(q: Seq<Event>, e: Event, now: u64)
    requires
        sorted_by_next(q),
        all_scheduled_wf(q),
        e.trigger is Some,
        e.trigger->0.wf(),
    ensures
        spec_insert_sorted(q, e).len() == q.len() + 1,
        sorted_by_next(spec_insert_sorted(q, e)),
        all_scheduled_wf(spec_insert_sorted(q, e)),
        periods_fit(q, now) && (e.trigger->0.trigger_period matches Some(p) ==> p <= u64::MAX
            - now) ==> periods_fit(spec_insert_sorted(q, e), now),
        spec_insert_sorted(q, e).to_multiset() == q.to_multiset().insert(e),
{
    let x = next_of(e);
    let pos = spec_insert_pos(q, x);
    lemma_insert_pos_props(q, x);
    let q2 = spec_insert_sorted(q, e);
    assert(forall|i: int| 0 <= i < pos ==> #[trigger] q2[i] == q[i]);
    assert(q2[pos] == e);
    assert(forall|i: int| pos < i < q2.len() ==> #[trigger] q2[i] == q[i - 1]);
    assert forall|i: int, j: int| 0 <= i <= j < q2.len() implies next_of(#[trigger] q2[i])
        <= next_of(#[trigger] q2[j]) by {
        if i < pos {
            assert(next_of(q[i]) <= x);
        }
        if i == pos && j > pos {
            assert(x < next_of(q[pos]));
            assert(next_of(q[pos]) <= next_of(q[j - 1]));
        }
    }
    vstd::seq_lib::to_multiset_insert(q, pos, e);
}

/// How many due firings an event still owes at time `now`: zero when it
/// fires in the future, otherwise one more than the seconds it is overdue.
pub open spec fn gap(e: Event, now: u64) -> int {
    if next_of(e) <= now {
        now - next_of(e) + 1
    } else {
        0int
    }
}

/// The total overdue measure of a queue, which every firing strictly
/// decreases.
pub open spec fn phi(q: Seq<Event>, now: u64) -> int
    decreases q.len(),
{
    if q.len() == 0 {
        0int
    } else {
        gap(q[0], now) + phi(q.drop_first(), now)
    }
}

proof fn lemma_phi_nonneg(q: Seq<Event>, now: u64)
    ensures
        phi(q, now) >= 0,
    decreases q.len(),
{
    if q.len() > 0 {
        lemma_phi_nonneg(q.drop_first(), now);
    }
}

proof fn lemma_phi_insert(q: Seq<Event>, now: u64, e: Event, pos: int)
    requires
        0 <= pos <= q.len(),
    ensures
        phi(q.insert(pos, e), now) == phi(q, now) + gap(e, now),
    decreases pos,
{
    let q2 = q.insert(pos, e);
    if pos == 0 {
        assert(q2[0] == e);
        assert(q2.drop_first() =~= q);
    } else {
        assert(q2[0] == q[0]);
        assert(q2.drop_first() =~= q.drop_first().insert(pos - 1, e));
        lemma_phi_insert(q.drop_first(), now, e, pos - 1);
    }
}

/// Firing a due event under the firing precondition keeps its trigger well
/// formed, keeps its period in range, and lowers its owed measure.
proof fn lemma_fire_gap(e: Event, now: u64)
    requires
        e.trigger is Some,
        e.trigger->0.wf(),
        next_of(e) <= now,
        e.trigger->0.trigger_period matches Some(p) ==> p <= u64::MAX - now,
    ensures
        ({
            let f = spec_fire(e).0;
            f.trigger is Some ==> f.trigger->0.wf() && (f.trigger->0.trigger_period
                matches Some(p) ==> p <= u64::MAX - now) && gap(f, now) <= gap(e, now) - 1
        }),
{
}

proof fn lemma_fire_pre_drop(q: Seq<Event>, now: u64)
    requires
        fire_pre(q, now),
        q.len() > 0,
    ensures
        fire_pre(q.drop_first(), now),
        sorted_by_next(q) ==> sorted_by_next(q.drop_first()),
{
    assert(forall|j: int|
        0 <= j < q.drop_first().len() ==> #[trigger] q.drop_first()[j] == q[j + 1]);
}

/// The result of firing every due event of a queue: the events left
/// scheduled, the events that lost their trigger and move to the
/// unscheduled collection, and copies of every firing in order.
pub ghost struct FireOutcome {
    pub queue: Seq<Event>,
    pub moved: Seq<Event>,
    pub fired: Seq<Event>,
}

/// Fires the earliest scheduled event while it is due at `now`, advancing
/// or retiring its trigger after each firing: a retired or triggerless
/// event leaves the queue, a still-scheduled one is reinserted in order.
pub open spec fn spec_fire_all(q: Seq<Event>, now: u64) -> FireOutcome
    decreases phi(q, now)
        when fire_pre(q, now)
        via spec_fire_all_decreases
{
    if q.len() == 0 || now < next_of(q[0]) {
        FireOutcome { queue: q, moved: Seq::empty(), fired: Seq::empty() }
    } else {
        let e = q[0];
        let f = spec_fire(e).0;
        let last = spec_fire(e).1;
        let rest = q.drop_first();
        if last {
            let o = spec_fire_all(rest, now);
            FireOutcome { queue: o.queue, moved: o.moved, fired: seq![f] + o.fired }
        } else if f.trigger is None {
            let o = spec_fire_all(rest, now);
            FireOutcome { queue: o.queue, moved: seq![f] + o.moved, fired: seq![f] + o.fired }
        } else {
            let o = spec_fire_all(spec_insert_sorted(rest, f), now);
            FireOutcome { queue: o.queue, moved: o.moved, fired: seq![f] + o.fired }
        }
    }
}

#[via_fn]
proof fn spec_fire_all_decreases(q: Seq<Event>, now: u64) {
    if q.len() == 0 || now < next_of(q[0]) {
    } else {
        let e = q[0];
        let f = spec_fire(e).0;
        let last = spec_fire(e).1;
        let rest = q.drop_first();
        lemma_fire_pre_drop(q, now);
        lemma_phi_nonneg(rest, now);
        assert(gap(e, now) >= 1);
        assert(phi(rest, now) == phi(q, now) - gap(e, now));
        if !last && f.trigger is Some {
            lemma_fire_gap(e, now);
            let pos = spec_insert_pos(rest, next_of(f));
            lemma_insert_pos_props(rest, next_of(f));
            lemma_phi_insert(rest, now, f, pos);
            assert forall|i: int|
                0 <= i < spec_insert_sorted(rest, f).len() implies ((#[trigger] spec_insert_sorted(
                rest,
                f,
            )[i]).trigger is Some && spec_insert_sorted(rest, f)[i].trigger->0.wf()
                && (spec_insert_sorted(rest, f)[i].trigger matches Some(t)
                ==> (t.trigger_period matches Some(p) ==> p <= u64::MAX - now))) by {
                let q2 = spec_insert_sorted(rest, f);
                if i < pos {
                    assert(q2[i] == rest[i]);
                } else if i == pos {
                    assert(q2[i] == f);
                } else {
                    assert(q2[i] == rest[i - 1]);
                }
            }
        }
    }
}

/// The events of a list that have no trigger, in order.
pub open spec fn spec_partition_unscheduled(evs: Seq<Event>) -> Seq<Event> {
    evs.filter(|e: Event| e.trigger is None)
}

/// The events of a list that have a trigger, in order.
pub open spec fn spec_partition_scheduled(evs: Seq<Event>) -> Seq<Event> {
    evs.filter(|e: Event| e.trigger is Some)
}

/// Filtering a sequence extended by one element keeps the old filtered
/// prefix and appends the element exactly when it satisfies the predicate.
proof fn lemma_filter_push<A>(s: Seq<A>, pred: spec_fn(A) -> bool, e: A)
    ensures
        pred(e) ==> s.push(e).filter(pred) =~= s.filter(pred).push(e),
        !pred(e) ==> s.push(e).filter(pred) =~= s.filter(pred),
{
    reveal_with_fuel(Seq::filter, 2);
    assert(s.push(e).drop_last() =~= s);
    assert(s.push(e).last() == e);
}

/// A queue of events: the scheduled ones ordered by next firing time, and
/// the unscheduled ones, which never fire on their own.
#[derive(Debug)]
pub struct EventQueue {
    /// Events with triggers, sorted by next firing time.
    queued: Vec<Event>,
    /// Events without triggers.
    non_queued: Vec<Event>,
}

impl EventQueue {
    /// The scheduled events, in firing order.
    pub closed spec fn scheduled(&self) -> Seq<Event> {
        self.queued@
    }

    /// The unscheduled events, in arrival order.
    pub closed spec fn unscheduled(&self) -> Seq<Event> {
        self.non_queued@
    }

    /// Scheduled events all carry well-formed triggers and are sorted;
    /// unscheduled events carry none.
    pub open spec fn wf(&self) -> bool {
        &&& all_scheduled_wf(self.scheduled())
        &&& sorted_by_next(self.scheduled())
        &&& all_unscheduled(self.unscheduled())
    }

    /// Splits a list of events into the scheduled and unscheduled
    /// collections, ordering the scheduled ones by next firing time.
    pub fn new(events: Vec<Event>) -> (r: EventQueue)
        requires
            forall|i: int|
                0 <= i < events@.len() ==> ((#[trigger] events@[i]).trigger matches Some(t)
                    ==> t.wf()),
        ensures
            r.wf(),
            r.unscheduled() =~= spec_partition_unscheduled(events@),
            r.scheduled().to_multiset() == spec_partition_scheduled(events@).to_multiset(),
    {
        let mut queue = EventQueue { queued: Vec::new(), non_queued: Vec::new() };
        let mut rest: Vec<Event> = events;
        proof {
            assert(rest@.take(0int) =~= Seq::<Event>::empty());
            assert(Seq::<Event>::empty().filter(|e: Event| e.trigger is None)
                =~= Seq::<Event>::empty());
            assert(Seq::<Event>::empty().filter(|e: Event| e.trigger is Some)
                =~= Seq::<Event>::empty());
            Seq::<Event>::empty().to_multiset_ensures();
        }
        let ghost all: Seq<Event> = rest@;
        while rest.len() > 0
            invariant
                queue.wf(),
                all.len() >= rest@.len(),
                rest@ =~= all.skip(all.len() - rest@.len()),
                forall|k: int|
                    0 <= k < all.len() ==> ((#[trigger] all[k]).trigger matches Some(t)
                        ==> t.wf()),
                queue.unscheduled() =~= all.take(all.len() - rest@.len()).filter(
                    |e: Event| e.trigger is None,
                ),
                queue.scheduled().to_multiset() == all.take(all.len() - rest@.len()).filter(
                    |e: Event| e.trigger is Some,
                ).to_multiset(),
            decreases rest@.len(),
        {
            let ghost done: Seq<Event> = all.take(all.len() - rest@.len());
            let e: Event = rest.remove(0);
            proof {
                assert(e == all[done.len() as int]);
                assert(rest@ =~= all.skip(all.len() - rest@.len()));
                assert(all.take(done.len() + 1int) =~= done.push(e));
            }
            let ghost before_sched = queue.scheduled();
            let ghost before_unsched = queue.unscheduled();
            queue.insert_event(e);
            proof {
                let f_none = |ev: Event| ev.trigger is None;
                let f_some = |ev: Event| ev.trigger is Some;
                lemma_filter_push(done, f_none, e);
                lemma_filter_push(done, f_some, e);
                if e.trigger is None {
                    assert(queue.unscheduled() =~= before_unsched.push(e));
                    assert(done.push(e).filter(f_some) =~= done.filter(f_some));
                } else {
                    lemma_insert_sorted_props(before_sched, e, 0);
                    assert(done.push(e).filter(f_some) =~= done.filter(f_some).push(e));
                    done.filter(f_some).to_multiset_ensures();
                    assert(done.push(e).filter(f_some).to_multiset() == done.filter(
                        f_some,
                    ).to_multiset().insert(e));
                    assert(done.push(e).filter(f_none) =~= done.filter(f_none));
                }
            }
        }
        proof {
            assert(all.take(all.len() as int) =~= all);
        }
        queue
    }

    /// Places an event: one without a trigger joins the unscheduled
    /// collection, one with a trigger is inserted before the first
    /// scheduled event that fires strictly later.
    pub fn insert_event(&mut self, event: Event)
        requires
            old(self).wf(),
            event.trigger matches Some(t) ==> t.wf(),
        ensures
            final(self).wf(),
            event.trigger is None ==> final(self).unscheduled() == old(self).unscheduled().push(
                event,
            ) && final(self).scheduled() == old(self).scheduled(),
            event.trigger is Some ==> final(self).scheduled() == spec_insert_sorted(
                old(self).scheduled(),
                event,
            ) && final(self).unscheduled() == old(self).unscheduled(),
    {
        let is_scheduled: bool = match &event.trigger {
            Some(_) => true,
            None => false,
        };
        if !is_scheduled {
            self.non_queued.push(event);
            return;
        }
        let x: u64 = match &event.trigger {
            Some(t) => t.next_trigger,
            None => 0,
        };
        let pos: usize = find_insert_pos(&self.queued, x);
        proof {
            lemma_insert_pos_props(self.queued@, x);
        }
        self.queued.insert(pos, event);
        proof {
            lemma_insert_sorted_props(old(self).scheduled(), event, 0);
        }
    }
}

/// The index in front of the first scheduled event whose next firing lies
/// strictly after `x`.
fn find_insert_pos(q: &Vec<Event>, x: u64) -> (r: usize)
    requires
        all_scheduled_wf(q@),
    ensures
        r == spec_insert_pos(q@, x),
{
    let mut i: usize = 0;
    while i < q.len()
        invariant
            i <= q@.len(),
            all_scheduled_wf(q@),
            forall|j: int| 0 <= j < i ==> next_of(#[trigger] q@[j]) <= x,
        decreases q@.len() - i,
    {
        let nx: u64 = match &q[i].trigger {
            Some(t) => t.next_trigger,
            None => 0,
        };
        if x < nx {
            proof {
                lemma_insert_pos_first(q@, x, i as int);
            }
            return i;
        }
        i += 1;
    }
    proof {
        lemma_insert_pos_first(q@, x, i as int);
    }
    i
}

impl EventQueue {
    /// Fires every scheduled event that is due at `unix_time`, earliest
    /// first.  Each firing advances or retires the event's trigger: an event
    /// that keeps a trigger is reinserted in firing order, one that loses it
    /// joins the unscheduled collection, and one whose last firing was
    /// reported is dropped.  Returns a copy of every event as it was fired.
    pub fn trigger_events(&mut self, unix_time: u64) -> (r: Vec<Event>)
        requires
            old(self).wf(),
            periods_fit(old(self).scheduled(), unix_time),
        ensures
            final(self).wf(),
            ({
                let o = spec_fire_all(old(self).scheduled(), unix_time);
                &&& final(self).scheduled() == o.queue
                &&& final(self).unscheduled() == old(self).unscheduled() + o.moved
                &&& r@ == o.fired
            }),
    {
        let mut fired: Vec<Event> = Vec::new();
        let ghost orig_q: Seq<Event> = self.scheduled();
        let ghost orig_nq: Seq<Event> = self.unscheduled();
        loop
            invariant
                self.wf(),
                periods_fit(self.scheduled(), unix_time),
                orig_nq.len() <= self.unscheduled().len(),
                self.unscheduled().take(orig_nq.len() as int) =~= orig_nq,
                ({
                    let o_all = spec_fire_all(orig_q, unix_time);
                    let o_cur = spec_fire_all(self.scheduled(), unix_time);
                    &&& fire_pre(orig_q, unix_time)
                    &&& o_all.queue == o_cur.queue
                    &&& o_all.moved =~= self.unscheduled().skip(orig_nq.len() as int)
                        + o_cur.moved
                    &&& o_all.fired =~= fired@ + o_cur.fired
                }),
            ensures
                ({
                    let o_cur = spec_fire_all(self.scheduled(), unix_time);
                    &&& o_cur.queue == self.scheduled()
                    &&& o_cur.moved == Seq::<Event>::empty()
                    &&& o_cur.fired == Seq::<Event>::empty()
                }),
            decreases phi(self.scheduled(), unix_time),
        {
            let ghost pre_q: Seq<Event> = self.scheduled();
            let ghost pre_nq: Seq<Event> = self.unscheduled();
            if self.queued.len() == 0 {
                break;
            }
            let front_next: u64 = match &self.queued[0].trigger {
                Some(t) => t.next_trigger,
                None => 0,
            };
            if unix_time < front_next {
                break;
            }
            proof {
                lemma_fire_pre_drop(pre_q, unix_time);
                lemma_phi_nonneg(pre_q.drop_first(), unix_time);
            }
            let mut event: Event = self.queued.remove(0);
            proof {
                assert(self.scheduled() =~= pre_q.drop_first());
            }
            let last: bool = event.update_trigger_time();
            let name_copy: String = event.name.clone();
            let fired_copy: Event = Event { trigger: event.trigger, name: name_copy };
            proof {
                assert(fired_copy == spec_fire(pre_q[0]).0);
            }
            fired.push(fired_copy);
            let ghost e0: Event = pre_q[0];
            let ghost f0: Event = spec_fire(e0).0;
            if !last {
                self.insert_event(event);
                proof {
                    if f0.trigger is Some {
                        lemma_fire_gap(e0, unix_time);
                        let rest = pre_q.drop_first();
                        lemma_insert_sorted_props(rest, f0, unix_time);
                        let pos = spec_insert_pos(rest, next_of(f0));
                        lemma_insert_pos_props(rest, next_of(f0));
                        lemma_phi_insert(rest, unix_time, f0, pos);
                        assert(phi(self.scheduled(), unix_time) == phi(rest, unix_time) + gap(
                            f0,
                            unix_time,
                        ));
                        assert(phi(self.scheduled(), unix_time) < phi(pre_q, unix_time));
                        assert(spec_fire_all(pre_q, unix_time).fired =~= seq![f0]
                            + spec_fire_all(self.scheduled(), unix_time).fired);
                        assert(fired@ =~= fired@.drop_last().push(f0));
                        assert(spec_fire_all(orig_q, unix_time).fired =~= fired@
                            + spec_fire_all(self.scheduled(), unix_time).fired);
                    } else {
                        assert(self.unscheduled() =~= pre_nq.push(f0));
                        assert(self.unscheduled().take(orig_nq.len() as int) =~= orig_nq);
                        assert(self.unscheduled().skip(orig_nq.len() as int) =~= pre_nq.skip(
                            orig_nq.len() as int,
                        ).push(f0));
                        assert(spec_fire_all(pre_q, unix_time).moved =~= seq![f0]
                            + spec_fire_all(self.scheduled(), unix_time).moved);
                        assert(pre_nq.skip(orig_nq.len() as int).push(f0) + spec_fire_all(
                            self.scheduled(),
                            unix_time,
                        ).moved =~= pre_nq.skip(orig_nq.len() as int) + (seq![f0]
                            + spec_fire_all(self.scheduled(), unix_time).moved));
                        assert(spec_fire_all(orig_q, unix_time).moved =~= self.unscheduled().skip(
                            orig_nq.len() as int,
                        ) + spec_fire_all(self.scheduled(), unix_time).moved);
                        assert(spec_fire_all(orig_q, unix_time).fired =~= fired@
                            + spec_fire_all(self.scheduled(), unix_time).fired);
                    }
                }
            } else {
                proof {
                    assert(spec_fire_all(pre_q, unix_time).fired =~= seq![f0]
                        + spec_fire_all(self.scheduled(), unix_time).fired);
                    assert(spec_fire_all(orig_q, unix_time).fired =~= fired@
                        + spec_fire_all(self.scheduled(), unix_time).fired);
                }
            }
        }
        proof {
            assert(self.unscheduled() =~= old(self).unscheduled() + self.unscheduled().skip(
                orig_nq.len() as int,
            ));
            assert(spec_fire_all(self.scheduled(), unix_time).queue == self.scheduled());
            assert(spec_fire_all(orig_q, unix_time).moved =~= self.unscheduled().skip(
                orig_nq.len() as int,
            ));
            assert(spec_fire_all(orig_q, unix_time).fired =~= fired@);
            assert(old(self).unscheduled() + spec_fire_all(orig_q, unix_time).moved
                =~= self.unscheduled());
        }
        fired
    }
}

/// The facts that each firing step rests on: dropping the fired head and
/// reinserting its advanced form both preserve the firing precondition and
/// strictly shrink the overdue measure.
proof fn lemma_fire_step(q: Seq<Event>, now: u64)
    requires
        fire_pre(q, now),
        q.len() > 0,
        next_of(q[0]) <= now,
    ensures
        ({
            let e = q[0];
            let f = spec_fire(e).0;
            let rest = q.drop_first();
            &&& fire_pre(rest, now)
            &&& 0 <= phi(rest, now) < phi(q, now)
            &&& sorted_by_next(q) ==> sorted_by_next(rest)
            &&& (f.trigger is Some ==> fire_pre(spec_insert_sorted(rest, f), now) && 0 <= phi(
                spec_insert_sorted(rest, f),
                now,
            ) < phi(q, now) && (sorted_by_next(q) ==> sorted_by_next(
                spec_insert_sorted(rest, f),
            )))
        }),
{
    let e = q[0];
    let f = spec_fire(e).0;
    let rest = q.drop_first();
    lemma_fire_pre_drop(q, now);
    lemma_phi_nonneg(rest, now);
    assert(gap(e, now) >= 1);
    assert(phi(rest, now) == phi(q, now) - gap(e, now));
    if f.trigger is Some {
        lemma_fire_gap(e, now);
        let pos = spec_insert_pos(rest, next_of(f));
        lemma_insert_pos_props(rest, next_of(f));
        lemma_phi_insert(rest, now, f, pos);
        let q2 = spec_insert_sorted(rest, f);
        assert forall|i: int|
            0 <= i < q2.len() implies ((#[trigger] q2[i]).trigger is Some
            && q2[i].trigger->0.wf() && (q2[i].trigger matches Some(t)
            ==> (t.trigger_period matches Some(p) ==> p <= u64::MAX - now))) by {
            if i < pos {
                assert(q2[i] == rest[i]);
            } else if i == pos {
                assert(q2[i] == f);
            } else {
                assert(q2[i] == rest[i - 1]);
            }
        }
        if sorted_by_next(q) {
            lemma_insert_sorted_props(rest, f, now);
        }
    }
}

/// The next firing time of each successive firing that `spec_fire_all`
/// performs, in order.
pub open spec fn spec_fire_times(q: Seq<Event>, now: u64) -> Seq<u64>
    decreases phi(q, now)
        when fire_pre(q, now)
        via spec_fire_times_decreases
{
    if q.len() == 0 || now < next_of(q[0]) {
        Seq::empty()
    } else {
        let e = q[0];
        let f = spec_fire(e).0;
        let last = spec_fire(e).1;
        let rest = q.drop_first();
        if !last && f.trigger is Some {
            seq![next_of(e)] + spec_fire_times(spec_insert_sorted(rest, f), now)
        } else {
            seq![next_of(e)] + spec_fire_times(rest, now)
        }
    }
}

#[via_fn]
proof fn spec_fire_times_decreases(q: Seq<Event>, now: u64) {
    if q.len() == 0 || now < next_of(q[0]) {
    } else {
        lemma_fire_step(q, now);
    }
}

/// Due events fire in order: the firing times of one pass never decrease,
/// none lies after `now`, none lies before the front of the queue, and each
/// returned event that kept a trigger had its next firing advanced exactly
/// one period past the moment it fired.
pub proof fn lemma_fire_all_ordered(q: Seq<Event>, now: u64)
    requires
        fire_pre(q, now),
        sorted_by_next(q),
    ensures
        ({
            let o = spec_fire_all(q, now);
            let ts = spec_fire_times(q, now);
            &&& ts.len() == o.fired.len()
            &&& (forall|i: int, j: int| 0 <= i <= j < ts.len() ==> ts[i] <= ts[j])
            &&& (forall|i: int| 0 <= i < ts.len() ==> ts[i] <= now)
            &&& (forall|i: int| 0 <= i < ts.len() ==> q.len() > 0 && next_of(q[0]) <= ts[i])
            &&& (forall|i: int|
                0 <= i < o.fired.len() ==> ((#[trigger] o.fired[i]).trigger matches Some(t)
                    ==> (t.trigger_period matches Some(p) && t.next_trigger == ts[i] + p)))
        }),
    decreases phi(q, now),
{
    if q.len() == 0 || now < next_of(q[0]) {
    } else {
        let e = q[0];
        let f = spec_fire(e).0;
        let last = spec_fire(e).1;
        let rest = q.drop_first();
        lemma_fire_step(q, now);
        let sub: Seq<Event> = if !last && f.trigger is Some {
            spec_insert_sorted(rest, f)
        } else {
            rest
        };
        lemma_fire_all_ordered(sub, now);
        let o = spec_fire_all(q, now);
        let ts = spec_fire_times(q, now);
        let o2 = spec_fire_all(sub, now);
        let ts2 = spec_fire_times(sub, now);
        assert(ts =~= seq![next_of(e)] + ts2);
        assert(o.fired =~= seq![f] + o2.fired);
        if sub.len() > 0 {
            assert(next_of(e) <= next_of(sub[0])) by {
                if !last && f.trigger is Some {
                    let pos = spec_insert_pos(rest, next_of(f));
                    lemma_insert_pos_props(rest, next_of(f));
                    if pos == 0 {
                        assert(sub[0] == f);
                        assert(next_of(f) == next_of(e) + f.trigger->0.trigger_period->0);
                    } else {
                        assert(sub[0] == rest[0]);
                    }
                }
            }
        }
        assert forall|i: int|
            0 <= i < o.fired.len() implies ((#[trigger] o.fired[i]).trigger matches Some(t)
            ==> (t.trigger_period matches Some(p) && t.next_trigger == ts[i] + p)) by {
            if i == 0 {
                assert(o.fired[0] == f);
                assert(ts[0] == next_of(e));
            } else {
                assert(o.fired[i] == o2.fired[i - 1]);
                assert(ts[i] == ts2[i - 1]);
            }
        }
    }
}

/// One pass fires only scheduled events and leaves a clean state behind:
/// every event still scheduled keeps a well-formed trigger, stays sorted,
/// and fires strictly after `now`; every event moved to the unscheduled
/// collection has lost its trigger; and every returned copy is the fired
/// image of some due scheduled event, so an unscheduled event is never
/// returned, in this pass or any later one.
pub proof fn lemma_fire_all_clean(q: Seq<Event>, now: u64)
    requires
        fire_pre(q, now),
        sorted_by_next(q),
    ensures
        ({
            let o = spec_fire_all(q, now);
            &&& all_scheduled_wf(o.queue)
            &&& sorted_by_next(o.queue)
            &&& (forall|i: int| 0 <= i < o.queue.len() ==> now < next_of(#[trigger] o.queue[i]))
            &&& all_unscheduled(o.moved)
            &&& (forall|i: int|
                0 <= i < o.fired.len() ==> exists|e: Event|
                    e.trigger is Some && next_of(e) <= now && (#[trigger] o.fired[i])
                        == spec_fire(e).0)
        }),
    decreases phi(q, now),
{
    if q.len() == 0 || now < next_of(q[0]) {
    } else {
        let e = q[0];
        let f = spec_fire(e).0;
        let last = spec_fire(e).1;
        let rest = q.drop_first();
        lemma_fire_step(q, now);
        let sub: Seq<Event> = if !last && f.trigger is Some {
            spec_insert_sorted(rest, f)
        } else {
            rest
        };
        lemma_fire_all_clean(sub, now);
        let o = spec_fire_all(q, now);
        let o2 = spec_fire_all(sub, now);
        assert(o.fired =~= seq![f] + o2.fired);
        if !last && f.trigger is None {
            assert(o.moved =~= seq![f] + o2.moved);
        }
        assert forall|i: int|
            0 <= i < o.fired.len() implies exists|w: Event|
            w.trigger is Some && next_of(w) <= now && (#[trigger] o.fired[i]) == spec_fire(
            w,
        ).0 by {
            if i == 0 {
                assert(e.trigger is Some && next_of(e) <= now && o.fired[0] == spec_fire(e).0);
            } else {
                assert(o.fired[i] == o2.fired[i - 1]);
            }
        }
    }
}

/// Every due scheduled event fires: its advanced copy is among the
/// returned events of the pass.
pub proof fn lemma_fire_all_fires_due(q: Seq<Event>, now: u64, k: int)
    requires
        fire_pre(q, now),
        sorted_by_next(q),
        0 <= k < q.len(),
        next_of(q[k]) <= now,
    ensures
        spec_fire_all(q, now).fired.contains(spec_fire(q[k]).0),
    decreases phi(q, now),
{
    assert(next_of(q[0]) <= next_of(q[k]));
    let e = q[0];
    let f = spec_fire(e).0;
    let last = spec_fire(e).1;
    let rest = q.drop_first();
    lemma_fire_step(q, now);
    let o = spec_fire_all(q, now);
    if k == 0 {
        assert(o.fired[0] == f);
    } else {
        assert(rest[k - 1] == q[k]);
        let sub: Seq<Event> = if !last && f.trigger is Some {
            spec_insert_sorted(rest, f)
        } else {
            rest
        };
        if !last && f.trigger is Some {
            lemma_insert_pos_props(rest, next_of(f));
        }
        let k2: int = if !last && f.trigger is Some {
            if k - 1 < spec_insert_pos(rest, next_of(f)) {
                k - 1
            } else {
                k
            }
        } else {
            k - 1
        };
        assert(sub[k2] == q[k]);
        lemma_fire_all_fires_due(sub, now, k2);
        let o2 = spec_fire_all(sub, now);
        let w = choose|w: int| 0 <= w < o2.fired.len() && o2.fired[w] == spec_fire(q[k]).0;
        assert(o.fired[w + 1] == spec_fire(q[k]).0);
    }
}

/// Every scheduled event that is not yet due stays scheduled: the pass
/// returns it untouched in the remaining queue.
pub proof fn lemma_fire_all_keeps_future(q: Seq<Event>, now: u64, k: int)
    requires
        fire_pre(q, now),
        sorted_by_next(q),
        0 <= k < q.len(),
        next_of(q[k]) > now,
    ensures
        spec_fire_all(q, now).queue.contains(q[k]),
    decreases phi(q, now),
{
    let o = spec_fire_all(q, now);
    if now < next_of(q[0]) {
        assert(o.queue == q);
        assert(q[k] == q[k]);
    } else {
        assert(k >= 1);
        let e = q[0];
        let f = spec_fire(e).0;
        let last = spec_fire(e).1;
        let rest = q.drop_first();
        lemma_fire_step(q, now);
        assert(rest[k - 1] == q[k]);
        let sub: Seq<Event> = if !last && f.trigger is Some {
            spec_insert_sorted(rest, f)
        } else {
            rest
        };
        if !last && f.trigger is Some {
            lemma_insert_pos_props(rest, next_of(f));
        }
        let k2: int = if !last && f.trigger is Some {
            if k - 1 < spec_insert_pos(rest, next_of(f)) {
                k - 1
            } else {
                k
            }
        } else {
            k - 1
        };
        assert(sub[k2] == q[k]);
        lemma_fire_all_keeps_future(sub, now, k2);
    }
}

/// A due one-shot event, one with a trigger but no period, ends the pass
/// unscheduled: its copy without the trigger is among the events moved to
/// the unscheduled collection.
pub proof fn lemma_fire_all_one_shot(q: Seq<Event>, now: u64, k: int)
    requires
        fire_pre(q, now),
        sorted_by_next(q),
        0 <= k < q.len(),
        q[k].trigger matches Some(t) && t.trigger_period is None,
        next_of(q[k]) <= now,
    ensures
        spec_fire_all(q, now).moved.contains(Event { trigger: None, ..q[k] }),
    decreases phi(q, now),
{
    assert(next_of(q[0]) <= next_of(q[k]));
    let e = q[0];
    let f = spec_fire(e).0;
    let last = spec_fire(e).1;
    let rest = q.drop_first();
    lemma_fire_step(q, now);
    let o = spec_fire_all(q, now);
    if k == 0 {
        assert(f == Event { trigger: None, ..q[0] });
        assert(!last && f.trigger is None);
        let o2 = spec_fire_all(rest, now);
        assert(o.moved == seq![f] + o2.moved);
        assert(o.moved[0] == f);
    } else {
        assert(rest[k - 1] == q[k]);
        if !last && f.trigger is Some {
            let sub = spec_insert_sorted(rest, f);
            let pos = spec_insert_pos(rest, next_of(f));
            lemma_insert_pos_props(rest, next_of(f));
            let k2: int = if k - 1 < pos {
                k - 1
            } else {
                k
            };
            assert(sub[k2] == rest[k - 1]);
            lemma_fire_all_one_shot(sub, now, k2);
            assert(o.moved == spec_fire_all(sub, now).moved);
        } else {
            lemma_fire_all_one_shot(rest, now, k - 1);
            let o2 = spec_fire_all(rest, now);
            let target = Event { trigger: None, ..q[k] };
            if !last && f.trigger is None {
                assert(o.moved == seq![f] + o2.moved);
                let w = choose|w: int| 0 <= w < o2.moved.len() && o2.moved[w] == target;
                assert(o.moved[w + 1] == target);
            } else {
                assert(o.moved == o2.moved);
            }
        }
    }
}

/// A due repeating event with exactly one firing left fires exactly once
/// and is then gone from the scheduled state: on a queue holding just that
/// event, the pass returns its advanced copy alone and leaves both
/// collections empty.
pub proof fn lemma_fire_all_last_firing(e: Event, now: u64)
    requires
        e.trigger matches Some(t) && t.wf() && t.next_trigger <= now
            && t.triggers_remaining == Some(1u16) && (t.trigger_period matches Some(p) && p
            <= u64::MAX - now),
    ensures
        spec_fire(e).1 == true,
        spec_fire_all(seq![e], now).queue == Seq::<Event>::empty(),
        spec_fire_all(seq![e], now).moved == Seq::<Event>::empty(),
        spec_fire_all(seq![e], now).fired == seq![spec_fire(e).0],
{
    let q = seq![e];
    assert(q[0] == e);
    assert(fire_pre(q, now)) by {
        assert(forall|i: int| 0 <= i < q.len() ==> #[trigger] q[i] == e);
    }
    let rest = q.drop_first();
    assert(rest =~= Seq::<Event>::empty());
    assert(rest.len() == 0);
    let o = spec_fire_all(q, now);
    assert(spec_fire_all(rest, now).fired == Seq::<Event>::empty());
    assert(o.fired =~= seq![spec_fire(e).0] + Seq::<Event>::empty());
    assert(o.fired =~= seq![spec_fire(e).0]);
}

/// The eight big-endian bytes of a 64-bit value.
pub open spec fn spec_u64_be(v: u64) -> Seq<u8> {
    seq![
        ((v >> 56) & 0xFF) as u8,
        ((v >> 48) & 0xFF) as u8,
        ((v >> 40) & 0xFF) as u8,
        ((v >> 32) & 0xFF) as u8,
        ((v >> 24) & 0xFF) as u8,
        ((v >> 16) & 0xFF) as u8,
        ((v >> 8) & 0xFF) as u8,
        (v & 0xFF) as u8,
    ]
}

/// The two big-endian bytes of a 16-bit value.
pub open spec fn spec_u16_be(v: u16) -> Seq<u8> {
    seq![((v >> 8) & 0xFF) as u8, (v & 0xFF) as u8]
}

/// The 64-bit value read from eight big-endian bytes.
pub open spec fn spec_be_u64(b: Seq<u8>) -> u64 {
    ((b[0] as u64) << 56) | ((b[1] as u64) << 48) | ((b[2] as u64) << 40) | ((b[3] as u64)
        << 32) | ((b[4] as u64) << 24) | ((b[5] as u64) << 16) | ((b[6] as u64) << 8) | (
    b[7] as u64)
}

/// The 16-bit value read from two big-endian bytes.
pub open spec fn spec_be_u16(b: Seq<u8>) -> u16 {
    ((b[0] as u16) << 8) | (b[1] as u16)
}

/// The 19-byte wire form of a trigger: the next firing time, then the
/// period with zero meaning none, then the remaining count with zero
/// meaning unlimited, then the auto-delete flag.
pub open spec fn spec_trigger_bytes(t: ScheduledTrigger) -> Seq<u8> {
    spec_u64_be(t.next_trigger) + spec_u64_be(
        match t.trigger_period {
            Some(p) => p,
            None => 0u64,
        },
    ) + spec_u16_be(
        match t.triggers_remaining {
            Some(n) => n,
            None => 0u16,
        },
    ) + seq![
        if t.auto_delete {
            1u8
        } else {
            0u8
        },
    ]
}

/// A masked low byte of a 64-bit value fits in eight bits.
proof fn lemma_mask_byte(x: u64)
    ensures
        x & 0xFF < 256,
{
    assert(x & 0xFF < 256) by (bit_vector);
}

/// Appends the eight big-endian bytes of a 64-bit value.
fn push_u64_be(out: &mut Vec<u8>, v: u64)
    ensures
        final(out)@ == old(out)@ + spec_u64_be(v),
{
    proof {
        lemma_mask_byte(v >> 56);
        lemma_mask_byte(v >> 48);
        lemma_mask_byte(v >> 40);
        lemma_mask_byte(v >> 32);
        lemma_mask_byte(v >> 24);
        lemma_mask_byte(v >> 16);
        lemma_mask_byte(v >> 8);
        lemma_mask_byte(v);
    }
    out.push(((v >> 56u64) & 0xFF) as u8);
    out.push(((v >> 48u64) & 0xFF) as u8);
    out.push(((v >> 40u64) & 0xFF) as u8);
    out.push(((v >> 32u64) & 0xFF) as u8);
    out.push(((v >> 24u64) & 0xFF) as u8);
    out.push(((v >> 16u64) & 0xFF) as u8);
    out.push(((v >> 8u64) & 0xFF) as u8);
    out.push((v & 0xFF) as u8);
    proof {
        assert(final(out)@ =~= old(out)@ + spec_u64_be(v));
    }
}

/// Reads the 64-bit value at position `pos` of the slice, big-endian.
fn read_u64_be(bytes: &[u8], pos: usize) -> (r: u64)
    requires
        pos + 8 <= bytes@.len(),
    ensures
        r == spec_be_u64(bytes@.subrange(pos as int, pos + 8)),
{
    let total: usize = bytes.len();
    proof {
        assert(pos + 8 <= total);
    }
    let b0: u64 = *slice_index_get(bytes, pos) as u64;
    let b1: u64 = *slice_index_get(bytes, pos + 1) as u64;
    let b2: u64 = *slice_index_get(bytes, pos + 2) as u64;
    let b3: u64 = *slice_index_get(bytes, pos + 3) as u64;
    let b4: u64 = *slice_index_get(bytes, pos + 4) as u64;
    let b5: u64 = *slice_index_get(bytes, pos + 5) as u64;
    let b6: u64 = *slice_index_get(bytes, pos + 6) as u64;
    let b7: u64 = *slice_index_get(bytes, pos + 7) as u64;
    (b0 << 56u64) | (b1 << 48u64) | (b2 << 40u64) | (b3 << 32u64) | (b4 << 24u64) | (b5
        << 16u64) | (b6 << 8u64) | b7
}

/// Reading back the eight big-endian bytes of a 64-bit value gives the
/// value.
pub proof fn lemma_u64_be_roundtrip(v: u64)
    ensures
        spec_be_u64(spec_u64_be(v)) == v,
{
    let t0: u64 = ((v >> 56) & 0xFF) << 56;
    let t1: u64 = ((v >> 48) & 0xFF) << 48;
    let t2: u64 = ((v >> 40) & 0xFF) << 40;
    let t3: u64 = ((v >> 32) & 0xFF) << 32;
    let t4: u64 = ((v >> 24) & 0xFF) << 24;
    let t5: u64 = ((v >> 16) & 0xFF) << 16;
    let t6: u64 = ((v >> 8) & 0xFF) << 8;
    let t7: u64 = v & 0xFF;
    assert(t0 | t1 | t2 | t3 | t4 | t5 | t6 | t7 == v) by (bit_vector)
        requires
            t0 == ((v >> 56) & 0xFF) << 56,
            t1 == ((v >> 48) & 0xFF) << 48,
            t2 == ((v >> 40) & 0xFF) << 40,
            t3 == ((v >> 32) & 0xFF) << 32,
            t4 == ((v >> 24) & 0xFF) << 24,
            t5 == ((v >> 16) & 0xFF) << 16,
            t6 == ((v >> 8) & 0xFF) << 8,
            t7 == v & 0xFF,
    ;
    lemma_mask_byte(v >> 56);
    lemma_mask_byte(v >> 48);
    lemma_mask_byte(v >> 40);
    lemma_mask_byte(v >> 32);
    lemma_mask_byte(v >> 24);
    lemma_mask_byte(v >> 16);
    lemma_mask_byte(v >> 8);
    lemma_mask_byte(v);
}

/// Reading back the two big-endian bytes of a 16-bit value gives the value.
pub proof fn lemma_u16_be_roundtrip(v: u16)
    ensures
        spec_be_u16(spec_u16_be(v)) == v,
{
    assert(((((v >> 8) & 0xFF) << 8) | (v & 0xFF)) == v) by (bit_vector);
    assert((v >> 8) & 0xFF < 256 && v & 0xFF < 256) by (bit_vector);
}

impl ScheduledTrigger {
    /// Encodes the trigger into its 19-byte wire form.
    pub fn to_bytes(&self) -> (r: Vec<u8>)
        ensures
            r@ == spec_trigger_bytes(*self),
    {
        let mut out: Vec<u8> = Vec::new();
        push_u64_be(&mut out, self.next_trigger);
        push_u64_be(
            &mut out,
            match self.trigger_period {
                Some(p) => p,
                None => 0,
            },
        );
        let n: u16 = match self.triggers_remaining {
            Some(n) => n,
            None => 0,
        };
        proof {
            lemma_mask_byte((n >> 8) as u64);
        }
        out.push((((n as u64) >> 8u64) & 0xFF) as u8);
        proof {
            lemma_mask_byte(n as u64);
        }
        out.push(((n as u64) & 0xFF) as u8);
        out.push(
            if self.auto_delete {
                1
            } else {
                0
            },
        );
        proof {
            let m: u16 = n;
            assert(((m as u64) >> 8) & 0xFF == ((m >> 8) & 0xFF) as u64) by (bit_vector);
            assert((m as u64) & 0xFF == (m & 0xFF) as u64) by (bit_vector);
            assert(out@ =~= spec_trigger_bytes(*self));
        }
        out
    }

    /// Decodes a 19-byte wire form: a zero period means no period, a zero
    /// remaining count means unlimited, and the final byte must be zero or
    /// one.  Other lengths and flag bytes are rejected.
    pub fn from_bytes(bytes: &[u8]) -> (r: Option<ScheduledTrigger>)
        ensures
            r is Some <==> bytes@.len() == 19 && (bytes@[18] == 0 || bytes@[18] == 1),
            r matches Some(t) ==> t.wf() && t == spec_trigger_from_bytes(bytes@),
    {
        if bytes.len() != 19 {
            return None;
        }
        let next_trigger: u64 = read_u64_be(bytes, 0);
        let period_raw: u64 = read_u64_be(bytes, 8);
        let b16: u16 = *slice_index_get(bytes, 16) as u16;
        let b17: u16 = *slice_index_get(bytes, 17) as u16;
        let remaining_raw: u16 = (b16 << 8u16) | b17;
        let auto_delete: bool = match *slice_index_get(bytes, 18) {
            0 => false,
            1 => true,
            _ => {
                return None;
            },
        };
        let trigger_period: Option<u64> = if period_raw == 0 {
            None
        } else {
            Some(period_raw)
        };
        let triggers_remaining: Option<u16> = if remaining_raw == 0 {
            None
        } else {
            Some(remaining_raw)
        };
        Some(ScheduledTrigger { next_trigger, trigger_period, triggers_remaining, auto_delete })
    }
}

/// The trigger that 19 wire bytes stand for, assuming a valid flag byte.
pub open spec fn spec_trigger_from_bytes(b: Seq<u8>) -> ScheduledTrigger {
    let period_raw = spec_be_u64(b.subrange(8, 16));
    let remaining_raw = spec_be_u16(b.subrange(16, 18));
    ScheduledTrigger {
        next_trigger: spec_be_u64(b.subrange(0, 8)),
        trigger_period: if period_raw == 0 {
            None
        } else {
            Some(period_raw)
        },
        triggers_remaining: if remaining_raw == 0 {
            None
        } else {
            Some(remaining_raw)
        },
        auto_delete: b[18] == 1,
    }
}

/// Encoding a well-formed trigger and decoding the 19 bytes reproduces the
/// trigger exactly.
pub proof fn lemma_trigger_roundtrip(t: ScheduledTrigger)
    requires
        t.wf(),
    ensures
        spec_trigger_from_bytes(spec_trigger_bytes(t)) == t,
        spec_trigger_bytes(t).len() == 19,
        spec_trigger_bytes(t)[18] == 0 || spec_trigger_bytes(t)[18] == 1,
{
    let b = spec_trigger_bytes(t);
    assert(b.subrange(0, 8) =~= spec_u64_be(t.next_trigger));
    assert(b.subrange(8, 16) =~= spec_u64_be(
        match t.trigger_period {
            Some(p) => p,
            None => 0u64,
        },
    ));
    assert(b.subrange(16, 18) =~= spec_u16_be(
        match t.triggers_remaining {
            Some(n) => n,
            None => 0u16,
        },
    ));
    lemma_u64_be_roundtrip(t.next_trigger);
    lemma_u64_be_roundtrip(
        match t.trigger_period {
            Some(p) => p,
            None => 0u64,
        },
    );
    lemma_u16_be_roundtrip(
        match t.triggers_remaining {
            Some(n) => n,
            None => 0u16,
        },
    );
}

/// The file name that stores an event's audio payload: sixteen lowercase
/// hexadecimal digits of the name's stable hash, then the suffix.
pub open spec fn spec_event_filename(name: Seq<char>) -> Seq<char> {
    spec_hex16(spec_name_hash(name)) + ".mp3"@
}

impl Event {
    /// The name of the file that holds this event's audio payload, derived
    /// from the display name alone.
    pub fn obtain_filename(&self) -> (r: String)
        ensures
            r@ == spec_event_filename(self.name@),
    {
        let h: u64 = hash_of_str(self.name.as_str());
        let mut out: String = String::new();
        append_hex16(&mut out, h);
        out.append(".mp3");
        out
    }
}

/// The Unix timestamp that a schedule text denotes: four digits of the
/// year, two of the month, day, hour and minute at fixed positions, and
/// optionally two of the second, which default to zero.  Texts too short,
/// non-numeric fields, out-of-range fields, dates before the epoch and
/// timestamps past the end of the `u64` range all denote nothing.
pub open spec fn spec_raw_next_trigger(s: Seq<char>) -> Option<u64> {
    if s.len() < 16 {
        None
    } else {
        let year = spec_parse_digits(s.subrange(0, 4));
        let month = spec_parse_digits(s.subrange(5, 7));
        let day = spec_parse_digits(s.subrange(8, 10));
        let hour = spec_parse_digits(s.subrange(11, 13));
        let minute = spec_parse_digits(s.subrange(14, 16));
        if year is None || month is None || day is None || hour is None || minute is None {
            None
        } else {
            let second: int = if s.len() >= 19 {
                match spec_parse_digits(s.subrange(17, 19)) {
                    Some(v) => v,
                    None => 0,
                }
            } else {
                0
            };
            let y = year->0;
            let mo = month->0;
            let d = day->0;
            let h = hour->0;
            let mi = minute->0;
            if spec_valid_civil(y, mo, d, h, mi, second) && 0 <= spec_civil_to_unix(
                y,
                mo,
                d,
                h,
                mi,
                second,
            ) <= u64::MAX {
                Some(spec_civil_to_unix(y, mo, d, h, mi, second) as u64)
            } else {
                None
            }
        }
    }
}

impl ScheduledTrigger {
    /// Reads a schedule text such as a date, the letter T and a clock time
    /// into the Unix timestamp it denotes.
    pub fn raw_next_trigger_from(raw: &str) -> (r: Option<u64>)
        ensures
            r == spec_raw_next_trigger(raw@),
    {
        let n: usize = raw.unicode_len();
        if n < 16 {
            return None;
        }
        let year: u64 = match parse_u64_range(raw, 0, 4) {
            Some(v) => v,
            None => {
                proof {
                    lemma_small_parse(raw@, 0, 4);
                }
                return None;
            },
        };
        let month: u64 = match parse_u64_range(raw, 5, 7) {
            Some(v) => v,
            None => {
                proof {
                    lemma_small_parse(raw@, 5, 7);
                }
                return None;
            },
        };
        let day: u64 = match parse_u64_range(raw, 8, 10) {
            Some(v) => v,
            None => {
                proof {
                    lemma_small_parse(raw@, 8, 10);
                }
                return None;
            },
        };
        let hour: u64 = match parse_u64_range(raw, 11, 13) {
            Some(v) => v,
            None => {
                proof {
                    lemma_small_parse(raw@, 11, 13);
                }
                return None;
            },
        };
        let minute: u64 = match parse_u64_range(raw, 14, 16) {
            Some(v) => v,
            None => {
                proof {
                    lemma_small_parse(raw@, 14, 16);
                }
                return None;
            },
        };
        let second: u64 = if n >= 19 {
            match parse_u64_range(raw, 17, 19) {
                Some(v) => v,
                None => {
                    proof {
                        lemma_small_parse(raw@, 17, 19);
                    }
                    0
                },
            }
        } else {
            0
        };
        proof {
            lemma_small_parse(raw@, 0, 4);
            lemma_small_parse(raw@, 5, 7);
            lemma_small_parse(raw@, 8, 10);
            lemma_small_parse(raw@, 11, 13);
            lemma_small_parse(raw@, 14, 16);
            if raw@.len() >= 19 {
                lemma_small_parse(raw@, 17, 19);
            }
        }
        ymd_hms_to_unix_seconds(year, month, day, hour, minute, second)
    }
}

/// A field of at most four digits denotes fewer than ten thousand, so its
/// parse never overflows the target range.
proof fn lemma_small_parse(s: Seq<char>, lo: int, hi: int)
    requires
        0 <= lo <= hi <= s.len(),
        hi - lo <= 4,
    ensures
        spec_parse_digits(s.subrange(lo, hi)) matches Some(v) ==> 0 <= v < 100000,
{
    let seg = s.subrange(lo, hi);
    let body = if seg.len() >= 1 && seg[0] == '+' {
        seg.skip(1)
    } else {
        seg
    };
    if body.len() > 0 && crate::text::spec_all_digits(body) {
        crate::text::lemma_digits_val_nonneg(body);
        lemma_digits_val_bound(body);
        assert(pow_ten(0) == 1);
        assert(pow_ten(1) == 10);
        assert(pow_ten(2) == 100);
        assert(pow_ten(3) == 1000);
        assert(pow_ten(4) == 10000);
    }
}

/// Ten to a small power.
spec fn pow_ten(n: int) -> int
    decreases n,
{
    if n <= 0 {
        1int
    } else {
        10 * pow_ten(n - 1)
    }
}

/// A digit string of length `n` denotes a value smaller than ten to the
/// `n`th.
proof fn lemma_digits_val_bound(s: Seq<char>)
    requires
        crate::text::spec_all_digits(s),
    ensures
        crate::text::spec_digits_val(s) < pow_ten(s.len() as int),
    decreases s.len(),
{
    if s.len() > 0 {
        assert(crate::text::spec_all_digits(s.drop_last()));
        lemma_digits_val_bound(s.drop_last());
        assert(crate::text::spec_digit_val(s.last()) <= 9);
    }
}

/// The human-readable text of a Unix timestamp: the civil date, the letter
/// T, then the clock time, each field zero-padded.
pub open spec fn spec_timestamp_text(ts: u64) -> Seq<char> {
    let days = ts as int / 86400;
    let secs = ts as int % 86400;
    let ymd = spec_civil_from_days(days);
    spec_dec_pad(ymd.0, 4) + seq!['-'] + spec_dec_pad(ymd.1, 2) + seq!['-'] + spec_dec_pad(
        ymd.2,
        2,
    ) + seq!['T'] + spec_dec_pad(secs / 3600, 2) + seq![':'] + spec_dec_pad(
        (secs / 60) % 60,
        2,
    ) + seq![':'] + spec_dec_pad(secs % 60, 2)
}

impl ScheduledTrigger {
    /// The next firing time as human-readable text: the civil date, the
    /// letter T, then the clock time.
    pub fn next_trigger(&self) -> (r: String)
        ensures
            r@ == spec_timestamp_text(self.next_trigger),
    {
        let ts: u64 = self.next_trigger;
        let days: u64 = ts / 86400;
        let secs: u64 = ts % 86400;
        let ymd: (u64, u64, u64) = civil_from_days(days);
        let mut out: String = String::new();
        append_u64_pad(&mut out, ymd.0, 4);
        push_char(&mut out, '-');
        append_u64_pad(&mut out, ymd.1, 2);
        push_char(&mut out, '-');
        append_u64_pad(&mut out, ymd.2, 2);
        push_char(&mut out, 'T');
        append_u64_pad(&mut out, secs / 3600, 2);
        push_char(&mut out, ':');
        append_u64_pad(&mut out, (secs / 60) % 60, 2);
        push_char(&mut out, ':');
        append_u64_pad(&mut out, secs % 60, 2);
        proof {
            assert(out@ =~= spec_timestamp_text(ts));
        }
        out
    }
}

/// The wire form of one event record: the name's UTF-8 bytes, a zero
/// terminator, then the 19 trigger bytes when the event has a trigger.
pub open spec fn spec_event_bytes(name: Seq<char>, trigger: Option<ScheduledTrigger>) -> Seq<
    u8,
> {
    encode_utf8(name) + seq![0u8] + (match trigger {
        Some(t) => spec_trigger_bytes(t),
        None => Seq::<u8>::empty(),
    })
}

/// The concatenated records of a list of events.
pub open spec fn spec_events_bytes(q: Seq<Event>) -> Seq<u8>
    decreases q.len(),
{
    if q.len() == 0 {
        Seq::empty()
    } else {
        spec_event_bytes(q[0].name@, q[0].trigger) + spec_events_bytes(q.drop_first())
    }
}

impl Event {
    /// Encodes this event into its record form: the name's bytes, a zero
    /// terminator, and the trigger bytes when a trigger is present.
    pub fn to_bytes(&self) -> (r: Vec<u8>)
        ensures
            r@ == spec_event_bytes(self.name@, self.trigger),
    {
        let mut out: Vec<u8> = self.name.as_str().as_bytes_vec();
        out.push(0);
        match &self.trigger {
            Some(t) => {
                let mut tb: Vec<u8> = t.to_bytes();
                out.append(&mut tb);
            },
            None => {
            },
        }
        proof {
            assert(out@ =~= spec_event_bytes(self.name@, self.trigger));
        }
        out
    }
}

impl EventQueue {
    /// Encodes the whole queue: the scheduled records, one zero sentinel,
    /// then the unscheduled records.
    pub fn to_bytes(&self) -> (r: Vec<u8>)
        ensures
            r@ == spec_events_bytes(self.scheduled()) + seq![0u8] + spec_events_bytes(
                self.unscheduled(),
            ),
    {
        let mut out: Vec<u8> = Vec::new();
        append_events(&mut out, &self.queued);
        out.push(0);
        append_events(&mut out, &self.non_queued);
        proof {
            assert(out@ =~= spec_events_bytes(self.queued@) + seq![0u8] + spec_events_bytes(
                self.non_queued@,
            ));
        }
        out
    }
}

/// Appends the records of a list of events.
fn append_events(out: &mut Vec<u8>, events: &Vec<Event>)
    ensures
        final(out)@ == old(out)@ + spec_events_bytes(events@),
{
    proof {
        assert(events@.skip(0int) =~= events@);
    }
    let mut i: usize = 0;
    while i < events.len()
        invariant
            i <= events@.len(),
            out@ + spec_events_bytes(events@.skip(i as int)) =~= old(out)@
                + spec_events_bytes(events@),
        decreases events@.len() - i,
    {
        proof {
            assert(events@.skip(i as int)[0] == events@[i as int]);
            assert(events@.skip(i as int).drop_first() =~= events@.skip(i + 1int));
        }
        let mut eb: Vec<u8> = events[i].to_bytes();
        out.append(&mut eb);
        i += 1;
    }
    proof {
        assert(spec_events_bytes(events@.skip(events@.len() as int)) =~= Seq::<u8>::empty());
        assert(out@ =~= old(out)@ + spec_events_bytes(events@));
    }
}

/// The first position at or after `pos` holding a zero byte, or the length.
pub open spec fn spec_find_zero(b: Seq<u8>, pos: int) -> int
    decreases b.len() - pos,
{
    if pos < 0 || pos >= b.len() {
        b.len() as int
    } else if b[pos] == 0 {
        pos
    } else {
        spec_find_zero(b, pos + 1)
    }
}

/// The found zero position lies at or after `pos` and within the length.
proof fn lemma_find_zero_bounds(b: Seq<u8>, pos: int)
    requires
        0 <= pos <= b.len(),
    ensures
        pos <= spec_find_zero(b, pos) <= b.len(),
        spec_find_zero(b, pos) < b.len() ==> b[spec_find_zero(b, pos)] == 0,
    decreases b.len() - pos,
{
    if pos < b.len() && b[pos] != 0 {
        lemma_find_zero_bounds(b, pos + 1);
    }
}

/// Finds the next zero byte at or after `pos`.
fn find_zero(bytes: &[u8], pos: usize) -> (r: usize)
    requires
        pos <= bytes@.len(),
    ensures
        r == spec_find_zero(bytes@, pos as int),
        pos <= r <= bytes@.len(),
        r < bytes@.len() ==> bytes@[r as int] == 0,
{
    let n: usize = bytes.len();
    let mut i: usize = pos;
    while i < n
        invariant
            pos <= i <= n,
            n == bytes@.len(),
            spec_find_zero(bytes@, pos as int) == spec_find_zero(bytes@, i as int),
        decreases n - i,
    {
        if *slice_index_get(bytes, i) == 0 {
            return i;
        }
        i += 1;
    }
    i
}

/// One entry read from a queue file: the name's characters and the
/// optional trigger.
pub ghost struct QueueEntry {
    pub name: Seq<char>,
    pub trigger: Option<ScheduledTrigger>,
}

/// The entries that a queue file holds from position `pos` on, given
/// whether the scan is still inside the scheduled section.  A record
/// beginning with a zero byte ends the scheduled section; a name runs to
/// the next zero byte, and a scheduled record carries 19 trigger bytes
/// after it.  Invalid UTF-8 in a name, a truncated trigger and an invalid
/// flag byte are format errors, while trailing bytes with no terminator
/// are dropped.
pub open spec fn spec_parse_queue(b: Seq<u8>, pos: int, scheduled: bool) -> Result<
    Seq<QueueEntry>,
    Error,
>
    decreases b.len() - pos,
        via spec_parse_queue_decreases
{
    if pos < 0 || pos >= b.len() {
        Ok(Seq::empty())
    } else if b[pos] == 0 {
        spec_parse_queue(b, pos + 1, false)
    } else {
        let j = spec_find_zero(b, pos);
        if j >= b.len() {
            Ok(Seq::empty())
        } else {
            let name_bytes = b.subrange(pos, j);
            if !valid_utf8(name_bytes) {
                Err(Error::InvalidUtf8)
            } else if scheduled {
                if b.len() - j < 20 {
                    Err(Error::InvalidEventQueueFile)
                } else {
                    let tb = b.subrange(j + 1, j + 20);
                    if tb[18] == 0 || tb[18] == 1 {
                        match spec_parse_queue(b, j + 20, true) {
                            Ok(rest) => Ok(
                                seq![
                                    QueueEntry {
                                        name: decode_utf8(name_bytes),
                                        trigger: Some(spec_trigger_from_bytes(tb)),
                                    },
                                ] + rest,
                            ),
                            Err(e) => Err(e),
                        }
                    } else {
                        Err(Error::InvalidEventQueueFile)
                    }
                }
            } else {
                match spec_parse_queue(b, j + 1, false) {
                    Ok(rest) => Ok(
                        seq![QueueEntry { name: decode_utf8(name_bytes), trigger: None }] + rest,
                    ),
                    Err(e) => Err(e),
                }
            }
        }
    }
}

#[via_fn]
proof fn spec_parse_queue_decreases(b: Seq<u8>, pos: int, scheduled: bool) {
    if 0 <= pos < b.len() {
        if b[pos] != 0 {
            lemma_find_zero_bounds(b, pos);
        }
    }
}

/// The name and trigger pairs of a list of events.
pub open spec fn spec_entry_pairs(evs: Seq<Event>) -> Seq<QueueEntry>
    decreases evs.len(),
{
    if evs.len() == 0 {
        Seq::empty()
    } else {
        seq![QueueEntry { name: evs[0].name@, trigger: evs[0].trigger }] + spec_entry_pairs(
            evs.drop_first(),
        )
    }
}

/// Appending one event appends its pair.
proof fn lemma_entry_pairs_push(evs: Seq<Event>, e: Event)
    ensures
        spec_entry_pairs(evs.push(e)) =~= spec_entry_pairs(evs).push(
            QueueEntry { name: e.name@, trigger: e.trigger },
        ),
    decreases evs.len(),
{
    if evs.len() == 0 {
        assert(evs.push(e)[0] == e);
        assert(evs.push(e).drop_first() =~= Seq::<Event>::empty());
        assert(spec_entry_pairs(Seq::<Event>::empty()) =~= Seq::<QueueEntry>::empty());
        assert(spec_entry_pairs(evs) =~= Seq::<QueueEntry>::empty());
    } else {
        assert(evs.push(e)[0] == evs[0]);
        assert(evs.push(e).drop_first() =~= evs.drop_first().push(e));
        lemma_entry_pairs_push(evs.drop_first(), e);
        assert(spec_entry_pairs(evs.push(e)) =~= seq![
            QueueEntry { name: evs[0].name@, trigger: evs[0].trigger },
        ] + spec_entry_pairs(evs.drop_first()).push(
            QueueEntry { name: e.name@, trigger: e.trigger },
        ));
    }
}

/// A queue holds exactly the given file entries: some list of events
/// carrying the entries' names and triggers partitions into the queue's
/// two collections, the unscheduled ones in order and the scheduled ones
/// as an ordered rearrangement.
pub open spec fn spec_queue_matches(q: EventQueue, entries: Seq<QueueEntry>) -> bool {
    exists|evs: Seq<Event>|
        #[trigger] spec_entry_pairs(evs) == entries && q.unscheduled()
            == spec_partition_unscheduled(evs) && q.scheduled().to_multiset()
            == spec_partition_scheduled(evs).to_multiset()
}

impl EventQueue {
    /// Decodes a queue file: the scheduled records, a zero sentinel, then
    /// the unscheduled records.  The scheduled events are re-sorted by next
    /// firing time rather than trusted to be in order.
    pub fn from_bytes(bytes: &[u8]) -> (r: Result<EventQueue, Error>)
        ensures
            ({
                match spec_parse_queue(bytes@, 0, true) {
                    Ok(entries) => r matches Ok(q) && q.wf() && spec_queue_matches(q, entries),
                    Err(e) => r == Err::<EventQueue, Error>(e),
                }
            }),
    {
        let mut entries: Vec<Event> = Vec::new();
        let mut pos: usize = 0;
        let mut scheduled: bool = true;
        let n: usize = bytes.len();
        loop
            invariant
                pos <= n,
                n == bytes@.len(),
                forall|k: int|
                    0 <= k < entries@.len() ==> ((#[trigger] entries@[k]).trigger
                        matches Some(t) ==> t.wf()),
                spec_parse_queue(bytes@, 0, true) == (match spec_parse_queue(
                    bytes@,
                    pos as int,
                    scheduled,
                ) {
                    Ok(rest) => Ok::<Seq<QueueEntry>, Error>(spec_entry_pairs(entries@) + rest),
                    Err(e) => Err::<Seq<QueueEntry>, Error>(e),
                }),
            ensures
                spec_parse_queue(bytes@, pos as int, scheduled) == Ok::<
                    Seq<QueueEntry>,
                    Error,
                >(Seq::<QueueEntry>::empty()),
            decreases n - pos,
        {
            if pos >= n {
                break;
            }
            if *slice_index_get(bytes, pos) == 0 {
                scheduled = false;
                pos = pos + 1;
                continue;
            }
            let j: usize = find_zero(bytes, pos);
            if j >= n {
                break;
            }
            let ghost name_bytes = bytes@.subrange(pos as int, j as int);
            let name_vec: Vec<u8> = slice_to_vec(slice_subrange(bytes, pos, j));
            let name: String = match string_from_utf8(name_vec) {
                Some(s) => s,
                None => {
                    return Err(Error::InvalidUtf8);
                },
            };
            if scheduled {
                if n - j < 20 {
                    return Err(Error::InvalidEventQueueFile);
                }
                let tb: &[u8] = slice_subrange(bytes, j + 1, j + 20);
                let trig: ScheduledTrigger = match ScheduledTrigger::from_bytes(tb) {
                    Some(t) => t,
                    None => {
                        proof {
                            assert(tb@[18] == bytes@.subrange(j + 1int, j + 20int)[18]);
                        }
                        return Err(Error::InvalidEventQueueFile);
                    },
                };
                let ghost before = entries@;
                entries.push(Event { name, trigger: Some(trig) });
                proof {
                    let ne = QueueEntry { name: entries@.last().name@, trigger: Some(trig) };
                    lemma_entry_pairs_push(before, entries@.last());
                    assert(entries@.last().name@ == decode_utf8(name_bytes));
                    assert(tb@ == bytes@.subrange(j + 1int, j + 20int));
                    let rest_r = spec_parse_queue(bytes@, j + 20, true);
                    assert(spec_parse_queue(bytes@, pos as int, true) == (match rest_r {
                        Ok(rest) => Ok::<Seq<QueueEntry>, Error>(seq![ne] + rest),
                        Err(e2) => Err::<Seq<QueueEntry>, Error>(e2),
                    }));
                    if rest_r is Ok {
                        let rest = rest_r->Ok_0;
                        assert(spec_entry_pairs(entries@) =~= spec_entry_pairs(before).push(ne));
                        assert(spec_entry_pairs(before) + (seq![ne] + rest) =~= spec_entry_pairs(
                            entries@,
                        ) + rest);
                    }
                }
                pos = j + 20;
            } else {
                let ghost before = entries@;
                entries.push(Event { name, trigger: None });
                proof {
                    let ne = QueueEntry { name: entries@.last().name@, trigger: None };
                    lemma_entry_pairs_push(before, entries@.last());
                    assert(entries@.last().name@ == decode_utf8(name_bytes));
                    let rest_r = spec_parse_queue(bytes@, j + 1, false);
                    assert(spec_parse_queue(bytes@, pos as int, false) == (match rest_r {
                        Ok(rest) => Ok::<Seq<QueueEntry>, Error>(seq![ne] + rest),
                        Err(e2) => Err::<Seq<QueueEntry>, Error>(e2),
                    }));
                    if rest_r is Ok {
                        let rest = rest_r->Ok_0;
                        assert(spec_entry_pairs(entries@) =~= spec_entry_pairs(before).push(ne));
                        assert(spec_entry_pairs(before) + (seq![ne] + rest) =~= spec_entry_pairs(
                            entries@,
                        ) + rest);
                    }
                }
                pos = j + 1;
            }
        }
        let ghost evs = entries@;
        let q: EventQueue = EventQueue::new(entries);
        proof {
            assert(spec_entry_pairs(evs) + Seq::<QueueEntry>::empty() =~= spec_entry_pairs(
                evs,
            ));
            assert(spec_parse_queue(bytes@, 0, true) == Ok::<Seq<QueueEntry>, Error>(
                spec_entry_pairs(evs),
            ));
            assert(spec_entry_pairs(evs) == spec_parse_queue(bytes@, 0, true)->Ok_0);
            assert(q.unscheduled() == spec_partition_unscheduled(evs));
            assert(q.scheduled().to_multiset() == spec_partition_scheduled(evs).to_multiset());
        }
        Ok(q)
    }

    /// Whether every scheduled period leaves room above `now`, the
    /// condition under which a firing pass cannot overflow a timestamp.
    pub fn periods_fit_at(&self, now: u64) -> (r: bool)
        requires
            self.wf(),
        ensures
            r == periods_fit(self.scheduled(), now),
    {
        let mut i: usize = 0;
        while i < self.queued.len()
            invariant
                self.wf(),
                i <= self.scheduled().len(),
                forall|k: int|
                    0 <= k < i ==> ((#[trigger] self.scheduled()[k]).trigger matches Some(t)
                        ==> (t.trigger_period matches Some(p) ==> p <= u64::MAX - now)),
            decreases self.scheduled().len() - i,
        {
            match &self.queued[i].trigger {
                Some(t) => match t.trigger_period {
                    Some(p) => {
                        if p > u64::MAX - now {
                            return false;
                        }
                    },
                    None => {
                    },
                },
                None => {
                },
            }
            i += 1;
        }
        true
    }

    /// Removes every event, scheduled or not, whose display name equals the
    /// given one.
    pub fn remove_by_name(&mut self, name: &str)
        requires
            old(self).wf(),
        ensures
            final(self).wf(),
            final(self).scheduled() == spec_keeps(old(self).scheduled(), name@),
            final(self).unscheduled() == spec_keeps(old(self).unscheduled(), name@),
    {
        let kept_sched: Vec<Event> = retain_others(&mut self.queued, name);
        let kept_unsched: Vec<Event> = retain_others(&mut self.non_queued, name);
        self.queued = kept_sched;
        self.non_queued = kept_unsched;
        proof {
            lemma_filter_keeps_order(old(self).scheduled(), name@);
            lemma_filter_keeps_order(old(self).unscheduled(), name@);
        }
    }
}

/// The events of a list whose name differs from the given one, in order.
pub open spec fn spec_keeps(s: Seq<Event>, name: Seq<char>) -> Seq<Event> {
    s.filter(|e: Event| e.name@ != name)
}

/// Takes the events of the list whose name differs from the given one, in
/// order, emptying the list.
fn retain_others(events: &mut Vec<Event>, name: &str) -> (r: Vec<Event>)
    ensures
        r@ == spec_keeps(old(events)@, name@),
{
    let ghost all = events@;
    let mut kept: Vec<Event> = Vec::new();
    proof {
        assert(all.skip(0int) =~= all);
    }
    while events.len() > 0
        invariant
            events@ =~= all.skip(all.len() - events@.len()),
            events@.len() <= all.len(),
            kept@ + spec_keeps(all.skip(all.len() - events@.len()), name@) =~= spec_keeps(
                all,
                name@,
            ),
        decreases events@.len(),
    {
        let ghost pos = all.len() - events@.len();
        let e: Event = events.remove(0);
        let keep: bool = !str_equal(e.name.as_str(), name);
        proof {
            assert(all.skip(pos)[0] == all[pos]);
            assert(e == all[pos]);
            assert(all.skip(pos).drop_first() =~= all.skip(pos + 1));
            lemma_filter_head(all.skip(pos), name@);
        }
        let ghost kept_before = kept@;
        if keep {
            kept.push(e);
            proof {
                assert(kept@ =~= kept_before.push(all[pos]));
                assert(spec_keeps(all.skip(pos), name@) =~= seq![all[pos]] + spec_keeps(
                    all.skip(pos + 1),
                    name@,
                ));
                assert(kept_before + (seq![all[pos]] + spec_keeps(all.skip(pos + 1), name@))
                    =~= kept@ + spec_keeps(all.skip(pos + 1), name@));
                assert(kept@ + spec_keeps(all.skip(pos + 1), name@) =~= spec_keeps(
                    all,
                    name@,
                ));
            }
        } else {
            proof {
                assert(spec_keeps(all.skip(pos), name@) =~= spec_keeps(
                    all.skip(pos + 1),
                    name@,
                ));
                assert(kept@ + spec_keeps(all.skip(pos + 1), name@) =~= spec_keeps(
                    all,
                    name@,
                ));
            }
        }
    }
    proof {
        assert(all.skip(all.len() as int) =~= Seq::<Event>::empty());
        assert(spec_keeps(Seq::<Event>::empty(), name@) =~= Seq::<Event>::empty()) by {
            reveal_with_fuel(Seq::filter, 1);
        }
        assert(kept@ =~= spec_keeps(all, name@));
    }
    kept
}

/// Keeping a nonempty sequence's tail drops or keeps the head by its name.
proof fn lemma_filter_head(s: Seq<Event>, name: Seq<char>)
    requires
        s.len() > 0,
    ensures
        s[0].name@ != name ==> spec_keeps(s, name) =~= seq![s[0]] + spec_keeps(
            s.drop_first(),
            name,
        ),
        s[0].name@ == name ==> spec_keeps(s, name) =~= spec_keeps(s.drop_first(), name),
    decreases s.len(),
{
    reveal_with_fuel(Seq::filter, 2);
    if s.len() == 1 {
        assert(s.drop_last() =~= Seq::<Event>::empty());
        assert(s.drop_first() =~= Seq::<Event>::empty());
    } else {
        lemma_filter_head(s.drop_last(), name);
        assert(s.drop_last()[0] == s[0]);
        assert(s.drop_first().drop_last() =~= s.drop_last().drop_first());
        assert(s.drop_first().last() == s.last());
        lemma_filter_push_event(s.drop_last().drop_first(), name, s.last());
        assert(s.drop_last().drop_first().push(s.last()) =~= s.drop_first());
    }
}

/// Keeping after a push appends the element exactly when its name differs.
proof fn lemma_filter_push_event(s: Seq<Event>, name: Seq<char>, e: Event)
    ensures
        e.name@ != name ==> spec_keeps(s.push(e), name) =~= spec_keeps(s, name).push(e),
        e.name@ == name ==> spec_keeps(s.push(e), name) =~= spec_keeps(s, name),
{
    reveal_with_fuel(Seq::filter, 2);
    assert(s.push(e).drop_last() =~= s);
    assert(s.push(e).last() == e);
}

/// Keeping part of a well-formed queue keeps it well formed: triggers stay
/// present and well formed, the order by next firing time survives, and
/// unscheduled events stay unscheduled.
proof fn lemma_filter_keeps_order(s: Seq<Event>, name: Seq<char>)
    ensures
        all_scheduled_wf(s) ==> all_scheduled_wf(spec_keeps(s, name)),
        sorted_by_next(s) && all_scheduled_wf(s) ==> sorted_by_next(spec_keeps(s, name)),
        all_unscheduled(s) ==> all_unscheduled(spec_keeps(s, name)),
    decreases s.len(),
{
    if s.len() == 0 {
        reveal_with_fuel(Seq::filter, 1);
    } else {
        lemma_filter_head(s, name);
        assert(forall|k: int|
            0 <= k < s.drop_first().len() ==> #[trigger] s.drop_first()[k] == s[k + 1]);
        lemma_filter_keeps_order(s.drop_first(), name);
        let f = spec_keeps(s, name);
        let g = spec_keeps(s.drop_first(), name);
        if s[0].name@ != name {
            assert(f =~= seq![s[0]] + g);
            if sorted_by_next(s) && all_scheduled_wf(s) {
                assert forall|i: int, j: int|
                    0 <= i <= j < f.len() implies next_of(#[trigger] f[i]) <= next_of(
                    #[trigger] f[j],
                ) by {
                    if i == 0 && j > 0 {
                        lemma_filter_member_of(s.drop_first(), name, j - 1);
                    }
                }
            }
        }
    }
}

/// Each kept event appears somewhere in the original sequence.
proof fn lemma_filter_member_of(s: Seq<Event>, name: Seq<char>, i: int)
    requires
        0 <= i < spec_keeps(s, name).len(),
    ensures
        exists|k: int| 0 <= k < s.len() && #[trigger] s[k] == spec_keeps(s, name)[i],
    decreases s.len(),
{
    if s.len() > 0 {
        lemma_filter_head(s, name);
        let g = spec_keeps(s.drop_first(), name);
        if s[0].name@ != name {
            if i > 0 {
                lemma_filter_member_of(s.drop_first(), name, i - 1);
                let k = choose|k: int|
                    0 <= k < s.drop_first().len() && #[trigger] s.drop_first()[k] == g[i - 1];
                assert(s[k + 1] == spec_keeps(s, name)[i]);
            } else {
                assert(s[0] == spec_keeps(s, name)[0]);
            }
        } else {
            lemma_filter_member_of(s.drop_first(), name, i);
            let k = choose|k: int|
                0 <= k < s.drop_first().len() && #[trigger] s.drop_first()[k] == g[i];
            assert(s[k + 1] == spec_keeps(s, name)[i]);
        }
    }
}

/// Relies on `str` equality comparison (`==` via `PartialEq`): two string
/// slices are equal exactly when they hold the same characters.
#[verifier::external_body]
fn str_equal(a: &str, b: &str) -> (r: bool)
    ensures
        r == (a@ == b@),
{
    a == b
}

/// The schedule column shown for an event: its next firing time as text,
/// or the fixed word pair for an event without a trigger.
pub open spec fn spec_event_time_text(e: Event) -> Seq<char> {
    match e.trigger {
        Some(t) => spec_timestamp_text(t.next_trigger),
        None => "Not Scheduled"@,
    }
}

/// The name and schedule texts of a list of events, in order.
pub open spec fn spec_csv_rows_of(q: Seq<Event>) -> Seq<(Seq<char>, Seq<char>)>
    decreases q.len(),
{
    if q.len() == 0 {
        Seq::empty()
    } else {
        seq![(q[0].name@, spec_event_time_text(q[0]))] + spec_csv_rows_of(q.drop_first())
    }
}

/// The name column of one two-column row.
pub open spec fn spec_row_name(row: Vec<CsvObject>) -> Seq<char> {
    row@[0]->String_0@
}

/// The two texts of one two-column row.
pub open spec fn spec_row_pair(row: Vec<CsvObject>) -> (Seq<char>, Seq<char>) {
    (row@[0]->String_0@, row@[1]->String_0@)
}

/// The texts of a table of two-column rows, in order.
pub open spec fn spec_rows_pairs(rows: Seq<Vec<CsvObject>>) -> Seq<(Seq<char>, Seq<char>)>
    decreases rows.len(),
{
    if rows.len() == 0 {
        Seq::empty()
    } else {
        seq![spec_row_pair(rows[0])] + spec_rows_pairs(rows.drop_first())
    }
}

/// Every row has exactly a string name and a string schedule column, and
/// the rows are ordered by name.
pub open spec fn spec_rows_ok(rows: Seq<Vec<CsvObject>>) -> bool {
    &&& forall|i: int|
        0 <= i < rows.len() ==> (#[trigger] rows[i])@.len() == 2 && rows[i]@[0] is String
            && rows[i]@[1] is String
    &&& forall|i: int, j: int|
        0 <= i <= j < rows.len() ==> spec_lex_le(
            spec_row_name(#[trigger] rows[i]),
            spec_row_name(#[trigger] rows[j]),
        )
}

/// The position in front of which a row with the given name is placed:
/// just before the first row whose name sorts strictly later.
pub open spec fn spec_row_pos(rows: Seq<Vec<CsvObject>>, name: Seq<char>) -> int
    decreases rows.len(),
{
    if rows.len() == 0 {
        0
    } else if !spec_lex_le(spec_row_name(rows[0]), name) {
        0
    } else {
        1 + spec_row_pos(rows.drop_first(), name)
    }
}

/// The row position is the first index whose row's name sorts strictly
/// after the given name.
proof fn lemma_row_pos_props(rows: Seq<Vec<CsvObject>>, name: Seq<char>)
    ensures
        0 <= spec_row_pos(rows, name) <= rows.len(),
        forall|j: int|
            0 <= j < spec_row_pos(rows, name) ==> spec_lex_le(
                spec_row_name(#[trigger] rows[j]),
                name,
            ),
        spec_row_pos(rows, name) < rows.len() ==> !spec_lex_le(
            spec_row_name(rows[spec_row_pos(rows, name)]),
            name,
        ),
    decreases rows.len(),
{
    if rows.len() == 0 {
    } else if !spec_lex_le(spec_row_name(rows[0]), name) {
    } else {
        lemma_row_pos_props(rows.drop_first(), name);
        let pos = spec_row_pos(rows, name);
        assert forall|j: int| 0 <= j < pos implies spec_lex_le(
            spec_row_name(#[trigger] rows[j]),
            name,
        ) by {
            if j >= 1 {
                assert(rows.drop_first()[j - 1] == rows[j]);
            }
        }
        if pos < rows.len() {
            assert(rows.drop_first()[pos - 1] == rows[pos]);
        }
    }
}

/// A scan that stopped at the first strictly later row found the position.
proof fn lemma_row_pos_first(rows: Seq<Vec<CsvObject>>, name: Seq<char>, i: int)
    requires
        0 <= i <= rows.len(),
        forall|j: int| 0 <= j < i ==> spec_lex_le(spec_row_name(#[trigger] rows[j]), name),
        i < rows.len() ==> !spec_lex_le(spec_row_name(rows[i]), name),
    ensures
        spec_row_pos(rows, name) == i,
    decreases rows.len(),
{
    if rows.len() == 0 {
    } else if !spec_lex_le(spec_row_name(rows[0]), name) {
        assert(i == 0);
    } else {
        assert(i >= 1);
        let rest = rows.drop_first();
        assert(forall|j: int| 0 <= j < rest.len() ==> #[trigger] rest[j] == rows[j + 1]);
        lemma_row_pos_first(rest, name, i - 1);
    }
}

/// The texts of a table with one row inserted are the table's texts with
/// that row's texts inserted at the same position.
proof fn lemma_rows_pairs_insert(rows: Seq<Vec<CsvObject>>, pos: int, row: Vec<CsvObject>)
    requires
        0 <= pos <= rows.len(),
    ensures
        spec_rows_pairs(rows.insert(pos, row)) =~= spec_rows_pairs(rows).insert(
            pos,
            spec_row_pair(row),
        ),
    decreases pos,
{
    let r2 = rows.insert(pos, row);
    lemma_rows_pairs_len(rows);
    if pos == 0 {
        assert(r2[0] == row);
        assert(r2.drop_first() =~= rows);
        assert(spec_rows_pairs(rows).insert(0, spec_row_pair(row)) =~= seq![
            spec_row_pair(row),
        ] + spec_rows_pairs(rows));
    } else {
        assert(r2[0] == rows[0]);
        assert(r2.drop_first() =~= rows.drop_first().insert(pos - 1, row));
        lemma_rows_pairs_insert(rows.drop_first(), pos - 1, row);
        lemma_rows_pairs_len(rows.drop_first());
        assert(spec_rows_pairs(r2) =~= seq![spec_row_pair(rows[0])] + spec_rows_pairs(
            rows.drop_first(),
        ).insert(pos - 1, spec_row_pair(row)));
        assert(spec_rows_pairs(rows).insert(pos, spec_row_pair(row)) =~= seq![
            spec_row_pair(rows[0]),
        ] + spec_rows_pairs(rows.drop_first()).insert(pos - 1, spec_row_pair(row)));
    }
}

/// A table has as many text pairs as rows.
proof fn lemma_rows_pairs_len(rows: Seq<Vec<CsvObject>>)
    ensures
        spec_rows_pairs(rows).len() == rows.len(),
    decreases rows.len(),
{
    if rows.len() > 0 {
        lemma_rows_pairs_len(rows.drop_first());
    }
}

/// Inserting a two-column row at its position keeps the table shaped and
/// ordered.
proof fn lemma_row_insert_sorted(rows: Seq<Vec<CsvObject>>, row: Vec<CsvObject>)
    requires
        spec_rows_ok(rows),
        row@.len() == 2,
        row@[0] is String,
        row@[1] is String,
    ensures
        spec_rows_ok(rows.insert(spec_row_pos(rows, spec_row_name(row)), row)),
        spec_rows_pairs(rows.insert(spec_row_pos(rows, spec_row_name(row)), row)).to_multiset()
            == spec_rows_pairs(rows).to_multiset().insert(spec_row_pair(row)),
{
    let name = spec_row_name(row);
    let pos = spec_row_pos(rows, name);
    lemma_row_pos_props(rows, name);
    let r2 = rows.insert(pos, row);
    assert(forall|i: int| 0 <= i < pos ==> #[trigger] r2[i] == rows[i]);
    assert(r2[pos] == row);
    assert(forall|i: int| pos < i < r2.len() ==> #[trigger] r2[i] == rows[i - 1]);
    assert forall|i: int, j: int| 0 <= i <= j < r2.len() implies spec_lex_le(
        spec_row_name(#[trigger] r2[i]),
        spec_row_name(#[trigger] r2[j]),
    ) by {
        if i == pos && j == pos {
            lemma_lex_le_total(name, name);
        } else if i < pos && j == pos {
            lemma_lex_le_total(name, spec_row_name(rows[i]));
        } else if i == pos && j > pos {
            lemma_lex_le_total(name, spec_row_name(rows[j - 1]));
            if spec_lex_le(spec_row_name(rows[j - 1]), name) {
                if pos < rows.len() {
                    lemma_lex_le_trans(
                        spec_row_name(rows[pos]),
                        spec_row_name(rows[j - 1]),
                        name,
                    );
                }
            }
        }
    }
    lemma_rows_pairs_insert(rows, pos, row);
    lemma_rows_pairs_len(rows);
    vstd::seq_lib::to_multiset_insert(spec_rows_pairs(rows), pos, spec_row_pair(row));
}

/// The texts of two joined lists of events are the two lists' texts joined.
proof fn lemma_csv_rows_concat(a: Seq<Event>, b: Seq<Event>)
    ensures
        spec_csv_rows_of(a + b) =~= spec_csv_rows_of(a) + spec_csv_rows_of(b),
    decreases a.len(),
{
    if a.len() == 0 {
        assert(a + b =~= b);
    } else {
        assert((a + b)[0] == a[0]);
        assert((a + b).drop_first() =~= a.drop_first() + b);
        lemma_csv_rows_concat(a.drop_first(), b);
    }
}

/// A joined sequence's multiset is the two parts' multisets joined.
proof fn lemma_to_multiset_concat(a: Seq<(Seq<char>, Seq<char>)>, b: Seq<(Seq<char>, Seq<char>)>)
    ensures
        (a + b).to_multiset() == a.to_multiset().add(b.to_multiset()),
    decreases b.len(),
{
    broadcast use vstd::seq_lib::group_to_multiset_ensures;

    if b.len() == 0 {
        assert(a + b =~= a);
        assert(b.to_multiset() == Multiset::<(Seq<char>, Seq<char>)>::empty());
        assert(a.to_multiset().add(Multiset::empty()) =~= a.to_multiset());
    } else {
        lemma_to_multiset_concat(a, b.drop_last());
        assert(a + b =~= (a + b.drop_last()).push(b.last()));
        assert(b =~= b.drop_last().push(b.last()));
        assert((a + b).to_multiset() =~= (a + b.drop_last()).to_multiset().insert(b.last()));
        assert(b.to_multiset() =~= b.drop_last().to_multiset().insert(b.last()));
        assert(a.to_multiset().add(b.drop_last().to_multiset().insert(b.last()))
            =~= a.to_multiset().add(b.drop_last().to_multiset()).insert(b.last()));
    }
}

impl EventQueue {
    /// The queue as a two-column table, one row per event: the display name
    /// and the next firing time as text, or the fixed word pair for an
    /// unscheduled event, with the rows ordered by name.
    pub fn get_queue_csv(&self) -> (r: Vec<Vec<CsvObject>>)
        ensures
            spec_rows_ok(r@),
            spec_rows_pairs(r@).to_multiset() == spec_csv_rows_of(
                self.scheduled() + self.unscheduled(),
            ).to_multiset(),
    {
        let mut rows: Vec<Vec<CsvObject>> = Vec::new();
        proof {
            assert(spec_rows_pairs(rows@) =~= Seq::<(Seq<char>, Seq<char>)>::empty());
            Seq::<(Seq<char>, Seq<char>)>::empty().to_multiset_ensures();
        }
        insert_csv_rows(&mut rows, &self.queued);
        insert_csv_rows(&mut rows, &self.non_queued);
        proof {
            lemma_csv_rows_concat(self.scheduled(), self.unscheduled());
            lemma_to_multiset_concat(
                spec_csv_rows_of(self.scheduled()),
                spec_csv_rows_of(self.unscheduled()),
            );
            assert(Multiset::<(Seq<char>, Seq<char>)>::empty().add(
                spec_csv_rows_of(self.scheduled()).to_multiset(),
            ) =~= spec_csv_rows_of(self.scheduled()).to_multiset());
        }
        rows
    }
}

/// Inserts one name-sorted row for each event of the list.
fn insert_csv_rows(rows: &mut Vec<Vec<CsvObject>>, events: &Vec<Event>)
    requires
        spec_rows_ok(old(rows)@),
    ensures
        spec_rows_ok(final(rows)@),
        spec_rows_pairs(final(rows)@).to_multiset() == spec_rows_pairs(old(rows)@).to_multiset(
        ).add(spec_csv_rows_of(events@).to_multiset()),
{
    proof {
        broadcast use vstd::seq_lib::group_to_multiset_ensures;

        assert(events@.skip(0int) =~= events@);
        assert(spec_rows_pairs(old(rows)@).to_multiset().add(
            Multiset::<(Seq<char>, Seq<char>)>::empty(),
        ) =~= spec_rows_pairs(old(rows)@).to_multiset());
    }
    let mut i: usize = 0;
    while i < events.len()
        invariant
            i <= events@.len(),
            spec_rows_ok(rows@),
            spec_rows_pairs(old(rows)@).to_multiset().add(
                spec_csv_rows_of(events@).to_multiset(),
            ) == spec_rows_pairs(rows@).to_multiset().add(
                spec_csv_rows_of(events@.skip(i as int)).to_multiset(),
            ),
        decreases events@.len() - i,
    {
        proof {
            broadcast use vstd::seq_lib::group_to_multiset_ensures;

            assert(events@.skip(i as int)[0] == events@[i as int]);
            assert(events@.skip(i as int).drop_first() =~= events@.skip(i + 1int));
        }
        let e: &Event = &events[i];
        let name: String = e.name.clone();
        let time: String = match &e.trigger {
            Some(t) => t.next_trigger(),
            None => {
                let mut s: String = String::new();
                s.append("Not Scheduled");
                s
            },
        };
        let mut row: Vec<CsvObject> = Vec::new();
        row.push(CsvObject::String(name));
        row.push(CsvObject::String(time));
        proof {
            assert(spec_row_pair(row) == (events@[i as int].name@, spec_event_time_text(
                events@[i as int],
            )));
        }
        let pos: usize = find_row_pos(rows, e.name.as_str());
        proof {
            lemma_row_pos_props(rows@, spec_row_name(row));
            lemma_row_insert_sorted(rows@, row);
            let head = spec_csv_rows_of(events@.skip(i as int));
            assert(head =~= seq![spec_row_pair(row)] + spec_csv_rows_of(
                events@.skip(i + 1int),
            ));
            lemma_to_multiset_concat(
                seq![spec_row_pair(row)],
                spec_csv_rows_of(events@.skip(i + 1int)),
            );
            assert(seq![spec_row_pair(row)].to_multiset() =~= Multiset::<(
                Seq<char>,
                Seq<char>,
            )>::empty().insert(spec_row_pair(row))) by {
                assert(seq![spec_row_pair(row)] =~= Seq::<(Seq<char>, Seq<char>)>::empty().push(
                    spec_row_pair(row),
                ));
                Seq::<(Seq<char>, Seq<char>)>::empty().to_multiset_ensures();
            }
        }
        rows.insert(pos, row);
        i += 1;
    }
    proof {
        assert(spec_csv_rows_of(events@.skip(events@.len() as int))
            =~= Seq::<(Seq<char>, Seq<char>)>::empty());
        Seq::<(Seq<char>, Seq<char>)>::empty().to_multiset_ensures();
        assert(spec_rows_pairs(rows@).to_multiset().add(
            Multiset::<(Seq<char>, Seq<char>)>::empty(),
        ) =~= spec_rows_pairs(rows@).to_multiset());
    }
}

/// The index in front of the first row whose name sorts strictly after the
/// given one.
fn find_row_pos(rows: &Vec<Vec<CsvObject>>, name: &str) -> (r: usize)
    requires
        spec_rows_ok(rows@),
    ensures
        r == spec_row_pos(rows@, name@),
        r <= rows@.len(),
{
    let mut i: usize = 0;
    while i < rows.len()
        invariant
            i <= rows@.len(),
            spec_rows_ok(rows@),
            forall|j: int|
                0 <= j < i ==> spec_lex_le(spec_row_name(#[trigger] rows@[j]), name@),
        decreases rows@.len() - i,
    {
        let row: &Vec<CsvObject> = &rows[i];
        let row_name: &str = match &row[0] {
            CsvObject::String(s) => s.as_str(),
            _ => "",
        };
        proof {
            assert(row_name@ == spec_row_name(rows@[i as int]));
        }
        if !lex_le(row_name, name) {
            proof {
                lemma_row_pos_first(rows@, name@, i as int);
            }
            return i;
        }
        i += 1;
    }
    proof {
        lemma_row_pos_first(rows@, name@, i as int);
    }
    i
}

/// A name the queue file stores faithfully: at least one character, all
/// ASCII, and none the zero character that the format uses as terminator.
pub open spec fn spec_plain_name(s: Seq<char>) -> bool {
    &&& s.len() > 0
    &&& vstd::utf8::is_ascii_chars(s)
    &&& forall|i: int| 0 <= i < s.len() ==> s[i] != '\0'
}

/// The encoding of a plain name is one nonzero byte per character, valid
/// UTF-8, and decodes back to the name.
proof fn lemma_plain_name_bytes(s: Seq<char>)
    requires
        spec_plain_name(s),
    ensures
        encode_utf8(s).len() == s.len(),
        forall|i: int| 0 <= i < encode_utf8(s).len() ==> encode_utf8(s)[i] != 0,
        valid_utf8(encode_utf8(s)),
        decode_utf8(encode_utf8(s)) == s,
{
    broadcast use vstd::utf8::is_ascii_chars_encode_utf8;
    broadcast use vstd::utf8::encode_utf8_valid_utf8;
    broadcast use vstd::utf8::encode_utf8_decode_utf8;

    assert forall|i: int| 0 <= i < encode_utf8(s).len() implies encode_utf8(s)[i] != 0 by {
        assert(encode_utf8(s)[i] == s[i] as u8);
        assert(s[i] != '\0');
        assert('\0' <= s[i] <= '\u{7f}');
        assert(s[i] as u8 != 0);
    }
}

/// The first zero byte at or after `pos` sits exactly where one is known
/// to sit with none before it.
proof fn lemma_find_zero_at(b: Seq<u8>, pos: int, k: int)
    requires
        0 <= pos <= k < b.len(),
        forall|j: int| pos <= j < k ==> b[j] != 0,
        b[k] == 0,
    ensures
        spec_find_zero(b, pos) == k,
    decreases k - pos,
{
    if pos < k {
        lemma_find_zero_at(b, pos + 1, k);
    }
}

/// Parsing at the start of one well-formed record yields that record's
/// entry in front of whatever the rest parses to.
proof fn lemma_parse_record(
    b: Seq<u8>,
    pos: int,
    name: Seq<char>,
    trig: Option<ScheduledTrigger>,
    scheduled: bool,
)
    requires
        0 <= pos,
        pos + spec_event_bytes(name, trig).len() <= b.len(),
        b.subrange(pos, pos + spec_event_bytes(name, trig).len()) == spec_event_bytes(
            name,
            trig,
        ),
        spec_plain_name(name),
        trig matches Some(t) ==> t.wf(),
        scheduled <==> trig is Some,
    ensures
        ({
            let next = pos + spec_event_bytes(name, trig).len();
            spec_parse_queue(b, pos, scheduled) == (match spec_parse_queue(b, next, scheduled) {
                Ok(rest) => Ok::<Seq<QueueEntry>, Error>(
                    seq![QueueEntry { name, trigger: trig }] + rest,
                ),
                Err(e) => Err::<Seq<QueueEntry>, Error>(e),
            })
        }),
{
    lemma_plain_name_bytes(name);
    let enc = encode_utf8(name);
    let rec = spec_event_bytes(name, trig);
    let nlen = enc.len() as int;
    assert(forall|i: int| 0 <= i < rec.len() ==> #[trigger] b[pos + i] == rec[i]);
    assert(forall|i: int| 0 <= i < nlen ==> rec[i] == enc[i]);
    assert(rec[nlen] == 0u8);
    assert forall|j: int| pos <= j < pos + nlen implies b[j] != 0 by {
        assert(b[j] == rec[j - pos]);
        assert(rec[j - pos] == enc[j - pos]);
    }
    assert(b[pos + nlen] == 0);
    lemma_find_zero_at(b, pos, pos + nlen);
    assert(b[pos] == enc[0]);
    assert(b[pos] != 0);
    let j = spec_find_zero(b, pos);
    assert(j == pos + nlen);
    assert(b.subrange(pos, j) =~= enc);
    match trig {
        Some(t) => {
            lemma_trigger_roundtrip(t);
            assert(rec =~= enc + seq![0u8] + spec_trigger_bytes(t));
            assert(rec.len() == nlen + 20);
            assert(b.len() - j >= 20);
            let tb = b.subrange(j + 1, j + 20);
            assert(tb =~= spec_trigger_bytes(t)) by {
                assert forall|i: int| 0 <= i < 19 implies tb[i] == spec_trigger_bytes(t)[i] by {
                    assert(tb[i] == b[pos + (nlen + 1 + i)]);
                    assert(b[pos + (nlen + 1 + i)] == rec[nlen + 1 + i]);
                }
            }
            assert(tb[18] == 0 || tb[18] == 1);
            assert(spec_trigger_from_bytes(tb) == t);
        },
        None => {
            assert(rec =~= enc + seq![0u8]);
            assert(rec.len() == nlen + 1);
        },
    }
}

/// Parsing at the start of a run of well-formed records yields their
/// entries in order, in front of whatever the rest parses to.
proof fn lemma_parse_events(b: Seq<u8>, pos: int, evs: Seq<Event>, scheduled: bool)
    requires
        0 <= pos,
        pos + spec_events_bytes(evs).len() <= b.len(),
        b.subrange(pos, pos + spec_events_bytes(evs).len()) == spec_events_bytes(evs),
        forall|k: int| 0 <= k < evs.len() ==> spec_plain_name((#[trigger] evs[k]).name@),
        scheduled ==> all_scheduled_wf(evs),
        !scheduled ==> all_unscheduled(evs),
    ensures
        ({
            let next = pos + spec_events_bytes(evs).len();
            spec_parse_queue(b, pos, scheduled) == (match spec_parse_queue(b, next, scheduled) {
                Ok(rest) => Ok::<Seq<QueueEntry>, Error>(spec_entry_pairs(evs) + rest),
                Err(e) => Err::<Seq<QueueEntry>, Error>(e),
            })
        }),
    decreases evs.len(),
{
    let next = pos + spec_events_bytes(evs).len();
    if evs.len() == 0 {
        assert(spec_events_bytes(evs).len() == 0);
        match spec_parse_queue(b, next, scheduled) {
            Ok(rest) => {
                assert(spec_entry_pairs(evs) + rest =~= rest);
            },
            Err(_) => {
            },
        }
    } else {
        let e = evs[0];
        let rest_evs = evs.drop_first();
        let rec = spec_event_bytes(e.name@, e.trigger);
        assert(spec_events_bytes(evs) == rec + spec_events_bytes(rest_evs));
        assert(b.subrange(pos, pos + rec.len()) =~= rec) by {
            assert forall|i: int| 0 <= i < rec.len() implies b.subrange(
                pos,
                pos + rec.len(),
            )[i] == rec[i] by {
                assert(b[pos + i] == spec_events_bytes(evs)[i]);
            }
        }
        lemma_parse_record(b, pos, e.name@, e.trigger, scheduled);
        let mid = pos + rec.len();
        assert(b.subrange(mid, mid + spec_events_bytes(rest_evs).len())
            =~= spec_events_bytes(rest_evs)) by {
            assert forall|i: int|
                0 <= i < spec_events_bytes(rest_evs).len() implies b.subrange(
                mid,
                mid + spec_events_bytes(rest_evs).len(),
            )[i] == spec_events_bytes(rest_evs)[i] by {
                assert(b[mid + i] == spec_events_bytes(evs)[rec.len() + i]);
            }
        }
        assert(forall|k: int|
            0 <= k < rest_evs.len() ==> #[trigger] rest_evs[k] == evs[k + 1]);
        lemma_parse_events(b, mid, rest_evs, scheduled);
        match spec_parse_queue(b, next, scheduled) {
            Ok(rest) => {
                assert(spec_entry_pairs(evs) =~= seq![
                    QueueEntry { name: e.name@, trigger: e.trigger },
                ] + spec_entry_pairs(rest_evs));
                assert(seq![QueueEntry { name: e.name@, trigger: e.trigger }] + (spec_entry_pairs(
                    rest_evs,
                ) + rest) =~= spec_entry_pairs(evs) + rest);
            },
            Err(_) => {
            },
        }
    }
}

/// Saving a queue and parsing the bytes back yields exactly the saved
/// entries: the scheduled ones in order, then the unscheduled ones, every
/// name and trigger intact.  Stated for plain names — nonempty, ASCII, and
/// free of the zero character — since an empty name's record is the bare
/// terminator that the format reads as its section sentinel.
pub proof fn lemma_queue_bytes_roundtrip(sched: Seq<Event>, unsched: Seq<Event>)
    requires
        all_scheduled_wf(sched),
        all_unscheduled(unsched),
        forall|k: int| 0 <= k < sched.len() ==> spec_plain_name((#[trigger] sched[k]).name@),
        forall|k: int|
            0 <= k < unsched.len() ==> spec_plain_name((#[trigger] unsched[k]).name@),
    ensures
        ({
            let b = spec_events_bytes(sched) + seq![0u8] + spec_events_bytes(unsched);
            spec_parse_queue(b, 0, true) == Ok::<Seq<QueueEntry>, Error>(
                spec_entry_pairs(sched) + spec_entry_pairs(unsched),
            )
        }),
{
    let b = spec_events_bytes(sched) + seq![0u8] + spec_events_bytes(unsched);
    let len1 = spec_events_bytes(sched).len() as int;
    let len2 = spec_events_bytes(unsched).len() as int;
    assert(b.len() == len1 + 1 + len2);
    assert(b.subrange(0, len1) =~= spec_events_bytes(sched));
    lemma_parse_events(b, 0, sched, true);
    assert(b[len1] == 0);
    assert(spec_parse_queue(b, len1, true) == spec_parse_queue(b, len1 + 1, false));
    assert(b.subrange(len1 + 1, len1 + 1 + len2) =~= spec_events_bytes(unsched));
    lemma_parse_events(b, len1 + 1, unsched, false);
    assert(spec_parse_queue(b, len1 + 1 + len2, false) == Ok::<Seq<QueueEntry>, Error>(
        Seq::empty(),
    ));
    assert(spec_entry_pairs(unsched) + Seq::<QueueEntry>::empty() =~= spec_entry_pairs(
        unsched,
    ));
}

} // verus!
