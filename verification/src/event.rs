use vstd::prelude::*;
use vstd::string::StrSliceExecFns;

use crate::value::{cap_usize, sat_add, Value};

verus! {

/// A structured, dynamically shaped log record.
#[derive(Debug, PartialEq, Eq)]
pub struct LogEvent {
    pub value: Value,
}

/// A structured numeric observation: a named sample whose floating value is
/// carried as its raw IEEE-754 bit pattern.
#[derive(Debug, PartialEq, Eq)]
pub struct Metric {
    pub name: String,
    pub value: u64,
}

/// One unit of telemetry: a log record or a metric sample. This sum is
/// closed; it is never extended at runtime.
#[derive(Debug, PartialEq, Eq)]
pub enum Event {
    Log(LogEvent),
    Metric(Metric),
}

impl Event {
    /// Content-size model of the heap bytes an event holds.
    pub open spec fn alloc_model(self) -> nat {
        match self {
            Event::Log(log) => log.value.alloc_model(),
            Event::Metric(metric) => metric.name@.len(),
        }
    }
}

/// The capability every type that holds events implements: consume self into
/// the ordered sequence of its events, each exactly once, and report the heap
/// bytes held by its contents (inline storage and fixed per-container
/// overhead excluded from the model).
pub trait EventContainer: Sized {
    /// The ordered sequence of events this container holds.
    spec fn events(self) -> Seq<Event>;

    /// Content-size model of the heap bytes held by the contents.
    spec fn alloc_model(self) -> nat;

    /// Consumes the container into its events, in source order, each exactly
    /// once.
    fn into_events(self) -> (r: Vec<Event>)
        ensures
            r@ == self.events(),
    ;

    /// The heap bytes held by the contents, per the content-size model,
    /// saturated at the machine word.
    fn allocated_bytes(&self) -> (r: usize)
        ensures
            r as nat == cap_usize(self.alloc_model()),
    ;
}

impl EventContainer for Event {
    open spec fn events(self) -> Seq<Event> {
        seq![self]
    }

    open spec fn alloc_model(self) -> nat {
        Event::alloc_model(self)
    }

    fn into_events(self) -> (r: Vec<Event>)
        ensures
            r@ == self.events(),
    {
        let r = vec![self];
        proof {
            assert(r@ =~= seq![self]);
        }
        r
    }

    fn allocated_bytes(&self) -> (r: usize)
        ensures
            r as nat == cap_usize(EventContainer::alloc_model(*self)),
    {
        match self {
            Event::Log(log) => log.value.allocated_bytes(),
            Event::Metric(metric) => metric.name.as_str().unicode_len(),
        }
    }
}

impl EventContainer for LogEvent {
    open spec fn events(self) -> Seq<Event> {
        seq![Event::Log(self)]
    }

    open spec fn alloc_model(self) -> nat {
        self.value.alloc_model()
    }

    fn into_events(self) -> (r: Vec<Event>)
        ensures
            r@ == self.events(),
    {
        let r = vec![Event::Log(self)];
        proof {
            assert(r@ =~= seq![Event::Log(self)]);
        }
        r
    }

    fn allocated_bytes(&self) -> (r: usize)
        ensures
            r as nat == cap_usize(EventContainer::alloc_model(*self)),
    {
        self.value.allocated_bytes()
    }
}

impl EventContainer for Metric {
    open spec fn events(self) -> Seq<Event> {
        seq![Event::Metric(self)]
    }

    open spec fn alloc_model(self) -> nat {
        self.name@.len()
    }

    fn into_events(self) -> (r: Vec<Event>)
        ensures
            r@ == self.events(),
    {
        let r = vec![Event::Metric(self)];
        proof {
            assert(r@ =~= seq![Event::Metric(self)]);
        }
        r
    }

    fn allocated_bytes(&self) -> (r: usize)
        ensures
            r as nat == cap_usize(EventContainer::alloc_model(*self)),
    {
        self.name.as_str().unicode_len()
    }
}

/// An ordered batch of log events with an inline slot for the first element,
/// so that the dominant one-element case allocates nothing for the container
/// itself; further elements spill to the heap.
pub struct LogArray {
    head: Option<LogEvent>,
    spill: Vec<LogEvent>,
}

/// An ordered batch of metric events, stored as `LogArray` stores logs.
pub struct MetricArray {
    head: Option<Metric>,
    spill: Vec<Metric>,
}

/// The summed size model of a sequence of log events.
pub open spec fn log_seq_alloc(s: Seq<LogEvent>) -> nat
    decreases s.len(),
{
    if s.len() == 0 {
        0
    } else {
        log_seq_alloc(s.drop_last()) + s.last().value.alloc_model()
    }
}

/// The summed size model of a sequence of metrics.
pub open spec fn metric_seq_alloc(s: Seq<Metric>) -> nat
    decreases s.len(),
{
    if s.len() == 0 {
        0
    } else {
        metric_seq_alloc(s.drop_last()) + s.last().name@.len()
    }
}

impl LogArray {
    /// Internal invariant: the inline slot fills before anything spills.
    pub closed spec fn wf(self) -> bool {
        self.head is None ==> self.spill@.len() == 0
    }

    /// The ordered elements of the batch.
    pub closed spec fn elems(self) -> Seq<LogEvent> {
        match self.head {
            None => Seq::empty(),
            Some(h) => seq![h] + self.spill@,
        }
    }

    /// A batch of exactly one log event; the element sits in the inline slot
    /// and the container allocates nothing.
    pub fn single(log: LogEvent) -> (r: LogArray)
        ensures
            r.wf(),
            r.elems() == seq![log],
    {
        let r = LogArray { head: Some(log), spill: Vec::new() };
        proof {
            assert(r.elems() =~= seq![log]);
        }
        r
    }

    /// Appends one log event; the first fills the inline slot, later ones
    /// spill to the heap.
    pub fn push(&mut self, log: LogEvent)
        requires
            old(self).wf(),
        ensures
            final(self).wf(),
            final(self).elems() == old(self).elems().push(log),
    {
        if self.head.is_none() {
            self.head = Some(log);
            proof {
                assert(final(self).elems() =~= old(self).elems().push(log));
            }
        } else {
            self.spill.push(log);
            proof {
                assert(final(self).elems() =~= old(self).elems().push(log));
            }
        }
    }

    /// How many events the batch holds.
    pub fn len(&self) -> (r: usize)
        requires
            self.wf(),
            self.elems().len() <= usize::MAX,
        ensures
            r == self.elems().len(),
    {
        match &self.head {
            None => 0,
            Some(_) => 1 + self.spill.len(),
        }
    }

    /// Consumes the batch into its elements, in order.
    pub fn into_vec(self) -> (r: Vec<LogEvent>)
        ensures
            r@ == self.elems(),
    {
        let ghost all = self.elems();
        let mut out: Vec<LogEvent> = Vec::new();
        match self.head {
            None => {
                proof {
                    assert(out@ =~= all);
                }
                out
            },
            Some(h) => {
                out.push(h);
                let mut sp = self.spill;
                while sp.len() > 0
                    invariant
                        out@.len() + sp@.len() == all.len(),
                        out@.len() >= 1,
                        out@ =~= all.take(out@.len() as int),
                        sp@ =~= all.skip(out@.len() as int),
                    decreases sp@.len(),
                {
                    let e = sp.remove(0);
                    proof {
                        assert(e == all[out@.len() as int]);
                    }
                    out.push(e);
                    proof {
                        assert(out@ =~= all.take(out@.len() as int));
                        assert(sp@ =~= all.skip(out@.len() as int));
                    }
                }
                proof {
                    assert(out@ =~= all);
                }
                out
            },
        }
    }
}

impl MetricArray {
    /// Internal invariant: the inline slot fills before anything spills.
    pub closed spec fn wf(self) -> bool {
        self.head is None ==> self.spill@.len() == 0
    }

    /// The ordered elements of the batch.
    pub closed spec fn elems(self) -> Seq<Metric> {
        match self.head {
            None => Seq::empty(),
            Some(h) => seq![h] + self.spill@,
        }
    }

    /// A batch of exactly one metric; the element sits in the inline slot and
    /// the container allocates nothing.
    pub fn single(metric: Metric) -> (r: MetricArray)
        ensures
            r.wf(),
            r.elems() == seq![metric],
    {
        let r = MetricArray { head: Some(metric), spill: Vec::new() };
        proof {
            assert(r.elems() =~= seq![metric]);
        }
        r
    }

    /// Appends one metric; the first fills the inline slot, later ones spill
    /// to the heap.
    pub fn push(&mut self, metric: Metric)
        requires
            old(self).wf(),
        ensures
            final(self).wf(),
            final(self).elems() == old(self).elems().push(metric),
    {
        if self.head.is_none() {
            self.head = Some(metric);
            proof {
                assert(final(self).elems() =~= old(self).elems().push(metric));
            }
        } else {
            self.spill.push(metric);
            proof {
                assert(final(self).elems() =~= old(self).elems().push(metric));
            }
        }
    }

    /// How many events the batch holds.
    pub fn len(&self) -> (r: usize)
        requires
            self.wf(),
            self.elems().len() <= usize::MAX,
        ensures
            r == self.elems().len(),
    {
        match &self.head {
            None => 0,
            Some(_) => 1 + self.spill.len(),
        }
    }

    /// Consumes the batch into its elements, in order.
    pub fn into_vec(self) -> (r: Vec<Metric>)
        ensures
            r@ == self.elems(),
    {
        let ghost all = self.elems();
        let mut out: Vec<Metric> = Vec::new();
        match self.head {
            None => {
                proof {
                    assert(out@ =~= all);
                }
                out
            },
            Some(h) => {
                out.push(h);
                let mut sp = self.spill;
                while sp.len() > 0
                    invariant
                        out@.len() + sp@.len() == all.len(),
                        out@.len() >= 1,
                        out@ =~= all.take(out@.len() as int),
                        sp@ =~= all.skip(out@.len() as int),
                    decreases sp@.len(),
                {
                    let e = sp.remove(0);
                    proof {
                        assert(e == all[out@.len() as int]);
                    }
                    out.push(e);
                    proof {
                        assert(out@ =~= all.take(out@.len() as int));
                        assert(sp@ =~= all.skip(out@.len() as int));
                    }
                }
                proof {
                    assert(out@ =~= all);
                }
                out
            },
        }
    }
}

/// The events of a sequence of log records, in order.
pub open spec fn logs_to_events(s: Seq<LogEvent>) -> Seq<Event> {
    Seq::new(s.len(), |i: int| Event::Log(s[i]))
}

/// The events of a sequence of metrics, in order.
pub open spec fn metrics_to_events(s: Seq<Metric>) -> Seq<Event> {
    Seq::new(s.len(), |i: int| Event::Metric(s[i]))
}

/// `log_seq_alloc` grows by one element's model at a time.
proof fn lemma_log_seq_alloc_take(s: Seq<LogEvent>, n: int)
    requires
        0 <= n < s.len(),
    ensures
        log_seq_alloc(s.take(n + 1)) == log_seq_alloc(s.take(n)) + s[n].value.alloc_model(),
{
    assert(s.take(n + 1).drop_last() =~= s.take(n));
    assert(s.take(n + 1).last() == s[n]);
}

/// `metric_seq_alloc` grows by one element's model at a time.
proof fn lemma_metric_seq_alloc_take(s: Seq<Metric>, n: int)
    requires
        0 <= n < s.len(),
    ensures
        metric_seq_alloc(s.take(n + 1)) == metric_seq_alloc(s.take(n)) + s[n].name@.len(),
{
    assert(s.take(n + 1).drop_last() =~= s.take(n));
    assert(s.take(n + 1).last() == s[n]);
}

impl EventContainer for LogArray {
    open spec fn events(self) -> Seq<Event> {
        logs_to_events(self.elems())
    }

    open spec fn alloc_model(self) -> nat {
        log_seq_alloc(self.elems())
    }

    fn into_events(self) -> (r: Vec<Event>)
        ensures
            r@ == self.events(),
    {
        let ghost all = self.elems();
        let elems = self.into_vec();
        let mut out: Vec<Event> = Vec::new();
        let mut rest = elems;
        while rest.len() > 0
            invariant
                out@.len() + rest@.len() == all.len(),
                rest@ =~= all.skip(out@.len() as int),
                out@ =~= logs_to_events(all).take(out@.len() as int),
            decreases rest@.len(),
        {
            let e = rest.remove(0);
            proof {
                assert(e == all[out@.len() as int]);
            }
            out.push(Event::Log(e));
            proof {
                assert(out@ =~= logs_to_events(all).take(out@.len() as int));
                assert(rest@ =~= all.skip(out@.len() as int));
            }
        }
        proof {
            assert(out@ =~= logs_to_events(all));
        }
        out
    }

    #[verifier::loop_isolation(false)]
    fn allocated_bytes(&self) -> (r: usize)
        ensures
            r as nat == cap_usize(EventContainer::alloc_model(*self)),
    {
        let ghost all = self.elems();
        match &self.head {
            None => {
                proof {
                    assert(all =~= Seq::<LogEvent>::empty());
                }
                0
            },
            Some(h) => {
                let mut acc = h.value.allocated_bytes();
                proof {
                    assert(all.take(1).drop_last() =~= Seq::<LogEvent>::empty());
                    assert(all.take(1).last() == *h);
                    assert(log_seq_alloc(Seq::<LogEvent>::empty()) == 0);
                    assert(all.take(1).len() == 1);
                    assert(log_seq_alloc(all.take(1)) == h.value.alloc_model());
                }
                let mut i: usize = 0;
                while i < self.spill.len()
                    invariant
                        i <= self.spill@.len(),
                        acc as nat == cap_usize(log_seq_alloc(all.take(1 + i as int))),
                    decreases self.spill@.len() - i,
                {
                    proof {
                        lemma_log_seq_alloc_take(all, 1 + i as int);
                        assert(all[1 + i as int] == self.spill@[i as int]);
                    }
                    let e = self.spill[i].value.allocated_bytes();
                    acc = sat_add(acc, e);
                    i += 1;
                }
                proof {
                    assert(all.take(all.len() as int) =~= all);
                }
                acc
            },
        }
    }
}

impl EventContainer for MetricArray {
    open spec fn events(self) -> Seq<Event> {
        metrics_to_events(self.elems())
    }

    open spec fn alloc_model(self) -> nat {
        metric_seq_alloc(self.elems())
    }

    fn into_events(self) -> (r: Vec<Event>)
        ensures
            r@ == self.events(),
    {
        let ghost all = self.elems();
        let elems = self.into_vec();
        let mut out: Vec<Event> = Vec::new();
        let mut rest = elems;
        while rest.len() > 0
            invariant
                out@.len() + rest@.len() == all.len(),
                rest@ =~= all.skip(out@.len() as int),
                out@ =~= metrics_to_events(all).take(out@.len() as int),
            decreases rest@.len(),
        {
            let e = rest.remove(0);
            proof {
                assert(e == all[out@.len() as int]);
            }
            out.push(Event::Metric(e));
            proof {
                assert(out@ =~= metrics_to_events(all).take(out@.len() as int));
                assert(rest@ =~= all.skip(out@.len() as int));
            }
        }
        proof {
            assert(out@ =~= metrics_to_events(all));
        }
        out
    }

    #[verifier::loop_isolation(false)]
    fn allocated_bytes(&self) -> (r: usize)
        ensures
            r as nat == cap_usize(EventContainer::alloc_model(*self)),
    {
        let ghost all = self.elems();
        match &self.head {
            None => {
                proof {
                    assert(all =~= Seq::<Metric>::empty());
                }
                0
            },
            Some(h) => {
                let mut acc = h.name.as_str().unicode_len();
                proof {
                    assert(all.take(1).drop_last() =~= Seq::<Metric>::empty());
                    assert(all.take(1).last() == *h);
                    assert(metric_seq_alloc(Seq::<Metric>::empty()) == 0);
                    assert(all.take(1).len() == 1);
                    assert(metric_seq_alloc(all.take(1)) == h.name@.len());
                }
                let mut i: usize = 0;
                while i < self.spill.len()
                    invariant
                        i <= self.spill@.len(),
                        acc as nat == cap_usize(metric_seq_alloc(all.take(1 + i as int))),
                    decreases self.spill@.len() - i,
                {
                    proof {
                        lemma_metric_seq_alloc_take(all, 1 + i as int);
                        assert(all[1 + i as int] == self.spill@[i as int]);
                    }
                    let e = self.spill[i].name.as_str().unicode_len();
                    acc = sat_add(acc, e);
                    i += 1;
                }
                proof {
                    assert(all.take(all.len() as int) =~= all);
                }
                acc
            },
        }
    }
}

/// A batch of one event kind exclusively: a homogeneous array of log events
/// or of metrics, never mixed, by construction.
pub enum EventArray {
    Logs(LogArray),
    Metrics(MetricArray),
}

impl EventArray {
    /// Internal invariant of whichever batch is populated.
    pub open spec fn wf(self) -> bool {
        match self {
            EventArray::Logs(a) => a.wf(),
            EventArray::Metrics(a) => a.wf(),
        }
    }

    /// Promotes one event to a one-element batch: the populated variant
    /// mirrors the event's variant, holds exactly that event inline, and the
    /// other variant is absent.
    pub fn from_event(event: Event) -> (r: EventArray)
        ensures
            r.wf(),
            match event {
                Event::Log(log) => r is Logs && r->Logs_0.elems() == seq![log],
                Event::Metric(metric) => r is Metrics && r->Metrics_0.elems() == seq![metric],
            },
            r.events() == seq![event],
    {
        let r = match event {
            Event::Log(log) => EventArray::Logs(LogArray::single(log)),
            Event::Metric(metric) => EventArray::Metrics(MetricArray::single(metric)),
        };
        proof {
            assert(r.events() =~= seq![event]);
        }
        r
    }

    /// Consumes the array into a tagged iterator that mirrors the populated
    /// variant and hands the elements back as events, in order, exactly once.
    pub fn into_event_iter(self) -> (r: EventArrayIntoIter)
        ensures
            r.remaining() == self.events(),
            self is Logs <==> r is Logs,
    {
        match self {
            EventArray::Logs(a) => EventArrayIntoIter::Logs(a.into_vec()),
            EventArray::Metrics(a) => EventArrayIntoIter::Metrics(a.into_vec()),
        }
    }
}

impl EventContainer for EventArray {
    open spec fn events(self) -> Seq<Event> {
        match self {
            EventArray::Logs(a) => a.events(),
            EventArray::Metrics(a) => a.events(),
        }
    }

    open spec fn alloc_model(self) -> nat {
        match self {
            EventArray::Logs(a) => EventContainer::alloc_model(a),
            EventArray::Metrics(a) => EventContainer::alloc_model(a),
        }
    }

    fn into_events(self) -> (r: Vec<Event>)
        ensures
            r@ == EventContainer::events(self),
    {
        match self {
            EventArray::Logs(a) => a.into_events(),
            EventArray::Metrics(a) => a.into_events(),
        }
    }

    fn allocated_bytes(&self) -> (r: usize)
        ensures
            r as nat == cap_usize(EventContainer::alloc_model(*self)),
    {
        match self {
            EventArray::Logs(a) => a.allocated_bytes(),
            EventArray::Metrics(a) => a.allocated_bytes(),
        }
    }
}

/// The one-shot iterator for `EventArray`: the tag mirrors the variant the
/// array held, and each element comes back wrapped as a generic event.
pub enum EventArrayIntoIter {
    Logs(Vec<LogEvent>),
    Metrics(Vec<Metric>),
}

impl EventArrayIntoIter {
    /// The events not yet handed out, in order.
    pub open spec fn remaining(self) -> Seq<Event> {
        match self {
            EventArrayIntoIter::Logs(v) => logs_to_events(v@),
            EventArrayIntoIter::Metrics(v) => metrics_to_events(v@),
        }
    }

    /// Hands out the next event, draining the batch front to back; the tag
    /// keeps mirroring the variant the array held.
    pub fn next(&mut self) -> (r: Option<Event>)
        ensures
            (*old(self)) is Logs <==> (*final(self)) is Logs,
            old(self).remaining().len() == 0 ==> r is None && final(self).remaining()
                == old(self).remaining(),
            old(self).remaining().len() > 0 ==> r == Some(old(self).remaining()[0])
                && final(self).remaining() == old(self).remaining().drop_first(),
    {
        match self {
            EventArrayIntoIter::Logs(v) => {
                if v.len() == 0 {
                    proof {
                        assert(final(self).remaining() =~= old(self).remaining());
                    }
                    None
                } else {
                    let e = v.remove(0);
                    proof {
                        assert(final(self).remaining() =~= old(self).remaining().drop_first());
                    }
                    Some(Event::Log(e))
                }
            },
            EventArrayIntoIter::Metrics(v) => {
                if v.len() == 0 {
                    proof {
                        assert(final(self).remaining() =~= old(self).remaining());
                    }
                    None
                } else {
                    let e = v.remove(0);
                    proof {
                        assert(final(self).remaining() =~= old(self).remaining().drop_first());
                    }
                    Some(Event::Metric(e))
                }
            },
        }
    }
}

} // verus!
