use vstd::prelude::*;
use vstd::string::StringExecFns;

use crate::kind::{
    empty_shape_view, fields_map, has_field, lemma_fields_map_at, wf_fields, Kind, KindView,
    ObjectView,
};
use crate::value::{Value, ValueView};

verus! {

// ----------------------------------------------------------------------------
// Parsed metric groups
// ----------------------------------------------------------------------------

/// One data point's identity within a group: its label set, in encounter
/// order with unique names, and the sample timestamp when the line carried
/// one.
pub struct GroupKey {
    pub labels: Vec<(String, String)>,
    pub timestamp: Option<i64>,
}

/// A plain scalar sample (counter, gauge or untyped): the value is carried as
/// the decimal token written on the wire, already checked against the float
/// grammar.
pub struct SimpleSample {
    pub key: GroupKey,
    pub value: String,
}

/// A summary's accumulated state for one group key: quantile/value pairs in
/// encounter order, plus the sum and count directives, all as decimal tokens.
pub struct SummarySample {
    pub key: GroupKey,
    pub quantiles: Vec<(String, String)>,
    pub sum: String,
    pub count: String,
}

/// A histogram's accumulated state for one group key: bucket-boundary and
/// cumulative-count pairs in encounter order, plus sum and count, all as
/// decimal tokens.
pub struct HistogramSample {
    pub key: GroupKey,
    pub buckets: Vec<(String, String)>,
    pub sum: String,
    pub count: String,
}

/// The samples of one metric group, tagged by the group's kind.
pub enum GroupData {
    Counter(Vec<SimpleSample>),
    Gauge(Vec<SimpleSample>),
    Untyped(Vec<SimpleSample>),
    Summary(Vec<SummarySample>),
    Histogram(Vec<HistogramSample>),
}

/// One metric group: a name, a kind tag and the samples per group key, in
/// encounter order.
pub struct MetricGroup {
    pub name: String,
    pub data: GroupData,
}

// ----------------------------------------------------------------------------
// The mathematical model of parsed groups
// ----------------------------------------------------------------------------

/// Model of a group key.
#[verifier::ext_equal]
pub struct GroupKeySpec {
    pub labels: Seq<(Seq<char>, Seq<char>)>,
    pub timestamp: Option<int>,
}

/// Model of a scalar sample.
#[verifier::ext_equal]
pub struct SimpleSpec {
    pub key: GroupKeySpec,
    pub value: Seq<char>,
}

/// Model of a summary's state for one group key.
#[verifier::ext_equal]
pub struct SummarySpec {
    pub key: GroupKeySpec,
    pub quantiles: Seq<(Seq<char>, Seq<char>)>,
    pub sum: Seq<char>,
    pub count: Seq<char>,
}

/// Model of a histogram's state for one group key.
#[verifier::ext_equal]
pub struct HistogramSpec {
    pub key: GroupKeySpec,
    pub buckets: Seq<(Seq<char>, Seq<char>)>,
    pub sum: Seq<char>,
    pub count: Seq<char>,
}

/// Model of a group's samples.
#[verifier::ext_equal]
pub enum GroupDataSpec {
    Counter(Seq<SimpleSpec>),
    Gauge(Seq<SimpleSpec>),
    Untyped(Seq<SimpleSpec>),
    Summary(Seq<SummarySpec>),
    Histogram(Seq<HistogramSpec>),
}

/// Model of one metric group.
#[verifier::ext_equal]
pub struct GroupSpec {
    pub name: Seq<char>,
    pub data: GroupDataSpec,
}

/// The models of a sequence of string pairs.
pub open spec fn pairs_view(s: Seq<(String, String)>) -> Seq<(Seq<char>, Seq<char>)> {
    Seq::new(
        s.len(),
        |i: int| if 0 <= i < s.len() {
            (s[i].0@, s[i].1@)
        } else {
            (Seq::<char>::empty(), Seq::<char>::empty())
        },
    )
}

impl GroupKey {
    /// The mathematical model of this key.
    pub open spec fn view(self) -> GroupKeySpec {
        GroupKeySpec {
            labels: pairs_view(self.labels@),
            timestamp: match self.timestamp {
                Some(t) => Some(t as int),
                None => None,
            },
        }
    }
}

impl SimpleSample {
    /// The mathematical model of this sample.
    pub open spec fn view(self) -> SimpleSpec {
        SimpleSpec { key: self.key.view(), value: self.value@ }
    }
}

impl SummarySample {
    /// The mathematical model of this sample.
    pub open spec fn view(self) -> SummarySpec {
        SummarySpec {
            key: self.key.view(),
            quantiles: pairs_view(self.quantiles@),
            sum: self.sum@,
            count: self.count@,
        }
    }
}

impl HistogramSample {
    /// The mathematical model of this sample.
    pub open spec fn view(self) -> HistogramSpec {
        HistogramSpec {
            key: self.key.view(),
            buckets: pairs_view(self.buckets@),
            sum: self.sum@,
            count: self.count@,
        }
    }
}

/// The models of a sequence of scalar samples.
pub open spec fn simple_seq_view(s: Seq<SimpleSample>) -> Seq<SimpleSpec> {
    Seq::new(
        s.len(),
        |i: int| if 0 <= i < s.len() {
            s[i].view()
        } else {
            SimpleSpec {
                key: GroupKeySpec { labels: Seq::empty(), timestamp: None },
                value: Seq::empty(),
            }
        },
    )
}

/// The models of a sequence of summary states.
pub open spec fn summary_seq_view(s: Seq<SummarySample>) -> Seq<SummarySpec> {
    Seq::new(
        s.len(),
        |i: int| if 0 <= i < s.len() {
            s[i].view()
        } else {
            SummarySpec {
                key: GroupKeySpec { labels: Seq::empty(), timestamp: None },
                quantiles: Seq::empty(),
                sum: Seq::empty(),
                count: Seq::empty(),
            }
        },
    )
}

/// The models of a sequence of histogram states.
pub open spec fn histogram_seq_view(s: Seq<HistogramSample>) -> Seq<HistogramSpec> {
    Seq::new(
        s.len(),
        |i: int| if 0 <= i < s.len() {
            s[i].view()
        } else {
            HistogramSpec {
                key: GroupKeySpec { labels: Seq::empty(), timestamp: None },
                buckets: Seq::empty(),
                sum: Seq::empty(),
                count: Seq::empty(),
            }
        },
    )
}

impl GroupData {
    /// The mathematical model of these samples.
    pub open spec fn view(self) -> GroupDataSpec {
        match self {
            GroupData::Counter(ss) => GroupDataSpec::Counter(simple_seq_view(ss@)),
            GroupData::Gauge(ss) => GroupDataSpec::Gauge(simple_seq_view(ss@)),
            GroupData::Untyped(ss) => GroupDataSpec::Untyped(simple_seq_view(ss@)),
            GroupData::Summary(ss) => GroupDataSpec::Summary(summary_seq_view(ss@)),
            GroupData::Histogram(ss) => GroupDataSpec::Histogram(histogram_seq_view(ss@)),
        }
    }
}

impl MetricGroup {
    /// The mathematical model of this group.
    pub open spec fn view(self) -> GroupSpec {
        GroupSpec { name: self.name@, data: self.data.view() }
    }
}

/// The models of a sequence of groups.
pub open spec fn groups_view(gs: Seq<MetricGroup>) -> Seq<GroupSpec> {
    Seq::new(
        gs.len(),
        |i: int| if 0 <= i < gs.len() {
            gs[i].view()
        } else {
            GroupSpec { name: Seq::empty(), data: GroupDataSpec::Untyped(Seq::empty()) }
        },
    )
}

// ----------------------------------------------------------------------------
// The records a decode emits, mathematically
// ----------------------------------------------------------------------------

/// The label set rendered as a string-to-string object, in encounter order.
pub open spec fn labels_view(labels: Seq<(Seq<char>, Seq<char>)>) -> ValueView {
    ValueView::Object(
        Seq::new(
            labels.len(),
            |i: int| if 0 <= i < labels.len() {
                (labels[i].0, ValueView::Bytes(labels[i].1))
            } else {
                (Seq::empty(), ValueView::Integer(0))
            },
        ),
    )
}

/// The trailing fields every record shares: the labels object, then the
/// timestamp — present only when the source sample carried one.
pub open spec fn tail_fields(key: GroupKeySpec) -> Seq<(Seq<char>, ValueView)> {
    let lab = seq![("labels"@, labels_view(key.labels))];
    match key.timestamp {
        Some(t) => lab.push(("timestamp"@, ValueView::Integer(t))),
        None => lab,
    }
}

/// The record for one counter/gauge/untyped sample:
/// `{type, name, value, labels, timestamp?}`.
pub open spec fn simple_record_view(tag: Seq<char>, name: Seq<char>, s: SimpleSpec) -> ValueView {
    ValueView::Object(
        seq![
            ("type"@, ValueView::Bytes(tag)),
            ("name"@, ValueView::Bytes(name)),
            ("value"@, ValueView::Float(s.value)),
        ] + tail_fields(s.key),
    )
}

/// A sequence of `{quantile, value}` objects.
pub open spec fn quantiles_view(q: Seq<(Seq<char>, Seq<char>)>) -> ValueView {
    ValueView::Array(
        Seq::new(
            q.len(),
            |i: int| if 0 <= i < q.len() {
                ValueView::Object(
                    seq![
                        ("quantile"@, ValueView::Float(q[i].0)),
                        ("value"@, ValueView::Float(q[i].1)),
                    ],
                )
            } else {
                ValueView::Integer(0)
            },
        ),
    )
}

/// A sequence of `{bucket, count}` objects.
pub open spec fn buckets_view(b: Seq<(Seq<char>, Seq<char>)>) -> ValueView {
    ValueView::Array(
        Seq::new(
            b.len(),
            |i: int| if 0 <= i < b.len() {
                ValueView::Object(
                    seq![
                        ("bucket"@, ValueView::Float(b[i].0)),
                        ("count"@, ValueView::Float(b[i].1)),
                    ],
                )
            } else {
                ValueView::Integer(0)
            },
        ),
    )
}

/// The record for one summary group key:
/// `{type, name, quantiles, sum, count, labels, timestamp?}`.
pub open spec fn summary_record_view(name: Seq<char>, s: SummarySpec) -> ValueView {
    ValueView::Object(
        seq![
            ("type"@, ValueView::Bytes("summary"@)),
            ("name"@, ValueView::Bytes(name)),
            ("quantiles"@, quantiles_view(s.quantiles)),
            ("sum"@, ValueView::Float(s.sum)),
            ("count"@, ValueView::Float(s.count)),
        ] + tail_fields(s.key),
    )
}

/// The record for one histogram group key:
/// `{type, name, buckets, sum, count, labels, timestamp?}`.
pub open spec fn histogram_record_view(name: Seq<char>, s: HistogramSpec) -> ValueView {
    ValueView::Object(
        seq![
            ("type"@, ValueView::Bytes("histogram"@)),
            ("name"@, ValueView::Bytes(name)),
            ("buckets"@, buckets_view(s.buckets)),
            ("sum"@, ValueView::Float(s.sum)),
            ("count"@, ValueView::Float(s.count)),
        ] + tail_fields(s.key),
    )
}

/// The records one group yields: one per group key, in encounter order, with
/// `type` the lowercase kind name.
pub open spec fn group_records_view(g: GroupSpec) -> Seq<ValueView> {
    match g.data {
        GroupDataSpec::Counter(ss) => Seq::new(
            ss.len(),
            |i: int| if 0 <= i < ss.len() {
                simple_record_view("counter"@, g.name, ss[i])
            } else {
                ValueView::Integer(0)
            },
        ),
        GroupDataSpec::Gauge(ss) => Seq::new(
            ss.len(),
            |i: int| if 0 <= i < ss.len() {
                simple_record_view("gauge"@, g.name, ss[i])
            } else {
                ValueView::Integer(0)
            },
        ),
        GroupDataSpec::Untyped(ss) => Seq::new(
            ss.len(),
            |i: int| if 0 <= i < ss.len() {
                simple_record_view("untyped"@, g.name, ss[i])
            } else {
                ValueView::Integer(0)
            },
        ),
        GroupDataSpec::Summary(ss) => Seq::new(
            ss.len(),
            |i: int| if 0 <= i < ss.len() {
                summary_record_view(g.name, ss[i])
            } else {
                ValueView::Integer(0)
            },
        ),
        GroupDataSpec::Histogram(ss) => Seq::new(
            ss.len(),
            |i: int| if 0 <= i < ss.len() {
                histogram_record_view(g.name, ss[i])
            } else {
                ValueView::Integer(0)
            },
        ),
    }
}

/// The records of the first `n` groups, flattened in group order.
pub open spec fn records_view(groups: Seq<GroupSpec>, n: int) -> Seq<ValueView>
    decreases n,
{
    if n <= 0 || n > groups.len() {
        Seq::empty()
    } else {
        records_view(groups, n - 1) + group_records_view(groups[n - 1])
    }
}

/// The models of a sequence of built values.
pub open spec fn vals_view(s: Seq<Value>) -> Seq<ValueView> {
    Seq::new(
        s.len(),
        |i: int| if 0 <= i < s.len() {
            s[i].view()
        } else {
            ValueView::Integer(0)
        },
    )
}

// ----------------------------------------------------------------------------
// Building the records
// ----------------------------------------------------------------------------

/// Renders a label set as a string-to-string object value.
fn build_labels(labels: &Vec<(String, String)>) -> (r: Value)
    ensures
        r.view() == labels_view(pairs_view(labels@)),
{
    let mut out: Vec<(String, Value)> = Vec::new();
    let mut i: usize = 0;
    while i < labels.len()
        invariant
            i <= labels@.len(),
            out@.len() == i,
            forall|n: int|
                0 <= n < i ==> (#[trigger] out@[n]).0@ == labels@[n].0@ && out@[n].1
                    == Value::Bytes(labels@[n].1),
        decreases labels@.len() - i,
    {
        out.push((labels[i].0.clone(), Value::Bytes(labels[i].1.clone())));
        proof {
            assert(out@[i as int].1->Bytes_0@ == labels@[i as int].1@);
            assert forall|n: int| 0 <= n < i + 1 implies (#[trigger] out@[n]).0@
                == labels@[n].0@ && out@[n].1.view() == ValueView::Bytes(labels@[n].1@) by {}
        }
        i += 1;
    }
    let ghost outg = out@;
    let r = Value::Object(out);
    proof {
        assert(r->Object_0@ == outg);
        assert forall|n: int| 0 <= n < outg.len() implies r.view()->Object_0[n] == labels_view(
            pairs_view(labels@),
        )->Object_0[n] by {
            assert(pairs_view(labels@)[n] == (labels@[n].0@, labels@[n].1@));
            assert(outg[n].0@ == labels@[n].0@);
            assert(outg[n].1.view() == ValueView::Bytes(labels@[n].1@));
        }
        assert(r.view()->Object_0 =~= labels_view(pairs_view(labels@))->Object_0);
        assert(r.view() == labels_view(pairs_view(labels@)));
    }
    r
}

/// Appends the shared trailing fields (labels, then the optional timestamp)
/// to a record under construction.
fn push_tail(out: &mut Vec<(String, Value)>, key: &GroupKey)
    ensures
        final(out)@.len() == old(out)@.len() + tail_fields(key.view()).len(),
        forall|n: int|
            0 <= n < old(out)@.len() ==> final(out)@[n] == old(out)@[n],
        forall|n: int|
            old(out)@.len() <= n < final(out)@.len() ==> (#[trigger] final(out)@[n]).0@
                == tail_fields(key.view())[n - old(out)@.len()].0 && final(out)@[n].1.view()
                == tail_fields(key.view())[n - old(out)@.len()].1,
{
    let lv = build_labels(&key.labels);
    out.push(("labels".to_owned(), lv));
    match &key.timestamp {
        Some(t) => {
            out.push(("timestamp".to_owned(), Value::Integer(*t)));
        },
        None => {},
    }
}

/// Builds the record for one counter/gauge/untyped sample.
fn build_simple_record(tag: &str, name: &String, s: &SimpleSample) -> (r: Value)
    ensures
        r.view() == simple_record_view(tag@, name@, s.view()),
{
    let mut out: Vec<(String, Value)> = Vec::new();
    out.push(("type".to_owned(), Value::Bytes(tag.to_owned())));
    out.push(("name".to_owned(), Value::Bytes(name.clone())));
    out.push(("value".to_owned(), Value::Float(s.value.clone())));
    push_tail(&mut out, &s.key);
    let ghost outg = out@;
    let r = Value::Object(out);
    proof {
        assert(r->Object_0@ == outg);
        let head = seq![
            ("type"@, ValueView::Bytes(tag@)),
            ("name"@, ValueView::Bytes(name@)),
            ("value"@, ValueView::Float(s.value@)),
        ];
        let full = head + tail_fields(s.key.view());
        assert(outg.len() == full.len());
        assert forall|n: int| 0 <= n < outg.len() implies r.view()->Object_0[n] == full[n] by {
            if n < 3 {
                assert(full[n] == head[n]);
                assert(outg[n].0@ == head[n].0 && outg[n].1.view() == head[n].1);
            } else {
                assert(full[n] == tail_fields(s.key.view())[n - 3]);
                assert(outg[n].0@ == tail_fields(s.key.view())[n - 3].0 && outg[n].1.view()
                    == tail_fields(s.key.view())[n - 3].1);
            }
        }
        assert(r.view()->Object_0 =~= full);
        assert(r.view() == simple_record_view(tag@, name@, s.view()));
    }
    r
}

/// Builds the `{quantile, value}` array of a summary record.
fn build_quantiles(q: &Vec<(String, String)>) -> (r: Value)
    ensures
        r.view() == quantiles_view(pairs_view(q@)),
{
    let mut out: Vec<Value> = Vec::new();
    let mut i: usize = 0;
    while i < q.len()
        invariant
            i <= q@.len(),
            out@.len() == i,
            forall|n: int|
                0 <= n < i ==> (#[trigger] out@[n]).view() == quantiles_view(pairs_view(q@))->Array_0[n],
        decreases q@.len() - i,
    {
        let mut pair: Vec<(String, Value)> = Vec::new();
        pair.push(("quantile".to_owned(), Value::Float(q[i].0.clone())));
        pair.push(("value".to_owned(), Value::Float(q[i].1.clone())));
        let ghost pairg = pair@;
        let v = Value::Object(pair);
        proof {
            assert(v->Object_0@ == pairg);
            assert(pairg[0].0@ == "quantile"@ && pairg[1].0@ == "value"@);
            assert(pairs_view(q@)[i as int] == (q@[i as int].0@, q@[i as int].1@));
            assert(pairg[0].1.view() == ValueView::Float(q@[i as int].0@));
            assert(pairg[1].1.view() == ValueView::Float(q@[i as int].1@));
            assert(v.view()->Object_0[0] == quantiles_view(pairs_view(q@))->Array_0[i as int]->Object_0[0]);
            assert(v.view()->Object_0[1] == quantiles_view(pairs_view(q@))->Array_0[i as int]->Object_0[1]);
            assert(v.view()->Object_0 =~= quantiles_view(pairs_view(q@))->Array_0[i as int]->Object_0);
            assert(v.view() == quantiles_view(pairs_view(q@))->Array_0[i as int]);
        }
        out.push(v);
        i += 1;
    }
    let ghost outg = out@;
    let r = Value::Array(out);
    proof {
        assert(r->Array_0@ == outg);
        assert(r.view()->Array_0 =~= quantiles_view(pairs_view(q@))->Array_0);
        assert(r.view() == quantiles_view(pairs_view(q@)));
    }
    r
}

/// Builds the `{bucket, count}` array of a histogram record.
fn build_buckets(b: &Vec<(String, String)>) -> (r: Value)
    ensures
        r.view() == buckets_view(pairs_view(b@)),
{
    let mut out: Vec<Value> = Vec::new();
    let mut i: usize = 0;
    while i < b.len()
        invariant
            i <= b@.len(),
            out@.len() == i,
            forall|n: int|
                0 <= n < i ==> (#[trigger] out@[n]).view() == buckets_view(pairs_view(b@))->Array_0[n],
        decreases b@.len() - i,
    {
        let mut pair: Vec<(String, Value)> = Vec::new();
        pair.push(("bucket".to_owned(), Value::Float(b[i].0.clone())));
        pair.push(("count".to_owned(), Value::Float(b[i].1.clone())));
        let ghost pairg = pair@;
        let v = Value::Object(pair);
        proof {
            assert(v->Object_0@ == pairg);
            assert(pairg[0].0@ == "bucket"@ && pairg[1].0@ == "count"@);
            assert(pairs_view(b@)[i as int] == (b@[i as int].0@, b@[i as int].1@));
            assert(pairg[0].1.view() == ValueView::Float(b@[i as int].0@));
            assert(pairg[1].1.view() == ValueView::Float(b@[i as int].1@));
            assert(v.view()->Object_0[0] == buckets_view(pairs_view(b@))->Array_0[i as int]->Object_0[0]);
            assert(v.view()->Object_0[1] == buckets_view(pairs_view(b@))->Array_0[i as int]->Object_0[1]);
            assert(v.view()->Object_0 =~= buckets_view(pairs_view(b@))->Array_0[i as int]->Object_0);
            assert(v.view() == buckets_view(pairs_view(b@))->Array_0[i as int]);
        }
        out.push(v);
        i += 1;
    }
    let ghost outg = out@;
    let r = Value::Array(out);
    proof {
        assert(r->Array_0@ == outg);
        assert(r.view()->Array_0 =~= buckets_view(pairs_view(b@))->Array_0);
        assert(r.view() == buckets_view(pairs_view(b@)));
    }
    r
}

/// Builds the record for one summary group key.
fn build_summary_record(name: &String, s: &SummarySample) -> (r: Value)
    ensures
        r.view() == summary_record_view(name@, s.view()),
{
    let mut out: Vec<(String, Value)> = Vec::new();
    out.push(("type".to_owned(), Value::Bytes("summary".to_owned())));
    out.push(("name".to_owned(), Value::Bytes(name.clone())));
    let qv = build_quantiles(&s.quantiles);
    out.push(("quantiles".to_owned(), qv));
    out.push(("sum".to_owned(), Value::Float(s.sum.clone())));
    out.push(("count".to_owned(), Value::Float(s.count.clone())));
    push_tail(&mut out, &s.key);
    let ghost outg = out@;
    let r = Value::Object(out);
    proof {
        assert(r->Object_0@ == outg);
        let head = seq![
            ("type"@, ValueView::Bytes("summary"@)),
            ("name"@, ValueView::Bytes(name@)),
            ("quantiles"@, quantiles_view(pairs_view(s.quantiles@))),
            ("sum"@, ValueView::Float(s.sum@)),
            ("count"@, ValueView::Float(s.count@)),
        ];
        let full = head + tail_fields(s.key.view());
        assert(outg.len() == full.len());
        assert forall|n: int| 0 <= n < outg.len() implies r.view()->Object_0[n] == full[n] by {
            if n < 5 {
                assert(full[n] == head[n]);
                assert(outg[n].0@ == head[n].0 && outg[n].1.view() == head[n].1);
            } else {
                assert(full[n] == tail_fields(s.key.view())[n - 5]);
                assert(outg[n].0@ == tail_fields(s.key.view())[n - 5].0 && outg[n].1.view()
                    == tail_fields(s.key.view())[n - 5].1);
            }
        }
        assert(r.view()->Object_0 =~= full);
        assert(r.view() == summary_record_view(name@, s.view()));
    }
    r
}

/// Builds the record for one histogram group key.
fn build_histogram_record(name: &String, s: &HistogramSample) -> (r: Value)
    ensures
        r.view() == histogram_record_view(name@, s.view()),
{
    let mut out: Vec<(String, Value)> = Vec::new();
    out.push(("type".to_owned(), Value::Bytes("histogram".to_owned())));
    out.push(("name".to_owned(), Value::Bytes(name.clone())));
    let bv = build_buckets(&s.buckets);
    out.push(("buckets".to_owned(), bv));
    out.push(("sum".to_owned(), Value::Float(s.sum.clone())));
    out.push(("count".to_owned(), Value::Float(s.count.clone())));
    push_tail(&mut out, &s.key);
    let ghost outg = out@;
    let r = Value::Object(out);
    proof {
        assert(r->Object_0@ == outg);
        let head = seq![
            ("type"@, ValueView::Bytes("histogram"@)),
            ("name"@, ValueView::Bytes(name@)),
            ("buckets"@, buckets_view(pairs_view(s.buckets@))),
            ("sum"@, ValueView::Float(s.sum@)),
            ("count"@, ValueView::Float(s.count@)),
        ];
        let full = head + tail_fields(s.key.view());
        assert(outg.len() == full.len());
        assert forall|n: int| 0 <= n < outg.len() implies r.view()->Object_0[n] == full[n] by {
            if n < 5 {
                assert(full[n] == head[n]);
                assert(outg[n].0@ == head[n].0 && outg[n].1.view() == head[n].1);
            } else {
                assert(full[n] == tail_fields(s.key.view())[n - 5]);
                assert(outg[n].0@ == tail_fields(s.key.view())[n - 5].0 && outg[n].1.view()
                    == tail_fields(s.key.view())[n - 5].1);
            }
        }
        assert(r.view()->Object_0 =~= full);
        assert(r.view() == histogram_record_view(name@, s.view()));
    }
    r
}

/// Flattens parsed metric groups into their records: one object per group
/// key, in group order then group-key order, exactly as `records_view`
/// states. Nothing is re-sorted and nothing is deduplicated.
pub fn groups_to_records(groups: &Vec<MetricGroup>) -> (r: Vec<Value>)
    ensures
        vals_view(r@) == records_view(groups_view(groups@), groups@.len() as int),
{
    let mut out: Vec<Value> = Vec::new();
    let mut gi: usize = 0;
    while gi < groups.len()
        invariant
            gi <= groups@.len(),
            vals_view(out@) =~= records_view(groups_view(groups@), gi as int),
        decreases groups@.len() - gi,
    {
        let ghost pre = out@;
        let g = &groups[gi];
        let ghost grecs = group_records_view(g.view());
        match &g.data {
            GroupData::Counter(ss) => {
                let mut si: usize = 0;
                while si < ss.len()
                    invariant
                        si <= ss@.len(),
                        gi < groups@.len(),
                        *g == groups@[gi as int],
                        vals_view(pre) == records_view(groups_view(groups@), gi as int),
                        groups@[gi as int].data == GroupData::Counter(*ss),
                        grecs == group_records_view(groups@[gi as int].view()),
                        out@.len() == pre.len() + si,
                        forall|n: int| 0 <= n < pre.len() ==> out@[n] == pre[n],
                        forall|n: int|
                            0 <= n < si ==> (#[trigger] out@[pre.len() + n]).view() == grecs[n],
                    decreases ss@.len() - si,
                {
                    let v = build_simple_record("counter", &g.name, &ss[si]);
                    out.push(v);
                    si += 1;
                }
                proof {
                    assert(grecs.len() == ss@.len());
                    assert(out@.len() == pre.len() + grecs.len());
                    assert forall|n: int| 0 <= n < out@.len() implies vals_view(out@)[n] == (
                    records_view(groups_view(groups@), gi as int) + grecs)[n] by {
                        if n < pre.len() {
                            assert(out@[n] == pre[n]);
                            assert(vals_view(pre)[n] == records_view(groups_view(groups@), gi as int)[n]);
                        } else {
                            assert(out@[pre.len() + (n - pre.len())].view() == grecs[n
                                - pre.len()]);
                        }
                    }
                    assert(vals_view(out@) =~= records_view(groups_view(groups@), gi as int)
                        + grecs);
                    assert(groups_view(groups@)[gi as int] == groups@[gi as int].view());
                    assert(records_view(groups_view(groups@), gi as int + 1) == records_view(
                        groups_view(groups@),
                        gi as int,
                    ) + grecs);
                    assert(vals_view(out@) =~= records_view(groups_view(groups@), gi as int + 1));
                }
            },
            GroupData::Gauge(ss) => {
                let mut si: usize = 0;
                while si < ss.len()
                    invariant
                        si <= ss@.len(),
                        gi < groups@.len(),
                        *g == groups@[gi as int],
                        vals_view(pre) == records_view(groups_view(groups@), gi as int),
                        groups@[gi as int].data == GroupData::Gauge(*ss),
                        grecs == group_records_view(groups@[gi as int].view()),
                        out@.len() == pre.len() + si,
                        forall|n: int| 0 <= n < pre.len() ==> out@[n] == pre[n],
                        forall|n: int|
                            0 <= n < si ==> (#[trigger] out@[pre.len() + n]).view() == grecs[n],
                    decreases ss@.len() - si,
                {
                    let v = build_simple_record("gauge", &g.name, &ss[si]);
                    out.push(v);
                    si += 1;
                }
                proof {
                    assert(grecs.len() == ss@.len());
                    assert(out@.len() == pre.len() + grecs.len());
                    assert forall|n: int| 0 <= n < out@.len() implies vals_view(out@)[n] == (
                    records_view(groups_view(groups@), gi as int) + grecs)[n] by {
                        if n < pre.len() {
                            assert(out@[n] == pre[n]);
                            assert(vals_view(pre)[n] == records_view(groups_view(groups@), gi as int)[n]);
                        } else {
                            assert(out@[pre.len() + (n - pre.len())].view() == grecs[n
                                - pre.len()]);
                        }
                    }
                    assert(vals_view(out@) =~= records_view(groups_view(groups@), gi as int)
                        + grecs);
                    assert(groups_view(groups@)[gi as int] == groups@[gi as int].view());
                    assert(records_view(groups_view(groups@), gi as int + 1) == records_view(
                        groups_view(groups@),
                        gi as int,
                    ) + grecs);
                    assert(vals_view(out@) =~= records_view(groups_view(groups@), gi as int + 1));
                }
            },
            GroupData::Untyped(ss) => {
                let mut si: usize = 0;
                while si < ss.len()
                    invariant
                        si <= ss@.len(),
                        gi < groups@.len(),
                        *g == groups@[gi as int],
                        vals_view(pre) == records_view(groups_view(groups@), gi as int),
                        groups@[gi as int].data == GroupData::Untyped(*ss),
                        grecs == group_records_view(groups@[gi as int].view()),
                        out@.len() == pre.len() + si,
                        forall|n: int| 0 <= n < pre.len() ==> out@[n] == pre[n],
                        forall|n: int|
                            0 <= n < si ==> (#[trigger] out@[pre.len() + n]).view() == grecs[n],
                    decreases ss@.len() - si,
                {
                    let v = build_simple_record("untyped", &g.name, &ss[si]);
                    out.push(v);
                    si += 1;
                }
                proof {
                    assert(grecs.len() == ss@.len());
                    assert(out@.len() == pre.len() + grecs.len());
                    assert forall|n: int| 0 <= n < out@.len() implies vals_view(out@)[n] == (
                    records_view(groups_view(groups@), gi as int) + grecs)[n] by {
                        if n < pre.len() {
                            assert(out@[n] == pre[n]);
                            assert(vals_view(pre)[n] == records_view(groups_view(groups@), gi as int)[n]);
                        } else {
                            assert(out@[pre.len() + (n - pre.len())].view() == grecs[n
                                - pre.len()]);
                        }
                    }
                    assert(vals_view(out@) =~= records_view(groups_view(groups@), gi as int)
                        + grecs);
                    assert(groups_view(groups@)[gi as int] == groups@[gi as int].view());
                    assert(records_view(groups_view(groups@), gi as int + 1) == records_view(
                        groups_view(groups@),
                        gi as int,
                    ) + grecs);
                    assert(vals_view(out@) =~= records_view(groups_view(groups@), gi as int + 1));
                }
            },
            GroupData::Summary(ss) => {
                let mut si: usize = 0;
                while si < ss.len()
                    invariant
                        si <= ss@.len(),
                        gi < groups@.len(),
                        *g == groups@[gi as int],
                        vals_view(pre) == records_view(groups_view(groups@), gi as int),
                        groups@[gi as int].data == GroupData::Summary(*ss),
                        grecs == group_records_view(groups@[gi as int].view()),
                        out@.len() == pre.len() + si,
                        forall|n: int| 0 <= n < pre.len() ==> out@[n] == pre[n],
                        forall|n: int|
                            0 <= n < si ==> (#[trigger] out@[pre.len() + n]).view() == grecs[n],
                    decreases ss@.len() - si,
                {
                    let v = build_summary_record(&g.name, &ss[si]);
                    out.push(v);
                    si += 1;
                }
                proof {
                    assert(grecs.len() == ss@.len());
                    assert(out@.len() == pre.len() + grecs.len());
                    assert forall|n: int| 0 <= n < out@.len() implies vals_view(out@)[n] == (
                    records_view(groups_view(groups@), gi as int) + grecs)[n] by {
                        if n < pre.len() {
                            assert(out@[n] == pre[n]);
                            assert(vals_view(pre)[n] == records_view(groups_view(groups@), gi as int)[n]);
                        } else {
                            assert(out@[pre.len() + (n - pre.len())].view() == grecs[n
                                - pre.len()]);
                        }
                    }
                    assert(vals_view(out@) =~= records_view(groups_view(groups@), gi as int)
                        + grecs);
                    assert(groups_view(groups@)[gi as int] == groups@[gi as int].view());
                    assert(records_view(groups_view(groups@), gi as int + 1) == records_view(
                        groups_view(groups@),
                        gi as int,
                    ) + grecs);
                    assert(vals_view(out@) =~= records_view(groups_view(groups@), gi as int + 1));
                }
            },
            GroupData::Histogram(ss) => {
                let mut si: usize = 0;
                while si < ss.len()
                    invariant
                        si <= ss@.len(),
                        gi < groups@.len(),
                        *g == groups@[gi as int],
                        vals_view(pre) == records_view(groups_view(groups@), gi as int),
                        groups@[gi as int].data == GroupData::Histogram(*ss),
                        grecs == group_records_view(groups@[gi as int].view()),
                        out@.len() == pre.len() + si,
                        forall|n: int| 0 <= n < pre.len() ==> out@[n] == pre[n],
                        forall|n: int|
                            0 <= n < si ==> (#[trigger] out@[pre.len() + n]).view() == grecs[n],
                    decreases ss@.len() - si,
                {
                    let v = build_histogram_record(&g.name, &ss[si]);
                    out.push(v);
                    si += 1;
                }
                proof {
                    assert(grecs.len() == ss@.len());
                    assert(out@.len() == pre.len() + grecs.len());
                    assert forall|n: int| 0 <= n < out@.len() implies vals_view(out@)[n] == (
                    records_view(groups_view(groups@), gi as int) + grecs)[n] by {
                        if n < pre.len() {
                            assert(out@[n] == pre[n]);
                            assert(vals_view(pre)[n] == records_view(groups_view(groups@), gi as int)[n]);
                        } else {
                            assert(out@[pre.len() + (n - pre.len())].view() == grecs[n
                                - pre.len()]);
                        }
                    }
                    assert(vals_view(out@) =~= records_view(groups_view(groups@), gi as int)
                        + grecs);
                    assert(groups_view(groups@)[gi as int] == groups@[gi as int].view());
                    assert(records_view(groups_view(groups@), gi as int + 1) == records_view(
                        groups_view(groups@),
                        gi as int,
                    ) + grecs);
                    assert(vals_view(out@) =~= records_view(groups_view(groups@), gi as int + 1));
                }
            },
        }
        gi += 1;
    }
    proof {
        assert(vals_view(out@) =~= records_view(groups_view(groups@), groups@.len() as int));
    }
    out
}

// ----------------------------------------------------------------------------
// Errors
// ----------------------------------------------------------------------------

/// What a line violated.
#[derive(Debug, PartialEq, Eq)]
pub enum ParseErrorKind {
    InvalidName,
    InvalidLabels,
    DuplicateLabel,
    InvalidValue,
    InvalidTimestamp,
    InvalidTypeLine,
}

/// A grammar violation: the whole decode fails atomically, carrying the first
/// offending line (counted from zero) and what it violated.
#[derive(Debug, PartialEq, Eq)]
pub struct ParseError {
    pub line: usize,
    pub kind: ParseErrorKind,
}

impl ParseError {
    /// The diagnostic message.
    pub fn message(&self) -> (r: String)
        ensures
            match self.kind {
                ParseErrorKind::InvalidName => r@ == "invalid metric name"@,
                ParseErrorKind::InvalidLabels => r@ == "malformed label set"@,
                ParseErrorKind::DuplicateLabel => r@ == "duplicate label name"@,
                ParseErrorKind::InvalidValue => r@ == "missing or malformed sample value"@,
                ParseErrorKind::InvalidTimestamp => r@ == "malformed timestamp"@,
                ParseErrorKind::InvalidTypeLine => r@ == "malformed type directive"@,
            },
    {
        match self.kind {
            ParseErrorKind::InvalidName => String::from_str("invalid metric name"),
            ParseErrorKind::InvalidLabels => String::from_str("malformed label set"),
            ParseErrorKind::DuplicateLabel => String::from_str("duplicate label name"),
            ParseErrorKind::InvalidValue => String::from_str("missing or malformed sample value"),
            ParseErrorKind::InvalidTimestamp => String::from_str("malformed timestamp"),
            ParseErrorKind::InvalidTypeLine => String::from_str("malformed type directive"),
        }
    }
}

// ----------------------------------------------------------------------------
// Trusted edges: byte decoding, character access, float syntax
// ----------------------------------------------------------------------------

/// What lossy UTF-8 decoding makes of a byte sequence; a function of the
/// bytes alone.
pub uninterp spec fn lossy_of(b: Seq<u8>) -> Seq<char>;

/// Relies on String::from_utf8_lossy: invalid sequences become replacement
/// characters, never a failure, and the result depends on the bytes alone.
#[verifier::external_body]
fn lossy_utf8(b: &[u8]) -> (r: String)
    ensures
        r@ == lossy_of(b@),
{
    String::from_utf8_lossy(b).into_owned()
}

/// Relies on str::chars: the characters of the string, in order.
#[verifier::external_body]
fn chars_of(s: &str) -> (r: Vec<char>)
    ensures
        r@ == s@,
{
    s.chars().collect()
}

/// Relies on String::from_iter over char: the string of exactly these
/// characters, in order.
#[verifier::external_body]
fn string_of_chars(v: &[char]) -> (r: String)
    ensures
        r@ == v@,
{
    v.iter().collect()
}

// ----------------------------------------------------------------------------
// The line grammar
// ----------------------------------------------------------------------------

/// Horizontal whitespace within a line.
pub open spec fn is_space(c: char) -> bool {
    c == ' ' || c == '\t' || c == '\r'
}

/// A decimal digit.
pub open spec fn is_digit(c: char) -> bool {
    '0' <= c && c <= '9'
}

/// A character that may start a metric name.
pub open spec fn is_name_start(c: char) -> bool {
    ('a' <= c && c <= 'z') || ('A' <= c && c <= 'Z') || c == '_' || c == ':'
}

/// A character that may continue a metric name.
pub open spec fn is_name_char(c: char) -> bool {
    is_name_start(c) || is_digit(c)
}

/// A character that may start a label name.
pub open spec fn is_label_start(c: char) -> bool {
    ('a' <= c && c <= 'z') || ('A' <= c && c <= 'Z') || c == '_'
}

/// A character that may continue a label name.
pub open spec fn is_label_char(c: char) -> bool {
    is_label_start(c) || is_digit(c)
}

fn space_char(c: char) -> (r: bool)
    ensures
        r == is_space(c),
{
    c == ' ' || c == '\t' || c == '\r'
}

fn name_char(c: char, first: bool) -> (r: bool)
    ensures
        r == if first {
            is_name_start(c)
        } else {
            is_name_char(c)
        },
{
    ('a' <= c && c <= 'z') || ('A' <= c && c <= 'Z') || c == '_' || c == ':' || (!first && '0' <= c
        && c <= '9')
}

fn label_char(c: char, first: bool) -> (r: bool)
    ensures
        r == if first {
            is_label_start(c)
        } else {
            is_label_char(c)
        },
{
    ('a' <= c && c <= 'z') || ('A' <= c && c <= 'Z') || c == '_' || (!first && '0' <= c && c
        <= '9')
}

/// Advances past horizontal whitespace.
fn skip_ws(l: &[char], i: usize) -> (r: usize)
    requires
        i <= l@.len(),
    ensures
        i <= r <= l@.len(),
        r == spec_skip_ws(l@, i as int),
        forall|n: int| i <= n < r ==> is_space(#[trigger] l@[n]),
        r < l@.len() ==> !is_space(l@[r as int]),
{
    let mut j = i;
    while j < l.len() && space_char(l[j])
        invariant
            i <= j <= l@.len(),
            spec_skip_ws(l@, i as int) == spec_skip_ws(l@, j as int),
            forall|n: int| i <= n < j ==> is_space(#[trigger] l@[n]),
        decreases l@.len() - j,
    {
        j += 1;
    }
    j
}

/// Scans a maximal metric name starting at `i`; the result equals `i` when no
/// name starts there.
fn scan_name(l: &[char], i: usize) -> (r: usize)
    requires
        i <= l@.len(),
    ensures
        i <= r <= l@.len(),
        r == spec_scan_name(l@, i as int),
{
    if i >= l.len() || !name_char(l[i], true) {
        return i;
    }
    let mut j = i + 1;
    while j < l.len() && name_char(l[j], false)
        invariant
            i < j <= l@.len(),
            is_name_start(l@[i as int]),
            spec_scan_name_rest(l@, i as int + 1) == spec_scan_name_rest(l@, j as int),
        decreases l@.len() - j,
    {
        j += 1;
    }
    j
}

/// Scans a maximal label name starting at `i`.
fn scan_label_name(l: &[char], i: usize) -> (r: usize)
    requires
        i <= l@.len(),
    ensures
        i <= r <= l@.len(),
        r == spec_scan_label_name(l@, i as int),
{
    if i >= l.len() || !label_char(l[i], true) {
        return i;
    }
    let mut j = i + 1;
    while j < l.len() && label_char(l[j], false)
        invariant
            i < j <= l@.len(),
            is_label_start(l@[i as int]),
            spec_scan_label_rest(l@, i as int + 1) == spec_scan_label_rest(l@, j as int),
        decreases l@.len() - j,
    {
        j += 1;
    }
    j
}

/// Scans a maximal run of non-whitespace characters starting at `i`.
fn scan_token(l: &[char], i: usize) -> (r: usize)
    requires
        i <= l@.len(),
    ensures
        i <= r <= l@.len(),
        r == spec_scan_token(l@, i as int),
{
    let mut j = i;
    while j < l.len() && !space_char(l[j])
        invariant
            i <= j <= l@.len(),
            spec_scan_token(l@, i as int) == spec_scan_token(l@, j as int),
        decreases l@.len() - j,
    {
        j += 1;
    }
    j
}

/// Copies `l[i..j]` out as an owned string.
fn slice_string(l: &[char], i: usize, j: usize) -> (r: String)
    requires
        i <= j <= l@.len(),
    ensures
        r@ == l@.subrange(i as int, j as int),
{
    let s = vstd::slice::slice_subrange(l, i, j);
    string_of_chars(s)
}

/// The value of the digit run `l[k..j]` folded onto `acc`, refusing any
/// non-digit and any magnitude beyond the signed 64-bit range.
pub open spec fn spec_digits_i64(l: Seq<char>, k: int, j: int, acc: int) -> Option<int>
    decreases j - k,
{
    if k >= j {
        Some(acc)
    } else if !is_digit(l[k]) {
        None
    } else {
        let a2 = acc * 10 + (l[k] as int - '0' as int);
        if a2 > 0x8000000000000000 {
            None
        } else {
            spec_digits_i64(l, k + 1, j, a2)
        }
    }
}

/// The signed 64-bit value of the token `l[i..j]`: an optional minus sign,
/// then at least one digit, within range; `None` otherwise.
pub open spec fn spec_parse_i64(l: Seq<char>, i: int, j: int) -> Option<int> {
    let neg = i < j && l[i] == '-';
    let k: int = if neg {
        i + 1
    } else {
        i
    };
    if k >= j {
        None
    } else {
        match spec_digits_i64(l, k, j, 0) {
            None => None,
            Some(m) => if neg {
                Some(-m)
            } else if m > 0x7fffffffffffffff {
                None
            } else {
                Some(m)
            },
        }
    }
}

/// Parses a decimal integer token (an optional minus sign, then digits) as a
/// signed 64-bit value; `None` when malformed or out of range.
fn parse_i64_token(l: &[char], i: usize, j: usize) -> (r: Option<i64>)
    requires
        i <= j <= l@.len(),
    ensures
        match r {
            Some(t) => spec_parse_i64(l@, i as int, j as int) == Some(t as int),
            None => spec_parse_i64(l@, i as int, j as int) is None,
        },
{
    let mut k = i;
    let mut negative = false;
    if k < j && l[k] == '-' {
        negative = true;
        k += 1;
    }
    if k >= j {
        return None;
    }
    let ghost k0 = k as int;
    let mut acc: u64 = 0;
    while k < j
        invariant
            i <= k <= j <= l@.len(),
            k0 <= k as int,
            k0 < j as int,
            negative == (i < j && l@[i as int] == '-'),
            k0 == if negative {
                i as int + 1
            } else {
                i as int
            },
            acc <= 0x8000000000000000,
            spec_digits_i64(l@, k0, j as int, 0) == spec_digits_i64(l@, k as int, j as int, acc as int),
        decreases j - k,
    {
        let c = l[k];
        if !('0' <= c && c <= '9') {
            return None;
        }
        let d = (c as u32 - '0' as u32) as u64;
        // largest accumulator whose next step cannot exceed the 64-bit range
        if acc > 1844674407370955160u64 {
            proof {
                assert(acc as int * 10 + (c as int - '0' as int) > 0x8000000000000000);
            }
            return None;
        }
        acc = acc * 10 + d;
        if acc > 0x8000000000000000 {
            return None;
        }
        k += 1;
    }
    if negative {
        if acc == 0x8000000000000000 {
            Some(i64::MIN)
        } else {
            Some(-(acc as i64))
        }
    } else {
        if acc > 0x7fffffffffffffff {
            None
        } else {
            Some(acc as i64)
        }
    }
}

/// Compares a built string against a literal, by contents.
fn str_eq_lit(s: &String, lit: &str) -> (r: bool)
    ensures
        r == (s@ == lit@),
{
    let other = String::from_str(lit);
    *s == other
}

fn digit_char(c: char) -> (r: bool)
    ensures
        r == is_digit(c),
{
    '0' <= c && c <= '9'
}

/// The end of the run of digits beginning at `i`.
pub open spec fn span_digits(s: Seq<char>, i: int) -> int
    decreases s.len() - i,
{
    if 0 <= i < s.len() && is_digit(s[i]) {
        span_digits(s, i + 1)
    } else {
        i
    }
}

proof fn lemma_span_digits_bounds(s: Seq<char>, i: int)
    requires
        0 <= i <= s.len(),
    ensures
        i <= span_digits(s, i) <= s.len(),
    decreases s.len() - i,
{
    if i < s.len() && is_digit(s[i]) {
        lemma_span_digits_bounds(s, i + 1);
    }
}

fn span_digits_exec(t: &[char], i: usize) -> (r: usize)
    requires
        i <= t@.len(),
    ensures
        i <= r <= t@.len(),
        r == span_digits(t@, i as int),
{
    proof {
        lemma_span_digits_bounds(t@, i as int);
    }
    let mut j = i;
    while j < t.len() && digit_char(t[j])
        invariant
            i <= j <= t@.len(),
            span_digits(t@, i as int) == span_digits(t@, j as int),
        decreases t@.len() - j,
    {
        j += 1;
    }
    j
}

/// A sign-free exponent part: optional sign, then at least one digit and
/// nothing else.
pub open spec fn is_exp_token(e: Seq<char>) -> bool {
    let d: int = if e.len() > 0 && (e[0] == '+' || e[0] == '-') {
        1
    } else {
        0
    };
    e.len() > d && span_digits(e, d) == e.len()
}

/// A sign-free decimal number: digits with an optional fractional part (at
/// least one digit overall), then an optional `e`/`E` exponent.
pub open spec fn is_decimal_token(b: Seq<char>) -> bool {
    let d1 = span_digits(b, 0);
    let m_end: int = if d1 < b.len() && b[d1] == '.' {
        span_digits(b, d1 + 1)
    } else {
        d1
    };
    let has_digit = d1 > 0 || (d1 < b.len() && b[d1] == '.' && m_end > d1 + 1);
    has_digit && (m_end == b.len() || ((b[m_end] == 'e' || b[m_end] == 'E') && is_exp_token(
        b.skip(m_end + 1),
    )))
}

/// The canonical special floating values of the exposition format.
pub open spec fn is_special_token(b: Seq<char>) -> bool {
    b == "Inf"@ || b == "inf"@ || b == "INF"@ || b == "NaN"@ || b == "nan"@ || b == "NAN"@
}

/// The float grammar a sample value must meet: an optional sign, then a
/// decimal number or a special value.
pub open spec fn is_float_token(t: Seq<char>) -> bool {
    t.len() > 0 && {
        let b = if t[0] == '+' || t[0] == '-' {
            t.skip(1)
        } else {
            t
        };
        is_special_token(b) || is_decimal_token(b)
    }
}

/// Checks `l[i..j]` against the float grammar.
fn float_token(l: &[char], i: usize, j: usize) -> (r: bool)
    requires
        i <= j <= l@.len(),
    ensures
        r == is_float_token(l@.subrange(i as int, j as int)),
{
    let t = vstd::slice::slice_subrange(l, i, j);
    let ghost tv = l@.subrange(i as int, j as int);
    if t.len() == 0 {
        return false;
    }
    let start: usize = if t[0] == '+' || t[0] == '-' {
        1
    } else {
        0
    };
    let b = vstd::slice::slice_subrange(t, start, t.len());
    let ghost bv = if tv[0] == '+' || tv[0] == '-' {
        tv.skip(1)
    } else {
        tv
    };
    proof {
        assert(b@ =~= bv);
    }
    let bs = string_of_chars(b);
    if str_eq_lit(&bs, "Inf") || str_eq_lit(&bs, "inf") || str_eq_lit(&bs, "INF") || str_eq_lit(
        &bs,
        "NaN",
    ) || str_eq_lit(&bs, "nan") || str_eq_lit(&bs, "NAN") {
        return true;
    }
    let d1 = span_digits_exec(b, 0);
    let m_end: usize = if d1 < b.len() && b[d1] == '.' {
        span_digits_exec(b, d1 + 1)
    } else {
        d1
    };
    let has_digit = d1 > 0 || (d1 < b.len() && b[d1] == '.' && m_end > d1 + 1);
    if !has_digit {
        return false;
    }
    if m_end == b.len() {
        return true;
    }
    if !(b[m_end] == 'e' || b[m_end] == 'E') {
        return false;
    }
    let e = vstd::slice::slice_subrange(b, m_end + 1, b.len());
    proof {
        assert(e@ =~= bv.skip(m_end + 1));
    }
    let d: usize = if e.len() > 0 && (e[0] == '+' || e[0] == '-') {
        1
    } else {
        0
    };
    e.len() > d && span_digits_exec(e, d) == e.len()
}

/// The position after the whitespace run beginning at `i`.
pub open spec fn spec_skip_ws(l: Seq<char>, i: int) -> int
    decreases l.len() - i,
{
    if 0 <= i < l.len() && is_space(l[i]) {
        spec_skip_ws(l, i + 1)
    } else {
        i
    }
}

pub proof fn lemma_spec_skip_ws_bounds(l: Seq<char>, i: int)
    requires
        0 <= i <= l.len(),
    ensures
        i <= spec_skip_ws(l, i) <= l.len(),
    decreases l.len() - i,
{
    if i < l.len() && is_space(l[i]) {
        lemma_spec_skip_ws_bounds(l, i + 1);
    }
}

/// The end of the name-character run beginning at `i`.
pub open spec fn spec_scan_name_rest(l: Seq<char>, i: int) -> int
    decreases l.len() - i,
{
    if 0 <= i < l.len() && is_name_char(l[i]) {
        spec_scan_name_rest(l, i + 1)
    } else {
        i
    }
}

/// The end of the metric name beginning at `i`; `i` itself when none starts
/// there.
pub open spec fn spec_scan_name(l: Seq<char>, i: int) -> int {
    if 0 <= i < l.len() && is_name_start(l[i]) {
        spec_scan_name_rest(l, i + 1)
    } else {
        i
    }
}

/// The end of the label-name run beginning at `i`.
pub open spec fn spec_scan_label_rest(l: Seq<char>, i: int) -> int
    decreases l.len() - i,
{
    if 0 <= i < l.len() && is_label_char(l[i]) {
        spec_scan_label_rest(l, i + 1)
    } else {
        i
    }
}

/// The end of the label name beginning at `i`; `i` itself when none starts
/// there.
pub open spec fn spec_scan_label_name(l: Seq<char>, i: int) -> int {
    if 0 <= i < l.len() && is_label_start(l[i]) {
        spec_scan_label_rest(l, i + 1)
    } else {
        i
    }
}

pub proof fn lemma_spec_scan_label_bounds(l: Seq<char>, i: int)
    requires
        0 <= i <= l.len(),
    ensures
        i <= spec_scan_label_name(l, i) <= l.len(),
        i <= spec_scan_label_rest(l, i) <= l.len(),
    decreases l.len() - i,
{
    if i < l.len() {
        lemma_spec_scan_label_bounds(l, i + 1);
    }
}

/// The end of the non-whitespace run beginning at `i`.
pub open spec fn spec_scan_token(l: Seq<char>, i: int) -> int
    decreases l.len() - i,
{
    if 0 <= i < l.len() && !is_space(l[i]) {
        spec_scan_token(l, i + 1)
    } else {
        i
    }
}

/// The position of the first newline at or after `i`, or the end.
pub open spec fn spec_find_nl(l: Seq<char>, i: int) -> int
    decreases l.len() - i,
{
    if 0 <= i < l.len() && l[i] != '\n' {
        spec_find_nl(l, i + 1)
    } else {
        i
    }
}

pub proof fn lemma_spec_find_nl_bounds(l: Seq<char>, i: int)
    requires
        0 <= i <= l.len(),
    ensures
        i <= spec_find_nl(l, i) <= l.len(),
    decreases l.len() - i,
{
    if i < l.len() && l[i] != '\n' {
        lemma_spec_find_nl_bounds(l, i + 1);
    }
}

/// One parsed sample line, before grouping: the metric name, the label set in
/// encounter order, the value's float bits, and the timestamp if one was
/// written.
struct SampleLine {
    name: Vec<char>,
    labels: Vec<(String, String)>,
    value: String,
    timestamp: Option<i64>,
}

/// The kind word of a type directive.
pub enum TypeTag {
    Counter,
    Gauge,
    Summary,
    Histogram,
    Untyped,
}

/// What one line of exposition text means.
enum Line {
    Blank,
    Type(Vec<char>, TypeTag),
    Sample(SampleLine),
}

/// Model of one parsed sample line.
#[verifier::ext_equal]
pub struct SampleSpec {
    pub name: Seq<char>,
    pub labels: Seq<(Seq<char>, Seq<char>)>,
    pub value: Seq<char>,
    pub timestamp: Option<int>,
}

/// Model of what one line means.
#[verifier::ext_equal]
pub enum LineSpec {
    Blank,
    Type(Seq<char>, TypeTag),
    Sample(SampleSpec),
}

impl SampleLine {
    /// The mathematical model of this sample line.
    spec fn view(self) -> SampleSpec {
        SampleSpec {
            name: self.name@,
            labels: pairs_view(self.labels@),
            value: self.value@,
            timestamp: match self.timestamp {
                Some(t) => Some(t as int),
                None => None,
            },
        }
    }
}

impl Line {
    /// The mathematical model of this line.
    spec fn view(self) -> LineSpec {
        match self {
            Line::Blank => LineSpec::Blank,
            Line::Type(name, tag) => LineSpec::Type(name@, tag),
            Line::Sample(sample) => LineSpec::Sample(sample.view()),
        }
    }
}

/// The quoted label value beginning at `i` (just after the opening quote),
/// accumulated onto `acc` with `\\`, `\"` and `\n` escapes resolved; the
/// result carries the value and the position after the closing quote, or
/// nothing when the quote never closes.
pub open spec fn spec_scan_label_value(l: Seq<char>, i: int, acc: Seq<char>) -> Option<
    (Seq<char>, int),
>
    decreases l.len() - i,
{
    if i < 0 || i >= l.len() {
        None
    } else if l[i] == '"' {
        Some((acc, i + 1))
    } else if l[i] == '\\' {
        if i + 1 >= l.len() {
            None
        } else {
            spec_scan_label_value(
                l,
                i + 2,
                acc.push(
                    if l[i + 1] == 'n' {
                        '\n'
                    } else {
                        l[i + 1]
                    },
                ),
            )
        }
    } else {
        spec_scan_label_value(l, i + 1, acc.push(l[i]))
    }
}

pub proof fn lemma_spec_scan_label_value_bounds(l: Seq<char>, i: int, acc: Seq<char>)
    requires
        0 <= i <= l.len(),
    ensures
        spec_scan_label_value(l, i, acc) is Some ==> i < spec_scan_label_value(l, i, acc)->Some_0.1
            <= l.len(),
    decreases l.len() - i,
{
    if 0 <= i < l.len() && l[i] != '"' {
        if l[i] == '\\' {
            if i + 1 < l.len() {
                lemma_spec_scan_label_value_bounds(
                    l,
                    i + 2,
                    acc.push(
                        if l[i + 1] == 'n' {
                            '\n'
                        } else {
                            l[i + 1]
                        },
                    ),
                );
            }
        } else {
            lemma_spec_scan_label_value_bounds(l, i + 1, acc.push(l[i]));
        }
    }
}

/// Some accumulated label already carries this name.
pub open spec fn spec_has_label(acc: Seq<(Seq<char>, Seq<char>)>, k: Seq<char>) -> bool {
    exists|n: int| 0 <= n < acc.len() && acc[n].0 == k
}

/// The label block read from the loop head at `i` (just after the opening
/// brace or a separating comma), accumulated onto `acc`: label names are
/// maximal runs, values are quoted with escapes, duplicates are refused, and
/// the result carries the labels in encounter order and the position after
/// the closing brace.
pub open spec fn spec_parse_labels(
    l: Seq<char>,
    i: int,
    acc: Seq<(Seq<char>, Seq<char>)>,
) -> Result<(Seq<(Seq<char>, Seq<char>)>, int), ParseErrorKind>
    decreases l.len() - i,
        when 0 <= i <= l.len()
{
    let j = spec_skip_ws(l, i);
    if j >= l.len() {
        Err(ParseErrorKind::InvalidLabels)
    } else if l[j] == '}' {
        Ok((acc, j + 1))
    } else {
        let ne = spec_scan_label_name(l, j);
        if ne == j {
            Err(ParseErrorKind::InvalidLabels)
        } else if spec_has_label(acc, l.subrange(j, ne)) {
            Err(ParseErrorKind::DuplicateLabel)
        } else {
            let k = spec_skip_ws(l, ne);
            if k >= l.len() || l[k] != '=' {
                Err(ParseErrorKind::InvalidLabels)
            } else {
                let q = spec_skip_ws(l, k + 1);
                if q >= l.len() || l[q] != '"' {
                    Err(ParseErrorKind::InvalidLabels)
                } else {
                    match spec_scan_label_value(l, q + 1, Seq::empty()) {
                        None => Err(ParseErrorKind::InvalidLabels),
                        Some((val, after)) => {
                            let w = spec_skip_ws(l, after);
                            if w >= l.len() {
                                Err(ParseErrorKind::InvalidLabels)
                            } else if l[w] == ',' {
                                proof {
                                    lemma_spec_skip_ws_bounds(l, i);
                                    lemma_spec_scan_label_bounds(l, j);
                                    lemma_spec_skip_ws_bounds(l, ne);
                                    lemma_spec_skip_ws_bounds(l, k + 1);
                                    lemma_spec_scan_label_value_bounds(l, q + 1, Seq::empty());
                                    lemma_spec_skip_ws_bounds(l, after);
                                }
                                spec_parse_labels(l, w + 1, acc.push((l.subrange(j, ne), val)))
                            } else if l[w] == '}' {
                                Ok((acc.push((l.subrange(j, ne), val)), w + 1))
                            } else {
                                Err(ParseErrorKind::InvalidLabels)
                            }
                        },
                    }
                }
            }
        }
    }
}

/// Parses the label block beginning at the opening brace; returns the label
/// set, with unique names and in encounter order, and the position after the
/// closing brace.
fn parse_labels(l: &[char], start: usize) -> (r: Result<(Vec<(String, String)>, usize), ParseErrorKind>)
    requires
        start < l@.len(),
    ensures
        r is Ok ==> r->Ok_0.1 <= l@.len(),
        match r {
            Ok(p) => spec_parse_labels(l@, start as int + 1, Seq::empty()) == Ok::<
                (Seq<(Seq<char>, Seq<char>)>, int),
                ParseErrorKind,
            >((pairs_view(p.0@), p.1 as int)),
            Err(k) => spec_parse_labels(l@, start as int + 1, Seq::empty()) == Err::<
                (Seq<(Seq<char>, Seq<char>)>, int),
                ParseErrorKind,
            >(k),
        },
{
    let mut labels: Vec<(String, String)> = Vec::new();
    let n = l.len();
    let mut i = start + 1;
    proof {
        assert(pairs_view(labels@) =~= Seq::<(Seq<char>, Seq<char>)>::empty());
    }
    loop
        invariant
            n == l@.len(),
            i <= l@.len(),
            spec_parse_labels(l@, start as int + 1, Seq::empty()) == spec_parse_labels(
                l@,
                i as int,
                pairs_view(labels@),
            ),
        decreases l@.len() - i,
    {
        let ghost i0 = i as int;
        let ghost accv = pairs_view(labels@);
        i = skip_ws(l, i);
        if i >= l.len() {
            return Err(ParseErrorKind::InvalidLabels);
        }
        if l[i] == '}' {
            return Ok((labels, i + 1));
        }
        let ne = scan_label_name(l, i);
        if ne == i {
            return Err(ParseErrorKind::InvalidLabels);
        }
        let lname = slice_string(l, i, ne);
        let ghost namev = l@.subrange(i as int, ne as int);
        let mut d: usize = 0;
        let mut dup = false;
        while d < labels.len()
            invariant
                d <= labels@.len(),
                lname@ == namev,
                accv == pairs_view(labels@),
                dup ==> spec_has_label(accv, namev),
                !dup ==> forall|m: int| 0 <= m < d ==> (#[trigger] labels@[m]).0@ != namev,
            decreases labels@.len() - d,
        {
            if !dup && labels[d].0 == lname {
                proof {
                    assert(accv[d as int].0 == namev);
                }
                dup = true;
            }
            d += 1;
        }
        if dup {
            return Err(ParseErrorKind::DuplicateLabel);
        }
        proof {
            assert forall|m: int| 0 <= m < accv.len() implies (#[trigger] accv[m]).0 != namev by {
                assert(accv[m].0 == labels@[m].0@);
            }
            assert(!spec_has_label(accv, namev));
        }
        i = skip_ws(l, ne);
        if i >= l.len() || l[i] != '=' {
            return Err(ParseErrorKind::InvalidLabels);
        }
        i = skip_ws(l, i + 1);
        if i >= l.len() || l[i] != '"' {
            return Err(ParseErrorKind::InvalidLabels);
        }
        i += 1;
        let ghost q0 = i as int;
        let mut value: Vec<char> = Vec::new();
        let mut closed = false;
        let mut bad = false;
        proof {
            assert(value@ =~= Seq::<char>::empty());
        }
        while i < l.len() && !closed && !bad
            invariant
                q0 <= i <= l@.len(),
                n == l@.len(),
                !bad && !closed ==> spec_scan_label_value(l@, q0, Seq::empty())
                    == spec_scan_label_value(l@, i as int, value@),
                !bad && closed ==> spec_scan_label_value(l@, q0, Seq::empty()) == Some(
                    (value@, i as int),
                ),
                bad ==> spec_scan_label_value(l@, q0, Seq::empty()) is None,
            decreases l@.len() - i, (if bad {
                0int
            } else {
                1int
            }),
        {
            let c = l[i];
            if c == '"' {
                closed = true;
                i += 1;
            } else if c == '\\' {
                if i + 1 >= l.len() {
                    proof {
                        assert(spec_scan_label_value(l@, i as int, value@) is None);
                    }
                    bad = true;
                } else {
                    let e = l[i + 1];
                    if e == 'n' {
                        value.push('\n');
                    } else {
                        value.push(e);
                    }
                    i += 2;
                }
            } else {
                value.push(c);
                i += 1;
            }
        }
        if bad {
            return Err(ParseErrorKind::InvalidLabels);
        }
        if !closed {
            proof {
                assert(spec_scan_label_value(l@, i as int, value@) is None);
            }
            return Err(ParseErrorKind::InvalidLabels);
        }
        let ghost valv = value@;
        labels.push((lname, string_of_chars(value.as_slice())));
        proof {
            assert(pairs_view(labels@) =~= accv.push((namev, valv)));
        }
        i = skip_ws(l, i);
        if i >= l.len() {
            return Err(ParseErrorKind::InvalidLabels);
        }
        if l[i] == ',' {
            i += 1;
            proof {
                assert(spec_parse_labels(l@, i0, accv) == spec_parse_labels(
                    l@,
                    i as int,
                    pairs_view(labels@),
                ));
            }
        } else if l[i] != '}' {
            return Err(ParseErrorKind::InvalidLabels);
        } else {
            proof {
                assert(spec_parse_labels(l@, i0, accv) == Ok::<
                    (Seq<(Seq<char>, Seq<char>)>, int),
                    ParseErrorKind,
                >((pairs_view(labels@), i as int + 1)));
                assert(spec_skip_ws(l@, i as int) == i as int);
                assert(spec_parse_labels(l@, i as int, pairs_view(labels@)) == Ok::<
                    (Seq<(Seq<char>, Seq<char>)>, int),
                    ParseErrorKind,
                >((pairs_view(labels@), i as int + 1)));
            }
        }
        proof {
            assert(i as int > i0);
        }
    }
}

/// What one line of exposition text means: blank or comment, a `# TYPE`
/// directive, or a sample of the form `name{label="value",...} value
/// [timestamp]`; `# HELP` and other comments carry no data and read as blank.
pub open spec fn spec_parse_line(l: Seq<char>) -> Result<LineSpec, ParseErrorKind> {
    let i = spec_skip_ws(l, 0);
    if i >= l.len() {
        Ok(LineSpec::Blank)
    } else if l[i] == '#' {
        let ws = spec_skip_ws(l, i + 1);
        let we = spec_scan_token(l, ws);
        if l.subrange(ws, we) != "TYPE"@ {
            Ok(LineSpec::Blank)
        } else {
            let ns = spec_skip_ws(l, we);
            let ne = spec_scan_name(l, ns);
            if ne == ns {
                Err(ParseErrorKind::InvalidTypeLine)
            } else {
                let ks = spec_skip_ws(l, ne);
                let ke = spec_scan_token(l, ks);
                let kw = l.subrange(ks, ke);
                if !(kw == "counter"@ || kw == "gauge"@ || kw == "summary"@ || kw == "histogram"@
                    || kw == "untyped"@) {
                    Err(ParseErrorKind::InvalidTypeLine)
                } else if spec_skip_ws(l, ke) < l.len() {
                    Err(ParseErrorKind::InvalidTypeLine)
                } else {
                    let tag = if kw == "counter"@ {
                        TypeTag::Counter
                    } else if kw == "gauge"@ {
                        TypeTag::Gauge
                    } else if kw == "summary"@ {
                        TypeTag::Summary
                    } else if kw == "histogram"@ {
                        TypeTag::Histogram
                    } else {
                        TypeTag::Untyped
                    };
                    Ok(LineSpec::Type(l.subrange(ns, ne), tag))
                }
            }
        }
    } else {
        let ne = spec_scan_name(l, i);
        if ne == i {
            Err(ParseErrorKind::InvalidName)
        } else {
            let lab = if ne < l.len() && l[ne] == '{' {
                spec_parse_labels(l, ne + 1, Seq::empty())
            } else {
                Ok((Seq::empty(), ne))
            };
            match lab {
                Err(k) => Err(k),
                Ok((labels, after)) => {
                    let vs = spec_skip_ws(l, after);
                    let ve = spec_scan_token(l, vs);
                    if ve == vs {
                        Err(ParseErrorKind::InvalidValue)
                    } else if !is_float_token(l.subrange(vs, ve)) {
                        Err(ParseErrorKind::InvalidValue)
                    } else {
                        let name = l.subrange(i, ne);
                        let value = l.subrange(vs, ve);
                        let ts = spec_skip_ws(l, ve);
                        if ts >= l.len() {
                            Ok(
                                LineSpec::Sample(
                                    SampleSpec { name, labels, value, timestamp: None },
                                ),
                            )
                        } else {
                            let te = spec_scan_token(l, ts);
                            match spec_parse_i64(l, ts, te) {
                                None => Err(ParseErrorKind::InvalidTimestamp),
                                Some(t) => if spec_skip_ws(l, te) < l.len() {
                                    Err(ParseErrorKind::InvalidTimestamp)
                                } else {
                                    Ok(
                                        LineSpec::Sample(
                                            SampleSpec {
                                                name,
                                                labels,
                                                value,
                                                timestamp: Some(t),
                                            },
                                        ),
                                    )
                                },
                            }
                        }
                    }
                },
            }
        }
    }
}

/// Parses one line: blank or comment, a `# TYPE` directive, or a sample of
/// the form `name{label="value",...} value [timestamp]`, exactly as
/// `spec_parse_line` states.
fn parse_line(l: &[char]) -> (r: Result<Line, ParseErrorKind>)
    ensures
        match r {
            Ok(line) => spec_parse_line(l@) == Ok::<LineSpec, ParseErrorKind>(line.view()),
            Err(k) => spec_parse_line(l@) == Err::<LineSpec, ParseErrorKind>(k),
        },
{
    let mut i = skip_ws(l, 0);
    if i >= l.len() {
        return Ok(Line::Blank);
    }
    if l[i] == '#' {
        i = skip_ws(l, i + 1);
        let we = scan_token(l, i);
        let word = slice_string(l, i, we);
        if !str_eq_lit(&word, "TYPE") {
            return Ok(Line::Blank);
        }
        i = skip_ws(l, we);
        let ne = scan_name(l, i);
        if ne == i {
            return Err(ParseErrorKind::InvalidTypeLine);
        }
        let name = slice_string(l, i, ne);
        i = skip_ws(l, ne);
        let ke = scan_token(l, i);
        let kind_word = slice_string(l, i, ke);
        let tag = if str_eq_lit(&kind_word, "counter") {
            TypeTag::Counter
        } else if str_eq_lit(&kind_word, "gauge") {
            TypeTag::Gauge
        } else if str_eq_lit(&kind_word, "summary") {
            TypeTag::Summary
        } else if str_eq_lit(&kind_word, "histogram") {
            TypeTag::Histogram
        } else if str_eq_lit(&kind_word, "untyped") {
            TypeTag::Untyped
        } else {
            return Err(ParseErrorKind::InvalidTypeLine);
        };
        i = skip_ws(l, ke);
        if i < l.len() {
            return Err(ParseErrorKind::InvalidTypeLine);
        }
        let name_chars = chars_of(name.as_str());
        let r = Line::Type(name_chars, tag);
        proof {
            assert(spec_parse_line(l@) == Ok::<LineSpec, ParseErrorKind>(r.view()));
        }
        return Ok(r);
    }
    let ne = scan_name(l, i);
    if ne == i {
        return Err(ParseErrorKind::InvalidName);
    }
    let name = vstd::slice::slice_to_vec(vstd::slice::slice_subrange(l, i, ne));
    i = ne;
    let mut labels: Vec<(String, String)> = Vec::new();
    proof {
        assert(pairs_view(labels@) =~= Seq::<(Seq<char>, Seq<char>)>::empty());
    }
    if i < l.len() && l[i] == '{' {
        match parse_labels(l, i) {
            Ok((lbs, after)) => {
                labels = lbs;
                i = after;
            },
            Err(k) => {
                return Err(k);
            },
        }
    }
    i = skip_ws(l, i);
    let ve = scan_token(l, i);
    if ve == i {
        return Err(ParseErrorKind::InvalidValue);
    }
    if !float_token(l, i, ve) {
        return Err(ParseErrorKind::InvalidValue);
    }
    let value = slice_string(l, i, ve);
    i = skip_ws(l, ve);
    let mut timestamp: Option<i64> = None;
    if i < l.len() {
        let te = scan_token(l, i);
        match parse_i64_token(l, i, te) {
            Some(t) => {
                timestamp = Some(t);
            },
            None => {
                return Err(ParseErrorKind::InvalidTimestamp);
            },
        }
        i = skip_ws(l, te);
        if i < l.len() {
            return Err(ParseErrorKind::InvalidTimestamp);
        }
    }
    let sample = SampleLine { name, labels, value, timestamp };
    proof {
        assert(spec_parse_line(l@) == Ok::<LineSpec, ParseErrorKind>(
            Line::Sample(sample).view(),
        ));
    }
    Ok(Line::Sample(sample))
}

// ----------------------------------------------------------------------------
// Grouping
// ----------------------------------------------------------------------------

/// Character-wise equality of two names.
fn chars_eq(a: &Vec<char>, b: &Vec<char>) -> (r: bool)
    ensures
        r == (a@ == b@),
{
    if a.len() != b.len() {
        proof {
            assert(a@ != b@);
        }
        return false;
    }
    let mut i: usize = 0;
    while i < a.len()
        invariant
            i <= a@.len(),
            a@.len() == b@.len(),
            forall|n: int| 0 <= n < i ==> a@[n] == b@[n],
        decreases a@.len() - i,
    {
        if a[i] != b[i] {
            return false;
        }
        i += 1;
    }
    proof {
        assert(a@ =~= b@);
    }
    true
}

/// Does `sample` read as `base` followed by `suf`?
fn has_suffix(sample: &Vec<char>, base: &Vec<char>, suf: &Vec<char>) -> (r: bool)
    ensures
        r == (sample@ == base@ + suf@),
{
    if sample.len() < base.len() || sample.len() - base.len() != suf.len() {
        proof {
            assert(sample@ != base@ + suf@);
        }
        return false;
    }
    let mut i: usize = 0;
    while i < base.len()
        invariant
            i <= base@.len(),
            sample@.len() == base@.len() + suf@.len(),
            forall|n: int| 0 <= n < i ==> sample@[n] == base@[n],
        decreases base@.len() - i,
    {
        if sample[i] != base[i] {
            proof {
                assert(sample@[i as int] != (base@ + suf@)[i as int]);
            }
            return false;
        }
        i += 1;
    }
    let mut j: usize = 0;
    while j < suf.len()
        invariant
            j <= suf@.len(),
            sample@.len() <= usize::MAX,
            sample@.len() == base@.len() + suf@.len(),
            forall|n: int| 0 <= n < base@.len() ==> sample@[n] == base@[n],
            forall|n: int| 0 <= n < j ==> sample@[base@.len() + n] == suf@[n],
        decreases suf@.len() - j,
    {
        if sample[base.len() + j] != suf[j] {
            proof {
                assert(sample@[base@.len() + j as int] != (base@ + suf@)[base@.len() + j as int]);
            }
            return false;
        }
        j += 1;
    }
    proof {
        assert(sample@ =~= base@ + suf@);
    }
    true
}

/// Do two group keys name the same data point (same labels, in order, and the
/// same timestamp)?
fn keys_equal(a: &GroupKey, b: &GroupKey) -> (r: bool)
    ensures
        r == (a.view() == b.view()),
{
    match (&a.timestamp, &b.timestamp) {
        (Some(x), Some(y)) => {
            if *x != *y {
                return false;
            }
        },
        (None, None) => {},
        _ => {
            return false;
        },
    }
    if a.labels.len() != b.labels.len() {
        proof {
            assert(a.view().labels.len() != b.view().labels.len());
        }
        return false;
    }
    let mut i: usize = 0;
    while i < a.labels.len()
        invariant
            i <= a.labels@.len(),
            a.labels@.len() == b.labels@.len(),
            forall|n: int|
                0 <= n < i ==> (#[trigger] a.labels@[n]).0@ == b.labels@[n].0@
                    && a.labels@[n].1@ == b.labels@[n].1@,
        decreases a.labels@.len() - i,
    {
        if !(a.labels[i].0 == b.labels[i].0) || !(a.labels[i].1 == b.labels[i].1) {
            proof {
                assert(a.view().labels[i as int] != b.view().labels[i as int]);
            }
            return false;
        }
        i += 1;
    }
    proof {
        assert(a.view().labels =~= b.view().labels);
        assert(a.view() =~= b.view());
    }
    true
}

/// The first label named `key` taken out of the list: its value, if any, and
/// the remaining labels in order, accumulated onto `found` and `rest`.
pub open spec fn spec_take_label_from(
    labels: Seq<(Seq<char>, Seq<char>)>,
    key: Seq<char>,
    found: Option<Seq<char>>,
    rest: Seq<(Seq<char>, Seq<char>)>,
) -> (Option<Seq<char>>, Seq<(Seq<char>, Seq<char>)>)
    decreases labels.len(),
{
    if labels.len() == 0 {
        (found, rest)
    } else if found is None && labels[0].0 == key {
        spec_take_label_from(labels.drop_first(), key, Some(labels[0].1), rest)
    } else {
        spec_take_label_from(labels.drop_first(), key, found, rest.push(labels[0]))
    }
}

/// The first label named `key`, and the labels that remain.
pub open spec fn spec_take_label(labels: Seq<(Seq<char>, Seq<char>)>, key: Seq<char>) -> (
    Option<Seq<char>>,
    Seq<(Seq<char>, Seq<char>)>,
) {
    spec_take_label_from(labels, key, None, Seq::empty())
}

/// Removes the first label named `key`, handing back its value and the
/// remaining labels in order, as `spec_take_label` states.
fn take_label(labels: Vec<(String, String)>, key: &str) -> (r: (
    Option<String>,
    Vec<(String, String)>,
))
    ensures
        ({
            let sp = spec_take_label(pairs_view(labels@), key@);
            &&& match r.0 {
                Some(v) => sp.0 == Some::<Seq<char>>(v@),
                None => sp.0 is None,
            }
            &&& pairs_view(r.1@) == sp.1
        }),
{
    let ghost origv = pairs_view(labels@);
    let mut rest: Vec<(String, String)> = Vec::new();
    let mut found: Option<String> = None;
    let mut src = labels;
    proof {
        assert(pairs_view(rest@) =~= Seq::<(Seq<char>, Seq<char>)>::empty());
    }
    while src.len() > 0
        invariant
            spec_take_label_from(origv, key@, None, Seq::empty()) == spec_take_label_from(
                pairs_view(src@),
                key@,
                match found {
                    Some(v) => Some(v@),
                    None => None,
                },
                pairs_view(rest@),
            ),
        decreases src@.len(),
    {
        let ghost pre = pairs_view(src@);
        let (k, v) = src.remove(0);
        proof {
            assert(pre[0] == (k@, v@));
            assert(pairs_view(src@) =~= pre.drop_first());
        }
        if found.is_none() && str_eq_lit(&k, key) {
            found = Some(v);
        } else {
            let ghost restv = pairs_view(rest@);
            rest.push((k, v));
            proof {
                assert(pairs_view(rest@) =~= restv.push((k@, v@)));
            }
        }
    }
    proof {
        assert(pairs_view(src@) =~= Seq::<(Seq<char>, Seq<char>)>::empty());
    }
    (found, rest)
}

fn zero_token() -> (r: String)
    ensures
        r@ == "0"@,
{
    String::from_str("0")
}

/// The first index whose entry carries `key`, from `m` on; the length when
/// none does.
pub open spec fn spec_sum_index(entries: Seq<SummarySpec>, key: GroupKeySpec, m: int) -> int
    decreases entries.len() - m,
{
    if m < 0 || m >= entries.len() {
        entries.len() as int
    } else if entries[m].key == key {
        m
    } else {
        spec_sum_index(entries, key, m + 1)
    }
}

proof fn lemma_sum_index_at(entries: Seq<SummarySpec>, key: GroupKeySpec, m: int, idx: int)
    requires
        0 <= m <= idx <= entries.len(),
        forall|n: int| m <= n < idx ==> (#[trigger] entries[n]).key != key,
        idx < entries.len() ==> entries[idx].key == key,
    ensures
        spec_sum_index(entries, key, m) == idx,
    decreases idx - m,
{
    if m < idx {
        lemma_sum_index_at(entries, key, m + 1, idx);
    }
}

/// The first index whose entry carries `key`, from `m` on; the length when
/// none does.
pub open spec fn spec_hist_index(entries: Seq<HistogramSpec>, key: GroupKeySpec, m: int) -> int
    decreases entries.len() - m,
{
    if m < 0 || m >= entries.len() {
        entries.len() as int
    } else if entries[m].key == key {
        m
    } else {
        spec_hist_index(entries, key, m + 1)
    }
}

proof fn lemma_hist_index_at(entries: Seq<HistogramSpec>, key: GroupKeySpec, m: int, idx: int)
    requires
        0 <= m <= idx <= entries.len(),
        forall|n: int| m <= n < idx ==> (#[trigger] entries[n]).key != key,
        idx < entries.len() ==> entries[idx].key == key,
    ensures
        spec_hist_index(entries, key, m) == idx,
    decreases idx - m,
{
    if m < idx {
        lemma_hist_index_at(entries, key, m + 1, idx);
    }
}

/// The summary entries after one directive lands on `key`'s entry (a fresh
/// one, with zero sum and count, when the key is new): a quantile appended,
/// or the sum or count replaced.
pub open spec fn spec_summary_apply(
    entries: Seq<SummarySpec>,
    key: GroupKeySpec,
    quantile: Option<(Seq<char>, Seq<char>)>,
    sum: Option<Seq<char>>,
    count: Option<Seq<char>>,
) -> Seq<SummarySpec> {
    let idx = spec_sum_index(entries, key, 0);
    let e0 = if idx < entries.len() {
        entries[idx]
    } else {
        SummarySpec { key, quantiles: Seq::empty(), sum: "0"@, count: "0"@ }
    };
    let e1 = match quantile {
        Some(q) => SummarySpec { quantiles: e0.quantiles.push(q), ..e0 },
        None => e0,
    };
    let e2 = match sum {
        Some(v) => SummarySpec { sum: v, ..e1 },
        None => e1,
    };
    let e3 = match count {
        Some(v) => SummarySpec { count: v, ..e2 },
        None => e2,
    };
    if idx < entries.len() {
        entries.update(idx, e3)
    } else {
        entries.push(e3)
    }
}

/// The histogram entries after one directive lands on `key`'s entry: a bucket
/// appended, or the sum or count replaced.
pub open spec fn spec_histogram_apply(
    entries: Seq<HistogramSpec>,
    key: GroupKeySpec,
    bucket: Option<(Seq<char>, Seq<char>)>,
    sum: Option<Seq<char>>,
    count: Option<Seq<char>>,
) -> Seq<HistogramSpec> {
    let idx = spec_hist_index(entries, key, 0);
    let e0 = if idx < entries.len() {
        entries[idx]
    } else {
        HistogramSpec { key, buckets: Seq::empty(), sum: "0"@, count: "0"@ }
    };
    let e1 = match bucket {
        Some(b) => HistogramSpec { buckets: e0.buckets.push(b), ..e0 },
        None => e0,
    };
    let e2 = match sum {
        Some(v) => HistogramSpec { sum: v, ..e1 },
        None => e1,
    };
    let e3 = match count {
        Some(v) => HistogramSpec { count: v, ..e2 },
        None => e2,
    };
    if idx < entries.len() {
        entries.update(idx, e3)
    } else {
        entries.push(e3)
    }
}

/// The model of an optional token.
pub open spec fn opt_view(o: Option<String>) -> Option<Seq<char>> {
    match o {
        Some(v) => Some(v@),
        None => None,
    }
}

/// The model of an optional token pair.
pub open spec fn opt_pair_view(o: Option<(String, String)>) -> Option<(Seq<char>, Seq<char>)> {
    match o {
        Some(p) => Some((p.0@, p.1@)),
        None => None,
    }
}

/// Finds the summary entry for `key`, or appends a fresh one, and applies one
/// directive to it: a quantile observation, the sum, or the count.
fn summary_apply(
    entries: &mut Vec<SummarySample>,
    key: GroupKey,
    quantile: Option<(String, String)>,
    sum: Option<String>,
    count: Option<String>,
)
    ensures
        summary_seq_view(final(entries)@) == spec_summary_apply(
            summary_seq_view(old(entries)@),
            key.view(),
            opt_pair_view(quantile),
            opt_view(sum),
            opt_view(count),
        ),
{
    let ghost origv = summary_seq_view(entries@);
    let mut idx: usize = 0;
    let mut found = false;
    while idx < entries.len() && !found
        invariant
            idx <= entries@.len(),
            origv == summary_seq_view(entries@),
            found ==> idx < entries@.len() && origv[idx as int].key == key.view(),
            forall|n: int| 0 <= n < idx ==> (#[trigger] origv[n]).key != key.view(),
        decreases entries@.len() - idx, (if found {
            0int
        } else {
            1int
        }),
    {
        if keys_equal(&entries[idx].key, &key) {
            found = true;
        } else {
            idx += 1;
        }
    }
    proof {
        if found {
            lemma_sum_index_at(origv, key.view(), 0, idx as int);
        } else {
            lemma_sum_index_at(origv, key.view(), 0, origv.len() as int);
        }
    }
    let ghost kv = key.view();
    let mut e = if found && idx < entries.len() {
        entries.remove(idx)
    } else {
        SummarySample { key, quantiles: Vec::new(), sum: zero_token(), count: zero_token() }
    };
    proof {
        if !found {
            assert(pairs_view(e.quantiles@) =~= Seq::<(Seq<char>, Seq<char>)>::empty());
        }
    }
    let ghost e0 = e.view();
    proof {
        assert(e0 == if spec_sum_index(origv, kv, 0) < origv.len() {
            origv[spec_sum_index(origv, kv, 0)]
        } else {
            SummarySpec { key: kv, quantiles: Seq::empty(), sum: "0"@, count: "0"@ }
        });
    }
    match quantile {
        Some(q) => {
            let ghost qs = pairs_view(e.quantiles@);
            let ghost qv = (q.0@, q.1@);
            e.quantiles.push(q);
            proof {
                assert(pairs_view(e.quantiles@) =~= qs.push(qv));
            }
        },
        None => {},
    }
    match sum {
        Some(v) => {
            e.sum = v;
        },
        None => {},
    }
    match count {
        Some(v) => {
            e.count = v;
        },
        None => {},
    }
    if found && idx <= entries.len() {
        let ghost prev = summary_seq_view(entries@);
        entries.insert(idx, e);
        proof {
            assert(summary_seq_view(entries@) =~= origv.update(idx as int, e.view()));
            assert(summary_seq_view(entries@) =~= spec_summary_apply(
                origv,
                key.view(),
                opt_pair_view(quantile),
                opt_view(sum),
                opt_view(count),
            ));
        }
    } else {
        entries.push(e);
        proof {
            assert(summary_seq_view(entries@) =~= origv.push(e.view()));
            assert(summary_seq_view(entries@) =~= spec_summary_apply(
                origv,
                key.view(),
                opt_pair_view(quantile),
                opt_view(sum),
                opt_view(count),
            ));
        }
    }
}

/// Finds the histogram entry for `key`, or appends a fresh one, and applies
/// one directive to it: a bucket observation, the sum, or the count.
fn histogram_apply(
    entries: &mut Vec<HistogramSample>,
    key: GroupKey,
    bucket: Option<(String, String)>,
    sum: Option<String>,
    count: Option<String>,
)
    ensures
        histogram_seq_view(final(entries)@) == spec_histogram_apply(
            histogram_seq_view(old(entries)@),
            key.view(),
            opt_pair_view(bucket),
            opt_view(sum),
            opt_view(count),
        ),
{
    let ghost origv = histogram_seq_view(entries@);
    let mut idx: usize = 0;
    let mut found = false;
    while idx < entries.len() && !found
        invariant
            idx <= entries@.len(),
            origv == histogram_seq_view(entries@),
            found ==> idx < entries@.len() && origv[idx as int].key == key.view(),
            forall|n: int| 0 <= n < idx ==> (#[trigger] origv[n]).key != key.view(),
        decreases entries@.len() - idx, (if found {
            0int
        } else {
            1int
        }),
    {
        if keys_equal(&entries[idx].key, &key) {
            found = true;
        } else {
            idx += 1;
        }
    }
    proof {
        if found {
            lemma_hist_index_at(origv, key.view(), 0, idx as int);
        } else {
            lemma_hist_index_at(origv, key.view(), 0, origv.len() as int);
        }
    }
    let ghost kv = key.view();
    let mut e = if found && idx < entries.len() {
        entries.remove(idx)
    } else {
        HistogramSample { key, buckets: Vec::new(), sum: zero_token(), count: zero_token() }
    };
    proof {
        if !found {
            assert(pairs_view(e.buckets@) =~= Seq::<(Seq<char>, Seq<char>)>::empty());
        }
    }
    let ghost e0 = e.view();
    proof {
        assert(e0 == if spec_hist_index(origv, kv, 0) < origv.len() {
            origv[spec_hist_index(origv, kv, 0)]
        } else {
            HistogramSpec { key: kv, buckets: Seq::empty(), sum: "0"@, count: "0"@ }
        });
    }
    match bucket {
        Some(b) => {
            let ghost bs = pairs_view(e.buckets@);
            let ghost bv = (b.0@, b.1@);
            e.buckets.push(b);
            proof {
                assert(pairs_view(e.buckets@) =~= bs.push(bv));
            }
        },
        None => {},
    }
    match sum {
        Some(v) => {
            e.sum = v;
        },
        None => {},
    }
    match count {
        Some(v) => {
            e.count = v;
        },
        None => {},
    }
    if found && idx <= entries.len() {
        let ghost prev = histogram_seq_view(entries@);
        entries.insert(idx, e);
        proof {
            assert(histogram_seq_view(entries@) =~= origv.update(idx as int, e.view()));
            assert(histogram_seq_view(entries@) =~= spec_histogram_apply(
                origv,
                key.view(),
                opt_pair_view(bucket),
                opt_view(sum),
                opt_view(count),
            ));
        }
    } else {
        entries.push(e);
        proof {
            assert(histogram_seq_view(entries@) =~= origv.push(e.view()));
            assert(histogram_seq_view(entries@) =~= spec_histogram_apply(
                origv,
                key.view(),
                opt_pair_view(bucket),
                opt_view(sum),
                opt_view(count),
            ));
        }
    }
}

/// A fresh untyped group holding this one sample, appended to the groups.
pub open spec fn spec_push_untyped(groups: Seq<GroupSpec>, s: SampleSpec) -> Seq<GroupSpec> {
    groups.push(
        GroupSpec {
            name: s.name,
            data: GroupDataSpec::Untyped(
                seq![
                    SimpleSpec {
                        key: GroupKeySpec { labels: s.labels, timestamp: s.timestamp },
                        value: s.value,
                    },
                ],
            ),
        },
    )
}

/// Where one sample line lands: it joins the open (last) group when its name
/// fits that group's kind — an exact match for the scalar kinds, the quantile
/// and `_sum`/`_count` conventions for summaries, the `le` and
/// `_bucket`/`_sum`/`_count` conventions for histograms — and otherwise opens
/// a fresh untyped group of its own name, which becomes the open one.
pub open spec fn spec_attach(groups: Seq<GroupSpec>, last: Seq<char>, s: SampleSpec) -> (
    Seq<GroupSpec>,
    Seq<char>,
) {
    if groups.len() == 0 {
        (spec_push_untyped(groups, s), s.name)
    } else {
        let g = groups.last();
        match g.data {
            GroupDataSpec::Counter(ss) => if s.name == last {
                let sample = SimpleSpec {
                    key: GroupKeySpec { labels: s.labels, timestamp: s.timestamp },
                    value: s.value,
                };
                (
                    groups.update(
                        groups.len() - 1,
                        GroupSpec { name: g.name, data: GroupDataSpec::Counter(ss.push(sample)) },
                    ),
                    last,
                )
            } else {
                (spec_push_untyped(groups, s), s.name)
            },
            GroupDataSpec::Gauge(ss) => if s.name == last {
                let sample = SimpleSpec {
                    key: GroupKeySpec { labels: s.labels, timestamp: s.timestamp },
                    value: s.value,
                };
                (
                    groups.update(
                        groups.len() - 1,
                        GroupSpec { name: g.name, data: GroupDataSpec::Gauge(ss.push(sample)) },
                    ),
                    last,
                )
            } else {
                (spec_push_untyped(groups, s), s.name)
            },
            GroupDataSpec::Untyped(ss) => if s.name == last {
                let sample = SimpleSpec {
                    key: GroupKeySpec { labels: s.labels, timestamp: s.timestamp },
                    value: s.value,
                };
                (
                    groups.update(
                        groups.len() - 1,
                        GroupSpec { name: g.name, data: GroupDataSpec::Untyped(ss.push(sample)) },
                    ),
                    last,
                )
            } else {
                (spec_push_untyped(groups, s), s.name)
            },
            GroupDataSpec::Summary(entries) => {
                let is_base = s.name == last;
                let is_sum = s.name == last + "_sum"@;
                let is_count = s.name == last + "_count"@;
                if is_base {
                    let (q, rest) = spec_take_label(s.labels, "quantile"@);
                    match q {
                        Some(qv) => (
                            groups.update(
                                groups.len() - 1,
                                GroupSpec {
                                    name: g.name,
                                    data: GroupDataSpec::Summary(
                                        spec_summary_apply(
                                            entries,
                                            GroupKeySpec { labels: rest, timestamp: s.timestamp },
                                            Some((qv, s.value)),
                                            None,
                                            None,
                                        ),
                                    ),
                                },
                            ),
                            last,
                        ),
                        None => (
                            spec_push_untyped(groups, SampleSpec { labels: rest, ..s }),
                            s.name,
                        ),
                    }
                } else if is_sum || is_count {
                    let key = GroupKeySpec { labels: s.labels, timestamp: s.timestamp };
                    let applied = if is_sum {
                        spec_summary_apply(entries, key, None, Some(s.value), None)
                    } else {
                        spec_summary_apply(entries, key, None, None, Some(s.value))
                    };
                    (
                        groups.update(
                            groups.len() - 1,
                            GroupSpec { name: g.name, data: GroupDataSpec::Summary(applied) },
                        ),
                        last,
                    )
                } else {
                    (spec_push_untyped(groups, s), s.name)
                }
            },
            GroupDataSpec::Histogram(entries) => {
                let is_bucket = s.name == last + "_bucket"@;
                let is_sum = s.name == last + "_sum"@;
                let is_count = s.name == last + "_count"@;
                if is_bucket {
                    let (le, rest) = spec_take_label(s.labels, "le"@);
                    match le {
                        Some(lv) => (
                            groups.update(
                                groups.len() - 1,
                                GroupSpec {
                                    name: g.name,
                                    data: GroupDataSpec::Histogram(
                                        spec_histogram_apply(
                                            entries,
                                            GroupKeySpec { labels: rest, timestamp: s.timestamp },
                                            Some((lv, s.value)),
                                            None,
                                            None,
                                        ),
                                    ),
                                },
                            ),
                            last,
                        ),
                        None => (
                            spec_push_untyped(groups, SampleSpec { labels: rest, ..s }),
                            s.name,
                        ),
                    }
                } else if is_sum || is_count {
                    let key = GroupKeySpec { labels: s.labels, timestamp: s.timestamp };
                    let applied = if is_sum {
                        spec_histogram_apply(entries, key, None, Some(s.value), None)
                    } else {
                        spec_histogram_apply(entries, key, None, None, Some(s.value))
                    };
                    (
                        groups.update(
                            groups.len() - 1,
                            GroupSpec { name: g.name, data: GroupDataSpec::Histogram(applied) },
                        ),
                        last,
                    )
                } else {
                    (spec_push_untyped(groups, s), s.name)
                }
            },
        }
    }
}

/// Starts a fresh untyped group holding this one sample.
fn push_untyped_group(groups: &mut Vec<MetricGroup>, last_name: &mut Vec<char>, s: SampleLine)
    ensures
        groups_view(final(groups)@) == spec_push_untyped(groups_view(old(groups)@), s.view()),
        final(last_name)@ == s.view().name,
{
    let ghost sv = s.view();
    let ghost gv0 = groups_view(groups@);
    let name = string_of_chars(s.name.as_slice());
    let key = GroupKey { labels: s.labels, timestamp: s.timestamp };
    let sample = SimpleSample { key, value: s.value };
    let mut ss: Vec<SimpleSample> = Vec::new();
    ss.push(sample);
    let ghost ssv = simple_seq_view(ss@);
    proof {
        assert(ssv =~= seq![
            SimpleSpec {
                key: GroupKeySpec { labels: sv.labels, timestamp: sv.timestamp },
                value: sv.value,
            },
        ]);
    }
    groups.push(MetricGroup { name, data: GroupData::Untyped(ss) });
    proof {
        assert(groups_view(groups@) =~= spec_push_untyped(gv0, sv));
    }
    *last_name = s.name;
}

/// Attaches one sample line to the open group when its name fits that group's
/// kind (exact match for scalar kinds; the `_sum`/`_count`/`_bucket` and
/// quantile conventions for summaries and histograms); any sample that does
/// not fit starts a fresh untyped group of its own name.
fn attach_sample(groups: &mut Vec<MetricGroup>, last_name: &mut Vec<char>, s: SampleLine)
    ensures
        groups_view(final(groups)@) == spec_attach(
            groups_view(old(groups)@),
            old(last_name)@,
            s.view(),
        ).0,
        final(last_name)@ == spec_attach(groups_view(old(groups)@), old(last_name)@, s.view()).1,
{
    let ghost sv = s.view();
    let ghost gv0 = groups_view(groups@);
    let ghost lastv = last_name@;
    if groups.len() == 0 {
        push_untyped_group(groups, last_name, s);
        return ;
    }
    let sum_suf: Vec<char> = vec!['_', 's', 'u', 'm'];
    let count_suf: Vec<char> = vec!['_', 'c', 'o', 'u', 'n', 't'];
    let bucket_suf: Vec<char> = vec!['_', 'b', 'u', 'c', 'k', 'e', 't'];
    proof {
        reveal_strlit("_sum");
        reveal_strlit("_count");
        reveal_strlit("_bucket");
        assert(sum_suf@ =~= "_sum"@);
        assert(count_suf@ =~= "_count"@);
        assert(bucket_suf@ =~= "_bucket"@);
    }
    let gi = groups.len() - 1;
    proof {
        assert(gv0.last() == groups@[gi as int].view());
    }
    let kindsel: usize = match &groups[gi].data {
        GroupData::Counter(_) => 0,
        GroupData::Gauge(_) => 0,
        GroupData::Untyped(_) => 0,
        GroupData::Summary(_) => 1,
        GroupData::Histogram(_) => 2,
    };
    proof {
        assert(kindsel == 1 ==> groups@[gi as int].data is Summary);
        assert(kindsel == 2 ==> groups@[gi as int].data is Histogram);
        assert(kindsel == 0 ==> !(groups@[gi as int].data is Summary) && !(groups@[gi as int].data
            is Histogram));
    }
    if kindsel == 0 {
        if chars_eq(&s.name, last_name) {
            let g = groups.pop().unwrap();
            let ghost gnv = g.name@;
            let key = GroupKey { labels: s.labels, timestamp: s.timestamp };
            let sample = SimpleSample { key, value: s.value };
            let ghost samplev = sample.view();
            proof {
                assert(samplev == SimpleSpec {
                    key: GroupKeySpec { labels: sv.labels, timestamp: sv.timestamp },
                    value: sv.value,
                });
            }
            match g.data {
                GroupData::Counter(mut ss) => {
                    let ghost ss0 = simple_seq_view(ss@);
                    ss.push(sample);
                    proof {
                        assert(simple_seq_view(ss@) =~= ss0.push(samplev));
                    }
                    groups.push(MetricGroup { name: g.name, data: GroupData::Counter(ss) });
                    proof {
                        assert(groups_view(groups@) =~= spec_attach(gv0, lastv, sv).0);
                    }
                },
                GroupData::Gauge(mut ss) => {
                    let ghost ss0 = simple_seq_view(ss@);
                    ss.push(sample);
                    proof {
                        assert(simple_seq_view(ss@) =~= ss0.push(samplev));
                    }
                    groups.push(MetricGroup { name: g.name, data: GroupData::Gauge(ss) });
                    proof {
                        assert(groups_view(groups@) =~= spec_attach(gv0, lastv, sv).0);
                    }
                },
                GroupData::Untyped(mut ss) => {
                    let ghost ss0 = simple_seq_view(ss@);
                    ss.push(sample);
                    proof {
                        assert(simple_seq_view(ss@) =~= ss0.push(samplev));
                    }
                    groups.push(MetricGroup { name: g.name, data: GroupData::Untyped(ss) });
                    proof {
                        assert(groups_view(groups@) =~= spec_attach(gv0, lastv, sv).0);
                    }
                },
                other => {
                    proof {
                        assert(false);
                    }
                    groups.push(MetricGroup { name: g.name, data: other });
                },
            }
        } else {
            push_untyped_group(groups, last_name, s);
        }
    } else if kindsel == 1 {
        let is_base = chars_eq(&s.name, last_name);
        let is_sum = has_suffix(&s.name, last_name, &sum_suf);
        let is_count = has_suffix(&s.name, last_name, &count_suf);
        if is_base || is_sum || is_count {
            let mut quantile: Option<(String, String)> = None;
            let mut sum: Option<String> = None;
            let mut count: Option<String> = None;
            let labels: Vec<(String, String)>;
            if is_base {
                let (q, rest) = take_label(s.labels, "quantile");
                match q {
                    Some(qv) => {
                        quantile = Some((qv, s.value));
                        labels = rest;
                    },
                    None => {
                        proof {
                            assert(spec_take_label(sv.labels, "quantile"@).0 is None);
                            assert(pairs_view(rest@) == spec_take_label(sv.labels, "quantile"@).1);
                        }
                        push_untyped_group(
                            groups,
                            last_name,
                            SampleLine {
                                name: s.name,
                                labels: rest,
                                value: s.value,
                                timestamp: s.timestamp,
                            },
                        );
                        return ;
                    },
                }
            } else if is_sum {
                sum = Some(s.value);
                labels = s.labels;
            } else {
                count = Some(s.value);
                labels = s.labels;
            }
            let ghost labelsv = pairs_view(labels@);
            let key = GroupKey { labels, timestamp: s.timestamp };
            let ghost keyv = key.view();
            let g = groups.pop().unwrap();
            match g.data {
                GroupData::Summary(mut entries) => {
                    let ghost e0 = summary_seq_view(entries@);
                    summary_apply(&mut entries, key, quantile, sum, count);
                    let ghost e1 = summary_seq_view(entries@);
                    groups.push(MetricGroup { name: g.name, data: GroupData::Summary(entries) });
                    proof {
                        assert(groups_view(groups@) =~= gv0.update(
                            gv0.len() - 1,
                            GroupSpec { name: gv0.last().name, data: GroupDataSpec::Summary(e1) },
                        ));
                        assert(groups_view(groups@) =~= spec_attach(gv0, lastv, sv).0);
                    }
                },
                other => {
                    proof {
                        assert(false);
                    }
                    groups.push(MetricGroup { name: g.name, data: other });
                },
            }
        } else {
            push_untyped_group(groups, last_name, s);
        }
    } else {
        let is_bucket = has_suffix(&s.name, last_name, &bucket_suf);
        let is_sum = has_suffix(&s.name, last_name, &sum_suf);
        let is_count = has_suffix(&s.name, last_name, &count_suf);
        if is_bucket || is_sum || is_count {
            let mut bucket: Option<(String, String)> = None;
            let mut sum: Option<String> = None;
            let mut count: Option<String> = None;
            let labels: Vec<(String, String)>;
            if is_bucket {
                let (le, rest) = take_label(s.labels, "le");
                match le {
                    Some(lv) => {
                        bucket = Some((lv, s.value));
                        labels = rest;
                    },
                    None => {
                        proof {
                            assert(spec_take_label(sv.labels, "le"@).0 is None);
                            assert(pairs_view(rest@) == spec_take_label(sv.labels, "le"@).1);
                        }
                        push_untyped_group(
                            groups,
                            last_name,
                            SampleLine {
                                name: s.name,
                                labels: rest,
                                value: s.value,
                                timestamp: s.timestamp,
                            },
                        );
                        return ;
                    },
                }
            } else if is_sum {
                sum = Some(s.value);
                labels = s.labels;
            } else {
                count = Some(s.value);
                labels = s.labels;
            }
            let ghost labelsv = pairs_view(labels@);
            let key = GroupKey { labels, timestamp: s.timestamp };
            let ghost keyv = key.view();
            let g = groups.pop().unwrap();
            match g.data {
                GroupData::Histogram(mut entries) => {
                    let ghost e0 = histogram_seq_view(entries@);
                    histogram_apply(&mut entries, key, bucket, sum, count);
                    let ghost e1 = histogram_seq_view(entries@);
                    groups.push(MetricGroup { name: g.name, data: GroupData::Histogram(entries) });
                    proof {
                        assert(groups_view(groups@) =~= gv0.update(
                            gv0.len() - 1,
                            GroupSpec { name: gv0.last().name, data: GroupDataSpec::Histogram(e1) },
                        ));
                        assert(groups_view(groups@) =~= spec_attach(gv0, lastv, sv).0);
                    }
                },
                other => {
                    proof {
                        assert(false);
                    }
                    groups.push(MetricGroup { name: g.name, data: other });
                },
            }
        } else {
            push_untyped_group(groups, last_name, s);
        }
    }
}

/// The parse of the whole exposition text from position `pos` on, folded
/// onto the groups read so far: lines are delimited by newlines, a `# TYPE`
/// directive opens a fresh group of that kind and name, each sample line
/// lands as `spec_attach` states, and the first grammar violation fails the
/// whole parse with its line number.
pub open spec fn spec_parse_groups_from(
    text: Seq<char>,
    pos: int,
    line_no: int,
    groups: Seq<GroupSpec>,
    last: Seq<char>,
) -> Result<Seq<GroupSpec>, ParseError>
    decreases text.len() - pos,
        when 0 <= pos
{
    if pos >= text.len() {
        Ok(groups)
    } else {
        let e = spec_find_nl(text, pos);
        let line = text.subrange(pos, e);
        let p2: int = if e < text.len() {
            e + 1
        } else {
            text.len() as int
        };
        match spec_parse_line(line) {
            Err(k) => Err(ParseError { line: line_no as usize, kind: k }),
            Ok(LineSpec::Blank) => {
                proof {
                    lemma_spec_find_nl_bounds(text, pos);
                }
                spec_parse_groups_from(text, p2, line_no + 1, groups, last)
            },
            Ok(LineSpec::Type(name, tag)) => {
                let data = match tag {
                    TypeTag::Counter => GroupDataSpec::Counter(Seq::empty()),
                    TypeTag::Gauge => GroupDataSpec::Gauge(Seq::empty()),
                    TypeTag::Summary => GroupDataSpec::Summary(Seq::empty()),
                    TypeTag::Histogram => GroupDataSpec::Histogram(Seq::empty()),
                    TypeTag::Untyped => GroupDataSpec::Untyped(Seq::empty()),
                };
                proof {
                    lemma_spec_find_nl_bounds(text, pos);
                }
                spec_parse_groups_from(
                    text,
                    p2,
                    line_no + 1,
                    groups.push(GroupSpec { name, data }),
                    name,
                )
            },
            Ok(LineSpec::Sample(sm)) => {
                proof {
                    lemma_spec_find_nl_bounds(text, pos);
                }
                spec_parse_groups_from(
                    text,
                    p2,
                    line_no + 1,
                    spec_attach(groups, last, sm).0,
                    spec_attach(groups, last, sm).1,
                )
            },
        }
    }
}

/// The parse of a whole exposition text: its metric groups in encounter
/// order, or the first grammar violation.
pub open spec fn spec_parse_groups(text: Seq<char>) -> Result<Seq<GroupSpec>, ParseError> {
    spec_parse_groups_from(text, 0, 0, Seq::empty(), Seq::empty())
}

/// Parses a whole exposition text into its metric groups, exactly as
/// `spec_parse_groups` states: a `# TYPE` directive opens a group of that
/// kind and name; each sample line joins the open group when its name fits,
/// and otherwise opens an untyped group; the first grammar violation fails
/// the whole parse, with its line.
pub fn parse_groups(text: &str) -> (r: Result<Vec<MetricGroup>, ParseError>)
    ensures
        match r {
            Ok(gs) => spec_parse_groups(text@) == Ok::<Seq<GroupSpec>, ParseError>(
                groups_view(gs@),
            ),
            Err(e) => spec_parse_groups(text@) == Err::<Seq<GroupSpec>, ParseError>(e),
        },
{
    let chars = chars_of(text);
    let n = chars.len();
    let mut groups: Vec<MetricGroup> = Vec::new();
    let mut last_name: Vec<char> = Vec::new();
    let mut pos: usize = 0;
    let mut line_no: usize = 0;
    proof {
        assert(groups_view(groups@) =~= Seq::<GroupSpec>::empty());
        assert(last_name@ =~= Seq::<char>::empty());
    }
    while pos < n
        invariant
            pos <= n,
            n == chars@.len(),
            chars@ == text@,
            line_no <= pos,
            spec_parse_groups(text@) == spec_parse_groups_from(
                text@,
                pos as int,
                line_no as int,
                groups_view(groups@),
                last_name@,
            ),
        decreases n - pos,
    {
        let ghost pos0 = pos as int;
        let ghost gv0 = groups_view(groups@);
        let ghost last0 = last_name@;
        let mut e = pos;
        while e < n && chars[e] != '\n'
            invariant
                pos <= e <= n,
                n == chars@.len(),
                spec_find_nl(chars@, pos as int) == spec_find_nl(chars@, e as int),
            decreases n - e,
        {
            e += 1;
        }
        proof {
            assert(e as int == spec_find_nl(text@, pos as int));
        }
        let line = vstd::slice::slice_subrange(chars.as_slice(), pos, e);
        match parse_line(line) {
            Err(k) => {
                return Err(ParseError { line: line_no, kind: k });
            },
            Ok(Line::Blank) => {},
            Ok(Line::Type(name, tag)) => {
                let ghost namev = name@;
                let gname = string_of_chars(name.as_slice());
                let data = match tag {
                    TypeTag::Counter => GroupData::Counter(Vec::new()),
                    TypeTag::Gauge => GroupData::Gauge(Vec::new()),
                    TypeTag::Summary => GroupData::Summary(Vec::new()),
                    TypeTag::Histogram => GroupData::Histogram(Vec::new()),
                    TypeTag::Untyped => GroupData::Untyped(Vec::new()),
                };
                proof {
                    assert(data.view() == match tag {
                        TypeTag::Counter => GroupDataSpec::Counter(Seq::empty()),
                        TypeTag::Gauge => GroupDataSpec::Gauge(Seq::empty()),
                        TypeTag::Summary => GroupDataSpec::Summary(Seq::empty()),
                        TypeTag::Histogram => GroupDataSpec::Histogram(Seq::empty()),
                        TypeTag::Untyped => GroupDataSpec::Untyped(Seq::empty()),
                    }) by {
                        assert(simple_seq_view(Seq::<SimpleSample>::empty()) =~= Seq::<
                            SimpleSpec,
                        >::empty());
                        assert(summary_seq_view(Seq::<SummarySample>::empty()) =~= Seq::<
                            SummarySpec,
                        >::empty());
                        assert(histogram_seq_view(Seq::<HistogramSample>::empty()) =~= Seq::<
                            HistogramSpec,
                        >::empty());
                    }
                }
                groups.push(MetricGroup { name: gname, data });
                last_name = name;
                proof {
                    assert(groups_view(groups@) =~= gv0.push(
                        GroupSpec { name: namev, data: data.view() },
                    ));
                }
            },
            Ok(Line::Sample(s)) => {
                attach_sample(&mut groups, &mut last_name, s);
            },
        }
        pos = if e < n {
            e + 1
        } else {
            n
        };
        if line_no < usize::MAX {
            line_no += 1;
        }
    }
    Ok(groups)
}

// ----------------------------------------------------------------------------
// Consistency with the declared type
// ----------------------------------------------------------------------------

/// A rendered label set: an object whose every value is a string.
pub open spec fn labels_shape_ok(lv: ValueView) -> bool {
    lv is Object && forall|i: int|
        0 <= i < lv->Object_0.len() ==> (#[trigger] lv->Object_0[i]).1 is Bytes
}

/// The shape the declared record type constrains: an object whose `type` and
/// `name` are strings, whose `labels` is an object of strings, and whose
/// `timestamp`, when present, is the epoch integer the wire format writes.
pub open spec fn record_shape_ok(v: ValueView) -> bool {
    v is Object && {
        let fs = v->Object_0;
        &&& fs.len() >= 4
        &&& fs[0].0 == "type"@ && fs[0].1 is Bytes
        &&& fs[1].0 == "name"@ && fs[1].1 is Bytes
        &&& exists|i: int|
            0 <= i < fs.len() && (#[trigger] fs[i].0) == "labels"@ && labels_shape_ok(fs[i].1)
        &&& forall|i: int|
            0 <= i < fs.len() && (#[trigger] fs[i].0) == "timestamp"@ ==> fs[i].1 is Integer
    }
}

/// The trailing fields of any record meet the declared shape: the labels
/// object holds strings, and only the timestamp field is named `timestamp`.
proof fn lemma_tail_fields_shape(key: GroupKeySpec)
    ensures
        1 <= tail_fields(key).len() <= 2,
        tail_fields(key)[0].0 == "labels"@,
        labels_shape_ok(tail_fields(key)[0].1),
        forall|i: int|
            0 <= i < tail_fields(key).len() && (#[trigger] tail_fields(key)[i].0) == "timestamp"@
                ==> tail_fields(key)[i].1 is Integer,
{
    reveal_strlit("labels");
    reveal_strlit("timestamp");
    assert(labels_view(key.labels) is Object);
}

/// Every record of `group_records_view` meets the declared shape.
proof fn lemma_group_records_shape(g: GroupSpec, i: int)
    requires
        0 <= i < group_records_view(g).len(),
    ensures
        record_shape_ok(group_records_view(g)[i]),
{
    reveal_strlit("type");
    reveal_strlit("name");
    reveal_strlit("value");
    reveal_strlit("quantiles");
    reveal_strlit("buckets");
    reveal_strlit("sum");
    reveal_strlit("count");
    reveal_strlit("labels");
    reveal_strlit("timestamp");
    match g.data {
        GroupDataSpec::Counter(ss) => {
            let key = ss[i].key;
            lemma_tail_fields_shape(key);
            let fs = group_records_view(g)[i]->Object_0;
            assert(fs.len() == 3 + tail_fields(key).len());
            assert(fs[0].0 == "type"@ && fs[0].1 is Bytes);
            assert(fs[1].0 == "name"@ && fs[1].1 is Bytes);
            assert(fs[3] == tail_fields(key)[0]);
            assert(labels_shape_ok(fs[3].1));
            assert forall|n: int|
                0 <= n < fs.len() && (#[trigger] fs[n].0) == "timestamp"@ implies fs[n].1
                is Integer by {
                if n >= 3 {
                    assert(fs[n] == tail_fields(key)[n - 3]);
                } else {
                    assert(fs[0].0 == "type"@ && fs[1].0 == "name"@ && fs[2].0 == "value"@);
                    assert("type"@.len() == 4 && "name"@.len() == 4 && "value"@.len() == 5
                        && "timestamp"@.len() == 9);
                    assert(fs[n].0 != "timestamp"@);
                }
            }
        },
        GroupDataSpec::Gauge(ss) => {
            let key = ss[i].key;
            lemma_tail_fields_shape(key);
            let fs = group_records_view(g)[i]->Object_0;
            assert(fs.len() == 3 + tail_fields(key).len());
            assert(fs[0].0 == "type"@ && fs[0].1 is Bytes);
            assert(fs[1].0 == "name"@ && fs[1].1 is Bytes);
            assert(fs[3] == tail_fields(key)[0]);
            assert(labels_shape_ok(fs[3].1));
            assert forall|n: int|
                0 <= n < fs.len() && (#[trigger] fs[n].0) == "timestamp"@ implies fs[n].1
                is Integer by {
                if n >= 3 {
                    assert(fs[n] == tail_fields(key)[n - 3]);
                } else {
                    assert(fs[0].0 == "type"@ && fs[1].0 == "name"@ && fs[2].0 == "value"@);
                    assert("type"@.len() == 4 && "name"@.len() == 4 && "value"@.len() == 5
                        && "timestamp"@.len() == 9);
                    assert(fs[n].0 != "timestamp"@);
                }
            }
        },
        GroupDataSpec::Untyped(ss) => {
            let key = ss[i].key;
            lemma_tail_fields_shape(key);
            let fs = group_records_view(g)[i]->Object_0;
            assert(fs.len() == 3 + tail_fields(key).len());
            assert(fs[0].0 == "type"@ && fs[0].1 is Bytes);
            assert(fs[1].0 == "name"@ && fs[1].1 is Bytes);
            assert(fs[3] == tail_fields(key)[0]);
            assert(labels_shape_ok(fs[3].1));
            assert forall|n: int|
                0 <= n < fs.len() && (#[trigger] fs[n].0) == "timestamp"@ implies fs[n].1
                is Integer by {
                if n >= 3 {
                    assert(fs[n] == tail_fields(key)[n - 3]);
                } else {
                    assert(fs[0].0 == "type"@ && fs[1].0 == "name"@ && fs[2].0 == "value"@);
                    assert("type"@.len() == 4 && "name"@.len() == 4 && "value"@.len() == 5
                        && "timestamp"@.len() == 9);
                    assert(fs[n].0 != "timestamp"@);
                }
            }
        },
        GroupDataSpec::Summary(ss) => {
            let key = ss[i].key;
            lemma_tail_fields_shape(key);
            let fs = group_records_view(g)[i]->Object_0;
            assert(fs.len() == 5 + tail_fields(key).len());
            assert(fs[0].0 == "type"@ && fs[0].1 is Bytes);
            assert(fs[1].0 == "name"@ && fs[1].1 is Bytes);
            assert(fs[5] == tail_fields(key)[0]);
            assert(labels_shape_ok(fs[5].1));
            assert forall|n: int|
                0 <= n < fs.len() && (#[trigger] fs[n].0) == "timestamp"@ implies fs[n].1
                is Integer by {
                if n >= 5 {
                    assert(fs[n] == tail_fields(key)[n - 5]);
                } else {
                    assert(fs[0].0 == "type"@ && fs[1].0 == "name"@ && fs[2].0 == "quantiles"@
                        && fs[3].0 == "sum"@ && fs[4].0 == "count"@);
                    assert("type"@.len() == 4 && "name"@.len() == 4 && "sum"@.len() == 3
                        && "count"@.len() == 5 && "timestamp"@.len() == 9);
                    assert("quantiles"@[0] == 'q' && "timestamp"@[0] == 't');
                    assert("quantiles"@ != "timestamp"@);
                    assert(fs[n].0 != "timestamp"@);
                }
            }
        },
        GroupDataSpec::Histogram(ss) => {
            let key = ss[i].key;
            lemma_tail_fields_shape(key);
            let fs = group_records_view(g)[i]->Object_0;
            assert(fs.len() == 5 + tail_fields(key).len());
            assert(fs[0].0 == "type"@ && fs[0].1 is Bytes);
            assert(fs[1].0 == "name"@ && fs[1].1 is Bytes);
            assert(fs[5] == tail_fields(key)[0]);
            assert(labels_shape_ok(fs[5].1));
            assert forall|n: int|
                0 <= n < fs.len() && (#[trigger] fs[n].0) == "timestamp"@ implies fs[n].1
                is Integer by {
                if n >= 5 {
                    assert(fs[n] == tail_fields(key)[n - 5]);
                } else {
                    assert(fs[0].0 == "type"@ && fs[1].0 == "name"@ && fs[2].0 == "buckets"@
                        && fs[3].0 == "sum"@ && fs[4].0 == "count"@);
                    assert("type"@.len() == 4 && "name"@.len() == 4 && "sum"@.len() == 3
                        && "count"@.len() == 5 && "timestamp"@.len() == 9);
                    assert("buckets"@ != "timestamp"@);
                    assert(fs[n].0 != "timestamp"@);
                }
            }
        },
    }
}

/// Law: the decoder stays consistent with its declared static type. Every
/// record of every decode meets `record_shape_ok`: an object with a string
/// `type` and `name`, a string-to-string `labels` object, and an integer
/// `timestamp` when one is present — the fields `inner_type_view` constrains,
/// with the per-kind fields left open there and the timestamp gap documented
/// at `inner_type_view`.
pub proof fn lemma_records_meet_declared_shape(groups: Seq<GroupSpec>, n: int)
    ensures
        forall|i: int|
            0 <= i < records_view(groups, n).len() ==> record_shape_ok(
                #[trigger] records_view(groups, n)[i],
            ),
    decreases n,
{
    if n <= 0 || n > groups.len() {
    } else {
        lemma_records_meet_declared_shape(groups, n - 1);
        assert forall|i: int| 0 <= i < records_view(groups, n).len() implies record_shape_ok(
            #[trigger] records_view(groups, n)[i],
        ) by {
            let prev = records_view(groups, n - 1);
            if i < prev.len() {
                assert(records_view(groups, n)[i] == prev[i]);
            } else {
                lemma_group_records_shape(groups[n - 1], i - prev.len());
            }
        }
    }
}

// ----------------------------------------------------------------------------
// The decoder
// ----------------------------------------------------------------------------

/// Decodes a Prometheus text exposition payload: the bytes are decoded as
/// UTF-8 lossily (invalid bytes become replacement characters, never a
/// failure of their own), the text is parsed into metric groups, and the
/// groups flatten into an array of records exactly as `records_view` states.
/// Any grammar violation anywhere fails the whole decode atomically: no
/// partial record list is ever returned.
pub fn parse_prometheus_text(bytes: &[u8]) -> (r: Result<Value, ParseError>)
    ensures
        r is Ok <==> spec_parse_groups(lossy_of(bytes@)) is Ok,
        r is Ok ==> r->Ok_0 is Array && r->Ok_0.view() == ValueView::Array(
            records_view(
                spec_parse_groups(lossy_of(bytes@))->Ok_0,
                spec_parse_groups(lossy_of(bytes@))->Ok_0.len() as int,
            ),
        ),
        r is Err ==> r->Err_0 == spec_parse_groups(lossy_of(bytes@))->Err_0,
        r is Ok ==> r->Ok_0.view() is Array && forall|i: int|
            0 <= i < r->Ok_0.view()->Array_0.len() ==> record_shape_ok(
                #[trigger] r->Ok_0.view()->Array_0[i],
            ),
{
    let text = lossy_utf8(bytes);
    match parse_groups(text.as_str()) {
        Ok(gs) => {
            let records = groups_to_records(&gs);
            let ghost gseq = groups_view(gs@);
            let ghost recg = records@;
            let v = Value::Array(records);
            proof {
                assert(v->Array_0@ == recg);
                assert(v.view()->Array_0 =~= vals_view(recg));
                assert(v.view() == ValueView::Array(records_view(gseq, gseq.len() as int)));
                lemma_records_meet_declared_shape(gseq, gseq.len() as int);
            }
            Ok(v)
        },
        Err(e) => Err(e),
    }
}

// ----------------------------------------------------------------------------
// The declared static type
// ----------------------------------------------------------------------------

/// The declared shape of one decoded record: an object with a string-like
/// `name`, a timestamp-like `timestamp` and an open `labels` object, itself
/// open because the per-kind fields (`value`, `quantiles`, `buckets`, `sum`,
/// `count`) are deliberately not distinguished here — the declaration is kept
/// coarse, and the records carry the timestamp as the epoch integer the wire
/// format writes, a documented gap of this declaration.
pub open spec fn inner_type_view() -> KindView {
    KindView {
        object: Some(
            ObjectView {
                fields: Map::<Seq<char>, KindView>::empty().insert(
                    "name"@,
                    KindView { bytes: true, ..empty_shape_view() },
                ).insert("timestamp"@, KindView { timestamp: true, ..empty_shape_view() }).insert(
                    "labels"@,
                    KindView {
                        object: Some(ObjectView { fields: Map::empty(), open: true }),
                        ..empty_shape_view()
                    },
                ),
                open: true,
            },
        ),
        ..empty_shape_view()
    }
}

/// The declared descriptor of one decoded record.
pub fn inner_type_def() -> (r: Kind)
    ensures
        r.wf(),
        r.view() == inner_type_view(),
{
    let mut fields: Vec<(String, Kind)> = Vec::new();
    fields.push((String::from_str("name"), Kind::bytes()));
    fields.push((String::from_str("timestamp"), Kind::timestamp()));
    fields.push((String::from_str("labels"), Kind::open_object()));
    proof {
        reveal_strlit("name");
        reveal_strlit("timestamp");
        reveal_strlit("labels");
        assert(fields@[0].0@ == "name"@ && fields@[1].0@ == "timestamp"@ && fields@[2].0@
            == "labels"@);
        assert(wf_fields(fields));
        lemma_fields_map_at(fields, 0);
        lemma_fields_map_at(fields, 1);
        lemma_fields_map_at(fields, 2);
        assert forall|k: Seq<char>| #[trigger] has_field(fields@, k) implies k == "name"@ || k
            == "timestamp"@ || k == "labels"@ by {
            let i = choose|i: int| 0 <= i < fields@.len() && fields@[i].0@ == k;
        }
        assert(fields_map(fields) =~= inner_type_view().object->Some_0.fields);
    }
    Kind::object(fields, true)
}

/// A declared function type: whether the call can fail, and the descriptor of
/// the success value.
pub struct TypeDef {
    pub fallible: bool,
    pub kind: Kind,
}

/// A declared parameter of the decoder at the expression-function boundary.
pub struct Parameter {
    pub keyword: String,
    pub required: bool,
}

/// A worked example of the decoder at the expression-function boundary.
pub struct Example {
    pub title: String,
    pub source: String,
    pub result: String,
}

/// The decoder as the expression language sees it: one callable with one
/// required bytes argument, a fallible array-of-objects return type, and a
/// worked example.
pub struct ParsePrometheusText;

impl ParsePrometheusText {
    /// The callable's name.
    pub fn identifier(&self) -> (r: &'static str)
        ensures
            r@ == "parse_prometheus_text"@,
    {
        "parse_prometheus_text"
    }

    /// One required bytes parameter named `value`.
    pub fn parameters(&self) -> (r: Vec<Parameter>)
        ensures
            r@.len() == 1,
            r@[0].keyword@ == "value"@,
            r@[0].required,
    {
        let mut ps: Vec<Parameter> = Vec::new();
        ps.push(Parameter { keyword: String::from_str("value"), required: true });
        ps
    }

    /// Decodes one payload; the body of the function boundary, with the same
    /// contract as `parse_prometheus_text`: success exactly when the lossily
    /// decoded text parses, the records exactly those of the parsed groups,
    /// and the failure exactly the first grammar violation.
    pub fn resolve(&self, bytes: &[u8]) -> (r: Result<Value, ParseError>)
        ensures
            r is Ok <==> spec_parse_groups(lossy_of(bytes@)) is Ok,
            r is Ok ==> r->Ok_0 is Array && r->Ok_0.view() == ValueView::Array(
                records_view(
                    spec_parse_groups(lossy_of(bytes@))->Ok_0,
                    spec_parse_groups(lossy_of(bytes@))->Ok_0.len() as int,
                ),
            ),
            r is Err ==> r->Err_0 == spec_parse_groups(lossy_of(bytes@))->Err_0,
    {
        parse_prometheus_text(bytes)
    }

    /// The declared static type: fallible, and an array of objects shaped as
    /// `inner_type_view` states.
    pub fn type_def(&self) -> (r: TypeDef)
        ensures
            r.fallible,
            r.kind.wf(),
            r.kind.view() == (KindView {
                array: Some(Box::new(inner_type_view())),
                ..empty_shape_view()
            }),
    {
        TypeDef { fallible: true, kind: Kind::array(inner_type_def()) }
    }

    /// A worked example.
    pub fn examples(&self) -> (r: Vec<Example>)
        ensures
            r@.len() == 1,
            r@[0].title@ == "parse basic metric with no labels"@,
            r@[0].source@
                == "parse_prometheus_text!(s'metric_without_timestamp_and_labels 12.47')"@,
            r@[0].result@ == (
            "[{\"type\":\"untyped\",\"name\":\"metric_without_timestamp_and_labels\",\"value\":12.47,\"labels\":{}}]")@,
    {
        let mut es: Vec<Example> = Vec::new();
        es.push(
            Example {
                title: String::from_str("parse basic metric with no labels"),
                source: String::from_str(
                    "parse_prometheus_text!(s'metric_without_timestamp_and_labels 12.47')",
                ),
                result: String::from_str(
                    "[{\"type\":\"untyped\",\"name\":\"metric_without_timestamp_and_labels\",\"value\":12.47,\"labels\":{}}]",
                ),
            },
        );
        es
    }
}

} // verus!
