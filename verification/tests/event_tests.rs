use telemetry_core::event::{
    Event, EventArray, EventArrayIntoIter, EventContainer, LogArray, LogEvent, Metric, MetricArray,
};
use telemetry_core::value::Value;

fn log(text: &str) -> LogEvent {
    LogEvent { value: Value::Object(vec![(String::from("message"), Value::Bytes(String::from(text)))]) }
}

fn metric(name: &str, value: f64) -> Metric {
    Metric { name: String::from(name), value: value.to_bits() }
}

#[test]
fn single_event_yields_itself() {
    let e = Event::Metric(metric("m", 1.5));
    let out = e.into_events();
    assert_eq!(out, vec![Event::Metric(metric("m", 1.5))]);
}

#[test]
fn from_log_event_is_one_element_log_batch() {
    let arr = EventArray::from_event(Event::Log(log("hello")));
    match &arr {
        EventArray::Logs(a) => assert_eq!(a.len(), 1),
        EventArray::Metrics(_) => panic!("a log event must make a log batch"),
    }
    assert_eq!(arr.into_events(), vec![Event::Log(log("hello"))]);
}

#[test]
fn from_metric_event_is_one_element_metric_batch() {
    let arr = EventArray::from_event(Event::Metric(metric("m", 2.0)));
    match &arr {
        EventArray::Metrics(a) => assert_eq!(a.len(), 1),
        EventArray::Logs(_) => panic!("a metric event must make a metric batch"),
    }
    assert_eq!(arr.into_events(), vec![Event::Metric(metric("m", 2.0))]);
}

#[test]
fn batches_spill_and_keep_order() {
    let mut a = LogArray::single(log("one"));
    a.push(log("two"));
    a.push(log("three"));
    assert_eq!(a.len(), 3);
    let out = EventArray::Logs(a).into_events();
    assert_eq!(
        out,
        vec![Event::Log(log("one")), Event::Log(log("two")), Event::Log(log("three"))],
    );
}

#[test]
fn iterator_mirrors_variant_and_drains_once() {
    let mut m = MetricArray::single(metric("a", 1.0));
    m.push(metric("b", 2.0));
    let mut it = EventArray::Metrics(m).into_event_iter();
    match &it {
        EventArrayIntoIter::Metrics(_) => {},
        EventArrayIntoIter::Logs(_) => panic!("a metric batch must make a metric iterator"),
    }
    assert_eq!(it.next(), Some(Event::Metric(metric("a", 1.0))));
    assert_eq!(it.next(), Some(Event::Metric(metric("b", 2.0))));
    assert_eq!(it.next(), None);
    assert_eq!(it.next(), None);
}

#[test]
fn allocated_bytes_counts_contents_only() {
    // the model counts string contents: a name of four characters
    let m = metric("abcd", 0.0);
    assert_eq!(EventContainer::allocated_bytes(&m), 4);
    // a log whose record holds the key "message" (7) and the text "hi" (2)
    let l = log("hi");
    assert_eq!(EventContainer::allocated_bytes(&l), 9);
    // the array delegates to whichever variant is populated
    let arr = EventArray::from_event(Event::Log(log("hi")));
    assert_eq!(arr.allocated_bytes(), 9);
    let arr2 = EventArray::from_event(Event::Metric(metric("abcd", 1.0)));
    assert_eq!(arr2.allocated_bytes(), 4);
}

#[test]
fn metric_array_into_events_wraps_each() {
    let mut m = MetricArray::single(metric("x", 1.0));
    m.push(metric("y", 2.0));
    let out = m.into_events();
    assert_eq!(out.len(), 2);
    assert!(matches!(out[0], Event::Metric(_)));
}
