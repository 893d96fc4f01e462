use telemetry_core::kind::{Kind, Segment};
use telemetry_core::schema::Output;

fn field_path(names: Vec<&str>) -> Vec<Segment> {
    names.into_iter().map(|n| Segment::Field(String::from(n))).collect()
}

#[test]
fn scalar_merge_unions_possibilities() {
    let k = Kind::bytes().merge(&Kind::integer());
    assert!(k.bytes);
    assert!(k.integer);
    assert!(!k.float);
    assert!(!k.any);
}

#[test]
fn any_absorbs_everything() {
    assert_eq!(Kind::any().merge(&Kind::bytes()), Kind::any());
    assert_eq!(Kind::bytes().merge(&Kind::any()), Kind::any());
}

#[test]
fn merge_commutes_on_concrete_descriptors() {
    // same key set on both sides, so the merged field lists come out in the
    // same order and the results are structurally identical
    let a = Kind::object(vec![(String::from("x"), Kind::bytes())], false);
    let b = Kind::object(vec![(String::from("x"), Kind::integer())], true);
    assert_eq!(a.merge(&b), b.merge(&a));

    let c = Kind::array(Kind::float());
    let d = Kind::boolean();
    assert_eq!(c.merge(&d), d.merge(&c));
}

#[test]
fn object_merge_is_key_by_key() {
    let a = Kind::object(
        vec![(String::from("x"), Kind::bytes()), (String::from("y"), Kind::null())],
        false,
    );
    let b = Kind::object(vec![(String::from("x"), Kind::integer())], true);
    let m = a.merge(&b);
    let ob = m.object.expect("an object descriptor");
    assert!(ob.open);
    assert_eq!(ob.fields.len(), 2);
    assert_eq!(ob.fields[0].0, String::from("x"));
    assert!(ob.fields[0].1.bytes && ob.fields[0].1.integer);
    assert_eq!(ob.fields[1].0, String::from("y"));
    assert!(ob.fields[1].1.null);
}

#[test]
fn nest_at_path_wraps_objects() {
    let path = field_path(vec!["a", "b"]);
    let k = Kind::bytes().nest_at_path(&path);
    let outer = k.object.expect("outer object");
    assert!(!outer.open);
    assert_eq!(outer.fields[0].0, String::from("a"));
    let inner = outer.fields[0].1.object.as_ref().expect("inner object");
    assert_eq!(inner.fields[0].0, String::from("b"));
    assert!(inner.fields[0].1.bytes);
}

#[test]
fn nest_at_index_wraps_arrays() {
    let path = vec![Segment::Index(0)];
    let k = Kind::integer().nest_at_path(&path);
    let elem = k.array.expect("array descriptor");
    assert!(elem.integer);
}

#[test]
fn empty_output_is_open_object_with_no_purposes() {
    let o = Output::empty();
    let k = o.kind();
    let ob = k.object.as_ref().expect("object descriptor");
    assert!(ob.open);
    assert_eq!(ob.fields.len(), 0);
    assert_eq!(o.purpose().len(), 0);
}

#[test]
fn default_is_empty() {
    let d: Output = Default::default();
    assert_eq!(d.purpose().len(), 0);
    assert!(d.kind().object.is_some());
}

#[test]
fn define_field_adds_kind_and_purpose() {
    let mut o = Output::empty();
    o.define_field(field_path(vec!["ts"]), Kind::timestamp(), Some(String::from("timestamp")));
    let ob = o.kind().object.as_ref().expect("object descriptor");
    assert_eq!(ob.fields.len(), 1);
    assert_eq!(ob.fields[0].0, String::from("ts"));
    assert!(ob.fields[0].1.timestamp);
    let ps = o.purpose();
    assert_eq!(ps.len(), 1);
    assert_eq!(ps[0].0, String::from("timestamp"));
    assert_eq!(ps[0].1, field_path(vec!["ts"]));
}

#[test]
fn redefining_a_purpose_overwrites_it() {
    let mut o = Output::empty();
    o.define_field(field_path(vec!["a"]), Kind::timestamp(), Some(String::from("timestamp")));
    o.define_field(field_path(vec!["b"]), Kind::timestamp(), Some(String::from("timestamp")));
    let ps = o.purpose();
    assert_eq!(ps.len(), 1);
    assert_eq!(ps[0].1, field_path(vec!["b"]));
}

#[test]
fn purpose_collision_keeps_the_incoming_side() {
    let mut a = Output::empty();
    a.define_field(field_path(vec!["a"]), Kind::timestamp(), Some(String::from("timestamp")));
    let mut b = Output::empty();
    b.define_field(field_path(vec!["b"]), Kind::timestamp(), Some(String::from("timestamp")));

    let mut ab = Output::from_parts(a.kind().clone(), a.purpose().clone());
    ab.merge(b_clone(&b));
    assert_eq!(lookup(&ab, "timestamp"), field_path(vec!["b"]));

    let mut ba = Output::from_parts(b.kind().clone(), b.purpose().clone());
    ba.merge(b_clone(&a));
    assert_eq!(lookup(&ba, "timestamp"), field_path(vec!["a"]));
}

fn b_clone(o: &Output) -> Output {
    Output::from_parts(o.kind().clone(), o.purpose().clone())
}

fn lookup(o: &Output, tag: &str) -> Vec<Segment> {
    for (k, p) in o.purpose() {
        if k.as_str() == tag {
            return p.clone();
        }
    }
    panic!("purpose tag not bound");
}

#[test]
fn merge_unions_foreign_purposes() {
    let mut a = Output::empty();
    a.define_field(field_path(vec!["m"]), Kind::bytes(), Some(String::from("message")));
    let mut b = Output::empty();
    b.define_field(field_path(vec!["t"]), Kind::timestamp(), Some(String::from("timestamp")));
    a.merge(b);
    assert_eq!(a.purpose().len(), 2);
    assert_eq!(lookup(&a, "message"), field_path(vec!["m"]));
    assert_eq!(lookup(&a, "timestamp"), field_path(vec!["t"]));
}
