use vstd::prelude::*;

verus! {

// ----------------------------------------------------------------------------
// Mathematical model
// ----------------------------------------------------------------------------

/// Model of an object shape: the known fields, each with its own kind, and a
/// flag saying whether undeclared fields may also exist.
#[verifier::ext_equal]
pub struct ObjectView {
    pub fields: Map<Seq<char>, KindView>,
    pub open: bool,
}

/// Model of a structural type descriptor. `any` is the unconstrained
/// sentinel; in a well-formed descriptor it excludes every other shape.
/// The seven booleans are the scalar shapes a value may take; `array` and
/// `object` carry the element and field descriptors when those shapes are
/// possible.
#[verifier::ext_equal]
pub struct KindView {
    pub any: bool,
    pub bytes: bool,
    pub integer: bool,
    pub float: bool,
    pub boolean: bool,
    pub timestamp: bool,
    pub null: bool,
    pub regex: bool,
    pub array: Option<Box<KindView>>,
    pub object: Option<ObjectView>,
}

/// The unconstrained descriptor, in its one normal form.
pub open spec fn any_view() -> KindView {
    KindView {
        any: true,
        bytes: false,
        integer: false,
        float: false,
        boolean: false,
        timestamp: false,
        null: false,
        regex: false,
        array: None,
        object: None,
    }
}

/// Recursive structural union of two descriptors: scalar possibilities are
/// unioned, array element descriptors merge recursively, object fields merge
/// key by key (keys unique to one side are carried through unchanged) and the
/// open flags are or-ed. `any` absorbs everything.
pub open spec fn merge_view(a: KindView, b: KindView) -> KindView
    decreases a,
{
    if a.any || b.any {
        any_view()
    } else {
        KindView {
            any: false,
            bytes: a.bytes || b.bytes,
            integer: a.integer || b.integer,
            float: a.float || b.float,
            boolean: a.boolean || b.boolean,
            timestamp: a.timestamp || b.timestamp,
            null: a.null || b.null,
            regex: a.regex || b.regex,
            array: match (a.array, b.array) {
                (Some(x), Some(y)) => Some(Box::new(merge_view(*x, *y))),
                (Some(x), None) => Some(x),
                (None, y) => y,
            },
            object: match (a.object, b.object) {
                (Some(x), Some(y)) => Some(ObjectView {
                    fields: Map::new(
                        |k: Seq<char>| x.fields.dom().contains(k) || y.fields.dom().contains(k),
                        |k: Seq<char>| if x.fields.dom().contains(k) && y.fields.dom().contains(k) {
                            merge_view(x.fields[k], y.fields[k])
                        } else if x.fields.dom().contains(k) {
                            x.fields[k]
                        } else {
                            y.fields[k]
                        },
                    ),
                    open: x.open || y.open,
                }),
                (Some(x), None) => Some(x),
                (None, y) => y,
            },
        }
    }
}

/// Law: the structural merge of two descriptors does not depend on the order
/// of its arguments.
pub proof fn lemma_merge_view_commutes(a: KindView, b: KindView)
    ensures
        merge_view(a, b) == merge_view(b, a),
    decreases a,
{
    if a.any || b.any {
    } else {
        match (a.array, b.array) {
            (Some(x), Some(y)) => {
                lemma_merge_view_commutes(*x, *y);
            },
            _ => {},
        }
        match (a.object, b.object) {
            (Some(x), Some(y)) => {
                let m1 = merge_view(a, b).object->Some_0.fields;
                let m2 = merge_view(b, a).object->Some_0.fields;
                assert forall|k: Seq<char>| m1.dom().contains(k) implies #[trigger] m1[k]
                    == m2[k] by {
                    if x.fields.dom().contains(k) && y.fields.dom().contains(k) {
                        lemma_merge_view_commutes(x.fields[k], y.fields[k]);
                    }
                }
                assert(m1 =~= m2);
            },
            _ => {},
        }
        assert(merge_view(a, b) =~~= merge_view(b, a));
    }
}

/// Law: the structural merge of descriptors is associative, so merging
/// schemas along a pipeline graph may be bracketed freely.
pub proof fn lemma_merge_view_associates(a: KindView, b: KindView, c: KindView)
    ensures
        merge_view(merge_view(a, b), c) == merge_view(a, merge_view(b, c)),
    decreases a,
{
    if a.any || b.any || c.any {
    } else {
        match (a.array, b.array, c.array) {
            (Some(x), Some(y), Some(z)) => {
                lemma_merge_view_associates(*x, *y, *z);
            },
            _ => {},
        }
        match (a.object, b.object, c.object) {
            (Some(x), Some(y), Some(z)) => {
                let m1 = merge_view(merge_view(a, b), c).object->Some_0.fields;
                let m2 = merge_view(a, merge_view(b, c)).object->Some_0.fields;
                assert forall|k: Seq<char>| m1.dom().contains(k) implies #[trigger] m1[k]
                    == m2[k] by {
                    if x.fields.dom().contains(k) && y.fields.dom().contains(k)
                        && z.fields.dom().contains(k) {
                        lemma_merge_view_associates(x.fields[k], y.fields[k], z.fields[k]);
                    }
                }
                assert(m1 =~= m2);
            },
            _ => {},
        }
        assert(merge_view(merge_view(a, b), c) =~~= merge_view(a, merge_view(b, c)));
    }
}

// ----------------------------------------------------------------------------
// Executable representation
// ----------------------------------------------------------------------------

/// Known fields of an object descriptor, as an association list with unique
/// keys, plus the open flag.
#[derive(Debug, PartialEq, Eq)]
pub struct ObjectKind {
    pub fields: Vec<(String, Kind)>,
    pub open: bool,
}

/// A recursive structural type descriptor for pipeline values: either the
/// unconstrained sentinel, or any union of scalar shapes, an array shape with
/// an element descriptor, and an object shape with field descriptors.
#[derive(Debug, PartialEq, Eq)]
pub struct Kind {
    pub any: bool,
    pub bytes: bool,
    pub integer: bool,
    pub float: bool,
    pub boolean: bool,
    pub timestamp: bool,
    pub null: bool,
    pub regex: bool,
    pub array: Option<Box<Kind>>,
    pub object: Option<ObjectKind>,
}

/// Some entry of the association list carries the key `k`.
pub open spec fn has_field(s: Seq<(String, Kind)>, k: Seq<char>) -> bool {
    exists|i: int| 0 <= i < s.len() && s[i].0@ == k
}

/// The index of an entry carrying the key `k`; meaningful when keys are
/// unique and `has_field` holds.
pub open spec fn field_index(s: Seq<(String, Kind)>, k: Seq<char>) -> int {
    choose|i: int| 0 <= i < s.len() && s[i].0@ == k
}

/// No two entries of the association list carry the same key.
pub open spec fn unique_keys(s: Seq<(String, Kind)>) -> bool {
    forall|i: int, j: int|
        0 <= i < s.len() && 0 <= j < s.len() && i != j ==> s[i].0@ != s[j].0@
}

/// The mathematical content of a field list: the finite map from each key to
/// the model of the descriptor stored under it.
pub open spec fn fields_map(f: Vec<(String, Kind)>) -> Map<Seq<char>, KindView>
    decreases f,
{
    Map::new(
        |k: Seq<char>| has_field(f@, k),
        |k: Seq<char>| if has_field(f@, k) {
            f@[field_index(f@, k)].1.view()
        } else {
            any_view()
        },
    )
}

/// Every descriptor stored in the field list is well formed.
pub open spec fn wf_fields(f: Vec<(String, Kind)>) -> bool
    decreases f,
{
    unique_keys(f@) && (forall|i: int| 0 <= i < f@.len() ==> (#[trigger] f@[i].1).wf())
}

impl Kind {
    /// The mathematical model of this descriptor.
    pub open spec fn view(self) -> KindView
        decreases self,
    {
        KindView {
            any: self.any,
            bytes: self.bytes,
            integer: self.integer,
            float: self.float,
            boolean: self.boolean,
            timestamp: self.timestamp,
            null: self.null,
            regex: self.regex,
            array: match self.array {
                Some(b) => Some(Box::new((*b).view())),
                None => None,
            },
            object: match self.object {
                Some(ob) => Some(ObjectView { fields: fields_map(ob.fields), open: ob.open }),
                None => None,
            },
        }
    }

    /// Well-formedness: the unconstrained sentinel is in normal form and all
    /// field lists have unique keys, recursively.
    pub open spec fn wf(self) -> bool
        decreases self,
    {
        &&& (self.any ==> !self.bytes && !self.integer && !self.float && !self.boolean
            && !self.timestamp && !self.null && !self.regex && self.array is None
            && self.object is None)
        &&& match self.array {
            Some(b) => (*b).wf(),
            None => true,
        }
        &&& match self.object {
            Some(ob) => wf_fields(ob.fields),
            None => true,
        }
    }
}

/// The shape with nothing possible at all; scalar constructors start here.
pub open spec fn empty_shape_view() -> KindView {
    KindView {
        any: false,
        bytes: false,
        integer: false,
        float: false,
        boolean: false,
        timestamp: false,
        null: false,
        regex: false,
        array: None,
        object: None,
    }
}

impl Kind {
    /// The unconstrained descriptor: any value is possible.
    pub fn any() -> (r: Kind)
        ensures
            r.view() == any_view(),
            r.wf(),
    {
        Kind {
            any: true,
            bytes: false,
            integer: false,
            float: false,
            boolean: false,
            timestamp: false,
            null: false,
            regex: false,
            array: None,
            object: None,
        }
    }

    fn shape_base() -> (r: Kind)
        ensures
            r.view() == empty_shape_view(),
            r.wf(),
    {
        Kind {
            any: false,
            bytes: false,
            integer: false,
            float: false,
            boolean: false,
            timestamp: false,
            null: false,
            regex: false,
            array: None,
            object: None,
        }
    }

    /// The string/bytes scalar descriptor.
    pub fn bytes() -> (r: Kind)
        ensures
            r.view() == (KindView { bytes: true, ..empty_shape_view() }),
            r.wf(),
    {
        let mut k = Self::shape_base();
        k.bytes = true;
        k
    }

    /// The integer scalar descriptor.
    pub fn integer() -> (r: Kind)
        ensures
            r.view() == (KindView { integer: true, ..empty_shape_view() }),
            r.wf(),
    {
        let mut k = Self::shape_base();
        k.integer = true;
        k
    }

    /// The float scalar descriptor.
    pub fn float() -> (r: Kind)
        ensures
            r.view() == (KindView { float: true, ..empty_shape_view() }),
            r.wf(),
    {
        let mut k = Self::shape_base();
        k.float = true;
        k
    }

    /// The boolean scalar descriptor.
    pub fn boolean() -> (r: Kind)
        ensures
            r.view() == (KindView { boolean: true, ..empty_shape_view() }),
            r.wf(),
    {
        let mut k = Self::shape_base();
        k.boolean = true;
        k
    }

    /// The timestamp scalar descriptor.
    pub fn timestamp() -> (r: Kind)
        ensures
            r.view() == (KindView { timestamp: true, ..empty_shape_view() }),
            r.wf(),
    {
        let mut k = Self::shape_base();
        k.timestamp = true;
        k
    }

    /// The null scalar descriptor.
    pub fn null() -> (r: Kind)
        ensures
            r.view() == (KindView { null: true, ..empty_shape_view() }),
            r.wf(),
    {
        let mut k = Self::shape_base();
        k.null = true;
        k
    }

    /// The regex scalar descriptor.
    pub fn regex() -> (r: Kind)
        ensures
            r.view() == (KindView { regex: true, ..empty_shape_view() }),
            r.wf(),
    {
        let mut k = Self::shape_base();
        k.regex = true;
        k
    }

    /// An array descriptor with the given element descriptor.
    pub fn array(elem: Kind) -> (r: Kind)
        requires
            elem.wf(),
        ensures
            r.view() == (KindView { array: Some(Box::new(elem.view())), ..empty_shape_view() }),
            r.wf(),
    {
        let mut k = Self::shape_base();
        k.array = Some(Box::new(elem));
        k
    }

    /// An object descriptor with the given field list and open flag.
    pub fn object(fields: Vec<(String, Kind)>, open: bool) -> (r: Kind)
        requires
            wf_fields(fields),
        ensures
            r.view() == (KindView {
                object: Some(ObjectView { fields: fields_map(fields), open }),
                ..empty_shape_view()
            }),
            r.wf(),
    {
        let mut k = Self::shape_base();
        k.object = Some(ObjectKind { fields, open });
        k
    }

    /// The fully open object descriptor: an object about whose fields nothing
    /// is known.
    pub fn open_object() -> (r: Kind)
        ensures
            r.view() == (KindView {
                object: Some(ObjectView { fields: Map::empty(), open: true }),
                ..empty_shape_view()
            }),
            r.wf(),
    {
        let fields: Vec<(String, Kind)> = Vec::new();
        proof {
            assert(fields_map(fields) =~= Map::<Seq<char>, KindView>::empty());
        }
        Self::object(fields, true)
    }
}

/// Two field lists whose entries agree pairwise on key and on model carry the
/// same mathematical content, provided keys are unique.
pub proof fn lemma_fields_map_congruent(f1: Vec<(String, Kind)>, f2: Vec<(String, Kind)>)
    requires
        f1@.len() == f2@.len(),
        unique_keys(f1@),
        forall|i: int|
            0 <= i < f1@.len() ==> (#[trigger] f2@[i]).0@ == f1@[i].0@ && f2@[i].1.view()
                == f1@[i].1.view(),
    ensures
        fields_map(f1) == fields_map(f2),
{
    assert forall|k: Seq<char>| #[trigger] has_field(f1@, k) implies has_field(f2@, k) by {
        let i = choose|i: int| 0 <= i < f1@.len() && f1@[i].0@ == k;
        assert(f2@[i].0@ == k);
    }
    assert forall|k: Seq<char>| #[trigger] has_field(f2@, k) implies has_field(f1@, k) by {
        let i = choose|i: int| 0 <= i < f2@.len() && f2@[i].0@ == k;
        assert(f1@[i].0@ == k);
    }
    assert forall|k: Seq<char>| #[trigger] has_field(f1@, k) implies fields_map(f1)[k]
        == fields_map(f2)[k] by {
        let i1 = field_index(f1@, k);
        let i2 = field_index(f2@, k);
        assert(f1@[i2].0@ == k);
        assert(i1 == i2);
    }
    assert(fields_map(f1) =~= fields_map(f2));
}

/// Looks a key up in a field list.
fn find_key(v: &Vec<(String, Kind)>, key: &String) -> (r: Option<usize>)
    ensures
        match r {
            Some(j) => j < v@.len() && v@[j as int].0@ == key@,
            None => !has_field(v@, key@),
        },
{
    let mut i: usize = 0;
    while i < v.len()
        invariant
            i <= v@.len(),
            forall|n: int| 0 <= n < i ==> (#[trigger] v@[n]).0@ != key@,
        decreases v@.len() - i,
    {
        if v[i].0 == *key {
            return Some(i);
        }
        i += 1;
    }
    None
}

impl Clone for ObjectKind {
    /// Deep copy; on a well-formed field list the copy carries the same model.
    fn clone(&self) -> (r: Self)
        ensures
            wf_fields(self.fields) ==> wf_fields(r.fields) && r.open == self.open
                && fields_map(r.fields) == fields_map(self.fields),
        decreases self,
    {
        ObjectKind { fields: clone_fields(&self.fields), open: self.open }
    }
}

/// Deep copy of a field list, entry by entry.
fn clone_fields(f: &Vec<(String, Kind)>) -> (r: Vec<(String, Kind)>)
    ensures
        wf_fields(*f) ==> wf_fields(r) && fields_map(r) == fields_map(*f),
    decreases f,
{
    let mut out: Vec<(String, Kind)> = Vec::new();
    let mut i: usize = 0;
    while i < f.len()
        invariant
            i <= f@.len(),
            out@.len() == i,
            forall|n: int|
                0 <= n < i ==> (#[trigger] out@[n]).0@ == f@[n].0@ && (f@[n].1.wf()
                    ==> out@[n].1.view() == f@[n].1.view() && out@[n].1.wf()),
        decreases f@.len() - i,
    {
        let k = f[i].0.clone();
        let kd = f[i].1.clone();
        out.push((k, kd));
        i += 1;
    }
    proof {
        if wf_fields(*f) {
            lemma_fields_map_congruent(*f, out);
        }
    }
    out
}

impl Clone for Kind {
    /// Deep copy; on a well-formed descriptor the copy carries the same model.
    fn clone(&self) -> (r: Self)
        ensures
            self.wf() ==> r.view() == self.view() && r.wf(),
        decreases self,
    {
        let array = match &self.array {
            Some(b) => Some(Box::new((**b).clone())),
            None => None,
        };
        let object = match &self.object {
            Some(ob) => Some(ob.clone()),
            None => None,
        };
        Kind {
            any: self.any,
            bytes: self.bytes,
            integer: self.integer,
            float: self.float,
            boolean: self.boolean,
            timestamp: self.timestamp,
            null: self.null,
            regex: self.regex,
            array,
            object,
        }
    }
}

/// The mathematical merge of two field maps: shared keys merge recursively,
/// keys unique to one side are carried through unchanged.
pub open spec fn merged_fields_view(
    ma: Map<Seq<char>, KindView>,
    mb: Map<Seq<char>, KindView>,
) -> Map<Seq<char>, KindView> {
    Map::new(
        |k: Seq<char>| ma.dom().contains(k) || mb.dom().contains(k),
        |k: Seq<char>| if ma.dom().contains(k) && mb.dom().contains(k) {
            merge_view(ma[k], mb[k])
        } else if ma.dom().contains(k) {
            ma[k]
        } else {
            mb[k]
        },
    )
}

/// With unique keys, the looked-up index of the key stored at `i` is `i`.
proof fn lemma_field_index_of(s: Seq<(String, Kind)>, i: int)
    requires
        unique_keys(s),
        0 <= i < s.len(),
    ensures
        has_field(s, s[i].0@),
        field_index(s, s[i].0@) == i,
{
    let k = s[i].0@;
    assert(has_field(s, k));
    let j = field_index(s, k);
    assert(0 <= j < s.len() && s[j].0@ == k);
    if j != i {
        assert(s[i].0@ != s[j].0@);
    }
}

/// With unique keys, the field map holds each entry's model under its key.
pub proof fn lemma_fields_map_at(f: Vec<(String, Kind)>, i: int)
    requires
        unique_keys(f@),
        0 <= i < f@.len(),
    ensures
        fields_map(f).dom().contains(f@[i].0@),
        fields_map(f)[f@[i].0@] == f@[i].1.view(),
{
    lemma_field_index_of(f@, i);
}

/// Merges two well-formed field lists key by key.
fn merge_fields(a: &Vec<(String, Kind)>, b: &Vec<(String, Kind)>) -> (r: Vec<(String, Kind)>)
    requires
        wf_fields(*a),
        wf_fields(*b),
    ensures
        wf_fields(r),
        fields_map(r) == merged_fields_view(fields_map(*a), fields_map(*b)),
    decreases a,
{
    let mut out: Vec<(String, Kind)> = Vec::new();
    let mut i: usize = 0;
    while i < a.len()
        invariant
            wf_fields(*a),
            wf_fields(*b),
            i <= a@.len(),
            out@.len() == i,
            forall|n: int|
                0 <= n < i ==> (#[trigger] out@[n]).0@ == a@[n].0@ && out@[n].1.wf()
                    && out@[n].1.view() == (if has_field(b@, a@[n].0@) {
                    merge_view(a@[n].1.view(), b@[field_index(b@, a@[n].0@)].1.view())
                } else {
                    a@[n].1.view()
                }),
        decreases a@.len() - i,
    {
        proof {
            lemma_field_index_of(a@, i as int);
        }
        let key = a[i].0.clone();
        match find_key(b, &key) {
            Some(j) => {
                proof {
                    lemma_field_index_of(b@, j as int);
                }
                let m = a[i].1.merge(&b[j].1);
                out.push((key, m));
            },
            None => {
                out.push((key, a[i].1.clone()));
            },
        }
        i += 1;
    }
    let alen = a.len();
    let mut j: usize = 0;
    while j < b.len()
        invariant
            wf_fields(*a),
            wf_fields(*b),
            j <= b@.len(),
            alen == a@.len(),
            alen <= out@.len(),
            forall|n: int|
                0 <= n < alen ==> (#[trigger] out@[n]).0@ == a@[n].0@ && out@[n].1.wf()
                    && out@[n].1.view() == (if has_field(b@, a@[n].0@) {
                    merge_view(a@[n].1.view(), b@[field_index(b@, a@[n].0@)].1.view())
                } else {
                    a@[n].1.view()
                }),
            forall|n: int|
                alen <= n < out@.len() ==> !has_field(a@, (#[trigger] out@[n]).0@)
                    && has_field(b@, out@[n].0@) && out@[n].1.wf() && out@[n].1.view()
                    == b@[field_index(b@, out@[n].0@)].1.view() && field_index(
                    b@,
                    out@[n].0@,
                ) < j,
            forall|n1: int, n2: int|
                alen <= n1 < out@.len() && alen <= n2 < out@.len() && n1 != n2 ==> (
                #[trigger] out@[n1]).0@ != (#[trigger] out@[n2]).0@,
            forall|m: int|
                0 <= m < j && !has_field(a@, (#[trigger] b@[m]).0@) ==> has_field(
                    out@,
                    b@[m].0@,
                ),
        decreases b@.len() - j,
    {
        proof {
            lemma_field_index_of(b@, j as int);
        }
        let key = b[j].0.clone();
        match find_key(a, &key) {
            Some(x) => {
                proof {
                    assert(a@[x as int].0@ == b@[j as int].0@);
                    assert(has_field(a@, b@[j as int].0@));
                }
            },
            None => {
                let ghost old_out = out@;
                out.push((key, b[j].1.clone()));
                proof {
                    let last = out@.len() - 1;
                    assert(out@[last].0@ == b@[j as int].0@);
                    assert(field_index(b@, out@[last].0@) == j as int);
                    assert forall|n: int|
                        alen <= n < out@.len() implies !has_field(
                        a@,
                        (#[trigger] out@[n]).0@,
                    ) && has_field(b@, out@[n].0@) && out@[n].1.wf() && out@[n].1.view()
                        == b@[field_index(b@, out@[n].0@)].1.view() && field_index(
                        b@,
                        out@[n].0@,
                    ) < j + 1 by {
                        if n < old_out.len() {
                            assert(out@[n] == old_out[n]);
                        }
                    }
                    assert forall|n1: int, n2: int|
                        alen <= n1 < out@.len() && alen <= n2 < out@.len() && n1 != n2 implies (
                    #[trigger] out@[n1]).0@ != (#[trigger] out@[n2]).0@ by {
                        if n1 < last && n2 < last {
                            assert(out@[n1] == old_out[n1] && out@[n2] == old_out[n2]);
                        } else {
                            let o = if n1 == last {
                                n2
                            } else {
                                n1
                            };
                            // the fresh entry names b's entry j; an older one
                            // names an earlier b entry, so the keys differ
                            assert(field_index(b@, out@[o].0@) < j as int);
                            if out@[n1].0@ == out@[n2].0@ {
                                assert(field_index(b@, out@[o].0@) == j as int);
                            }
                        }
                    }
                    assert forall|m: int|
                        0 <= m < j + 1 && !has_field(a@, (#[trigger] b@[m]).0@) implies has_field(
                        out@,
                        b@[m].0@,
                    ) by {
                        if m == j as int {
                            assert(out@[last].0@ == b@[m].0@);
                        } else {
                            let n = choose|n: int| 0 <= n < old_out.len() && old_out[n].0@
                                == b@[m].0@;
                            assert(out@[n].0@ == b@[m].0@);
                        }
                    }
                }
            },
        }
        j += 1;
    }
    proof {
        // keys of the result are unique
        assert forall|n1: int, n2: int|
            0 <= n1 < out@.len() && 0 <= n2 < out@.len() && n1 != n2 implies (#[trigger] out@[n1]).0@
            != (#[trigger] out@[n2]).0@ by {
            if n1 < alen && n2 < alen {
                assert(a@[n1].0@ != a@[n2].0@);
            } else if n1 >= alen && n2 < alen {
                assert(out@[n2].0@ == a@[n2].0@);
                if out@[n1].0@ == out@[n2].0@ {
                    assert(has_field(a@, out@[n1].0@));
                }
            } else if n1 < alen && n2 >= alen {
                assert(out@[n1].0@ == a@[n1].0@);
                if out@[n1].0@ == out@[n2].0@ {
                    assert(has_field(a@, out@[n2].0@));
                }
            }
        }
        assert(unique_keys(out@));
        // the content of the result is the merged map
        let ma = fields_map(*a);
        let mb = fields_map(*b);
        let mr = fields_map(out);
        assert forall|k: Seq<char>| #[trigger] mr.dom().contains(k) implies ma.dom().contains(k)
            || mb.dom().contains(k) by {
            let n = choose|n: int| 0 <= n < out@.len() && out@[n].0@ == k;
            if n < alen {
                lemma_field_index_of(a@, n);
            }
        }
        assert forall|k: Seq<char>|
            ma.dom().contains(k) || mb.dom().contains(k) implies #[trigger] mr.dom().contains(
            k,
        ) by {
            if has_field(a@, k) {
                let n = field_index(a@, k);
                assert(out@[n].0@ == k);
            } else {
                assert(has_field(b@, k));
                let m = field_index(b@, k);
                assert(has_field(out@, b@[m].0@));
            }
        }
        assert forall|k: Seq<char>| #[trigger] mr.dom().contains(k) implies mr[k]
            == merged_fields_view(ma, mb)[k] by {
            let n = field_index(out@, k);
            assert(0 <= n < out@.len() && out@[n].0@ == k);
            assert(mr[k] == out@[n].1.view());
            if n < alen {
                lemma_field_index_of(a@, n);
                assert(ma[k] == a@[n].1.view());
                if has_field(b@, k) {
                    assert(mb[k] == b@[field_index(b@, k)].1.view());
                }
            } else {
                assert(!has_field(a@, k));
                assert(mb[k] == b@[field_index(b@, k)].1.view());
            }
        }
        assert(mr =~= merged_fields_view(ma, mb));
    }
    out
}

impl Kind {
    /// Structural, recursive union of two descriptors, as `merge_view` states:
    /// scalar possibilities union, array elements merge recursively, object
    /// fields merge key by key with the open flags or-ed, and the
    /// unconstrained sentinel absorbs everything.
    pub fn merge(&self, other: &Kind) -> (r: Kind)
        requires
            self.wf(),
            other.wf(),
        ensures
            r.view() == merge_view(self.view(), other.view()),
            r.wf(),
        decreases self,
    {
        if self.any || other.any {
            return Kind::any();
        }
        let ghost av = self.view();
        let ghost bv = other.view();
        let ghost mv = merge_view(av, bv);
        let array = match (&self.array, &other.array) {
            (Some(x), Some(y)) => {
                let m = (**x).merge(&**y);
                proof {
                    assert(av.array == Some(Box::new((**x).view())));
                    assert(bv.array == Some(Box::new((**y).view())));
                    assert(mv.array == Some(Box::new(merge_view((**x).view(), (**y).view()))));
                }
                Some(Box::new(m))
            },
            (Some(x), None) => {
                let c = (**x).clone();
                proof {
                    assert(mv.array == Some(Box::new((**x).view())));
                }
                Some(Box::new(c))
            },
            (None, Some(y)) => {
                let c = (**y).clone();
                proof {
                    assert(mv.array == Some(Box::new((**y).view())));
                }
                Some(Box::new(c))
            },
            (None, None) => None,
        };
        proof {
            assert((match array {
                Some(b) => Some(Box::new((*b).view())),
                None => None,
            }) == mv.array);
        }
        let object = match (&self.object, &other.object) {
            (Some(x), Some(y)) => {
                let fields = merge_fields(&x.fields, &y.fields);
                proof {
                    assert(av.object->Some_0.fields == fields_map(x.fields));
                    assert(bv.object->Some_0.fields == fields_map(y.fields));
                    assert(fields_map(fields) =~= mv.object->Some_0.fields);
                    assert(mv.object == Some(
                        ObjectView { fields: fields_map(fields), open: x.open || y.open },
                    ));
                }
                Some(ObjectKind { fields, open: x.open || y.open })
            },
            (Some(x), None) => {
                let c = x.clone();
                proof {
                    assert(mv.object == Some(
                        ObjectView { fields: fields_map(c.fields), open: c.open },
                    ));
                }
                Some(c)
            },
            (None, Some(y)) => {
                let c = y.clone();
                proof {
                    assert(mv.object == Some(
                        ObjectView { fields: fields_map(c.fields), open: c.open },
                    ));
                }
                Some(c)
            },
            (None, None) => None,
        };
        proof {
            assert((match object {
                Some(ob) => Some(ObjectView { fields: fields_map(ob.fields), open: ob.open }),
                None => None,
            }) == mv.object);
        }
        let r = Kind {
            any: false,
            bytes: self.bytes || other.bytes,
            integer: self.integer || other.integer,
            float: self.float || other.float,
            boolean: self.boolean || other.boolean,
            timestamp: self.timestamp || other.timestamp,
            null: self.null || other.null,
            regex: self.regex || other.regex,
            array,
            object,
        };
        proof {
            assert(r.view() =~~= merge_view(self.view(), other.view()));
        }
        r
    }
}

// ----------------------------------------------------------------------------
// Paths and nesting
// ----------------------------------------------------------------------------

/// Model of one path segment.
pub enum SegmentView {
    Field(Seq<char>),
    Index(int),
}

/// One segment of a field path: a named object field or an array index.
#[derive(Debug, PartialEq, Eq)]
pub enum Segment {
    Field(String),
    Index(usize),
}

impl Segment {
    /// The mathematical model of this segment.
    pub open spec fn view(self) -> SegmentView {
        match self {
            Segment::Field(name) => SegmentView::Field(name@),
            Segment::Index(i) => SegmentView::Index(i as int),
        }
    }
}

impl Clone for Segment {
    /// Copy; the copy carries the same model.
    fn clone(&self) -> (r: Self)
        ensures
            r.view() == self.view(),
    {
        match self {
            Segment::Field(name) => Segment::Field(name.clone()),
            Segment::Index(i) => Segment::Index(*i),
        }
    }
}

/// The model of a whole path.
pub open spec fn path_view(p: Vec<Segment>) -> Seq<SegmentView> {
    p@.map_values(|s: Segment| s.view())
}

/// Wrapping a descriptor into the minimal nesting named by a path: a field
/// segment wraps it into a closed single-field object, an index segment into
/// an array, so that merging the result into a larger descriptor constrains
/// the named path alone and preserves every sibling.
pub open spec fn nest_view(k: KindView, path: Seq<SegmentView>) -> KindView
    decreases path.len(),
{
    if path.len() == 0 {
        k
    } else {
        let inner = nest_view(k, path.skip(1));
        match path[0] {
            SegmentView::Field(name) => KindView {
                object: Some(
                    ObjectView {
                        fields: Map::<Seq<char>, KindView>::empty().insert(name, inner),
                        open: false,
                    },
                ),
                ..empty_shape_view()
            },
            SegmentView::Index(_) => KindView {
                array: Some(Box::new(inner)),
                ..empty_shape_view()
            },
        }
    }
}

impl Kind {
    /// Wraps this descriptor into the nested object/array structure named by
    /// `path`, as `nest_view` states.
    pub fn nest_at_path(self, path: &Vec<Segment>) -> (r: Kind)
        requires
            self.wf(),
        ensures
            r.view() == nest_view(self.view(), path_view(*path)),
            r.wf(),
    {
        let ghost orig = self.view();
        let ghost pv = path_view(*path);
        let mut acc = self;
        let mut i: usize = path.len();
        while i > 0
            invariant
                i <= path@.len(),
                pv == path_view(*path),
                pv.len() == path@.len(),
                acc.wf(),
                acc.view() == nest_view(orig, pv.skip(i as int)),
            decreases i,
        {
            i -= 1;
            proof {
                assert(pv.skip(i as int).skip(1) =~= pv.skip(i as int + 1));
                assert(pv.skip(i as int)[0] == path@[i as int].view());
            }
            let ghost goal = nest_view(orig, pv.skip(i as int));
            match &path[i] {
                Segment::Field(name) => {
                    let fields: Vec<(String, Kind)> = vec![(name.clone(), acc)];
                    proof {
                        assert(fields@[0].0@ == name@);
                        assert(fields_map(fields) =~= Map::<Seq<char>, KindView>::empty().insert(
                            name@,
                            nest_view(orig, pv.skip(i as int + 1)),
                        ));
                    }
                    acc = Kind::object(fields, false);
                    proof {
                        assert(acc.view() =~~= goal);
                    }
                },
                Segment::Index(_) => {
                    acc = Kind::array(acc);
                    proof {
                        assert(acc.view() =~~= goal);
                    }
                },
            }
        }
        proof {
            assert(pv.skip(0) =~= pv);
        }
        acc
    }
}

/// Law: merging two well-formed descriptors does not depend on the order of
/// the arguments; `Kind::merge` commutes at the level of the model.
pub proof fn lemma_kind_merge_commutes(a: Kind, b: Kind)
    ensures
        merge_view(a.view(), b.view()) == merge_view(b.view(), a.view()),
{
    lemma_merge_view_commutes(a.view(), b.view());
}

} // verus!
