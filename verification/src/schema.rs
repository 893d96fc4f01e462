use vstd::prelude::*;

use crate::kind::{
    merge_view, nest_view, path_view, KindView, Kind, ObjectView, Segment, SegmentView,
    empty_shape_view,
};

verus! {

/// Some entry of the purpose list carries the tag `k`.
pub open spec fn has_tag(s: Seq<(String, Vec<Segment>)>, k: Seq<char>) -> bool {
    exists|i: int| 0 <= i < s.len() && s[i].0@ == k
}

/// The index of an entry carrying the tag `k`; meaningful when tags are
/// unique and `has_tag` holds.
pub open spec fn tag_index(s: Seq<(String, Vec<Segment>)>, k: Seq<char>) -> int {
    choose|i: int| 0 <= i < s.len() && s[i].0@ == k
}

/// No two entries of the purpose list carry the same tag.
pub open spec fn unique_tags(s: Seq<(String, Vec<Segment>)>) -> bool {
    forall|i: int, j: int|
        0 <= i < s.len() && 0 <= j < s.len() && i != j ==> s[i].0@ != s[j].0@
}

/// The mathematical content of a purpose list: the finite map from each
/// purpose tag to the model of the field path bound to it.
pub open spec fn purpose_map(v: Vec<(String, Vec<Segment>)>) -> Map<Seq<char>, Seq<SegmentView>> {
    Map::new(
        |k: Seq<char>| has_tag(v@, k),
        |k: Seq<char>| path_view(v@[tag_index(v@, k)].1),
    )
}

/// The schema a component declares for its output: one top-level structural
/// descriptor, plus at most one field path per semantic purpose tag.
pub struct Output {
    kind: Kind,
    purpose: Vec<(String, Vec<Segment>)>,
}

impl Output {
    /// The model of the declared descriptor.
    pub closed spec fn kind_view(self) -> KindView {
        self.kind.view()
    }

    /// The model of the purpose bindings.
    pub closed spec fn purpose_view(self) -> Map<Seq<char>, Seq<SegmentView>> {
        purpose_map(self.purpose)
    }

    /// Internal invariant: the descriptor is well formed and each purpose tag
    /// is bound at most once.
    pub closed spec fn wf(self) -> bool {
        self.kind.wf() && unique_tags(self.purpose@)
    }

    /// The empty schema: nothing is known of the event but that it is an
    /// object, and no purpose is bound.
    pub fn empty() -> (r: Output)
        ensures
            r.wf(),
            r.kind_view() == (KindView {
                object: Some(ObjectView { fields: Map::empty(), open: true }),
                ..empty_shape_view()
            }),
            r.purpose_view() == Map::<Seq<char>, Seq<SegmentView>>::empty(),
    {
        let r = Output { kind: Kind::open_object(), purpose: Vec::new() };
        proof {
            assert(r.purpose_view() =~= Map::<Seq<char>, Seq<SegmentView>>::empty());
        }
        r
    }

    /// A schema assembled from a descriptor and purpose bindings.
    pub fn from_parts(kind: Kind, purpose: Vec<(String, Vec<Segment>)>) -> (r: Output)
        requires
            kind.wf(),
            unique_tags(purpose@),
        ensures
            r.wf(),
            r.kind_view() == kind.view(),
            r.purpose_view() == purpose_map(purpose),
    {
        Output { kind, purpose }
    }

    /// The declared descriptor.
    pub fn kind(&self) -> (r: &Kind)
        ensures
            r.view() == self.kind_view(),
    {
        &self.kind
    }

    /// The purpose bindings, as tag/path pairs.
    pub fn purpose(&self) -> (r: &Vec<(String, Vec<Segment>)>)
        ensures
            purpose_map(*r) == self.purpose_view(),
    {
        &self.purpose
    }

    /// Adds type information for one event field: the minimal nesting of
    /// `kind` at `path` is merged into the declared descriptor, and when a
    /// purpose is supplied that tag is (re)bound to `path`, overwriting any
    /// prior binding for the same tag.
    pub fn define_field(&mut self, path: Vec<Segment>, kind: Kind, purpose: Option<String>)
        requires
            old(self).wf(),
            kind.wf(),
        ensures
            final(self).wf(),
            final(self).kind_view() == merge_view(
                old(self).kind_view(),
                nest_view(kind.view(), path_view(path)),
            ),
            final(self).purpose_view() == match purpose {
                Some(p) => old(self).purpose_view().insert(p@, path_view(path)),
                None => old(self).purpose_view(),
            },
    {
        let nested = kind.nest_at_path(&path);
        let merged = self.kind.merge(&nested);
        self.kind = merged;
        match purpose {
            Some(p) => {
                upsert_purpose(&mut self.purpose, p, path);
            },
            None => {},
        }
    }

    /// Merges `other` into this schema: descriptors union structurally, and
    /// the purpose bindings union with `other` winning any tag both sides
    /// bind (last write wins, deliberately not commutative).
    pub fn merge(&mut self, other: Output)
        requires
            old(self).wf(),
            other.wf(),
        ensures
            final(self).wf(),
            final(self).kind_view() == merge_view(old(self).kind_view(), other.kind_view()),
            final(self).purpose_view() == old(self).purpose_view().union_prefer_right(
                other.purpose_view(),
            ),
    {
        let merged = self.kind.merge(&other.kind);
        self.kind = merged;
        let mut rest = other.purpose;
        let ghost target = old(self).purpose_view().union_prefer_right(purpose_map(rest));
        while rest.len() > 0
            invariant
                unique_tags(self.purpose@),
                unique_tags(rest@),
                self.kind.wf(),
                self.kind.view() == merge_view(old(self).kind_view(), other.kind_view()),
                purpose_map(self.purpose).union_prefer_right(purpose_map(rest)) == target,
            decreases rest@.len(),
        {
            let ghost pre_self = self.purpose;
            let ghost pre_rest = rest;
            let (tag, path) = rest.remove(0);
            proof {
                assert(pre_rest@[0].0@ == tag@);
                assert(pre_rest@[0].1 == path);
            }
            upsert_purpose(&mut self.purpose, tag, path);
            proof {
                let m1 = purpose_map(self.purpose);
                let m2 = purpose_map(rest);
                let ma = purpose_map(pre_self);
                let mb = purpose_map(pre_rest);
                assert forall|k: Seq<char>| #[trigger] mb.dom().contains(k) implies (k == tag@
                    || m2.dom().contains(k)) by {
                    let i = tag_index(pre_rest@, k);
                    if i > 0 {
                        assert(rest@[i - 1].0@ == k);
                    }
                }
                assert forall|k: Seq<char>| #[trigger] m2.dom().contains(k) implies mb.dom()
                    .contains(k) && m2[k] == mb[k] && k != tag@ by {
                    let i = tag_index(rest@, k);
                    assert(pre_rest@[i + 1].0@ == k);
                    assert(pre_rest@[i + 1].1 == rest@[i].1);
                    assert(tag_index(pre_rest@, k) == i + 1) by {
                        let j = tag_index(pre_rest@, k);
                        if j != i + 1 {
                            assert(pre_rest@[j].0@ == pre_rest@[i + 1].0@);
                        }
                    }
                    if k == tag@ {
                        assert(pre_rest@[0].0@ == k);
                    }
                }
                assert(mb[tag@] == path_view(path)) by {
                    let j = tag_index(pre_rest@, tag@);
                    if j != 0 {
                        assert(pre_rest@[j].0@ == pre_rest@[0].0@);
                    }
                }
                assert(m1.union_prefer_right(m2) =~= ma.union_prefer_right(mb));
            }
        }
        proof {
            assert(purpose_map(rest) =~= Map::<Seq<char>, Seq<SegmentView>>::empty());
            assert(final(self).purpose_view() =~= target);
        }
    }
}

impl Default for Output {
    /// The default schema is the empty one.
    fn default() -> (r: Output)
        ensures
            r.wf(),
            r.kind_view() == (KindView {
                object: Some(ObjectView { fields: Map::empty(), open: true }),
                ..empty_shape_view()
            }),
            r.purpose_view() == Map::<Seq<char>, Seq<SegmentView>>::empty(),
    {
        Output::empty()
    }
}

/// Binds `tag` to `path`, overwriting an existing binding of the same tag.
fn upsert_purpose(v: &mut Vec<(String, Vec<Segment>)>, tag: String, path: Vec<Segment>)
    requires
        unique_tags(old(v)@),
    ensures
        unique_tags(final(v)@),
        purpose_map(*final(v)) == purpose_map(*old(v)).insert(tag@, path_view(path)),
{
    let ghost before = *v;
    let mut i: usize = 0;
    while i < v.len()
        invariant
            *v == before,
            before == *old(v),
            i <= v@.len(),
            unique_tags(v@),
            forall|n: int| 0 <= n < i ==> (#[trigger] v@[n]).0@ != tag@,
        decreases v@.len() - i,
    {
        if v[i].0 == tag {
            let ghost tagv = tag@;
            let ghost pathv = path_view(path);
            v.set(i, (tag, path));
            proof {
                lemma_purpose_upsert_at(before, *v, i as int, tagv, pathv);
            }
            return ;
        }
        i += 1;
    }
    v.push((tag, path));
    proof {
        let m1 = purpose_map(*v);
        let m2 = purpose_map(before).insert(tag@, path_view(path));
        let last = v@.len() - 1;
        assert(v@[last].0@ == tag@);
        assert forall|k: Seq<char>| #[trigger] m1.dom().contains(k) implies m2.dom().contains(k)
            && m1[k] == m2[k] by {
            let i1 = tag_index(v@, k);
            if i1 < last {
                assert(before@[i1].0@ == k);
                assert(tag_index(before@, k) == i1) by {
                    let j = tag_index(before@, k);
                    if j != i1 {
                        assert(v@[j].0@ == v@[i1].0@);
                    }
                }
            }
        }
        assert forall|k: Seq<char>| #[trigger] m2.dom().contains(k) implies m1.dom().contains(
            k,
        ) by {
            if k != tag@ {
                let i2 = tag_index(before@, k);
                assert(v@[i2].0@ == k);
            }
        }
        assert(m1 =~= m2);
    }
}

/// With unique tags, replacing the entry that holds a tag rebinds that tag
/// and leaves every other binding unchanged.
proof fn lemma_purpose_upsert_at(
    before: Vec<(String, Vec<Segment>)>,
    after: Vec<(String, Vec<Segment>)>,
    i: int,
    tag: Seq<char>,
    path: Seq<SegmentView>,
)
    requires
        unique_tags(before@),
        0 <= i < before@.len(),
        before@[i].0@ == tag,
        after@.len() == before@.len(),
        after@[i].0@ == tag,
        path_view(after@[i].1) == path,
        forall|n: int| 0 <= n < before@.len() && n != i ==> after@[n] == before@[n],
    ensures
        unique_tags(after@),
        purpose_map(after) == purpose_map(before).insert(tag, path),
{
    assert forall|n1: int, n2: int|
        0 <= n1 < after@.len() && 0 <= n2 < after@.len() && n1 != n2 implies (
    #[trigger] after@[n1]).0@ != (#[trigger] after@[n2]).0@ by {
        assert(after@[n1].0@ == before@[n1].0@ && after@[n2].0@ == before@[n2].0@);
    }
    let m1 = purpose_map(after);
    let m2 = purpose_map(before).insert(tag, path);
    assert forall|k: Seq<char>| #[trigger] m1.dom().contains(k) implies m2.dom().contains(k)
        && m1[k] == m2[k] by {
        let n = tag_index(after@, k);
        assert(before@[n].0@ == k);
        if n != i {
            assert(tag_index(before@, k) == n) by {
                let j = tag_index(before@, k);
                if j != n {
                    assert(before@[j].0@ == before@[n].0@);
                }
            }
        }
    }
    assert forall|k: Seq<char>| #[trigger] m2.dom().contains(k) implies m1.dom().contains(k) by {
        if k == tag {
            assert(after@[i].0@ == k);
        } else {
            let n = tag_index(before@, k);
            assert(after@[n].0@ == k);
        }
    }
    assert(m1 =~= m2);
}

/// Law: when both schemas bind the same purpose tag, the merged schema keeps
/// the incoming side's path — so merging in the other order keeps the other
/// path, and `Output::merge` is deliberately not commutative on purposes.
pub proof fn lemma_purpose_merge_last_write_wins(a: Output, b: Output, tag: Seq<char>)
    requires
        a.purpose_view().dom().contains(tag),
        b.purpose_view().dom().contains(tag),
    ensures
        a.purpose_view().union_prefer_right(b.purpose_view())[tag] == b.purpose_view()[tag],
        b.purpose_view().union_prefer_right(a.purpose_view())[tag] == a.purpose_view()[tag],
{
}

} // verus!
