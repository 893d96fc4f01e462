use vstd::prelude::*;
use vstd::string::StrSliceExecFns;

verus! {

/// Model of a structured pipeline value.
pub enum ValueView {
    Bytes(Seq<char>),
    Integer(int),
    Float(Seq<char>),
    Array(Seq<ValueView>),
    Object(Seq<(Seq<char>, ValueView)>),
}

/// A structured, dynamically shaped pipeline value: a string, an integer, a
/// floating-point number carried as the decimal token it was written as (the
/// verified core holds no float arithmetic), an ordered array, or an object
/// of key/value entries in insertion order.
#[derive(Debug, PartialEq, Eq)]
pub enum Value {
    Bytes(String),
    Integer(i64),
    Float(String),
    Array(Vec<Value>),
    Object(Vec<(String, Value)>),
}

impl Value {
    /// The mathematical model of this value.
    pub open spec fn view(self) -> ValueView
        decreases self,
    {
        match self {
            Value::Bytes(s) => ValueView::Bytes(s@),
            Value::Integer(i) => ValueView::Integer(i as int),
            Value::Float(t) => ValueView::Float(t@),
            Value::Array(v) => ValueView::Array(
                Seq::new(
                    v@.len(),
                    |i: int| if 0 <= i < v@.len() {
                        v@[i].view()
                    } else {
                        ValueView::Integer(0)
                    },
                ),
            ),
            Value::Object(f) => ValueView::Object(
                Seq::new(
                    f@.len(),
                    |i: int| if 0 <= i < f@.len() {
                        (f@[i].0@, f@[i].1.view())
                    } else {
                        (Seq::empty(), ValueView::Integer(0))
                    },
                ),
            ),
        }
    }

    /// Simple content-size model of the heap bytes a value holds: the length
    /// of each string it contains, summed; fixed per-node overhead is not
    /// counted.
    pub open spec fn alloc_model(self) -> nat
        decreases self, 0int,
    {
        match self {
            Value::Bytes(s) => s@.len(),
            Value::Integer(_) => 0,
            Value::Float(t) => t@.len(),
            Value::Array(v) => array_alloc_model(v, v@.len() as int),
            Value::Object(f) => object_alloc_model(f, f@.len() as int),
        }
    }
}

/// The summed size model of the first `n` elements of an array.
pub open spec fn array_alloc_model(v: Vec<Value>, n: int) -> nat
    decreases v, n,
{
    if n <= 0 || n > v@.len() {
        0
    } else {
        array_alloc_model(v, n - 1) + v@[n - 1].alloc_model()
    }
}

/// The summed size model of the first `n` entries of an object: each key's
/// length plus its value's model.
pub open spec fn object_alloc_model(f: Vec<(String, Value)>, n: int) -> nat
    decreases f, n,
{
    if n <= 0 || n > f@.len() {
        0
    } else {
        object_alloc_model(f, n - 1) + f@[n - 1].0@.len() + f@[n - 1].1.alloc_model()
    }
}

/// A size capped at the machine word: reported sizes saturate instead of
/// overflowing.
pub open spec fn cap_usize(n: nat) -> nat {
    if n > usize::MAX as nat {
        usize::MAX as nat
    } else {
        n
    }
}

/// Saturating addition on reported sizes.
pub fn sat_add(a: usize, b: usize) -> (r: usize)
    ensures
        r as nat == cap_usize(a as nat + b as nat),
{
    if a > usize::MAX - b {
        usize::MAX
    } else {
        a + b
    }
}

impl Value {
    /// The heap bytes this value holds, per the content-size model, saturated
    /// at the machine word.
    #[verifier::loop_isolation(false)]
    pub fn allocated_bytes(&self) -> (r: usize)
        ensures
            r as nat == cap_usize(self.alloc_model()),
        decreases self,
    {
        match self {
            Value::Bytes(s) => s.as_str().unicode_len(),
            Value::Integer(_) => 0,
            Value::Float(t) => t.as_str().unicode_len(),
            Value::Array(v) => {
                let mut acc: usize = 0;
                let mut i: usize = 0;
                while i < v.len()
                    invariant
                        i <= v@.len(),
                        acc as nat == cap_usize(array_alloc_model(*v, i as int)),
                    decreases v@.len() - i,
                {
                    let e = v[i].allocated_bytes();
                    acc = sat_add(acc, e);
                    i += 1;
                }
                acc
            },
            Value::Object(f) => {
                let mut acc: usize = 0;
                let mut i: usize = 0;
                while i < f.len()
                    invariant
                        i <= f@.len(),
                        acc as nat == cap_usize(object_alloc_model(*f, i as int)),
                    decreases f@.len() - i,
                {
                    let klen = f[i].0.as_str().unicode_len();
                    let vlen = f[i].1.allocated_bytes();
                    acc = sat_add(acc, sat_add(klen, vlen));
                    i += 1;
                }
                acc
            },
        }
    }
}

} // verus!
