//! The configuration document tree: objects with ordered keys, arrays,
//! and scalars, mirroring the wire format the proxy engine consumes.
//! `Value` is the executable tree; `ValueModel` is its mathematical view.

use vstd::prelude::*;

verus! {

/// Mathematical model of a document tree node.
///
/// Object fields are an ordered sequence of key/value pairs; lookups are
/// first-match. A number that does not fit `i64` is carried as its decimal
/// text so that unrecognized parts of a document pass through untouched.
#[verifier::ext_equal]
pub enum ValueModel {
    Null,
    Bool(bool),
    Int(int),
    Num(Seq<char>),
    Str(Seq<char>),
    Arr(Seq<ValueModel>),
    Obj(Seq<(Seq<char>, ValueModel)>),
}

/// A node of the configuration document.
///
/// `Num` holds the decimal text of a number that is not an `i64`; the
/// engine never creates or reads such a node, it only passes it through.
#[derive(Debug, PartialEq)]
pub enum Value {
    Null,
    Bool(bool),
    Int(i64),
    Num(String),
    Str(String),
    Arr(Vec<Value>),
    Obj(Vec<(String, Value)>),
}

/// The model of a document node.
pub open spec fn model_of(v: Value) -> ValueModel
    decreases v,
{
    match v {
        Value::Null => ValueModel::Null,
        Value::Bool(b) => ValueModel::Bool(b),
        Value::Int(i) => ValueModel::Int(i as int),
        Value::Num(s) => ValueModel::Num(s@),
        Value::Str(s) => ValueModel::Str(s@),
        Value::Arr(items) => ValueModel::Arr(model_of_seq(items@)),
        Value::Obj(fields) => ValueModel::Obj(model_of_fields(fields@)),
    }
}

/// The models of the elements of an array, in order.
pub open spec fn model_of_seq(items: Seq<Value>) -> Seq<ValueModel>
    decreases items,
{
    if items.len() == 0 {
        Seq::empty()
    } else {
        model_of_seq(items.drop_last()).push(model_of(items.last()))
    }
}

/// The models of the fields of an object, in order.
pub open spec fn model_of_fields(fields: Seq<(String, Value)>) -> Seq<(Seq<char>, ValueModel)>
    decreases fields,
{
    if fields.len() == 0 {
        Seq::empty()
    } else {
        model_of_fields(fields.drop_last()).push(
            (fields.last().0@, model_of(fields.last().1)),
        )
    }
}

impl View for Value {
    type V = ValueModel;

    open spec fn view(&self) -> ValueModel {
        model_of(*self)
    }
}

/// `model_of_seq` maps the sequence elementwise.
pub proof fn lemma_model_of_seq(items: Seq<Value>)
    ensures
        model_of_seq(items).len() == items.len(),
        forall|i: int|
            0 <= i < items.len() ==> #[trigger] model_of_seq(items)[i] == model_of(items[i]),
    decreases items,
{
    if items.len() > 0 {
        lemma_model_of_seq(items.drop_last());
    }
}

/// `model_of_fields` maps the sequence elementwise.
pub proof fn lemma_model_of_fields(fields: Seq<(String, Value)>)
    ensures
        model_of_fields(fields).len() == fields.len(),
        forall|i: int|
            0 <= i < fields.len() ==> #[trigger] model_of_fields(fields)[i] == (
            fields[i].0@,
            model_of(fields[i].1),
            ),
    decreases fields,
{
    if fields.len() > 0 {
        lemma_model_of_fields(fields.drop_last());
    }
}

impl Value {
    /// A structurally equal copy of the node.
    pub fn deep_copy(&self) -> (r: Value)
        ensures
            r@ == self@,
        decreases *self,
    {
        match self {
            Value::Null => Value::Null,
            Value::Bool(b) => Value::Bool(*b),
            Value::Int(i) => Value::Int(*i),
            Value::Num(s) => Value::Num(s.clone()),
            Value::Str(s) => Value::Str(s.clone()),
            Value::Arr(items) => {
                let mut out: Vec<Value> = Vec::new();
                let mut i: usize = 0;
                while i < items.len()
                    invariant
                        *self == Value::Arr(*items),
                        i <= items@.len(),
                        out@.len() == i,
                        forall|j: int|
                            0 <= j < i ==> model_of(#[trigger] out@[j]) == model_of(
                                items@[j],
                            ),
                    decreases items@.len() - i,
                {
                    proof {
                        assert(decreases_to!(*self => self->Arr_0));
                        assert(self->Arr_0 == *items);
                        assert(decreases_to!(*items => items@));
                        assert(decreases_to!(items@ => items@[i as int]));
                    }
                    let copied = items[i].deep_copy();
                    out.push(copied);
                    i = i + 1;
                }
                proof {
                    lemma_model_of_seq(out@);
                    lemma_model_of_seq(items@);
                    assert(model_of_seq(out@) =~= model_of_seq(items@));
                }
                Value::Arr(out)
            },
            Value::Obj(fields) => {
                let mut out: Vec<(String, Value)> = Vec::new();
                let mut i: usize = 0;
                while i < fields.len()
                    invariant
                        *self == Value::Obj(*fields),
                        i <= fields@.len(),
                        out@.len() == i,
                        forall|j: int|
                            0 <= j < i ==> (#[trigger] out@[j]).0@ == fields@[j].0@
                                && model_of(out@[j].1) == model_of(fields@[j].1),
                    decreases fields@.len() - i,
                {
                    proof {
                        assert(decreases_to!(*self => self->Obj_0));
                        assert(self->Obj_0 == *fields);
                        assert(decreases_to!(*fields => fields@));
                        assert(decreases_to!(fields@ => fields@[i as int]));
                        assert(decreases_to!(fields@[i as int] => fields@[i as int].1));
                    }
                    let copied = fields[i].1.deep_copy();
                    let key = fields[i].0.clone();
                    out.push((key, copied));
                    i = i + 1;
                }
                proof {
                    lemma_model_of_fields(out@);
                    lemma_model_of_fields(fields@);
                    assert(model_of_fields(out@) =~= model_of_fields(fields@));
                }
                Value::Obj(out)
            },
        }
    }
}

/// `model_of_seq` of a sequence extended by one element.
pub proof fn lemma_model_of_seq_push(items: Seq<Value>, x: Value)
    ensures
        model_of_seq(items.push(x)) == model_of_seq(items).push(model_of(x)),
{
    assert(items.push(x).drop_last() =~= items);
    assert(items.push(x).last() == x);
}

/// `model_of_fields` of a sequence extended by one pair.
pub proof fn lemma_model_of_fields_push(fields: Seq<(String, Value)>, p: (String, Value))
    ensures
        model_of_fields(fields.push(p)) == model_of_fields(fields).push(
            (p.0@, model_of(p.1)),
        ),
{
    assert(fields.push(p).drop_last() =~= fields);
    assert(fields.push(p).last() == p);
}

/// The value of the first field with this key, if any.
pub open spec fn field_get(
    fs: Seq<(Seq<char>, ValueModel)>,
    k: Seq<char>,
) -> Option<ValueModel>
    decreases fs.len(),
{
    if fs.len() == 0 {
        None
    } else if fs[0].0 == k {
        Some(fs[0].1)
    } else {
        field_get(fs.subrange(1, fs.len() as int), k)
    }
}

/// The fields with the first field keyed `k` set to `v`, or with `(k, v)`
/// appended when no field has that key.
pub open spec fn field_set(
    fs: Seq<(Seq<char>, ValueModel)>,
    k: Seq<char>,
    v: ValueModel,
) -> Seq<(Seq<char>, ValueModel)>
    decreases fs.len(),
{
    if fs.len() == 0 {
        seq![(k, v)]
    } else if fs[0].0 == k {
        seq![(fs[0].0, v)] + fs.subrange(1, fs.len() as int)
    } else {
        seq![fs[0]] + field_set(fs.subrange(1, fs.len() as int), k, v)
    }
}

/// The fields keyed other than `k`, as a predicate.
pub open spec fn p_key_not(k: Seq<char>) -> spec_fn((Seq<char>, ValueModel)) -> bool {
    |p: (Seq<char>, ValueModel)| p.0 != k
}

/// The fields without any field keyed `k`.
pub open spec fn field_remove(
    fs: Seq<(Seq<char>, ValueModel)>,
    k: Seq<char>,
) -> Seq<(Seq<char>, ValueModel)> {
    crate::seq_util::keep(fs, p_key_not(k))
}

/// When `i` is the first index keyed `k`, `field_get` returns that value.
pub proof fn lemma_field_get_found(fs: Seq<(Seq<char>, ValueModel)>, k: Seq<char>, i: int)
    requires
        0 <= i < fs.len(),
        fs[i].0 == k,
        forall|j: int| 0 <= j < i ==> (#[trigger] fs[j]).0 != k,
    ensures
        field_get(fs, k) == Some(fs[i].1),
    decreases fs.len(),
{
    if i > 0 {
        let rest = fs.subrange(1, fs.len() as int);
        assert(forall|j: int| 0 <= j < i - 1 ==> (#[trigger] rest[j]).0 != k);
        lemma_field_get_found(rest, k, i - 1);
    }
}

/// When no field is keyed `k`, `field_get` returns nothing.
pub proof fn lemma_field_get_absent(fs: Seq<(Seq<char>, ValueModel)>, k: Seq<char>)
    requires
        forall|j: int| 0 <= j < fs.len() ==> (#[trigger] fs[j]).0 != k,
    ensures
        field_get(fs, k) is None,
    decreases fs.len(),
{
    if fs.len() > 0 {
        let rest = fs.subrange(1, fs.len() as int);
        assert(forall|j: int| 0 <= j < rest.len() ==> (#[trigger] rest[j]).0 != k);
        lemma_field_get_absent(rest, k);
    }
}

/// When `i` is the first index keyed `k`, `field_set` updates in place.
pub proof fn lemma_field_set_found(
    fs: Seq<(Seq<char>, ValueModel)>,
    k: Seq<char>,
    v: ValueModel,
    i: int,
)
    requires
        0 <= i < fs.len(),
        fs[i].0 == k,
        forall|j: int| 0 <= j < i ==> (#[trigger] fs[j]).0 != k,
    ensures
        field_set(fs, k, v) == fs.update(i, (fs[i].0, v)),
    decreases fs.len(),
{
    if i == 0 {
        assert(seq![(fs[0].0, v)] + fs.subrange(1, fs.len() as int) =~= fs.update(
            0,
            (fs[0].0, v),
        ));
    } else {
        let rest = fs.subrange(1, fs.len() as int);
        assert(forall|j: int| 0 <= j < i - 1 ==> (#[trigger] rest[j]).0 != k);
        lemma_field_set_found(rest, k, v, i - 1);
        assert(seq![fs[0]] + rest.update(i - 1, (rest[i - 1].0, v)) =~= fs.update(
            i,
            (fs[i].0, v),
        ));
    }
}

/// When no field is keyed `k`, `field_set` appends.
pub proof fn lemma_field_set_absent(
    fs: Seq<(Seq<char>, ValueModel)>,
    k: Seq<char>,
    v: ValueModel,
)
    requires
        forall|j: int| 0 <= j < fs.len() ==> (#[trigger] fs[j]).0 != k,
    ensures
        field_set(fs, k, v) == fs.push((k, v)),
    decreases fs.len(),
{
    if fs.len() == 0 {
        assert(field_set(fs, k, v) =~= fs.push((k, v)));
    } else {
        let rest = fs.subrange(1, fs.len() as int);
        assert(forall|j: int| 0 <= j < rest.len() ==> (#[trigger] rest[j]).0 != k);
        lemma_field_set_absent(rest, k, v);
        assert(seq![fs[0]] + rest.push((k, v)) =~= fs.push((k, v)));
    }
}

/// Setting a key makes it readable.
pub proof fn lemma_field_get_set_same(
    fs: Seq<(Seq<char>, ValueModel)>,
    k: Seq<char>,
    v: ValueModel,
)
    ensures
        field_get(field_set(fs, k, v), k) == Some(v),
    decreases fs.len(),
{
    if fs.len() == 0 {
    } else if fs[0].0 == k {
        let out = seq![(fs[0].0, v)] + fs.subrange(1, fs.len() as int);
        assert(out[0] == (fs[0].0, v));
    } else {
        let rest = fs.subrange(1, fs.len() as int);
        lemma_field_get_set_same(rest, k, v);
        let out = seq![fs[0]] + field_set(rest, k, v);
        assert(out[0] == fs[0]);
        assert(out.subrange(1, out.len() as int) =~= field_set(rest, k, v));
    }
}

/// Setting a key leaves the other keys unchanged.
pub proof fn lemma_field_get_set_other(
    fs: Seq<(Seq<char>, ValueModel)>,
    k: Seq<char>,
    v: ValueModel,
    k2: Seq<char>,
)
    requires
        k2 != k,
    ensures
        field_get(field_set(fs, k, v), k2) == field_get(fs, k2),
    decreases fs.len(),
{
    if fs.len() == 0 {
        let out = seq![(k, v)];
        assert(out[0] == (k, v));
        assert(out.subrange(1, out.len() as int) =~= Seq::<(Seq<char>, ValueModel)>::empty());
        assert(field_get(out, k2) == field_get(out.subrange(1, out.len() as int), k2));
        assert(field_get(Seq::<(Seq<char>, ValueModel)>::empty(), k2) is None);
    } else if fs[0].0 == k {
        let out = seq![(fs[0].0, v)] + fs.subrange(1, fs.len() as int);
        assert(out[0] == (fs[0].0, v));
        assert(out.subrange(1, out.len() as int) =~= fs.subrange(1, fs.len() as int));
        assert(field_get(out, k2) == field_get(fs.subrange(1, fs.len() as int), k2));
        assert(field_get(fs, k2) == field_get(fs.subrange(1, fs.len() as int), k2));
    } else {
        let rest = fs.subrange(1, fs.len() as int);
        lemma_field_get_set_other(rest, k, v, k2);
        let out = seq![fs[0]] + field_set(rest, k, v);
        assert(out[0] == fs[0]);
        assert(out.subrange(1, out.len() as int) =~= field_set(rest, k, v));
        if fs[0].0 == k2 {
            assert(field_get(out, k2) == Some(out[0].1));
            assert(field_get(fs, k2) == Some(fs[0].1));
        } else {
            assert(field_get(out, k2) == field_get(field_set(rest, k, v), k2));
            assert(field_get(fs, k2) == field_get(rest, k2));
        }
    }
}

/// Setting a key twice keeps only the second value.
pub proof fn lemma_field_set_set(
    fs: Seq<(Seq<char>, ValueModel)>,
    k: Seq<char>,
    v: ValueModel,
    w: ValueModel,
)
    ensures
        field_set(field_set(fs, k, v), k, w) == field_set(fs, k, w),
    decreases fs.len(),
{
    if fs.len() == 0 {
        let out = seq![(k, v)];
        assert(out[0].0 == k);
        assert(seq![(out[0].0, w)] + out.subrange(1, out.len() as int) =~= seq![(k, w)]);
    } else if fs[0].0 == k {
        let out = seq![(fs[0].0, v)] + fs.subrange(1, fs.len() as int);
        assert(out[0] == (fs[0].0, v));
        assert(out.subrange(1, out.len() as int) =~= fs.subrange(1, fs.len() as int));
        assert(seq![(out[0].0, w)] + out.subrange(1, out.len() as int) =~= field_set(
            fs,
            k,
            w,
        ));
    } else {
        let rest = fs.subrange(1, fs.len() as int);
        lemma_field_set_set(rest, k, v, w);
        let out = seq![fs[0]] + field_set(rest, k, v);
        assert(out[0] == fs[0]);
        assert(out.subrange(1, out.len() as int) =~= field_set(rest, k, v));
        assert(seq![out[0]] + field_set(field_set(rest, k, v), k, w) =~= field_set(
            fs,
            k,
            w,
        ));
    }
}

/// Setting a key to the value it already holds changes nothing.
pub proof fn lemma_field_set_noop(
    fs: Seq<(Seq<char>, ValueModel)>,
    k: Seq<char>,
    v: ValueModel,
)
    requires
        field_get(fs, k) == Some(v),
    ensures
        field_set(fs, k, v) == fs,
    decreases fs.len(),
{
    if fs.len() > 0 {
        if fs[0].0 == k {
            assert(fs[0] == (fs[0].0, v));
            assert(seq![(fs[0].0, v)] + fs.subrange(1, fs.len() as int) =~= fs);
        } else {
            let rest = fs.subrange(1, fs.len() as int);
            lemma_field_set_noop(rest, k, v);
            assert(seq![fs[0]] + rest =~= fs);
        }
    }
}

/// `keep` can be read off the front of the sequence.
pub proof fn lemma_keep_front<A>(s: Seq<A>, p: spec_fn(A) -> bool)
    requires
        s.len() > 0,
    ensures
        crate::seq_util::keep(s, p) == if p(s[0]) {
            seq![s[0]] + crate::seq_util::keep(s.subrange(1, s.len() as int), p)
        } else {
            crate::seq_util::keep(s.subrange(1, s.len() as int), p)
        },
{
    let single = seq![s[0]];
    let tail = s.subrange(1, s.len() as int);
    assert(s =~= single + tail);
    crate::seq_util::lemma_keep_add(single, tail, p);
    assert(single.drop_last() =~= Seq::<A>::empty());
    assert(single.last() == s[0]);
    assert(crate::seq_util::keep(single.drop_last(), p) =~= Seq::<A>::empty());
    if p(s[0]) {
        assert(crate::seq_util::keep(single, p) =~= seq![s[0]]);
    } else {
        assert(crate::seq_util::keep(single, p) =~= Seq::<A>::empty());
        assert(Seq::<A>::empty() + crate::seq_util::keep(tail, p) =~= crate::seq_util::keep(
            tail,
            p,
        ));
    }
}

/// Removing one key leaves the others readable unchanged.
pub proof fn lemma_field_get_remove_other(
    fs: Seq<(Seq<char>, ValueModel)>,
    k: Seq<char>,
    q: Seq<char>,
)
    requires
        q != k,
    ensures
        field_get(field_remove(fs, k), q) == field_get(fs, q),
    decreases fs.len(),
{
    if fs.len() > 0 {
        let rest = fs.subrange(1, fs.len() as int);
        let pred = p_key_not(k);
        assert(pred(fs[0]) == (fs[0].0 != k));
        lemma_keep_front(fs, pred);
        lemma_field_get_remove_other(rest, k, q);
        if fs[0].0 != k {
            let out = seq![fs[0]] + crate::seq_util::keep(rest, pred);
            assert(field_remove(fs, k) == out);
            assert(out[0] == fs[0]);
            assert(out.subrange(1, out.len() as int) =~= crate::seq_util::keep(rest, pred));
            if fs[0].0 == q {
                assert(field_get(out, q) == Some(out[0].1));
                assert(field_get(fs, q) == Some(fs[0].1));
            } else {
                assert(field_get(out, q) == field_get(field_remove(rest, k), q));
                assert(field_get(fs, q) == field_get(rest, q));
            }
        } else {
            assert(field_remove(fs, k) == crate::seq_util::keep(rest, pred));
            assert(fs[0].0 != q);
            assert(field_get(fs, q) == field_get(rest, q));
        }
    }
}

/// A readable key has a first field, and `field_get` returns its value.
pub proof fn lemma_field_get_first_index(fs: Seq<(Seq<char>, ValueModel)>, k: Seq<char>)
    requires
        field_get(fs, k) is Some,
    ensures
        exists|i: int|
            0 <= i < fs.len() && (#[trigger] fs[i]).0 == k && field_get(fs, k) == Some(
                fs[i].1,
            ) && forall|j: int| 0 <= j < i ==> (#[trigger] fs[j]).0 != k,
    decreases fs.len(),
{
    if fs.len() > 0 {
        if fs[0].0 == k {
            assert(fs[0].0 == k && field_get(fs, k) == Some(fs[0].1) && forall|j: int|
                0 <= j < 0 ==> (#[trigger] fs[j]).0 != k);
        } else {
            let rest = fs.subrange(1, fs.len() as int);
            assert(field_get(fs, k) == field_get(rest, k));
            lemma_field_get_first_index(rest, k);
            let i = choose|i: int|
                0 <= i < rest.len() && (#[trigger] rest[i]).0 == k && field_get(rest, k)
                    == Some(rest[i].1) && forall|j: int|
                    0 <= j < i ==> (#[trigger] rest[j]).0 != k;
            assert(fs[i + 1] == rest[i]);
            assert forall|j: int| 0 <= j < i + 1 implies (#[trigger] fs[j]).0 != k by {
                if j >= 1 {
                    assert(fs[j] == rest[j - 1]);
                }
            }
            assert(fs[i + 1].0 == k && field_get(fs, k) == Some(fs[i + 1].1) && forall|
                j: int,
            |
                0 <= j < i + 1 ==> (#[trigger] fs[j]).0 != k);
        }
    }
}

/// A present key's `field_set` is an update at its first index.
pub proof fn lemma_field_set_present(
    fs: Seq<(Seq<char>, ValueModel)>,
    k: Seq<char>,
    v: ValueModel,
)
    requires
        field_get(fs, k) is Some,
    ensures
        field_set(fs, k, v).len() == fs.len(),
        forall|j: int|
            0 <= j < fs.len() ==> (#[trigger] field_set(fs, k, v)[j]).0 == fs[j].0,
        forall|j: int|
            0 <= j < fs.len() && fs[j].0 != k ==> #[trigger] field_set(fs, k, v)[j] == fs[j],
        field_get(field_set(fs, k, v), k) == Some(v),
        exists|i: int|
            0 <= i < fs.len() && (#[trigger] fs[i]).0 == k && field_set(fs, k, v) == fs.update(
                i,
                (fs[i].0, v),
            ) && fs[i].1 == field_get(fs, k)->Some_0 && forall|j: int|
                0 <= j < i ==> (#[trigger] fs[j]).0 != k,
{
    lemma_field_get_first_index(fs, k);
    let i = choose|i: int|
        0 <= i < fs.len() && (#[trigger] fs[i]).0 == k && field_get(fs, k) == Some(fs[i].1)
            && forall|j: int| 0 <= j < i ==> (#[trigger] fs[j]).0 != k;
    lemma_field_set_found(fs, k, v, i);
    lemma_field_get_set_same(fs, k, v);
    assert(fs[i].0 == k && field_set(fs, k, v) == fs.update(i, (fs[i].0, v)) && fs[i].1
        == field_get(fs, k)->Some_0 && forall|j: int| 0 <= j < i ==> (#[trigger] fs[j]).0 != k);
    assert forall|j: int| 0 <= j < fs.len() && fs[j].0 != k implies #[trigger] field_set(
        fs,
        k,
        v,
    )[j] == fs[j] by {
        assert(j != i);
    }
}

/// Setting two distinct present keys and then setting both back to the
/// values they held restores the object.
pub proof fn lemma_field_set_restore(
    fs: Seq<(Seq<char>, ValueModel)>,
    k1: Seq<char>,
    k2: Seq<char>,
    a: ValueModel,
    b: ValueModel,
)
    requires
        k1 != k2,
        field_get(fs, k1) is Some,
        field_get(fs, k2) is Some,
    ensures
        field_set(
            field_set(field_set(field_set(fs, k1, a), k2, b), k1, field_get(fs, k1)->Some_0),
            k2,
            field_get(fs, k2)->Some_0,
        ) == fs,
{
    let v1 = field_get(fs, k1)->Some_0;
    let v2 = field_get(fs, k2)->Some_0;
    lemma_field_set_present(fs, k1, a);
    let f1 = field_set(fs, k1, a);
    lemma_field_get_set_other(fs, k1, a, k2);
    lemma_field_set_present(f1, k2, b);
    let f2 = field_set(f1, k2, b);
    lemma_field_get_set_other(f1, k2, b, k1);
    lemma_field_set_present(f2, k1, v1);
    let f3 = field_set(f2, k1, v1);
    lemma_field_get_set_other(f2, k1, v1, k2);
    lemma_field_set_present(f3, k2, v2);
    let f4 = field_set(f3, k2, v2);
    let i1 = choose|i: int|
        0 <= i < fs.len() && (#[trigger] fs[i]).0 == k1 && f1 == fs.update(i, (fs[i].0, a))
            && fs[i].1 == v1 && forall|j: int| 0 <= j < i ==> (#[trigger] fs[j]).0 != k1;
    let i2 = choose|i: int|
        0 <= i < f1.len() && (#[trigger] f1[i]).0 == k2 && f2 == f1.update(i, (f1[i].0, b))
            && f1[i].1 == field_get(f1, k2)->Some_0 && forall|j: int|
            0 <= j < i ==> (#[trigger] f1[j]).0 != k2;
    let i3 = choose|i: int|
        0 <= i < f2.len() && (#[trigger] f2[i]).0 == k1 && f3 == f2.update(i, (f2[i].0, v1))
            && f2[i].1 == field_get(f2, k1)->Some_0 && forall|j: int|
            0 <= j < i ==> (#[trigger] f2[j]).0 != k1;
    let i4 = choose|i: int|
        0 <= i < f3.len() && (#[trigger] f3[i]).0 == k2 && f4 == f3.update(i, (f3[i].0, v2))
            && f3[i].1 == field_get(f3, k2)->Some_0 && forall|j: int|
            0 <= j < i ==> (#[trigger] f3[j]).0 != k2;
    // keys agree pointwise at every stage, so the first indices agree
    assert(forall|j: int| 0 <= j < fs.len() ==> (#[trigger] f1[j]).0 == fs[j].0);
    assert(forall|j: int| 0 <= j < fs.len() ==> (#[trigger] f2[j]).0 == fs[j].0);
    assert(forall|j: int| 0 <= j < fs.len() ==> (#[trigger] f3[j]).0 == fs[j].0);
    assert(i3 == i1) by {
        assert(fs[i3].0 == k1);
        assert(fs[i1].0 == k1);
        if i3 < i1 {
            assert((fs[i3]).0 != k1);
        }
        if i1 < i3 {
            assert((f2[i1]).0 == k1);
        }
    }
    assert(i4 == i2) by {
        assert(f1[i4].0 == k2);
        assert(f1[i2].0 == k2);
        if i4 < i2 {
            assert((f1[i4]).0 != k2);
        }
        if i2 < i4 {
            assert((f3[i2]).0 == k2);
        }
    }
    assert(i1 != i2) by {
        assert(fs[i1].0 == k1);
        assert(f1[i2].0 == k2);
    }
    assert forall|j: int| 0 <= j < fs.len() implies #[trigger] f4[j] == fs[j] by {
        if j == i1 {
            assert(f3[j] == (f2[i1].0, v1));
            assert(f4[j] == f3[j]);
            assert(fs[j] == (fs[i1].0, v1));
        } else if j == i2 {
            assert(f4[j] == (f3[i2].0, v2));
            assert(field_get(f1, k2) == field_get(fs, k2));
            assert(f1[i2].1 == v2);
            assert(f1[j] == fs[j]);
            assert(fs[j] == (fs[i2].0, v2));
        } else {
            assert(f1[j] == fs[j]);
            assert(f2[j] == f1[j]);
            assert(f3[j] == f2[j]);
            assert(f4[j] == f3[j]);
        }
    }
    assert(f4 =~= fs);
}

/// Setting two distinct present keys in the order `k1 k2 k1 k2 k1`,
/// ending on the values they held, restores the object.
pub proof fn lemma_field_set_restore5(
    fs: Seq<(Seq<char>, ValueModel)>,
    k1: Seq<char>,
    k2: Seq<char>,
    a: ValueModel,
    b: ValueModel,
    c: ValueModel,
)
    requires
        k1 != k2,
        field_get(fs, k1) is Some,
        field_get(fs, k2) is Some,
    ensures
        field_set(
            field_set(
                field_set(
                    field_set(field_set(fs, k1, a), k2, b), k1, c),
                k2,
                field_get(fs, k2)->Some_0,
            ),
            k1,
            field_get(fs, k1)->Some_0,
        ) == fs,
{
    let v1 = field_get(fs, k1)->Some_0;
    let v2 = field_get(fs, k2)->Some_0;
    // pull the repeated writes together and collapse them
    lemma_field_set_swap(fs, k1, k2, a, c, b);
    lemma_field_set_set(fs, k1, a, c);
    assert(field_set(field_set(field_set(fs, k1, a), k2, b), k1, c) == field_set(
        field_set(fs, k1, c),
        k2,
        b,
    ));
    lemma_field_get_set_other(fs, k1, c, k2);
    lemma_field_set_set(field_set(fs, k1, c), k2, b, v2);
    lemma_field_set_swap(fs, k1, k2, c, v1, v2);
    lemma_field_set_set(fs, k1, c, v1);
    assert(field_set(field_set(field_set(fs, k1, c), k2, v2), k1, v1) == field_set(
        field_set(fs, k1, v1),
        k2,
        v2,
    ));
    lemma_field_set_noop(fs, k1, v1);
    lemma_field_set_noop(fs, k2, v2);
}

/// Writing two distinct keys commutes with collapsing a rewrite of the
/// first: set `k1`, set `k2`, set `k1` again is set `k1` twice, set `k2`.
pub proof fn lemma_field_set_swap(
    fs: Seq<(Seq<char>, ValueModel)>,
    k1: Seq<char>,
    k2: Seq<char>,
    a: ValueModel,
    c: ValueModel,
    b: ValueModel,
)
    requires
        k1 != k2,
        field_get(fs, k1) is Some,
        field_get(fs, k2) is Some,
    ensures
        field_set(field_set(field_set(fs, k1, a), k2, b), k1, c) == field_set(
            field_set(field_set(fs, k1, a), k1, c),
            k2,
            b,
        ),
{
    lemma_field_set_present(fs, k1, a);
    let f1 = field_set(fs, k1, a);
    lemma_field_get_set_other(fs, k1, a, k2);
    lemma_field_set_present(f1, k2, b);
    let f2 = field_set(f1, k2, b);
    lemma_field_get_set_other(f1, k2, b, k1);
    lemma_field_set_present(f2, k1, c);
    let lhs = field_set(f2, k1, c);
    lemma_field_set_present(f1, k1, c);
    let g2 = field_set(f1, k1, c);
    lemma_field_get_set_other(f1, k1, c, k2);
    lemma_field_set_present(g2, k2, b);
    let rhs = field_set(g2, k2, b);
    let i1 = choose|i: int|
        0 <= i < fs.len() && (#[trigger] fs[i]).0 == k1 && f1 == fs.update(i, (fs[i].0, a))
            && fs[i].1 == field_get(fs, k1)->Some_0 && forall|j: int|
            0 <= j < i ==> (#[trigger] fs[j]).0 != k1;
    let i2 = choose|i: int|
        0 <= i < f1.len() && (#[trigger] f1[i]).0 == k2 && f2 == f1.update(i, (f1[i].0, b))
            && f1[i].1 == field_get(f1, k2)->Some_0 && forall|j: int|
            0 <= j < i ==> (#[trigger] f1[j]).0 != k2;
    let i3 = choose|i: int|
        0 <= i < f2.len() && (#[trigger] f2[i]).0 == k1 && lhs == f2.update(i, (f2[i].0, c))
            && f2[i].1 == field_get(f2, k1)->Some_0 && forall|j: int|
            0 <= j < i ==> (#[trigger] f2[j]).0 != k1;
    let i4 = choose|i: int|
        0 <= i < f1.len() && (#[trigger] f1[i]).0 == k1 && g2 == f1.update(i, (f1[i].0, c))
            && f1[i].1 == field_get(f1, k1)->Some_0 && forall|j: int|
            0 <= j < i ==> (#[trigger] f1[j]).0 != k1;
    let i5 = choose|i: int|
        0 <= i < g2.len() && (#[trigger] g2[i]).0 == k2 && rhs == g2.update(i, (g2[i].0, b))
            && g2[i].1 == field_get(g2, k2)->Some_0 && forall|j: int|
            0 <= j < i ==> (#[trigger] g2[j]).0 != k2;
    assert(forall|j: int| 0 <= j < fs.len() ==> (#[trigger] f1[j]).0 == fs[j].0);
    assert(forall|j: int| 0 <= j < fs.len() ==> (#[trigger] f2[j]).0 == fs[j].0);
    assert(forall|j: int| 0 <= j < fs.len() ==> (#[trigger] g2[j]).0 == fs[j].0);
    assert(i3 == i1) by {
        if i3 < i1 {
            assert(fs[i3].0 == k1);
        }
        if i1 < i3 {
            assert(f2[i1].0 == k1);
        }
    }
    assert(i4 == i1) by {
        if i4 < i1 {
            assert(fs[i4].0 == k1);
        }
        if i1 < i4 {
            assert(f1[i1].0 == k1);
        }
    }
    assert(i5 == i2) by {
        if i5 < i2 {
            assert(f1[i5].0 == k2);
        }
        if i2 < i5 {
            assert(g2[i2].0 == k2);
        }
    }
    assert(i1 != i2) by {
        assert(fs[i1].0 == k1);
        assert(f1[i2].0 == k2);
    }
    assert forall|j: int| 0 <= j < fs.len() implies #[trigger] lhs[j] == rhs[j] by {
        if j == i1 {
            assert(lhs[j] == (f2[i1].0, c));
            assert(rhs[j] == g2[j]);
            assert(g2[j] == (f1[i1].0, c));
        } else if j == i2 {
            assert(lhs[j] == f2[j]);
            assert(f2[j] == (f1[i2].0, b));
            assert(rhs[j] == (g2[i2].0, b));
        } else {
            assert(lhs[j] == f2[j]);
            assert(f2[j] == f1[j]);
            assert(rhs[j] == g2[j]);
            assert(g2[j] == f1[j]);
        }
    }
    assert(lhs =~= rhs);
}

/// The value under key `k` when the node is an object; nothing otherwise.
pub open spec fn value_get_model(m: ValueModel, k: Seq<char>) -> Option<ValueModel> {
    match m {
        ValueModel::Obj(fs) => field_get(fs, k),
        _ => None,
    }
}

/// The index of the first field with this key, if any.
pub fn obj_get_index(fields: &Vec<(String, Value)>, key: &str) -> (r: Option<usize>)
    ensures
        match r {
            Some(i) => i < fields@.len() && fields@[i as int].0@ == key@ && forall|j: int|
                0 <= j < i ==> (#[trigger] fields@[j]).0@ != key@,
            None => forall|j: int|
                0 <= j < fields@.len() ==> (#[trigger] fields@[j]).0@ != key@,
        },
{
    let mut i: usize = 0;
    while i < fields.len()
        invariant
            i <= fields@.len(),
            forall|j: int| 0 <= j < i ==> (#[trigger] fields@[j]).0@ != key@,
        decreases fields@.len() - i,
    {
        if crate::strings::str_eq(fields[i].0.as_str(), key) {
            return Some(i);
        }
        i = i + 1;
    }
    None
}

/// Sets the first field with this key, or appends one.
pub fn obj_set_value(fields: Vec<(String, Value)>, key: &str, val: Value) -> (r: Vec<
    (String, Value),
>)
    ensures
        model_of_fields(r@) == field_set(model_of_fields(fields@), key@, val@),
{
    let ghost orig = fields@;
    let ghost vm = model_of(val);
    let mut fields = fields;
    match obj_get_index(&fields, key) {
        Some(i) => {
            let pair = fields.remove(i);
            fields.insert(i, (pair.0, val));
            proof {
                assert(fields@ =~= orig.update(i as int, (orig[i as int].0, val)));
                lemma_model_of_fields(orig);
                lemma_model_of_fields(fields@);
                assert(forall|j: int|
                    0 <= j < i ==> (#[trigger] model_of_fields(orig)[j]).0 != key@);
                lemma_field_set_found(model_of_fields(orig), key@, vm, i as int);
                assert(model_of_fields(fields@) =~= model_of_fields(orig).update(
                    i as int,
                    (model_of_fields(orig)[i as int].0, vm),
                ));
            }
            fields
        },
        None => {
            let owned_key = key.to_owned();
            fields.push((owned_key, val));
            proof {
                lemma_model_of_fields_push(orig, fields@.last());
                assert(fields@ =~= orig.push(fields@.last()));
                lemma_model_of_fields(orig);
                assert(forall|j: int|
                    0 <= j < orig.len() ==> (#[trigger] model_of_fields(orig)[j]).0 != key@);
                lemma_field_set_absent(model_of_fields(orig), key@, vm);
            }
            fields
        },
    }
}

/// Removes every field with this key.
pub fn obj_remove_key(fields: Vec<(String, Value)>, key: &str) -> (r: Vec<(String, Value)>)
    ensures
        model_of_fields(r@) == field_remove(model_of_fields(fields@), key@),
{
    let ghost orig = fields@;
    let mut rest = fields;
    let mut out: Vec<(String, Value)> = Vec::new();
    proof {
        assert(orig.subrange(0, 0) =~= Seq::<(String, Value)>::empty());
        assert(rest@ =~= orig.subrange(0, orig.len() as int));
    }
    while rest.len() > 0
        invariant
            rest@.len() <= orig.len(),
            rest@ =~= orig.subrange(orig.len() - rest@.len(), orig.len() as int),
            model_of_fields(out@) == crate::seq_util::keep(
                model_of_fields(orig.subrange(0, orig.len() - rest@.len())),
                p_key_not(key@),
            ),
        decreases rest@.len(),
    {
        let ghost pre = rest@;
        let ghost done: int = orig.len() - pre.len();
        let pair = rest.remove(0);
        proof {
            assert(pre =~= orig.subrange(done, orig.len() as int));
            assert(pair == pre[0]);
            assert(orig.subrange(done, orig.len() as int)[0] == orig[done]);
            assert(pair == orig[done]);
            assert(rest@ == pre.remove(0));
            assert(rest@ =~= orig.subrange(done + 1, orig.len() as int));
            assert(orig.subrange(0, done + 1) =~= orig.subrange(0, done).push(orig[done]));
            lemma_model_of_fields_push(orig.subrange(0, done), orig[done]);
            crate::seq_util::lemma_keep_push(
                model_of_fields(orig.subrange(0, done)),
                p_key_not(key@),
                (orig[done].0@, model_of(orig[done].1)),
            );
            assert(p_key_not(key@)((orig[done].0@, model_of(orig[done].1))) == (
            orig[done].0@ != key@));
        }
        if !crate::strings::str_eq(pair.0.as_str(), key) {
            let ghost before = out@;
            out.push(pair);
            proof {
                lemma_model_of_fields_push(before, pair);
            }
        }
    }
    proof {
        assert(orig.subrange(0, orig.len() as int) =~= orig);
    }
    out
}

/// The value borrowed under key `k` of an object node.
pub fn value_get<'a>(v: &'a Value, key: &str) -> (r: Option<&'a Value>)
    ensures
        match r {
            Some(x) => value_get_model(v@, key@) == Some(x@),
            None => value_get_model(v@, key@) is None,
        },
{
    match v {
        Value::Obj(fields) => {
            match obj_get_index(fields, key) {
                Some(i) => {
                    proof {
                        lemma_model_of_fields(fields@);
                        assert(forall|j: int|
                            0 <= j < i ==> (#[trigger] model_of_fields(fields@)[j]).0
                                != key@);
                        lemma_field_get_found(model_of_fields(fields@), key@, i as int);
                    }
                    Some(&fields[i].1)
                },
                None => {
                    proof {
                        lemma_model_of_fields(fields@);
                        assert(forall|j: int|
                            0 <= j < fields@.len() ==> (
                            #[trigger] model_of_fields(fields@)[j]).0 != key@);
                        lemma_field_get_absent(model_of_fields(fields@), key@);
                    }
                    None
                },
            }
        },
        _ => None,
    }
}

/// The object with the field set; any other node unchanged.
pub open spec fn value_set_model(m: ValueModel, k: Seq<char>, v: ValueModel) -> ValueModel {
    match m {
        ValueModel::Obj(fs) => ValueModel::Obj(field_set(fs, k, v)),
        _ => m,
    }
}

/// The object without the field; any other node unchanged.
pub open spec fn value_remove_model(m: ValueModel, k: Seq<char>) -> ValueModel {
    match m {
        ValueModel::Obj(fs) => ValueModel::Obj(field_remove(fs, k)),
        _ => m,
    }
}

/// Sets a field of an object node; leaves any other node unchanged.
pub fn value_set(v: Value, key: &str, val: Value) -> (r: Value)
    ensures
        r@ == value_set_model(v@, key@, val@),
{
    match v {
        Value::Obj(fields) => Value::Obj(obj_set_value(fields, key, val)),
        other => other,
    }
}

/// Removes a field of an object node; leaves any other node unchanged.
pub fn value_remove(v: Value, key: &str) -> (r: Value)
    ensures
        r@ == value_remove_model(v@, key@),
{
    match v {
        Value::Obj(fields) => Value::Obj(obj_remove_key(fields, key)),
        other => other,
    }
}

/// Splices `block` into `items` before position `at`.
pub fn insert_values_at(items: Vec<Value>, at: usize, block: Vec<Value>) -> (r: Vec<Value>)
    requires
        at <= items@.len(),
    ensures
        model_of_seq(r@) == crate::seq_util::insert_block(
            model_of_seq(items@),
            at as int,
            model_of_seq(block@),
        ),
{
    let ghost iorig = items@;
    let ghost borig = block@;
    let mut out = items;
    let mut rest = block;
    let total = rest.len();
    let mut k: usize = 0;
    proof {
        assert(total == borig.len());
        assert(rest@ =~= borig.subrange(borig.len() - rest@.len(), borig.len() as int));
        assert(out@ =~= iorig.subrange(0, at as int) + borig.subrange(0, 0)
            + iorig.subrange(at as int, iorig.len() as int));
    }
    while rest.len() > 0
        invariant
            rest@.len() <= borig.len(),
            at <= iorig.len(),
            total == borig.len(),
            k == borig.len() - rest@.len(),
            rest@ =~= borig.subrange(borig.len() - rest@.len(), borig.len() as int),
            out@ =~= iorig.subrange(0, at as int) + borig.subrange(0, k as int)
                + iorig.subrange(at as int, iorig.len() as int),
        decreases rest@.len(),
    {
        let ghost pre = rest@;
        let ghost done: int = borig.len() - pre.len();
        let x = rest.remove(0);
        proof {
            assert(pre[0] == borig[done]);
            assert(x == borig[done]);
            assert(rest@ =~= borig.subrange(done + 1, borig.len() as int));
            assert(out@.len() == iorig.len() + done);
        }
        let cur_len = out.len();
        proof {
            assert(at + k <= cur_len);
        }
        let pos = at + k;
        out.insert(pos, x);
        proof {
            assert(k < total);
        }
        k = k + 1;
        proof {
            assert(borig.subrange(0, done + 1) =~= borig.subrange(0, done).push(borig[done]));
            assert(out@ =~= iorig.subrange(0, at as int) + borig.subrange(0, done + 1)
                + iorig.subrange(at as int, iorig.len() as int));
        }
    }
    proof {
        assert(borig.subrange(0, borig.len() as int) =~= borig);
        lemma_model_of_seq(out@);
        lemma_model_of_seq(iorig);
        lemma_model_of_seq(borig);
        assert(model_of_seq(out@) =~= crate::seq_util::insert_block(
            model_of_seq(iorig),
            at as int,
            model_of_seq(borig),
        ));
    }
    out
}

} // verus!
