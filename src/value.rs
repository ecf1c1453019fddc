use vstd::prelude::*;

verus! {

/// A JSON-shaped value. A number keeps the text it was written with; an
/// object keeps its fields in order.
#[derive(Debug)]
pub enum Value {
    Null,
    Bool(bool),
    Number(String),
    Str(String),
    Array(Vec<Value>),
    Object(Vec<(String, Value)>),
}

/// Two values hold the same data.
pub open spec fn same(a: Value, b: Value) -> bool
    decreases a,
{
    match (a, b) {
        (Value::Null, Value::Null) => true,
        (Value::Bool(x), Value::Bool(y)) => x == y,
        (Value::Number(x), Value::Number(y)) => x@ == y@,
        (Value::Str(x), Value::Str(y)) => x@ == y@,
        (Value::Array(x), Value::Array(y)) => x@.len() == y@.len() && forall|i: int|
            0 <= i < x@.len() ==> same(#[trigger] x@[i], y@[i]),
        (Value::Object(x), Value::Object(y)) => x@.len() == y@.len() && forall|i: int|
            0 <= i < x@.len() ==> (#[trigger] x@[i]).0@ == y@[i].0@ && same(x@[i].1, y@[i].1),
        _ => false,
    }
}

impl Value {
    /// A copy that shares nothing with `self`.
    pub fn deep_copy(&self) -> (r: Value)
        ensures
            same(*self, r),
        decreases self,
    {
        match self {
            Value::Null => Value::Null,
            Value::Bool(b) => Value::Bool(*b),
            Value::Number(t) => Value::Number(t.clone()),
            Value::Str(t) => Value::Str(t.clone()),
            Value::Array(items) => {
                let mut out: Vec<Value> = Vec::new();
                let mut i: usize = 0;
                while i < items.len()
                    invariant
                        i <= items@.len(),
                        out@.len() == i,
                        *self == Value::Array(*items),
                        forall|k: int| 0 <= k < i ==> same(#[trigger] items@[k], out@[k]),
                    decreases items@.len() - i,
                {
                    proof {
                        broadcast use vstd::std_specs::vec::axiom_vec_index_decreases;
                        assert(decreases_to!(*self => self->Array_0));
                        assert(decreases_to!(self->Array_0 => items[i as int]));
                    }
                    out.push(items[i].deep_copy());
                    i = i + 1;
                }
                Value::Array(out)
            },
            Value::Object(fs) => {
                let mut out: Vec<(String, Value)> = Vec::new();
                let mut i: usize = 0;
                while i < fs.len()
                    invariant
                        i <= fs@.len(),
                        out@.len() == i,
                        *self == Value::Object(*fs),
                        forall|k: int|
                            0 <= k < i ==> (#[trigger] fs@[k]).0@ == out@[k].0@ && same(
                                fs@[k].1,
                                out@[k].1,
                            ),
                    decreases fs@.len() - i,
                {
                    proof {
                        broadcast use vstd::std_specs::vec::axiom_vec_index_decreases;
                        assert(decreases_to!(*self => self->Object_0));
                        assert(decreases_to!(self->Object_0 => fs[i as int]));
                        assert(decreases_to!(fs[i as int] => fs[i as int].1));
                    }
                    out.push((fs[i].0.clone(), fs[i].1.deep_copy()));
                    i = i + 1;
                }
                Value::Object(out)
            },
        }
    }
}

/// The value of the first field named `k`.
pub open spec fn field(fs: Seq<(String, Value)>, k: Seq<char>) -> Option<Value>
    decreases fs.len(),
{
    if fs.len() == 0 {
        None
    } else if fs[0].0@ == k {
        Some(fs[0].1)
    } else {
        field(fs.subrange(1, fs.len() as int), k)
    }
}

/// The fields not named `k`, in order.
pub open spec fn without(fs: Seq<(String, Value)>, k: Seq<char>) -> Seq<(String, Value)>
    decreases fs.len(),
{
    if fs.len() == 0 {
        fs
    } else {
        let rest = without(fs.subrange(1, fs.len() as int), k);
        if fs[0].0@ == k {
            rest
        } else {
            seq![fs[0]] + rest
        }
    }
}

/// The fields after `k` is set to `v`: any field named `k` goes, and one
/// holding `v` comes last.
pub open spec fn with_field(fs: Seq<(String, Value)>, k: String, v: Value) -> Seq<
    (String, Value),
> {
    without(fs, k@).push((k, v))
}

pub proof fn lemma_field_concat(a: Seq<(String, Value)>, b: Seq<(String, Value)>, k: Seq<char>)
    ensures
        field(a + b, k) == if field(a, k) is Some {
            field(a, k)
        } else {
            field(b, k)
        },
    decreases a.len(),
{
    if a.len() > 0 {
        assert((a + b).subrange(1, (a + b).len() as int) =~= a.subrange(1, a.len() as int) + b);
        lemma_field_concat(a.subrange(1, a.len() as int), b, k);
    } else {
        assert(a + b =~= b);
    }
}

proof fn lemma_field_one(e: (String, Value), k: Seq<char>)
    ensures
        field(seq![e], k) == if e.0@ == k {
            Some(e.1)
        } else {
            None
        },
{
    let one = seq![e];
    assert(one.subrange(1, 1) =~= Seq::<(String, Value)>::empty());
    assert(field(one.subrange(1, 1), k) is None);
    assert(one[0] == e);
}

pub proof fn lemma_without(fs: Seq<(String, Value)>, k: Seq<char>, k2: Seq<char>)
    ensures
        forall|i: int| 0 <= i < without(fs, k).len() ==> (#[trigger] without(fs, k)[i]).0@ != k,
        k2 != k ==> field(without(fs, k), k2) == field(fs, k2),
        field(without(fs, k), k) is None,
    decreases fs.len(),
{
    if fs.len() > 0 {
        let tail = fs.subrange(1, fs.len() as int);
        lemma_without(tail, k, k2);
        let one = seq![fs[0]];
        assert(one.subrange(1, 1) =~= Seq::<(String, Value)>::empty());
        assert(one[0] == fs[0]);
        assert(field(fs, k2) == if fs[0].0@ == k2 {
            Some(fs[0].1)
        } else {
            field(tail, k2)
        });
        if fs[0].0@ != k {
            assert(without(fs, k) == one + without(tail, k));
            lemma_field_concat(one, without(tail, k), k2);
            lemma_field_concat(one, without(tail, k), k);
            lemma_field_one(fs[0], k);
            lemma_field_one(fs[0], k2);
            if fs[0].0@ != k2 {
            }
            assert forall|i: int| 0 <= i < without(fs, k).len() implies (#[trigger] without(
                fs,
                k,
            )[i]).0@ != k by {
                if i > 0 {
                    assert(without(fs, k)[i] == without(tail, k)[i - 1]);
                }
            }
        } else {
            assert(without(fs, k) == without(tail, k));
        }
    }
}

/// No two fields share a key.
pub open spec fn keys_unique(fs: Seq<(String, Value)>) -> bool {
    forall|i: int, j: int| 0 <= i < j < fs.len() ==> (#[trigger] fs[i]).0@ != (#[trigger] fs[j]).0@
}

pub proof fn lemma_without_keeps_absent(fs: Seq<(String, Value)>, k: Seq<char>, k2: Seq<char>)
    requires
        forall|i: int| 0 <= i < fs.len() ==> (#[trigger] fs[i]).0@ != k2,
    ensures
        forall|i: int| 0 <= i < without(fs, k).len() ==> (#[trigger] without(fs, k)[i]).0@ != k2,
    decreases fs.len(),
{
    if fs.len() > 0 {
        let tail = fs.subrange(1, fs.len() as int);
        assert forall|i: int| 0 <= i < tail.len() implies (#[trigger] tail[i]).0@ != k2 by {
            assert(tail[i] == fs[i + 1]);
        }
        lemma_without_keeps_absent(tail, k, k2);
        if fs[0].0@ != k {
            assert(without(fs, k) == seq![fs[0]] + without(tail, k));
            assert forall|i: int| 0 <= i < without(fs, k).len() implies (#[trigger] without(
                fs,
                k,
            )[i]).0@ != k2 by {
                if i > 0 {
                    assert(without(fs, k)[i] == without(tail, k)[i - 1]);
                } else {
                    assert(without(fs, k)[0] == fs[0]);
                }
            }
        } else {
            assert(without(fs, k) == without(tail, k));
        }
    }
}

/// Removing a key keeps the other keys unique.
pub proof fn lemma_without_unique(fs: Seq<(String, Value)>, k: Seq<char>)
    requires
        keys_unique(fs),
    ensures
        keys_unique(without(fs, k)),
    decreases fs.len(),
{
    if fs.len() > 0 {
        let tail = fs.subrange(1, fs.len() as int);
        assert forall|i: int, j: int| 0 <= i < j < tail.len() implies (#[trigger] tail[i]).0@
            != (#[trigger] tail[j]).0@ by {
            assert(tail[i] == fs[i + 1] && tail[j] == fs[j + 1]);
        }
        lemma_without_unique(tail, k);
        if fs[0].0@ != k {
            assert forall|i: int| 0 <= i < tail.len() implies (#[trigger] tail[i]).0@ != fs[0].0@ by {
                assert(tail[i] == fs[i + 1]);
            }
            lemma_without_keeps_absent(tail, k, fs[0].0@);
            let w = without(fs, k);
            let wt = without(tail, k);
            assert(w == seq![fs[0]] + wt);
            assert forall|i: int, j: int| 0 <= i < j < w.len() implies (#[trigger] w[i]).0@
                != (#[trigger] w[j]).0@ by {
                assert(w[j] == wt[j - 1]);
                if i > 0 {
                    assert(w[i] == wt[i - 1]);
                }
            }
        } else {
            assert(without(fs, k) == without(tail, k));
        }
    }
}

/// Setting `k` to `v` leaves exactly one field named `k`, the last one,
/// holding `v`, and every other field as it was.
pub proof fn lemma_with_field(fs: Seq<(String, Value)>, k: String, v: Value, k2: Seq<char>)
    ensures
        with_field(fs, k, v).last() == (k, v),
        forall|i: int|
            0 <= i < with_field(fs, k, v).len() - 1 ==> (#[trigger] with_field(fs, k, v)[i]).0@
                != k@,
        field(with_field(fs, k, v), k@) == Some(v),
        k2 != k@ ==> field(with_field(fs, k, v), k2) == field(fs, k2),
{
    lemma_without(fs, k@, k2);
    let w = without(fs, k@);
    let e = (k, v);
    assert(w.push(e) =~= w + seq![e]);
    lemma_field_concat(w, seq![e], k@);
    lemma_field_concat(w, seq![e], k2);
    lemma_field_one(e, k@);
    lemma_field_one(e, k2);
    assert(seq![e].subrange(1, 1) =~= Seq::<(String, Value)>::empty());
    assert forall|i: int| 0 <= i < w.push(e).len() - 1 implies (#[trigger] w.push(e)[i]).0@ != k@ by {
        assert(w.push(e)[i] == w[i]);
    }
}

/// Looks up the first field named `k`.
pub fn get_field<'a>(fs: &'a Vec<(String, Value)>, k: &String) -> (r: Option<&'a Value>)
    ensures
        match r {
            Some(v) => field(fs@, k@) == Some(*v),
            None => field(fs@, k@) is None,
        },
{
    let n = fs.len();
    let mut i: usize = 0;
    assert(fs@.subrange(0, n as int) =~= fs@);
    while i < n
        invariant
            n == fs@.len(),
            i <= n,
            field(fs@, k@) == field(fs@.subrange(i as int, n as int), k@),
        decreases n - i,
    {
        let ghost rest = fs@.subrange(i as int, n as int);
        assert(rest.subrange(1, rest.len() as int) =~= fs@.subrange(i + 1, n as int));
        assert(rest[0] == fs@[i as int]);
        if fs[i].0 == *k {
            return Some(&fs[i].1);
        }
        i = i + 1;
    }
    None
}

/// Removes every field named `k`.
pub fn remove_field(fs: &mut Vec<(String, Value)>, k: &String)
    ensures
        final(fs)@ == without(old(fs)@, k@),
{
    let ghost orig = fs@;
    let mut i: usize = 0;
    assert(fs@.subrange(0, fs@.len() as int) =~= fs@);
    assert(fs@.subrange(0, 0) + without(orig, k@) =~= without(orig, k@));
    while i < fs.len()
        invariant
            i <= fs@.len(),
            without(orig, k@) == fs@.subrange(0, i as int) + without(
                fs@.subrange(i as int, fs@.len() as int),
                k@,
            ),
        decreases fs@.len() - i,
    {
        let ghost rest = fs@.subrange(i as int, fs@.len() as int);
        assert(rest.subrange(1, rest.len() as int) =~= fs@.subrange(i + 1, fs@.len() as int));
        assert(rest[0] == fs@[i as int]);
        if fs[i].0 == *k {
            let ghost before = fs@;
            fs.remove(i);
            assert(fs@.subrange(0, i as int) =~= before.subrange(0, i as int));
            assert(fs@.subrange(i as int, fs@.len() as int) =~= before.subrange(
                i + 1,
                before.len() as int,
            ));
        } else {
            assert(fs@.subrange(0, i + 1) =~= fs@.subrange(0, i as int) + seq![fs@[i as int]]);
            assert(fs@.subrange(0, i as int) + (seq![fs@[i as int]] + without(
                fs@.subrange(i + 1, fs@.len() as int),
                k@,
            )) =~= fs@.subrange(0, i + 1) + without(fs@.subrange(i + 1, fs@.len() as int), k@));
            i = i + 1;
        }
    }
    assert(fs@.subrange(0, i as int) =~= fs@);
    assert(fs@.subrange(i as int, fs@.len() as int) =~= Seq::<(String, Value)>::empty());
    assert(fs@ + Seq::<(String, Value)>::empty() =~= fs@);
}

/// Sets field `k` to `v`: removes every field named `k`, then adds one at
/// the end.
pub fn set_field(fs: &mut Vec<(String, Value)>, k: String, v: Value)
    ensures
        final(fs)@ == with_field(old(fs)@, k, v),
{
    remove_field(fs, &k);
    fs.push((k, v));
}

} // verus!
