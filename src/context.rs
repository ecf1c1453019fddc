use vstd::prelude::*;
use vstd::string::StringExecFns;
use crate::site::{aggregate, aggregate_error, aggregated, is_text, SchemaError};
use crate::value::{field, lemma_with_field, same, set_field, without, Value};

verus! {

/// Two field lists hold the same keys and the same data, in order.
pub open spec fn same_fields(a: Seq<(String, Value)>, b: Seq<(String, Value)>) -> bool {
    &&& a.len() == b.len()
    &&& forall|i: int| 0 <= i < a.len() ==> (#[trigger] a[i]).0@ == b[i].0@ && same(a[i].1, b[i].1)
}

proof fn lemma_without_same(a: Seq<(String, Value)>, b: Seq<(String, Value)>, k: Seq<char>)
    requires
        same_fields(a, b),
    ensures
        same_fields(without(a, k), without(b, k)),
    decreases a.len(),
{
    if a.len() > 0 {
        let ta = a.subrange(1, a.len() as int);
        let tb = b.subrange(1, b.len() as int);
        assert forall|i: int| 0 <= i < ta.len() implies (#[trigger] ta[i]).0@ == tb[i].0@ && same(
            ta[i].1,
            tb[i].1,
        ) by {
            assert(ta[i] == a[i + 1]);
            assert(tb[i] == b[i + 1]);
        }
        lemma_without_same(ta, tb, k);
        assert(a[0].0@ == b[0].0@ && same(a[0].1, b[0].1));
        if a[0].0@ != k {
            let wa = seq![a[0]] + without(ta, k);
            let wb = seq![b[0]] + without(tb, k);
            assert forall|i: int| 0 <= i < wa.len() implies (#[trigger] wa[i]).0@ == wb[i].0@
                && same(wa[i].1, wb[i].1) by {
                if i > 0 {
                    assert(wa[i] == without(ta, k)[i - 1]);
                    assert(wb[i] == without(tb, k)[i - 1]);
                }
            }
        }
    }
}

/// A `members-list` entry for the member `m`: a copy of its fields without
/// any old `id`, then `id` holding the member's key. An entry that is not
/// an object is copied as it is.
pub open spec fn listed(m: (String, Value), e: Value) -> bool {
    match m.1 {
        Value::Object(o) => match e {
            Value::Object(n) => {
                &&& n@.len() > 0
                &&& same_fields(without(o@, "id"@), n@.drop_last())
                &&& n@.last().0@ == "id"@
                &&& is_text(n@.last().1, m.0@)
            },
            _ => false,
        },
        _ => same(m.1, e),
    }
}

/// The members as a list, one entry per member in order, each a fresh copy
/// with an `id` field equal to its key. The list shares nothing with
/// `members`: changing an entry leaves the members as they are.
pub fn members_list(members: &Vec<(String, Value)>) -> (r: Vec<Value>)
    ensures
        r@.len() == members@.len(),
        forall|j: int| 0 <= j < members@.len() ==> listed(#[trigger] members@[j], r@[j]),
{
    proof {
        reveal_strlit("id");
    }
    let mut out: Vec<Value> = Vec::new();
    let mut j: usize = 0;
    while j < members.len()
        invariant
            j <= members@.len(),
            out@.len() == j,
            forall|k: int| 0 <= k < j ==> listed(#[trigger] members@[k], out@[k]),
        decreases members@.len() - j,
    {
        let copy = members[j].1.deep_copy();
        match copy {
            Value::Object(mut fs) => {
                let ghost c = fs@;
                let key = String::from_str("id");
                set_field(&mut fs, key, Value::Str(members[j].0.clone()));
                proof {
                    let o = members@[j as int].1->Object_0@;
                    assert(same_fields(o, c));
                    lemma_without_same(o, c, "id"@);
                    assert(fs@.drop_last() =~= without(c, "id"@));
                }
                out.push(Value::Object(fs));
            },
            other => {
                out.push(other);
            },
        }
        j = j + 1;
    }
    out
}

/// The shared content after the build's own fields are set.
pub open spec fn global_filled(
    g: Seq<(String, Value)>,
    g2: Seq<(String, Value)>,
    build_time: Seq<char>,
    header: Seq<char>,
    footer: Seq<char>,
) -> bool {
    &&& field(g2, "build_time"@) matches Some(v) && is_text(v, build_time)
    &&& field(g2, "header"@) matches Some(v) && is_text(v, header)
    &&& field(g2, "footer"@) matches Some(v) && is_text(v, footer)
    &&& forall|k: Seq<char>|
        k != "build_time"@ && k != "header"@ && k != "footer"@ ==> #[trigger] field(g2, k) == field(
            g,
            k,
        )
}

/// What goes wrong first when building the context.
pub open spec fn context_error(members: Value, books: Value, global: Value) -> Option<
    SchemaError,
> {
    if aggregate_error(members, books) is Some {
        aggregate_error(members, books)
    } else if !(global is Object) {
        Some(SchemaError::GlobalNotObject)
    } else {
        None
    }
}

/// The context every page is rendered with.
pub open spec fn context_of(
    members: Value,
    books: Value,
    global: Value,
    header: Seq<char>,
    footer: Seq<char>,
    build_time: Seq<char>,
    c: Value,
) -> bool {
    match c {
        Value::Object(fs) => {
            &&& fs@.len() == 4
            &&& fs@[0].0@ == "members"@
            &&& fs@[1].0@ == "members-list"@
            &&& fs@[2].0@ == "global"@
            &&& fs@[3].0@ == "books"@
            &&& aggregated(members, books, fs@[0].1, fs@[3].1)
            &&& match (fs@[0].1, fs@[1].1) {
                (Value::Object(m2), Value::Array(list)) => {
                    &&& list@.len() == m2@.len()
                    &&& forall|j: int| 0 <= j < m2@.len() ==> listed(#[trigger] m2@[j], list@[j])
                },
                _ => false,
            }
            &&& match (global, fs@[2].1) {
                (Value::Object(g), Value::Object(g2)) => global_filled(
                    g@,
                    g2@,
                    build_time,
                    header,
                    footer,
                ),
                _ => false,
            }
        },
        _ => false,
    }
}

fn fill_global(
    g: &mut Vec<(String, Value)>,
    build_time: String,
    header: String,
    footer: String,
)
    ensures
        global_filled(old(g)@, final(g)@, build_time@, header@, footer@),
{
    proof {
        reveal_strlit("build_time");
        reveal_strlit("header");
        reveal_strlit("footer");
    }
    let ghost g0 = g@;
    let k1 = String::from_str("build_time");
    let k2 = String::from_str("header");
    let k3 = String::from_str("footer");
    let ghost (s1, s2, s3) = (k1, k2, k3);
    let ghost (v1, v2, v3) = (Value::Str(build_time), Value::Str(header), Value::Str(footer));
    set_field(g, k1, Value::Str(build_time));
    let ghost g1 = g@;
    set_field(g, k2, Value::Str(header));
    let ghost g2 = g@;
    set_field(g, k3, Value::Str(footer));
    proof {
        assert("build_time"@.len() == 10);
        assert("header"@.len() == 6);
        assert("footer"@.len() == 6);
        assert("header"@[0] != "footer"@[0]);
        assert("build_time"@ != "header"@);
        assert("build_time"@ != "footer"@);
        assert("header"@ != "footer"@);
        lemma_with_field(g0, s1, v1, "header"@);
        lemma_with_field(g1, s2, v2, "build_time"@);
        lemma_with_field(g2, s3, v3, "build_time"@);
        lemma_with_field(g2, s3, v3, "header"@);
        assert forall|k: Seq<char>|
            k != "build_time"@ && k != "header"@ && k != "footer"@ implies #[trigger] field(
            g@,
            k,
        ) == field(g0, k) by {
            lemma_with_field(g0, s1, v1, k);
            lemma_with_field(g1, s2, v2, k);
            lemma_with_field(g2, s3, v3, k);
        }
    }
}

/// Checks and sums up the members and books, fills in the shared content,
/// and puts all of it, with the members as a list, into one context.
pub fn build_context(
    members: Value,
    books: Value,
    global: Value,
    header: String,
    footer: String,
    build_time: String,
) -> (r: Result<Value, SchemaError>)
    ensures
        match r {
            Ok(c) => context_error(members, books, global) is None && context_of(
                members,
                books,
                global,
                header@,
                footer@,
                build_time@,
                c,
            ),
            Err(e) => context_error(members, books, global) == Some(e),
        },
{
    proof {
        reveal_strlit("members");
        reveal_strlit("members-list");
        reveal_strlit("global");
        reveal_strlit("books");
    }
    let (m2, b2) = match aggregate(members, books) {
        Ok(p) => p,
        Err(e) => return Err(e),
    };
    let mut g = match global {
        Value::Object(g) => g,
        _ => return Err(SchemaError::GlobalNotObject),
    };
    fill_global(&mut g, build_time, header, footer);
    let list = match &m2 {
        Value::Object(mfs) => members_list(mfs),
        _ => Vec::new(),
    };
    let fs = vec![
        (String::from_str("members"), m2),
        (String::from_str("members-list"), Value::Array(list)),
        (String::from_str("global"), Value::Object(g)),
        (String::from_str("books"), b2),
    ];
    Ok(Value::Object(fs))
}

} // verus!
