use vstd::prelude::*;
use crate::number::{
    average_of, two_decimals,
};
use crate::rating::rating_value;
use crate::site::{book_summed, is_text, member_summed, rating_in, ratings_by, usable};
use crate::context::{listed, same_fields};
use crate::value::{
    field, keys_unique, lemma_with_field, lemma_without, lemma_without_keeps_absent,
    lemma_without_unique, without, Value,
};

verus! {

/// After a book is summed up it holds exactly one `average-rating` field:
/// "n. a." when none of its comments carries a usable rating, else the mean
/// of those ratings with two decimals.
pub proof fn lemma_one_average(
    old_fs: Seq<(String, Value)>,
    new_fs: Seq<(String, Value)>,
    vs: Seq<(Seq<char>, Option<int>)>,
) -> (at: int)
    requires
        book_summed(old_fs, new_fs, vs),
    ensures
        0 <= at < new_fs.len(),
        new_fs[at].0@ == "average-rating"@,
        forall|i: int| 0 <= i < new_fs.len() && i != at ==> (#[trigger] new_fs[i]).0@
            != "average-rating"@,
        usable(vs).len() == 0 ==> is_text(new_fs[at].1, "n. a."@),
        usable(vs).len() > 0 ==> is_text(
            new_fs[at].1,
            two_decimals(average_of(usable(vs)).unwrap()),
        ),
{
    reveal_strlit("average-rating");
    reveal_strlit("rating-percent");
    let a = "average-rating"@;
    let p = "rating-percent"@;
    let w = without(old_fs, a);
    let base = without(w, p);
    crate::value::lemma_without(old_fs, a, a);
    lemma_without_keeps_absent(w, p, a);
    assert(a[0] != p[0]);
    assert forall|i: int| 0 <= i < new_fs.len() && i != base.len() implies (#[trigger] new_fs[i]).0@
        != a by {
        if i < base.len() {
            assert(new_fs.subrange(0, base.len() as int)[i] == new_fs[i]);
        }
    }
    base.len() as int
}

/// After the members are summed up, a member with usable ratings has an
/// `average-rating` field holding their mean with two decimals; a member
/// without any has no such field.
pub proof fn lemma_member_average(
    old_fs: Seq<(String, Value)>,
    new_fs: Seq<(String, Value)>,
    vs: Seq<(Seq<char>, Option<int>)>,
    id: Seq<char>,
)
    requires
        member_summed(old_fs, new_fs, vs, id),
    ensures
        ratings_by(vs, id).len() > 0 ==> (field(new_fs, "average-rating"@) matches Some(v)
            && is_text(v, two_decimals(average_of(ratings_by(vs, id)).unwrap()))),
        ratings_by(vs, id).len() == 0 ==> field(new_fs, "average-rating"@) is None,
{
    crate::value::lemma_without(old_fs, "average-rating"@, "average-rating"@);
    if ratings_by(vs, id).len() > 0 {
        let e = new_fs.last();
        lemma_with_field(old_fs, e.0, e.1, "average-rating"@);
        assert(new_fs =~= new_fs.drop_last().push(e));
    }
}

/// A rating written as a string and one written as a number with the same
/// text count the same.
pub proof fn lemma_string_and_number_rate_alike(s: String, n: String)
    requires
        s@ == n@,
    ensures
        rating_in(Some(Value::Str(s))) == rating_in(Some(Value::Number(n))),
        rating_in(Some(Value::Str(s))) == rating_value(s@),
{
}

/// A rating that is a boolean, null, an array or an object is no rating.
pub proof fn lemma_other_shapes_do_not_rate(v: Value)
    requires
        v is Bool || v is Null || v is Array || v is Object,
    ensures
        rating_in(Some(v)) is None,
{
}

/// Summing up a book keeps its keys unique.
pub proof fn lemma_book_keys_unique(
    old_fs: Seq<(String, Value)>,
    new_fs: Seq<(String, Value)>,
    vs: Seq<(Seq<char>, Option<int>)>,
)
    requires
        keys_unique(old_fs),
        book_summed(old_fs, new_fs, vs),
    ensures
        keys_unique(new_fs),
{
    reveal_strlit("average-rating");
    reveal_strlit("rating-percent");
    let a = "average-rating"@;
    let p = "rating-percent"@;
    assert(a[0] != p[0]);
    let w = without(old_fs, a);
    let base = without(w, p);
    let n = base.len() as int;
    lemma_without_unique(old_fs, a);
    lemma_without_unique(w, p);
    lemma_without(old_fs, a, a);
    lemma_without_keeps_absent(w, p, a);
    lemma_without(w, p, p);
    assert forall|i: int, j: int| 0 <= i < j < new_fs.len() implies (#[trigger] new_fs[i]).0@
        != (#[trigger] new_fs[j]).0@ by {
        if j < n {
            assert(new_fs.subrange(0, n)[i] == new_fs[i]);
            assert(new_fs.subrange(0, n)[j] == new_fs[j]);
        } else if i < n {
            assert(new_fs.subrange(0, n)[i] == new_fs[i]);
        }
    }
}

/// Summing up a member keeps its keys unique.
pub proof fn lemma_member_keys_unique(
    old_fs: Seq<(String, Value)>,
    new_fs: Seq<(String, Value)>,
    vs: Seq<(Seq<char>, Option<int>)>,
    id: Seq<char>,
)
    requires
        keys_unique(old_fs),
        member_summed(old_fs, new_fs, vs, id),
    ensures
        keys_unique(new_fs),
{
    let a = "average-rating"@;
    let w = without(old_fs, a);
    lemma_without_unique(old_fs, a);
    lemma_without(old_fs, a, a);
    if ratings_by(vs, id).len() > 0 {
        assert forall|i: int, j: int| 0 <= i < j < new_fs.len() implies (#[trigger] new_fs[i]).0@
            != (#[trigger] new_fs[j]).0@ by {
            assert(new_fs.drop_last()[i] == new_fs[i]);
            if j < new_fs.len() - 1 {
                assert(new_fs.drop_last()[j] == new_fs[j]);
            }
        }
    }
}

/// A `members-list` entry made from a member whose keys are unique has
/// unique keys too, `id` among them exactly once.
pub proof fn lemma_listed_keys_unique(m: (String, Value), e: Value)
    requires
        listed(m, e),
        m.1 matches Value::Object(o) && keys_unique(o@),
    ensures
        e matches Value::Object(n) && keys_unique(n@),
{
    let o = m.1->Object_0@;
    let n = e->Object_0@;
    let k = "id"@;
    let w = without(o, k);
    lemma_without_unique(o, k);
    lemma_without(o, k, k);
    let d = n.drop_last();
    assert(same_fields(w, d));
    assert forall|i: int, j: int| 0 <= i < j < n.len() implies (#[trigger] n[i]).0@
        != (#[trigger] n[j]).0@ by {
        assert(d[i] == n[i]);
        assert(w[i].0@ == d[i].0@);
        if j < n.len() - 1 {
            assert(d[j] == n[j]);
            assert(w[j].0@ == d[j].0@);
        }
    }
}

/// A comment without a usable rating changes no average: the usable ratings
/// of a book, and those of every member, are the same with it as without it.
pub proof fn lemma_unrated_comment_ignored(
    a: Seq<(Seq<char>, Option<int>)>,
    b: Seq<(Seq<char>, Option<int>)>,
    from: Seq<char>,
    id: Seq<char>,
)
    ensures
        usable(a.push((from, None)) + b) == usable(a + b),
        ratings_by(a.push((from, None)) + b, id) == ratings_by(a + b, id),
    decreases b.len(),
{
    let x = (from, None::<int>);
    if b.len() == 0 {
        assert(a.push(x) + b =~= a.push(x));
        assert(a + b =~= a);
        assert(a.push(x).drop_last() =~= a);
    } else {
        let b2 = b.drop_last();
        lemma_unrated_comment_ignored(a, b2, from, id);
        assert((a.push(x) + b).drop_last() =~= a.push(x) + b2);
        assert((a + b).drop_last() =~= a + b2);
        assert((a.push(x) + b).last() == b.last());
        assert((a + b).last() == b.last());
    }
}

} // verus!
