use vstd::prelude::*;
use vstd::string::StringExecFns;
use crate::number::{
    average, average_of, ints, percent, percent_of_mean, two_decimals, two_decimals_text,
};
use crate::rating::{opt_int, parse_rating, rating_value};
use crate::value::{field, get_field, remove_field, set_field, without, Value};

verus! {

/// What is wrong with the shape of the input.
#[derive(Debug, Clone, Copy, PartialEq, Eq, Structural)]
pub enum SchemaError {
    /// The members file does not hold an object.
    MembersNotObject,
    /// A member entry is not an object.
    MemberNotObject,
    /// The books file does not hold an array.
    BooksNotArray,
    /// A book is not an object.
    BookNotObject,
    /// A book has no `comments` array.
    CommentsNotArray,
    /// A comment is not an object.
    CommentNotObject,
    /// A comment has no string `from` field.
    FromNotString,
    /// The global file does not hold an object.
    GlobalNotObject,
}

/// Who rated, and the usable rating in millionths if there is one.
pub struct Rater {
    pub from: String,
    pub rating: Option<i64>,
}

pub open spec fn rater_view(r: Rater) -> (Seq<char>, Option<int>) {
    (r.from@, opt_int(r.rating))
}

pub open spec fn raters_view(rs: Seq<Rater>) -> Seq<(Seq<char>, Option<int>)> {
    rs.map_values(|r: Rater| rater_view(r))
}

/// A rating written as a number or as a string is read the same way; any
/// other shape is no rating.
pub open spec fn rating_in(v: Option<Value>) -> Option<int> {
    match v {
        Some(Value::Number(t)) => rating_value(t@),
        Some(Value::Str(t)) => rating_value(t@),
        _ => None,
    }
}

pub open spec fn comment_error(c: Value) -> Option<SchemaError> {
    match c {
        Value::Object(fs) => match field(fs@, "from"@) {
            Some(Value::Str(_)) => None,
            _ => Some(SchemaError::FromNotString),
        },
        _ => Some(SchemaError::CommentNotObject),
    }
}

/// The author and rating of a well-formed comment.
pub open spec fn comment_view(c: Value) -> (Seq<char>, Option<int>) {
    match c {
        Value::Object(fs) => match field(fs@, "from"@) {
            Some(Value::Str(f)) => (f@, rating_in(field(fs@, "rating"@))),
            _ => (Seq::empty(), None),
        },
        _ => (Seq::empty(), None),
    }
}

pub open spec fn first_error(es: Seq<Option<SchemaError>>) -> Option<SchemaError>
    decreases es.len(),
{
    if es.len() == 0 {
        None
    } else if es[0] is Some {
        es[0]
    } else {
        first_error(es.subrange(1, es.len() as int))
    }
}

pub open spec fn book_comments(b: Value) -> Option<Seq<Value>> {
    match b {
        Value::Object(fs) => match field(fs@, "comments"@) {
            Some(Value::Array(cs)) => Some(cs@),
            _ => None,
        },
        _ => None,
    }
}

/// The first thing wrong with a book, if anything.
pub open spec fn book_error(b: Value) -> Option<SchemaError> {
    match b {
        Value::Object(fs) => match book_comments(b) {
            Some(cs) => first_error(cs.map_values(|c: Value| comment_error(c))),
            None => Some(SchemaError::CommentsNotArray),
        },
        _ => Some(SchemaError::BookNotObject),
    }
}

pub open spec fn book_views(b: Value) -> Seq<(Seq<char>, Option<int>)> {
    book_comments(b).unwrap().map_values(|c: Value| comment_view(c))
}

/// Every comment of every book, in order.
pub open spec fn all_views(bs: Seq<Value>) -> Seq<(Seq<char>, Option<int>)>
    decreases bs.len(),
{
    if bs.len() == 0 {
        Seq::empty()
    } else {
        all_views(bs.drop_last()) + book_views(bs.last())
    }
}

/// The usable ratings, in order.
pub open spec fn usable(vs: Seq<(Seq<char>, Option<int>)>) -> Seq<int>
    decreases vs.len(),
{
    if vs.len() == 0 {
        Seq::empty()
    } else {
        let rest = usable(vs.drop_last());
        match vs.last().1 {
            Some(v) => rest.push(v),
            None => rest,
        }
    }
}

/// The usable ratings given by `id`, in order.
pub open spec fn ratings_by(vs: Seq<(Seq<char>, Option<int>)>, id: Seq<char>) -> Seq<int>
    decreases vs.len(),
{
    if vs.len() == 0 {
        Seq::empty()
    } else {
        let rest = ratings_by(vs.drop_last(), id);
        match vs.last().1 {
            Some(v) if vs.last().0 == id => rest.push(v),
            _ => rest,
        }
    }
}

pub open spec fn is_text(v: Value, t: Seq<char>) -> bool {
    v matches Value::Str(s) && s@ == t
}

pub open spec fn is_number(v: Value, t: Seq<char>) -> bool {
    v matches Value::Number(s) && s@ == t
}

/// A book's fields once its ratings `vs` are summed up: the old
/// `average-rating` and `rating-percent` go; then `average-rating` comes,
/// "n. a." without usable ratings, else the mean with two decimals; then,
/// with usable ratings, `rating-percent`, the exact mean times twenty with
/// two decimals.
pub open spec fn book_summed(
    old_fs: Seq<(String, Value)>,
    new_fs: Seq<(String, Value)>,
    vs: Seq<(Seq<char>, Option<int>)>,
) -> bool {
    let base = without(without(old_fs, "average-rating"@), "rating-percent"@);
    let n = base.len() as int;
    &&& new_fs.subrange(0, n) == base
    &&& new_fs.len() > n
    &&& new_fs[n].0@ == "average-rating"@
    &&& match average_of(usable(vs)) {
        None => new_fs.len() == n + 1 && is_text(new_fs[n].1, "n. a."@),
        Some(h) => {
            &&& new_fs.len() == n + 2
            &&& is_text(new_fs[n].1, two_decimals(h))
            &&& new_fs[n + 1].0@ == "rating-percent"@
            &&& is_number(new_fs[n + 1].1, two_decimals(percent_of_mean(usable(vs)).unwrap()))
        },
    }
}

/// A member's fields once the ratings `vs` of all books are summed up: with
/// usable ratings by `id`, `average-rating` is set to their mean with two
/// decimals; without, the member has no `average-rating` field.
pub open spec fn member_summed(
    old_fs: Seq<(String, Value)>,
    new_fs: Seq<(String, Value)>,
    vs: Seq<(Seq<char>, Option<int>)>,
    id: Seq<char>,
) -> bool {
    match average_of(ratings_by(vs, id)) {
        None => new_fs == without(old_fs, "average-rating"@),
        Some(h) => {
            &&& new_fs.len() > 0
            &&& new_fs.drop_last() == without(old_fs, "average-rating"@)
            &&& new_fs.last().0@ == "average-rating"@
            &&& is_text(new_fs.last().1, two_decimals(h))
        },
    }
}

impl Rater {
    pub fn copy(&self) -> (r: Rater)
        ensures
            rater_view(r) == rater_view(*self),
    {
        Rater { from: self.from.clone(), rating: self.rating }
    }
}

fn rating_from(v: Option<&Value>) -> (r: Option<i64>)
    ensures
        opt_int(r) == rating_in(match v {
            Some(x) => Some(*x),
            None => None,
        }),
{
    match v {
        Some(Value::Number(t)) => parse_rating(t.as_str()),
        Some(Value::Str(t)) => parse_rating(t.as_str()),
        _ => None,
    }
}

/// Reads the author and rating of a comment.
pub fn comment_rater(c: &Value) -> (r: Result<Rater, SchemaError>)
    ensures
        match r {
            Ok(x) => comment_error(*c) is None && rater_view(x) == comment_view(*c),
            Err(e) => comment_error(*c) == Some(e),
        },
{
    proof {
        reveal_strlit("from");
        reveal_strlit("rating");
    }
    match c {
        Value::Object(fs) => {
            let from_key = String::from_str("from");
            match get_field(fs, &from_key) {
                Some(Value::Str(f)) => {
                    let rating_key = String::from_str("rating");
                    let rating = rating_from(get_field(fs, &rating_key));
                    Ok(Rater { from: f.clone(), rating })
                },
                _ => Err(SchemaError::FromNotString),
            }
        },
        _ => Err(SchemaError::CommentNotObject),
    }
}

/// Reads the author and rating of every comment of a book, or the first
/// thing wrong with its shape.
pub fn book_raters(b: &Value) -> (r: Result<Vec<Rater>, SchemaError>)
    ensures
        match r {
            Ok(rs) => book_error(*b) is None && raters_view(rs@) == book_views(*b),
            Err(e) => book_error(*b) == Some(e),
        },
{
    proof {
        reveal_strlit("comments");
    }
    match b {
        Value::Object(fs) => {
            let key = String::from_str("comments");
            match get_field(fs, &key) {
                Some(Value::Array(cs)) => {
                    let ghost errs = cs@.map_values(|c: Value| comment_error(c));
                    let mut out: Vec<Rater> = Vec::new();
                    let mut i: usize = 0;
                    assert(errs.subrange(0, errs.len() as int) =~= errs);
                    while i < cs.len()
                        invariant
                            i <= cs@.len(),
                            book_comments(*b) == Some(cs@),
                            errs == cs@.map_values(|c: Value| comment_error(c)),
                            first_error(errs) == first_error(
                                errs.subrange(i as int, errs.len() as int),
                            ),
                            raters_view(out@) == cs@.subrange(0, i as int).map_values(
                                |c: Value| comment_view(c),
                            ),
                        decreases cs@.len() - i,
                    {
                        let ghost rest = errs.subrange(i as int, errs.len() as int);
                        assert(rest.subrange(1, rest.len() as int) =~= errs.subrange(
                            i + 1,
                            errs.len() as int,
                        ));
                        assert(rest[0] == comment_error(cs@[i as int]));
                        match comment_rater(&cs[i]) {
                            Ok(x) => {
                                let ghost old_out = out@;
                                let ghost xv = rater_view(x);
                                out.push(x);
                                assert(raters_view(out@) =~= raters_view(old_out).push(xv));
                                assert(cs@.subrange(0, i + 1).map_values(|c: Value| comment_view(c))
                                    =~= cs@.subrange(0, i as int).map_values(
                                    |c: Value| comment_view(c),
                                ).push(comment_view(cs@[i as int])));
                            },
                            Err(e) => {
                                return Err(e);
                            },
                        }
                        i = i + 1;
                    }
                    assert(cs@.subrange(0, i as int) =~= cs@);
                    assert(errs.subrange(i as int, errs.len() as int).len() == 0);
                    Ok(out)
                },
                _ => Err(SchemaError::CommentsNotArray),
            }
        },
        _ => Err(SchemaError::BookNotObject),
    }
}

/// The usable ratings among `rs`.
pub fn usable_ratings(rs: &Vec<Rater>) -> (r: Vec<i64>)
    ensures
        ints(r@) == usable(raters_view(rs@)),
{
    let mut out: Vec<i64> = Vec::new();
    let mut i: usize = 0;
    while i < rs.len()
        invariant
            i <= rs@.len(),
            ints(out@) == usable(raters_view(rs@.subrange(0, i as int))),
        decreases rs@.len() - i,
    {
        assert(raters_view(rs@.subrange(0, i + 1)).drop_last() =~= raters_view(
            rs@.subrange(0, i as int),
        ));
        if let Some(v) = rs[i].rating {
            out.push(v);
        }
        assert(ints(out@) =~= usable(raters_view(rs@.subrange(0, i + 1))));
        i = i + 1;
    }
    assert(rs@.subrange(0, i as int) =~= rs@);
    out
}

/// The usable ratings among `rs` given by `id`.
pub fn ratings_of(rs: &Vec<Rater>, id: &String) -> (r: Vec<i64>)
    ensures
        ints(r@) == ratings_by(raters_view(rs@), id@),
{
    let mut out: Vec<i64> = Vec::new();
    let mut i: usize = 0;
    while i < rs.len()
        invariant
            i <= rs@.len(),
            ints(out@) == ratings_by(raters_view(rs@.subrange(0, i as int)), id@),
        decreases rs@.len() - i,
    {
        assert(raters_view(rs@.subrange(0, i + 1)).drop_last() =~= raters_view(
            rs@.subrange(0, i as int),
        ));
        if let Some(v) = rs[i].rating {
            if rs[i].from == *id {
                out.push(v);
            }
        }
        assert(ints(out@) =~= ratings_by(raters_view(rs@.subrange(0, i + 1)), id@));
        i = i + 1;
    }
    assert(rs@.subrange(0, i as int) =~= rs@);
    out
}

/// Sums up a book's ratings `rs` into its fields `fs`.
pub fn sum_book(fs: &mut Vec<(String, Value)>, rs: &Vec<Rater>)
    ensures
        book_summed(old(fs)@, final(fs)@, raters_view(rs@)),
{
    proof {
        reveal_strlit("average-rating");
        reveal_strlit("rating-percent");
        reveal_strlit("n. a.");
    }
    let avg_key = String::from_str("average-rating");
    let pct_key = String::from_str("rating-percent");
    remove_field(fs, &avg_key);
    remove_field(fs, &pct_key);
    let ghost base = fs@;
    let u = usable_ratings(rs);
    match average(&u) {
        None => {
            fs.push((avg_key, Value::Str(String::from_str("n. a."))));
        },
        Some(h) => {
            fs.push((avg_key, Value::Str(two_decimals_text(h))));
            let p = percent(&u).unwrap();
            fs.push((pct_key, Value::Number(two_decimals_text(p))));
        },
    }
    assert(fs@.subrange(0, base.len() as int) =~= base);
}

/// Sums up the ratings `rs` of all books into the fields `fs` of member `id`.
pub fn sum_member(fs: &mut Vec<(String, Value)>, rs: &Vec<Rater>, id: &String)
    ensures
        member_summed(old(fs)@, final(fs)@, raters_view(rs@), id@),
{
    proof {
        reveal_strlit("average-rating");
    }
    let mine = ratings_of(rs, id);
    match average(&mine) {
        None => {
            remove_field(fs, &String::from_str("average-rating"));
        },
        Some(h) => {
            let ghost before = fs@;
            set_field(fs, String::from_str("average-rating"), Value::Str(two_decimals_text(h)));
            assert(fs@.drop_last() =~= without(before, "average-rating"@));
        },
    }
}

fn append_raters(all: &mut Vec<Rater>, rs: &Vec<Rater>)
    ensures
        raters_view(final(all)@) == raters_view(old(all)@) + raters_view(rs@),
{
    let ghost start = all@;
    let mut i: usize = 0;
    while i < rs.len()
        invariant
            i <= rs@.len(),
            raters_view(all@) == raters_view(start) + raters_view(rs@.subrange(0, i as int)),
        decreases rs@.len() - i,
    {
        let ghost before = all@;
        all.push(rs[i].copy());
        assert(raters_view(all@) =~= raters_view(before).push(rater_view(rs@[i as int])));
        assert(raters_view(rs@.subrange(0, i + 1)) =~= raters_view(rs@.subrange(0, i as int)).push(
            rater_view(rs@[i as int]),
        ));
        assert(raters_view(start) + raters_view(rs@.subrange(0, i + 1)) =~= (raters_view(start)
            + raters_view(rs@.subrange(0, i as int))).push(rater_view(rs@[i as int])));
        i = i + 1;
    }
    assert(rs@.subrange(0, i as int) =~= rs@);
}

pub open spec fn books_error(bs: Seq<Value>) -> Option<SchemaError> {
    first_error(bs.map_values(|b: Value| book_error(b)))
}

/// The first thing wrong with the members and books, in the order they are
/// checked: the members' shape, each member entry, the books' shape, then
/// each book in turn.
pub open spec fn aggregate_error(m: Value, b: Value) -> Option<SchemaError> {
    match m {
        Value::Object(mfs) => if exists|j: int| 0 <= j < mfs@.len() && !(mfs@[j].1 is Object) {
            Some(SchemaError::MemberNotObject)
        } else {
            match b {
                Value::Array(bs) => books_error(bs@),
                _ => Some(SchemaError::BooksNotArray),
            }
        },
        _ => Some(SchemaError::MembersNotObject),
    }
}

pub open spec fn book_pair(old_b: Value, new_b: Value) -> bool {
    match (old_b, new_b) {
        (Value::Object(o), Value::Object(n)) => book_summed(o@, n@, book_views(old_b)),
        _ => false,
    }
}

pub open spec fn member_pair(
    old_m: (String, Value),
    new_m: (String, Value),
    vs: Seq<(Seq<char>, Option<int>)>,
) -> bool {
    &&& new_m.0 == old_m.0
    &&& match (old_m.1, new_m.1) {
        (Value::Object(o), Value::Object(n)) => member_summed(o@, n@, vs, old_m.0@),
        _ => false,
    }
}

/// The members and books after every book and every member is summed up.
pub open spec fn aggregated(m: Value, b: Value, m2: Value, b2: Value) -> bool {
    match (m, b, m2, b2) {
        (Value::Object(mfs), Value::Array(bs), Value::Object(nmfs), Value::Array(nbs)) => {
            &&& nbs@.len() == bs@.len()
            &&& forall|i: int| 0 <= i < bs@.len() ==> book_pair(bs@[i], #[trigger] nbs@[i])
            &&& nmfs@.len() == mfs@.len()
            &&& forall|j: int|
                0 <= j < mfs@.len() ==> member_pair(mfs@[j], #[trigger] nmfs@[j], all_views(bs@))
        },
        _ => false,
    }
}

/// Checks the shape of the members and books, then sums up the ratings of
/// every book into it and the ratings of every member across all books into
/// that member.
#[verifier::rlimit(100)]
pub fn aggregate(members: Value, books: Value) -> (r: Result<(Value, Value), SchemaError>)
    ensures
        match r {
            Ok((m2, b2)) => aggregate_error(members, books) is None && aggregated(
                members,
                books,
                m2,
                b2,
            ),
            Err(e) => aggregate_error(members, books) == Some(e),
        },
{
    let ghost m0 = members;
    let ghost b0 = books;
    let mut mfs = match members {
        Value::Object(fs) => fs,
        _ => return Err(SchemaError::MembersNotObject),
    };
    let ghost omfs = mfs@;
    // every member entry must be an object
    let mut j: usize = 0;
    while j < mfs.len()
        invariant
            mfs@ == omfs,
            j <= omfs.len(),
            m0 == members,
            m0 == Value::Object(mfs),
            forall|k: int| 0 <= k < j ==> (#[trigger] omfs[k]).1 is Object,
        decreases omfs.len() - j,
    {
        match &mfs[j].1 {
            Value::Object(_) => {},
            _ => {
                assert(!(omfs[j as int].1 is Object));
                assert(exists|k: int| 0 <= k < omfs.len() && !(omfs[k].1 is Object));
                return Err(SchemaError::MemberNotObject);
            },
        }
        j = j + 1;
    }
    let mut bs = match books {
        Value::Array(bs) => bs,
        _ => return Err(SchemaError::BooksNotArray),
    };
    let ghost obs = bs@;
    assert(m0 == Value::Object(mfs));
    assert(b0 == Value::Array(bs));
    assert(aggregate_error(m0, b0) == books_error(obs));
    let ghost errs = obs.map_values(|b: Value| book_error(b));
    // every book's raters, and all of them in order
    let mut per: Vec<Vec<Rater>> = Vec::new();
    let mut all: Vec<Rater> = Vec::new();
    let mut i: usize = 0;
    assert(errs.subrange(0, errs.len() as int) =~= errs);
    assert(obs.subrange(0, 0) =~= Seq::<Value>::empty());
    while i < bs.len()
        invariant
            bs@ == obs,
            i <= obs.len(),
            aggregate_error(m0, b0) == books_error(obs),
            m0 == members,
            b0 == books,
            forall|k: int| 0 <= k < omfs.len() ==> (#[trigger] omfs[k]).1 is Object,
            errs == obs.map_values(|b: Value| book_error(b)),
            first_error(errs) == first_error(errs.subrange(i as int, errs.len() as int)),
            per@.len() == i,
            forall|j: int|
                0 <= j < i ==> raters_view(#[trigger] per@[j]@) == book_views(obs[j]),
            forall|j: int| 0 <= j < i ==> book_error(#[trigger] obs[j]) is None,
            raters_view(all@) == all_views(obs.subrange(0, i as int)),
        decreases obs.len() - i,
    {
        let ghost rest = errs.subrange(i as int, errs.len() as int);
        assert(rest.subrange(1, rest.len() as int) =~= errs.subrange(i + 1, errs.len() as int));
        assert(rest[0] == book_error(obs[i as int]));
        let rs = match book_raters(&bs[i]) {
            Ok(rs) => rs,
            Err(e) => {
                assert(first_error(rest) == Some(e));
                assert(books_error(obs) == Some(e));
                return Err(e);
            },
        };
        assert(obs.subrange(0, i + 1).drop_last() =~= obs.subrange(0, i as int));
        append_raters(&mut all, &rs);
        per.push(rs);
        i = i + 1;
    }
    assert(obs.subrange(0, i as int) =~= obs);
    assert(errs.subrange(i as int, errs.len() as int).len() == 0);
    assert(first_error(errs.subrange(i as int, errs.len() as int)) is None);
    assert(books_error(obs) is None);
    // sum up every book
    let mut i: usize = 0;
    while i < bs.len()
        invariant
            bs@.len() == obs.len(),
            i <= obs.len(),
            per@.len() == obs.len(),
            forall|j: int|
                0 <= j < obs.len() ==> raters_view(#[trigger] per@[j]@) == book_views(obs[j]),
            forall|j: int| 0 <= j < obs.len() ==> book_error(#[trigger] obs[j]) is None,
            forall|j: int| 0 <= j < i ==> book_pair(obs[j], #[trigger] bs@[j]),
            forall|j: int| i <= j < obs.len() ==> #[trigger] bs@[j] == obs[j],
        decreases obs.len() - i,
    {
        let mut book = Value::Null;
        bs.set_and_swap(i, &mut book);
        assert(book == obs[i as int]);
        assert(book_error(obs[i as int]) is None);
        match book {
            Value::Object(mut fs) => {
                sum_book(&mut fs, &per[i]);
                bs.set(i, Value::Object(fs));
            },
            _ => {
                bs.set(i, book);
            },
        }
        i = i + 1;
    }
    // sum up every member
    let mut j: usize = 0;
    while j < mfs.len()
        invariant
            mfs@.len() == omfs.len(),
            j <= omfs.len(),
            forall|k: int| 0 <= k < omfs.len() ==> (#[trigger] omfs[k]).1 is Object,
            raters_view(all@) == all_views(obs),
            forall|k: int| 0 <= k < j ==> member_pair(omfs[k], #[trigger] mfs@[k], all_views(obs)),
            forall|k: int| j <= k < omfs.len() ==> #[trigger] mfs@[k] == omfs[k],
        decreases omfs.len() - j,
    {
        let mut entry = (String::new(), Value::Null);
        mfs.set_and_swap(j, &mut entry);
        assert(entry == omfs[j as int]);
        let (id, member) = entry;
        match member {
            Value::Object(mut fs) => {
                sum_member(&mut fs, &all, &id);
                mfs.set(j, (id, Value::Object(fs)));
            },
            _ => {
                mfs.set(j, (id, member));
            },
        }
        j = j + 1;
    }
    Ok((Value::Object(mfs), Value::Array(bs)))
}

/// What a well-formed comment is worth a warning for.
pub struct CommentNotes {
    /// The comment carries no usable rating.
    pub unrated: bool,
    /// The comment's author is none of the members.
    pub unknown_author: bool,
}

/// Notes a comment without a usable rating, or from someone who is not
/// among `members`; fails as `comment_rater` does on a malformed comment.
pub fn comment_notes(members: &Vec<(String, Value)>, c: &Value) -> (r: Result<
    CommentNotes,
    SchemaError,
>)
    ensures
        match r {
            Ok(n) => {
                &&& comment_error(*c) is None
                &&& n.unrated == (comment_view(*c).1 is None)
                &&& n.unknown_author == (field(members@, comment_view(*c).0) is None)
            },
            Err(e) => comment_error(*c) == Some(e),
        },
{
    match comment_rater(c) {
        Ok(x) => {
            let unknown_author = get_field(members, &x.from).is_none();
            Ok(CommentNotes { unrated: x.rating.is_none(), unknown_author })
        },
        Err(e) => Err(e),
    }
}

/// What is wrong with the members file, if anything.
pub open spec fn members_error(m: Value) -> Option<SchemaError> {
    match m {
        Value::Object(mfs) => if exists|j: int| 0 <= j < mfs@.len() && !(mfs@[j].1 is Object) {
            Some(SchemaError::MemberNotObject)
        } else {
            None
        },
        _ => Some(SchemaError::MembersNotObject),
    }
}

/// What is wrong with the books file, if anything.
pub open spec fn books_file_error(b: Value) -> Option<SchemaError> {
    match b {
        Value::Array(bs) => books_error(bs@),
        _ => Some(SchemaError::BooksNotArray),
    }
}

/// The shape errors of `aggregate` are those of the members file first,
/// then those of the books file.
pub proof fn lemma_aggregate_error_by_file(m: Value, b: Value)
    ensures
        aggregate_error(m, b) == if members_error(m) is Some {
            members_error(m)
        } else {
            books_file_error(b)
        },
{
}

/// Checks the shape of the members file.
pub fn check_members(m: &Value) -> (r: Result<(), SchemaError>)
    ensures
        match r {
            Ok(_) => members_error(*m) is None,
            Err(e) => members_error(*m) == Some(e),
        },
{
    match m {
        Value::Object(mfs) => {
            let mut j: usize = 0;
            while j < mfs.len()
                invariant
                    j <= mfs@.len(),
                    *m == Value::Object(*mfs),
                    forall|k: int| 0 <= k < j ==> (#[trigger] mfs@[k]).1 is Object,
                decreases mfs@.len() - j,
            {
                match &mfs[j].1 {
                    Value::Object(_) => {},
                    _ => {
                        assert(!(mfs@[j as int].1 is Object));
                        return Err(SchemaError::MemberNotObject);
                    },
                }
                j = j + 1;
            }
            Ok(())
        },
        _ => Err(SchemaError::MembersNotObject),
    }
}

/// Checks the shape of the books file: an array of books, each with a
/// `comments` array of comments, each with a string `from`.
pub fn check_books(b: &Value) -> (r: Result<(), SchemaError>)
    ensures
        match r {
            Ok(_) => books_file_error(*b) is None,
            Err(e) => books_file_error(*b) == Some(e),
        },
{
    match b {
        Value::Array(bs) => {
            let ghost errs = bs@.map_values(|x: Value| book_error(x));
            let mut i: usize = 0;
            assert(errs.subrange(0, errs.len() as int) =~= errs);
            while i < bs.len()
                invariant
                    i <= bs@.len(),
                    *b == Value::Array(*bs),
                    errs == bs@.map_values(|x: Value| book_error(x)),
                    first_error(errs) == first_error(errs.subrange(i as int, errs.len() as int)),
                decreases bs@.len() - i,
            {
                let ghost rest = errs.subrange(i as int, errs.len() as int);
                assert(rest.subrange(1, rest.len() as int) =~= errs.subrange(
                    i + 1,
                    errs.len() as int,
                ));
                assert(rest[0] == book_error(bs@[i as int]));
                match book_raters(&bs[i]) {
                    Ok(_) => {},
                    Err(e) => {
                        assert(first_error(rest) == Some(e));
                        return Err(e);
                    },
                }
                i = i + 1;
            }
            assert(errs.subrange(i as int, errs.len() as int).len() == 0);
            assert(first_error(errs.subrange(i as int, errs.len() as int)) is None);
            Ok(())
        },
        _ => Err(SchemaError::BooksNotArray),
    }
}

/// Checks the shape of the global file.
pub fn check_global(g: &Value) -> (r: Result<(), SchemaError>)
    ensures
        match r {
            Ok(_) => g is Object,
            Err(e) => !(g is Object) && e == SchemaError::GlobalNotObject,
        },
{
    match g {
        Value::Object(_) => Ok(()),
        _ => Err(SchemaError::GlobalNotObject),
    }
}

} // verus!
