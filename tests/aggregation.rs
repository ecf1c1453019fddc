use bookclub::context::build_context;
use bookclub::number::{average, percent, two_decimals_text};
use bookclub::rating::parse_rating;
use bookclub::site::{
    aggregate, book_raters, check_books, check_global, check_members, comment_notes, comment_rater,
    SchemaError,
};
use bookclub::value::Value;

fn s(t: &str) -> String {
    t.to_string()
}

fn text(t: &str) -> Value {
    Value::Str(s(t))
}

fn obj(fields: Vec<(&str, Value)>) -> Value {
    Value::Object(fields.into_iter().map(|(k, v)| (s(k), v)).collect())
}

fn get<'a>(v: &'a Value, k: &str) -> Option<&'a Value> {
    match v {
        Value::Object(fs) => fs.iter().find(|(key, _)| key == k).map(|(_, v)| v),
        _ => None,
    }
}

fn count(v: &Value, k: &str) -> usize {
    match v {
        Value::Object(fs) => fs.iter().filter(|(key, _)| key == k).count(),
        _ => 0,
    }
}

fn as_text(v: Option<&Value>) -> Option<String> {
    match v {
        Some(Value::Str(t)) => Some(t.clone()),
        Some(Value::Number(t)) => Some(t.clone()),
        _ => None,
    }
}

fn comment(from: &str, rating: Value) -> Value {
    obj(vec![("from", text(from)), ("rating", rating)])
}

fn book(comments: Vec<Value>) -> Value {
    obj(vec![("title", text("A Book")), ("comments", Value::Array(comments))])
}

fn alice() -> Value {
    obj(vec![("alice", obj(vec![("name", text("Alice"))]))])
}

fn books_of(v: &Value) -> &Vec<Value> {
    match v {
        Value::Array(bs) => bs,
        _ => panic!("books are not an array"),
    }
}

#[test]
fn two_string_ratings_average_four() {
    let books = Value::Array(vec![book(vec![
        comment("alice", text("5")),
        comment("alice", text("3")),
    ])]);
    let (members, books) = aggregate(alice(), books).unwrap();
    let b = &books_of(&books)[0];
    assert_eq!(as_text(get(b, "average-rating")), Some(s("4.00")));
    assert_eq!(as_text(get(b, "rating-percent")), Some(s("80.00")));
    let a = get(&members, "alice").unwrap();
    assert_eq!(as_text(get(a, "average-rating")), Some(s("4.00")));
}

#[test]
fn empty_comments_give_no_rating() {
    let books = Value::Array(vec![book(vec![])]);
    let (members, books) = aggregate(alice(), books).unwrap();
    let b = &books_of(&books)[0];
    assert_eq!(as_text(get(b, "average-rating")), Some(s("n. a.")));
    assert!(get(b, "rating-percent").is_none());
    assert_eq!(count(b, "average-rating"), 1);
    let a = get(&members, "alice").unwrap();
    assert!(get(a, "average-rating").is_none());
}

#[test]
fn unknown_author_counts_for_the_book() {
    let books = Value::Array(vec![book(vec![
        comment("unknown_person", text("2")),
        comment("alice", text("4")),
    ])]);
    let (members, books) = aggregate(alice(), books).unwrap();
    let b = &books_of(&books)[0];
    assert_eq!(as_text(get(b, "average-rating")), Some(s("3.00")));
    assert_eq!(as_text(get(b, "rating-percent")), Some(s("60.00")));
    let a = get(&members, "alice").unwrap();
    assert_eq!(as_text(get(a, "average-rating")), Some(s("4.00")));
    assert!(get(&members, "unknown_person").is_none());
}

#[test]
fn string_and_number_ratings_agree() {
    let b1 = Value::Array(vec![book(vec![comment("alice", text("4.5"))])]);
    let b2 = Value::Array(vec![book(vec![comment("alice", Value::Number(s("4.5")))])]);
    let (m1, r1) = aggregate(alice(), b1).unwrap();
    let (m2, r2) = aggregate(alice(), b2).unwrap();
    let x = &books_of(&r1)[0];
    let y = &books_of(&r2)[0];
    assert_eq!(as_text(get(x, "average-rating")), Some(s("4.50")));
    assert_eq!(as_text(get(x, "average-rating")), as_text(get(y, "average-rating")));
    assert_eq!(as_text(get(x, "rating-percent")), Some(s("90.00")));
    let a1 = get(&m1, "alice").unwrap();
    let a2 = get(&m2, "alice").unwrap();
    assert_eq!(as_text(get(a1, "average-rating")), as_text(get(a2, "average-rating")));
}

#[test]
fn unusable_ratings_are_left_out() {
    let books = Value::Array(vec![book(vec![
        comment("alice", Value::Bool(true)),
        comment("alice", Value::Null),
        comment("alice", Value::Array(vec![Value::Number(s("1"))])),
        comment("alice", text("abc")),
        obj(vec![("from", text("alice"))]),
        comment("alice", text("2")),
    ])]);
    let (members, books) = aggregate(alice(), books).unwrap();
    let b = &books_of(&books)[0];
    assert_eq!(as_text(get(b, "average-rating")), Some(s("2.00")));
    assert_eq!(as_text(get(b, "rating-percent")), Some(s("40.00")));
    let a = get(&members, "alice").unwrap();
    assert_eq!(as_text(get(a, "average-rating")), Some(s("2.00")));
}

#[test]
fn only_unusable_ratings_give_no_rating() {
    let books = Value::Array(vec![book(vec![comment("alice", text("abc"))])]);
    let (members, books) = aggregate(alice(), books).unwrap();
    let b = &books_of(&books)[0];
    assert_eq!(as_text(get(b, "average-rating")), Some(s("n. a.")));
    assert!(get(b, "rating-percent").is_none());
    let a = get(&members, "alice").unwrap();
    assert!(get(a, "average-rating").is_none());
}

#[test]
fn member_average_spans_books() {
    let books = Value::Array(vec![
        book(vec![comment("alice", text("5"))]),
        book(vec![comment("alice", text("4")), comment("alice", text("4"))]),
    ]);
    let (members, books) = aggregate(alice(), books).unwrap();
    let bs = books_of(&books);
    assert_eq!(as_text(get(&bs[0], "average-rating")), Some(s("5.00")));
    assert_eq!(as_text(get(&bs[1], "average-rating")), Some(s("4.00")));
    let a = get(&members, "alice").unwrap();
    assert_eq!(as_text(get(a, "average-rating")), Some(s("4.33")));
}

#[test]
fn old_average_is_replaced() {
    let b = obj(vec![
        ("average-rating", text("old")),
        ("comments", Value::Array(vec![comment("alice", text("1"))])),
    ]);
    let (_, books) = aggregate(alice(), Value::Array(vec![b])).unwrap();
    let b = &books_of(&books)[0];
    assert_eq!(count(b, "average-rating"), 1);
    assert_eq!(as_text(get(b, "average-rating")), Some(s("1.00")));
    assert_eq!(as_text(get(b, "rating-percent")), Some(s("20.00")));
}

#[test]
fn shape_errors() {
    assert_eq!(
        aggregate(Value::Array(vec![]), Value::Array(vec![])).unwrap_err(),
        SchemaError::MembersNotObject
    );
    assert_eq!(aggregate(alice(), alice()).unwrap_err(), SchemaError::BooksNotArray);
    assert_eq!(
        aggregate(alice(), Value::Array(vec![Value::Null])).unwrap_err(),
        SchemaError::BookNotObject
    );
    assert_eq!(
        aggregate(alice(), Value::Array(vec![obj(vec![("title", text("x"))])])).unwrap_err(),
        SchemaError::CommentsNotArray
    );
    assert_eq!(
        aggregate(alice(), Value::Array(vec![book(vec![Value::Null])])).unwrap_err(),
        SchemaError::CommentNotObject
    );
    assert_eq!(
        aggregate(alice(), Value::Array(vec![book(vec![obj(vec![("rating", text("3"))])])]))
            .unwrap_err(),
        SchemaError::FromNotString
    );
    let bad_member = obj(vec![("bob", text("Bob"))]);
    assert_eq!(
        aggregate(bad_member, Value::Array(vec![])).unwrap_err(),
        SchemaError::MemberNotObject
    );
    let err = build_context(alice(), Value::Array(vec![]), Value::Null, s("h"), s("f"), s("t"));
    assert_eq!(err.unwrap_err(), SchemaError::GlobalNotObject);
}

#[test]
fn book_and_comment_readers() {
    let r = comment_rater(&comment("bob", Value::Number(s("-1.25")))).unwrap();
    assert_eq!(r.from, "bob");
    assert_eq!(r.rating, Some(-1_250_000));
    let rs = book_raters(&book(vec![comment("a", text("1")), comment("b", text("x"))])).unwrap();
    assert_eq!(rs.len(), 2);
    assert_eq!(rs[1].rating, None);
}

#[test]
fn rating_texts() {
    assert_eq!(parse_rating("5"), Some(5_000_000));
    assert_eq!(parse_rating("4.5"), Some(4_500_000));
    assert_eq!(parse_rating("+.5"), Some(500_000));
    assert_eq!(parse_rating("3."), Some(3_000_000));
    assert_eq!(parse_rating("-2.000001"), Some(-2_000_001));
    assert_eq!(parse_rating("abc"), None);
    assert_eq!(parse_rating(""), None);
    assert_eq!(parse_rating("."), None);
    assert_eq!(parse_rating("1.2.3"), None);
    assert_eq!(parse_rating("inf"), None);
    assert_eq!(parse_rating("NaN"), None);
    assert_eq!(parse_rating("1e"), None);
    assert_eq!(parse_rating("e5"), None);
    assert_eq!(parse_rating("1e+"), None);
    assert_eq!(parse_rating("1e3x"), None);
    assert_eq!(parse_rating("1000000000000"), Some(1_000_000_000_000_000_000));
    assert_eq!(parse_rating("9223372036854.775807"), Some(i64::MAX));
    assert_eq!(parse_rating("-9223372036854.775807"), Some(-i64::MAX));
    assert_eq!(parse_rating("9223372036854.775808"), None);
    assert_eq!(parse_rating("1e400"), None);
    assert_eq!(parse_rating("0e400"), Some(0));
    assert_eq!(parse_rating("1e-400"), Some(0));
    assert_eq!(parse_rating("1e-99999999999999999999999999999999999"), Some(0));
    assert_eq!(parse_rating("1e99999999999999999999999999999999999"), None);
}

#[test]
fn rating_exponents_and_rounding() {
    assert_eq!(parse_rating("1e0"), Some(1_000_000));
    assert_eq!(parse_rating("1e3"), Some(1_000_000_000));
    assert_eq!(parse_rating("4.5e0"), Some(4_500_000));
    assert_eq!(parse_rating("45E-1"), Some(4_500_000));
    assert_eq!(parse_rating("0.45e+1"), Some(4_500_000));
    assert_eq!(parse_rating("1e-7"), Some(0));
    assert_eq!(parse_rating("5e-7"), Some(0));
    assert_eq!(parse_rating("6e-7"), Some(1));
    assert_eq!(parse_rating("4.1234567"), Some(4_123_457));
    assert_eq!(parse_rating("1.0000001"), Some(1_000_000));
    assert_eq!(parse_rating("4.0000005"), Some(4_000_000));
    assert_eq!(parse_rating("4.0000015"), Some(4_000_002));
    assert_eq!(parse_rating("-4.0000015"), Some(-4_000_002));
    assert_eq!(parse_rating("0000000000000000000000000000000000000000004"), Some(4_000_000));
}

#[test]
fn exponent_ratings_count() {
    let books = Value::Array(vec![book(vec![comment("alice", text("1e0"))])]);
    let (members, books) = aggregate(alice(), books).unwrap();
    let b = &books_of(&books)[0];
    assert_eq!(as_text(get(b, "average-rating")), Some(s("1.00")));
    assert_eq!(as_text(get(b, "rating-percent")), Some(s("20.00")));
    let a = get(&members, "alice").unwrap();
    assert_eq!(as_text(get(a, "average-rating")), Some(s("1.00")));
}

#[test]
fn stale_member_average_is_dropped() {
    let members = obj(vec![(
        "alice",
        obj(vec![("name", text("Alice")), ("average-rating", text("9.99"))]),
    )]);
    let (members, _) = aggregate(members, Value::Array(vec![])).unwrap();
    let a = get(&members, "alice").unwrap();
    assert!(get(a, "average-rating").is_none());
    assert_eq!(as_text(get(a, "name")), Some(s("Alice")));
}

#[test]
fn member_entries_are_checked_before_books() {
    let bad_member = obj(vec![("bob", text("Bob"))]);
    assert_eq!(aggregate(bad_member, Value::Null).unwrap_err(), SchemaError::MemberNotObject);
}

#[test]
fn averages_round_half_to_even() {
    assert_eq!(average(&vec![]), None);
    assert_eq!(average(&vec![4_000_000]), Some(400));
    assert_eq!(average(&vec![5_000_000, 4_000_000, 4_000_000]), Some(433));
    assert_eq!(average(&vec![4_125_000]), Some(412));
    assert_eq!(average(&vec![4_135_000]), Some(414));
    assert_eq!(average(&vec![-1_005_000]), Some(-100));
    assert_eq!(average(&vec![i64::MAX, i64::MAX]), Some(922_337_203_685_478));
}

#[test]
fn number_texts() {
    assert_eq!(two_decimals_text(400), "4.00");
    assert_eq!(two_decimals_text(5), "0.05");
    assert_eq!(two_decimals_text(-1234), "-12.34");
}

#[test]
fn context_holds_everything() {
    let members = obj(vec![
        ("alice", obj(vec![("name", text("Alice"))])),
        ("bob", obj(vec![("name", text("Bob")), ("id", text("stale"))])),
    ]);
    let books = Value::Array(vec![book(vec![comment("bob", text("3"))])]);
    let global = obj(vec![("title", text("Club")), ("header", text("old"))]);
    let c = build_context(members, books, global, s("<h/>"), s("<f/>"), s("01.01.2024 10:00"))
        .unwrap();
    let keys: Vec<String> = match &c {
        Value::Object(fs) => fs.iter().map(|(k, _)| k.clone()).collect(),
        _ => panic!("context is not an object"),
    };
    assert_eq!(keys, vec!["members", "members-list", "global", "books"]);
    let g = get(&c, "global").unwrap();
    assert_eq!(as_text(get(g, "title")), Some(s("Club")));
    assert_eq!(as_text(get(g, "header")), Some(s("<h/>")));
    assert_eq!(as_text(get(g, "footer")), Some(s("<f/>")));
    assert_eq!(as_text(get(g, "build_time")), Some(s("01.01.2024 10:00")));
    let list = match get(&c, "members-list").unwrap() {
        Value::Array(l) => l,
        _ => panic!("members-list is not an array"),
    };
    assert_eq!(list.len(), 2);
    assert_eq!(as_text(get(&list[0], "id")), Some(s("alice")));
    assert_eq!(as_text(get(&list[1], "id")), Some(s("bob")));
    assert_eq!(count(&list[1], "id"), 1);
    assert_eq!(as_text(get(&list[1], "average-rating")), Some(s("3.00")));
    let members = get(&c, "members").unwrap();
    let bob = get(members, "bob").unwrap();
    assert_eq!(as_text(get(bob, "id")), Some(s("stale")));
    assert!(get(get(members, "alice").unwrap(), "id").is_none());
}

#[test]
fn list_entries_are_independent() {
    let members = obj(vec![("alice", obj(vec![("name", text("Alice"))]))]);
    let c = build_context(members, Value::Array(vec![]), obj(vec![]), s(""), s(""), s(""))
        .unwrap();
    let mut fs = match c {
        Value::Object(fs) => fs,
        _ => panic!("context is not an object"),
    };
    if let Value::Array(list) = &mut fs[1].1 {
        if let Value::Object(entry) = &mut list[0] {
            entry.last_mut().unwrap().1 = text("changed");
        }
    }
    let c = Value::Object(fs);
    let alice = get(get(&c, "members").unwrap(), "alice").unwrap();
    assert!(get(alice, "id").is_none());
    let list = match get(&c, "members-list").unwrap() {
        Value::Array(l) => l,
        _ => panic!("members-list is not an array"),
    };
    assert_eq!(as_text(get(&list[0], "id")), Some(s("changed")));
}

#[test]
fn percent_uses_the_exact_mean() {
    assert_eq!(percent(&vec![]), None);
    assert_eq!(percent(&vec![4_000_000, 4_250_000]), Some(8250));
    assert_eq!(average(&vec![4_000_000, 4_250_000]), Some(412));
    assert_eq!(percent(&vec![5_000_000, 4_000_000, 4_000_000]), Some(8667));
    assert_eq!(percent(&vec![5_000_000]), Some(10000));
    assert_eq!(percent(&vec![-1_000_000]), Some(-2000));
    let books = Value::Array(vec![book(vec![
        comment("alice", text("4")),
        comment("alice", Value::Number(s("4.25"))),
    ])]);
    let (_, books) = aggregate(alice(), books).unwrap();
    let b = &books_of(&books)[0];
    assert_eq!(as_text(get(b, "average-rating")), Some(s("4.12")));
    assert_eq!(as_text(get(b, "rating-percent")), Some(s("82.50")));
}

#[test]
fn comment_notes_flag_warnings() {
    let members = vec![(s("alice"), obj(vec![]))];
    let n = comment_notes(&members, &comment("alice", text("4"))).unwrap();
    assert!(!n.unrated && !n.unknown_author);
    let n = comment_notes(&members, &comment("unknown_person", Value::Bool(true))).unwrap();
    assert!(n.unrated && n.unknown_author);
    let r = comment_notes(&members, &Value::Null);
    assert_eq!(r.err(), Some(SchemaError::CommentNotObject));
}

#[test]
fn each_file_is_checked_alone() {
    assert_eq!(check_members(&alice()), Ok(()));
    assert_eq!(check_members(&Value::Null), Err(SchemaError::MembersNotObject));
    assert_eq!(check_members(&obj(vec![("bob", Value::Null)])), Err(SchemaError::MemberNotObject));
    assert_eq!(check_books(&Value::Array(vec![book(vec![])])), Ok(()));
    assert_eq!(check_books(&alice()), Err(SchemaError::BooksNotArray));
    assert_eq!(
        check_books(&Value::Array(vec![book(vec![]), Value::Null])),
        Err(SchemaError::BookNotObject)
    );
    assert_eq!(check_global(&obj(vec![])), Ok(()));
    assert_eq!(check_global(&Value::Array(vec![])), Err(SchemaError::GlobalNotObject));
}
