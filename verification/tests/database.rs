use sosdb::{Database, DatabaseLoadError, FloatText, Object, Value, ValueParseError};

fn loaded(contents: &str) -> Database {
    let mut database = Database::new("test.sosdb".into());
    assert!(database.load(contents).is_ok());
    database
}

fn value_error(outcome: Result<(), DatabaseLoadError>) -> ValueParseError {
    match outcome {
        Err(DatabaseLoadError::ValueError(error)) => error,
        other => panic!("no value error: {other:?}"),
    }
}

#[test]
fn new_database_is_empty() {
    let database = Database::new("db/test.sosdb".into());
    assert_eq!(database.path(), "db/test.sosdb");
    assert!(database.get_object("player").is_none());
    assert_eq!(database.to_string(), "sosdb\n");
    assert_eq!(database.save(), "sosdb\n");
}

#[test]
fn add_object_twice_keeps_the_second_only() {
    let mut database = Database::new("test.sosdb".into());
    database.add_object(
        Object::new("player".into())
            .with_value("hp", Value::Int(1))
            .with_value("mp", Value::Int(2)),
    );
    database.add_object(Object::new("player".into()).with_value("hp", Value::Int(3)));
    let player = database.get_object("player").unwrap();
    assert_eq!(player.get("hp"), Some(&Value::Int(3)));
    assert_eq!(player.get("mp"), None);
    assert_eq!(database.to_string(), "sosdb\nobject player\n  hp=i:3\nend\n\n");
}

#[test]
fn remove_object_returns_it() {
    let mut database = Database::new("test.sosdb".into());
    database.add_object(Object::new("a".into()).with_value("x", Value::Int(1)));
    database.add_object(Object::new("b".into()));
    let taken = database.remove_object("a").unwrap();
    assert_eq!(taken.name(), "a");
    assert_eq!(taken.get("x"), Some(&Value::Int(1)));
    assert!(database.get_object("a").is_none());
    assert!(database.get_object("b").is_some());
    assert!(database.remove_object("a").is_none());
}

#[test]
fn database_is_written_block_by_block() {
    let mut database = Database::new("test.sosdb".into());
    database.add_object(Object::new("player".into()).with_value("hp", Value::Int(100)));
    database.add_object(Object::new("empty".into()));
    assert_eq!(
        database.save(),
        "sosdb\nobject player\n  hp=i:100\nend\n\nobject empty\nend\n\n"
    );
}

#[test]
fn saved_database_loads_again() {
    let mut database = Database::new("test.sosdb".into());
    database.add_object(
        Object::new("player".into())
            .with_value("hp", Value::Int(100))
            .with_value("alive", Value::Bool(true)),
    );
    let text = database.save();

    let mut fresh = Database::new("test.sosdb".into());
    assert!(fresh.load(&text).is_ok());
    let player = fresh.get_object("player").unwrap();
    assert_eq!(player.get("hp"), Some(&Value::Int(100)));
    assert_eq!(player.get("alive"), Some(&Value::Bool(true)));
    assert_eq!(fresh.save(), text);
}

#[test]
fn every_kind_of_value_loads_again() {
    let mut database = Database::new("test.sosdb".into());
    database.add_object(
        Object::new("first object".into())
            .with_value("text", Value::Str("a = b : c".into()))
            .with_value("number", Value::Int(-5))
            .with_value("ratio", Value::Float(FloatText::parse("0.5").unwrap()))
            .with_value("flag", Value::Bool(false)),
    );
    database.add_object(Object::new("second".into()).with_value("end", Value::Int(1)));
    let text = database.save();
    let fresh = loaded(&text);
    assert_eq!(fresh.save(), text);
    let first = fresh.get_object("first object").unwrap();
    assert_eq!(first.get("text"), Some(&Value::Str("a = b : c".into())));
    assert_eq!(first.get("ratio"), Some(&Value::Float(FloatText::parse("0.5").unwrap())));
    assert_eq!(fresh.get_object("second").unwrap().get("end"), Some(&Value::Int(1)));
}

#[test]
fn header_line_is_passed_over() {
    let body = "object player\n  hp=i:100\nend\n";
    let with_header = loaded(&format!("sosdb\n{body}"));
    let with_other = loaded(&format!("anything at all = here\n{body}"));
    let with_empty = loaded(&format!("\n{body}"));
    let with_block_start = loaded(&format!("object ghost\n{body}"));
    for database in [&with_header, &with_other, &with_empty, &with_block_start] {
        assert_eq!(database.save(), "sosdb\nobject player\n  hp=i:100\nend\n\n");
        assert!(database.get_object("ghost").is_none());
    }
}

#[test]
fn field_line_without_equals_is_passed_over() {
    let database = loaded("sosdb\nobject player\n  hp=i:100\n  no equals here\n  mp=i:5\nend\n");
    let player = database.get_object("player").unwrap();
    assert_eq!(player.get("hp"), Some(&Value::Int(100)));
    assert_eq!(player.get("mp"), Some(&Value::Int(5)));
    assert_eq!(player.to_string(), "object player\n  hp=i:100\n  mp=i:5\nend\n");
}

#[test]
fn short_lines_in_a_block_are_passed_over() {
    let database = loaded("sosdb\nobject player\n\n \n=\n  hp=i:100\nend\n");
    let player = database.get_object("player").unwrap();
    assert_eq!(player.to_string(), "object player\n  hp=i:100\nend\n");
}

#[test]
fn first_two_characters_of_a_field_line_are_dropped() {
    let database = loaded("sosdb\nobject o\nxxa=i:1\n   b=i:2\n  =i:3\n  c=s:=d\nend\n");
    let object = database.get_object("o").unwrap();
    assert_eq!(object.get("a"), Some(&Value::Int(1)));
    assert_eq!(object.get(" b"), Some(&Value::Int(2)));
    assert_eq!(object.get(""), Some(&Value::Int(3)));
    assert_eq!(object.get("c"), Some(&Value::Str("=d".into())));
}

#[test]
fn object_name_is_what_follows_the_first_space() {
    let database = loaded("sosdb\nobject big red box\nend\nthing x\nend\n y\nend\nz \nend\n");
    assert!(database.get_object("big red box").is_some());
    assert!(database.get_object("x").is_some());
    assert!(database.get_object("y").is_some());
    assert!(database.get_object("").is_some());
    assert_eq!(
        database.save(),
        "sosdb\nobject big red box\nend\n\nobject x\nend\n\nobject y\nend\n\nobject \nend\n\n"
    );
}

#[test]
fn lines_without_a_space_outside_a_block_are_passed_over() {
    let database = loaded("sosdb\njunk\n\nend\nobject a\nend\nmore=junk\nobject b\nend\n");
    assert_eq!(database.save(), "sosdb\nobject a\nend\n\nobject b\nend\n\n");
}

#[test]
fn block_without_end_runs_to_the_last_line() {
    let database = loaded("sosdb\nobject a\n  x=i:1\nobject b\n  y=i:2");
    assert!(database.get_object("b").is_none());
    let a = database.get_object("a").unwrap();
    assert_eq!(a.get("x"), Some(&Value::Int(1)));
    assert_eq!(a.get("y"), Some(&Value::Int(2)));
    assert_eq!(a.to_string(), "object a\n  x=i:1\n  y=i:2\nend\n");
}

#[test]
fn value_that_does_not_decode_ends_the_loading() {
    let mut database = Database::new("test.sosdb".into());
    let outcome = database.load(
        "sosdb\nobject a\n  x=i:1\nend\nobject b\n  y=i:2\n  z=i:oops\nend\nobject c\nend\n",
    );
    assert_eq!(value_error(outcome), ValueParseError::InvalidValue);
    assert_eq!(database.get_object("a").unwrap().get("x"), Some(&Value::Int(1)));
    assert!(database.get_object("b").is_none());
    assert!(database.get_object("c").is_none());
}

#[test]
fn each_decoding_error_is_handed_on() {
    let mut database = Database::new("test.sosdb".into());
    assert_eq!(
        value_error(database.load("sosdb\nobject a\n  x=\nend\n")),
        ValueParseError::ValueIsEmpty
    );
    assert_eq!(
        value_error(database.load("sosdb\nobject a\n  x=q:1\nend\n")),
        ValueParseError::InvalidType
    );
    assert_eq!(
        value_error(database.load("sosdb\nobject a\n  x=b:yes\nend\n")),
        ValueParseError::InvalidValue
    );
    assert_eq!(
        value_error(database.load("sosdb\nobject a\n  x=i\nend\n")),
        ValueParseError::InvalidValue
    );
    assert_eq!(database.save(), "sosdb\n");
}

#[test]
fn loading_adds_to_what_is_there() {
    let mut database = Database::new("test.sosdb".into());
    database.add_object(Object::new("kept".into()).with_value("x", Value::Int(1)));
    database.add_object(
        Object::new("replaced".into())
            .with_value("x", Value::Int(1))
            .with_value("y", Value::Int(2)),
    );
    assert!(database.load("sosdb\nobject replaced\n  x=i:9\nend\nobject new\nend\n").is_ok());
    assert_eq!(
        database.save(),
        "sosdb\nobject kept\n  x=i:1\nend\n\nobject replaced\n  x=i:9\nend\n\nobject new\nend\n\n"
    );
    let before = database.save();
    assert!(database.load("sosdb\nobject replaced\n  x=i:9\nend\nobject new\nend\n").is_ok());
    assert_eq!(database.save(), before);
}

#[test]
fn repeated_field_and_object_take_the_last_value() {
    let database = loaded("sosdb\nobject a\n  x=i:1\n  x=i:2\nend\nobject a\n  y=i:3\nend\n");
    let a = database.get_object("a").unwrap();
    assert_eq!(a.get("x"), None);
    assert_eq!(a.get("y"), Some(&Value::Int(3)));
    let database = loaded("sosdb\nobject a\n  x=i:1\n  x=i:2\nend\n");
    assert_eq!(database.get_object("a").unwrap().get("x"), Some(&Value::Int(2)));
}

#[test]
fn carriage_returns_before_line_feeds_are_dropped() {
    let database = loaded("sosdb\r\nobject a\r\n  x=s:text\r\nend\r\n");
    let a = database.get_object("a").unwrap();
    assert_eq!(a.get("x"), Some(&Value::Str("text".into())));
    let database = loaded("sosdb\nobject a\n  x=s:text\r");
    let a = database.get_object("a").unwrap();
    assert_eq!(a.get("x"), Some(&Value::Str("text\r".into())));
}

#[test]
fn empty_and_header_only_texts_load_nothing() {
    for contents in ["", "sosdb", "sosdb\n", "\n", "object a"] {
        assert_eq!(loaded(contents).save(), "sosdb\n", "{contents:?}");
    }
}

#[test]
fn field_lines_agree_with_std_line_splitting() {
    let contents = "h\nobject a\n  k1=s:v1\r\n  k2=s:v2\n\n  k3=s:\r\r\n  k4=s:last\r";
    let database = loaded(contents);
    let a = database.get_object("a").unwrap();
    for line in contents.lines().skip(2) {
        if let Some((name, encoded)) = line.get(2..).and_then(|rest| rest.split_once('=')) {
            assert_eq!(a.get(name), Some(&Value::Str(encoded[2..].into())), "{line:?}");
        }
    }
    assert_eq!(a.get("k3"), Some(&Value::Str("\r".into())));
}

#[test]
fn reading_errors_are_carried_as_they_are() {
    let error = DatabaseLoadError::IO(std::io::Error::new(
        std::io::ErrorKind::NotFound,
        "no such file",
    ));
    match error {
        DatabaseLoadError::IO(inner) => assert_eq!(inner.kind(), std::io::ErrorKind::NotFound),
        DatabaseLoadError::ValueError(_) => panic!("not a reading error"),
    }
}

#[test]
fn string_with_a_line_feed_does_not_load_again() {
    let mut database = Database::new("test.sosdb".into());
    database.add_object(Object::new("a".into()).with_value("x", Value::Str("one\ntwo".into())));
    let text = database.save();
    assert_eq!(text, "sosdb\nobject a\n  x=s:one\ntwo\nend\n\n");
    let fresh = loaded(&text);
    assert_eq!(fresh.get_object("a").unwrap().get("x"), Some(&Value::Str("one".into())));
}

#[test]
fn field_name_with_an_equals_sign_does_not_load_again() {
    let mut database = Database::new("test.sosdb".into());
    database.add_object(Object::new("a".into()).with_value("x=y", Value::Str("z".into())));
    let mut fresh = Database::new("test.sosdb".into());
    assert_eq!(value_error(fresh.load(&database.save())), ValueParseError::InvalidValue);
}
