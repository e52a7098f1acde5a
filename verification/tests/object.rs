use sosdb::{Object, Value};

#[test]
fn new_object_has_no_fields() {
    let object = Object::new("player".into());
    assert_eq!(object.name(), "player");
    assert_eq!(object.get("hp"), None);
    assert_eq!(object.to_string(), "object player\nend\n");
}

#[test]
fn add_then_get_returns_the_added_value() {
    let mut object = Object::new("player".into());
    object.add("hp", Value::Int(100));
    assert_eq!(object.get("hp"), Some(&Value::Int(100)));
    assert_eq!(object.get("mp"), None);
    object.add("hp", Value::Int(7));
    assert_eq!(object.get("hp"), Some(&Value::Int(7)));
}

#[test]
fn delete_then_get_returns_nothing() {
    let mut object = Object::new("player".into());
    object.add("hp", Value::Int(100));
    object.add("alive", Value::Bool(true));
    assert_eq!(object.delete("hp"), Some(Value::Int(100)));
    assert_eq!(object.get("hp"), None);
    assert_eq!(object.get("alive"), Some(&Value::Bool(true)));
    assert_eq!(object.delete("hp"), None);
    assert_eq!(object.delete("missing"), None);
}

#[test]
fn with_value_chains() {
    let object = Object::new("player".into())
        .with_value("hp", Value::Int(100))
        .with_value("name", Value::Str("Ann".into()))
        .with_value("hp", Value::Int(90));
    assert_eq!(object.get("hp"), Some(&Value::Int(90)));
    assert_eq!(object.get("name"), Some(&Value::Str("Ann".into())));
}

#[test]
fn object_is_written_field_by_field() {
    let object = Object::new("player".into())
        .with_value("hp", Value::Int(100))
        .with_value("alive", Value::Bool(true))
        .with_value("name", Value::Str("Ann Lee".into()));
    assert_eq!(
        object.to_string(),
        "object player\n  hp=i:100\n  alive=b:true\n  name=s:Ann Lee\nend\n"
    );
}

#[test]
fn overwritten_field_keeps_its_place() {
    let mut object = Object::new("o".into())
        .with_value("a", Value::Int(1))
        .with_value("b", Value::Int(2));
    object.add("a", Value::Int(3));
    assert_eq!(object.to_string(), "object o\n  a=i:3\n  b=i:2\nend\n");
    object.delete("a");
    object.add("a", Value::Int(4));
    assert_eq!(object.to_string(), "object o\n  b=i:2\n  a=i:4\nend\n");
}

#[test]
fn field_names_are_compared_by_their_characters() {
    let mut object = Object::new("o".into());
    object.add("é", Value::Int(1));
    object.add("e", Value::Int(2));
    object.add("", Value::Int(3));
    assert_eq!(object.get("é"), Some(&Value::Int(1)));
    assert_eq!(object.get("e"), Some(&Value::Int(2)));
    assert_eq!(object.get(""), Some(&Value::Int(3)));
    assert_eq!(object.get("E"), None);
}
