use sosdb::{FloatText, Value, ValueParseError};

fn float(number: f32) -> Value {
    Value::Float(FloatText::parse(&format!("{}", number)).unwrap())
}

#[test]
fn value_parsing() {
    let value_str = "f:5";
    let value: Value = value_str.try_into().unwrap();
    assert_eq!(value, float(5.0));

    let value: Value = Value::Str("hello world".into());
    let value_str = &value.to_string()[..];
    assert_eq!(value_str, "s:hello world");
    let value2: Value = value_str.try_into().unwrap();
    assert_eq!(value2, value);
}

#[test]
fn empty_text_is_value_is_empty() {
    assert_eq!(Value::parse(""), Err(ValueParseError::ValueIsEmpty));
    assert_eq!(Value::try_from(""), Err(ValueParseError::ValueIsEmpty));
}

#[test]
fn unknown_tag_is_invalid_type() {
    assert_eq!(Value::parse("x:5"), Err(ValueParseError::InvalidType));
    assert_eq!(Value::parse("S:5"), Err(ValueParseError::InvalidType));
    assert_eq!(Value::parse("::"), Err(ValueParseError::InvalidType));
}

#[test]
fn integer_payloads() {
    assert_eq!(Value::parse("i:abc"), Err(ValueParseError::InvalidValue));
    assert_eq!(Value::parse("i:42"), Ok(Value::Int(42)));
    assert_eq!(Value::parse("i:-42"), Ok(Value::Int(-42)));
    assert_eq!(Value::parse("i:+42"), Ok(Value::Int(42)));
    assert_eq!(Value::parse("i:0"), Ok(Value::Int(0)));
    assert_eq!(Value::parse("i:-0"), Ok(Value::Int(0)));
    assert_eq!(Value::parse("i:007"), Ok(Value::Int(7)));
    assert_eq!(Value::parse("i:2147483647"), Ok(Value::Int(i32::MAX)));
    assert_eq!(Value::parse("i:-2147483648"), Ok(Value::Int(i32::MIN)));
    assert_eq!(
        Value::parse("i:00000000000000000000002147483647"),
        Ok(Value::Int(i32::MAX))
    );
    for text in [
        "i:", "i:+", "i:-", "i:2147483648", "i:-2147483649", "i:99999999999999999999", "i: 1",
        "i:1 ", "i:1.0", "i:--1", "i:1e3", "i:0x10", "i:١٢",
    ] {
        assert_eq!(Value::parse(text), Err(ValueParseError::InvalidValue), "{text}");
    }
}

#[test]
fn integer_payloads_agree_with_std() {
    for payload in [
        "", "+", "-", "0", "-0", "+0", "12", "-12", "+12", "0012", "2147483647", "2147483648",
        "-2147483648", "-2147483649", "4294967296", "1a", "a1", " 1", "1 ", "1_000", "+-1", "٣",
    ] {
        let expected = payload.parse::<i32>().ok().map(Value::Int);
        assert_eq!(Value::parse(&format!("i:{payload}")).ok(), expected, "{payload}");
    }
}

#[test]
fn integer_text_agrees_with_std() {
    for number in [0, 1, -1, 9, 10, -10, 99, 100, 12345, -98765, i32::MAX, i32::MIN, i32::MIN + 1] {
        assert_eq!(Value::Int(number).to_string(), format!("i:{number}"));
    }
}

#[test]
fn boolean_payloads() {
    assert_eq!(Value::parse("b:maybe"), Err(ValueParseError::InvalidValue));
    assert_eq!(Value::parse("b:true"), Ok(Value::Bool(true)));
    assert_eq!(Value::parse("b:false"), Ok(Value::Bool(false)));
    for text in ["b:", "b:True", "b:FALSE", "b:1", "b:true ", "b: true", "b:truee", "b:fals"] {
        assert_eq!(Value::parse(text), Err(ValueParseError::InvalidValue), "{text}");
    }
    assert_eq!(Value::Bool(true).to_string(), "b:true");
    assert_eq!(Value::Bool(false).to_string(), "b:false");
}

#[test]
fn string_payload_is_taken_verbatim() {
    assert_eq!(Value::parse("s:"), Ok(Value::Str(String::new())));
    assert_eq!(Value::parse("s::"), Ok(Value::Str(":".into())));
    assert_eq!(Value::parse("s: a=b "), Ok(Value::Str(" a=b ".into())));
    assert_eq!(Value::parse("s:héllo wörld"), Ok(Value::Str("héllo wörld".into())));
    assert_eq!(Value::Str("a\nb".into()).to_string(), "s:a\nb");
}

#[test]
fn missing_colon_is_invalid_value() {
    for text in ["s", "i", "x", "x5", "i42", "sx", "b=true", "é"] {
        assert_eq!(Value::parse(text), Err(ValueParseError::InvalidValue), "{text}");
    }
}

#[test]
fn float_payloads() {
    assert_eq!(Value::parse("f:abc"), Err(ValueParseError::InvalidValue));
    assert_eq!(Value::parse("f:"), Err(ValueParseError::InvalidValue));
    assert_eq!(Value::parse("f:1.5"), Ok(float(1.5)));
    assert_eq!(Value::parse("f:-0.25"), Ok(float(-0.25)));
    assert_eq!(Value::parse("f:inf"), Ok(float(f32::INFINITY)));
    assert_eq!(Value::parse("f:-inf"), Ok(float(f32::NEG_INFINITY)));
    assert_eq!(Value::parse("f:NaN"), Ok(float(f32::NAN)));
    assert_eq!(float(5.0).to_string(), "f:5");
    assert_eq!(float(0.1).to_string(), "f:0.1");
}

#[test]
fn float_texts_agree_with_std() {
    for text in [
        "", "+", "-", ".", "+.", "-.", "0", "5", "-5", "+5", "5.", ".5", "5.5", "-5.5", "+.5",
        "1e5", "1E5", "1e+5", "1e-5", "1.e5", ".1e5", "1.5e10", "e5", "1e", "1e+", "1e-", ".e5",
        "1e5.5", "1.2.3", "1..2", "--1", "+-1", "1-", "1+", "inf", "INF", "Inf", "+inf", "-inf",
        "infinity", "INFINITY", "Infinity", "-Infinity", "+infinity", "infinit", "infinityy",
        "in", "nan", "NaN", "NAN", "-nan", "+nan", "nane", "na", "n", "i", " 1", "1 ", "1_0",
        "0x10", "1f", "1e5e5", "١", "1.５", "9999999999999999999999999999999999999999999999",
        "1e999999999999999999999", "0.000000000000000000000000000000000000000000000000001",
        "infe5", "nan.", "5e", "E5", "1ee5", "+e5", ".+5", "1.+5", "1e 5", "ınf", "ﬁ",
    ] {
        assert_eq!(
            FloatText::parse(text).is_some(),
            text.parse::<f32>().is_ok(),
            "{text:?}"
        );
    }
}

#[test]
fn float_text_is_kept_as_it_stands() {
    let float = FloatText::parse("+1.50e3").unwrap();
    assert_eq!(float.as_str(), "+1.50e3");
    assert_eq!(float.as_str().parse::<f32>().unwrap(), 1500.0);
    assert_eq!(Value::Float(float.clone()).to_string(), "f:+1.50e3");
    assert_eq!(Value::parse("f:+1.50e3"), Ok(Value::Float(float)));
}

#[test]
fn decoding_an_encoded_value_gives_it_back() {
    let values = vec![
        Value::Int(0),
        Value::Int(-17),
        Value::Int(i32::MIN),
        Value::Int(i32::MAX),
        Value::Bool(true),
        Value::Bool(false),
        float(3.25),
        float(-1.0e-20),
        float(f32::MAX),
        float(f32::MIN_POSITIVE),
        float(f32::INFINITY),
        Value::Str("text: with = signs".into()),
        Value::Str(String::new()),
    ];
    for value in values {
        assert_eq!(Value::parse(&value.to_string()), Ok(value));
    }
}
