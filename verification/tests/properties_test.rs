use mapjson::json_error::{Literal, Symbol};
use mapjson::number::parse_i64;
use mapjson::push_back_reader::PushBackReader;
use mapjson::{
    Float, JsonError, JsonMap, JsonReader, JsonReaderSettings, JsonToken, JsonTokenizer,
    JsonWriter, JsonWriterSettings, State, Value,
};

fn tokens_of(json: &str) -> Result<Vec<JsonToken>, JsonError> {
    let mut tokenizer = JsonTokenizer::new(json);
    let mut tokens = Vec::new();
    loop {
        let token = tokenizer.next()?;
        let done = token == JsonToken::EndDocument;
        tokens.push(token);
        if done {
            return Ok(tokens);
        }
    }
}

fn first_error(json: &str) -> JsonError {
    tokens_of(json).unwrap_err()
}

fn parse(json: &str) -> Result<JsonMap, JsonError> {
    let mut map = JsonMap::new();
    map.merge(json)?;
    Ok(map)
}

#[test]
fn empty_object_tokens_and_tree() {
    assert_eq!(
        tokens_of("{}").unwrap(),
        vec![
            JsonToken::StartObject,
            JsonToken::EndObject,
            JsonToken::EndDocument
        ]
    );
    let map = parse("{}").unwrap();
    assert_eq!(map.len(), 0);
    assert!(map.is_empty());
}

#[test]
fn character_cursor_reads_and_pushes_back() {
    let mut reader = PushBackReader::new("ab");
    assert_eq!(reader.read_char(), Some('a'));
    assert_eq!(reader.push_back('x'), Ok(()));
    assert_eq!(
        reader.push_back('y'),
        Err(JsonError::CharacterAlreadyBuffered)
    );
    assert_eq!(reader.read_char(), Some('x'));
    assert_eq!(reader.read_char(), Some('b'));
    assert_eq!(reader.read_char(), None);
    assert_eq!(reader.read_char(), None);
}

#[test]
fn token_push_back_holds_one_token() {
    let mut tokenizer = JsonTokenizer::new("[]");
    let token = tokenizer.next().unwrap();
    tokenizer.push_back(token).unwrap();
    assert_eq!(
        tokenizer.push_back(JsonToken::Null),
        Err(JsonError::TokenAlreadyBuffered)
    );
    assert_eq!(tokenizer.next().unwrap(), JsonToken::StartArray);
    assert_eq!(tokenizer.next().unwrap(), JsonToken::EndArray);
}

#[test]
fn depth_follows_objects_only() {
    let mut tokenizer = JsonTokenizer::new("{\"a\":[{\"b\":{}}]}");
    let mut depths = Vec::new();
    loop {
        let before = tokenizer.object_depth;
        let token = tokenizer.next().unwrap();
        let after = tokenizer.object_depth;
        match token {
            JsonToken::StartObject => assert_eq!(after, before + 1),
            JsonToken::EndObject => assert_eq!(after + 1, before),
            _ => assert_eq!(after, before),
        }
        depths.push(after);
        if token == JsonToken::EndDocument {
            break;
        }
    }
    assert_eq!(depths, vec![1, 1, 1, 2, 2, 3, 2, 1, 1, 0, 0]);
    assert_eq!(tokenizer.depth(), 0);
}

#[test]
fn next_after_end_of_document_says_so() {
    let mut tokenizer = JsonTokenizer::new(" true ");
    assert_eq!(tokenizer.next().unwrap(), JsonToken::True);
    assert_eq!(tokenizer.next().unwrap(), JsonToken::EndDocument);
    assert_eq!(tokenizer.next(), Err(JsonError::NextAfterEndOfDocument));
    tokenizer.push_back(JsonToken::EndDocument).unwrap();
    assert_eq!(tokenizer.next().unwrap(), JsonToken::EndDocument);
    assert_eq!(tokenizer.next(), Err(JsonError::NextAfterEndOfDocument));
}

#[test]
fn skip_value_lands_on_the_next_name() {
    let json = "{ \"skip\": {\"a\": [0, {\"b\":[[], {}]}], \"c\": \"}\"}, \"next\": 1 }";
    let mut tokenizer = JsonTokenizer::new(json);
    assert_eq!(tokenizer.next().unwrap(), JsonToken::StartObject);
    assert_eq!(
        tokenizer.next().unwrap(),
        JsonToken::Name("skip".to_string())
    );
    let depth = tokenizer.object_depth;
    tokenizer.skip_value().unwrap();
    assert_eq!(tokenizer.object_depth, depth);
    assert_eq!(
        tokenizer.next().unwrap(),
        JsonToken::Name("next".to_string())
    );
    tokenizer.skip_value().unwrap();
    assert_eq!(tokenizer.next().unwrap(), JsonToken::EndObject);
    assert_eq!(tokenizer.next().unwrap(), JsonToken::EndDocument);
}

#[test]
fn lexical_errors_by_variant() {
    assert_eq!(first_error("x"), JsonError::InvalidFirstCharacter('x'));
    assert_eq!(first_error("\"abc"), JsonError::UnterminatedString);
    assert_eq!(
        first_error("\"a\tb\""),
        JsonError::InvalidStringCharacter('\t')
    );
    assert_eq!(first_error("\"a\\"), JsonError::UnterminatedEscape);
    assert_eq!(first_error("\"a\\q\""), JsonError::InvalidEscape('q'));
    assert_eq!(
        first_error("\"\\u12"),
        JsonError::UnterminatedUnicodeEscape
    );
    assert_eq!(
        first_error("\"\\u12G4\""),
        JsonError::InvalidUnicodeEscape('G')
    );
    assert_eq!(
        first_error("nul"),
        JsonError::UnterminatedLiteral(Literal::Null)
    );
    assert_eq!(
        first_error("trUe"),
        JsonError::InvalidLiteral(Literal::True)
    );
    assert_eq!(
        first_error("fals"),
        JsonError::UnterminatedLiteral(Literal::False)
    );
    assert_eq!(first_error("-"), JsonError::InvalidNumber);
    assert_eq!(first_error("-x"), JsonError::InvalidNumber);
    assert_eq!(first_error("01"), JsonError::LeadingZero);
    assert_eq!(first_error("-00"), JsonError::LeadingZero);
    assert_eq!(first_error("1."), JsonError::EmptyFraction);
    assert_eq!(first_error("1.e5"), JsonError::EmptyFraction);
    assert_eq!(first_error("1e"), JsonError::UnterminatedExponent);
    assert_eq!(first_error("1e-"), JsonError::EmptyExponent);
    assert_eq!(first_error("1ex"), JsonError::EmptyExponent);
}

#[test]
fn structural_errors_by_variant() {
    assert_eq!(
        first_error(":"),
        JsonError::InvalidState(Symbol::Colon, State::StartOfDocument)
    );
    assert_eq!(
        first_error("[,"),
        JsonError::InvalidState(Symbol::Comma, State::ArrayStart)
    );
    assert_eq!(
        first_error("{\"a\" \"b\""),
        JsonError::InvalidState(Symbol::DoubleQuote, State::ObjectBeforeColon)
    );
    assert_eq!(
        first_error("{{"),
        JsonError::InvalidState(Symbol::OpenBrace, State::ObjectStart)
    );
    assert_eq!(
        first_error("[}"),
        JsonError::InvalidState(Symbol::CloseBrace, State::ArrayStart)
    );
    assert_eq!(
        first_error("{["),
        JsonError::InvalidState(Symbol::OpenBracket, State::ObjectStart)
    );
    assert_eq!(
        first_error("{]"),
        JsonError::InvalidState(Symbol::CloseBracket, State::ObjectStart)
    );
    assert_eq!(
        first_error("{null"),
        JsonError::InvalidState(Symbol::NullLiteral, State::ObjectStart)
    );
    assert_eq!(
        first_error("{true"),
        JsonError::InvalidState(Symbol::TrueLiteral, State::ObjectStart)
    );
    assert_eq!(
        first_error("{false"),
        JsonError::InvalidState(Symbol::FalseLiteral, State::ObjectStart)
    );
    assert_eq!(
        first_error("{0"),
        JsonError::InvalidState(Symbol::Number, State::ObjectStart)
    );
    assert_eq!(
        first_error("[1"),
        JsonError::UnexpectedEndOfDocument(State::ArrayAfterValue)
    );
    assert_eq!(
        first_error(""),
        JsonError::UnexpectedEndOfDocument(State::StartOfDocument)
    );
    assert_eq!(
        first_error("1 2"),
        JsonError::InvalidState(Symbol::Number, State::ExpectedEndOfDocument)
    );
}

#[test]
fn unicode_escape_yields_its_code_unit() {
    assert_eq!(
        tokens_of("\"\\u0041\\u00e9\\u09AF\\uFFFF\\u0000\"").unwrap()[0],
        JsonToken::StringValue("A\u{e9}\u{9af}\u{ffff}\u{0}".to_string())
    );
}

#[test]
fn surrogate_escape_yields_one_replacement_character() {
    assert_eq!(
        tokens_of("\"a\\ud83d\\ude00b\\uD800\\udfff\"").unwrap()[0],
        JsonToken::StringValue("a\u{fffd}\u{fffd}b\u{fffd}\u{fffd}".to_string())
    );
    assert_eq!(
        tokens_of("\"\\ud7ff\\ue000\"").unwrap()[0],
        JsonToken::StringValue("\u{d7ff}\u{e000}".to_string())
    );
}

#[test]
fn number_token_keeps_its_text_as_written() {
    assert_eq!(
        tokens_of("[-12.50e+07, 0E0, 3e-2, 1e5]").unwrap(),
        vec![
            JsonToken::StartArray,
            JsonToken::Number("-12.50e+07".to_string()),
            JsonToken::Number("0E0".to_string()),
            JsonToken::Number("3e-2".to_string()),
            JsonToken::Number("1e5".to_string()),
            JsonToken::EndArray,
            JsonToken::EndDocument
        ]
    );
    let map = parse("{\"k\":1e5}").unwrap();
    assert_eq!(map.get("k").unwrap().as_f64().unwrap().as_str(), "1e5");
    assert_eq!(map.to_json(), "{\"k\":1e5}");
}

#[test]
fn number_is_pushed_back_to_its_last_character() {
    assert_eq!(
        tokens_of("[1,2]").unwrap(),
        vec![
            JsonToken::StartArray,
            JsonToken::Number("1".to_string()),
            JsonToken::Number("2".to_string()),
            JsonToken::EndArray,
            JsonToken::EndDocument
        ]
    );
}

#[test]
fn tree_builder_errors_by_variant() {
    assert_eq!(parse("[]").unwrap_err(), JsonError::ExpectedObject);
    assert_eq!(
        parse("{} {}").unwrap_err(),
        JsonError::InvalidState(Symbol::OpenBrace, State::ExpectedEndOfDocument)
    );
    assert_eq!(
        parse("{\"a\":1e400}").unwrap_err(),
        JsonError::SpecialValue
    );
    assert_eq!(
        parse("{\"a\":[1,2").unwrap_err(),
        JsonError::UnexpectedEndOfDocument(State::ArrayAfterValue)
    );
    let reader = JsonReader::new(JsonReaderSettings::default());
    assert_eq!(
        reader
            .parse_single_value(&JsonToken::StartArray)
            .err()
            .unwrap(),
        JsonError::NotAScalar(JsonToken::StartArray)
    );
    assert_eq!(
        reader
            .parse_single_value(&JsonToken::Number("1.".to_string()))
            .err()
            .unwrap(),
        JsonError::InvalidNumberText("1.".to_string())
    );
    let mut tokenizer = JsonTokenizer::new("{\"a\":1}");
    let mut map = JsonMap::new();
    tokenizer.next().unwrap();
    assert_eq!(
        reader.parse_object(&mut map, &mut tokenizer).unwrap_err(),
        JsonError::ExpectedObject
    );
    let mut tokenizer = JsonTokenizer::new("[1]");
    tokenizer.next().unwrap();
    tokenizer.push_back(JsonToken::StartObject).unwrap();
    let mut map = JsonMap::new();
    assert_eq!(
        reader.parse_object(&mut map, &mut tokenizer).unwrap_err(),
        JsonError::UnexpectedToken(JsonToken::Number("1".to_string()))
    );
}

#[test]
fn failed_merge_leaves_the_object_as_it_was() {
    let mut map = parse("{\"a\":1}").unwrap();
    assert!(map.merge("{\"b\":2,\"c\":}").is_err());
    assert_eq!(map.len(), 1);
    assert_eq!(map.get("a").unwrap().as_i64(), Some(1));
    assert!(!map.contains_key("b"));
}

#[test]
fn recursion_limit_names_the_limit() {
    let json = r#"{"a1":{"a2":{"a3":true}}}"#;
    let mut map = JsonMap::new();
    let result = map.merge_with_settings(json, JsonReaderSettings { recursion_limit: 2 });
    assert_eq!(result, Err(JsonError::DepthExceeded(2)));
    assert_eq!(
        result.unwrap_err().message(),
        "The set recursion depth is exceeded: 2"
    );
    let mut map = JsonMap::new();
    let result = map.merge_with_settings(json, JsonReaderSettings { recursion_limit: 3 });
    assert_eq!(result, Ok(()));
    // arrays do not count
    let mut map = JsonMap::new();
    let result = map.merge_with_settings(
        "{\"a\":[[[[{\"b\":[]}]]]]}",
        JsonReaderSettings { recursion_limit: 2 },
    );
    assert_eq!(result, Ok(()));
    assert_eq!(JsonReaderSettings::default().recursion_limit, 100);
}

#[test]
fn duplicate_keys_keep_the_last_value_in_the_first_place() {
    let map = parse("{\"a\":1,\"b\":2,\"a\":3}").unwrap();
    assert_eq!(map.len(), 2);
    assert_eq!(map.key_at(0), "a");
    assert_eq!(map.value_at(0).as_i64(), Some(3));
    assert_eq!(map.key_at(1), "b");
    assert_eq!(map.to_json(), "{\"a\":3,\"b\":2}");
}

#[test]
fn merge_from_overwrites_and_appends() {
    let mut map1 = parse("{\"111\":111,\"222\":222}").unwrap();
    let map2 = parse("{\"222\":444,\"333\":333}").unwrap();
    map1.merge_from(map2);
    assert_eq!(map1.len(), 3);
    assert_eq!(map1.to_json(), "{\"111\":111,\"222\":444,\"333\":333}");
}

#[test]
fn integers_at_and_beyond_the_limits() {
    let chars = |s: &str| s.chars().collect::<Vec<char>>();
    assert_eq!(parse_i64(&chars("0")), Some(0));
    assert_eq!(parse_i64(&chars("-0")), Some(0));
    assert_eq!(parse_i64(&chars("+17")), Some(17));
    assert_eq!(parse_i64(&chars("0009")), Some(9));
    assert_eq!(
        parse_i64(&chars("9223372036854775807")),
        Some(i64::MAX)
    );
    assert_eq!(
        parse_i64(&chars("-9223372036854775808")),
        Some(i64::MIN)
    );
    assert_eq!(parse_i64(&chars("9223372036854775808")), None);
    assert_eq!(parse_i64(&chars("-9223372036854775809")), None);
    assert_eq!(parse_i64(&chars("99999999999999999999999999")), None);
    assert_eq!(parse_i64(&chars("")), None);
    assert_eq!(parse_i64(&chars("-")), None);
    assert_eq!(parse_i64(&chars("1.0")), None);
    assert_eq!(parse_i64(&chars("12a")), None);
    let map = parse("{\"k\":9223372036854775808}").unwrap();
    assert_eq!(map.get("k").unwrap().as_i64(), None);
    assert_eq!(
        map.get("k").unwrap().as_f64().unwrap().as_str(),
        "9223372036854775808"
    );
}

#[test]
fn float_limit_agrees_with_the_standard_library() {
    let limit = mapjson::number::FINITE_LIMIT;
    let below = format!("{}1", &limit[..limit.len() - 1]);
    let mut cases: Vec<String> = vec![
        limit.to_string(),
        below,
        format!("{}.0", limit),
        format!("{}0e-1", limit),
        format!("0.{}e309", limit),
        format!("0.{}e310", limit),
        format!("0.{}e308", limit),
        format!("0.000{}e312", limit),
        format!("{}000e-3", limit),
        "1.7976931348623157e308".to_string(),
        "1.7976931348623158e308".to_string(),
        "1.7976931348623159e308".to_string(),
        "17976931348623158079372897140530341507993413271003782693617377898044496829276475094664901797758720709633028641669288791094655554785194040263065748867150582068190890200070838367627385484581771153176447573027006985557136695962284291481986083493647529271907416844436551070434271155969950809304288017790417449e4".to_string(),
        "1e308".to_string(),
        "1e309".to_string(),
        "0e999999999999999999999999999999999999999".to_string(),
        "0.0e99999".to_string(),
        "1e99999999999999999999999999999999999999".to_string(),
        "1e-99999999999999999999999999999999999999".to_string(),
        "0.00000000000000000001e329".to_string(),
        "0.00000000000000000001e328".to_string(),
        "2e308".to_string(),
        "-2e308".to_string(),
        "1.5".to_string(),
        "123456789012345678901234567890".to_string(),
    ];
    cases.push(format!("-{}", limit));
    for case in cases {
        let expected = case.parse::<f64>().unwrap().is_finite();
        assert_eq!(Float::new(case.as_str()).is_ok(), expected, "{}", case);
        if !expected {
            assert_eq!(
                Float::new(case.as_str()).err(),
                Some(JsonError::SpecialValue)
            );
        }
    }
    for bad in ["", "1.", ".5", "+1", "1e", "inf", "NaN", "0x10", "01", " 1"] {
        assert_eq!(
            Float::new(bad).err(),
            Some(JsonError::InvalidNumberText(bad.to_string()))
        );
    }
}

#[test]
fn writer_escapes_and_reader_reads_back() {
    let text = "q\"b\\s/ \u{8}\u{c}\n\r\t\u{1}\u{1f}\u{7f}\u{9f}\u{a0}é𐀀";
    let mut map = JsonMap::new();
    map.insert("k".to_string(), Value::String(text.to_string()));
    let json = map.to_json();
    assert_eq!(
        json,
        "{\"k\":\"q\\\"b\\\\s\\/ \\b\\f\\n\\r\\t\\u0001\\u001f\\u007f\\u009f\u{a0}é𐀀\"}"
    );
    let back = parse(json.as_str()).unwrap();
    assert_eq!(back.get("k").unwrap().as_string(), Some(text));
}

#[test]
fn writer_lays_out_compact_and_indented() {
    let map = parse("{\"a\":[1,-20,[]],\"b\":{\"c\":null,\"d\":{}},\"e\":1.5E3}").unwrap();
    assert_eq!(
        map.to_json(),
        "{\"a\":[1,-20,[]],\"b\":{\"c\":null,\"d\":{}},\"e\":1.5E3}"
    );
    let writer = JsonWriter::new(JsonWriterSettings {
        indentation: "\t".to_string(),
    });
    assert_eq!(
        writer.format(&map),
        "{\r\n\t\"a\": [\r\n\t\t1,\r\n\t\t-20,\r\n\t\t[]\r\n\t],\r\n\t\"b\": {\r\n\t\t\"c\": null,\r\n\t\t\"d\": {}\r\n\t},\r\n\t\"e\": 1.5E3\r\n}"
    );
    assert_eq!(JsonWriterSettings::default().indentation, "");
}

#[test]
fn writer_writes_integers_at_the_limits() {
    let mut map = JsonMap::new();
    map.insert("min".to_string(), Value::I64(i64::MIN));
    map.insert("max".to_string(), Value::I64(i64::MAX));
    map.insert("zero".to_string(), Value::I64(0));
    assert_eq!(
        map.to_json(),
        "{\"min\":-9223372036854775808,\"max\":9223372036854775807,\"zero\":0}"
    );
}

#[test]
fn round_trip_of_a_built_tree() {
    let json = "{\"a\":null,\"b\":[true,false,{\"c\":\"x\\ny\"}],\"d\":-7,\"e\":2.5E-3,\"f\":{}}";
    let first = parse(json).unwrap();
    let text = first.to_json();
    assert_eq!(text, json);
    let second = parse(text.as_str()).unwrap();
    assert_eq!(second.to_json(), text);
    let pretty = first.to_json_with_settings(JsonWriterSettings {
        indentation: "  ".to_string(),
    });
    assert_eq!(parse(pretty.as_str()).unwrap().to_json(), text);
}

#[test]
fn error_messages() {
    assert_eq!(
        JsonError::InvalidState(Symbol::Colon, State::ObjectStart).message(),
        "Invalid state to read a colon: \"OBJECT_START\""
    );
    assert_eq!(
        JsonError::InvalidStringCharacter('\u{7}').message(),
        "Invalid character in string literal: U+0007"
    );
    assert_eq!(
        JsonError::InvalidEscape('𐀀').message(),
        "Invalid character in character escape sequence: U+10000"
    );
    assert_eq!(
        JsonError::UnterminatedLiteral(Literal::False).message(),
        "Unexpected end of text while reading literal token false"
    );
    assert_eq!(
        JsonError::ExpectedEndAfterObject.message(),
        "Expected end of JSON after object"
    );
    assert_eq!(
        JsonError::DepthExceeded(18446744073709551615).message(),
        "The set recursion depth is exceeded: 18446744073709551615"
    );
    assert_eq!(
        JsonError::UnexpectedToken(JsonToken::StartArray).message(),
        "Unexpected token type StartArray"
    );
    assert_eq!(
        JsonError::UnexpectedToken(JsonToken::StringValue("a\"b\n".to_string())).message(),
        "Unexpected token type StringValue(\"a\\\"b\\n\")"
    );
    assert_eq!(
        JsonError::NotAScalar(JsonToken::Name("k".to_string())).message(),
        "An error Token occurred while parsing single value: Name(\"k\")"
    );
    assert_eq!(
        JsonError::InvalidNumberText("1.".to_string()).message(),
        "Invalid number: 1."
    );
    assert_eq!(
        JsonError::InvalidFirstCharacter('x').message(),
        "Invalid first character of token: Some('x')"
    );
    assert_eq!(
        JsonError::InvalidFirstCharacter('\'').message(),
        "Invalid first character of token: Some('\\'')"
    );
    assert_eq!(
        JsonError::InvalidFirstCharacter('\u{7f}').message(),
        "Invalid first character of token: Some('\\u{7f}')"
    );
    assert_eq!(State::ArrayAfterComma.name(), "ARRAY_AFTER_COMMA");
    assert_eq!(JsonError::SpecialValue.message(), "Reject special value");
}

#[test]
fn clone_holds_the_same_tree() {
    let map = parse("{\"a\":[1,2.5,{\"b\":null}],\"c\":\"d\"}").unwrap();
    let copy = map.clone();
    assert_eq!(copy, map);
    assert_eq!(copy.to_json(), map.to_json());
    let value = map.get("a").unwrap().clone();
    assert_eq!(&value, map.get("a").unwrap());
}

#[test]
fn parse_object_leaves_the_object_alone_where_it_does_not_start() {
    let reader = JsonReader::new(JsonReaderSettings::default());
    let mut map = parse("{\"kept\":1}").unwrap();
    let mut tokenizer = JsonTokenizer::new("[]");
    assert_eq!(
        reader.parse_object(&mut map, &mut tokenizer),
        Err(JsonError::ExpectedObject)
    );
    assert_eq!(map.to_json(), "{\"kept\":1}");

    let mut empty = JsonMap::new();
    let mut tokenizer = JsonTokenizer::new("[]");
    assert!(reader.parse_object(&mut empty, &mut tokenizer).is_err());
    assert!(empty.is_empty());

    let shallow = JsonReader::new(JsonReaderSettings { recursion_limit: 0 });
    let mut tokenizer = JsonTokenizer::new("{\"a\":1}");
    assert_eq!(
        shallow.parse_object(&mut map, &mut tokenizer),
        Err(JsonError::DepthExceeded(0))
    );
    assert_eq!(map.to_json(), "{\"kept\":1}");

    let mut tokenizer = JsonTokenizer::new("x");
    assert_eq!(
        reader.parse_object(&mut map, &mut tokenizer),
        Err(JsonError::InvalidFirstCharacter('x'))
    );
    assert_eq!(map.to_json(), "{\"kept\":1}");
}

#[test]
fn parse_object_keeps_the_properties_read_before_a_later_error() {
    let reader = JsonReader::new(JsonReaderSettings::default());
    let mut map = parse("{\"kept\":1}").unwrap();
    let mut tokenizer = JsonTokenizer::new("{\"a\":2,\"kept\":3,\"b\":}");
    assert!(reader.parse_object(&mut map, &mut tokenizer).is_err());
    assert_eq!(map.to_json(), "{\"kept\":3,\"a\":2}");
}

#[test]
fn objects_are_equal_whatever_the_order_of_their_entries() {
    let a = parse("{\"x\":1,\"y\":[true,{\"p\":null,\"q\":\"s\"}],\"z\":2.5}").unwrap();
    let b = parse("{\"z\":2.5,\"y\":[true,{\"q\":\"s\",\"p\":null}],\"x\":1}").unwrap();
    assert_eq!(a, b);
    assert_eq!(b, a);
    let c = parse("{\"x\":1,\"y\":[{\"p\":null,\"q\":\"s\"},true],\"z\":2.5}").unwrap();
    assert_ne!(a, c);
    let d = parse("{\"x\":1,\"y\":[true,{\"p\":null,\"q\":\"s\"}]}").unwrap();
    assert_ne!(a, d);
    assert_ne!(d, a);
    let e = parse("{\"x\":1,\"y\":[true,{\"p\":null,\"q\":\"t\"}],\"z\":2.5}").unwrap();
    assert_ne!(a, e);
    assert_eq!(Value::I64(1), Value::I64(1));
    assert_ne!(Value::I64(1), Value::Bool(true));
    assert_ne!(Value::Null, Value::String(String::new()));
}

#[test]
fn remove_takes_one_entry_out_and_keeps_the_order() {
    let mut map = parse("{\"a\":1,\"b\":2,\"c\":3}").unwrap();
    assert_eq!(map.keys(), vec!["a", "b", "c"]);
    assert_eq!(map.remove("b"), Some(Value::I64(2)));
    assert_eq!(map.remove("b"), None);
    assert_eq!(map.len(), 2);
    assert_eq!(map.keys(), vec!["a", "c"]);
    assert_eq!(map.to_json(), "{\"a\":1,\"c\":3}");
    assert!(!map.contains_key("b"));
    assert_eq!(map.get("c").unwrap().as_i64(), Some(3));
}
