use mapjson::json_token::JsonToken;
use mapjson::json_tokenizer::JsonTokenizer;

fn warp_quotes(s: &str) -> String {
    let mut builder = String::new();
    builder.push('\"');
    builder.push_str(s);
    builder.push('\"');

    builder
}

// The end of the document is not listed among the expected tokens: it is
// implied. Apostrophes stand for double quotes.
fn assert_tokens(json: &str, expected_tokens: &[JsonToken]) {
    let json = json.replace("\'", "\"");
    assert_tokens_no_replacement(json.as_str(), expected_tokens);
}

fn assert_tokens_no_replacement(json: &str, expected_tokens: &[JsonToken]) {
    let mut tokenizer = JsonTokenizer::new(json);
    for expected_token in expected_tokens {
        let actual_token = tokenizer.next().unwrap();
        if actual_token == JsonToken::EndDocument {
            panic!(
                "Expected {:?} but reached end of token stream",
                expected_token
            );
        }

        assert_eq!(actual_token, *expected_token);
    }

    let final_token = tokenizer.next().unwrap();
    if final_token != JsonToken::EndDocument {
        panic!(
            "Expected token stream to be exhausted; received {:?}",
            final_token
        );
    }
}

fn assert_error_after(json: &str, expected_tokens: &[JsonToken]) {
    let mut tokenizer = JsonTokenizer::new(json);
    for expected_token in expected_tokens {
        let actual_token = tokenizer.next().unwrap();
        if actual_token == JsonToken::EndDocument {
            panic!(
                "Expected {:?} but reached end of token stream",
                expected_token
            );
        }

        assert_eq!(actual_token, *expected_token);
    }

    assert!(
        matches!(tokenizer.next(), Err(_)),
        "Expected an Err, but got an Ok"
    );
}

fn assert_ok_after(json: &str, expected_tokens: &[JsonToken]) {
    let mut tokenizer = JsonTokenizer::new(json);
    for expected_token in expected_tokens {
        let actual_token = tokenizer.next().unwrap();
        if actual_token == JsonToken::EndDocument {
            panic!(
                "Expected {:?} but reached end of token stream",
                expected_token
            );
        }

        assert_eq!(actual_token, *expected_token);
    }

    assert!(
        matches!(tokenizer.next(), Ok(_)),
        "Expected an Ok, but got an Err"
    );
}

fn assert_structure(json: &str, expected_valid_tokens: i32) {
    let json = json.replace("\'", "\"");
    let mut tokenizer = JsonTokenizer::new(json.as_str());
    for _ in 0..expected_valid_tokens {
        assert!(
            matches!(tokenizer.next(), Ok(_)),
            "Expected an Ok, but got an Err"
        );
    }

    assert!(
        matches!(tokenizer.next(), Err(_)),
        "Expected an Err, but got an Ok"
    );
}

fn assert_skip(json: &str) {
    let json = json.replace("\'", "\"");
    let mut tokenizer = JsonTokenizer::new(json.as_str());
    assert_eq!(tokenizer.next().unwrap(), JsonToken::StartObject);

    if let JsonToken::Name(val) = tokenizer.next().unwrap() {
        assert_eq!(val.as_str(), "skip");
    }
    tokenizer.skip_value().unwrap();
    if let JsonToken::Name(val) = tokenizer.next().unwrap() {
        assert_eq!(val.as_str(), "next");
    }
}

#[test]
fn empty_object_value() {
    assert_tokens("{}", &[JsonToken::StartObject, JsonToken::EndObject]);
}

#[test]
fn empty_array_value() {
    assert_tokens("[]", &[JsonToken::StartArray, JsonToken::EndArray]);
}

#[test]
fn string_value() {
    let case1 = ("foo", "foo");
    let case2 = ("tab\\t", "tab\t");
    let case3 = ("line\\nfeed", "line\nfeed");
    let case4 = ("carriage\\rreturn", "carriage\rreturn");
    let case5 = ("back\\bspace", "back\x08space");
    let case6 = ("form\\ffeed", "form\x0Cfeed");
    let case7 = ("escaped\\/slash", "escaped/slash");
    let case8 = ("escaped\\\\backslash", "escaped\\backslash");
    let case9 = ("escaped\\\"quote", "escaped\"quote");
    let case10 = ("foo {}[] bar", "foo {}[] bar");
    let case11 = ("fooযbar", "foo\u{09af}bar");
    let case12 = ("ab𐀀cd", "ab\u{10000}cd");
    let case13 = ("ab\u{10000}cd", "ab𐀀cd");

    assert_tokens_no_replacement(
        warp_quotes(case1.0).as_str(),
        &[JsonToken::StringValue(String::from(case1.1))],
    );
    assert_tokens_no_replacement(
        warp_quotes(case2.0).as_str(),
        &[JsonToken::StringValue(String::from(case2.1))],
    );
    assert_tokens_no_replacement(
        warp_quotes(case3.0).as_str(),
        &[JsonToken::StringValue(String::from(case3.1))],
    );
    assert_tokens_no_replacement(
        warp_quotes(case4.0).as_str(),
        &[JsonToken::StringValue(String::from(case4.1))],
    );
    assert_tokens_no_replacement(
        warp_quotes(case5.0).as_str(),
        &[JsonToken::StringValue(String::from(case5.1))],
    );
    assert_tokens_no_replacement(
        warp_quotes(case6.0).as_str(),
        &[JsonToken::StringValue(String::from(case6.1))],
    );
    assert_tokens_no_replacement(
        warp_quotes(case7.0).as_str(),
        &[JsonToken::StringValue(String::from(case7.1))],
    );
    assert_tokens_no_replacement(
        warp_quotes(case8.0).as_str(),
        &[JsonToken::StringValue(String::from(case8.1))],
    );
    assert_tokens_no_replacement(
        warp_quotes(case9.0).as_str(),
        &[JsonToken::StringValue(String::from(case9.1))],
    );
    assert_tokens_no_replacement(
        warp_quotes(case10.0).as_str(),
        &[JsonToken::StringValue(String::from(case10.1))],
    );
    assert_tokens_no_replacement(
        warp_quotes(case11.0).as_str(),
        &[JsonToken::StringValue(String::from(case11.1))],
    );
    assert_tokens_no_replacement(
        warp_quotes(case12.0).as_str(),
        &[JsonToken::StringValue(String::from(case12.1))],
    );
    assert_tokens_no_replacement(
        warp_quotes(case13.0).as_str(),
        &[JsonToken::StringValue(String::from(case13.1))],
    );
}

#[test]
fn object_depth() {
    let json = "{ \"foo\": { \"x\": 1, \"y\": [ 0 ] } }";
    let mut tokenizer = JsonTokenizer::new(json);

    assert_eq!(tokenizer.object_depth, 0);
    assert_eq!(tokenizer.next().unwrap(), JsonToken::StartObject);
    assert_eq!(tokenizer.object_depth, 1);
    assert_eq!(
        tokenizer.next().unwrap(),
        JsonToken::Name(String::from("foo"))
    );
    assert_eq!(tokenizer.object_depth, 1);
    assert_eq!(tokenizer.next().unwrap(), JsonToken::StartObject);
    assert_eq!(tokenizer.object_depth, 2);
    assert_eq!(
        tokenizer.next().unwrap(),
        JsonToken::Name(String::from("x"))
    );
    assert_eq!(tokenizer.object_depth, 2);
    assert_eq!(
        tokenizer.next().unwrap(),
        JsonToken::Number(String::from("1"))
    );
    assert_eq!(tokenizer.object_depth, 2);
    assert_eq!(
        tokenizer.next().unwrap(),
        JsonToken::Name(String::from("y"))
    );
    assert_eq!(tokenizer.object_depth, 2);
    assert_eq!(tokenizer.next().unwrap(), JsonToken::StartArray);
    assert_eq!(tokenizer.object_depth, 2); // an array leaves the depth as it is
    assert_eq!(
        tokenizer.next().unwrap(),
        JsonToken::Number(String::from("0"))
    );
    assert_eq!(tokenizer.object_depth, 2);
    assert_eq!(tokenizer.next().unwrap(), JsonToken::EndArray);
    assert_eq!(tokenizer.object_depth, 2);
    assert_eq!(tokenizer.next().unwrap(), JsonToken::EndObject);
    assert_eq!(tokenizer.object_depth, 1);
    assert_eq!(tokenizer.next().unwrap(), JsonToken::EndObject);
    assert_eq!(tokenizer.object_depth, 0);
    assert_eq!(tokenizer.next().unwrap(), JsonToken::EndDocument);
    assert_eq!(tokenizer.object_depth, 0);
}

#[test]
fn object_depth_with_push_back() {
    let json = "{}";
    let mut tokenizer = JsonTokenizer::new(json);

    assert_eq!(tokenizer.object_depth, 0);
    let token = tokenizer.next().unwrap();
    assert_eq!(tokenizer.object_depth, 1);
    // Pushing the start of the object back takes the depth back with it.
    tokenizer.push_back(token).unwrap();
    assert_eq!(tokenizer.object_depth, 0);
    // Reading the same token again gives depth 1 again.
    tokenizer.next().unwrap();
    assert_eq!(tokenizer.object_depth, 1);

    // The same in reverse for the end of the object.
    let token = tokenizer.next().unwrap();
    assert_eq!(tokenizer.object_depth, 0);
    tokenizer.push_back(token).unwrap();
    assert_eq!(tokenizer.object_depth, 1);
    tokenizer.next().unwrap();
    assert_eq!(tokenizer.object_depth, 0);
}

#[test]
fn invalid_string_value() {
    let case1 = "embedded tab\t";
    let case2 = "embedded CR\r";
    let case3 = "embedded LF\n";
    let case4 = "embedded bell\u{0007}";
    let case5 = "bad escape\\a";
    let case6 = "incomplete escape\\";
    let case7 = "incomplete Unicode escape\\u{000}";
    let case8 = "invalid Unicode escape\\u{000}H";

    assert_error_after(warp_quotes(case1).as_str(), &[]);
    assert_error_after(warp_quotes(case2).as_str(), &[]);
    assert_error_after(warp_quotes(case3).as_str(), &[]);
    assert_error_after(warp_quotes(case4).as_str(), &[]);
    assert_error_after(warp_quotes(case5).as_str(), &[]);
    assert_error_after(warp_quotes(case6).as_str(), &[]);
    assert_error_after(warp_quotes(case7).as_str(), &[]);
    assert_error_after(warp_quotes(case8).as_str(), &[]);
}

#[test]
fn number_value() {
    let case1 = ("0", "0");
    let case2 = ("-0", "0"); // positive and negative zero are not told apart
    let case3 = ("1", "1");
    let case4 = ("-1", "-1");
    let case5 = ("1.125", "1.125");
    let case6 = ("1e5", "100000");
    let case7 = ("1E5", "100000");
    let case8 = ("1e+5", "100000");
    let case9 = ("1E-5", "0.00001");
    let case10 = ("   1   ", "1");

    assert_tokens(
        case1.0.parse::<i32>().unwrap().to_string().as_str(),
        &[JsonToken::Number(String::from(case1.1))],
    );
    assert_tokens(
        case2.0.parse::<i32>().unwrap().to_string().as_str(),
        &[JsonToken::Number(String::from(case2.1))],
    );
    assert_tokens(
        case3.0.parse::<i32>().unwrap().to_string().as_str(),
        &[JsonToken::Number(String::from(case3.1))],
    );
    assert_tokens(
        case4.0.parse::<i32>().unwrap().to_string().as_str(),
        &[JsonToken::Number(String::from(case4.1))],
    );
    assert_tokens(
        case5.0.parse::<f32>().unwrap().to_string().as_str(),
        &[JsonToken::Number(String::from(case5.1))],
    );
    assert_tokens(
        (case6.0.parse::<f32>().unwrap() as i32)
            .to_string()
            .as_str(),
        &[JsonToken::Number(String::from(case6.1))],
    );
    assert_tokens(
        (case7.0.parse::<f32>().unwrap() as i32)
            .to_string()
            .as_str(),
        &[JsonToken::Number(String::from(case7.1))],
    );
    assert_tokens(
        (case8.0.parse::<f32>().unwrap() as i32)
            .to_string()
            .as_str(),
        &[JsonToken::Number(String::from(case8.1))],
    );
    assert_tokens(
        case9.0.parse::<f32>().unwrap().to_string().as_str(),
        &[JsonToken::Number(String::from(case9.1))],
    );
    assert_tokens(
        case10.0.trim().parse::<i32>().unwrap().to_string().as_str(),
        &[JsonToken::Number(String::from(case10.1))],
    );
}

#[test]
fn invalid_number_value() {
    let case1 = "00";
    let case2 = ".5";
    let case3 = "1.";
    let case4 = "1e";
    let case5 = "1e-";
    let case6 = "--";
    let case7 = "--1";
    let case8 = "-1.7977e308";
    let case9 = "1.7977e308";

    assert_error_after(case1, &[]);
    assert_error_after(case2, &[]);
    assert_error_after(case3, &[]);
    assert_error_after(case4, &[]);
    assert_error_after(case5, &[]);
    assert_error_after(case6, &[]);
    assert_error_after(case7, &[]);
    {
        assert_ok_after(case8, &[]);
        assert_eq!(case8.parse::<f64>().unwrap(), f64::NEG_INFINITY);
    }
    {
        assert_ok_after(case9, &[]);
        assert_eq!(case9.parse::<f64>().unwrap(), f64::INFINITY);
    }
}

#[test]
fn invalid_literals() {
    let case1 = "nul";
    let case2 = "nothing";
    let case3 = "truth";
    let case4 = "fALSEhood";

    assert_error_after(case1, &[]);
    assert_error_after(case2, &[]);
    assert_error_after(case3, &[]);
    assert_error_after(case4, &[]);
}

#[test]
fn null_value() {
    assert_tokens("null", &[JsonToken::Null]);
}

#[test]
fn true_value() {
    assert_tokens("true", &[JsonToken::True]);
}

#[test]
fn false_value() {
    assert_tokens("false", &[JsonToken::False]);
}

#[test]
fn simple_object() {
    assert_tokens(
        "{'x': 'y'}",
        &[
            JsonToken::StartObject,
            JsonToken::Name(String::from("x")),
            JsonToken::StringValue(String::from("y")),
            JsonToken::EndObject,
        ],
    );
}

#[test]
fn invalid_structure() {
    let case1 = ("[10, 20", 3);
    let case2 = ("[10,", 2);
    let case3 = ("[10:20]", 2);
    let case4 = ("[", 1);
    let case5 = ("[,", 1);
    let case6 = ("{", 1);
    let case7 = ("{,", 1);
    let case8 = ("{[", 1);
    let case9 = ("{{", 1);
    let case10 = ("{0", 1);
    let case11 = ("{null", 1);
    let case12 = ("{false", 1);
    let case13 = ("{true", 1);
    let case14 = ("}", 0);
    let case15 = ("]", 0);
    let case16 = (",", 0);
    let case17 = ("'foo' 'bar'", 1);
    let case18 = (":", 0);
    let case19 = ("'foo", 0); // a string that does not end
    let case20 = ("{ 'foo' }", 2);
    let case21 = ("{ x:1", 1); // a property name needs its quotes
    let case22 = ("{]", 1);
    let case23 = ("[}", 1);
    let case24 = ("[1,", 2);
    let case25 = ("{'x':0]", 3);
    let case26 = ("{ 'foo': }", 2);
    let case27 = ("{ 'foo':'bar', }", 3);

    assert_structure(case1.0, case1.1);
    assert_structure(case2.0, case2.1);
    assert_structure(case3.0, case3.1);
    assert_structure(case4.0, case4.1);
    assert_structure(case5.0, case5.1);
    assert_structure(case6.0, case6.1);
    assert_structure(case7.0, case7.1);
    assert_structure(case8.0, case8.1);
    assert_structure(case9.0, case9.1);
    assert_structure(case10.0, case10.1);
    assert_structure(case11.0, case11.1);
    assert_structure(case12.0, case12.1);
    assert_structure(case13.0, case13.1);
    assert_structure(case14.0, case14.1);
    assert_structure(case15.0, case15.1);
    assert_structure(case16.0, case16.1);
    assert_structure(case17.0, case17.1);
    assert_structure(case18.0, case18.1);
    assert_structure(case19.0, case19.1);
    assert_structure(case20.0, case20.1);
    assert_structure(case21.0, case21.1);
    assert_structure(case22.0, case22.1);
    assert_structure(case23.0, case23.1);
    assert_structure(case24.0, case24.1);
    assert_structure(case25.0, case25.1);
    assert_structure(case26.0, case26.1);
    assert_structure(case27.0, case27.1);
}

#[test]
fn array_mixed_type() {
    assert_tokens(
        "[1, 'foo', null, false, true, [2], {'x':'y' }]",
        &[
            JsonToken::StartArray,
            JsonToken::Number(String::from("1")),
            JsonToken::StringValue(String::from("foo")),
            JsonToken::Null,
            JsonToken::False,
            JsonToken::True,
            JsonToken::StartArray,
            JsonToken::Number(String::from("2")),
            JsonToken::EndArray,
            JsonToken::StartObject,
            JsonToken::Name(String::from("x")),
            JsonToken::StringValue(String::from("y")),
            JsonToken::EndObject,
            JsonToken::EndArray,
        ],
    );
}

#[test]
fn object_mixed_type() {
    assert_tokens(
        "{'a': 1, 'b': 'bar', 'c': null, 'd': false, 'e': true, 'f': [2], 'g': {'x':'y' }}",
        &[
            JsonToken::StartObject,
            JsonToken::Name(String::from("a")),
            JsonToken::Number(String::from("1")),
            JsonToken::Name(String::from("b")),
            JsonToken::StringValue(String::from("bar")),
            JsonToken::Name(String::from("c")),
            JsonToken::Null,
            JsonToken::Name(String::from("d")),
            JsonToken::False,
            JsonToken::Name(String::from("e")),
            JsonToken::True,
            JsonToken::Name(String::from("f")),
            JsonToken::StartArray,
            JsonToken::Number(String::from("2")),
            JsonToken::EndArray,
            JsonToken::Name(String::from("g")),
            JsonToken::StartObject,
            JsonToken::Name(String::from("x")),
            JsonToken::StringValue(String::from("y")),
            JsonToken::EndObject,
            JsonToken::EndObject,
        ],
    );
}

#[test]
fn next_after_end_document_error() {
    let mut tokenizer = JsonTokenizer::new("null");
    assert_eq!(tokenizer.next().unwrap(), JsonToken::Null);
    assert_eq!(tokenizer.next().unwrap(), JsonToken::EndDocument);
    assert!(
        matches!(tokenizer.next(), Err(_)),
        "Expected an Err, but got an Ok"
    );
}

#[test]
fn can_push_back_end_document() {
    let mut tokenizer = JsonTokenizer::new("null");
    assert_eq!(tokenizer.next().unwrap(), JsonToken::Null);
    assert_eq!(tokenizer.next().unwrap(), JsonToken::EndDocument);
    tokenizer.push_back(JsonToken::EndDocument).unwrap();
    assert_eq!(tokenizer.next().unwrap(), JsonToken::EndDocument);
    assert!(
        matches!(tokenizer.next(), Err(_)),
        "Expected an Err, but got an Ok"
    );
}

#[test]
fn skip_value() {
    let case1 = "{ 'skip': 0, 'next': 1";
    let case2 = "{ 'skip': [0, 1, 2], 'next': 1";
    let case3 = "{ 'skip': 'x', 'next': 1";
    let case4 = "{ 'skip': ['x', 'y'], 'next': 1";
    let case5 = "{ 'skip': {'a': 0}, 'next': 1";
    let case6 = "{ 'skip': {'a': [0, {'b':[]}]}, 'next': 1";

    assert_skip(case1);
    assert_skip(case2);
    assert_skip(case3);
    assert_skip(case4);
    assert_skip(case5);
    assert_skip(case6);
}
