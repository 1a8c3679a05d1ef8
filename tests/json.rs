use rtools::json::{JsonError, Parser};

#[test]
fn cursor_moves_and_skips() {
    let mut p = Parser::new("  [ 1,\t2 ]");
    assert_eq!(p.peek(), Some(' '));
    p.skip_whitespace();
    assert_eq!(p.peek(), Some('['));
    assert_eq!(p.next(), Some('1'));
    assert_eq!(p.next_no_skip(), Some(','));
    assert_eq!(p.next_no_skip(), Some('\t'));
    assert_eq!(p.next(), Some('2'));
    assert_eq!(p.next(), Some(']'));
    assert!(!p.end_reached());
    assert_eq!(p.next(), None);
    assert!(p.end_reached());
    assert_eq!(p.next_no_skip(), None);
}

#[test]
fn empty_cursor() {
    let mut p = Parser::new("   ");
    p.skip_whitespace();
    assert!(p.end_reached());
    assert_eq!(p.peek(), None);
    assert_ne!(JsonError::Empty, JsonError::InvalidChar(' ', 0));
}

use rtools::json::JsonObject::{self, Array, Bool, JsonString, Null, Number, Object};

fn test_read(s: &str) -> Result<JsonObject, JsonError> {
    let mut parser = Parser::new(s);
    parser.partial_read(false)
}

fn num(s: &str) -> JsonObject {
    Number(s.to_string())
}

#[test]
fn lib_test_empty() {
    assert_eq!(test_read(""), Err(JsonError::Empty));
    assert_eq!(test_read("    "), Err(JsonError::Empty));
    assert_eq!(test_read("   \n\t \t   "), Err(JsonError::Empty));
}

#[test]
fn lib_test_read_number() {
    assert_eq!(test_read("0").unwrap(), num("0"));
    assert_eq!(test_read("0.00").unwrap(), num("0.00"));
    assert_eq!(test_read("10").unwrap(), num("10"));
    assert_eq!(test_read("5632").unwrap(), num("5632"));
    assert_eq!(test_read("1.2e3").unwrap(), num("1.2e3"));
    assert_eq!(test_read("4324.6234").unwrap(), num("4324.6234"));
    assert_eq!(test_read("-4324.6234").unwrap(), num("-4324.6234"));
    assert_eq!(test_read("0.123456789e-12").unwrap(), num("0.123456789e-12"));
    assert_eq!(test_read("4324. 6234"), Err(JsonError::InvalidNumber));
}

#[test]
fn numbers_refused() {
    assert_eq!(test_read("012"), Err(JsonError::InvalidNumber));
    assert_eq!(test_read("+"), Err(JsonError::InvalidNumber));
    assert_eq!(test_read("1e"), Err(JsonError::InvalidNumber));
}

#[test]
fn lib_test_read_fixed_strings() {
    assert_eq!(test_read("false").unwrap(), Bool(false));

    assert_eq!(test_read("fa lse"), Err(JsonError::InvalidChar(' ', 2)));

    assert_eq!(test_read("true").unwrap(), Bool(true));
    assert_eq!(test_read("null").unwrap(), Null);
    assert_eq!(test_read("treadu"), Err(JsonError::InvalidChar('e', 2)));
    assert_eq!(test_read("tru"), Err(JsonError::Empty));
}

#[test]
fn lib_test_read_string() {
    let tests = vec![
        ("\"Hello World\"", "Hello World"),
        ("  \"Hello World\"  ", "Hello World"),
        ("\"Hello \\\\ \\/\\n Wo\\\\rld\"", "Hello \\ /\n Wo\\rld"),
        ("\"deF \\\\ Abc\"", "deF \\ Abc"),
        ("\"deF2 \\\\ 3Abc\"", "deF2 \\ 3Abc"),
        ("\"\\n\"", "\n"),
        ("\"Json\"", "Json"),
        ("\"Json\"", "Json"),
        ("\"ä\"", "ä"),
        ("\"\\u00e4\"", "ä"),
        ("\"𝄞\"", "𝄞"),
        ("\"\\uD834\\uDD1E\"", "𝄞"),
    ];

    for (input, output) in tests {
        assert_eq!(test_read(input).unwrap(), JsonString(output.to_string()));
    }
}

#[test]
fn strings_refused() {
    assert_eq!(test_read("\"abc"), Err(JsonError::UnterminatedString));
    assert_eq!(test_read("\"a\tb\""), Err(JsonError::InvalidChar('\t', 2)));
    assert_eq!(test_read("\"\\x\""), Err(JsonError::InvalidChar('x', 2)));
    assert_eq!(test_read("\"\\u12G4\""), Err(JsonError::InvalidCodepoint));
    assert_eq!(test_read("\"\\uD834\""), Err(JsonError::InvalidCodepoint));
    assert_eq!(test_read("\"\\"), Err(JsonError::Empty));
}

#[test]
fn lib_test_read_array() {
    assert_eq!(test_read("[]").unwrap(), Array(Vec::new()));
    assert_eq!(test_read("[1,2]").unwrap(), Array(vec![num("1"), num("2")]));
    assert_eq!(test_read("[3,]"), Err(JsonError::InvalidChar(']', 3)));
    assert_eq!(test_read("[3, , 3.2]"), Err(JsonError::InvalidChar(',', 4)));
    assert_eq!(
        test_read("[\"ciao\", 5.423]").unwrap(),
        Array(vec![JsonString("ciao".to_string()), num("5.423")])
    );

    let res = test_read(
        "[\"JSON Test Pattern pass1\", {\"object with 1 member\":[\"array with 1 element\"]}]",
    );
    assert_eq!(res.is_ok(), true);
    assert_eq!(test_read("[1"), Err(JsonError::UnterminatedArray));
    assert_eq!(test_read("[,1]"), Err(JsonError::InvalidChar(',', 1)));
}

#[test]
fn test_read_object() {
    assert_eq!(test_read("{}").unwrap(), Object(Vec::new()));
    assert_eq!(
        test_read("{\"test\": true}").unwrap(),
        Object(vec![("test".to_string(), Bool(true))])
    );
    assert_eq!(
        test_read("{\"test\": true, \"other\": 42.13, \"testnull\": null}").unwrap(),
        Object(vec![
            ("test".to_string(), Bool(true)),
            ("other".to_string(), num("42.13")),
            ("testnull".to_string(), Null)
        ])
    );

    assert_eq!(
        test_read("{\"object with 1 member\":[\"array with 1 element\"]}").unwrap(),
        Object(vec![(
            "object with 1 member".to_string(),
            Array(vec![JsonString("array with 1 element".to_string())])
        )])
    );
    assert_eq!(test_read("{\"a\" 1}"), Err(JsonError::NonStringAsKey));
    assert_eq!(test_read("{\"a\": 1,}"), Err(JsonError::InvalidChar('}', 8)));
    assert_eq!(test_read("{\"a\": 1"), Err(JsonError::UnterminatedObject));
}

#[test]
fn read_whole_texts() {
    assert_eq!(JsonObject::read(" [true] ").unwrap(), Array(vec![Bool(true)]));
    assert_eq!(JsonObject::read("false"), Err(JsonError::InvalidChar('f', 0)));
    assert_eq!(JsonObject::read("[1] x"), Err(JsonError::InvalidChar('x', 4)));
    assert_eq!(JsonObject::read("  "), Err(JsonError::Empty));
}
