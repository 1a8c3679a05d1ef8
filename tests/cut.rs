use rtools::cut::{Command, Cut};
use rtools::field::{parse_ranges, Field, ParseFieldError};

#[test]
fn single_field() {
    let actual = parse_ranges("1");
    assert_eq!(vec![Field::single(1)], actual);
}

#[test]
fn field_multiple_fields() {
    let actual = parse_ranges("1,3");
    assert_eq!(vec![Field::single(1), Field::single(3)], actual);
}

#[test]
fn multiple_fields_whitespace() {
    let actual = parse_ranges("1,3 4\t  5");
    assert_eq!(
        vec![
            Field::single(1),
            Field::single(3),
            Field::single(4),
            Field::single(5)
        ],
        actual
    );
}

#[test]
fn field_ranges() {
    let actual = parse_ranges("1-4");
    assert_eq!(vec![Field::range(1, 4)], actual);

    let actual = parse_ranges("-4");
    assert_eq!(
        vec![Field {
            from: None,
            to: Some(4)
        }],
        actual
    );

    let actual = parse_ranges("1-");
    assert_eq!(
        vec![Field {
            from: Some(1),
            to: None
        }],
        actual
    );
}

#[test]
fn parse_refuses_what_is_no_entry() {
    assert_eq!(Field::parse("x"), Err(ParseFieldError));
    assert_eq!(Field::parse(""), Err(ParseFieldError));
    assert_eq!(Field::parse("12"), Ok(Field::single(12)));
    assert_eq!(Field::parse("+7"), Ok(Field::single(7)));
    assert_eq!(parse_ranges("2,,x,5-"), vec![Field::single(2), Field::from(5)]);
    assert_eq!(ParseFieldError.message(), "illegal list value");
}

#[test]
fn field_values_and_bounds() {
    assert_eq!(Field::range(2, 4).values(10), vec![2, 3, 4]);
    assert_eq!(Field::from(8).values(10), vec![8, 9, 10]);
    assert_eq!(Field::to(2).values(10), vec![1, 2]);
    assert_eq!(Field::range(5, 3).values(10), Vec::<usize>::new());
    assert!(Field::to(2).is_from_start());
    assert!(!Field::to(2).is_till_end());
    assert!(Field::from(2).is_till_end());
}

#[test]
fn simple_single_field() {
    let cut = Cut {
        ranges: vec![Field::single(2)],
        ..Cut::default()
    };
    let result = cut.execute_line("test\texpected\tfield");
    assert_eq!("expected", result.unwrap());
}

#[test]
fn simple_custom_delimiter() {
    let cut = Cut {
        ranges: vec![Field::single(2)],
        delimiter: ',',
        ..Cut::default()
    };
    let result = cut.execute_line("test,expected,field");
    assert_eq!("expected", result.unwrap());
}

#[test]
fn lib_multiple_fields() {
    let cut = Cut {
        ranges: vec![Field::single(2), Field::single(1)],
        delimiter: ',',
        ..Cut::default()
    };
    let result = cut.execute_line("test,expected,field");
    assert_eq!("test,expected", result.unwrap());
}

#[test]
fn whitespace() {
    let cut = Cut {
        ranges: vec![Field::single(1), Field::single(2)],
        whitespace: true,
        ..Cut::default()
    };
    let result = cut.execute_line("test\texpected  field");
    assert_eq!("test\texpected", result.unwrap());
}

#[test]
fn lib_ranges() {
    let cut = Cut {
        ranges: vec![Field::from(9), Field::to(2), Field::range(5, 7)],
        delimiter: ',',
        suppress: true,
        ..Cut::default()
    };
    let result = cut.execute_line("no delimiter in sight");
    assert!(result.is_none());
}

#[test]
fn bytes() {
    let cut = Cut {
        ranges: vec![Field::from(6)],
        command: Command::Bytes,
        ..Cut::default()
    };
    let result = cut.execute_line("test with bytes");
    assert_eq!("with bytes", result.unwrap());
}

#[test]
fn chars() {
    let cut = Cut {
        ranges: vec![Field::range(3, 6)],
        command: Command::Chars,
        ..Cut::default()
    };
    let result = cut.execute_line("test with chars");
    assert_eq!("st w", result.unwrap());
}

#[test]
fn bytes_that_split_a_character() {
    let cut = Cut {
        ranges: vec![Field::single(1)],
        command: Command::Bytes,
        ..Cut::default()
    };
    assert_eq!(cut.execute_line("äb"), None);
}

#[test]
fn repeated_and_zero_fields() {
    let cut = Cut {
        ranges: vec![Field::single(3), Field::single(0), Field::range(1, 3)],
        delimiter: ':',
        ..Cut::default()
    };
    assert_eq!(cut.execute_line("a:b:c").unwrap(), "a:b:c:c");
    assert_eq!(cut.compute_ranges(3), vec![0, 1, 2, 3, 3]);
    assert_eq!(cut.execute(vec!['x', 'y', 'z']), vec!['x', 'y', 'z', 'z']);
}

#[test]
fn unsuppressed_line_without_delimiter() {
    let cut = Cut {
        ranges: vec![Field::single(1)],
        delimiter: ',',
        ..Cut::default()
    };
    assert_eq!(cut.execute_line("no delimiter").unwrap(), "no delimiter");
}

#[test]
fn field_from_given_captures() {
    let caps = Some((Some(String::from("3")), Some(String::from("-")), None));
    assert_eq!(Field::from_captures("3-", &caps), Ok(Field::from(3)));
    let caps = Some((Some(String::from("3")), None, None));
    assert_eq!(Field::from_captures("3", &caps), Ok(Field::single(3)));
    assert_eq!(Field::from_captures("3x", &caps), Err(ParseFieldError));
    let caps = Some((None, Some(String::from("-")), Some(String::from("99999999999999999999999"))));
    assert_eq!(Field::from_captures("-99999999999999999999999", &caps), Ok(Field { from: None, to: None }));
    assert_eq!(Field::from_captures("", &None), Err(ParseFieldError));
}
