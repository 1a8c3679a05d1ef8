use rtools::wc::{count_buf, decimal_string, sum_counts, Args, CountResult};

fn args(bytes: bool, lines: bool, chars: bool, words: bool) -> Args {
    Args {
        exe_name: String::from("rwc"),
        count_bytes: bytes,
        count_lines: lines,
        count_chars: chars,
        count_words: words,
        paths: vec![],
    }
}

#[test]
fn counts_of_a_text() {
    let c = count_buf("f.txt", "hello world\nsecond  line\näb");
    assert_eq!(c.path, "f.txt");
    assert_eq!(c.lines, 3);
    assert_eq!(c.words, 5);
    assert_eq!(c.chars, 27);
    assert_eq!(c.bytes, 28);
}

#[test]
fn counts_of_nothing_and_of_newlines() {
    let c = count_buf("", "");
    assert_eq!((c.lines, c.words, c.chars, c.bytes), (0, 0, 0, 0));
    let c = count_buf("", "\n\n");
    assert_eq!((c.lines, c.words, c.chars, c.bytes), (2, 0, 2, 2));
}

#[test]
fn print_default_and_selected() {
    let c = count_buf("f", "a b\n");
    assert_eq!(c.print(&args(false, false, false, false)), "1\t2\t4\tf");
    assert_eq!(c.print(&args(false, true, false, false)), "1\tf");
    assert_eq!(c.print(&args(true, false, true, false)), "4\tf");
    assert_eq!(c.print(&args(true, false, false, true)), "2\t4\tf");
}

#[test]
fn sum_skips_failed_inputs() {
    let a = count_buf("a", "one two\n");
    let b = count_buf("b", "three\n");
    let total = sum_counts(vec![Ok(a), Err(String::from("missing")), Ok(b)]);
    assert_eq!(total.path, "total");
    assert_eq!(total.lines, 2);
    assert_eq!(total.words, 3);
    assert_eq!(total.bytes, 14);
    let added = CountResult::new("x").add(count_buf("y", "z"));
    assert_eq!(added.path, "x");
    assert_eq!(added.chars, 1);
}

#[test]
fn decimals() {
    assert_eq!(decimal_string(0), "0");
    assert_eq!(decimal_string(907), "907");
    assert_eq!(decimal_string(u64::MAX), "18446744073709551615");
}
