//! Keymap tables.

use loom::error::Error;
use loom::keymap::Keymap;

fn complaint(csv: &str) -> String {
    match Keymap::from_csv(csv) {
        Err(Error::Keymap(text)) => text,
        other => panic!("unexpected {:?}", other.map(|k| k.len())),
    }
}

#[test]
fn parses_and_ignores_comments_and_blanks() {
    let csv = "# header comment\n\n7,11\n29,30\n  66 , 28 \n";
    let km = Keymap::from_csv(csv).unwrap();
    assert_eq!(km.len(), 3);
    assert_eq!(km.get(7), Some(11));
    assert_eq!(km.get(29), Some(30));
    assert_eq!(km.get(66), Some(28)); // whitespace around fields tolerated
}

#[test]
fn unmapped_is_none() {
    let km = Keymap::from_csv("29,30\n").unwrap();
    assert_eq!(km.get(999), None);
}

#[test]
fn rejects_malformed_rows() {
    assert!(Keymap::from_csv("29\n").is_err());
    assert!(Keymap::from_csv("29,notanumber\n").is_err());
    assert!(Keymap::from_csv("x,30\n").is_err());
}

#[test]
fn the_last_row_for_a_key_counts() {
    let km = Keymap::from_csv("1,2\n1,3\r\n-4,+5").unwrap();
    assert_eq!(km.len(), 2);
    assert_eq!(km.get(1), Some(3));
    assert_eq!(km.get(-4), Some(5));
}

#[test]
fn an_empty_table() {
    let km = Keymap::from_csv("  # nothing\n\n").unwrap();
    assert!(km.is_empty());
    assert_eq!(km.len(), 0);
    assert!(!Keymap::from_csv("0,0").unwrap().is_empty());
    assert!(Keymap::default().is_empty());
}

#[test]
fn complaints_name_the_line_and_quote_the_field() {
    assert_eq!(complaint("1,2\n29\n"), "line 2: expected 'from,to'");
    // The field is shown as a quoted literal.
    assert_eq!(
        complaint("# c\nq\"x,30\n"),
        "line 2: bad 'from' value \"q\\\"x\""
    );
    assert_eq!(
        complaint("5, a\tb \n"),
        "line 1: bad 'to' value \"a\\tb\""
    );
    // The first bad line is the one reported.
    assert_eq!(
        complaint("x,1\n1,y\n"),
        "line 1: bad 'from' value \"x\""
    );
}

#[test]
fn numbers_out_of_range_are_rejected() {
    let km = Keymap::from_csv("9223372036854775807,-9223372036854775808").unwrap();
    assert_eq!(km.get(i64::MAX), Some(i64::MIN));
    assert!(Keymap::from_csv("9223372036854775808,1").is_err());
    assert!(Keymap::from_csv("1,-9223372036854775809").is_err());
    assert_eq!(Keymap::from_csv("1,2,3").unwrap().get(1), Some(2));
}
