use wyrcan::cmdline::{CmdLine, CmdLineError};

#[test]
fn empty() {
    let cmdline = CmdLine::new(String::new()).unwrap();
    assert_eq!(cmdline.args().next(), None);
}

#[test]
fn noquotes() {
    let cmdline = CmdLine::new(" \t foo=bar bat\tbaz=qux quz\t".to_string()).unwrap();
    let mut args = cmdline.args();
    assert_eq!(args.next(), Some((Some("foo".to_string()), "bar".to_string())));
    assert_eq!(args.next(), Some((None, "bat".to_string())));
    assert_eq!(args.next(), Some((Some("baz".to_string()), "qux".to_string())));
    assert_eq!(args.next(), Some((None, "quz".to_string())));
    assert_eq!(args.next(), None);
}

#[test]
fn quotes() {
    let cmdline = CmdLine::new("\t  foo=\"bar bat\" \"baz=qux\tquz\"  \t".to_string()).unwrap();
    let mut args = cmdline.args();
    assert_eq!(args.next(), Some((Some("foo".to_string()), "bar bat".to_string())));
    assert_eq!(args.next(), Some((Some("baz".to_string()), "qux\tquz".to_string())));
    assert_eq!(args.next(), None);
}

#[test]
fn non_ascii_is_invalid_data() {
    assert!(matches!(CmdLine::new("caf\u{e9}".to_string()), Err(CmdLineError::InvalidData)));
}

#[test]
fn whitespace_inside_quotes_keeps_token_whole() {
    let cmdline = CmdLine::new("a=\"b c d\" e".to_string()).unwrap();
    let mut args = cmdline.args();
    assert_eq!(args.next(), Some((Some("a".to_string()), "b c d".to_string())));
    assert_eq!(args.next(), Some((None, "e".to_string())));
    assert_eq!(args.next(), None);
}

#[test]
fn later_equals_stay_in_value() {
    let cmdline = CmdLine::new("k=a=b=c".to_string()).unwrap();
    let mut args = cmdline.args();
    assert_eq!(args.next(), Some((Some("k".to_string()), "a=b=c".to_string())));
    assert_eq!(args.next(), None);
}

#[test]
fn leading_equals_token_is_bare_value() {
    let cmdline = CmdLine::new("=x".to_string()).unwrap();
    let mut args = cmdline.args();
    assert_eq!(args.next(), Some((None, "=x".to_string())));
    assert_eq!(args.next(), None);

    // A leading `=` keeps the whole token a value, later `=` included.
    let cmdline = CmdLine::new("=x=y".to_string()).unwrap();
    let mut args = cmdline.args();
    assert_eq!(args.next(), Some((None, "=x=y".to_string())));
    assert_eq!(args.next(), None);
}

#[test]
fn fully_quoted_pair_is_stripped() {
    let cmdline = CmdLine::new("\"k=v w\"".to_string()).unwrap();
    let mut args = cmdline.args();
    assert_eq!(args.next(), Some((Some("k".to_string()), "v w".to_string())));
    assert_eq!(args.next(), None);
}
