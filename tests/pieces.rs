use doxygen_rs::{consume_url_chars, emoji_text, generate_notation, url_char, GenState, ParseError};

fn chars(s: &str) -> Vec<char> {
    s.chars().collect()
}

#[test]
fn url_scan_stops_at_the_first_other_character() {
    let v = chars("xhttps://a.b/c?d=1 rest");
    assert_eq!(consume_url_chars(&v, 1), 18);
    let v = chars("ab");
    assert_eq!(consume_url_chars(&v, 2), 2);
    let v = chars("é1<");
    assert_eq!(consume_url_chars(&v, 0), 2);
}

#[test]
fn emoji_text_follows_the_table() {
    assert_eq!(emoji_text(chars("x"), Some(chars("😌"))), Ok(chars("😌")));
    assert_eq!(emoji_text(chars("x"), None), Err(ParseError::UnknownSymbol(chars("x"))));
}

#[test]
fn headings_come_once() {
    let st = GenState::new();
    let (first, st) = generate_notation(&chars("param"), &vec![], &vec![chars("x")], st).unwrap();
    assert_eq!(first, chars("# Arguments\n\n* `x` -"));
    assert!(st.already_added_params);
    let (second, st) = generate_notation(&chars("param"), &vec![chars("out")], &vec![chars("y")], st)
        .unwrap();
    assert_eq!(second, chars("* `y` (direction out) -"));
    let (ret, st) = generate_notation(&chars("result"), &vec![], &vec![], st).unwrap();
    assert_eq!(ret, chars("# Returns\n\n"));
    let (ret2, _) = generate_notation(&chars("retval"), &vec![], &vec![chars("0")], st).unwrap();
    assert_eq!(ret2, chars("* `0` -"));
}

#[test]
fn inline_directives() {
    let st = GenState::new();
    let cases = [
        ("note", "> **Note:** "),
        ("since", "> Available since: "),
        ("deprecated", "> **Deprecated** "),
        ("remarks", "> "),
        ("par", "# "),
        ("details", "\n\n"),
        ("brief", ""),
        ("nonsense", ""),
    ];
    for (tag, out) in cases {
        let (x, _) = generate_notation(&chars(tag), &vec![], &vec![], st).unwrap();
        assert_eq!(x, chars(out));
    }
}

#[test]
fn url_characters() {
    assert!(url_char('a', true));
    assert!(url_char('é', true));
    assert!(url_char('#', false));
    assert!(url_char('=', false));
    assert!(!url_char(' ', false));
    assert!(!url_char('<', false));
    assert!(!url_char('x', false));
}
