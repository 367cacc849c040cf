use doxygen_rs::{lex, LexItem};

fn chars(s: &str) -> Vec<char> {
    s.chars().collect()
}

#[test]
fn basic_notation() {
    let result = lex("@name Memory Management".into());
    assert_eq!(
        result,
        vec![
            LexItem::At(chars("@")),
            LexItem::Word(chars("name")),
            LexItem::Space,
            LexItem::Word(chars("Memory")),
            LexItem::Space,
            LexItem::Word(chars("Management"))
        ]
    );

    let result = lex("\\name Memory Management".into());
    assert_eq!(
        result,
        vec![
            LexItem::At(chars("\\")),
            LexItem::Word(chars("name")),
            LexItem::Space,
            LexItem::Word(chars("Memory")),
            LexItem::Space,
            LexItem::Word(chars("Management"))
        ]
    );

    let result = lex("\\\\name Memory Management".into());
    assert_eq!(
        result,
        vec![
            LexItem::At(chars("\\\\")),
            LexItem::Word(chars("name")),
            LexItem::Space,
            LexItem::Word(chars("Memory")),
            LexItem::Space,
            LexItem::Word(chars("Management"))
        ]
    );
}

#[test]
fn basic_groups() {
    let result = lex("@{\n* @name Memory Management\n@}".into());
    assert_eq!(
        result,
        vec![
            LexItem::At(chars("@")),
            LexItem::Paren('{'),
            LexItem::NewLine,
            LexItem::Word(chars("*")),
            LexItem::Space,
            LexItem::At(chars("@")),
            LexItem::Word(chars("name")),
            LexItem::Space,
            LexItem::Word(chars("Memory")),
            LexItem::Space,
            LexItem::Word(chars("Management")),
            LexItem::NewLine,
            LexItem::At(chars("@")),
            LexItem::Paren('}')
        ]
    );
}

#[test]
fn spaces_collapse_and_urls_are_single_tokens() {
    let result = lex("a   https://x.org/p b".into());
    assert_eq!(
        result,
        vec![
            LexItem::Word(chars("a")),
            LexItem::Space,
            LexItem::Url(chars("https://x.org/p")),
            LexItem::Space,
            LexItem::Word(chars("b"))
        ]
    );
}

#[test]
fn html_tags_are_rewritten() {
    let result = lex("<br><i>".into());
    assert_eq!(
        result,
        vec![LexItem::Word(chars("<br>")), LexItem::Word(chars("\\<i\\>"))]
    );
    let result = lex("a<3".into());
    assert_eq!(result, vec![LexItem::Word(chars("a")), LexItem::Word(chars("<3"))]);
}
