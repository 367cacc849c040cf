//! What becomes of text that holds no directive.
use vstd::prelude::*;

use crate::generator::{render_from, markdown_of, GenState};
use crate::lexer::{
    closing_tag, html_word, lemma_url_run_bound, lex_from, push_word_char, url_ahead, url_run,
    Token,
};
use crate::parser::{parse_from, push_text, token_text, Item};

verus! {

/// Text without directive markers (`@`, `\`) and without two spaces in a row.
pub open spec fn is_plain(s: Seq<char>) -> bool {
    &&& forall|k: int| 0 <= k < s.len() ==> s[k] != '@' && s[k] != '\\'
    &&& forall|k: int| 0 <= k < s.len() - 1 ==> !(#[trigger] s[k] == ' ' && s[k + 1] == ' ')
}

/// Plain text once addresses are put between angle brackets and HTML tags are escaped (`<br>`
/// is kept).
pub open spec fn plain_text(s: Seq<char>) -> Seq<char>
    decreases s.len(),
    via plain_text_decreases
{
    if s.len() == 0 {
        Seq::empty()
    } else {
        let c = s[0];
        let rest = s.drop_first();
        if c == '<' {
            match closing_tag(rest) {
                Some(n) => html_word(rest.take(n as int)) + plain_text(rest.skip(n + 1 as int)),
                None => seq!['<'] + plain_text(rest),
            }
        } else if c == 'h' && url_ahead(rest) {
            let n = url_run(rest);
            "<"@ + s.take(n + 1 as int) + ">"@ + plain_text(rest.skip(n as int))
        } else {
            seq![c] + plain_text(rest)
        }
    }
}

#[via_fn]
proof fn plain_text_decreases(s: Seq<char>) {
    if s.len() > 0 {
        lemma_url_run_bound(s.drop_first());
    }
}

/// How a token shows in the output.
pub open spec fn shown_token(t: Token) -> Seq<char> {
    match t {
        Token::Url(u) => "<"@ + u + ">"@,
        other => token_text(other),
    }
}

pub open spec fn shown(t: Seq<Token>) -> Seq<char>
    decreases t.len(),
{
    if t.len() == 0 {
        Seq::empty()
    } else {
        shown(t.drop_last()) + shown_token(t.last())
    }
}

pub open spec fn shown_from(t: Seq<Token>, i: nat) -> Seq<char>
    decreases t.len() - i,
{
    if i >= t.len() {
        Seq::empty()
    } else {
        shown_token(t[i as int]) + shown_from(t, i + 1)
    }
}

/// How a text or address item shows in the output.
pub open spec fn shown_item(x: Item) -> Seq<char> {
    match x {
        Item::Text(y) => y,
        Item::Url(u) => "<"@ + u + ">"@,
        _ => Seq::empty(),
    }
}

pub open spec fn items_shown(v: Seq<Item>) -> Seq<char>
    decreases v.len(),
{
    if v.len() == 0 {
        Seq::empty()
    } else {
        items_shown(v.drop_last()) + shown_item(v.last())
    }
}

pub open spec fn items_from(v: Seq<Item>, i: nat) -> Seq<char>
    decreases v.len() - i,
{
    if i >= v.len() {
        Seq::empty()
    } else {
        shown_item(v[i as int]) + items_from(v, i + 1)
    }
}

pub open spec fn no_markers(t: Seq<Token>) -> bool {
    forall|k: int| 0 <= k < t.len() ==> !(#[trigger] t[k] is At)
}

pub open spec fn simple_items(v: Seq<Item>) -> bool {
    forall|k: int| 0 <= k < v.len() ==> (#[trigger] v[k] is Text || v[k] is Url)
}

proof fn lemma_plain_skip(s: Seq<char>, k: int)
    requires
        is_plain(s),
        0 <= k <= s.len(),
    ensures
        is_plain(s.skip(k)),
{
    let r = s.skip(k);
    assert forall|j: int| 0 <= j < r.len() implies r[j] != '@' && r[j] != '\\' by {
        assert(r[j] == s[j + k]);
    }
    assert forall|j: int| 0 <= j < r.len() - 1 implies !(#[trigger] r[j] == ' ' && r[j + 1] == ' ') by {
        assert(r[j] == s[j + k] && r[j + 1] == s[j + 1 + k]);
    }
}

proof fn lemma_shown_push(t: Seq<Token>, x: Token)
    ensures
        shown(t.push(x)) == shown(t) + shown_token(x),
{
    assert(t.push(x).drop_last() =~= t);
}

proof fn lemma_lex_plain(acc: Seq<Token>, s: Seq<char>)
    requires
        is_plain(s),
        no_markers(acc),
        acc.len() > 0 && acc.last() == Token::Space ==> s.len() == 0 || s[0] != ' ',
    ensures
        shown(lex_from(acc, s)) == shown(acc) + plain_text(s),
        no_markers(lex_from(acc, s)),
    decreases s.len(),
{
    if s.len() == 0 {
        assert(shown(acc) + Seq::<char>::empty() =~= shown(acc));
    } else {
        let c = s[0];
        let rest = s.drop_first();
        lemma_url_run_bound(rest);
        lemma_plain_skip(s, 1);
        assert(rest =~= s.skip(1));
        assert(c != '@' && c != '\\');
        if c == '{' || c == '}' || c == '\n' || c == ' ' {
            let x = if c == '{' || c == '}' {
                Token::Paren(c)
            } else if c == '\n' {
                Token::NewLine
            } else {
                Token::Space
            };
            let acc2 = acc.push(x);
            if c == ' ' {
                assert(!(acc.len() > 0 && acc.last() == Token::Space));
                assert(rest.len() == 0 || rest[0] == s[1]);
            }
            lemma_shown_push(acc, x);
            assert(no_markers(acc2)) by {
                assert forall|k: int| 0 <= k < acc2.len() implies !(#[trigger] acc2[k] is At) by {
                    if k < acc.len() {
                        assert(acc2[k] == acc[k]);
                    }
                }
            }
            lemma_lex_plain(acc2, rest);
            assert(shown(acc2) + plain_text(rest) =~= shown(acc) + plain_text(s));
        } else if c == '<' {
            match closing_tag(rest) {
                Some(n) => {
                    let x = Token::Word(html_word(rest.take(n as int)));
                    let acc2 = acc.push(x);
                    lemma_shown_push(acc, x);
                    lemma_plain_skip(rest, n + 1 as int);
                    assert(no_markers(acc2)) by {
                        assert forall|k: int| 0 <= k < acc2.len() implies !(
                        #[trigger] acc2[k] is At) by {
                            if k < acc.len() {
                                assert(acc2[k] == acc[k]);
                            }
                        }
                    }
                    lemma_lex_plain(acc2, rest.skip(n + 1 as int));
                    assert(shown(acc2) + plain_text(rest.skip(n + 1 as int)) =~= shown(acc)
                        + plain_text(s));
                },
                None => {
                    let x = Token::Word(seq!['<']);
                    let acc2 = acc.push(x);
                    lemma_shown_push(acc, x);
                    assert(no_markers(acc2)) by {
                        assert forall|k: int| 0 <= k < acc2.len() implies !(
                        #[trigger] acc2[k] is At) by {
                            if k < acc.len() {
                                assert(acc2[k] == acc[k]);
                            }
                        }
                    }
                    lemma_lex_plain(acc2, rest);
                    assert(shown(acc2) + plain_text(rest) =~= shown(acc) + plain_text(s));
                },
            }
        } else if c == 'h' && url_ahead(rest) {
            let n = url_run(rest);
            let x = Token::Url(s.take(n + 1 as int));
            let acc2 = acc.push(x);
            lemma_shown_push(acc, x);
            lemma_plain_skip(rest, n as int);
            assert(no_markers(acc2)) by {
                assert forall|k: int| 0 <= k < acc2.len() implies !(#[trigger] acc2[k] is At) by {
                    if k < acc.len() {
                        assert(acc2[k] == acc[k]);
                    }
                }
            }
            lemma_lex_plain(acc2, rest.skip(n as int));
            assert(shown(acc2) + plain_text(rest.skip(n as int)) =~= shown(acc) + plain_text(s));
        } else {
            let acc2 = push_word_char(acc, c);
            if acc.len() > 0 && acc.last() is Word {
                let w = acc.last()->Word_0;
                lemma_shown_push(acc.drop_last(), Token::Word(w.push(c)));
                assert(acc.drop_last().push(acc.last()) =~= acc);
                lemma_shown_push(acc.drop_last(), acc.last());
                assert(shown(acc2) =~= shown(acc) + seq![c]);
            } else {
                lemma_shown_push(acc, Token::Word(seq![c]));
            }
            assert(no_markers(acc2)) by {
                assert forall|k: int| 0 <= k < acc2.len() implies !(#[trigger] acc2[k] is At) by {
                    if k < acc2.len() - 1 {
                        assert(acc2[k] == acc[k]);
                    }
                }
            }
            lemma_lex_plain(acc2, rest);
            assert(shown(acc2) + plain_text(rest) =~= shown(acc) + plain_text(s));
        }
    }
}

proof fn lemma_items_shown_push(v: Seq<Item>, x: Item)
    ensures
        items_shown(v.push(x)) == items_shown(v) + shown_item(x),
{
    assert(v.push(x).drop_last() =~= v);
}

proof fn lemma_parse_plain(t: Seq<Token>, i: nat, acc: Seq<Item>)
    requires
        no_markers(t),
        i <= t.len(),
        simple_items(acc),
    ensures
        parse_from(t, i, false, acc) is Ok,
        items_shown(parse_from(t, i, false, acc)->Ok_0) == items_shown(acc) + shown_from(t, i),
        simple_items(parse_from(t, i, false, acc)->Ok_0),
    decreases t.len() - i,
{
    if i >= t.len() {
        assert(items_shown(acc) + Seq::<char>::empty() =~= items_shown(acc));
    } else {
        assert(!(t[i as int] is At));
        let acc2 = match t[i as int] {
            Token::Url(u) => acc.push(Item::Url(u)),
            other => push_text(acc, token_text(other)),
        };
        match t[i as int] {
            Token::Url(u) => {
                lemma_items_shown_push(acc, Item::Url(u));
            },
            other => {
                let x = token_text(other);
                if acc.len() > 0 && acc.last() is Text {
                    let y = acc.last()->Text_0;
                    lemma_items_shown_push(acc.drop_last(), Item::Text(y + x));
                    assert(acc.drop_last().push(acc.last()) =~= acc);
                    lemma_items_shown_push(acc.drop_last(), acc.last());
                    assert(items_shown(acc2) =~= items_shown(acc) + x);
                } else {
                    lemma_items_shown_push(acc, Item::Text(x));
                }
            },
        }
        assert(simple_items(acc2)) by {
            assert forall|k: int| 0 <= k < acc2.len() implies (#[trigger] acc2[k] is Text
                || acc2[k] is Url) by {
                if k < acc2.len() - 1 {
                    assert(acc2[k] == acc[k]);
                }
            }
        }
        lemma_parse_plain(t, i + 1, acc2);
        assert(items_shown(acc2) + shown_from(t, i + 1) =~= items_shown(acc) + shown_from(t, i));
    }
}

proof fn lemma_render_plain(v: Seq<Item>, i: nat, st: GenState, acc: Seq<char>)
    requires
        simple_items(v),
        i <= v.len(),
    ensures
        render_from(v, i, st, false, acc) == Ok::<Seq<char>, crate::parser::Failure>(
            acc + items_from(v, i),
        ),
    decreases v.len() - i,
{
    if i >= v.len() {
        assert(acc + Seq::<char>::empty() =~= acc);
    } else {
        assert(v[i as int] is Text || v[i as int] is Url);
        lemma_render_plain(v, i + 1, st, acc + shown_item(v[i as int]));
        match v[i as int] {
            Item::Url(u) => {
                assert(acc + "<"@ + u + ">"@ =~= acc + shown_item(v[i as int]));
            },
            _ => {},
        }
        assert(acc + shown_item(v[i as int]) + items_from(v, i + 1) =~= acc + items_from(v, i));
    }
}

proof fn lemma_shown_split(t: Seq<Token>, i: nat)
    requires
        i <= t.len(),
    ensures
        shown(t.take(i as int)) + shown_from(t, i) == shown(t),
    decreases t.len() - i,
{
    if i == t.len() {
        assert(t.take(i as int) =~= t);
        assert(shown(t) + Seq::<char>::empty() =~= shown(t));
    } else {
        lemma_shown_split(t, i + 1);
        assert(t.take(i + 1 as int).drop_last() =~= t.take(i as int));
        assert(shown(t.take(i as int)) + shown_from(t, i) =~= shown(t.take(i + 1 as int)) + shown_from(
            t,
            i + 1,
        ));
    }
}

proof fn lemma_items_split(v: Seq<Item>, i: nat)
    requires
        i <= v.len(),
    ensures
        items_shown(v.take(i as int)) + items_from(v, i) == items_shown(v),
    decreases v.len() - i,
{
    if i == v.len() {
        assert(v.take(i as int) =~= v);
        assert(items_shown(v) + Seq::<char>::empty() =~= items_shown(v));
    } else {
        lemma_items_split(v, i + 1);
        assert(v.take(i + 1 as int).drop_last() =~= v.take(i as int));
        assert(items_shown(v.take(i as int)) + items_from(v, i) =~= items_shown(v.take(i + 1 as int))
            + items_from(v, i + 1));
    }
}

/// Text without directives comes out as it went in, but for addresses, which are put between
/// angle brackets, and HTML tags, which are escaped (`<br>` is kept). Runs of spaces are
/// collapsed to one, so the text is taken without two spaces in a row.
pub proof fn lemma_plain_prose(s: Seq<char>)
    requires
        is_plain(s),
    ensures
        markdown_of(s) == Ok::<Seq<char>, crate::parser::Failure>(plain_text(s)),
{
    let e: Seq<Token> = Seq::empty();
    assert(no_markers(e));
    lemma_lex_plain(e, s);
    assert(Seq::<char>::empty() + plain_text(s) =~= plain_text(s));
    let t = lex_from(e, s);
    let none: Seq<Item> = Seq::empty();
    assert(simple_items(none));
    lemma_parse_plain(t, 0, none);
    lemma_shown_split(t, 0);
    assert(t.take(0) =~= e);
    assert(Seq::<char>::empty() + shown_from(t, 0) =~= shown_from(t, 0));
    let v = parse_from(t, 0, false, none)->Ok_0;
    lemma_render_plain(v, 0, GenState::initial(), Seq::empty());
    lemma_items_split(v, 0);
    assert(v.take(0) =~= none);
    assert(Seq::<char>::empty() + items_from(v, 0) =~= items_from(v, 0));
}

} // verus!
