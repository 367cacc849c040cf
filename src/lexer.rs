//! Splits raw comment text into tokens.
use vstd::prelude::*;

use crate::text::{chars_of, eq_str, push_chars, push_str, slice_of, starts_with, starts_with_at, string_from};

verus! {

/// A token of the comment text.
#[derive(Debug, Clone, PartialEq, Eq)]
pub enum LexItem {
    /// A directive introducer: `@`, `\` or an escaped `\\`.
    At(Vec<char>),
    /// A `{` or a `}`.
    Paren(char),
    /// A run of ordinary characters.
    Word(Vec<char>),
    /// An absolute `http://` or `https://` address.
    Url(Vec<char>),
    /// One or more spaces.
    Space,
    /// A line break.
    NewLine,
}

/// The mathematical model of a [`LexItem`].
pub enum Token {
    At(Seq<char>),
    Paren(char),
    Word(Seq<char>),
    Url(Seq<char>),
    Space,
    NewLine,
}

impl View for LexItem {
    type V = Token;

    open spec fn view(&self) -> Token {
        match self {
            LexItem::At(m) => Token::At(m@),
            LexItem::Paren(c) => Token::Paren(*c),
            LexItem::Word(w) => Token::Word(w@),
            LexItem::Url(u) => Token::Url(u@),
            LexItem::Space => Token::Space,
            LexItem::NewLine => Token::NewLine,
        }
    }
}

/// The models of a sequence of tokens.
pub open spec fn tokens(v: Seq<LexItem>) -> Seq<Token> {
    v.map_values(|t: LexItem| t@)
}

pub open spec fn is_ascii_letter(c: char) -> bool {
    ('a' <= c && c <= 'z') || ('A' <= c && c <= 'Z')
}

/// Length of the run of ASCII letters that `s` starts with.
pub open spec fn letter_run(s: Seq<char>) -> nat
    decreases s.len(),
{
    if s.len() > 0 && is_ascii_letter(s[0]) {
        1 + letter_run(s.drop_first())
    } else {
        0
    }
}

/// Where `s` (the text right after a `<`) starts with `/?[a-zA-Z]+>`, the length of the tag
/// name, its optional `/` included.
pub open spec fn closing_tag(s: Seq<char>) -> Option<nat> {
    let start: nat = if s.len() > 0 && s[0] == '/' { 1 } else { 0 };
    let end = start + letter_run(s.skip(start as int));
    if end > start && end < s.len() && s[end as int] == '>' {
        Some(end)
    } else {
        None
    }
}

/// The word that stands for an HTML tag: a line break passes through, others are escaped.
pub open spec fn html_word(name: Seq<char>) -> Seq<char> {
    if name.len() == 2 && name[0] == 'b' && name[1] == 'r' {
        "<br>"@
    } else {
        "\\<"@ + name + "\\>"@
    }
}

/// What `char::is_alphanumeric` answers for `c`.
pub uninterp spec fn alphanumeric(c: char) -> bool;

/// Whether `c` may stand in an address, where `alnum` says whether it is alphanumeric.
pub open spec fn url_char_of(c: char, alnum: bool) -> bool {
    alnum || c == ':' || c == '/' || c == '-' || c == '_' || c == ',' || c == '.'
        || c == '#' || c == '%' || c == '?' || c == '[' || c == ']' || c == '@' || c == '!'
        || c == '$' || c == '&' || c == '\'' || c == '*' || c == '+' || c == ';' || c == '='
}

/// The characters that an address may hold.
pub open spec fn is_url_char(c: char) -> bool {
    url_char_of(c, alphanumeric(c))
}

/// Length of the run of address characters that `s` starts with.
pub open spec fn url_run(s: Seq<char>) -> nat
    decreases s.len(),
{
    if s.len() > 0 && is_url_char(s[0]) {
        1 + url_run(s.drop_first())
    } else {
        0
    }
}

/// Whether the text after an `h` completes an `http://` or `https://` scheme.
pub open spec fn url_ahead(rest: Seq<char>) -> bool {
    starts_with(rest, "ttp://"@) || starts_with(rest, "ttps://"@)
}

/// Appends character `c` to the word that ends `acc`, or starts a new word.
pub open spec fn push_word_char(acc: Seq<Token>, c: char) -> Seq<Token> {
    if acc.len() > 0 && acc.last() is Word {
        acc.drop_last().push(Token::Word(acc.last()->Word_0.push(c)))
    } else {
        acc.push(Token::Word(seq![c]))
    }
}

/// The tokens of `acc` followed by those that scanning `s` adds to them.
pub open spec fn lex_from(acc: Seq<Token>, s: Seq<char>) -> Seq<Token>
    decreases s.len(),
    via lex_from_decreases
{
    if s.len() == 0 {
        acc
    } else {
        let c = s[0];
        let rest = s.drop_first();
        if c == '@' {
            lex_from(acc.push(Token::At(seq!['@'])), rest)
        } else if c == '\\' {
            if acc.len() > 0 && acc.last() == Token::At(seq!['\\']) {
                lex_from(acc.drop_last().push(Token::At(seq!['\\', '\\'])), rest)
            } else {
                lex_from(acc.push(Token::At(seq!['\\'])), rest)
            }
        } else if c == '{' || c == '}' {
            lex_from(acc.push(Token::Paren(c)), rest)
        } else if c == ' ' {
            if acc.len() > 0 && acc.last() == Token::Space {
                lex_from(acc, rest)
            } else {
                lex_from(acc.push(Token::Space), rest)
            }
        } else if c == '\n' {
            lex_from(acc.push(Token::NewLine), rest)
        } else if c == '<' {
            match closing_tag(rest) {
                Some(n) => lex_from(
                    acc.push(Token::Word(html_word(rest.take(n as int)))),
                    rest.skip(n + 1 as int),
                ),
                None => lex_from(acc.push(Token::Word(seq!['<'])), rest),
            }
        } else if c == 'h' && url_ahead(rest) {
            let n = url_run(rest);
            lex_from(acc.push(Token::Url(s.take(n + 1 as int))), rest.skip(n as int))
        } else {
            lex_from(push_word_char(acc, c), rest)
        }
    }
}

#[via_fn]
proof fn lex_from_decreases(acc: Seq<Token>, s: Seq<char>) {
    if s.len() > 0 {
        lemma_url_run_bound(s.drop_first());
    }
}

pub proof fn lemma_url_run_bound(s: Seq<char>)
    ensures
        url_run(s) <= s.len(),
    decreases s.len(),
{
    if s.len() > 0 && is_url_char(s[0]) {
        lemma_url_run_bound(s.drop_first());
    }
}

/// The tokens of the text `s`.
pub open spec fn lexed(s: Seq<char>) -> Seq<Token> {
    lex_from(Seq::empty(), s)
}

/// Relies on `char::is_alphanumeric`: whether `c` is alphabetic or numeric in Unicode's sense.
#[verifier::external_body]
fn is_alphanumeric(c: char) -> (r: bool)
    ensures
        r == alphanumeric(c),
{
    c.is_alphanumeric()
}

/// Relies on `regex::Regex::new` and `regex::Regex::captures` with the pattern
/// `^(/?[a-zA-Z]+)>`, which matches at the start of `s` only, and gives as its first group the
/// tag name with its optional `/`. The pattern is valid, so `new` never fails.
#[verifier::external_body]
fn closing_tag_name(s: &str) -> (r: Option<String>)
    ensures
        r is Some <==> closing_tag(s@) is Some,
        r is Some ==> r->0@ == s@.take(closing_tag(s@)->0 as int),
{
    let pattern = regex::Regex::new("^(/?[a-zA-Z]+)>").unwrap();
    match pattern.captures(s) {
        Some(caps) => Some(caps[1].to_string()),
        None => None,
    }
}

/// Whether `c` may stand in an address, given whether it is alphanumeric.
pub fn url_char(c: char, alnum: bool) -> (r: bool)
    ensures
        r == url_char_of(c, alnum),
{
    alnum || c == ':' || c == '/' || c == '-' || c == '_' || c == ',' || c == '.' || c == '#'
        || c == '%' || c == '?' || c == '[' || c == ']' || c == '@' || c == '!' || c == '$' || c
        == '&' || c == '\'' || c == '*' || c == '+' || c == ';' || c == '='
}

/// The position where the run of address characters that starts at `from` ends.
pub fn consume_url_chars(chars: &Vec<char>, from: usize) -> (r: usize)
    requires
        from <= chars@.len(),
    ensures
        r == from + url_run(chars@.skip(from as int)),
        r <= chars@.len(),
{
    let mut j: usize = from;
    while j < chars.len() && url_char(chars[j], is_alphanumeric(chars[j]))
        invariant
            from <= j <= chars@.len(),
            url_run(chars@.skip(from as int)) == (j - from) + url_run(chars@.skip(j as int)),
        decreases chars.len() - j,
    {
        assert(chars@.skip(j as int).drop_first() =~= chars@.skip(j + 1));
        j = j + 1;
    }
    j
}

proof fn lemma_tokens_push(v: Seq<LexItem>, t: LexItem)
    ensures
        tokens(v.push(t)) == tokens(v).push(t@),
{
    assert(tokens(v.push(t)) =~= tokens(v).push(t@));
}

proof fn lemma_tokens_drop_last(v: Seq<LexItem>)
    requires
        v.len() > 0,
    ensures
        tokens(v.drop_last()) == tokens(v).drop_last(),
        tokens(v).last() == v.last()@,
{
    assert(tokens(v.drop_last()) =~= tokens(v).drop_last());
}

fn single(c: char) -> (r: Vec<char>)
    ensures
        r@ == seq![c],
{
    let mut r: Vec<char> = Vec::new();
    r.push(c);
    assert(r@ =~= seq![c]);
    r
}

fn push_token(result: &mut Vec<LexItem>, t: LexItem)
    ensures
        tokens(final(result)@) == tokens(old(result)@).push(t@),
{
    proof {
        lemma_tokens_push(result@, t);
    }
    result.push(t);
}

/// Adds a backslash: it doubles a lone backslash marker, or starts a new marker.
fn push_backslash(result: &mut Vec<LexItem>)
    ensures
        ({
            let acc = tokens(old(result)@);
            tokens(final(result)@) == if acc.len() > 0 && acc.last() == Token::At(seq!['\\']) {
                acc.drop_last().push(Token::At(seq!['\\', '\\']))
            } else {
                acc.push(Token::At(seq!['\\']))
            }
        }),
{
    let ghost v = result@;
    if result.len() > 0 {
        proof {
            lemma_tokens_drop_last(v);
        }
    }
    match result.pop() {
        Some(LexItem::At(m)) => {
            if m.len() == 1 && m[0] == '\\' {
                assert(m@ =~= seq!['\\']);
                let mut m2 = m;
                m2.push('\\');
                assert(m2@ =~= seq!['\\', '\\']);
                push_token(result, LexItem::At(m2));
            } else {
                assert(m@ != seq!['\\']);
                push_token(result, LexItem::At(m));
                assert(tokens(result@) == tokens(v));
                push_token(result, LexItem::At(single('\\')));
            }
        },
        Some(other) => {
            push_token(result, other);
            assert(tokens(result@) =~= tokens(v));
            push_token(result, LexItem::At(single('\\')));
        },
        None => {
            push_token(result, LexItem::At(single('\\')));
        },
    }
}

/// Adds a space unless the last token already is one.
fn push_space(result: &mut Vec<LexItem>)
    ensures
        ({
            let acc = tokens(old(result)@);
            tokens(final(result)@) == if acc.len() > 0 && acc.last() == Token::Space {
                acc
            } else {
                acc.push(Token::Space)
            }
        }),
{
    let ghost v = result@;
    if result.len() > 0 {
        proof {
            lemma_tokens_drop_last(v);
        }
    }
    match result.pop() {
        Some(LexItem::Space) => {
            push_token(result, LexItem::Space);
            assert(tokens(result@) =~= tokens(v));
        },
        Some(other) => {
            push_token(result, other);
            assert(tokens(result@) =~= tokens(v));
            push_token(result, LexItem::Space);
        },
        None => {
            push_token(result, LexItem::Space);
        },
    }
}

/// Adds an ordinary character to the word that ends `result`, or starts a new word.
fn push_word_char_exec(result: &mut Vec<LexItem>, c: char)
    ensures
        tokens(final(result)@) == push_word_char(tokens(old(result)@), c),
{
    let ghost v = result@;
    if result.len() > 0 {
        proof {
            lemma_tokens_drop_last(v);
        }
    }
    match result.pop() {
        Some(LexItem::Word(w)) => {
            let mut w2 = w;
            w2.push(c);
            push_token(result, LexItem::Word(w2));
        },
        Some(other) => {
            push_token(result, other);
            assert(tokens(result@) =~= tokens(v));
            push_token(result, LexItem::Word(single(c)));
        },
        None => {
            push_token(result, LexItem::Word(single(c)));
        },
    }
}

/// Splits `input` into tokens.
pub fn lex(input: String) -> (r: Vec<LexItem>)
    ensures
        tokens(r@) == lexed(input@),
{
    let chars = chars_of(input.as_str());
    lex_chars(&chars)
}

/// Splits the characters `input` into tokens.
pub fn lex_chars(input: &Vec<char>) -> (r: Vec<LexItem>)
    ensures
        tokens(r@) == lexed(input@),
{
    let mut result: Vec<LexItem> = Vec::new();
    let mut i: usize = 0;
    assert(input@.skip(0) =~= input@);
    assert(tokens(result@) =~= Seq::<Token>::empty());
    while i < input.len()
        invariant
            i <= input@.len(),
            lex_from(tokens(result@), input@.skip(i as int)) == lexed(input@),
        decreases input.len() - i,
    {
        let ghost s = input@.skip(i as int);
        let ghost rest = s.drop_first();
        let c = input[i];
        assert(s[0] == c);
        assert(rest =~= input@.skip(i + 1));
        if c == '@' {
            push_token(&mut result, LexItem::At(single('@')));
            i = i + 1;
        } else if c == '\\' {
            push_backslash(&mut result);
            i = i + 1;
        } else if c == '{' || c == '}' {
            push_token(&mut result, LexItem::Paren(c));
            i = i + 1;
        } else if c == ' ' {
            push_space(&mut result);
            i = i + 1;
        } else if c == '\n' {
            push_token(&mut result, LexItem::NewLine);
            i = i + 1;
        } else if c == '<' {
            let after = string_from(input, i + 1);
            match closing_tag_name(after.as_str()) {
                Some(name) => {
                    let name = chars_of(name.as_str());
                    let n = name.len();
                    assert(after@ == rest);
                    assert(name@ == rest.take(n as int));
                    let mut word: Vec<char> = Vec::new();
                    if n == 2 && name[0] == 'b' && name[1] == 'r' {
                        push_str(&mut word, "<br>");
                        assert(word@ =~= "<br>"@);
                        assert(word@ == html_word(name@));
                    } else {
                        push_str(&mut word, "\\<");
                        push_chars(&mut word, &name);
                        push_str(&mut word, "\\>");
                        assert(word@ =~= "\\<"@ + name@ + "\\>"@);
                        assert(word@ == html_word(name@));
                    }
                    assert(word@ == html_word(rest.take(n as int)));
                    push_token(&mut result, LexItem::Word(word));
                    assert(rest.skip(n + 1 as int) =~= input@.skip(i + 1 + n + 1));
                    i = i + 1 + n + 1;
                },
                None => {
                    push_token(&mut result, LexItem::Word(single('<')));
                    i = i + 1;
                },
            }
        } else if c == 'h' && (starts_with_at(input, i + 1, "ttp://") || starts_with_at(
            input,
            i + 1,
            "ttps://",
        )) {
            let end = consume_url_chars(input, i + 1);
            let url = slice_of(input, i, end);
            assert(url@ =~= s.take(end - i));
            push_token(&mut result, LexItem::Url(url));
            assert(rest.skip(end - (i + 1)) =~= input@.skip(end as int));
            i = end;
        } else {
            push_word_char_exec(&mut result, c);
            i = i + 1;
        }
    }
    result
}

/// The tokens after scanning the first step of `s` (one character, a tag or an address).
pub open spec fn lex_next(acc: Seq<Token>, s: Seq<char>) -> Seq<Token> {
    let c = s[0];
    let rest = s.drop_first();
    if c == '@' {
        acc.push(Token::At(seq!['@']))
    } else if c == '\\' {
        if acc.len() > 0 && acc.last() == Token::At(seq!['\\']) {
            acc.drop_last().push(Token::At(seq!['\\', '\\']))
        } else {
            acc.push(Token::At(seq!['\\']))
        }
    } else if c == '{' || c == '}' {
        acc.push(Token::Paren(c))
    } else if c == ' ' {
        if acc.len() > 0 && acc.last() == Token::Space {
            acc
        } else {
            acc.push(Token::Space)
        }
    } else if c == '\n' {
        acc.push(Token::NewLine)
    } else if c == '<' {
        match closing_tag(rest) {
            Some(n) => acc.push(Token::Word(html_word(rest.take(n as int)))),
            None => acc.push(Token::Word(seq!['<'])),
        }
    } else if c == 'h' && url_ahead(rest) {
        acc.push(Token::Url(s.take(url_run(rest) + 1 as int)))
    } else {
        push_word_char(acc, c)
    }
}

/// What is left of `s` after its first step.
pub open spec fn lex_rest(s: Seq<char>) -> Seq<char> {
    let c = s[0];
    let rest = s.drop_first();
    if c == '<' {
        match closing_tag(rest) {
            Some(n) => rest.skip(n + 1 as int),
            None => rest,
        }
    } else if c == 'h' && url_ahead(rest) {
        rest.skip(url_run(rest) as int)
    } else {
        rest
    }
}

proof fn lemma_lex_unfold(acc: Seq<Token>, s: Seq<char>)
    requires
        s.len() > 0,
    ensures
        lex_from(acc, s) == lex_from(lex_next(acc, s), lex_rest(s)),
        lex_rest(s).len() < s.len(),
{
    lemma_url_run_bound(s.drop_first());
}

/// Scanning depends on the tokens so far through the last one only.
pub proof fn lemma_lex_last(acc: Seq<Token>, s: Seq<char>)
    requires
        acc.len() > 0,
    ensures
        lex_from(acc, s) == acc.drop_last() + lex_from(seq![acc.last()], s),
    decreases s.len(),
{
    let one = seq![acc.last()];
    if s.len() == 0 {
        assert(acc =~= acc.drop_last() + one);
    } else {
        lemma_lex_unfold(acc, s);
        lemma_lex_unfold(one, s);
        let a1 = lex_next(acc, s);
        let a2 = lex_next(one, s);
        assert(one.last() == acc.last());
        assert(one.drop_last() =~= Seq::<Token>::empty());
        assert(acc.drop_last() + one =~= acc);
        assert(a1 =~= acc.drop_last() + a2);
        assert(a2.len() > 0);
        lemma_lex_last(a1, lex_rest(s));
        lemma_lex_last(a2, lex_rest(s));
        assert(a1.drop_last() =~= acc.drop_last() + a2.drop_last());
        assert(a1.last() == a2.last());
    }
}

/// A character that always extends the word being scanned.
pub open spec fn is_word_char(c: char) -> bool {
    c != '@' && c != '\\' && c != '{' && c != '}' && c != ' ' && c != '\n' && c != '<' && c != 'h'
}

pub open spec fn all_word_chars(m: Seq<char>) -> bool {
    forall|k: int| 0 <= k < m.len() ==> is_word_char(#[trigger] m[k])
}

/// Word characters after a word extend it.
pub proof fn lemma_lex_word(w: Seq<char>, m: Seq<char>, b: Seq<char>)
    requires
        all_word_chars(m),
    ensures
        lex_from(seq![Token::Word(w)], m + b) == lex_from(seq![Token::Word(w + m)], b),
    decreases m.len(),
{
    if m.len() == 0 {
        assert(m + b =~= b);
        assert(w + m =~= w);
    } else {
        let c = m[0];
        assert(is_word_char(c));
        assert((m + b)[0] == c);
        lemma_lex_unfold(seq![Token::Word(w)], m + b);
        assert((m + b).drop_first() =~= m.drop_first() + b);
        assert(lex_next(seq![Token::Word(w)], m + b) =~= seq![Token::Word(w.push(c))]);
        assert(all_word_chars(m.drop_first())) by {
            assert forall|k: int| 0 <= k < m.drop_first().len() implies is_word_char(
                #[trigger] m.drop_first()[k],
            ) by {
                assert(m.drop_first()[k] == m[k + 1]);
            }
        }
        lemma_lex_word(w.push(c), m.drop_first(), b);
        assert(w.push(c) + m.drop_first() =~= w + m);
    }
}

/// A marker, a word of word characters and a space, then any text: the tokens are the marker,
/// the word and what the text gives after a space.
pub proof fn lemma_lex_directive(w: Seq<char>, rest: Seq<char>)
    requires
        w.len() > 0,
        all_word_chars(w),
    ensures
        lexed(seq!['@'] + w + seq![' '] + rest) == seq![Token::At(seq!['@']), Token::Word(w)]
            + lex_from(seq![Token::Space], rest),
{
    let s = seq!['@'] + w + seq![' '] + rest;
    let e: Seq<Token> = Seq::empty();
    lemma_lex_unfold(e, s);
    let s1 = s.drop_first();
    assert(s1 =~= w + (seq![' '] + rest));
    let a0 = seq![Token::At(seq!['@'])];
    assert(lex_next(e, s) =~= a0);
    let c = w[0];
    assert(is_word_char(c));
    lemma_lex_unfold(a0, s1);
    let a1 = seq![Token::At(seq!['@']), Token::Word(seq![c])];
    assert(lex_next(a0, s1) =~= a1);
    assert(s1.drop_first() =~= w.drop_first() + (seq![' '] + rest));
    lemma_lex_last(a1, s1.drop_first());
    assert(a1.drop_last() =~= a0);
    assert(all_word_chars(w.drop_first())) by {
        assert forall|k: int| 0 <= k < w.drop_first().len() implies is_word_char(
            #[trigger] w.drop_first()[k],
        ) by {
            assert(w.drop_first()[k] == w[k + 1]);
        }
    }
    lemma_lex_word(seq![c], w.drop_first(), seq![' '] + rest);
    assert(seq![c] + w.drop_first() =~= w);
    let sp = seq![' '] + rest;
    lemma_lex_unfold(seq![Token::Word(w)], sp);
    assert(sp.drop_first() =~= rest);
    let a2 = seq![Token::Word(w), Token::Space];
    assert(lex_next(seq![Token::Word(w)], sp) =~= a2);
    lemma_lex_last(a2, rest);
    assert(a2.drop_last() =~= seq![Token::Word(w)]);
    assert(a0 + (seq![Token::Word(w)] + lex_from(seq![Token::Space], rest)) =~= seq![
        Token::At(seq!['@']),
        Token::Word(w),
    ] + lex_from(seq![Token::Space], rest));
}

} // verus!
