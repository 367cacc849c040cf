//! Groups tokens into directives, text runs, group markers and addresses.
use vstd::prelude::*;

use crate::lexer::{is_ascii_letter, lex, lexed, letter_run, tokens, LexItem, Token};
use crate::text::{eq_str, push_chars, slice_of};

verus! {

/// A unit of the comment's structure.
#[derive(Debug, Clone, PartialEq, Eq)]
pub enum GrammarItem {
    /// A directive: its name, its bracketed modifiers and the arguments it captured.
    Notation { meta: Vec<Vec<char>>, params: Vec<Vec<char>>, tag: Vec<char> },
    /// Literal text.
    Text(Vec<char>),
    /// The opening `@{` of a group.
    GroupStart,
    /// The closing `@}` of a group.
    GroupEnd,
    /// An absolute address.
    Url(Vec<char>),
}

/// Why a comment could not be turned into Markdown.
#[derive(Debug, Clone, PartialEq, Eq)]
pub enum ParseError {
    /// The bracketed modifiers of the named directive are not a valid list.
    MalformedModifierList(Vec<char>),
    /// A group is closed that was never opened.
    UnmatchedGroupEnd,
    /// A group is still open at the end of the comment.
    UnterminatedGroup,
    /// The named directive needs an argument and has none.
    MissingRequiredParameter(Vec<char>),
    /// The emoji shortcode is not in the symbol table.
    UnknownSymbol(Vec<char>),
}

/// The mathematical model of a [`GrammarItem`].
pub enum Item {
    Notation { meta: Seq<Seq<char>>, params: Seq<Seq<char>>, tag: Seq<char> },
    Text(Seq<char>),
    GroupStart,
    GroupEnd,
    Url(Seq<char>),
}

/// The mathematical model of a [`ParseError`].
pub enum Failure {
    MalformedModifierList(Seq<char>),
    UnmatchedGroupEnd,
    UnterminatedGroup,
    MissingRequiredParameter(Seq<char>),
    UnknownSymbol(Seq<char>),
}

pub open spec fn texts(v: Seq<Vec<char>>) -> Seq<Seq<char>> {
    v.map_values(|x: Vec<char>| x@)
}

impl View for GrammarItem {
    type V = Item;

    open spec fn view(&self) -> Item {
        match self {
            GrammarItem::Notation { meta, params, tag } => Item::Notation {
                meta: texts(meta@),
                params: texts(params@),
                tag: tag@,
            },
            GrammarItem::Text(x) => Item::Text(x@),
            GrammarItem::GroupStart => Item::GroupStart,
            GrammarItem::GroupEnd => Item::GroupEnd,
            GrammarItem::Url(u) => Item::Url(u@),
        }
    }
}

impl View for ParseError {
    type V = Failure;

    open spec fn view(&self) -> Failure {
        match self {
            ParseError::MalformedModifierList(t) => Failure::MalformedModifierList(t@),
            ParseError::UnmatchedGroupEnd => Failure::UnmatchedGroupEnd,
            ParseError::UnterminatedGroup => Failure::UnterminatedGroup,
            ParseError::MissingRequiredParameter(t) => Failure::MissingRequiredParameter(t@),
            ParseError::UnknownSymbol(s) => Failure::UnknownSymbol(s@),
        }
    }
}

/// The models of a sequence of items.
pub open spec fn items(v: Seq<GrammarItem>) -> Seq<Item> {
    v.map_values(|x: GrammarItem| x@)
}

/// The model of a parse result.
pub open spec fn parsed_view(r: Result<Vec<GrammarItem>, ParseError>) -> Result<Seq<Item>, Failure> {
    match r {
        Ok(v) => Ok(items(v@)),
        Err(e) => Err(e@),
    }
}

// Directive words.

/// The directive's name: the run of letters its word starts with.
pub open spec fn tag_name(w: Seq<char>) -> Seq<char> {
    w.take(letter_run(w) as int)
}

/// The comma-separated pieces of `s`, from left to right.
pub open spec fn split_commas(s: Seq<char>) -> Seq<Seq<char>>
    decreases s.len(),
{
    if s.len() == 0 {
        seq![Seq::empty()]
    } else {
        let r = split_commas(s.drop_last());
        if s.last() == ',' {
            r.push(Seq::empty())
        } else {
            r.update(r.len() - 1, r.last().push(s.last()))
        }
    }
}

pub open spec fn is_blank(c: char) -> bool {
    c == ' ' || c == '\t' || c == '\r'
}

/// `s` without the blanks at its start.
pub open spec fn trim_start(s: Seq<char>) -> Seq<char>
    decreases s.len(),
{
    if s.len() > 0 && is_blank(s[0]) {
        trim_start(s.drop_first())
    } else {
        s
    }
}

/// `s` without the blanks at its end.
pub open spec fn trim_end(s: Seq<char>) -> Seq<char>
    decreases s.len(),
{
    if s.len() > 0 && is_blank(s.last()) {
        trim_end(s.drop_last())
    } else {
        s
    }
}

pub open spec fn trim(s: Seq<char>) -> Seq<char> {
    trim_end(trim_start(s))
}

pub open spec fn is_direction(e: Seq<char>) -> bool {
    e == "in"@ || e == "out"@
}

/// A list of directions is written `in` before `out`, each once; any other list stays as is.
pub open spec fn canonical(entries: Seq<Seq<char>>) -> Seq<Seq<char>> {
    if forall|k: int| 0 <= k < entries.len() ==> is_direction(#[trigger] entries[k]) {
        (if entries.contains("in"@) {
            seq!["in"@]
        } else {
            Seq::empty()
        }) + (if entries.contains("out"@) {
            seq!["out"@]
        } else {
            Seq::empty()
        })
    } else {
        entries
    }
}

/// The comma-separated pieces of `s`, each trimmed.
pub open spec fn trimmed_pieces(s: Seq<char>) -> Seq<Seq<char>> {
    split_commas(s).map_values(|e: Seq<char>| trim(e))
}

proof fn lemma_trimmed_index(s: Seq<char>, k: int)
    requires
        0 <= k < split_commas(s).len(),
    ensures
        trimmed_pieces(s).len() == split_commas(s).len(),
        trimmed_pieces(s)[k] == trim(split_commas(s)[k]),
{
}

/// The modifiers of a directive word: `None` where its bracketed suffix is malformed.
pub open spec fn modifiers(w: Seq<char>) -> Option<Seq<Seq<char>>> {
    let rest = w.skip(letter_run(w) as int);
    if rest.len() == 0 || rest[0] != '[' {
        Some(Seq::empty())
    } else if rest.len() >= 2 && rest.last() == ']' && !rest.subrange(1, rest.len() - 1).contains(
        ']',
    ) {
        let entries = trimmed_pieces(rest.subrange(1, rest.len() - 1));
        if forall|k: int| 0 <= k < entries.len() ==> (#[trigger] entries[k]).len() > 0 {
            Some(canonical(entries))
        } else {
            None
        }
    } else {
        None
    }
}

proof fn lemma_texts_push(v: Seq<Vec<char>>, x: Vec<char>)
    ensures
        texts(v.push(x)) == texts(v).push(x@),
{
    assert(texts(v.push(x)) =~= texts(v).push(x@));
}

/// The length of the run of ASCII letters at the start of `w`.
pub fn letter_run_len(w: &Vec<char>) -> (r: usize)
    ensures
        r == letter_run(w@),
        r <= w@.len(),
{
    let mut j: usize = 0;
    assert(w@.skip(0) =~= w@);
    while j < w.len() && (('a' <= w[j] && w[j] <= 'z') || ('A' <= w[j] && w[j] <= 'Z'))
        invariant
            j <= w@.len(),
            letter_run(w@) == j + letter_run(w@.skip(j as int)),
        decreases w.len() - j,
    {
        assert(w@.skip(j as int).drop_first() =~= w@.skip(j + 1));
        j = j + 1;
    }
    j
}

/// Splits `s` at its commas.
fn split_commas_exec(s: &Vec<char>) -> (r: Vec<Vec<char>>)
    ensures
        texts(r@) == split_commas(s@),
{
    let mut entries: Vec<Vec<char>> = Vec::new();
    let mut cur: Vec<char> = Vec::new();
    let mut i: usize = 0;
    assert(s@.take(0) =~= Seq::<char>::empty());
    assert(texts(entries@).push(cur@) =~= seq![Seq::<char>::empty()]);
    while i < s.len()
        invariant
            i <= s@.len(),
            split_commas(s@.take(i as int)) == texts(entries@).push(cur@),
        decreases s.len() - i,
    {
        let c = s[i];
        let ghost before = texts(entries@).push(cur@);
        assert(s@.take(i + 1).drop_last() =~= s@.take(i as int));
        assert(s@.take(i + 1).last() == c);
        if c == ',' {
            proof {
                lemma_texts_push(entries@, cur);
            }
            entries.push(cur);
            cur = Vec::new();
            assert(texts(entries@).push(cur@) =~= before.push(Seq::empty()));
        } else {
            cur.push(c);
            assert(texts(entries@).push(cur@) =~= before.update(
                before.len() - 1,
                before.last().push(c),
            ));
        }
        i = i + 1;
    }
    assert(s@.take(s.len() as int) =~= s@);
    proof {
        lemma_texts_push(entries@, cur);
    }
    entries.push(cur);
    entries
}

fn is_blank_exec(c: char) -> (r: bool)
    ensures
        r == is_blank(c),
{
    c == ' ' || c == '\t' || c == '\r'
}

/// `s` without blanks at either end.
fn trim_exec(s: &Vec<char>) -> (r: Vec<char>)
    ensures
        r@ == trim(s@),
{
    let mut a: usize = 0;
    assert(s@.skip(0) =~= s@);
    while a < s.len() && is_blank_exec(s[a])
        invariant
            a <= s@.len(),
            trim_start(s@) == trim_start(s@.skip(a as int)),
        decreases s.len() - a,
    {
        assert(s@.skip(a as int).drop_first() =~= s@.skip(a + 1));
        a = a + 1;
    }
    assert(trim_start(s@) == s@.skip(a as int));
    let mut b: usize = s.len();
    assert(s@.subrange(a as int, b as int) =~= s@.skip(a as int));
    while b > a && is_blank_exec(s[b - 1])
        invariant
            a <= b <= s@.len(),
            trim(s@) == trim_end(s@.subrange(a as int, b as int)),
        decreases b,
    {
        assert(s@.subrange(a as int, b as int).drop_last() =~= s@.subrange(a as int, b - 1));
        b = b - 1;
    }
    slice_of(s, a, b)
}

/// Whether `c` occurs in `s` within `from .. to`.
fn contains_in(s: &Vec<char>, from: usize, to: usize, c: char) -> (r: bool)
    requires
        from <= to <= s@.len(),
    ensures
        r == s@.subrange(from as int, to as int).contains(c),
{
    let mut i: usize = from;
    while i < to
        invariant
            from <= i <= to <= s@.len(),
            forall|k: int| from <= k < i ==> s@[k] != c,
        decreases to - i,
    {
        if s[i] == c {
            assert(s@.subrange(from as int, to as int)[i - from] == c);
            return true;
        }
        i = i + 1;
    }
    assert forall|k: int| 0 <= k < to - from implies s@.subrange(
        from as int,
        to as int,
    )[k] != c by {
        assert(s@[from + k] != c);
    }
    false
}

fn direction(word: &str) -> (r: Vec<char>)
    ensures
        r@ == word@,
{
    let mut r: Vec<char> = Vec::new();
    crate::text::push_str(&mut r, word);
    assert(r@ =~= word@);
    r
}

/// Writes a list of directions `in` before `out`, each once, and leaves any other list as is.
fn canonical_exec(entries: Vec<Vec<char>>) -> (r: Vec<Vec<char>>)
    ensures
        texts(r@) == canonical(texts(entries@)),
{
    let ghost e = texts(entries@);
    let mut all: bool = true;
    let mut has_in: bool = false;
    let mut has_out: bool = false;
    let mut i: usize = 0;
    while i < entries.len()
        invariant
            e == texts(entries@),
            i <= entries@.len(),
            all == (forall|k: int| 0 <= k < i ==> is_direction(#[trigger] e[k])),
            has_in == (exists|k: int| 0 <= k < i && #[trigger] e[k] == "in"@),
            has_out == (exists|k: int| 0 <= k < i && #[trigger] e[k] == "out"@),
        decreases entries.len() - i,
    {
        let is_in = eq_str(&entries[i], "in");
        let is_out = eq_str(&entries[i], "out");
        assert(e[i as int] == entries@[i as int]@);
        if !(is_in || is_out) {
            all = false;
        }
        if is_in {
            has_in = true;
        }
        if is_out {
            has_out = true;
        }
        i = i + 1;
    }
    if all {
        let mut r: Vec<Vec<char>> = Vec::new();
        if has_in {
            r.push(direction("in"));
        }
        if has_out {
            r.push(direction("out"));
        }
        assert(texts(r@) =~= canonical(e));
        r
    } else {
        entries
    }
}

/// The modifiers of the directive word `w`, or `None` where its bracketed suffix is malformed.
pub fn parse_modifiers(w: &Vec<char>) -> (r: Option<Vec<Vec<char>>>)
    ensures
        r is Some <==> modifiers(w@) is Some,
        r is Some ==> texts(r->0@) == modifiers(w@)->0,
{
    let start = letter_run_len(w);
    let ghost rest = w@.skip(start as int);
    let n = w.len();
    if start == n || w[start] != '[' {
        let none: Vec<Vec<char>> = Vec::new();
        assert(texts(none@) =~= Seq::<Seq<char>>::empty());
        return Some(none);
    }
    assert(rest[0] == w@[start as int]);
    if n - start < 2 || w[n - 1] != ']' {
        return None;
    }
    assert(rest.subrange(1, rest.len() - 1) =~= w@.subrange(start + 1, n - 1));
    if contains_in(w, start + 1, n - 1, ']') {
        return None;
    }
    let inner = slice_of(w, start + 1, n - 1);
    assert(rest.subrange(1, rest.len() - 1) =~= inner@);
    let pieces = split_commas_exec(&inner);
    let mut entries: Vec<Vec<char>> = Vec::new();
    let ghost want = trimmed_pieces(inner@);
    let mut i: usize = 0;
    assert(modifiers(w@) == if forall|k: int| 0 <= k < want.len() ==> (#[trigger] want[k]).len()
        > 0 {
        Some(canonical(want))
    } else {
        None::<Seq<Seq<char>>>
    });
    while i < pieces.len()
        invariant
            modifiers(w@) == if forall|k: int| 0 <= k < want.len() ==> (#[trigger] want[k]).len()
                > 0 {
                Some(canonical(want))
            } else {
                None::<Seq<Seq<char>>>
            },
            i <= pieces@.len(),
            want == trimmed_pieces(inner@),
            want.len() == pieces@.len(),
            texts(pieces@) == split_commas(inner@),
            texts(entries@) == want.take(i as int),
            forall|k: int| 0 <= k < i ==> (#[trigger] want[k]).len() > 0,
        decreases pieces.len() - i,
    {
        let t = trim_exec(&pieces[i]);
        assert(texts(pieces@)[i as int] == pieces@[i as int]@);
        assert(split_commas(inner@)[i as int] == pieces@[i as int]@);
        proof {
            lemma_trimmed_index(inner@, i as int);
        }
        assert(t@ == want[i as int]);
        if t.len() == 0 {
            assert(want[i as int].len() == 0);
            return None;
        }
        proof {
            lemma_texts_push(entries@, t);
        }
        entries.push(t);
        i = i + 1;
        assert(want.take(i as int) =~= want.take(i - 1).push(want[i - 1]));
    }
    assert(want.take(i as int) =~= want);
    Some(canonical_exec(entries))
}

// Directive arguments.

/// How many arguments a directive captures.
#[derive(Clone, Copy)]
pub enum Arity {
    /// None.
    Zero,
    /// The next word.
    Word,
    /// The rest of the line.
    Line,
}

pub open spec fn arity(tag: Seq<char>) -> Arity {
    if tag == "a"@ || tag == "e"@ || tag == "em"@ || tag == "b"@ || tag == "c"@ || tag == "p"@
        || tag == "emoji"@ || tag == "sa"@ || tag == "see"@ || tag == "retval"@ || tag
        == "throw"@ || tag == "throws"@ || tag == "exception"@ || tag == "param"@ {
        Arity::Word
    } else if tag == "pre"@ || tag == "post"@ {
        Arity::Line
    } else {
        Arity::Zero
    }
}

/// The arity of the directive named `tag`.
pub fn arity_of(tag: &Vec<char>) -> (r: Arity)
    ensures
        r == arity(tag@),
{
    if eq_str(tag, "a") || eq_str(tag, "e") || eq_str(tag, "em") || eq_str(tag, "b") || eq_str(
        tag,
        "c",
    ) || eq_str(tag, "p") || eq_str(tag, "emoji") || eq_str(tag, "sa") || eq_str(tag, "see")
        || eq_str(tag, "retval") || eq_str(tag, "throw") || eq_str(tag, "throws") || eq_str(
        tag,
        "exception",
    ) || eq_str(tag, "param") {
        Arity::Word
    } else if eq_str(tag, "pre") || eq_str(tag, "post") {
        Arity::Line
    } else {
        Arity::Zero
    }
}

/// The text a token stands for.
pub open spec fn token_text(t: Token) -> Seq<char> {
    match t {
        Token::At(m) => m,
        Token::Paren(c) => seq![c],
        Token::Word(w) => w,
        Token::Url(u) => u,
        Token::Space => seq![' '],
        Token::NewLine => seq!['\n'],
    }
}

/// The text a token stands for within an argument: an address goes between angle brackets.
pub open spec fn argument_text(t: Token) -> Seq<char> {
    match t {
        Token::Url(u) => "<"@ + u + ">"@,
        other => token_text(other),
    }
}

/// The index of the first line break or directive marker at or after `k`, or the end.
pub open spec fn line_end(t: Seq<Token>, k: nat) -> nat
    decreases t.len() - k,
{
    if k >= t.len() || t[k as int] == Token::NewLine || t[k as int] is At {
        k
    } else {
        line_end(t, k + 1)
    }
}

/// The text of the tokens in `k .. e`.
pub open spec fn span_text(t: Seq<Token>, k: nat, e: nat) -> Seq<char>
    decreases e - k,
{
    if e <= k {
        Seq::empty()
    } else {
        span_text(t, k, (e - 1) as nat) + argument_text(t[e - 1])
    }
}

/// `j`, or the position after it where a space stands there.
pub open spec fn skip_space(t: Seq<Token>, j: nat) -> nat {
    if j < t.len() && t[j as int] == Token::Space {
        j + 1
    } else {
        j
    }
}

/// The arguments captured from position `j` on.
pub open spec fn captured(t: Seq<Token>, j: nat, a: Arity) -> Seq<Seq<char>> {
    let k = skip_space(t, j);
    match a {
        Arity::Zero => Seq::empty(),
        Arity::Word => if k < t.len() && t[k as int] is Word {
            seq![t[k as int]->Word_0]
        } else {
            Seq::empty()
        },
        Arity::Line => {
            let x = span_text(t, k, line_end(t, k));
            if x.len() > 0 {
                seq![x]
            } else {
                Seq::empty()
            }
        },
    }
}

/// The position after the arguments captured from position `j` on.
pub open spec fn capture_end(t: Seq<Token>, j: nat, a: Arity) -> nat {
    let k = skip_space(t, j);
    match a {
        Arity::Zero => k,
        Arity::Word => if k < t.len() && t[k as int] is Word {
            k + 1
        } else {
            k
        },
        Arity::Line => line_end(t, k),
    }
}

pub proof fn lemma_line_end(t: Seq<Token>, k: nat)
    requires
        k <= t.len(),
    ensures
        k <= line_end(t, k) <= t.len(),
    decreases t.len() - k,
{
    if k < t.len() && !(t[k as int] == Token::NewLine || t[k as int] is At) {
        lemma_line_end(t, k + 1);
    }
}

// The grammar.

/// Adds text to `acc`, joining it to the text item that ends `acc`.
pub open spec fn push_text(acc: Seq<Item>, x: Seq<char>) -> Seq<Item> {
    if acc.len() > 0 && acc.last() is Text {
        acc.drop_last().push(Item::Text(acc.last()->Text_0 + x))
    } else {
        acc.push(Item::Text(x))
    }
}

/// The items of `acc` followed by those of the tokens from position `i` on, where `open` says
/// whether a group is open.
pub open spec fn parse_from(t: Seq<Token>, i: nat, open: bool, acc: Seq<Item>) -> Result<
    Seq<Item>,
    Failure,
>
    decreases t.len() - i,
    via parse_from_decreases
{
    if i >= t.len() {
        if open {
            Err(Failure::UnterminatedGroup)
        } else {
            Ok(acc)
        }
    } else {
        match t[i as int] {
            Token::At(m) => {
                if i + 1 < t.len() && t[i + 1 as int] == Token::Paren('{') {
                    parse_from(t, i + 2, true, acc.push(Item::GroupStart))
                } else if i + 1 < t.len() && t[i + 1 as int] == Token::Paren('}') {
                    if open {
                        parse_from(t, i + 2, false, acc.push(Item::GroupEnd))
                    } else {
                        Err(Failure::UnmatchedGroupEnd)
                    }
                } else if i + 1 < t.len() && t[i + 1 as int] is Word {
                    let w = t[i + 1 as int]->Word_0;
                    let tag = tag_name(w);
                    match modifiers(w) {
                        None => Err(Failure::MalformedModifierList(tag)),
                        Some(meta) => parse_from(
                            t,
                            capture_end(t, i + 2, arity(tag)),
                            open,
                            acc.push(
                                Item::Notation { meta, params: captured(t, i + 2, arity(tag)), tag },
                            ),
                        ),
                    }
                } else {
                    parse_from(t, i + 1, open, push_text(acc, m))
                }
            },
            Token::Url(u) => parse_from(t, i + 1, open, acc.push(Item::Url(u))),
            other => parse_from(t, i + 1, open, push_text(acc, token_text(other))),
        }
    }
}

#[via_fn]
proof fn parse_from_decreases(t: Seq<Token>, i: nat, open: bool, acc: Seq<Item>) {
    if i + 2 <= t.len() {
        lemma_line_end(t, skip_space(t, i + 2));
    }
}

/// The items of a token sequence.
pub open spec fn parsed(t: Seq<Token>) -> Result<Seq<Item>, Failure> {
    parse_from(t, 0, false, Seq::empty())
}

// Parsing.

proof fn lemma_items_push(v: Seq<GrammarItem>, x: GrammarItem)
    ensures
        items(v.push(x)) == items(v).push(x@),
{
    assert(items(v.push(x)) =~= items(v).push(x@));
}

fn push_item(result: &mut Vec<GrammarItem>, x: GrammarItem)
    ensures
        items(final(result)@) == items(old(result)@).push(x@),
{
    proof {
        lemma_items_push(result@, x);
    }
    result.push(x);
}

/// Adds text to `result`, joining it to the text item that ends `result`.
fn push_text_exec(result: &mut Vec<GrammarItem>, x: Vec<char>)
    ensures
        items(final(result)@) == push_text(items(old(result)@), x@),
{
    let ghost v = result@;
    if result.len() > 0 {
        assert(items(v.drop_last()) =~= items(v).drop_last());
    }
    match result.pop() {
        Some(GrammarItem::Text(y)) => {
            let mut y2 = y;
            push_chars(&mut y2, &x);
            push_item(result, GrammarItem::Text(y2));
        },
        Some(other) => {
            push_item(result, other);
            assert(items(result@) =~= items(v));
            push_item(result, GrammarItem::Text(x));
        },
        None => {
            push_item(result, GrammarItem::Text(x));
        },
    }
}

fn copy_chars(v: &Vec<char>) -> (r: Vec<char>)
    ensures
        r@ == v@,
{
    let r = slice_of(v, 0, v.len());
    assert(r@ =~= v@);
    r
}

fn token_text_exec(t: &LexItem) -> (r: Vec<char>)
    ensures
        r@ == token_text(t@),
{
    let mut r: Vec<char> = Vec::new();
    match t {
        LexItem::At(m) => {
            push_chars(&mut r, m);
        },
        LexItem::Paren(c) => {
            r.push(*c);
        },
        LexItem::Word(w) => {
            push_chars(&mut r, w);
        },
        LexItem::Url(u) => {
            push_chars(&mut r, u);
        },
        LexItem::Space => {
            r.push(' ');
        },
        LexItem::NewLine => {
            r.push('\n');
        },
    }
    assert(r@ =~= token_text(t@));
    r
}

fn ends_line_capture(t: &LexItem) -> (r: bool)
    ensures
        r == (t@ == Token::NewLine || t@ is At),
{
    match t {
        LexItem::NewLine => true,
        LexItem::At(_) => true,
        _ => false,
    }
}

fn is_space(t: &LexItem) -> (r: bool)
    ensures
        r == (t@ == Token::Space),
{
    match t {
        LexItem::Space => true,
        _ => false,
    }
}

fn line_end_exec(t: &Vec<LexItem>, k: usize) -> (r: usize)
    requires
        k <= t@.len(),
    ensures
        r == line_end(tokens(t@), k as nat),
        k <= r <= t@.len(),
{
    let mut m: usize = k;
    while m < t.len() && !ends_line_capture(&t[m])
        invariant
            k <= m <= t@.len(),
            line_end(tokens(t@), k as nat) == line_end(tokens(t@), m as nat),
        decreases t.len() - m,
    {
        m = m + 1;
    }
    m
}

fn span_text_exec(t: &Vec<LexItem>, k: usize, e: usize) -> (r: Vec<char>)
    requires
        k <= e <= t@.len(),
    ensures
        r@ == span_text(tokens(t@), k as nat, e as nat),
{
    let mut out: Vec<char> = Vec::new();
    let mut m: usize = k;
    assert(out@ =~= span_text(tokens(t@), k as nat, k as nat));
    while m < e
        invariant
            k <= m <= e <= t@.len(),
            out@ == span_text(tokens(t@), k as nat, m as nat),
        decreases e - m,
    {
        match &t[m] {
            LexItem::Url(u) => {
                let ghost before = out@;
                crate::text::push_str(&mut out, "<");
                push_chars(&mut out, u);
                crate::text::push_str(&mut out, ">");
                assert(out@ =~= before + ("<"@ + u@ + ">"@));
            },
            other => {
                let x = token_text_exec(other);
                push_chars(&mut out, &x);
            },
        }
        m = m + 1;
    }
    out
}

/// The arguments that a directive of arity `a` captures from position `j` on, and the position
/// after them.
fn capture(t: &Vec<LexItem>, j: usize, a: Arity) -> (r: (Vec<Vec<char>>, usize))
    requires
        j <= t@.len(),
    ensures
        texts(r.0@) == captured(tokens(t@), j as nat, a),
        r.1 == capture_end(tokens(t@), j as nat, a),
        j <= r.1 <= t@.len(),
{
    let k: usize = if j < t.len() && is_space(&t[j]) {
        j + 1
    } else {
        j
    };
    let mut params: Vec<Vec<char>> = Vec::new();
    assert(texts(params@) =~= Seq::<Seq<char>>::empty());
    match a {
        Arity::Zero => (params, k),
        Arity::Word => {
            if k < t.len() {
                match &t[k] {
                    LexItem::Word(w) => {
                        params.push(copy_chars(w));
                        assert(texts(params@) =~= seq![w@]);
                        (params, k + 1)
                    },
                    _ => (params, k),
                }
            } else {
                (params, k)
            }
        },
        Arity::Line => {
            let e = line_end_exec(t, k);
            let x = span_text_exec(t, k, e);
            if x.len() > 0 {
                params.push(x);
                assert(texts(params@) =~= seq![x@]);
            }
            (params, e)
        },
    }
}

/// The items of a comment's tokens.
pub fn parse_tokens(t: &Vec<LexItem>) -> (r: Result<Vec<GrammarItem>, ParseError>)
    ensures
        parsed_view(r) == parsed(tokens(t@)),
{
    let ghost tt = tokens(t@);
    let mut result: Vec<GrammarItem> = Vec::new();
    let mut i: usize = 0;
    let mut open: bool = false;
    assert(items(result@) =~= Seq::<Item>::empty());
    while i < t.len()
        invariant
            tt == tokens(t@),
            i <= t@.len(),
            parse_from(tt, i as nat, open, items(result@)) == parsed(tt),
        decreases t.len() - i,
    {
        assert(tt[i as int] == t@[i as int]@);
        match &t[i] {
            LexItem::At(m) => {
                let mut handled = false;
                if i + 1 < t.len() {
                    assert(tt[i + 1] == t@[i + 1]@);
                    match &t[i + 1] {
                        LexItem::Paren(c) => {
                            if *c == '{' {
                                push_item(&mut result, GrammarItem::GroupStart);
                                open = true;
                                i = i + 2;
                                handled = true;
                            } else if *c == '}' {
                                if !open {
                                    return Err(ParseError::UnmatchedGroupEnd);
                                }
                                push_item(&mut result, GrammarItem::GroupEnd);
                                open = false;
                                i = i + 2;
                                handled = true;
                            }
                        },
                        LexItem::Word(w) => {
                            let n = letter_run_len(w);
                            let tag = slice_of(w, 0, n);
                            assert(tag@ =~= tag_name(w@));
                            match parse_modifiers(w) {
                                None => {
                                    return Err(ParseError::MalformedModifierList(tag));
                                },
                                Some(meta) => {
                                    let a = arity_of(&tag);
                                    let (params, end) = capture(t, i + 2, a);
                                    push_item(
                                        &mut result,
                                        GrammarItem::Notation { meta, params, tag },
                                    );
                                    i = end;
                                    handled = true;
                                },
                            }
                        },
                        _ => {},
                    }
                }
                if !handled {
                    push_text_exec(&mut result, copy_chars(m));
                    i = i + 1;
                }
            },
            LexItem::Url(u) => {
                push_item(&mut result, GrammarItem::Url(copy_chars(u)));
                i = i + 1;
            },
            other => {
                let x = token_text_exec(other);
                push_text_exec(&mut result, x);
                i = i + 1;
            },
        }
    }
    if open {
        Err(ParseError::UnterminatedGroup)
    } else {
        Ok(result)
    }
}

/// The items of a comment.
pub fn parse(input: String) -> (r: Result<Vec<GrammarItem>, ParseError>)
    ensures
        parsed_view(r) == parsed(lexed(input@)),
{
    let t = lex(input);
    parse_tokens(&t)
}

/// Directions may be written in any order and repeated: lists of directions that name the same
/// ones give the same modifiers, `in` before `out`, each once.
pub proof fn lemma_direction_order(e1: Seq<Seq<char>>, e2: Seq<Seq<char>>)
    requires
        forall|k: int| 0 <= k < e1.len() ==> is_direction(#[trigger] e1[k]),
        forall|k: int| 0 <= k < e2.len() ==> is_direction(#[trigger] e2[k]),
        e1.contains("in"@) == e2.contains("in"@),
        e1.contains("out"@) == e2.contains("out"@),
    ensures
        canonical(e1) == canonical(e2),
        e1.contains("in"@) && e1.contains("out"@) ==> canonical(e1) == seq!["in"@, "out"@],
{
    assert(seq!["in"@] + seq!["out"@] =~= seq!["in"@, "out"@]);
}

/// `t1` and `t2` have the same length and the same tokens, but perhaps at position `q`, where
/// both hold a directive word: a marker stands before it.
pub open spec fn differ_at_word(t1: Seq<Token>, t2: Seq<Token>, q: int) -> bool {
    &&& t1.len() == t2.len()
    &&& 1 <= q < t1.len()
    &&& t1[q - 1] is At
    &&& t1[q] is Word
    &&& t2[q] is Word
    &&& forall|m: int| 0 <= m < t1.len() && m != q ==> t1[m] == t2[m]
}

proof fn lemma_line_end_agree(t1: Seq<Token>, t2: Seq<Token>, q: int, k: nat)
    requires
        differ_at_word(t1, t2, q),
        k <= t1.len(),
        k != q,
    ensures
        line_end(t1, k) == line_end(t2, k),
        k < q ==> line_end(t1, k) < q,
    decreases t1.len() - k,
{
    if k < t1.len() && !(t1[k as int] == Token::NewLine || t1[k as int] is At) {
        assert(t1[k as int] == t2[k as int]);
        assert(k + 1 != q);
        lemma_line_end_agree(t1, t2, q, k + 1);
    } else if k < t1.len() {
        assert(t1[k as int] == t2[k as int]);
    }
}

proof fn lemma_span_agree(t1: Seq<Token>, t2: Seq<Token>, q: int, k: nat, e: nat)
    requires
        differ_at_word(t1, t2, q),
        e <= t1.len(),
        e <= q || k > q,
    ensures
        span_text(t1, k, e) == span_text(t2, k, e),
    decreases e - k,
{
    if e > k {
        lemma_span_agree(t1, t2, q, k, (e - 1) as nat);
        assert(t1[e - 1] == t2[e - 1]);
    }
}

proof fn lemma_capture_agree(t1: Seq<Token>, t2: Seq<Token>, q: int, j: nat, a: Arity)
    requires
        differ_at_word(t1, t2, q),
        j <= t1.len(),
        j < q || j > q,
    ensures
        captured(t1, j, a) == captured(t2, j, a),
        capture_end(t1, j, a) == capture_end(t2, j, a),
        j < q ==> capture_end(t1, j, a) < q,
{
    if j < t1.len() {
        assert(t1[j as int] == t2[j as int]);
    }
    let k = skip_space(t1, j);
    assert(k == skip_space(t2, j));
    assert(k < q || k > q);
    if k < t1.len() {
        assert(t1[k as int] == t2[k as int]);
    }
    match a {
        Arity::Line => {
            lemma_line_end_agree(t1, t2, q, k);
            lemma_line_end(t1, k);
            lemma_span_agree(t1, t2, q, k, line_end(t1, k));
        },
        _ => {},
    }
}

/// Two directive words with the same name and the same modifiers give the same items, whatever
/// tokens surround them.
pub proof fn lemma_same_directive_word(
    t1: Seq<Token>,
    t2: Seq<Token>,
    q: int,
    i: nat,
    open: bool,
    acc: Seq<Item>,
)
    requires
        differ_at_word(t1, t2, q),
        tag_name(t1[q]->Word_0) == tag_name(t2[q]->Word_0),
        modifiers(t1[q]->Word_0) == modifiers(t2[q]->Word_0),
        i != q,
    ensures
        parse_from(t1, i, open, acc) == parse_from(t2, i, open, acc),
    decreases t1.len() - i,
{
    if i < t1.len() {
        assert(t1[i as int] == t2[i as int]);
        if i + 1 < t1.len() && i + 1 != q {
            assert(t1[i + 1 as int] == t2[i + 1 as int]);
        }
        match t1[i as int] {
            Token::At(m) => {
                if i + 1 < t1.len() && t1[i + 1 as int] == Token::Paren('{') {
                    assert(i + 1 != q);
                    lemma_same_directive_word(t1, t2, q, i + 2, true, acc.push(Item::GroupStart));
                } else if i + 1 < t1.len() && t1[i + 1 as int] == Token::Paren('}') {
                    assert(i + 1 != q);
                    if open {
                        lemma_same_directive_word(
                            t1,
                            t2,
                            q,
                            i + 2,
                            false,
                            acc.push(Item::GroupEnd),
                        );
                    }
                } else if i + 1 < t1.len() && t1[i + 1 as int] is Word {
                    let w1 = t1[i + 1 as int]->Word_0;
                    let w2 = t2[i + 1 as int]->Word_0;
                    let tag = tag_name(w1);
                    assert(tag == tag_name(w2));
                    assert(modifiers(w1) == modifiers(w2));
                    lemma_capture_agree(t1, t2, q, i + 2, arity(tag));
                    lemma_line_end(t1, skip_space(t1, i + 2));
                    match modifiers(w1) {
                        None => {},
                        Some(meta) => {
                            let next = capture_end(t1, i + 2, arity(tag));
                            assert(next > i + 1);
                            lemma_same_directive_word(
                                t1,
                                t2,
                                q,
                                next,
                                open,
                                acc.push(
                                    Item::Notation {
                                        meta,
                                        params: captured(t1, i + 2, arity(tag)),
                                        tag,
                                    },
                                ),
                            );
                        },
                    }
                } else {
                    assert(i + 1 != q || i + 1 >= t1.len());
                    lemma_same_directive_word(t1, t2, q, i + 1, open, push_text(acc, m));
                }
            },
            Token::Url(u) => {
                assert(i + 1 != q);
                lemma_same_directive_word(t1, t2, q, i + 1, open, acc.push(Item::Url(u)));
            },
            other => {
                if i + 1 == q {
                    assert(false);
                }
                lemma_same_directive_word(
                    t1,
                    t2,
                    q,
                    i + 1,
                    open,
                    push_text(acc, token_text(other)),
                );
            },
        }
    }
}

/// A directive word: a name, then a bracketed modifier list.
pub open spec fn directive_word(tag: Seq<char>, m: Seq<char>) -> Seq<char> {
    tag + seq!['['] + m + seq![']']
}

pub open spec fn all_letters(tag: Seq<char>) -> bool {
    forall|k: int| 0 <= k < tag.len() ==> is_ascii_letter(#[trigger] tag[k])
}

proof fn lemma_letter_run_prefix(tag: Seq<char>, rest: Seq<char>)
    requires
        all_letters(tag),
        rest.len() > 0,
        !is_ascii_letter(rest[0]),
    ensures
        letter_run(tag + rest) == tag.len(),
    decreases tag.len(),
{
    if tag.len() == 0 {
        assert(tag + rest =~= rest);
    } else {
        assert((tag + rest).drop_first() =~= tag.drop_first() + rest);
        assert(is_ascii_letter(tag[0]));
        lemma_letter_run_prefix(tag.drop_first(), rest);
    }
}

/// The modifiers of a word `tag[m]`: the trimmed comma-separated pieces of `m`, in canonical
/// order where they are directions.
pub proof fn lemma_modifiers_of_list(tag: Seq<char>, m: Seq<char>)
    requires
        all_letters(tag),
        !m.contains(']'),
    ensures
        tag_name(directive_word(tag, m)) == tag,
        modifiers(directive_word(tag, m)) == if forall|k: int|
            0 <= k < trimmed_pieces(m).len() ==> (#[trigger] trimmed_pieces(m)[k]).len() > 0 {
            Some(canonical(trimmed_pieces(m)))
        } else {
            None::<Seq<Seq<char>>>
        },
{
    let w = directive_word(tag, m);
    let rest = seq!['['] + m + seq![']'];
    assert(w =~= tag + rest);
    lemma_letter_run_prefix(tag, rest);
    assert(w.take(tag.len() as int) =~= tag);
    assert(w.skip(tag.len() as int) =~= rest);
    assert(rest.subrange(1, rest.len() - 1) =~= m);
}

/// Directions may be written in any order and repeated: two directives of the same name whose
/// direction lists name the same directions give the same items, whatever tokens surround them.
pub proof fn lemma_direction_order_in_document(
    t1: Seq<Token>,
    t2: Seq<Token>,
    q: int,
    tag: Seq<char>,
    m1: Seq<char>,
    m2: Seq<char>,
)
    requires
        differ_at_word(t1, t2, q),
        t1[q] == Token::Word(directive_word(tag, m1)),
        t2[q] == Token::Word(directive_word(tag, m2)),
        all_letters(tag),
        !m1.contains(']'),
        !m2.contains(']'),
        forall|k: int|
            0 <= k < trimmed_pieces(m1).len() ==> is_direction(#[trigger] trimmed_pieces(m1)[k]),
        forall|k: int|
            0 <= k < trimmed_pieces(m2).len() ==> is_direction(#[trigger] trimmed_pieces(m2)[k]),
        trimmed_pieces(m1).contains("in"@) == trimmed_pieces(m2).contains("in"@),
        trimmed_pieces(m1).contains("out"@) == trimmed_pieces(m2).contains("out"@),
    ensures
        parsed(t1) == parsed(t2),
{
    reveal_strlit("in");
    reveal_strlit("out");
    let e1 = trimmed_pieces(m1);
    let e2 = trimmed_pieces(m2);
    assert forall|k: int| 0 <= k < e1.len() implies (#[trigger] e1[k]).len() > 0 by {
        assert(is_direction(e1[k]));
    }
    assert forall|k: int| 0 <= k < e2.len() implies (#[trigger] e2[k]).len() > 0 by {
        assert(is_direction(e2[k]));
    }
    lemma_modifiers_of_list(tag, m1);
    lemma_modifiers_of_list(tag, m2);
    lemma_direction_order(e1, e2);
    lemma_same_directive_word(t1, t2, q, 0, false, Seq::empty());
}

} // verus!
