//! Renders grammar items as Markdown.
use vstd::prelude::*;

use crate::lexer::{all_word_chars, is_word_char, lemma_lex_directive, lex_from, lexed, Token};
use crate::parser::{
    all_letters, differ_at_word, directive_word, is_direction, items,
    lemma_direction_order_in_document, parse, parsed, texts, trimmed_pieces, Failure, GrammarItem,
    Item, ParseError,
};
use crate::text::{chars_of, eq_str, push_chars, push_str, string_from};

verus! {

/// Which section headings a document already holds.
#[derive(Clone, Copy)]
pub struct GenState {
    pub already_added_params: bool,
    pub already_added_returns: bool,
    pub already_added_throws: bool,
    pub already_added_pre: bool,
    pub already_added_post: bool,
    pub already_added_see: bool,
}

/// The sections whose heading a document holds once.
#[derive(Clone, Copy)]
pub enum Section {
    Arguments,
    Returns,
    Throws,
    Precondition,
    Postcondition,
    SeeAlso,
}

impl GenState {
    /// The state of a document with no heading yet.
    pub open spec fn initial() -> GenState {
        GenState {
            already_added_params: false,
            already_added_returns: false,
            already_added_throws: false,
            already_added_pre: false,
            already_added_post: false,
            already_added_see: false,
        }
    }

    /// A state with no heading emitted yet.
    pub fn new() -> (r: GenState)
        ensures
            r == GenState::initial(),
    {
        GenState {
            already_added_params: false,
            already_added_returns: false,
            already_added_throws: false,
            already_added_pre: false,
            already_added_post: false,
            already_added_see: false,
        }
    }

    /// Whether the heading of `sec` was emitted.
    pub open spec fn added(self, sec: Section) -> bool {
        match sec {
            Section::Arguments => self.already_added_params,
            Section::Returns => self.already_added_returns,
            Section::Throws => self.already_added_throws,
            Section::Precondition => self.already_added_pre,
            Section::Postcondition => self.already_added_post,
            Section::SeeAlso => self.already_added_see,
        }
    }

    /// This state once the heading of `sec` is emitted.
    pub open spec fn with_added(self, sec: Section) -> GenState {
        match sec {
            Section::Arguments => GenState { already_added_params: true, ..self },
            Section::Returns => GenState { already_added_returns: true, ..self },
            Section::Throws => GenState { already_added_throws: true, ..self },
            Section::Precondition => GenState { already_added_pre: true, ..self },
            Section::Postcondition => GenState { already_added_post: true, ..self },
            Section::SeeAlso => GenState { already_added_see: true, ..self },
        }
    }
}

/// The section that a directive belongs to, if any.
pub open spec fn section_of(tag: Seq<char>) -> Option<Section> {
    if tag == "param"@ {
        Some(Section::Arguments)
    } else if tag == "retval"@ || tag == "returns"@ || tag == "return"@ || tag == "result"@ {
        Some(Section::Returns)
    } else if tag == "throw"@ || tag == "throws"@ || tag == "exception"@ {
        Some(Section::Throws)
    } else if tag == "pre"@ {
        Some(Section::Precondition)
    } else if tag == "post"@ {
        Some(Section::Postcondition)
    } else if tag == "sa"@ || tag == "see"@ {
        Some(Section::SeeAlso)
    } else {
        None
    }
}

/// The heading line of a section.
pub open spec fn heading(sec: Section) -> Seq<char> {
    match sec {
        Section::Arguments => "# Arguments\n\n"@,
        Section::Returns => "# Returns\n\n"@,
        Section::Throws => "# Throws\n\n"@,
        Section::Precondition => "# Precondition\n\n"@,
        Section::Postcondition => "# Postcondition\n\n"@,
        Section::SeeAlso => "# See also\n\n"@,
    }
}

/// The modifiers, separated by `, `.
pub open spec fn joined(m: Seq<Seq<char>>) -> Seq<char>
    decreases m.len(),
{
    if m.len() == 0 {
        Seq::empty()
    } else if m.len() == 1 {
        m[0]
    } else {
        joined(m.drop_last()) + ", "@ + m.last()
    }
}

/// The list entry of an argument.
pub open spec fn param_entry(meta: Seq<Seq<char>>, params: Seq<Seq<char>>) -> Seq<char> {
    if params.len() > 0 {
        "* `"@ + params[0] + "`"@ + (if meta.len() > 0 {
            " (direction "@ + joined(meta) + ")"@
        } else {
            Seq::empty()
        }) + " -"@
    } else {
        Seq::empty()
    }
}

/// What a directive of section `sec` adds after the section's heading.
pub open spec fn entry(sec: Section, tag: Seq<char>, meta: Seq<Seq<char>>, params: Seq<Seq<char>>) -> Result<
    Seq<char>,
    Failure,
> {
    match sec {
        Section::Arguments => Ok(param_entry(meta, params)),
        Section::Returns => if tag == "retval"@ {
            if params.len() == 0 {
                Err(Failure::MissingRequiredParameter(tag))
            } else {
                Ok("* `"@ + params[0] + "` -"@)
            }
        } else {
            Ok(Seq::empty())
        },
        Section::Throws => if params.len() == 0 {
            Err(Failure::MissingRequiredParameter(tag))
        } else {
            Ok("* [`"@ + params[0] + "`] -"@)
        },
        Section::SeeAlso => Ok(
            if params.len() > 0 {
                "[`"@ + params[0] + "`]"@
            } else {
                Seq::empty()
            },
        ),
        Section::Precondition | Section::Postcondition => Ok(
            if params.len() > 0 {
                "* "@ + params[0]
            } else {
                Seq::empty()
            },
        ),
    }
}

/// The glyph that an emoji shortcode names in the symbol table.
pub uninterp spec fn emoji_glyph(code: Seq<char>) -> Option<Seq<char>>;

/// An emoji argument without the colons around it.
pub open spec fn shortcode(p: Seq<char>) -> Seq<char> {
    let q = if p.len() > 0 && p[0] == ':' {
        p.drop_first()
    } else {
        p
    };
    if q.len() > 0 && q.last() == ':' {
        q.drop_last()
    } else {
        q
    }
}

/// What an emoji directive renders as, given what the symbol table holds for its shortcode.
pub open spec fn glyph_result(code: Seq<char>, glyph: Option<Seq<char>>) -> Result<
    Seq<char>,
    Failure,
> {
    match glyph {
        Some(g) => Ok(g),
        None => Err(Failure::UnknownSymbol(code)),
    }
}

/// The first argument between `open` and `close`.
pub open spec fn styled(open: Seq<char>, tag: Seq<char>, params: Seq<Seq<char>>, close: Seq<char>) -> Result<
    Seq<char>,
    Failure,
> {
    if params.len() == 0 {
        Err(Failure::MissingRequiredParameter(tag))
    } else {
        Ok(open + params[0] + close)
    }
}

/// What a directive of no section renders as.
pub open spec fn inline(tag: Seq<char>, params: Seq<Seq<char>>) -> Result<Seq<char>, Failure> {
    if tag == "a"@ || tag == "e"@ || tag == "em"@ {
        styled("_"@, tag, params, "_"@)
    } else if tag == "b"@ {
        styled("**"@, tag, params, "**"@)
    } else if tag == "c"@ || tag == "p"@ {
        styled("`"@, tag, params, "`"@)
    } else if tag == "emoji"@ {
        if params.len() == 0 {
            Err(Failure::MissingRequiredParameter(tag))
        } else {
            glyph_result(shortcode(params[0]), emoji_glyph(shortcode(params[0])))
        }
    } else if tag == "note"@ {
        Ok("> **Note:** "@)
    } else if tag == "since"@ {
        Ok("> Available since: "@)
    } else if tag == "deprecated"@ {
        Ok("> **Deprecated** "@)
    } else if tag == "remark"@ || tag == "remarks"@ {
        Ok("> "@)
    } else if tag == "par"@ {
        Ok("# "@)
    } else if tag == "details"@ {
        Ok("\n\n"@)
    } else {
        Ok(Seq::empty())
    }
}

/// What a directive renders as in state `st`, and the state after it.
pub open spec fn notation_output(
    tag: Seq<char>,
    meta: Seq<Seq<char>>,
    params: Seq<Seq<char>>,
    st: GenState,
) -> Result<(Seq<char>, GenState), Failure> {
    match section_of(tag) {
        Some(sec) => match entry(sec, tag, meta, params) {
            Ok(e) => Ok(
                (
                    (if st.added(sec) {
                        Seq::empty()
                    } else {
                        heading(sec)
                    }) + e,
                    st.with_added(sec),
                ),
            ),
            Err(f) => Err(f),
        },
        None => match inline(tag, params) {
            Ok(x) => Ok((x, st)),
            Err(f) => Err(f),
        },
    }
}

/// The length of the part of `x` before its first `*`.
pub open spec fn star_index(x: Seq<char>) -> nat
    decreases x.len(),
{
    if x.len() > 0 && x[0] != '*' {
        1 + star_index(x.drop_first())
    } else {
        0
    }
}

/// `x` without its first `*`.
pub open spec fn remove_first_star(x: Seq<char>) -> Seq<char> {
    let k = star_index(x);
    if k < x.len() {
        x.take(k as int) + x.skip(k + 1 as int)
    } else {
        x
    }
}

/// The Markdown of `acc` followed by that of the items from position `i` on, in state `st`;
/// `strip` says whether the next text follows the opening of a group.
pub open spec fn render_from(its: Seq<Item>, i: nat, st: GenState, strip: bool, acc: Seq<char>) -> Result<
    Seq<char>,
    Failure,
>
    decreases its.len() - i,
{
    if i >= its.len() {
        Ok(acc)
    } else {
        match its[i as int] {
            Item::Notation { meta, params, tag } => match notation_output(tag, meta, params, st) {
                Ok((x, st2)) => render_from(its, i + 1, st2, strip, acc + x),
                Err(f) => Err(f),
            },
            Item::Text(x) => render_from(
                its,
                i + 1,
                st,
                false,
                acc + if strip {
                    remove_first_star(x)
                } else {
                    x
                },
            ),
            Item::GroupStart => render_from(its, i + 1, st, true, acc + "# "@),
            Item::GroupEnd => render_from(its, i + 1, st, false, acc),
            Item::Url(u) => render_from(its, i + 1, st, strip, acc + "<"@ + u + ">"@),
        }
    }
}

/// The Markdown of a sequence of items.
pub open spec fn rendered(its: Seq<Item>) -> Result<Seq<char>, Failure> {
    render_from(its, 0, GenState::initial(), false, Seq::empty())
}

/// The Markdown of a comment.
pub open spec fn markdown_of(s: Seq<char>) -> Result<Seq<char>, Failure> {
    match parsed(lexed(s)) {
        Ok(its) => rendered(its),
        Err(f) => Err(f),
    }
}

/// The model of a text result.
pub open spec fn chars_result(r: Result<Vec<char>, ParseError>) -> Result<Seq<char>, Failure> {
    match r {
        Ok(v) => Ok(v@),
        Err(e) => Err(e@),
    }
}

/// The model of a string result.
pub open spec fn string_result(r: Result<String, ParseError>) -> Result<Seq<char>, Failure> {
    match r {
        Ok(v) => Ok(v@),
        Err(e) => Err(e@),
    }
}

/// The model of a directive's rendering.
pub open spec fn notation_result(r: Result<(Vec<char>, GenState), ParseError>) -> Result<
    (Seq<char>, GenState),
    Failure,
> {
    match r {
        Ok((v, st)) => Ok((v@, st)),
        Err(e) => Err(e@),
    }
}

/// Relies on `emojis::get_by_shortcode`, which looks a GitHub shortcode up in the crate's fixed
/// emoji table, and on `Emoji::as_str`, which gives the emoji's text.
#[verifier::external_body]
fn lookup_emoji(code: &str) -> (r: Option<String>)
    ensures
        r is Some <==> emoji_glyph(code@) is Some,
        r is Some ==> r->0@ == emoji_glyph(code@)->0,
{
    match emojis::get_by_shortcode(code) {
        Some(e) => Some(e.as_str().to_string()),
        None => None,
    }
}

fn section_of_exec(tag: &Vec<char>) -> (r: Option<Section>)
    ensures
        r == section_of(tag@),
{
    if eq_str(tag, "param") {
        Some(Section::Arguments)
    } else if eq_str(tag, "retval") || eq_str(tag, "returns") || eq_str(tag, "return") || eq_str(
        tag,
        "result",
    ) {
        Some(Section::Returns)
    } else if eq_str(tag, "throw") || eq_str(tag, "throws") || eq_str(tag, "exception") {
        Some(Section::Throws)
    } else if eq_str(tag, "pre") {
        Some(Section::Precondition)
    } else if eq_str(tag, "post") {
        Some(Section::Postcondition)
    } else if eq_str(tag, "sa") || eq_str(tag, "see") {
        Some(Section::SeeAlso)
    } else {
        None
    }
}

fn push_heading(out: &mut Vec<char>, sec: Section)
    ensures
        final(out)@ == old(out)@ + heading(sec),
{
    match sec {
        Section::Arguments => push_str(out, "# Arguments\n\n"),
        Section::Returns => push_str(out, "# Returns\n\n"),
        Section::Throws => push_str(out, "# Throws\n\n"),
        Section::Precondition => push_str(out, "# Precondition\n\n"),
        Section::Postcondition => push_str(out, "# Postcondition\n\n"),
        Section::SeeAlso => push_str(out, "# See also\n\n"),
    }
}

fn push_joined(out: &mut Vec<char>, m: &Vec<Vec<char>>)
    ensures
        final(out)@ == old(out)@ + joined(texts(m@)),
{
    let ghost base = out@;
    let ghost mm = texts(m@);
    let mut k: usize = 0;
    assert(mm.take(0) =~= Seq::<Seq<char>>::empty());
    assert(out@ =~= base + joined(mm.take(0)));
    while k < m.len()
        invariant
            mm == texts(m@),
            k <= m@.len(),
            out@ == base + joined(mm.take(k as int)),
        decreases m.len() - k,
    {
        assert(mm.take(k + 1).drop_last() =~= mm.take(k as int));
        assert(mm.take(k + 1).last() == m@[k as int]@);
        if k > 0 {
            push_str(out, ", ");
        } else {
            assert(mm.take(1) =~= seq![m@[0]@]);
        }
        push_chars(out, &m[k]);
        k = k + 1;
        assert(out@ =~= base + joined(mm.take(k as int)));
    }
    assert(mm.take(m.len() as int) =~= mm);
}

fn entry_exec(sec: Section, tag: &Vec<char>, meta: &Vec<Vec<char>>, params: &Vec<Vec<char>>) -> (r:
    Result<Vec<char>, ParseError>)
    ensures
        chars_result(r) == entry(sec, tag@, texts(meta@), texts(params@)),
{
    let mut out: Vec<char> = Vec::new();
    if params.len() > 0 {
        assert(texts(params@)[0] == params@[0]@);
    }
    match sec {
        Section::Arguments => {
            if params.len() > 0 {
                push_str(&mut out, "* `");
                push_chars(&mut out, &params[0]);
                push_str(&mut out, "`");
                if meta.len() > 0 {
                    push_str(&mut out, " (direction ");
                    push_joined(&mut out, meta);
                    push_str(&mut out, ")");
                }
                push_str(&mut out, " -");
                assert(out@ =~= param_entry(texts(meta@), texts(params@)));
            } else {
                assert(out@ =~= param_entry(texts(meta@), texts(params@)));
            }
            Ok(out)
        },
        Section::Returns => {
            if eq_str(tag, "retval") {
                if params.len() == 0 {
                    return Err(ParseError::MissingRequiredParameter(tag.clone()));
                }
                push_str(&mut out, "* `");
                push_chars(&mut out, &params[0]);
                push_str(&mut out, "` -");
                assert(out@ =~= "* `"@ + params@[0]@ + "` -"@);
            } else {
                assert(out@ =~= Seq::<char>::empty());
            }
            Ok(out)
        },
        Section::Throws => {
            if params.len() == 0 {
                return Err(ParseError::MissingRequiredParameter(tag.clone()));
            }
            push_str(&mut out, "* [`");
            push_chars(&mut out, &params[0]);
            push_str(&mut out, "`] -");
            assert(out@ =~= "* [`"@ + params@[0]@ + "`] -"@);
            Ok(out)
        },
        Section::SeeAlso => {
            if params.len() > 0 {
                push_str(&mut out, "[`");
                push_chars(&mut out, &params[0]);
                push_str(&mut out, "`]");
                assert(out@ =~= "[`"@ + params@[0]@ + "`]"@);
            } else {
                assert(out@ =~= Seq::<char>::empty());
            }
            Ok(out)
        },
        Section::Precondition | Section::Postcondition => {
            if params.len() > 0 {
                push_str(&mut out, "* ");
                push_chars(&mut out, &params[0]);
                assert(out@ =~= "* "@ + params@[0]@);
            } else {
                assert(out@ =~= Seq::<char>::empty());
            }
            Ok(out)
        },
    }
}

fn styled_exec(open: &str, tag: &Vec<char>, params: &Vec<Vec<char>>, close: &str) -> (r: Result<
    Vec<char>,
    ParseError,
>)
    ensures
        chars_result(r) == styled(open@, tag@, texts(params@), close@),
{
    if params.len() == 0 {
        return Err(ParseError::MissingRequiredParameter(tag.clone()));
    }
    assert(texts(params@)[0] == params@[0]@);
    let mut out: Vec<char> = Vec::new();
    push_str(&mut out, open);
    push_chars(&mut out, &params[0]);
    push_str(&mut out, close);
    assert(out@ =~= open@ + params@[0]@ + close@);
    Ok(out)
}

fn shortcode_exec(p: &Vec<char>) -> (r: Vec<char>)
    ensures
        r@ == shortcode(p@),
{
    let n = p.len();
    let a: usize = if n > 0 && p[0] == ':' {
        1
    } else {
        0
    };
    let b: usize = if n > a && p[n - 1] == ':' {
        n - 1
    } else {
        n
    };
    let r = crate::text::slice_of(p, a, b);
    assert(r@ =~= shortcode(p@));
    r
}

/// The text of an emoji directive, given what the symbol table holds for its shortcode `code`.
pub fn emoji_text(code: Vec<char>, glyph: Option<Vec<char>>) -> (r: Result<Vec<char>, ParseError>)
    ensures
        chars_result(r) == glyph_result(
            code@,
            match glyph {
                Some(g) => Some(g@),
                None => None,
            },
        ),
{
    match glyph {
        Some(g) => Ok(g),
        None => Err(ParseError::UnknownSymbol(code)),
    }
}

fn literal(s: &str) -> (r: Vec<char>)
    ensures
        r@ == s@,
{
    let mut r: Vec<char> = Vec::new();
    push_str(&mut r, s);
    assert(r@ =~= s@);
    r
}

fn inline_exec(tag: &Vec<char>, params: &Vec<Vec<char>>) -> (r: Result<Vec<char>, ParseError>)
    ensures
        chars_result(r) == inline(tag@, texts(params@)),
{
    if eq_str(tag, "a") || eq_str(tag, "e") || eq_str(tag, "em") {
        styled_exec("_", tag, params, "_")
    } else if eq_str(tag, "b") {
        styled_exec("**", tag, params, "**")
    } else if eq_str(tag, "c") || eq_str(tag, "p") {
        styled_exec("`", tag, params, "`")
    } else if eq_str(tag, "emoji") {
        if params.len() == 0 {
            return Err(ParseError::MissingRequiredParameter(tag.clone()));
        }
        assert(texts(params@)[0] == params@[0]@);
        let code = shortcode_exec(&params[0]);
        let key = string_from(&code, 0);
        assert(code@.skip(0) =~= code@);
        let glyph = match lookup_emoji(key.as_str()) {
            Some(g) => Some(chars_of(g.as_str())),
            None => None,
        };
        emoji_text(code, glyph)
    } else if eq_str(tag, "note") {
        Ok(literal("> **Note:** "))
    } else if eq_str(tag, "since") {
        Ok(literal("> Available since: "))
    } else if eq_str(tag, "deprecated") {
        Ok(literal("> **Deprecated** "))
    } else if eq_str(tag, "remark") || eq_str(tag, "remarks") {
        Ok(literal("> "))
    } else if eq_str(tag, "par") {
        Ok(literal("# "))
    } else if eq_str(tag, "details") {
        Ok(literal("\n\n"))
    } else {
        let none: Vec<char> = Vec::new();
        assert(none@ =~= Seq::<char>::empty());
        Ok(none)
    }
}

/// Renders one directive in state `gen_state`, and gives the state after it.
pub fn generate_notation(
    tag: &Vec<char>,
    meta: &Vec<Vec<char>>,
    params: &Vec<Vec<char>>,
    gen_state: GenState,
) -> (r: Result<(Vec<char>, GenState), ParseError>)
    ensures
        notation_result(r) == notation_output(tag@, texts(meta@), texts(params@), gen_state),
{
    match section_of_exec(tag) {
        Some(sec) => {
            let e = match entry_exec(sec, tag, meta, params) {
                Ok(e) => e,
                Err(f) => {
                    return Err(f);
                },
            };
            let mut out: Vec<char> = Vec::new();
            let mut st = gen_state;
            match sec {
                Section::Arguments => {
                    if !st.already_added_params {
                        push_heading(&mut out, sec);
                    }
                    st.already_added_params = true;
                },
                Section::Returns => {
                    if !st.already_added_returns {
                        push_heading(&mut out, sec);
                    }
                    st.already_added_returns = true;
                },
                Section::Throws => {
                    if !st.already_added_throws {
                        push_heading(&mut out, sec);
                    }
                    st.already_added_throws = true;
                },
                Section::Precondition => {
                    if !st.already_added_pre {
                        push_heading(&mut out, sec);
                    }
                    st.already_added_pre = true;
                },
                Section::Postcondition => {
                    if !st.already_added_post {
                        push_heading(&mut out, sec);
                    }
                    st.already_added_post = true;
                },
                Section::SeeAlso => {
                    if !st.already_added_see {
                        push_heading(&mut out, sec);
                    }
                    st.already_added_see = true;
                },
            }
            assert(out@ =~= if gen_state.added(sec) {
                Seq::<char>::empty()
            } else {
                heading(sec)
            });
            push_chars(&mut out, &e);
            Ok((out, st))
        },
        None => match inline_exec(tag, params) {
            Ok(x) => Ok((x, gen_state)),
            Err(f) => Err(f),
        },
    }
}

fn star_index_exec(x: &Vec<char>) -> (r: usize)
    ensures
        r == star_index(x@),
        r <= x@.len(),
{
    let mut j: usize = 0;
    assert(x@.skip(0) =~= x@);
    while j < x.len() && x[j] != '*'
        invariant
            j <= x@.len(),
            star_index(x@) == j + star_index(x@.skip(j as int)),
        decreases x.len() - j,
    {
        assert(x@.skip(j as int).drop_first() =~= x@.skip(j + 1));
        j = j + 1;
    }
    j
}

fn remove_first_star_exec(x: &Vec<char>) -> (r: Vec<char>)
    ensures
        r@ == remove_first_star(x@),
{
    let k = star_index_exec(x);
    let mut out = crate::text::slice_of(x, 0, k);
    if k < x.len() {
        let tail = crate::text::slice_of(x, k + 1, x.len());
        push_chars(&mut out, &tail);
        assert(out@ =~= x@.take(k as int) + x@.skip(k + 1));
    } else {
        assert(out@ =~= x@);
    }
    out
}

/// Renders grammar items as Markdown.
pub fn render(items_in: &Vec<GrammarItem>) -> (r: Result<String, ParseError>)
    ensures
        string_result(r) == rendered(items(items_in@)),
{
    let ghost its = items(items_in@);
    let mut out: Vec<char> = Vec::new();
    let mut gen_state = GenState::new();
    let mut group_started: bool = false;
    let mut i: usize = 0;
    assert(out@ =~= Seq::<char>::empty());
    while i < items_in.len()
        invariant
            its == items(items_in@),
            i <= items_in@.len(),
            render_from(its, i as nat, gen_state, group_started, out@) == rendered(its),
        decreases items_in.len() - i,
    {
        assert(its[i as int] == items_in@[i as int]@);
        match &items_in[i] {
            GrammarItem::Notation { meta, params, tag } => {
                match generate_notation(tag, meta, params, gen_state) {
                    Ok((x, st)) => {
                        push_chars(&mut out, &x);
                        gen_state = st;
                    },
                    Err(f) => {
                        return Err(f);
                    },
                }
            },
            GrammarItem::Text(v) => {
                if group_started {
                    let x = remove_first_star_exec(v);
                    push_chars(&mut out, &x);
                } else {
                    push_chars(&mut out, v);
                }
                group_started = false;
            },
            GrammarItem::GroupStart => {
                push_str(&mut out, "# ");
                group_started = true;
            },
            GrammarItem::GroupEnd => {
                group_started = false;
            },
            GrammarItem::Url(u) => {
                let ghost before = out@;
                push_str(&mut out, "<");
                push_chars(&mut out, u);
                push_str(&mut out, ">");
                assert(out@ =~= before + "<"@ + u@ + ">"@);
            },
        }
        i = i + 1;
    }
    assert(out@.skip(0) =~= out@);
    Ok(string_from(&out, 0))
}

/// Turns a Doxygen comment into rustdoc Markdown.
pub fn rustdoc(input: String) -> (r: Result<String, ParseError>)
    ensures
        string_result(r) == markdown_of(input@),
{
    match parse(input) {
        Ok(its) => render(&its),
        Err(e) => Err(e),
    }
}

// Laws.

/// Styling directives are local substitutions: `b` makes its word bold, `c` and `p` make it code
/// and `a`, `e` and `em` make it italic, whatever the state, which they leave as it is.
pub proof fn lemma_styling(w: Seq<char>, meta: Seq<Seq<char>>, st: GenState)
    ensures
        notation_output("b"@, meta, seq![w], st) == Ok::<(Seq<char>, GenState), Failure>(
            ("**"@ + w + "**"@, st),
        ),
        notation_output("c"@, meta, seq![w], st) == Ok::<(Seq<char>, GenState), Failure>(
            ("`"@ + w + "`"@, st),
        ),
        notation_output("p"@, meta, seq![w], st) == Ok::<(Seq<char>, GenState), Failure>(
            ("`"@ + w + "`"@, st),
        ),
        notation_output("a"@, meta, seq![w], st) == Ok::<(Seq<char>, GenState), Failure>(
            ("_"@ + w + "_"@, st),
        ),
        notation_output("e"@, meta, seq![w], st) == Ok::<(Seq<char>, GenState), Failure>(
            ("_"@ + w + "_"@, st),
        ),
        notation_output("em"@, meta, seq![w], st) == Ok::<(Seq<char>, GenState), Failure>(
            ("_"@ + w + "_"@, st),
        ),
{
    reveal_strlit("b");
    reveal_strlit("c");
    reveal_strlit("p");
    reveal_strlit("a");
    reveal_strlit("e");
    reveal_strlit("em");
    reveal_strlit("param");
    reveal_strlit("retval");
    reveal_strlit("returns");
    reveal_strlit("return");
    reveal_strlit("result");
    reveal_strlit("throw");
    reveal_strlit("throws");
    reveal_strlit("exception");
    reveal_strlit("pre");
    reveal_strlit("post");
    reveal_strlit("sa");
    reveal_strlit("see");
    reveal_strlit("emoji");
    assert("b"@.len() == 1);
    assert("c"@.len() == 1);
    assert("p"@.len() == 1);
    assert("a"@.len() == 1);
    assert("e"@.len() == 1);
    assert("em"@.len() == 2);
    assert("param"@.len() == 5);
    assert("retval"@.len() == 6);
    assert("returns"@.len() == 7);
    assert("return"@.len() == 6);
    assert("result"@.len() == 6);
    assert("throw"@.len() == 5);
    assert("throws"@.len() == 6);
    assert("exception"@.len() == 9);
    assert("pre"@.len() == 3);
    assert("post"@.len() == 4);
    assert("sa"@.len() == 2);
    assert("see"@.len() == 3);
    assert("emoji"@.len() == 5);
    assert("a"@[0] == 'a');
    assert("b"@[0] == 'b');
    assert("c"@[0] == 'c');
    assert("e"@[0] == 'e');
    assert("p"@[0] == 'p');
    assert("b"@ != "a"@ && "b"@ != "e"@ && "b"@ != "em"@);
    assert("c"@ != "a"@ && "c"@ != "e"@ && "c"@ != "b"@);
    assert("em"@[0] == 'e' && "sa"@[0] == 's');
    assert("em"@ != "sa"@);
    assert(section_of("em"@) is None);
    assert(section_of("e"@) is None);
    assert(section_of("a"@) is None);
    assert(section_of("p"@) is None);
    assert(seq![w][0] == w);
}

/// A section's heading is emitted once: the first directive of a section renders the heading
/// and its entry, the next one of the same section its entry alone, and no directive clears a
/// heading that was emitted.
pub proof fn lemma_heading_once(
    sec: Section,
    tag1: Seq<char>,
    meta1: Seq<Seq<char>>,
    params1: Seq<Seq<char>>,
    tag2: Seq<char>,
    meta2: Seq<Seq<char>>,
    params2: Seq<Seq<char>>,
    st: GenState,
)
    requires
        section_of(tag1) == Some(sec),
        section_of(tag2) == Some(sec),
        !st.added(sec),
        entry(sec, tag1, meta1, params1) is Ok,
        entry(sec, tag2, meta2, params2) is Ok,
    ensures
        ({
            let (x, st2) = notation_output(tag1, meta1, params1, st)->Ok_0;
            let (y, st3) = notation_output(tag2, meta2, params2, st2)->Ok_0;
            &&& notation_output(tag1, meta1, params1, st) is Ok
            &&& notation_output(tag2, meta2, params2, st2) is Ok
            &&& x == heading(sec) + entry(sec, tag1, meta1, params1)->Ok_0
            &&& y == entry(sec, tag2, meta2, params2)->Ok_0
            &&& st2.added(sec)
            &&& st3 == st2
        }),
{
    let e2 = entry(sec, tag2, meta2, params2)->Ok_0;
    assert(Seq::<char>::empty() + e2 =~= e2);
}

/// Rendering a directive never clears a heading that was emitted.
pub proof fn lemma_headings_stay(
    tag: Seq<char>,
    meta: Seq<Seq<char>>,
    params: Seq<Seq<char>>,
    st: GenState,
    sec: Section,
)
    requires
        st.added(sec),
        notation_output(tag, meta, params, st) is Ok,
    ensures
        notation_output(tag, meta, params, st)->Ok_0.1.added(sec),
{
}

/// The state in which the item at position `j` is rendered.
pub open spec fn state_before(its: Seq<Item>, j: nat) -> GenState
    decreases j,
{
    if j == 0 || j > its.len() {
        GenState::initial()
    } else {
        let st = state_before(its, (j - 1) as nat);
        match its[j - 1] {
            Item::Notation { meta, params, tag } => match notation_output(tag, meta, params, st) {
                Ok((_, st2)) => st2,
                Err(_) => st,
            },
            _ => st,
        }
    }
}

/// Whether `x` is a directive of section `sec` with a valid entry.
pub open spec fn heads_section(x: Item, sec: Section) -> bool {
    match x {
        Item::Notation { meta, params, tag } => section_of(tag) == Some(sec) && entry(
            sec,
            tag,
            meta,
            params,
        ) is Ok,
        _ => false,
    }
}

/// A section's heading is recorded once some directive of that section stands before.
pub proof fn lemma_state_before(its: Seq<Item>, j: nat, sec: Section)
    requires
        j <= its.len(),
    ensures
        state_before(its, j).added(sec) <==> exists|k: int|
            0 <= k < j && heads_section(#[trigger] its[k], sec),
    decreases j,
{
    if j > 0 {
        let p = (j - 1) as nat;
        lemma_state_before(its, p, sec);
        if state_before(its, j).added(sec) {
            if !state_before(its, p).added(sec) {
                assert(heads_section(its[p as int], sec));
            } else {
                let k = choose|k: int| 0 <= k < p && heads_section(#[trigger] its[k], sec);
                assert(0 <= k < j && heads_section(its[k], sec));
            }
        } else {
            assert forall|k: int| 0 <= k < j implies !heads_section(#[trigger] its[k], sec) by {
                if k < p {
                } else {
                    assert(k == p);
                }
            }
        }
    }
}

/// When a document renders, each item is rendered in the state that the items before it
/// leave.
pub proof fn lemma_render_threads_state(its: Seq<Item>, j: nat, out: Seq<char>)
    requires
        rendered(its) == Ok::<Seq<char>, Failure>(out),
        j <= its.len(),
    ensures
        exists|strip: bool, acc: Seq<char>|
            render_from(its, j, state_before(its, j), strip, acc) == Ok::<Seq<char>, Failure>(
                out,
            ),
    decreases j,
{
    if j == 0 {
        assert(render_from(its, 0, state_before(its, 0), false, Seq::empty()) == Ok::<
            Seq<char>,
            Failure,
        >(out));
    } else {
        let p = (j - 1) as nat;
        lemma_render_threads_state(its, p, out);
        let (strip, acc) = choose|strip: bool, acc: Seq<char>|
            render_from(its, p, state_before(its, p), strip, acc) == Ok::<Seq<char>, Failure>(
                out,
            );
        let st = state_before(its, p);
        assert(state_before(its, j) == match its[p as int] {
            Item::Notation { meta, params, tag } => match notation_output(tag, meta, params, st) {
                Ok((_, st2)) => st2,
                Err(_) => st,
            },
            _ => st,
        });
        match its[p as int] {
            Item::Notation { meta, params, tag } => {
                assert(notation_output(tag, meta, params, st) is Ok);
                let (x, st2) = notation_output(tag, meta, params, st)->Ok_0;
                assert(render_from(its, j, state_before(its, j), strip, acc + x) == Ok::<
                    Seq<char>,
                    Failure,
                >(out));
            },
            Item::Text(x) => {
                let y = if strip {
                    remove_first_star(x)
                } else {
                    x
                };
                assert(render_from(its, j, state_before(its, j), false, acc + y) == Ok::<
                    Seq<char>,
                    Failure,
                >(out));
            },
            Item::GroupStart => {
                assert(render_from(its, j, state_before(its, j), true, acc + "# "@) == Ok::<
                    Seq<char>,
                    Failure,
                >(out));
            },
            Item::GroupEnd => {
                assert(render_from(its, j, state_before(its, j), false, acc) == Ok::<
                    Seq<char>,
                    Failure,
                >(out));
            },
            Item::Url(u) => {
                assert(render_from(its, j, state_before(its, j), strip, acc + "<"@ + u + ">"@)
                    == Ok::<Seq<char>, Failure>(out));
            },
        }
    }
}

/// In a document that renders, each directive of a section adds the section's heading before
/// its entry if and only if no directive of the same section stands before it: the heading
/// comes once, with the first directive of its section, and later ones add their entry alone.
pub proof fn lemma_heading_once_in_document(its: Seq<Item>, j: nat, sec: Section, out: Seq<char>)
    requires
        rendered(its) == Ok::<Seq<char>, Failure>(out),
        j < its.len(),
        its[j as int] is Notation,
        section_of(its[j as int]->Notation_tag) == Some(sec),
    ensures
        ({
            let x = its[j as int];
            let st = state_before(its, j);
            &&& exists|strip: bool, acc: Seq<char>|
                render_from(its, j, st, strip, acc) == Ok::<Seq<char>, Failure>(out)
            &&& notation_output(x->Notation_tag, x->Notation_meta, x->Notation_params, st) is Ok
            &&& notation_output(x->Notation_tag, x->Notation_meta, x->Notation_params, st)->Ok_0.0
                == (if exists|k: int| 0 <= k < j && heads_section(#[trigger] its[k], sec) {
                Seq::empty()
            } else {
                heading(sec)
            }) + entry(sec, x->Notation_tag, x->Notation_meta, x->Notation_params)->Ok_0
        }),
{
    lemma_render_threads_state(its, j, out);
    lemma_state_before(its, j, sec);
    let st = state_before(its, j);
    let (strip, acc) = choose|strip: bool, acc: Seq<char>|
        render_from(its, j, st, strip, acc) == Ok::<Seq<char>, Failure>(out);
    let x = its[j as int];
    assert(notation_output(x->Notation_tag, x->Notation_meta, x->Notation_params, st) is Ok);
}

/// Directions may be written in any order and repeated: `@tag[m1] rest` and `@tag[m2] rest`
/// give the same Markdown, or the same error, when the lists `m1` and `m2` name the same
/// directions. The name and the lists are taken of word characters, and the lists without `]`.
pub proof fn lemma_direction_order_rustdoc(
    tag: Seq<char>,
    m1: Seq<char>,
    m2: Seq<char>,
    rest: Seq<char>,
)
    requires
        tag.len() > 0,
        all_letters(tag),
        all_word_chars(tag),
        all_word_chars(m1),
        all_word_chars(m2),
        !m1.contains(']'),
        !m2.contains(']'),
        forall|k: int|
            0 <= k < trimmed_pieces(m1).len() ==> is_direction(#[trigger] trimmed_pieces(m1)[k]),
        forall|k: int|
            0 <= k < trimmed_pieces(m2).len() ==> is_direction(#[trigger] trimmed_pieces(m2)[k]),
        trimmed_pieces(m1).contains("in"@) == trimmed_pieces(m2).contains("in"@),
        trimmed_pieces(m1).contains("out"@) == trimmed_pieces(m2).contains("out"@),
    ensures
        markdown_of(seq!['@'] + directive_word(tag, m1) + seq![' '] + rest) == markdown_of(
            seq!['@'] + directive_word(tag, m2) + seq![' '] + rest,
        ),
{
    let w1 = directive_word(tag, m1);
    let w2 = directive_word(tag, m2);
    assert(all_word_chars(w1)) by {
        assert forall|k: int| 0 <= k < w1.len() implies is_word_char(#[trigger] w1[k]) by {
            if k < tag.len() {
                assert(w1[k] == tag[k]);
            } else if k > tag.len() && k < w1.len() - 1 {
                assert(w1[k] == m1[k - tag.len() - 1]);
            }
        }
    }
    assert(all_word_chars(w2)) by {
        assert forall|k: int| 0 <= k < w2.len() implies is_word_char(#[trigger] w2[k]) by {
            if k < tag.len() {
                assert(w2[k] == tag[k]);
            } else if k > tag.len() && k < w2.len() - 1 {
                assert(w2[k] == m2[k - tag.len() - 1]);
            }
        }
    }
    lemma_lex_directive(w1, rest);
    lemma_lex_directive(w2, rest);
    let x = lex_from(seq![Token::Space], rest);
    let t1 = seq![Token::At(seq!['@']), Token::Word(w1)] + x;
    let t2 = seq![Token::At(seq!['@']), Token::Word(w2)] + x;
    assert(differ_at_word(t1, t2, 1)) by {
        assert forall|m: int| 0 <= m < t1.len() && m != 1 implies t1[m] == t2[m] by {
            if m >= 2 {
                assert(t1[m] == x[m - 2] && t2[m] == x[m - 2]);
            }
        }
    }
    lemma_direction_order_in_document(t1, t2, 1, tag, m1, m2);
}

} // verus!
