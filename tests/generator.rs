use doxygen_rs::{render, rustdoc, GrammarItem};
use doxygen_rs::ParseError;

fn test_rustdoc(input: &str, expected: &str) {
    let result = rustdoc(input.into()).unwrap();
    assert_eq!(result, expected);
}

fn chars(s: &str) -> Vec<char> {
    s.chars().collect()
}

#[test]
fn unknown_annotation() {
    test_rustdoc("@thisdoesntexist Example doc", "Example doc");
}

#[test]
fn param_with_direction() {
    test_rustdoc(
        "@param[in] example This insane thing.",
        "# Arguments\n\n* `example` (direction in) - This insane thing.",
    );

    test_rustdoc(
        "@param[in,out] example This insane thing.",
        "# Arguments\n\n* `example` (direction in, out) - This insane thing.",
    );

    test_rustdoc(
        "@param[out,in] example This insane thing.",
        "# Arguments\n\n* `example` (direction in, out) - This insane thing.",
    );
}

#[test]
fn param_without_direction() {
    test_rustdoc(
        "@param example This is definitively an example!",
        "# Arguments\n\n* `example` - This is definitively an example!",
    );
}

#[test]
fn multiple_params() {
    test_rustdoc(
        "@param example1 This is the first example\n@param[out] example2 This is the second example\n@param[in] example3 This is the third example.",
        "# Arguments\n\n* `example1` - This is the first example\n* `example2` (direction out) - This is the second example\n* `example3` (direction in) - This is the third example.",
    );
}

#[test]
fn italics() {
    test_rustdoc(
        "This @a thing is without a doubt @e great. @em And you won't tell me otherwise.",
        "This _thing_ is without a doubt _great._ _And_ you won't tell me otherwise.",
    );
}

#[test]
fn bold() {
    test_rustdoc("This is a @b bold claim.", "This is a **bold** claim.");
}

#[test]
fn code_inline() {
    test_rustdoc(
        "@c u8 is not the same as @p u32",
        "`u8` is not the same as `u32`",
    );
}

#[test]
fn emoji() {
    test_rustdoc("@emoji :relieved: @emoji :ok_hand:", "😌 👌");
}

#[test]
fn text_styling() {
    test_rustdoc(
        "This is from @a Italy. ( @b I @c hope @emoji :pray: )",
        "This is from _Italy._ ( **I** `hope` 🙏 )",
    );
}

#[test]
fn brief() {
    test_rustdoc(
        "@brief This function does things.\n@short This function also does things.",
        "This function does things.\nThis function also does things.",
    );
}

#[test]
fn see_also() {
    test_rustdoc(
        "@sa random_thing @see random_thing_2",
        "# See also\n\n[`random_thing`] [`random_thing_2`]",
    );
}

#[test]
fn deprecated() {
    test_rustdoc(
        "@deprecated This function is deprecated!\n@param example_1 Example 1.",
        "> **Deprecated** This function is deprecated!\n# Arguments\n\n* `example_1` - Example 1.",
    );
}

#[test]
fn details() {
    test_rustdoc(
        "@brief This function is insane!\n@details This is an insane function because its functionality and performance is quite astonishing.",
        "This function is insane!\n\n\nThis is an insane function because its functionality and performance is quite astonishing.",
    );
}

#[test]
fn paragraph() {
    test_rustdoc(
        "@par Interesting fact about this function\nThis is a function.",
        "# Interesting fact about this function\nThis is a function.",
    );
}

#[test]
fn remark() {
    test_rustdoc(
        "@remark This things needs to be\n@remark remarked.",
        "> This things needs to be\n> remarked.",
    );
}

#[test]
fn returns_family() {
    test_rustdoc(
        "@returns A value that should be\n@return used with caution.\n@result And if it's @c -1 ... run.",
        "# Returns\n\nA value that should be\nused with caution.\nAnd if it's `-1` ... run.",
    );
}

#[test]
fn return_value() {
    test_rustdoc(
        "@retval example1 This return value is great!",
        "# Returns\n\n* `example1` - This return value is great!",
    );
}

#[test]
fn returns_and_return_value() {
    test_rustdoc(
        "@returns Great values!\n@retval example1 Is this an example?\n@return Also maybe more things (?)",
        "# Returns\n\nGreat values!\n* `example1` - Is this an example?\nAlso maybe more things (?)",
    );

    test_rustdoc(
        "@returns Great values!\n@return Also maybe more things (?)\n@retval example1 Is this an example?",
        "# Returns\n\nGreat values!\nAlso maybe more things (?)\n* `example1` - Is this an example?",
    );

    test_rustdoc(
        "@retval example1 Is this an example?\n@returns Great values!\n@return Also maybe more things (?)",
        "# Returns\n\n* `example1` - Is this an example?\nGreat values!\nAlso maybe more things (?)",
    );
}

#[test]
fn since() {
    test_rustdoc(
        "@since The bite of '87",
        "> Available since: The bite of '87",
    );
}

#[test]
fn throws() {
    test_rustdoc(
        "@throw std::io::bonk This is thrown when INSANE things happen.\n@throws std::net::meow This is thrown when BAD things happen.\n@exception std::fs::no This is thrown when NEFARIOUS things happen.",
        "# Throws\n\n* [`std::io::bonk`] - This is thrown when INSANE things happen.\n* [`std::net::meow`] - This is thrown when BAD things happen.\n* [`std::fs::no`] - This is thrown when NEFARIOUS things happen.",
    );
}

#[test]
fn can_parse_example() {
    let example = "Creates a new context.\n@brief Initializes the library.\n@param[in] flags Options, see <a href=\"https://example.com/docs#flags\">the docs</a>.\n@param[out] handle Where the handle goes.\n@return Zero on success.\n@retval -1 On failure.\n@note Call once per process.<br>\n@see shutdown";
    let result = rustdoc(example.into());
    assert!(result.is_ok());
    println!("{}", result.unwrap());
}

#[test]
fn precondition() {
    test_rustdoc(
        "@pre precondition\n@pre precondition2\n@pre precondition3",
        "# Precondition\n\n* precondition\n* precondition2\n* precondition3",
    );
}

#[test]
fn postcondition() {
    test_rustdoc(
        "@post postcondition\n@post postcondition2\n@post postcondition3",
        "# Postcondition\n\n* postcondition\n* postcondition2\n* postcondition3",
    );
}

#[test]
fn plain_prose_is_unchanged() {
    test_rustdoc(
        "Just some text, with {braces} and * stars.\nSecond line.",
        "Just some text, with {braces} and * stars.\nSecond line.",
    );
}

#[test]
fn urls_and_html_tags_pass_through() {
    test_rustdoc(
        "See https://example.com/a?b=1 now<br>and <b>this</b> a < b",
        "See <https://example.com/a?b=1> now<br>and \\<b\\>this\\</b\\> a < b",
    );
}

#[test]
fn styling_is_local() {
    test_rustdoc("@b bold", "**bold**");
    test_rustdoc("@c x", "`x`");
    test_rustdoc("@a x", "_x_");
}

#[test]
fn throws_heading_once() {
    test_rustdoc(
        "@throw a::b msg1\n@throws c::d msg2",
        "# Throws\n\n* [`a::b`] - msg1\n* [`c::d`] - msg2",
    );
}

#[test]
fn see_also_heading_once() {
    test_rustdoc("@sa x\n@see y", "# See also\n\n[`x`]\n[`y`]");
}

#[test]
fn unknown_emoji_is_an_error() {
    let result = rustdoc("@emoji :not_an_emoji_at_all:".into());
    assert_eq!(result, Err(ParseError::UnknownSymbol(chars("not_an_emoji_at_all"))));
}

#[test]
fn missing_parameter_is_an_error() {
    assert_eq!(
        rustdoc("@throws".into()),
        Err(ParseError::MissingRequiredParameter(chars("throws")))
    );
    assert_eq!(
        rustdoc("@emoji\nx".into()),
        Err(ParseError::MissingRequiredParameter(chars("emoji")))
    );
    assert_eq!(
        rustdoc("@b".into()),
        Err(ParseError::MissingRequiredParameter(chars("b")))
    );
}

#[test]
fn malformed_modifiers_are_an_error() {
    assert_eq!(
        rustdoc("@param[in x".into()),
        Err(ParseError::MalformedModifierList(chars("param")))
    );
    assert_eq!(
        rustdoc("@param[in,] x".into()),
        Err(ParseError::MalformedModifierList(chars("param")))
    );
}

#[test]
fn group_errors() {
    assert_eq!(rustdoc("text @}".into()), Err(ParseError::UnmatchedGroupEnd));
    assert_eq!(rustdoc("@{ text".into()), Err(ParseError::UnterminatedGroup));
}

#[test]
fn group_heading_strips_one_star() {
    test_rustdoc("@{* label @}", "#  label ");
    test_rustdoc("@{* a * b @}", "#  a * b ");
    test_rustdoc("@{* a @}* b", "#  a * b");
}

#[test]
fn pre_takes_the_rest_of_the_line() {
    test_rustdoc(
        "@pre x is positive\nBody.",
        "# Precondition\n\n* x is positive\nBody.",
    );
}

#[test]
fn modifiers_are_trimmed_and_deduplicated() {
    test_rustdoc(
        "@param[out,in,out] v Value.",
        "# Arguments\n\n* `v` (direction in, out) - Value.",
    );
    test_rustdoc(
        "@param[\tin\t] v Value.",
        "# Arguments\n\n* `v` (direction in) - Value.",
    );
}

#[test]
fn group_items_render() {
    let items = vec![
        GrammarItem::GroupStart,
        GrammarItem::Text(chars("* label")),
        GrammarItem::GroupEnd,
    ];
    assert_eq!(render(&items), Ok(String::from("#  label")));
    let items = vec![
        GrammarItem::GroupStart,
        GrammarItem::Text(chars("* a")),
        GrammarItem::Url(chars("https://x.org")),
        GrammarItem::Text(chars("* b")),
        GrammarItem::GroupEnd,
    ];
    assert_eq!(render(&items), Ok(String::from("#  a<https://x.org>* b")));
}

#[test]
fn pre_stops_at_a_directive() {
    assert_eq!(rustdoc("@pre x @}".into()), Err(ParseError::UnmatchedGroupEnd));
    test_rustdoc("@pre x is @c y", "# Precondition\n\n* x is `y`");
    test_rustdoc(
        "@post see https://a.b/c\nDone.",
        "# Postcondition\n\n* see <https://a.b/c>\nDone.",
    );
}

#[test]
fn direction_lists_in_any_order() {
    let a = rustdoc("@param[out,in,out] v Value.\n@retval 0 Ok.".into());
    let b = rustdoc("@param[in,\tout] v Value.\n@retval 0 Ok.".into());
    assert_eq!(a, b);
    assert_eq!(
        a,
        Ok(String::from(
            "# Arguments\n\n* `v` (direction in, out) - Value.\n# Returns\n\n* `0` - Ok."
        ))
    );
}
