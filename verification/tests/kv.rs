use bspedit::kv::{parse_ents_hacky, Entity};

fn texts(data: &str) -> Vec<String> {
    parse_ents_hacky(data).into_iter().map(|e| e.string).collect()
}

fn named(text: &str) -> String {
    Entity { string: text.to_string(), dirty: false }.pretty_name()
}

#[test]
fn records_are_cut_behind_their_closing_brace() {
    assert_eq!(texts("{\n\"a\" \"b\"\n}\n{\n\"c\" \"d\"\n}\n"), vec!["{\n\"a\" \"b\"\n}", "{\n\"c\" \"d\"\n}"]);
}

#[test]
fn no_record_is_dirty_after_parsing() {
    assert!(parse_ents_hacky("{\n}\n{\n}\n").iter().all(|e| !e.dirty));
}

#[test]
fn empty_text_has_no_records() {
    assert_eq!(texts(""), Vec::<String>::new());
}

#[test]
fn short_pieces_keep_their_newline() {
    assert_eq!(texts("}\n"), vec!["}\n"]);
    assert_eq!(texts("{}\n"), vec!["{}\n"]);
    assert_eq!(texts("{a}\n"), vec!["{a}"]);
    assert_eq!(texts("}\n}\n"), vec!["}\n", "}\n"]);
}

#[test]
fn rest_without_a_close_is_a_piece_and_loses_its_last_byte() {
    assert_eq!(texts("{\n}\nabcdef"), vec!["{\n}", "abcde"]);
    assert_eq!(texts("abc"), vec!["abc"]);
    assert_eq!(texts("{\n}\n\0"), vec!["{\n}", "\0"]);
}

#[test]
fn rest_that_ends_in_a_wide_character_is_kept_whole() {
    assert_eq!(texts("{\n}\nabc\u{e9}"), vec!["{\n}", "abc\u{e9}"]);
}

#[test]
fn brace_without_newline_does_not_close() {
    assert_eq!(texts("{ } }\n{x}"), vec!["{ } }", "{x}"]);
    assert_eq!(texts("{\"a\" \"}\"\n}\n"), vec!["{\"a\" \"}\"\n}"]);
}

#[test]
fn wide_characters_pass_through() {
    assert_eq!(texts("{\n\"n\" \"\u{4e16}\u{754c}\"\n}\n{\n}\n"), vec!["{\n\"n\" \"\u{4e16}\u{754c}\"\n}", "{\n}"]);
}

#[test]
fn name_is_the_class_alone_without_origin() {
    assert_eq!(named("{\n\"classname\" \"worldspawn\"\n\"skyname\" \"sky\"\n}"), "worldspawn");
}

#[test]
fn name_without_class_is_empty() {
    assert_eq!(named("{\n\"skyname\" \"sky\"\n}"), "");
    assert_eq!(named(""), "");
}

#[test]
fn origin_is_taken_from_the_14th_byte() {
    let text = "{\n\"origin\" \"128 256 512\"\n\"classname\" \"light\"\n}";
    assert_eq!(named(text), "light< 256 512>");
}

#[test]
fn origin_without_class_still_shows_brackets() {
    assert_eq!(named("\"origin\" \"1 2 3\""), "< 3>");
}

#[test]
fn later_lines_replace_earlier_ones() {
    let text = "\"classname\" \"a\"\n\"classname\" \"bb\"\n\"origin\" \"0 0 0 0\"\n\"origin\" \"1 1 1 1\"";
    assert_eq!(named(text), "bb< 1 1>");
}

#[test]
fn carriage_return_before_newline_is_not_part_of_the_line() {
    assert_eq!(named("\"classname\" \"door\"\r\n\"x\" \"y\"\r\n"), "door");
    assert_eq!(named("\"classname\" \"door\"\r"), "door\"");
}

#[test]
fn line_too_short_for_a_value_gives_none() {
    assert_eq!(named("\"classname\" \""), "");
    assert_eq!(named("\"origin\" \"1\""), "<>");
    assert_eq!(named("\"classname\" \"\""), "");
    assert_eq!(named("\"classname\" \"a"), "");
    assert_eq!(named("\"classname\" \"ab"), "a");
}

#[test]
fn value_cut_inside_a_character_gives_none() {
    assert_eq!(named("\"origin\" \"1 \u{e9}2 3\""), "<>");
    assert_eq!(named("\"classname\" \"caf\u{e9}"), "");
    assert_eq!(named("\"classname\" \"caf\u{e9}\""), "caf\u{e9}");
}

#[test]
fn prefix_must_open_the_line() {
    assert_eq!(named(" \"classname\" \"a\""), "");
    assert_eq!(named("\"classname\"  \"a\""), "");
}
