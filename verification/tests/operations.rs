use my_toolkit::json;

const NESTED: &str = "{\n  \"a\": {\n    \"b\": 1\n  }\n}";

#[test]
fn invalid_text_comes_back_unchanged() {
    let x = "{not json";
    assert_eq!(json::format(x), x);
    assert_eq!(json::compress(x), x);
    assert_eq!(json::sort_format(x), x);
    assert_eq!(json::recur_format(x), x);
    assert_eq!(json::parse(x), x);
}

#[test]
fn empty_text_comes_back_unchanged() {
    assert_eq!(json::format(""), "");
    assert_eq!(json::compress(""), "");
    assert_eq!(json::sort_format(""), "");
    assert_eq!(json::recur_format(""), "");
    assert_eq!(json::parse(""), "");
}

#[test]
fn trailing_garbage_is_not_json() {
    let x = "{\"a\":1} x";
    assert_eq!(json::format(x), x);
    assert_eq!(json::compress(x), x);
}

#[test]
fn compress_drops_layout() {
    assert_eq!(
        json::compress("{ \"a\" : [1, 2,  3] , \"b\": null }"),
        "{\"a\":[1,2,3],\"b\":null}"
    );
}

#[test]
fn compress_keeps_numbers_as_written_in_canonical_form() {
    assert_eq!(
        json::compress("[0, -1, 18446744073709551615, -9223372036854775808, 1.5]"),
        "[0,-1,18446744073709551615,-9223372036854775808,1.5]"
    );
}

#[test]
fn format_indents_with_two_spaces() {
    assert_eq!(json::format("{\"a\":[1,2]}"), "{\n  \"a\": [\n    1,\n    2\n  ]\n}");
}

#[test]
fn format_of_scalars() {
    assert_eq!(json::format(" null "), "null");
    assert_eq!(json::format("true"), "true");
    assert_eq!(json::format("\"a\\nb\""), "\"a\\nb\"");
    assert_eq!(json::format("[]"), "[]");
    assert_eq!(json::format("{}"), "{}");
}

#[test]
fn format_keeps_the_order_of_keys_and_items() {
    assert_eq!(json::compress(&json::format("{\"b\":[3,1,2],\"a\":0}")), "{\"b\":[3,1,2],\"a\":0}");
}

#[test]
fn format_is_idempotent() {
    for x in ["{\"b\":[3,1,2],\"a\":{\"k\":\"v\"}}", "[1, \"two\", null, 3.25, true]", "\"s\"", "{not json"] {
        let once = json::format(x);
        assert_eq!(json::format(&once), once);
    }
}

#[test]
fn a_key_written_twice_keeps_its_place_and_its_last_value() {
    assert_eq!(json::compress("{\"a\":1,\"b\":0,\"a\":2}"), "{\"a\":2,\"b\":0}");
    assert_eq!(json::sort_format("{\"a\":1,\"a\":2}"), "{\n  \"a\": 2\n}");
}

#[test]
fn sort_format_orders_entries_by_kind_before_key() {
    let x = "{\"a\":[1],\"b\":{\"x\":1},\"c\":true,\"d\":2,\"e\":null,\"f\":\"s\"}";
    let expected = "{\n  \"f\": \"s\",\n  \"e\": null,\n  \"d\": 2,\n  \"c\": true,\n  \"b\": {\n    \"x\": 1\n  },\n  \"a\": [\n    1\n  ]\n}";
    assert_eq!(json::sort_format(x), expected);
    let shuffled = "{\"d\":2,\"f\":\"s\",\"a\":[1],\"e\":null,\"c\":true,\"b\":{\"x\":1}}";
    assert_eq!(json::sort_format(shuffled), expected);
}

#[test]
fn sort_format_orders_entries_of_one_kind_by_key() {
    assert_eq!(
        json::sort_format("{\"b\":1,\"ab\":2,\"a\":3,\"B\":4}"),
        "{\n  \"B\": 4,\n  \"a\": 3,\n  \"ab\": 2,\n  \"b\": 1\n}"
    );
}

#[test]
fn sort_format_orders_items_by_their_compact_text() {
    assert_eq!(json::sort_format("[2,10,1]"), "[\n  1,\n  10,\n  2\n]");
    assert_eq!(
        json::compress(&json::sort_format("[true,\"a\",null,1,{\"a\":1},[0]]")),
        "[\"a\",1,[0],null,true,{\"a\":1}]"
    );
}

#[test]
fn sort_format_sorts_children_before_their_container() {
    assert_eq!(
        json::compress(&json::sort_format("[{\"b\":1,\"a\":\"x\"},{\"a\":\"w\",\"b\":1}]")),
        "[{\"a\":\"w\",\"b\":1},{\"a\":\"x\",\"b\":1}]"
    );
    assert_eq!(json::compress(&json::sort_format("[[3,2],[1,4]]")), "[[1,4],[2,3]]");
}

#[test]
fn sort_format_is_idempotent() {
    for x in [
        "{\"a\":[1],\"b\":{\"x\":1,\"w\":[3,2,1]},\"c\":true,\"d\":2,\"e\":null,\"f\":\"s\"}",
        "[2,10,1,\"z\",{\"k\":null}]",
        "7",
        "{not json",
    ] {
        let once = json::sort_format(x);
        assert_eq!(json::sort_format(&once), once);
    }
}

#[test]
fn sort_format_does_not_depend_on_key_order() {
    let one = "{\"name\":\"n\",\"id\":7,\"tags\":{\"x\":1,\"y\":[2,1]},\"on\":false}";
    let other = "{\"on\":false,\"tags\":{\"y\":[2,1],\"x\":1},\"id\":7,\"name\":\"n\"}";
    assert_eq!(json::sort_format(one), json::sort_format(other));
    assert_eq!(
        json::compress(&json::sort_format(one)),
        "{\"name\":\"n\",\"id\":7,\"on\":false,\"tags\":{\"x\":1,\"y\":[1,2]}}"
    );
}

#[test]
fn recur_format_unwraps_one_level() {
    assert_eq!(json::recur_format("{\"a\":\"{\\\"b\\\":1}\"}"), NESTED);
}

#[test]
fn recur_format_unwraps_several_levels() {
    let inner = "{\"b\":1}";
    let twice = json::stringify(&json::stringify(inner));
    let x = format!("{{\"a\":{}}}", twice);
    assert_eq!(json::recur_format(&x), NESTED);
}

#[test]
fn recur_format_unwraps_inside_arrays_and_keeps_order() {
    assert_eq!(
        json::compress(&json::recur_format("[\"[2,1]\",\"x\",\"{\\\"k\\\":\\\"[]\\\"}\"]")),
        "[[2,1],\"x\",{\"k\":[]}]"
    );
}

#[test]
fn recur_format_leaves_a_scalar_in_a_string() {
    assert_eq!(json::recur_format("\"42\""), "\"42\"");
    assert_eq!(json::recur_format("\"true\""), "\"true\"");
    assert_eq!(json::recur_format("\"null\""), "\"null\"");
    assert_eq!(json::recur_format("{\"n\":\"1.5\"}"), "{\n  \"n\": \"1.5\"\n}");
}

#[test]
fn recur_format_leaves_text_that_is_not_json() {
    assert_eq!(json::recur_format("{\"a\":\"{oops\"}"), "{\n  \"a\": \"{oops\"\n}");
}

#[test]
fn recur_format_ends_on_a_long_chain_of_quoted_strings() {
    let mut x = String::from("{\"deep\":true}");
    for _ in 0..12 {
        x = json::stringify(&x);
    }
    assert_eq!(json::recur_format(&x), "{\n  \"deep\": true\n}");
}

#[test]
fn stringify_quotes_and_escapes() {
    assert_eq!(json::stringify("abc"), "\"abc\"");
    assert_eq!(json::stringify(""), "\"\"");
    assert_eq!(json::stringify("{\"b\":1}"), "\"{\\\"b\\\":1}\"");
    assert_eq!(json::stringify("not json at all {"), "\"not json at all {\"");
}

#[test]
fn stringify_then_parse_gives_the_text_back() {
    let raw = "say \"hi\" \\ then\n\ttab \u{1} end \u{e9}\u{4e2d}";
    let literal = json::stringify(raw);
    assert_eq!(literal, "\"say \\\"hi\\\" \\\\ then\\n\\ttab \\u0001 end \u{e9}\u{4e2d}\"");
    assert_eq!(json::parse(&literal), raw);
    for s in ["", "\"", "\\", "\u{0}\u{1f}\u{7f}", "{\"a\":1}", "line\r\nline"] {
        assert_eq!(json::parse(&json::stringify(s)), s);
    }
}

#[test]
fn parse_decodes_a_string_literal() {
    assert_eq!(json::parse("\"a\\u0041\\n\\\"\""), "aA\n\"");
    assert_eq!(json::parse("  \"x\"  "), "x");
}

#[test]
fn parse_leaves_other_kinds_unchanged() {
    for x in ["42", "null", "true", "[\"a\"]", "{\"a\":\"b\"}", " 1 "] {
        assert_eq!(json::parse(x), x);
    }
}
