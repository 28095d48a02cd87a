use my_toolkit::embedded::{embedded, read_leaf, recur_parse, UNWRAP_DEPTH};
use my_toolkit::json::{content_or_input, produced_or_input};
use my_toolkit::keys::{has_unique_keys, merge, write_entry};
use my_toolkit::lists::reversed;
use my_toolkit::order::{entry_precedes, place, rank, text_precedes};
use my_toolkit::sorter::{recur_sort, sort_key, without_keys};
use my_toolkit::text::{parse_text, serialize_compact, serialize_pretty};
use my_toolkit::value::Document;

fn text(s: &str) -> Document {
    Document::String(s.to_string())
}

fn number(n: u64) -> Document {
    Document::Number(sonic_rs::Number::from(n))
}

fn entry(key: &str, value: Document) -> (String, Document) {
    (key.to_string(), value)
}

fn one_of_each() -> Vec<(String, Document)> {
    vec![
        entry("a", Document::Array(vec![number(1)])),
        entry("b", Document::Object(vec![entry("x", number(1))])),
        entry("c", Document::Bool(true)),
        entry("d", number(2)),
        entry("e", Document::Null),
        entry("f", text("s")),
    ]
}

#[test]
fn parse_text_builds_the_document() {
    let doc = parse_text("{\"k\":[null,true,\"s\",3],\"o\":{}}").unwrap();
    assert_eq!(
        doc,
        Document::Object(vec![
            entry("k", Document::Array(vec![Document::Null, Document::Bool(true), text("s"), number(3)])),
            entry("o", Document::Object(vec![])),
        ])
    );
}

#[test]
fn parse_text_keeps_the_last_value_written_for_a_key() {
    let doc = parse_text("{\"a\":1,\"b\":[{\"k\":0,\"k\":null}],\"a\":2}").unwrap();
    assert_eq!(
        doc,
        Document::Object(vec![
            entry("a", number(2)),
            entry("b", Document::Array(vec![Document::Object(vec![entry("k", Document::Null)])])),
        ])
    );
}

#[test]
fn write_entry_replaces_in_place_or_appends() {
    let mut entries = vec![entry("a", number(1)), entry("b", number(2))];
    write_entry(&mut entries, "c".to_string(), number(3));
    assert_eq!(entries, vec![entry("a", number(1)), entry("b", number(2)), entry("c", number(3))]);
    write_entry(&mut entries, "a".to_string(), Document::Null);
    assert_eq!(entries, vec![entry("a", Document::Null), entry("b", number(2)), entry("c", number(3))]);
    write_entry(&mut entries, "c".to_string(), text("last"));
    assert_eq!(entries, vec![entry("a", Document::Null), entry("b", number(2)), entry("c", text("last"))]);
    let mut empty = Vec::new();
    write_entry(&mut empty, "k".to_string(), Document::Bool(false));
    assert_eq!(empty, vec![entry("k", Document::Bool(false))]);
}

#[test]
fn merge_makes_keys_unique_at_every_level() {
    let doc = Document::Object(vec![
        entry("a", number(1)),
        entry("b", Document::Object(vec![entry("k", text("old")), entry("k", text("new"))])),
        entry("a", Document::Array(vec![Document::Object(vec![entry("x", number(1)), entry("x", number(2))])])),
    ]);
    assert_eq!(
        merge(doc),
        Document::Object(vec![
            entry("a", Document::Array(vec![Document::Object(vec![entry("x", number(2))])])),
            entry("b", Document::Object(vec![entry("k", text("new"))])),
        ])
    );
}

#[test]
fn merge_leaves_a_well_formed_document() {
    assert_eq!(merge(Document::Object(one_of_each())), Document::Object(one_of_each()));
    assert_eq!(merge(Document::Array(vec![number(1), number(1)])), Document::Array(vec![number(1), number(1)]));
    assert_eq!(merge(text("s")), text("s"));
    assert_eq!(merge(Document::Null), Document::Null);
}

#[test]
fn parse_text_tells_failure_from_a_scalar() {
    assert!(parse_text("{not json").is_err());
    assert!(parse_text("").is_err());
    assert!(parse_text("[1,").is_err());
    assert_eq!(parse_text("null").unwrap(), Document::Null);
    assert_eq!(parse_text("false").unwrap(), Document::Bool(false));
    assert_eq!(parse_text("\"\"").unwrap(), text(""));
}

#[test]
fn serialize_writes_both_forms() {
    let doc = Document::Object(vec![
        entry("a", Document::Array(vec![number(1), text("x\"y")])),
        entry("b", Document::Null),
    ]);
    assert_eq!(serialize_compact(&doc).unwrap(), "{\"a\":[1,\"x\\\"y\"],\"b\":null}");
    assert_eq!(
        serialize_pretty(&doc).unwrap(),
        "{\n  \"a\": [\n    1,\n    \"x\\\"y\"\n  ],\n  \"b\": null\n}"
    );
}

#[test]
fn rank_follows_the_canonical_order_of_kinds() {
    assert_eq!(rank(&text("")), 0);
    assert_eq!(rank(&Document::Null), 1);
    assert_eq!(rank(&number(0)), 2);
    assert_eq!(rank(&Document::Bool(false)), 3);
    assert_eq!(rank(&Document::Object(vec![])), 4);
    assert_eq!(rank(&Document::Array(vec![])), 5);
}

#[test]
fn text_precedes_is_the_order_of_strings() {
    assert!(text_precedes("a", "b"));
    assert!(!text_precedes("b", "a"));
    assert!(text_precedes("a", "ab"));
    assert!(!text_precedes("ab", "a"));
    assert!(text_precedes("", "a"));
    assert!(!text_precedes("a", "a"));
    assert!(!text_precedes("", ""));
    assert!(text_precedes("Z", "a"));
    assert!(text_precedes("z", "\u{e9}"));
    assert!(text_precedes("10", "2"));
    for (a, b) in [("a", "b"), ("ab", "a"), ("", ""), ("\u{4e2d}", "\u{e9}"), ("x", "x")] {
        assert_eq!(text_precedes(a, b), a < b);
    }
}

#[test]
fn entry_precedes_looks_at_kind_only_when_ranked() {
    let array = entry("a", Document::Array(vec![]));
    let string = entry("z", text(""));
    assert!(entry_precedes(&string, &array, true));
    assert!(!entry_precedes(&array, &string, true));
    assert!(entry_precedes(&array, &string, false));
    assert!(!entry_precedes(&string, &array, false));
    let one = entry("k", number(1));
    let two = entry("k", number(2));
    assert!(!entry_precedes(&one, &two, true));
    assert!(!entry_precedes(&two, &one, true));
}

#[test]
fn place_puts_an_entry_before_the_first_that_need_not_precede_it() {
    let mut sorted = vec![entry("a", number(1)), entry("c", number(2)), entry("c", number(3))];
    place(&mut sorted, entry("b", number(9)), true);
    place(&mut sorted, entry("c", number(0)), true);
    place(&mut sorted, entry("z", text("first")), true);
    place(&mut sorted, entry("a", Document::Array(vec![])), true);
    assert_eq!(
        sorted,
        vec![
            entry("z", text("first")),
            entry("a", number(1)),
            entry("b", number(9)),
            entry("c", number(0)),
            entry("c", number(2)),
            entry("c", number(3)),
            entry("a", Document::Array(vec![])),
        ]
    );
}

#[test]
fn place_into_an_empty_list() {
    let mut sorted = Vec::new();
    place(&mut sorted, entry("only", Document::Null), false);
    assert_eq!(sorted, vec![entry("only", Document::Null)]);
}

#[test]
fn recur_sort_orders_an_object_by_kind_then_key() {
    let sorted = recur_sort(Document::Object(one_of_each()));
    let mut expected = one_of_each();
    expected.reverse();
    assert_eq!(sorted, Document::Object(expected));
    let mut shuffled = one_of_each();
    shuffled.swap(0, 3);
    shuffled.swap(1, 5);
    let mut expected = one_of_each();
    expected.reverse();
    assert_eq!(recur_sort(Document::Object(shuffled)), Document::Object(expected));
}

#[test]
fn recur_sort_orders_an_array_by_compact_text() {
    let doc = Document::Array(vec![number(2), number(10), text("a"), Document::Null, number(1)]);
    assert_eq!(
        recur_sort(doc),
        Document::Array(vec![text("a"), number(1), number(10), number(2), Document::Null])
    );
}

#[test]
fn recur_sort_leaves_scalars_and_empty_containers() {
    assert_eq!(recur_sort(Document::Null), Document::Null);
    assert_eq!(recur_sort(Document::Bool(true)), Document::Bool(true));
    assert_eq!(recur_sort(number(5)), number(5));
    assert_eq!(recur_sort(text("b,a")), text("b,a"));
    assert_eq!(recur_sort(Document::Array(vec![])), Document::Array(vec![]));
    assert_eq!(recur_sort(Document::Object(vec![])), Document::Object(vec![]));
}

#[test]
fn recur_sort_twice_is_recur_sort_once() {
    let make = || {
        Document::Array(vec![
            Document::Object(one_of_each()),
            Document::Array(vec![number(3), number(1), number(2)]),
            text("x"),
        ])
    };
    assert_eq!(recur_sort(recur_sort(make())), recur_sort(make()));
}

#[test]
fn sort_key_is_the_compact_text() {
    assert_eq!(sort_key(&text("a")), "\"a\"");
    assert_eq!(sort_key(&Document::Array(vec![number(1), Document::Null])), "[1,null]");
}

#[test]
fn reversed_turns_a_list_round() {
    assert_eq!(reversed(vec![1, 2, 3]), vec![3, 2, 1]);
    assert_eq!(reversed(Vec::<u8>::new()), Vec::<u8>::new());
}

#[test]
fn without_keys_keeps_the_documents_in_order() {
    assert_eq!(
        without_keys(vec![entry("x", number(1)), entry("y", Document::Null)]),
        vec![number(1), Document::Null]
    );
}

#[test]
fn embedded_takes_structures_only() {
    assert_eq!(embedded(Some(text("s"))), Some(text("s")));
    assert_eq!(embedded(Some(Document::Array(vec![]))), Some(Document::Array(vec![])));
    assert_eq!(embedded(Some(Document::Object(vec![]))), Some(Document::Object(vec![])));
    assert_eq!(embedded(Some(number(42))), None);
    assert_eq!(embedded(Some(Document::Bool(true))), None);
    assert_eq!(embedded(Some(Document::Null)), None);
    assert_eq!(embedded(None), None);
}

#[test]
fn read_leaf_reads_structures_only() {
    assert_eq!(read_leaf("[1]"), Some(Document::Array(vec![number(1)])));
    assert_eq!(read_leaf("\"inner\""), Some(text("inner")));
    assert_eq!(read_leaf("42"), None);
    assert_eq!(read_leaf("plain"), None);
    assert_eq!(read_leaf(""), None);
}

#[test]
fn recur_parse_replaces_a_leaf_by_what_it_holds() {
    let doc = Document::Object(vec![entry("a", text("{\"b\":1}")), entry("n", text("42"))]);
    assert_eq!(
        recur_parse(doc, UNWRAP_DEPTH),
        Document::Object(vec![
            entry("a", Document::Object(vec![entry("b", number(1))])),
            entry("n", text("42")),
        ])
    );
}

#[test]
fn recur_parse_stops_at_the_depth_given() {
    let chain = || text("\"\\\"[1]\\\"\"");
    assert_eq!(recur_parse(chain(), 0), chain());
    assert_eq!(recur_parse(chain(), 1), text("\"[1]\""));
    assert_eq!(recur_parse(chain(), 2), text("[1]"));
    assert_eq!(recur_parse(chain(), 3), Document::Array(vec![number(1)]));
    assert_eq!(recur_parse(chain(), UNWRAP_DEPTH), Document::Array(vec![number(1)]));
}

#[test]
fn recur_parse_counts_depth_along_each_path() {
    let doc = Document::Array(vec![text("[\"[2]\"]"), text("[3]")]);
    assert_eq!(
        recur_parse(doc, 1),
        Document::Array(vec![Document::Array(vec![text("[2]")]), Document::Array(vec![number(3)])])
    );
}

#[test]
fn the_depth_cap_is_sixty_four() {
    assert_eq!(UNWRAP_DEPTH, 64);
}

#[test]
fn produced_or_input_falls_back_to_the_input() {
    assert_eq!(produced_or_input(Some("out".to_string()), "in"), "out");
    assert_eq!(produced_or_input(None, "in"), "in");
}

#[test]
fn content_or_input_takes_strings_only() {
    assert_eq!(content_or_input(Ok(text("inner")), "in"), "inner");
    assert_eq!(content_or_input(Ok(number(1)), "in"), "in");
    assert_eq!(content_or_input(Ok(Document::Array(vec![text("a")])), "in"), "in");
    assert_eq!(content_or_input(parse_text("{bad"), "{bad"), "{bad");
}

#[test]
fn has_unique_keys_looks_at_every_object() {
    assert!(has_unique_keys(&Document::Null));
    assert!(has_unique_keys(&text("a")));
    assert!(has_unique_keys(&Document::Object(one_of_each())));
    assert!(has_unique_keys(&Document::Array(vec![number(1), number(1)])));
    assert!(!has_unique_keys(&Document::Object(vec![entry("a", number(1)), entry("a", number(1))])));
    assert!(!has_unique_keys(&Document::Object(vec![
        entry("a", number(1)),
        entry("b", number(2)),
        entry("a", number(3)),
    ])));
    assert!(!has_unique_keys(&Document::Array(vec![
        Document::Null,
        Document::Object(vec![entry("k", Document::Object(vec![entry("x", number(1)), entry("x", number(2))]))]),
    ])));
    assert!(has_unique_keys(&Document::Object(vec![
        entry("k", Document::Object(vec![entry("k", number(1))])),
        entry("l", Document::Object(vec![entry("k", number(2))])),
    ])));
}

#[test]
fn merge_gives_unique_keys() {
    let doc = Document::Object(vec![entry("a", number(1)), entry("a", number(2))]);
    assert!(!has_unique_keys(&doc));
    assert!(has_unique_keys(&merge(doc)));
}
