use buildtree::document::{
    extract_str, extract_u32_from_obj, extract_u64_from_obj, JsonObject, Scalar,
};
use buildtree::json::parse_document;
use buildtree::record::{classify_file, entry_from_document, tally, FileOutcome, ParsedEntry};
use buildtree::tree::{build_tree, name_le, output_tree, CollectionNode};

fn entry_of(text: &str) -> ParsedEntry {
    let doc = parse_document(text.as_bytes()).expect("valid JSON");
    entry_from_document(&doc)
}

fn entries_of(texts: &[&str]) -> Vec<ParsedEntry> {
    let outcomes: Vec<FileOutcome> =
        texts.iter().map(|t| classify_file(Some(t.as_bytes()))).collect();
    tally(&outcomes).entries
}

fn item_count(tree: &[CollectionNode]) -> usize {
    tree.iter()
        .flat_map(|c| c.titles.iter())
        .flat_map(|t| t.tabs.iter())
        .map(|b| b.items.len())
        .sum()
}

#[test]
fn no_episode_info_uses_outer_fields() {
    let e = entry_of(
        r#"{"p": 3, "duration": 120, "loadedSize": 4096, "cid": 77, "bvid": "BV1",
            "groupTitle": "G", "title": "T", "tabName": "tab"}"#,
    );
    assert_eq!(e.record.position, 3);
    assert_eq!(e.record.title, "T");
    assert_eq!(e.record.duration, 120);
    assert_eq!(e.record.loaded_size, 4096);
    assert_eq!(e.record.external_id, "BV1");
    assert_eq!(e.record.content_id, 77);
    assert_eq!(e.record.collection_title, "G");
    assert_eq!(e.record.tab_name, "tab");
    assert_eq!(e.episode_candidate, Some(3));
}

#[test]
fn episode_info_overrides_and_its_p_wins() {
    let e = entry_of(
        r#"{"p": 3, "bvid": "outer", "groupTitle": "G0", "title": "T0", "tabName": "tab",
            "epInfo": {"p": 9, "bvid": "inner", "groupTitle": "G1", "title": "T1", "tabName": "other"}}"#,
    );
    assert_eq!(e.record.position, 3);
    assert_eq!(e.record.external_id, "inner");
    assert_eq!(e.record.collection_title, "G1");
    assert_eq!(e.record.title, "T1");
    assert_eq!(e.record.tab_name, "tab");
    assert_eq!(e.episode_candidate, Some(9));
}

#[test]
fn episode_info_without_number_falls_back_to_outer_p() {
    let e = entry_of(r#"{"p": 4, "title": "T", "epInfo": {"title": "E"}}"#);
    assert_eq!(e.record.title, "E");
    assert_eq!(e.record.collection_title, "<unknown>");
    assert_eq!(e.episode_candidate, Some(4));
    let big = entry_of(r#"{"p": 4, "epInfo": {"p": 4294967296}}"#);
    assert_eq!(big.episode_candidate, Some(4));
    let non_object = entry_of(r#"{"p": 5, "title": "T", "epInfo": 12}"#);
    assert_eq!(non_object.record.title, "T");
    assert_eq!(non_object.episode_candidate, Some(5));
}

#[test]
fn tab_name_is_never_taken_from_episode_info() {
    let e = entry_of(r#"{"epInfo": {"tabName": "inner"}}"#);
    assert_eq!(e.record.tab_name, "<unknown>");
}

#[test]
fn missing_and_unusable_fields_default() {
    let e = entry_of(r#"{"p": -1, "duration": 1.5, "loadedSize": "9", "cid": null, "title": 3}"#);
    assert_eq!(e.record.position, 0);
    assert_eq!(e.record.duration, 0);
    assert_eq!(e.record.loaded_size, 0);
    assert_eq!(e.record.content_id, 0);
    assert_eq!(e.record.title, "<unknown>");
    assert_eq!(e.record.external_id, "<unknown>");
    assert_eq!(e.episode_candidate, Some(0));
    let array = entry_of("[1, 2]");
    assert_eq!(array.record.tab_name, "<unknown>");
}

#[test]
fn extractors_read_typed_fields() {
    let obj = JsonObject {
        entries: vec![
            ("a".to_string(), Scalar::Unsigned(5_000_000_000)),
            ("b".to_string(), Scalar::Text("x".to_string())),
            ("c".to_string(), Scalar::Other),
            ("a".to_string(), Scalar::Unsigned(1)),
        ],
    };
    let ep = JsonObject { entries: vec![("b".to_string(), Scalar::Text("y".to_string()))] };
    assert_eq!(extract_u32_from_obj(&obj, "a"), 0);
    assert_eq!(extract_u64_from_obj(&obj, "a"), 5_000_000_000);
    assert_eq!(extract_u64_from_obj(&obj, "c"), 0);
    assert_eq!(extract_str(&obj, None, "b"), "x");
    assert_eq!(extract_str(&obj, Some(&ep), "b"), "y");
    assert_eq!(extract_str(&obj, Some(&ep), "c"), "<unknown>");
}

#[test]
fn tabs_are_ordered_by_first_position() {
    let es = entries_of(&[
        r#"{"p": 5, "groupTitle": "G", "title": "T", "tabName": "late"}"#,
        r#"{"p": 1, "groupTitle": "G", "title": "T", "tabName": "early"}"#,
        r#"{"p": 0, "groupTitle": "G", "title": "T", "tabName": "late"}"#,
        r#"{"p": 3, "groupTitle": "G", "title": "T", "tabName": "middle"}"#,
    ]);
    let tree = build_tree(&es);
    assert_eq!(tree.len(), 1);
    let tabs = &tree[0].titles[0].tabs;
    let order: Vec<&str> = tabs.iter().map(|b| b.name.as_str()).collect();
    assert_eq!(order, vec!["early", "middle", "late"]);
    let late: Vec<u32> = tabs[2].items.iter().map(|r| r.position).collect();
    assert_eq!(late, vec![5, 0]);
}

#[test]
fn titles_are_ordered_by_episode_number_then_name() {
    let mut es = entries_of(&[
        r#"{"p": 1, "groupTitle": "G", "title": "third", "epInfo": {"p": 30}}"#,
        r#"{"p": 1, "groupTitle": "G", "title": "first", "epInfo": {"p": 10}}"#,
        r#"{"p": 1, "groupTitle": "G", "title": "second", "epInfo": {"p": 20}}"#,
        r#"{"p": 1, "groupTitle": "G", "title": "zeta"}"#,
        r#"{"p": 1, "groupTitle": "G", "title": "alpha"}"#,
    ]);
    es[3].episode_candidate = None;
    es[4].episode_candidate = None;
    let tree = build_tree(&es);
    let titles: Vec<(&str, Option<u32>)> =
        tree[0].titles.iter().map(|t| (t.name.as_str(), t.episode_number)).collect();
    assert_eq!(
        titles,
        vec![
            ("first", Some(10)),
            ("second", Some(20)),
            ("third", Some(30)),
            ("alpha", None),
            ("zeta", None)
        ]
    );
}

#[test]
fn names_compare_bytewise() {
    assert!(name_le(&"abc".to_string(), &"abd".to_string()));
    assert!(name_le(&"ab".to_string(), &"abc".to_string()));
    assert!(!name_le(&"b".to_string(), &"abc".to_string()));
    assert!(name_le(&"Z".to_string(), &"a".to_string()));
    assert!(name_le(&"x".to_string(), &"x".to_string()));
}

#[test]
fn malformed_file_is_counted_and_excluded() {
    let good = br#"{"p": 1, "groupTitle": "G", "title": "T", "tabName": "t"}"#;
    let bad = b"{\"p\": 1, \"groupTitle\": ";
    assert!(parse_document(bad).is_none());
    let outcomes = vec![
        classify_file(Some(good)),
        classify_file(Some(bad)),
        classify_file(None),
        classify_file(Some(good)),
    ];
    assert!(matches!(outcomes[1], FileOutcome::ParseFailed));
    assert!(matches!(outcomes[2], FileOutcome::ReadFailed));
    let summary = tally(&outcomes);
    assert_eq!(summary.entries.len(), 2);
    assert_eq!(summary.read_failures, 1);
    assert_eq!(summary.parse_failures, 1);
    assert_eq!(summary.malformed, vec![1]);
    let tree = output_tree(&summary.entries).expect("records were parsed");
    assert_eq!(item_count(&tree), 2);
}

#[test]
fn same_input_gives_same_grouping() {
    let texts = [
        r#"{"p": 2, "groupTitle": "G", "title": "T", "tabName": "a"}"#,
        r#"{"p": 1, "groupTitle": "G", "title": "T", "tabName": "b", "epInfo": {"p": 7}}"#,
        r#"{"p": 1, "groupTitle": "H", "title": "U", "tabName": "c"}"#,
    ];
    let first = build_tree(&entries_of(&texts));
    let second = build_tree(&entries_of(&texts));
    let keys = |tree: &Vec<CollectionNode>| -> Vec<(String, String, Option<u32>, String)> {
        let mut out = Vec::new();
        for c in tree {
            for t in &c.titles {
                for b in &t.tabs {
                    out.push((c.name.clone(), t.name.clone(), t.episode_number, b.name.clone()));
                }
            }
        }
        out
    };
    assert_eq!(keys(&first), keys(&second));
    assert_eq!(keys(&first)[0], ("G".to_string(), "T".to_string(), Some(2), "b".to_string()));
}

#[test]
fn end_to_end_three_files() {
    // root/A, root/B/tab1, root/B/tab2, in that completion order
    let es = entries_of(&[
        r#"{"p": 2, "groupTitle": "G", "title": "T", "tabName": "A"}"#,
        r#"{"p": 1, "groupTitle": "G", "title": "T", "tabName": "B", "epInfo": {"p": 7}}"#,
        r#"{"p": 2, "groupTitle": "G", "title": "T", "tabName": "B"}"#,
    ]);
    // the record proposing 7 completes first
    let ordered = vec![es[1].duplicate(), es[0].duplicate(), es[2].duplicate()];
    let tree = build_tree(&ordered);
    assert_eq!(tree.len(), 1);
    assert_eq!(tree[0].name, "G");
    assert_eq!(tree[0].titles.len(), 1);
    let title = &tree[0].titles[0];
    assert_eq!(title.name, "T");
    assert_eq!(title.episode_number, Some(7));
    assert_eq!(title.tabs.len(), 2);
    assert_eq!(title.tabs[0].name, "B");
    assert_eq!(title.tabs[1].name, "A");
    assert_eq!(item_count(&tree), 3);
    // in file order the first record's own position wins instead
    let tree = build_tree(&es);
    assert_eq!(tree[0].titles[0].episode_number, Some(2));
}

#[test]
fn empty_input_gives_empty_tree() {
    let summary = tally(&Vec::new());
    assert_eq!(summary.entries.len(), 0);
    assert_eq!(summary.read_failures, 0);
    assert_eq!(summary.parse_failures, 0);
    assert!(build_tree(&summary.entries).is_empty());
    assert!(output_tree(&summary.entries).is_none());
}
