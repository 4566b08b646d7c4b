use afrr_records::{
    crop_string, get_data_from_xml, get_legend_from_xml, ExtractError, Legend, TextMap,
};

fn document() -> String {
    String::from(concat_document(
        "<serie id=\"AFRR1\" name=\"aFRR+ [MW]\" /><serie id=\"AFRR2\" name=\"aFRR- [MW]\" />",
        "<item date=\"2022-07-26T09:00:00\" AFRR1=\"12.5\" AFRR2=\"3.2\" />\
         <item date=\"2022-07-26T09:01:00\" AFRR1=\"0\" AFRR2=\"-1e3\" />",
    ))
}

fn concat_document(series: &str, data: &str) -> String {
    let mut text = String::from("<root><series>");
    text.push_str(series);
    text.push_str("</series><data>");
    text.push_str(data);
    text.push_str("</data></root>");
    text
}

fn crop(input: &str, left: &str, right: &str) -> Result<String, ExtractError> {
    crop_string(String::from(input), String::from(left), String::from(right))
}

#[test]
fn crop_takes_the_text_between_the_markers() {
    assert_eq!(crop("a date=\"2022\" b", "date=\"", "\""), Ok(String::from("2022")));
}

#[test]
fn crop_starts_behind_the_first_left_marker() {
    assert_eq!(crop("x[1]y[2]z", "[", "]"), Ok(String::from("1")));
}

#[test]
fn crop_ends_at_the_first_right_marker_behind_the_left_one() {
    assert_eq!(crop("]a[b]c]", "[", "]"), Ok(String::from("b")));
}

#[test]
fn crop_may_give_the_empty_text() {
    assert_eq!(crop("id=\"\"", "id=\"", "\""), Ok(String::new()));
}

#[test]
fn crop_counts_characters_not_bytes() {
    assert_eq!(crop("žluťoučký id=\"kůň\" ěš", "id=\"", "\""), Ok(String::from("kůň")));
}

#[test]
fn crop_without_the_left_marker_is_malformed() {
    assert_eq!(crop("name=\"x\"", "id=\"", "\""), Err(ExtractError::MalformedDocument));
}

#[test]
fn crop_without_the_right_marker_is_malformed() {
    assert_eq!(crop("id=\"unterminated", "id=\"", "\""), Err(ExtractError::MalformedDocument));
}

#[test]
fn crop_with_the_right_marker_only_before_the_left_one_is_malformed() {
    assert_eq!(crop("\" id=\"x", "id=\"", "\""), Err(ExtractError::MalformedDocument));
}

#[test]
fn crop_of_the_empty_text_is_malformed() {
    assert_eq!(crop("", "<a>", "</a>"), Err(ExtractError::MalformedDocument));
}

#[test]
fn crop_is_not_the_whole_input() {
    let input = "<series>inner</series>";
    let cropped = crop(input, "<series>", "</series>").unwrap();
    assert_eq!(cropped, "inner");
    assert_ne!(cropped, input);
}

#[test]
fn legend_binds_each_identifier_to_its_name() {
    let legend = get_legend_from_xml(document()).unwrap();
    assert_eq!(legend.len(), 2);
    assert_eq!(legend.get("AFRR1"), Some(&String::from("aFRR+ [MW]")));
    assert_eq!(legend.get("AFRR2"), Some(&String::from("aFRR- [MW]")));
    assert_eq!(legend.get("AFRR3"), None);
    assert!(legend.contains_key("AFRR1"));
    assert!(!legend.contains_key("aFRR+ [MW]"));
}

#[test]
fn legend_keeps_the_order_of_the_entries() {
    let legend = get_legend_from_xml(document()).unwrap();
    assert_eq!(legend.key_at(0), "AFRR1");
    assert_eq!(legend.value_at(0), "aFRR+ [MW]");
    assert_eq!(legend.key_at(1), "AFRR2");
    assert_eq!(legend.value_at(1), "aFRR- [MW]");
}

#[test]
fn legend_does_not_depend_on_the_order_of_the_entries() {
    let forward = get_legend_from_xml(concat_document(
        "<serie id=\"a\" name=\"A\"/><serie id=\"b\" name=\"B\"/><serie id=\"c\" name=\"C\"/>",
        "",
    ))
    .unwrap();
    let backward = get_legend_from_xml(concat_document(
        "<serie id=\"c\" name=\"C\"/><serie id=\"a\" name=\"A\"/><serie id=\"b\" name=\"B\"/>",
        "",
    ))
    .unwrap();
    assert_eq!(forward.len(), 3);
    assert_eq!(backward.len(), 3);
    for key in ["a", "b", "c"] {
        assert_eq!(forward.get(key), backward.get(key));
        assert!(forward.get(key).is_some());
    }
}

#[test]
fn legend_reads_attributes_in_either_order() {
    let legend =
        get_legend_from_xml(concat_document("<serie name=\"Name\" id=\"key\"></serie>", ""))
            .unwrap();
    assert_eq!(legend.len(), 1);
    assert_eq!(legend.get("key"), Some(&String::from("Name")));
}

#[test]
fn legend_keeps_the_last_name_of_a_repeated_identifier() {
    let legend = get_legend_from_xml(concat_document(
        "<serie id=\"a\" name=\"first\"/><serie id=\"b\" name=\"B\"/><serie id=\"a\" name=\"last\"/>",
        "",
    ))
    .unwrap();
    assert_eq!(legend.len(), 2);
    assert_eq!(legend.get("a"), Some(&String::from("last")));
    assert_eq!(legend.key_at(0), "a");
    assert_eq!(legend.key_at(1), "b");
}

#[test]
fn legend_of_an_empty_section_is_empty() {
    let legend = get_legend_from_xml(String::from("<series></series>")).unwrap();
    assert_eq!(legend.len(), 0);
}

#[test]
fn legend_ignores_what_stands_before_the_first_entry() {
    let legend = get_legend_from_xml(String::from(
        "<series> id=\"no\" name=\"entry\" <serie id=\"a\" name=\"A\"/></series>",
    ))
    .unwrap();
    assert_eq!(legend.len(), 1);
    assert_eq!(legend.get("a"), Some(&String::from("A")));
}

#[test]
fn legend_without_the_opening_marker_is_malformed() {
    let outcome = get_legend_from_xml(String::from("<serie id=\"a\" name=\"A\"/></series>"));
    assert_eq!(outcome.err(), Some(ExtractError::MalformedDocument));
}

#[test]
fn legend_without_the_closing_marker_is_malformed() {
    let outcome = get_legend_from_xml(String::from("<series><serie id=\"a\" name=\"A\"/>"));
    assert_eq!(outcome.err(), Some(ExtractError::MalformedDocument));
}

#[test]
fn legend_with_the_closing_marker_before_the_opening_one_is_malformed() {
    let outcome = get_legend_from_xml(String::from("</series><series>"));
    assert_eq!(outcome.err(), Some(ExtractError::MalformedDocument));
}

#[test]
fn legend_entry_without_an_identifier_is_malformed() {
    let outcome = get_legend_from_xml(concat_document(
        "<serie id=\"a\" name=\"A\"/><serie name=\"B\"/>",
        "",
    ));
    assert_eq!(outcome.err(), Some(ExtractError::MalformedDocument));
}

#[test]
fn legend_entry_without_a_name_is_malformed() {
    let outcome = get_legend_from_xml(concat_document("<serie id=\"a\"/>", ""));
    assert_eq!(outcome.err(), Some(ExtractError::MalformedDocument));
}

#[test]
fn legend_entry_with_an_unterminated_value_is_malformed() {
    let outcome = get_legend_from_xml(concat_document("<serie id=\"a\" name=\"A/>", ""));
    assert_eq!(outcome.err(), Some(ExtractError::MalformedDocument));
}

#[test]
fn legend_of_the_empty_document_is_malformed() {
    assert_eq!(get_legend_from_xml(String::new()).err(), Some(ExtractError::MalformedDocument));
}

fn two_series() -> Legend {
    let mut legend = TextMap::new();
    legend.insert(String::from("AFRR1"), String::from("aFRR+ [MW]"));
    legend.insert(String::from("AFRR2"), String::from("aFRR- [MW]"));
    legend
}

#[test]
fn data_gives_one_record_per_item_in_document_order() {
    let records = get_data_from_xml(document(), two_series()).unwrap();
    assert_eq!(records.len(), 2);
    assert_eq!(records[0].get("time"), Some(&String::from("2022-07-26T09:00:00")));
    assert_eq!(records[0].get("aFRR+ [MW]"), Some(&String::from("12.5")));
    assert_eq!(records[0].get("aFRR- [MW]"), Some(&String::from("3.2")));
    assert_eq!(records[1].get("time"), Some(&String::from("2022-07-26T09:01:00")));
    assert_eq!(records[1].get("aFRR+ [MW]"), Some(&String::from("0")));
    assert_eq!(records[1].get("aFRR- [MW]"), Some(&String::from("-1e3")));
}

#[test]
fn data_record_has_the_time_and_every_name_of_the_legend() {
    let records = get_data_from_xml(document(), two_series()).unwrap();
    assert_eq!(records[0].len(), 3);
    assert!(records[0].contains_key("time"));
    assert!(!records[0].contains_key("date"));
    assert!(!records[0].contains_key("AFRR1"));
}

#[test]
fn data_under_an_empty_legend_holds_the_time_only() {
    let records = get_data_from_xml(document(), TextMap::new()).unwrap();
    assert_eq!(records.len(), 2);
    assert_eq!(records[0].len(), 1);
    assert_eq!(records[1].get("time"), Some(&String::from("2022-07-26T09:01:00")));
}

#[test]
fn data_keeps_empty_values() {
    let records = get_data_from_xml(
        concat_document("", "<item date=\"d\" AFRR1=\"\" AFRR2=\"7\"/>"),
        two_series(),
    )
    .unwrap();
    assert_eq!(records.len(), 1);
    assert_eq!(records[0].get("aFRR+ [MW]"), Some(&String::new()));
    assert_eq!(records[0].get("aFRR- [MW]"), Some(&String::from("7")));
}

#[test]
fn data_of_an_empty_section_is_empty() {
    let records = get_data_from_xml(String::from("<data></data>"), two_series()).unwrap();
    assert!(records.is_empty());
}

#[test]
fn data_without_the_section_is_malformed() {
    let outcome = get_data_from_xml(String::from("<series></series>"), two_series());
    assert_eq!(outcome.err(), Some(ExtractError::MalformedDocument));
}

#[test]
fn data_without_the_closing_marker_is_malformed() {
    let outcome = get_data_from_xml(String::from("<data><item date=\"d\"/>"), TextMap::new());
    assert_eq!(outcome.err(), Some(ExtractError::MalformedDocument));
}

#[test]
fn data_item_without_a_date_is_malformed() {
    let outcome = get_data_from_xml(
        concat_document("", "<item AFRR1=\"1\" AFRR2=\"2\"/>"),
        two_series(),
    );
    assert_eq!(outcome.err(), Some(ExtractError::MalformedDocument));
}

#[test]
fn data_item_without_a_series_of_the_legend_is_malformed() {
    let outcome = get_data_from_xml(
        concat_document(
            "",
            "<item date=\"a\" AFRR1=\"1\" AFRR2=\"2\"/><item date=\"b\" AFRR1=\"1\"/>",
        ),
        two_series(),
    );
    assert_eq!(outcome.err(), Some(ExtractError::MalformedDocument));
}

#[test]
fn data_last_binding_of_a_shared_name_stays() {
    let mut legend = TextMap::new();
    legend.insert(String::from("x"), String::from("shared"));
    legend.insert(String::from("y"), String::from("shared"));
    let records =
        get_data_from_xml(concat_document("", "<item date=\"d\" x=\"1\" y=\"2\"/>"), legend)
            .unwrap();
    assert_eq!(records[0].len(), 2);
    assert_eq!(records[0].get("shared"), Some(&String::from("2")));
}

#[test]
fn data_series_called_time_replaces_the_date() {
    let mut legend = TextMap::new();
    legend.insert(String::from("t"), String::from("time"));
    let records =
        get_data_from_xml(concat_document("", "<item date=\"d\" t=\"other\"/>"), legend).unwrap();
    assert_eq!(records[0].len(), 1);
    assert_eq!(records[0].get("time"), Some(&String::from("other")));
}

#[test]
fn legend_feeds_the_data() {
    let body = document();
    let legend = get_legend_from_xml(body.clone()).unwrap();
    let records = get_data_from_xml(body, legend).unwrap();
    assert_eq!(records.len(), 2);
    assert_eq!(records[1].get("aFRR- [MW]"), Some(&String::from("-1e3")));
}

#[test]
fn text_map_insert_replaces_in_place_and_appends_new_keys() {
    let mut map = TextMap::new();
    assert_eq!(map.len(), 0);
    map.insert(String::from("a"), String::from("1"));
    map.insert(String::from("b"), String::from("2"));
    map.insert(String::from("a"), String::from("3"));
    assert_eq!(map.len(), 2);
    assert_eq!(map.key_at(0), "a");
    assert_eq!(map.value_at(0), "3");
    assert_eq!(map.key_at(1), "b");
    assert_eq!(map.value_at(1), "2");
    assert_eq!(map.get("a"), Some(&String::from("3")));
    assert_eq!(map.get("c"), None);
}

#[test]
fn find_gives_the_first_position_at_or_after_the_start() {
    let hay: Vec<char> = "abcabc".chars().collect();
    let needle: Vec<char> = "bc".chars().collect();
    assert_eq!(afrr_records::text::find(&hay, &needle, 0), Some(1));
    assert_eq!(afrr_records::text::find(&hay, &needle, 1), Some(1));
    assert_eq!(afrr_records::text::find(&hay, &needle, 2), Some(4));
    assert_eq!(afrr_records::text::find(&hay, &needle, 5), None);
    assert_eq!(afrr_records::text::find(&hay, &needle, 100), None);
}

#[test]
fn find_gives_none_for_a_needle_that_is_longer_than_the_text() {
    let hay: Vec<char> = "ab".chars().collect();
    let needle: Vec<char> = "abc".chars().collect();
    assert_eq!(afrr_records::text::find(&hay, &needle, 0), None);
}

#[test]
fn find_takes_the_empty_needle_to_stand_everywhere() {
    let hay: Vec<char> = "ab".chars().collect();
    let needle: Vec<char> = Vec::new();
    assert_eq!(afrr_records::text::find(&hay, &needle, 0), Some(0));
    assert_eq!(afrr_records::text::find(&hay, &needle, 2), Some(2));
    assert_eq!(afrr_records::text::find(&hay, &needle, 3), None);
}

#[test]
fn to_chars_gives_one_element_per_character() {
    assert_eq!(afrr_records::text::to_chars("kůň"), vec!['k', 'ů', 'ň']);
    assert!(afrr_records::text::to_chars("").is_empty());
}

fn one_series(id: &str, name: &str) -> Legend {
    let mut legend = TextMap::new();
    legend.insert(String::from(id), String::from(name));
    legend
}

#[test]
fn data_reads_the_attribute_named_exactly_by_the_identifier() {
    let records = get_data_from_xml(
        String::from("<data><item date=\"t\" XA=\"9\" A=\"1\"/></data>"),
        one_series("A", "x"),
    )
    .unwrap();
    assert_eq!(records.len(), 1);
    assert_eq!(records[0].len(), 2);
    assert_eq!(records[0].get("time"), Some(&String::from("t")));
    assert_eq!(records[0].get("x"), Some(&String::from("1")));
}

#[test]
fn data_item_with_a_longer_name_only_lacks_the_attribute() {
    let outcome = get_data_from_xml(
        String::from("<data><item date=\"t\" XA=\"9\"/></data>"),
        one_series("A", "x"),
    );
    assert_eq!(outcome.err(), Some(ExtractError::MalformedDocument));
    let outcome = get_data_from_xml(
        String::from("<data><item date=\"t\" AX=\"9\"/></data>"),
        one_series("A", "x"),
    );
    assert_eq!(outcome.err(), Some(ExtractError::MalformedDocument));
}

#[test]
fn data_item_with_a_longer_name_for_the_date_lacks_the_date() {
    let outcome = get_data_from_xml(
        String::from("<data><item update=\"t\" A=\"1\"/></data>"),
        one_series("A", "x"),
    );
    assert_eq!(outcome.err(), Some(ExtractError::MalformedDocument));
}

#[test]
fn legend_reads_the_attribute_named_exactly_id() {
    let legend = get_legend_from_xml(String::from(
        "<series><serie uid=\"7\" id=\"A\" name=\"B\"/></series>",
    ))
    .unwrap();
    assert_eq!(legend.len(), 1);
    assert_eq!(legend.get("A"), Some(&String::from("B")));
    assert_eq!(legend.get("7"), None);
}

#[test]
fn legend_reads_the_attribute_named_exactly_name() {
    let legend = get_legend_from_xml(String::from(
        "<series><serie id=\"A\" surname=\"no\" name=\"B\"/></series>",
    ))
    .unwrap();
    assert_eq!(legend.get("A"), Some(&String::from("B")));
}

#[test]
fn attribute_is_not_found_inside_the_value_of_another() {
    let records = get_data_from_xml(
        String::from("<data><item date=\"t\" note=\"x A=\" A=\"1\"/></data>"),
        one_series("A", "x"),
    )
    .unwrap();
    assert_eq!(records[0].get("x"), Some(&String::from("1")));
    let outcome = get_data_from_xml(
        String::from("<data><item date=\"t\" note=\"x A=\"/></data>"),
        one_series("A", "x"),
    );
    assert_eq!(outcome.err(), Some(ExtractError::MalformedDocument));
}

#[test]
fn first_of_two_attributes_of_one_name_is_read() {
    let records = get_data_from_xml(
        String::from("<data><item date=\"t\" A=\"1\" A=\"2\"/></data>"),
        one_series("A", "x"),
    )
    .unwrap();
    assert_eq!(records[0].get("x"), Some(&String::from("1")));
}

#[test]
fn attributes_may_be_parted_by_tabs_and_line_ends_or_by_nothing() {
    let records = get_data_from_xml(
        String::from("<data><item\n\tdate=\"t\"\r\nA=\"1\"B=\"2\"\t/></data>"),
        one_series("B", "y"),
    )
    .unwrap();
    assert_eq!(records[0].get("time"), Some(&String::from("t")));
    assert_eq!(records[0].get("y"), Some(&String::from("2")));
}

#[test]
fn attributes_end_where_something_else_stands() {
    let outcome = get_data_from_xml(
        String::from("<data><item date=\"t\">text A=\"1\"</item></data>"),
        one_series("A", "x"),
    );
    assert_eq!(outcome.err(), Some(ExtractError::MalformedDocument));
    let outcome = get_data_from_xml(
        String::from("<data><item date=\"t\" A = \"1\"/></data>"),
        one_series("A", "x"),
    );
    assert_eq!(outcome.err(), Some(ExtractError::MalformedDocument));
}

#[test]
fn unclosed_value_before_the_attribute_is_malformed() {
    let outcome = get_data_from_xml(
        String::from("<data><item date=\"t A=1/></data>"),
        one_series("A", "x"),
    );
    assert_eq!(outcome.err(), Some(ExtractError::MalformedDocument));
}

#[test]
fn values_keep_blanks_and_signs() {
    let legend = get_legend_from_xml(String::from(
        "<series><serie id=\"k=1\" name=\" a = b \"/></series>",
    ))
    .unwrap();
    assert_eq!(legend.get("k=1"), Some(&String::from(" a = b ")));
}

fn written_series(before: &str, pairs: &[(&str, &str)], after: &str) -> String {
    let mut text = String::from(before);
    text.push_str("<series>");
    for (id, name) in pairs {
        text.push_str(&format!("<serie id=\"{}\" name=\"{}\"/>", id, name));
    }
    text.push_str("</series>");
    text.push_str(after);
    text
}

fn written_data(before: &str, items: &[(&str, Vec<(&str, &str)>)], after: &str) -> String {
    let mut text = String::from(before);
    text.push_str("<data>");
    for (date, attributes) in items {
        text.push_str(&format!("<item date=\"{}\"", date));
        for (name, value) in attributes {
            text.push_str(&format!(" {}=\"{}\"", name, value));
        }
        text.push_str("/>");
    }
    text.push_str("</data>");
    text.push_str(after);
    text
}

#[test]
fn written_series_give_one_entry_for_each_pair() {
    let pairs = [("k0", "v 0"), ("k1", "v=1"), ("k2", ""), ("", "no id"), ("k4", "a/>b")];
    for count in 0..=pairs.len() {
        let legend =
            get_legend_from_xml(written_series("<root a=\"1\">", &pairs[..count], "</root>"))
                .unwrap();
        assert_eq!(legend.len(), count);
        for (at, (id, name)) in pairs[..count].iter().enumerate() {
            assert_eq!(legend.get(id), Some(&String::from(*name)));
            assert_eq!(legend.key_at(at), id);
        }
        assert_eq!(legend.get("k9"), None);
    }
}

#[test]
fn written_series_in_another_order_give_the_same_legend() {
    let pairs = [("a", "A"), ("b", "B"), ("c", "C"), ("d", "D")];
    let reordered = [("c", "C"), ("a", "A"), ("d", "D"), ("b", "B")];
    let first = get_legend_from_xml(written_series("", &pairs, "")).unwrap();
    let second = get_legend_from_xml(written_series("x", &reordered, "y")).unwrap();
    assert_eq!(first.len(), second.len());
    for (id, name) in pairs {
        assert_eq!(first.get(id), Some(&String::from(name)));
        assert_eq!(second.get(id), Some(&String::from(name)));
    }
}

#[test]
fn written_items_give_one_record_each_in_their_order() {
    let items = vec![
        ("d0", vec![("AFRR1", "1"), ("AFRR2", "2")]),
        ("d1", vec![("AFRR2", "4"), ("other", "x"), ("AFRR1", "3")]),
        ("d2", vec![("AFRR1", ""), ("AFRR2", "6")]),
    ];
    for count in 0..=items.len() {
        let records =
            get_data_from_xml(written_data("<root>", &items[..count], "</root>"), two_series())
                .unwrap();
        assert_eq!(records.len(), count);
        for (at, (date, attributes)) in items[..count].iter().enumerate() {
            assert_eq!(records[at].len(), 3);
            assert_eq!(records[at].get("time"), Some(&String::from(*date)));
            for (name, value) in attributes {
                if *name == "AFRR1" {
                    assert_eq!(records[at].get("aFRR+ [MW]"), Some(&String::from(*value)));
                }
                if *name == "AFRR2" {
                    assert_eq!(records[at].get("aFRR- [MW]"), Some(&String::from(*value)));
                }
            }
        }
    }
}

#[test]
fn one_more_written_item_gives_one_more_record_behind_the_others() {
    let mut items = vec![
        ("d0", vec![("AFRR1", "1"), ("AFRR2", "2")]),
        ("d1", vec![("AFRR1", "3"), ("AFRR2", "4")]),
    ];
    let shorter = get_data_from_xml(written_data("", &items, ""), two_series()).unwrap();
    items.push(("d2", vec![("AFRR1", "5"), ("AFRR2", "6")]));
    let longer = get_data_from_xml(written_data("", &items, ""), two_series()).unwrap();
    assert_eq!(longer.len(), shorter.len() + 1);
    for at in 0..shorter.len() {
        for key in ["time", "aFRR+ [MW]", "aFRR- [MW]"] {
            assert_eq!(longer[at].get(key), shorter[at].get(key));
        }
    }
    assert_eq!(longer[2].get("time"), Some(&String::from("d2")));
    assert_eq!(longer[2].get("aFRR+ [MW]"), Some(&String::from("5")));
}

#[test]
fn written_item_that_lacks_a_series_makes_the_document_malformed() {
    let items = vec![
        ("d0", vec![("AFRR1", "1"), ("AFRR2", "2")]),
        ("d1", vec![("AFRR1", "3"), ("XAFRR2", "4")]),
    ];
    let outcome = get_data_from_xml(written_data("", &items, ""), two_series());
    assert_eq!(outcome.err(), Some(ExtractError::MalformedDocument));
}
