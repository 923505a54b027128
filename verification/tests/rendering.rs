use optview_to_highcharts::html::{html_index_as_string, Data};

const START_INDEX_HTML: &str = "<!DOCTYPE html>\n<html>\n<body>\n<script>\nvar data = [";
const END_INDEX_HTML: &str = "];\n</script>\n</body>\n</html>\n";

fn counter(name: &str, y: i32, sliced: bool) -> Data {
    Data {
        name: name.into(),
        y,
        sliced,
    }
}

#[test]
fn create_index_string_from_data() {
    let data_vector: Vec<Data> = vec![
        Data {
            name: "First".into(),
            y: 22,
            sliced: true,
        },
        Data {
            name: "Second".into(),
            y: 10,
            sliced: false,
        },
    ];
    let page_string = html_index_as_string(data_vector, START_INDEX_HTML, END_INDEX_HTML);
    assert!(page_string.starts_with("<!DOCTYPE html>"));
}

#[test]
fn create_html_output() {
    let data_vector: Vec<Data> = vec![
        Data {
            name: "First".into(),
            y: 22,
            sliced: true,
        },
        Data {
            name: "Second".into(),
            y: 10,
            sliced: false,
        },
    ];
    let strings: Vec<String> = data_vector.iter().map(|x| x.to_string()).collect();
    let final_json_string = strings.join(",");
    assert!(final_json_string == "{name: \"First\", y: 22, sliced: true},{name: \"Second\", y: 10, sliced: false}");
}

#[test]
fn page_joins_the_literals_between_the_template_parts() {
    let page = html_index_as_string(
        vec![counter("First", 22, true), counter("Second", 10, false)],
        "[",
        "]",
    );
    assert_eq!(
        page,
        "[{name: \"First\", y: 22, sliced: true},{name: \"Second\", y: 10, sliced: false}]"
    );
}

#[test]
fn page_begins_with_the_prefix() {
    let page = html_index_as_string(
        vec![counter("a", 1, false)],
        START_INDEX_HTML,
        END_INDEX_HTML,
    );
    assert!(page.starts_with(START_INDEX_HTML));
    assert!(page.ends_with(END_INDEX_HTML));
    assert_eq!(
        page.len(),
        START_INDEX_HTML.len() + END_INDEX_HTML.len() + "{name: \"a\", y: 1, sliced: false}".len()
    );
}

#[test]
fn page_of_no_counters_is_the_bare_template() {
    let page = html_index_as_string(Vec::new(), START_INDEX_HTML, END_INDEX_HTML);
    assert_eq!(page, format!("{}{}", START_INDEX_HTML, END_INDEX_HTML));
}

#[test]
fn page_of_one_counter_has_no_comma() {
    let page = html_index_as_string(vec![counter("only", 3, true)], "<", ">");
    assert_eq!(page, "<{name: \"only\", y: 3, sliced: true}>");
}

#[test]
fn page_of_three_counters_keeps_their_order() {
    let page = html_index_as_string(
        vec![counter("a", 1, false), counter("b", 2, false), counter("c", 3, true)],
        "",
        "",
    );
    assert_eq!(
        page,
        "{name: \"a\", y: 1, sliced: false},{name: \"b\", y: 2, sliced: false},{name: \"c\", y: 3, sliced: true}"
    );
}

#[test]
fn literal_of_a_counter() {
    assert_eq!(
        counter("LoadClobbered", 4661, true).to_string(),
        "{name: \"LoadClobbered\", y: 4661, sliced: true}"
    );
    assert_eq!(counter("", 0, false).to_string(), "{name: \"\", y: 0, sliced: false}");
}

#[test]
fn literal_of_a_negative_count() {
    assert_eq!(counter("n", -5, false).to_string(), "{name: \"n\", y: -5, sliced: false}");
    assert_eq!(
        counter("n", i32::MIN, false).to_string(),
        "{name: \"n\", y: -2147483648, sliced: false}"
    );
    assert_eq!(
        counter("n", i32::MAX, false).to_string(),
        "{name: \"n\", y: 2147483647, sliced: false}"
    );
}

#[test]
fn literal_of_counts_around_powers_of_ten() {
    for y in [0, 1, 9, 10, 11, 99, 100, 101, 1000, 65535, 1000000, -1, -9, -10, -100, -12345] {
        let expected = format!("{{name: \"x\", y: {}, sliced: false}}", y);
        assert_eq!(counter("x", y, false).to_string(), expected);
    }
}

#[test]
fn literal_leaves_the_name_as_it_is() {
    assert_eq!(
        counter("a \"b\" \\ c", 1, false).to_string(),
        "{name: \"a \"b\" \\ c\", y: 1, sliced: false}"
    );
    assert_eq!(
        counter("caf\u{e9} \u{1f600}", 1, false).to_string(),
        "{name: \"caf\u{e9} \u{1f600}\", y: 1, sliced: false}"
    );
}
