use optview_to_highcharts::html::parsing::ParseError;
use optview_to_highcharts::{process_file, try_process_file};

const REPORT: &str = "<body> <h3>3 issue types:</h3>
    <ul id='entries_summary'>
    <li>LoadClobbered: 4661
    <li>NoDefinition: 2361
    <li>VectorizationNotBeneficial: 1
    </ul>
    <div class=\"centered\">";

#[test]
fn page_of_a_report() {
    let page = process_file(REPORT.into(), "data: [", "]\n");
    assert_eq!(
        page,
        "data: [{name: \"LoadClobbered\", y: 4661, sliced: true},\
         {name: \"NoDefinition\", y: 2361, sliced: false},\
         {name: \"VectorizationNotBeneficial\", y: 1, sliced: false}]\n"
    );
}

#[test]
fn page_of_a_report_without_a_list_is_the_bare_template() {
    assert_eq!(process_file("<body>nothing</body>".into(), "start[", "]end"), "start[]end");
    assert_eq!(process_file("<ul><li>a: 1".into(), "start[", "]end"), "start[]end");
    assert_eq!(process_file("<li>a: 1</ul>".into(), "start[", "]end"), "start[]end");
    assert_eq!(
        try_process_file("".into(), "<!DOCTYPE html>", "</html>"),
        Ok("<!DOCTYPE html></html>".to_string())
    );
}

#[test]
fn same_report_gives_the_same_page() {
    let first = process_file(REPORT.into(), "<!DOCTYPE html>[", "]");
    let second = process_file(REPORT.into(), "<!DOCTYPE html>[", "]");
    assert_eq!(first, second);
    assert_eq!(first.as_bytes(), second.as_bytes());
}

#[test]
fn report_with_a_malformed_count_gives_no_page() {
    let page = try_process_file("<ul><li>a: 1<li>b: two</ul>".into(), "[", "]");
    assert_eq!(
        page,
        Err(ParseError {
            name: "b".into(),
            text: "two".into(),
        })
    );
}

#[test]
fn page_flags_the_greatest_count_where_no_count_is_above_zero() {
    let page = try_process_file("<ul><li>a: 0<li>b: -1</ul>".into(), "", "").unwrap();
    assert_eq!(page, "{name: \"a\", y: 0, sliced: true},{name: \"b\", y: -1, sliced: false}");
    let page = try_process_file("<ul><li>m: -5<li>n: -1</ul>".into(), "", "").unwrap();
    assert_eq!(page, "{name: \"m\", y: -5, sliced: false},{name: \"n\", y: -1, sliced: true}");
}
