//! Turns a report that lists named counters as an HTML bullet list into a
//! page that embeds the same counters as chart data.

use crate::html::parsing::{
    extracted, list_close, list_open, marked, parse_list, parsed, try_parse_list, Malformed,
    ParseError,
};
use crate::html::{html_index_as_string, list_text, page_text, Record};
use crate::text::index_of;
use vstd::prelude::*;

pub mod html;
pub mod number;
pub mod text;

verus! {

/// The page for a report: its counters, the selected one flagged, between
/// the two parts of the template; or the first malformed count.
pub open spec fn index_page(text: Seq<char>, prefix: Seq<char>, suffix: Seq<char>) -> Result<
    Seq<char>,
    Malformed,
> {
    match parsed(text) {
        Ok(rs) => Ok(page_text(prefix, rs, suffix)),
        Err(e) => Err(e),
    }
}

/// Makes the page for a report, or tells which count could not be read.
pub fn try_process_file(file_as_string: String, prefix: &str, suffix: &str) -> (page: Result<
    String,
    ParseError,
>)
    ensures
        match page {
            Ok(p) => index_page(file_as_string@, prefix@, suffix@) == Ok::<_, Malformed>(p@),
            Err(e) => index_page(file_as_string@, prefix@, suffix@) == Err::<Seq<char>, _>(e@),
        },
{
    match try_parse_list(file_as_string) {
        Ok(data) => Ok(html_index_as_string(data, prefix, suffix)),
        Err(e) => Err(e),
    }
}

/// Makes the page for a report in which every count can be read.
///
/// A malformed count is then an error of the caller. Nothing holds a caller
/// that Verus does not check to that: for such a caller this function gives
/// the two parts of the template with nothing between them where the list
/// holds a malformed count. Such a caller calls `try_process_file` instead,
/// which names the count.
pub fn process_file(file_as_string: String, prefix: &str, suffix: &str) -> (page: String)
    requires
        parsed(file_as_string@) is Ok,
    ensures
        index_page(file_as_string@, prefix@, suffix@) == Ok::<_, Malformed>(page@),
        prefix@.is_prefix_of(page@),
{
    html_index_as_string(parse_list(file_as_string), prefix, suffix)
}

/// A report in which the opening marker or the closing marker of a list is
/// missing has no counters, and its page is the two parts of the template
/// with nothing between them.
pub proof fn lemma_no_list_bare_page(text: Seq<char>, prefix: Seq<char>, suffix: Seq<char>)
    requires
        index_of(text, list_open()) is None || index_of(text, list_close()) is None,
    ensures
        extracted(text) == Ok::<_, Malformed>(Seq::<Record>::empty()),
        index_page(text, prefix, suffix) == Ok::<_, Malformed>(prefix + suffix),
{
    let none = Seq::<Record>::empty();
    assert(marked(none) =~= none);
    assert(prefix + list_text(none) + suffix =~= prefix + suffix);
}

/// The page is a function of the report and the template: two runs on the
/// same text with the same template give the same page, character for
/// character, or fail on the same count.
pub proof fn lemma_same_report_same_page(
    text: Seq<char>,
    prefix: Seq<char>,
    suffix: Seq<char>,
    first: Result<Seq<char>, Malformed>,
    second: Result<Seq<char>, Malformed>,
)
    requires
        first == index_page(text, prefix, suffix),
        second == index_page(text, prefix, suffix),
    ensures
        first == second,
{
}

} // verus!
