//! Reading the counters out of a report: the list, its items one by one,
//! and the counter that the chart sets apart.

use crate::html::{Data, Record};
use crate::number::{integer_of, parse_i32};
use crate::text::{chars_of, find, index_of, lemma_index_of, string_of, trim, trimmed};
use vstd::prelude::*;
use vstd::slice::slice_subrange;

verus! {

/// The marker that opens the list.
pub open spec fn list_open() -> Seq<char> {
    seq!['<', 'u', 'l']
}

/// The marker that closes the list.
pub open spec fn list_close() -> Seq<char> {
    seq!['<', '/', 'u', 'l', '>']
}

/// The marker that begins an item.
pub open spec fn item_mark() -> Seq<char> {
    seq!['<', 'l', 'i', '>']
}

/// The sign between a counter's name and its count.
pub open spec fn colon() -> Seq<char> {
    seq![':']
}

/// The list of a report: the text from the first opening marker, which it
/// begins with, up to the first closing marker, which it leaves out. There
/// is none where either marker is missing or the first closing marker
/// stands before the first opening one.
pub open spec fn list_region(text: Seq<char>) -> Option<Seq<char>> {
    match (index_of(text, list_open()), index_of(text, list_close())) {
        (Some(start), Some(end)) => if start <= end {
            Some(text.subrange(start, end))
        } else {
            None
        },
        _ => None,
    }
}

/// An item cut off a list: what stands in it, and the text after it.
pub struct Item {
    pub payload: Seq<char>,
    pub rest: Seq<char>,
}

/// The first item of `t`. It begins right after the first item marker and
/// runs up to the next one, or to the end of `t` where no other follows.
pub open spec fn first_item(t: Seq<char>) -> Option<Item> {
    match index_of(t, item_mark()) {
        None => None,
        Some(at) => {
            let after = t.skip(at + item_mark().len());
            let len = match index_of(after, item_mark()) {
                Some(next) => next,
                None => after.len() as int,
            };
            Some(Item { payload: after.take(len), rest: after.skip(len) })
        },
    }
}

/// A count that is no integer, with the name of its counter.
pub struct Malformed {
    pub name: Seq<char>,
    pub text: Seq<char>,
}

/// The counter that an item holds. The first colon parts the name from the
/// count, and white space around either is dropped. An item without a
/// colon holds no counter; one whose count is no 32-bit integer is
/// malformed.
pub open spec fn entry_of(payload: Seq<char>) -> Option<Result<Record, Malformed>> {
    match index_of(payload, colon()) {
        None => None,
        Some(at) => {
            let name = trimmed(payload.take(at));
            let text = trimmed(payload.skip(at + 1));
            match integer_of(text) {
                Some(count) => Some(Ok(Record { name, count, largest: false })),
                None => Some(Err(Malformed { name, text })),
            }
        },
    }
}

/// What is left of a list after its first item is shorter than the list.
pub proof fn lemma_item_shortens(t: Seq<char>)
    ensures
        match first_item(t) {
            Some(item) => item.rest.len() < t.len(),
            None => true,
        },
{
    lemma_index_of(t, item_mark());
    if let Some(at) = index_of(t, item_mark()) {
        let after = t.skip(at + item_mark().len());
        lemma_index_of(after, item_mark());
    }
}

/// The first counter of `t` with the text after its item. Items that hold
/// no counter are passed over. There is none where no item with a counter
/// is left, and the first malformed count met on the way ends the search.
pub open spec fn next_record(t: Seq<char>) -> Result<Option<(Seq<char>, Record)>, Malformed>
    decreases t.len(),
{
    match first_item(t) {
        None => Ok(None),
        Some(item) => match entry_of(item.payload) {
            None => {
                proof {
                    lemma_item_shortens(t);
                }
                next_record(item.rest)
            },
            Some(Ok(r)) => Ok(Some((item.rest, r))),
            Some(Err(e)) => Err(e),
        },
    }
}

/// The text after the next counter is shorter than the text it was found
/// in.
pub proof fn lemma_record_shortens(t: Seq<char>)
    ensures
        match next_record(t) {
            Ok(Some((rest, _))) => rest.len() < t.len(),
            _ => true,
        },
    decreases t.len(),
{
    lemma_item_shortens(t);
    if let Some(item) = first_item(t) {
        if entry_of(item.payload) is None {
            lemma_record_shortens(item.rest);
        }
    }
}

/// The counters `front` followed by those of `tail`, where it holds any.
pub open spec fn followed_by(front: Seq<Record>, tail: Result<Seq<Record>, Malformed>) -> Result<
    Seq<Record>,
    Malformed,
> {
    match tail {
        Ok(rs) => Ok(front + rs),
        Err(e) => Err(e),
    }
}

/// The counters of a list in the order of their items, or the first
/// malformed count.
pub open spec fn records(t: Seq<char>) -> Result<Seq<Record>, Malformed>
    decreases t.len(),
{
    match next_record(t) {
        Err(e) => Err(e),
        Ok(None) => Ok(Seq::empty()),
        Ok(Some((rest, r))) => {
            proof {
                lemma_record_shortens(t);
            }
            followed_by(seq![r], records(rest))
        },
    }
}

/// The counters of a report: those of its list, and none where it has no
/// list.
pub open spec fn extracted(text: Seq<char>) -> Result<Seq<Record>, Malformed> {
    match list_region(text) {
        Some(region) => records(region),
        None => Ok(Seq::empty()),
    }
}

/// The counter that leads: the first to hold the greatest count.
pub open spec fn leads(rs: Seq<Record>, i: int) -> bool {
    &&& 0 <= i < rs.len()
    &&& forall|j: int| 0 <= j < i ==> rs[j].count < rs[i].count
    &&& forall|j: int| i < j < rs.len() ==> rs[j].count <= rs[i].count
}

/// The position of the counter to set apart: the one that leads, and none
/// where there is no counter.
pub open spec fn selected(rs: Seq<Record>) -> Option<int> {
    if exists|i: int| leads(rs, i) {
        Some(choose|i: int| leads(rs, i))
    } else {
        None
    }
}

/// The counters with the selected one flagged, and nothing else changed.
pub open spec fn marked(rs: Seq<Record>) -> Seq<Record> {
    Seq::new(
        rs.len(),
        |i: int|
            Record {
                name: rs[i].name,
                count: rs[i].count,
                largest: rs[i].largest || selected(rs) == Some(i),
            },
    )
}

/// The counters of a report with the selected one flagged, or the first
/// malformed count.
pub open spec fn parsed(text: Seq<char>) -> Result<Seq<Record>, Malformed> {
    match extracted(text) {
        Ok(rs) => Ok(marked(rs)),
        Err(e) => Err(e),
    }
}

/// No two counters lead.
pub proof fn lemma_leader_is_selected(rs: Seq<Record>, i: int)
    requires
        leads(rs, i),
    ensures
        selected(rs) == Some(i),
{
    let c = choose|c: int| leads(rs, c);
    assert(leads(rs, c));
    if c < i {
        assert(rs[c].count < rs[i].count);
    } else if i < c {
        assert(rs[i].count < rs[c].count);
    }
}

/// Where there is a counter, one leads.
pub proof fn lemma_leader_exists(rs: Seq<Record>)
    requires
        rs.len() > 0,
    ensures
        exists|i: int| leads(rs, i),
    decreases rs.len(),
{
    if rs.len() == 1 {
        assert(leads(rs, 0));
    } else {
        let front = rs.drop_last();
        lemma_leader_exists(front);
        let c = choose|c: int| leads(front, c);
        let last = rs.len() - 1;
        assert(forall|j: int| 0 <= j < last ==> front[j] == rs[j]);
        if rs[last].count > rs[c].count {
            assert forall|j: int| 0 <= j < last implies rs[j].count < rs[last].count by {
                assert(front[j].count <= front[c].count);
            }
            assert(leads(rs, last));
        } else {
            assert(leads(rs, c));
        }
    }
}

/// Among counters none of which is flagged yet, where one count is greater
/// than every other, selection flags the counter with that count and no
/// other.
pub proof fn lemma_single_greatest_is_flagged(rs: Seq<Record>, m: int)
    requires
        0 <= m < rs.len(),
        forall|j: int| 0 <= j < rs.len() && j != m ==> rs[j].count < rs[m].count,
        forall|j: int| 0 <= j < rs.len() ==> !rs[j].largest,
    ensures
        marked(rs).len() == rs.len(),
        forall|j: int| 0 <= j < rs.len() ==> (marked(rs)[j].largest <==> j == m),
{
    lemma_leader_is_selected(rs, m);
}

/// Of counters none of which is flagged yet, selection flags exactly one,
/// the selected one, and none where there is no counter. No other counter
/// holds a greater count than the flagged one, and none before it holds as
/// great a count.
pub proof fn lemma_one_is_flagged(rs: Seq<Record>)
    requires
        forall|j: int| 0 <= j < rs.len() ==> !rs[j].largest,
    ensures
        marked(rs).len() == rs.len(),
        match selected(rs) {
            Some(i) => 0 <= i < rs.len(),
            None => rs.len() == 0,
        },
        forall|j: int| 0 <= j < rs.len() ==> (marked(rs)[j].largest <==> selected(rs) == Some(j)),
        forall|j: int, k: int|
            0 <= j < rs.len() && 0 <= k < rs.len() && marked(rs)[j].largest ==> rs[k].count
                <= rs[j].count,
        forall|j: int, k: int|
            0 <= k < j < rs.len() && marked(rs)[j].largest ==> rs[k].count < rs[j].count,
{
    if rs.len() > 0 {
        lemma_leader_exists(rs);
        let c = choose|c: int| leads(rs, c);
        assert(leads(rs, c));
    }
}

/// The counters read from a list are not flagged.
pub proof fn lemma_records_unflagged(t: Seq<char>)
    ensures
        match records(t) {
            Ok(rs) => forall|j: int| 0 <= j < rs.len() ==> !rs[j].largest,
            Err(_) => true,
        },
    decreases t.len(),
{
    lemma_next_record_unflagged(t);
    if let Ok(Some((rest, r))) = next_record(t) {
        lemma_record_shortens(t);
        lemma_records_unflagged(rest);
    }
}

/// The next counter of a list is not flagged.
pub proof fn lemma_next_record_unflagged(t: Seq<char>)
    ensures
        match next_record(t) {
            Ok(Some((_, r))) => !r.largest,
            _ => true,
        },
    decreases t.len(),
{
    lemma_item_shortens(t);
    if let Some(item) = first_item(t) {
        if entry_of(item.payload) is None {
            lemma_next_record_unflagged(item.rest);
        }
    }
}

/// Of the counters of a report exactly one is flagged, and none where the
/// report has no counter.
pub proof fn lemma_parsed_flags_one(text: Seq<char>)
    ensures
        match (extracted(text), parsed(text)) {
            (Ok(found), Ok(rs)) => {
                &&& rs.len() == found.len()
                &&& match selected(found) {
                    Some(i) => 0 <= i < rs.len(),
                    None => rs.len() == 0,
                }
                &&& forall|j: int|
                    0 <= j < rs.len() ==> (rs[j].largest <==> selected(found) == Some(j))
            },
            (Err(_), Err(_)) => true,
            _ => false,
        },
{
    if let Some(region) = list_region(text) {
        lemma_records_unflagged(region);
    }
    if let Ok(found) = extracted(text) {
        lemma_one_is_flagged(found);
    }
}

/// A count that could not be read, with the name of its counter.
#[derive(Debug, PartialEq, Eq)]
pub struct ParseError {
    pub name: String,
    pub text: String,
}

impl View for ParseError {
    type V = Malformed;

    open spec fn view(&self) -> Malformed {
        Malformed { name: self.name@, text: self.text@ }
    }
}

/// The list of `text`.
fn list_span<'a>(text: &'a [char]) -> (span: Option<&'a [char]>)
    ensures
        match span {
            Some(s) => list_region(text@) == Some(s@),
            None => list_region(text@) is None,
        },
{
    let open: [char; 3] = ['<', 'u', 'l'];
    let close: [char; 5] = ['<', '/', 'u', 'l', '>'];
    assert(open@ =~= list_open());
    assert(close@ =~= list_close());
    let start = find(text, open.as_slice())?;
    let end = find(text, close.as_slice())?;
    if start <= end {
        proof {
            lemma_index_of(text@, list_close());
        }
        Some(slice_subrange(text, start, end))
    } else {
        None
    }
}

/// Cuts the first item off `t`: what stands in it, and the text after it.
fn cut_item<'a>(t: &'a [char]) -> (cut: Option<(&'a [char], &'a [char])>)
    ensures
        match cut {
            Some((payload, rest)) => first_item(t@) == Some(
                Item { payload: payload@, rest: rest@ },
            ),
            None => first_item(t@) is None,
        },
{
    let mark: [char; 4] = ['<', 'l', 'i', '>'];
    assert(mark@ =~= item_mark());
    let n: usize = t.len();
    let at = find(t, mark.as_slice())?;
    proof {
        lemma_index_of(t@, item_mark());
        assert(item_mark().len() == 4);
    }
    let after = slice_subrange(t, at + 4, n);
    let len = match find(after, mark.as_slice()) {
        Some(next) => next,
        None => after.len(),
    };
    proof {
        lemma_index_of(after@, item_mark());
    }
    Some((slice_subrange(after, 0, len), slice_subrange(after, len, after.len())))
}

/// Reads the counter that an item holds.
fn read_entry(payload: &[char]) -> (entry: Option<Result<Data, ParseError>>)
    ensures
        match entry {
            Some(Ok(d)) => entry_of(payload@) == Some(Ok::<Record, Malformed>(d@)),
            Some(Err(e)) => entry_of(payload@) == Some(Err::<Record, Malformed>(e@)),
            None => entry_of(payload@) is None,
        },
{
    let sign: [char; 1] = [':'];
    assert(sign@ =~= colon());
    let n: usize = payload.len();
    let at = find(payload, sign.as_slice())?;
    proof {
        lemma_index_of(payload@, colon());
        assert(colon().len() == 1);
    }
    let name = trim(slice_subrange(payload, 0, at));
    let text = trim(slice_subrange(payload, at + 1, n));
    match parse_i32(text) {
        Some(y) => Some(Ok(Data { name: string_of(name), y, sliced: false })),
        None => Some(Err(ParseError { name: string_of(name), text: string_of(text) })),
    }
}

/// Finds the next counter of `t`, passing over the items that hold none.
fn next_record_in<'a>(t: &'a [char]) -> (next: Result<Option<(&'a [char], Data)>, ParseError>)
    ensures
        match next {
            Ok(Some((rest, d))) => next_record(t@) == Ok::<_, Malformed>(Some((rest@, d@))),
            Ok(None) => next_record(t@) == Ok::<Option<(Seq<char>, Record)>, Malformed>(None),
            Err(e) => next_record(t@) == Err::<Option<(Seq<char>, Record)>, _>(e@),
        },
{
    let mut cur = t;
    loop
        invariant
            next_record(t@) == next_record(cur@),
        decreases cur@.len(),
    {
        match cut_item(cur) {
            None => {
                return Ok(None);
            },
            Some((payload, rest)) => match read_entry(payload) {
                None => {
                    proof {
                        lemma_item_shortens(cur@);
                    }
                    cur = rest;
                },
                Some(Ok(d)) => {
                    return Ok(Some((rest, d)));
                },
                Some(Err(e)) => {
                    return Err(e);
                },
            },
        }
    }
}

/// Reads the counters of a list.
fn records_in(t: &[char]) -> (found: Result<Vec<Data>, ParseError>)
    ensures
        match found {
            Ok(v) => records(t@) == Ok::<_, Malformed>(v.deep_view()),
            Err(e) => records(t@) == Err::<Seq<Record>, _>(e@),
        },
{
    let mut out: Vec<Data> = Vec::new();
    let mut cur = t;
    assert(out.deep_view() =~= Seq::<Record>::empty());
    assert(followed_by(Seq::empty(), records(t@)) == records(t@)) by {
        if let Ok(rs) = records(t@) {
            assert(Seq::<Record>::empty() + rs =~= rs);
        }
    }
    loop
        invariant
            records(t@) == followed_by(out.deep_view(), records(cur@)),
        decreases cur@.len(),
    {
        match next_record_in(cur) {
            Err(e) => {
                return Err(e);
            },
            Ok(None) => {
                assert(out.deep_view() + Seq::<Record>::empty() =~= out.deep_view());
                return Ok(out);
            },
            Ok(Some((rest, d))) => {
                proof {
                    lemma_record_shortens(cur@);
                    let front = out.deep_view();
                    assert(out@.push(d).map_values(|x: Data| x@) =~= front.push(d@)) by {
                        assert(front =~= out@.map_values(|x: Data| x@));
                    }
                    if let Ok(rs) = records(rest@) {
                        assert(front + (seq![d@] + rs) =~= front.push(d@) + rs);
                    }
                }
                out.push(d);
                assert(out.deep_view() =~= out@.map_values(|x: Data| x@));
                cur = rest;
            },
        }
    }
}

/// The list of a report, if it has one.
pub fn find_unsorted_list(html_string_file: String) -> (list: Option<String>)
    ensures
        match list {
            Some(region) => list_region(html_string_file@) == Some(region@),
            None => list_region(html_string_file@) is None,
        },
{
    let chars = chars_of(html_string_file.as_str());
    match list_span(chars.as_slice()) {
        Some(span) => Some(string_of(span)),
        None => None,
    }
}

/// The next counter of a list with the text after its item, none where no
/// item with a counter is left, or the malformed count that was met first.
pub fn try_parse_list_item(html_string_file: String) -> (next: Result<
    Option<(String, Data)>,
    ParseError,
>)
    ensures
        match next {
            Ok(Some((rest, d))) => next_record(html_string_file@) == Ok::<_, Malformed>(
                Some((rest@, d@)),
            ),
            Ok(None) => next_record(html_string_file@) == Ok::<
                Option<(Seq<char>, Record)>,
                Malformed,
            >(None),
            Err(e) => next_record(html_string_file@) == Err::<Option<(Seq<char>, Record)>, _>(e@),
        },
{
    let chars = chars_of(html_string_file.as_str());
    match next_record_in(chars.as_slice()) {
        Ok(Some((rest, d))) => Ok(Some((string_of(rest), d))),
        Ok(None) => Ok(None),
        Err(e) => Err(e),
    }
}

/// The next counter of a list with the text after its item, for a list in
/// which no malformed count stands in the way.
///
/// A malformed count is then an error of the caller. Nothing holds a caller
/// that Verus does not check to that: for such a caller this function gives
/// `None` where a malformed count comes first, as if the list had ended.
/// Such a caller calls `try_parse_list_item` instead, which names the
/// count.
pub fn parse_list_item(html_string_file: String) -> (next: Option<(String, Data)>)
    requires
        next_record(html_string_file@) is Ok,
    ensures
        match next {
            Some((rest, d)) => next_record(html_string_file@) == Ok::<_, Malformed>(
                Some((rest@, d@)),
            ),
            None => next_record(html_string_file@) == Ok::<
                Option<(Seq<char>, Record)>,
                Malformed,
            >(None),
        },
{
    match try_parse_list_item(html_string_file) {
        Ok(next) => next,
        Err(_) => None,
    }
}

/// Flags the counter to set apart, the first to hold the greatest count,
/// and leaves the rest as it is. Where there is no counter it does nothing.
pub fn set_sliced_element(data_vec: Vec<Data>) -> (out: Vec<Data>)
    ensures
        out.deep_view() == marked(data_vec.deep_view()),
{
    let ghost rs = data_vec.deep_view();
    let mut data_vec = data_vec;
    let n: usize = data_vec.len();
    if n > 0 {
        let mut best: usize = 0;
        let mut i: usize = 1;
        while i < n
            invariant
                n == data_vec.len(),
                best < i <= n,
                rs == data_vec.deep_view(),
                forall|j: int| 0 <= j < best ==> rs[j].count < rs[best as int].count,
                forall|j: int| best < j < i ==> rs[j].count <= rs[best as int].count,
            decreases n - i,
        {
            if data_vec[i].y > data_vec[best].y {
                best = i;
            }
            i += 1;
        }
        proof {
            lemma_leader_is_selected(rs, best as int);
        }
        data_vec[best].sliced = true;
    }
    assert(data_vec.deep_view() =~= marked(rs));
    data_vec
}

/// The counters of a report with the selected one flagged, or the count
/// that could not be read.
pub fn try_parse_list(html_string_file: String) -> (found: Result<Vec<Data>, ParseError>)
    ensures
        match found {
            Ok(v) => parsed(html_string_file@) == Ok::<_, Malformed>(v.deep_view()),
            Err(e) => parsed(html_string_file@) == Err::<Seq<Record>, _>(e@),
        },
{
    let chars = chars_of(html_string_file.as_str());
    let found: Vec<Data> = match list_span(chars.as_slice()) {
        Some(span) => records_in(span)?,
        None => Vec::new(),
    };
    assert(list_region(html_string_file@) is None ==> found.deep_view() =~= Seq::<
        Record,
    >::empty());
    Ok(set_sliced_element(found))
}

/// The counters of a report with the selected one flagged, for a report in
/// which every count can be read.
///
/// A malformed count is then an error of the caller. Nothing holds a caller
/// that Verus does not check to that: for such a caller this function gives
/// no counters at all where the list holds a malformed count. Such a caller
/// calls `try_parse_list` instead, which names the count.
pub fn parse_list(html_string_file: String) -> (found: Vec<Data>)
    requires
        parsed(html_string_file@) is Ok,
    ensures
        parsed(html_string_file@) == Ok::<_, Malformed>(found.deep_view()),
{
    match try_parse_list(html_string_file) {
        Ok(found) => found,
        Err(_) => Vec::new(),
    }
}

} // verus!
