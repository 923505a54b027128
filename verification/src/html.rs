//! The counters of a report and the page that shows them.

use crate::number::{decimal, push_decimal};
use vstd::prelude::*;
use vstd::string::StringExecFns;

pub mod listing;
pub mod parsing;

verus! {

/// One counter of a report: its name, its count, and whether it is the one
/// that the chart sets apart.
#[derive(Debug, PartialEq, Eq)]
pub struct Data {
    pub name: String,
    pub y: i32,
    pub sliced: bool,
}

/// A counter as a mathematical value.
pub struct Record {
    pub name: Seq<char>,
    pub count: int,
    pub largest: bool,
}

impl View for Data {
    type V = Record;

    open spec fn view(&self) -> Record {
        Record { name: self.name@, count: self.y as int, largest: self.sliced }
    }
}

impl DeepView for Data {
    type V = Record;

    open spec fn deep_view(&self) -> Record {
        self@
    }
}

/// The literal of a flag.
pub open spec fn flag_text(flag: bool) -> Seq<char> {
    if flag {
        "true"@
    } else {
        "false"@
    }
}

/// A counter as an object literal: the name between double quotes as it is,
/// the count in decimal, the flag as `true` or `false`.
pub open spec fn record_text(r: Record) -> Seq<char> {
    "{name: \""@ + r.name + "\", y: "@ + decimal(r.count) + ", sliced: "@ + flag_text(r.largest)
        + "}"@
}

/// The object literals of the counters in order, with a comma between each
/// two and nothing around them.
pub open spec fn list_text(rs: Seq<Record>) -> Seq<char>
    decreases rs.len(),
{
    if rs.len() == 0 {
        Seq::empty()
    } else if rs.len() == 1 {
        record_text(rs[0])
    } else {
        list_text(rs.drop_last()) + ","@ + record_text(rs.last())
    }
}

/// The page: the counters' literals between the two parts of the template.
pub open spec fn page_text(prefix: Seq<char>, rs: Seq<Record>, suffix: Seq<char>) -> Seq<char> {
    prefix + list_text(rs) + suffix
}

impl Data {
    /// The counter as an object literal.
    pub fn to_string(&self) -> (out: String)
        ensures
            out@ == record_text(self@),
    {
        let mut out = String::new();
        out.append("{name: \"");
        out.append(self.name.as_str());
        out.append("\", y: ");
        push_decimal(&mut out, self.y);
        out.append(", sliced: ");
        if self.sliced {
            out.append("true");
        } else {
            out.append("false");
        }
        out.append("}");
        assert(out@ =~= record_text(self@));
        out
    }
}

/// The page that shows `data`: `prefix`, then the literals of the counters
/// with commas between them, then `suffix`.
pub fn html_index_as_string(data: Vec<Data>, prefix: &str, suffix: &str) -> (page: String)
    ensures
        page@ == page_text(prefix@, data.deep_view(), suffix@),
        prefix@.is_prefix_of(page@),
{
    let ghost rs = data.deep_view();
    let mut page = String::new();
    page.append(prefix);
    assert(rs.take(0) =~= Seq::<Record>::empty());
    let mut i: usize = 0;
    while i < data.len()
        invariant
            i <= data.len(),
            rs == data.deep_view(),
            page@ =~= prefix@ + list_text(rs.take(i as int)),
        decreases data.len() - i,
    {
        if i > 0 {
            page.append(",");
        }
        let item = data[i].to_string();
        page.append(item.as_str());
        proof {
            let now = rs.take(i + 1);
            assert(now.drop_last() =~= rs.take(i as int));
            assert(now.last() == data[i as int]@);
        }
        i += 1;
    }
    assert(rs.take(i as int) =~= rs);
    page.append(suffix);
    assert(page@ =~= page_text(prefix@, rs, suffix@));
    page
}

} // verus!
