//! Reports whose list is written item by item, each item a name, a colon
//! and a count: what reading such a report gives.

use crate::html::parsing::{
    colon, entry_of, extracted, first_item, item_mark, list_close, list_open, list_region,
    next_record, records, Item, Malformed,
};
use crate::html::Record;
use crate::number::integer_of;
use crate::text::{
    free_of, guarded, index_of, lemma_free_is_guarded, lemma_guarded_concat,
    lemma_index_of_after_guarded, lemma_index_of_first, lemma_index_of_guarded,
    lemma_none_begins_before, lemma_none_begins_in_guarded, lemma_occurs_after,
    lemma_occurs_at_chars, occurs_at, trimmed,
};
use vstd::prelude::*;

verus! {

/// A counter as it stands in an item: the text before the colon and the
/// text after it.
pub struct Written {
    pub name: Seq<char>,
    pub count: Seq<char>,
}

/// The name holds no colon, neither text holds a `<`, and the count,
/// without the white space around it, is the literal of a 32-bit integer.
pub open spec fn well_formed(w: Written) -> bool {
    &&& free_of(w.name, ':')
    &&& free_of(w.name, '<')
    &&& free_of(w.count, '<')
    &&& integer_of(trimmed(w.count)) is Some
}

/// The item that holds `w`: the item marker, the name, a colon, the count.
pub open spec fn item_text(w: Written) -> Seq<char> {
    item_mark() + w.name + colon() + w.count
}

/// The items that hold `ws`, one after the other.
pub open spec fn items_text(ws: Seq<Written>) -> Seq<char>
    decreases ws.len(),
{
    if ws.len() == 0 {
        Seq::empty()
    } else {
        item_text(ws.first()) + items_text(ws.drop_first())
    }
}

/// The counter that `w` writes down.
pub open spec fn record_of(w: Written) -> Record {
    Record {
        name: trimmed(w.name),
        count: integer_of(trimmed(w.count))->Some_0,
        largest: false,
    }
}

/// The counters that `ws` write down, in their order.
pub open spec fn records_of(ws: Seq<Written>) -> Seq<Record> {
    Seq::new(ws.len(), |k: int| record_of(ws[k]))
}

/// A report with one list: `before`, the opening marker, `head`, the items
/// of `ws`, the closing marker, `after`.
pub open spec fn report_text(
    before: Seq<char>,
    head: Seq<char>,
    ws: Seq<Written>,
    after: Seq<char>,
) -> Seq<char> {
    before + list_open() + head + items_text(ws) + list_close() + after
}

/// In the items of well-formed counters every `<` begins an item marker.
proof fn lemma_items_guarded(ws: Seq<Written>, b: char)
    requires
        forall|k: int| 0 <= k < ws.len() ==> well_formed(#[trigger] ws[k]),
        b != 'l',
    ensures
        guarded(items_text(ws), '<', b),
    decreases ws.len(),
{
    if ws.len() > 0 {
        let w = ws.first();
        assert(well_formed(ws[0]));
        assert forall|k: int| 0 <= k < ws.drop_first().len() implies well_formed(
            #[trigger] ws.drop_first()[k],
        ) by {
            assert(well_formed(ws[k + 1]));
        }
        lemma_items_guarded(ws.drop_first(), b);
        lemma_free_is_guarded(w.name, '<', b);
        lemma_free_is_guarded(w.count, '<', b);
        lemma_guarded_concat(item_mark(), w.name, '<', b);
        lemma_guarded_concat(item_mark() + w.name, colon(), '<', b);
        lemma_guarded_concat(item_mark() + w.name + colon(), w.count, '<', b);
        lemma_guarded_concat(item_text(w), items_text(ws.drop_first()), '<', b);
    }
}

/// The item of a well-formed counter holds that counter.
proof fn lemma_entry_of_written(w: Written)
    requires
        well_formed(w),
    ensures
        entry_of(w.name + colon() + w.count) == Some(Ok::<Record, Malformed>(record_of(w))),
{
    let payload = w.name + colon() + w.count;
    let at = w.name.len() as int;
    assert(payload.subrange(at, at + 1) =~= colon());
    assert forall|j: int| 0 <= j < at implies !occurs_at(payload, colon(), j) by {
        if occurs_at(payload, colon(), j) {
            lemma_occurs_at_chars(payload, colon(), j);
            assert(payload[j + 0] == colon()[0]);
            assert(w.name[j] == ':');
        }
    }
    lemma_index_of_first(payload, colon(), at);
    assert(payload.take(at) =~= w.name);
    assert(payload.skip(at + 1) =~= w.count);
}

/// Items, where there are any, begin with the item marker.
proof fn lemma_items_begin_with_mark(ws: Seq<Written>)
    requires
        ws.len() > 0,
    ensures
        occurs_at(items_text(ws), item_mark(), 0),
{
    let w = ws.first();
    let rest = w.name + colon() + w.count + items_text(ws.drop_first());
    assert(items_text(ws) =~= item_mark() + rest);
    assert((item_mark() + rest).subrange(0, 4) =~= item_mark());
}

/// After a `head` in which no item marker begins, the item of a
/// well-formed counter is the first item, and it ends where the next item
/// begins or the text ends.
proof fn lemma_first_written_item(head: Seq<char>, w: Written, tail: Seq<char>)
    requires
        guarded(head, '<', 'l'),
        well_formed(w),
        tail.len() == 0 || occurs_at(tail, item_mark(), 0),
    ensures
        first_item(head + (item_text(w) + tail)) == Some(
            Item { payload: w.name + colon() + w.count, rest: tail },
        ),
{
    let t = head + (item_text(w) + tail);
    let body = w.name + colon() + w.count;
    let from_mark = item_mark() + (body + tail);
    assert(item_text(w) + tail =~= from_mark);
    assert(from_mark.subrange(0, 4) =~= item_mark());
    lemma_index_of_after_guarded(head, from_mark, item_mark());
    let after = t.skip(head.len() as int + 4);
    assert(after =~= body + tail);
    assert(guarded(body, '<', 'l')) by {
        lemma_free_is_guarded(w.name, '<', 'l');
        lemma_free_is_guarded(w.count, '<', 'l');
        lemma_guarded_concat(w.name, colon(), '<', 'l');
        lemma_guarded_concat(w.name + colon(), w.count, '<', 'l');
    }
    if tail.len() == 0 {
        assert(after =~= body);
        lemma_index_of_guarded(body, item_mark());
        assert(after.take(after.len() as int) =~= body);
        assert(after.skip(after.len() as int) =~= tail);
    } else {
        lemma_index_of_after_guarded(body, tail, item_mark());
        assert(after.take(body.len() as int) =~= body);
        assert(after.skip(body.len() as int) =~= tail);
    }
}

/// A list that is written item by item, after a `head` in which no item
/// marker begins, holds the counters of its items and no other.
pub proof fn lemma_records_of_items(head: Seq<char>, ws: Seq<Written>)
    requires
        guarded(head, '<', 'l'),
        forall|k: int| 0 <= k < ws.len() ==> well_formed(#[trigger] ws[k]),
    ensures
        records(head + items_text(ws)) == Ok::<_, Malformed>(records_of(ws)),
    decreases ws.len(),
{
    let t = head + items_text(ws);
    if ws.len() == 0 {
        assert(t =~= head);
        lemma_index_of_guarded(head, item_mark());
        assert(records_of(ws) =~= Seq::<Record>::empty());
    } else {
        let w = ws.first();
        let tail = ws.drop_first();
        let tail_text = items_text(tail);
        assert(well_formed(ws[0]));
        assert forall|k: int| 0 <= k < tail.len() implies well_formed(#[trigger] tail[k]) by {
            assert(well_formed(ws[k + 1]));
        }
        if tail.len() > 0 {
            lemma_items_begin_with_mark(tail);
        }
        lemma_first_written_item(head, w, tail_text);
        lemma_entry_of_written(w);
        assert(next_record(t) == Ok::<_, Malformed>(Some((tail_text, record_of(w)))));
        lemma_records_of_items(Seq::empty(), tail);
        assert(Seq::<char>::empty() + tail_text =~= tail_text);
        assert(seq![record_of(w)] + records_of(tail) =~= records_of(ws));
    }
}

/// A text that begins with the opening marker and in which no closing
/// marker begins is the list of the report that holds it before the first
/// closing marker, where neither marker occurs before it.
pub proof fn lemma_region_between(before: Seq<char>, region: Seq<char>, closing: Seq<char>)
    requires
        forall|j: int| !occurs_at(before, list_open(), j),
        forall|j: int| !occurs_at(before, list_close(), j),
        occurs_at(region, list_open(), 0),
        guarded(region, '<', '/'),
        occurs_at(closing, list_close(), 0),
    ensures
        list_region(before + (region + closing)) == Some(region),
{
    let inner = region + closing;
    let text = before + inner;
    let start = before.len() as int;
    let end = start + region.len();
    lemma_occurs_at_chars(region, list_open(), 0);
    assert(region[0int + 0] == list_open()[0]);
    assert(inner[0] == '<');
    assert(index_of(text, list_open()) == Some(start)) by {
        lemma_none_begins_before(before, inner, list_open());
        lemma_occurs_after(region, closing, list_open(), 0);
        assert(region.subrange(0, 3) =~= inner.subrange(0, 3));
        assert(occurs_at(inner, list_open(), 0));
        lemma_occurs_after(before, inner, list_open(), 0);
        lemma_index_of_first(text, list_open(), start);
    }
    assert(index_of(text, list_close()) == Some(end)) by {
        lemma_none_begins_before(before, inner, list_close());
        lemma_none_begins_in_guarded(region, closing, list_close());
        assert forall|j: int| 0 <= j < end implies !occurs_at(text, list_close(), j) by {
            if j >= start {
                lemma_occurs_after(before, inner, list_close(), j - start);
            }
        }
        lemma_occurs_after(region, closing, list_close(), 0);
        lemma_occurs_after(before, inner, list_close(), region.len() as int);
        lemma_index_of_first(text, list_close(), end);
    }
    assert(text.subrange(start, end) =~= region);
}

/// A report with one list of `n` well-formed items gives `n` counters, one
/// for each item and in the order of the items, whatever stands before the
/// list and after it: before it, anything in which neither list marker
/// occurs; after it, anything at all.
pub proof fn lemma_report_gives_its_items(
    before: Seq<char>,
    head: Seq<char>,
    ws: Seq<Written>,
    after: Seq<char>,
)
    requires
        forall|j: int| !occurs_at(before, list_open(), j),
        forall|j: int| !occurs_at(before, list_close(), j),
        free_of(head, '<'),
        forall|k: int| 0 <= k < ws.len() ==> well_formed(#[trigger] ws[k]),
    ensures
        list_region(report_text(before, head, ws, after)) == Some(
            list_open() + head + items_text(ws),
        ),
        extracted(report_text(before, head, ws, after)) == Ok::<_, Malformed>(records_of(ws)),
        records_of(ws).len() == ws.len(),
{
    let region = list_open() + head + items_text(ws);
    let closing = list_close() + after;
    assert(report_text(before, head, ws, after) =~= before + (region + closing));
    assert(region.subrange(0, 3) =~= list_open());
    assert(closing.subrange(0, 5) =~= list_close());
    assert(guarded(region, '<', '/')) by {
        lemma_free_is_guarded(head, '<', '/');
        lemma_guarded_concat(list_open(), head, '<', '/');
        lemma_items_guarded(ws, '/');
        lemma_guarded_concat(list_open() + head, items_text(ws), '<', '/');
    }
    lemma_region_between(before, region, closing);
    assert(guarded(list_open() + head, '<', 'l')) by {
        lemma_free_is_guarded(head, '<', 'l');
        lemma_guarded_concat(list_open(), head, '<', 'l');
    }
    lemma_records_of_items(list_open() + head, ws);
}

} // verus!
