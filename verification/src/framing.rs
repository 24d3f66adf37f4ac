//! Records in a log: each ends with a newline.
use vstd::prelude::*;

use crate::bytes::{lemma_place, lemma_place_unique, place, NEWLINE};

verus! {

/// Whether `text` holds a whole record.
pub open spec fn holds_record(text: Seq<u8>) -> bool {
    place(text, NEWLINE) < text.len()
}

/// The first record of `text`, with its newline.
pub open spec fn first_record(text: Seq<u8>) -> Seq<u8> {
    text.take(place(text, NEWLINE) + 1)
}

/// What follows the first record of `text`.
pub open spec fn after_record(text: Seq<u8>) -> Seq<u8> {
    text.skip(place(text, NEWLINE) + 1)
}

/// The records of `text`, each with its newline. What follows the last newline
/// is no record.
pub open spec fn records(text: Seq<u8>) -> Seq<Seq<u8>>
    decreases text.len(),
{
    if holds_record(text) {
        proof {
            lemma_place(text, NEWLINE);
        }
        seq![first_record(text)] + records(after_record(text))
    } else {
        Seq::empty()
    }
}

/// Whether `text` ends where a record ends.
pub open spec fn is_finished(text: Seq<u8>) -> bool {
    text.len() == 0 || text.last() == NEWLINE
}

/// Whether `text` is one record.
pub open spec fn is_record(text: Seq<u8>) -> bool {
    text.len() > 0 && place(text, NEWLINE) == text.len() - 1
}

/// More text leaves the records that are there as they are, and adds those that
/// it makes of what follows the last newline.
pub proof fn lemma_first_record_stays(text: Seq<u8>, more: Seq<u8>)
    requires
        holds_record(text),
    ensures
        holds_record(text + more),
        first_record(text + more) == first_record(text),
        after_record(text + more) == after_record(text) + more,
{
    lemma_place(text, NEWLINE);
    let at = place(text, NEWLINE);
    assert forall|i: int| 0 <= i < at implies (text + more)[i] != NEWLINE by {
        assert((text + more)[i] == text[i]);
    }
    lemma_place_unique(text + more, NEWLINE, at);
    assert(first_record(text + more) =~= first_record(text));
    assert(after_record(text + more) =~= after_record(text) + more);
}

/// Records that are written one behind the other are read back one by one.
pub proof fn lemma_records_joined(text: Seq<u8>, more: Seq<u8>)
    requires
        is_finished(text),
    ensures
        records(text + more) == records(text) + records(more),
    decreases text.len(),
{
    if text.len() == 0 {
        assert(text + more =~= more);
        lemma_place(text, NEWLINE);
        assert(records(text) + records(more) =~= records(more));
    } else {
        lemma_place(text, NEWLINE);
        assert(text.contains(NEWLINE)) by {
            assert(text[text.len() - 1] == NEWLINE);
        }
        lemma_first_record_stays(text, more);
        let rest = after_record(text);
        assert(rest.len() > 0 ==> rest.last() == text.last());
        lemma_records_joined(rest, more);
        assert(records(text + more) =~= records(text) + records(more));
    }
}

/// A record is read back as it was written.
pub proof fn lemma_record_alone(record: Seq<u8>)
    requires
        is_record(record),
    ensures
        records(record) == seq![record],
        is_finished(record),
{
    lemma_place(record, NEWLINE);
    assert(first_record(record) =~= record);
    assert(after_record(record) =~= Seq::<u8>::empty());
    lemma_place(Seq::<u8>::empty(), NEWLINE);
    assert(records(after_record(record)) =~= Seq::<Seq<u8>>::empty());
    assert(records(record) =~= seq![record]);
}

/// A line without a newline in it becomes a record when one is put behind it.
pub proof fn lemma_line_is_record(line: Seq<u8>)
    requires
        !line.contains(NEWLINE),
    ensures
        is_record(line.push(NEWLINE)),
{
    let record = line.push(NEWLINE);
    assert forall|i: int| 0 <= i < line.len() implies record[i] != NEWLINE by {
        assert(line.contains(line[i]));
    }
    lemma_place_unique(record, NEWLINE, line.len() as int);
}

/// A record that broke off before its newline is not there: whatever was written
/// of it, the log holds the records that it held before.
pub proof fn law_torn_record(text: Seq<u8>, part: Seq<u8>)
    requires
        !part.contains(NEWLINE),
    ensures
        records(text + part) == records(text),
    decreases text.len(),
{
    lemma_place(text, NEWLINE);
    if holds_record(text) {
        lemma_first_record_stays(text, part);
        law_torn_record(after_record(text), part);
    } else {
        lemma_place(text + part, NEWLINE);
        if (text + part).contains(NEWLINE) {
            let i = choose|i: int| 0 <= i < (text + part).len() && (text + part)[i] == NEWLINE;
            if i < text.len() {
                assert(text.contains(text[i]));
            } else {
                assert(part.contains(part[i - text.len()]));
            }
        }
    }
}

} // verus!
