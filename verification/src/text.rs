//! Records as text: every record with its name written out, as a label where
//! the label table has one and as a literal where it has none.

use vstd::prelude::*;
use crate::error::Error;
use crate::labels::{
    deserialize, lemma_unlabelled_name_round_trips, resolve, serialize, spec_deserialize,
    LabelRegistry,
};
use crate::record::Record;

verus! {

/// The text form of one record. The name is read from `name`; the name that
/// `record` itself carries is passed over.
#[derive(Debug)]
pub struct TextRecord<R> {
    /// The name as it is written.
    pub name: String,
    /// The fields of the record.
    pub record: R,
}

impl<R> View for TextRecord<R> {
    type V = (Seq<char>, R);

    open spec fn view(&self) -> (Seq<char>, R) {
        (self.name@, self.record)
    }
}

/// Each text record as its written name and its fields.
pub open spec fn views<R>(text: Seq<TextRecord<R>>) -> Seq<(Seq<char>, R)> {
    Seq::new(text.len(), |i: int| text[i]@)
}

/// The text form of `records` under `table`.
pub open spec fn spec_to_text<R: Record>(records: Seq<R>, table: Map<u64, Seq<char>>) -> Seq<
    (Seq<char>, R),
> {
    Seq::new(records.len(), |i: int| (resolve(table, records[i].spec_name()), records[i]))
}

/// Whether every name of `text` can be read.
pub open spec fn names_parse<R>(text: Seq<(Seq<char>, R)>) -> bool {
    forall|i: int| 0 <= i < text.len() ==> spec_deserialize(#[trigger] text[i].0) is Ok
}

/// The records that `text` stands for: each under the name that its written
/// name reads as. One name that cannot be read refuses the whole text.
pub open spec fn spec_from_text<R: Record>(text: Seq<(Seq<char>, R)>) -> Result<Seq<R>, Error> {
    if names_parse(text) {
        Ok(
            Seq::new(
                text.len(),
                |i: int| text[i].1.spec_with_name(spec_deserialize(text[i].0)->Ok_0),
            ),
        )
    } else {
        Err(Error::TextParseError)
    }
}

/// Writes `records` as text, their names as `labels` shows them.
pub fn to_text<R: Record>(records: &Vec<R>, labels: &LabelRegistry) -> (text: Vec<TextRecord<R>>)
    ensures
        views(text@) == spec_to_text(records@, labels@),
{
    let mut text: Vec<TextRecord<R>> = Vec::with_capacity(records.len());
    let mut i: usize = 0;
    while i < records.len()
        invariant
            i <= records@.len(),
            views(text@) == spec_to_text(records@.take(i as int), labels@),
        decreases records@.len() - i,
    {
        let record: R = records[i];
        let name: String = serialize(&record.name(), labels);
        let ghost before = text@;
        text.push(TextRecord { name, record });
        proof {
            let seen = spec_to_text(records@.take(i as int), labels@);
            let next = spec_to_text(records@.take(i + 1), labels@);
            assert(views(before).len() == i);
            assert forall|j: int| 0 <= j < next.len() implies views(text@)[j] == next[j] by {
                if j < i {
                    assert(views(before)[j] == seen[j]);
                    assert(text@[j] == before[j]);
                }
            }
            assert(views(text@) =~= next);
        }
        i += 1;
    }
    assert(records@.take(i as int) =~= records@);
    text
}

/// Reads records from their text form.
pub fn from_text<R: Record>(text: &Vec<TextRecord<R>>) -> (r: Result<Vec<R>, Error>)
    ensures
        match spec_from_text(views(text@)) {
            Ok(records) => r matches Ok(v) && v@ == records,
            Err(e) => r matches Err(f) && f == e,
        },
{
    let mut records: Vec<R> = Vec::with_capacity(text.len());
    let mut i: usize = 0;
    assert(spec_from_text(views(text@).take(0))->Ok_0 =~= records@);
    while i < text.len()
        invariant
            i <= text@.len(),
            names_parse(views(text@).take(i as int)),
            spec_from_text(views(text@).take(i as int)) == Ok::<Seq<R>, Error>(records@),
        decreases text@.len() - i,
    {
        let ghost seen = views(text@).take(i as int);
        let ghost next = views(text@).take(i + 1);
        match deserialize(text[i].name.as_str()) {
            Ok(name) => {
                let record: R = text[i].record.with_name(name);
                records.push(record);
                proof {
                    assert forall|j: int| 0 <= j < next.len() implies spec_deserialize(
                        #[trigger] next[j].0,
                    ) is Ok by {
                        if j < i {
                            assert(seen[j] == next[j]);
                        }
                    }
                    assert(spec_from_text(next)->Ok_0 =~= records@);
                }
            },
            Err(e) => {
                assert(views(text@)[i as int].0 == text@[i as int].name@);
                return Err(e);
            },
        }
        i += 1;
    }
    assert(views(text@).take(i as int) =~= views(text@));
    Ok(records)
}

/// Writing records as text and reading the text gives the records back, as
/// long as every name is written in a way that reads as that name.
pub proof fn lemma_text_round_trip<R: Record>(records: Seq<R>, table: Map<u64, Seq<char>>)
    requires
        forall|i: int|
            0 <= i < records.len() ==> spec_deserialize(
                resolve(table, #[trigger] records[i].spec_name()),
            ) == Ok::<u64, Error>(records[i].spec_name()),
    ensures
        spec_from_text(spec_to_text(records, table)) == Ok::<Seq<R>, Error>(records),
{
    let text = spec_to_text(records, table);
    assert forall|i: int| 0 <= i < text.len() implies spec_deserialize(#[trigger] text[i].0) is Ok by {
        assert(text[i].0 == resolve(table, records[i].spec_name()));
    }
    let back = spec_from_text(text)->Ok_0;
    assert forall|i: int| 0 <= i < records.len() implies back[i] == records[i] by {
        assert(text[i].0 == resolve(table, records[i].spec_name()));
        records[i].lemma_with_name(records[i].spec_name());
    }
    assert(back =~= records);
}

/// With a table that labels none of their names, records written as text and
/// read again are the records.
pub proof fn lemma_text_round_trip_unlabelled<R: Record>(
    records: Seq<R>,
    table: Map<u64, Seq<char>>,
)
    requires
        forall|i: int|
            0 <= i < records.len() ==> !table.contains_key(#[trigger] records[i].spec_name()),
    ensures
        spec_from_text(spec_to_text(records, table)) == Ok::<Seq<R>, Error>(records),
{
    assert forall|i: int| 0 <= i < records.len() implies spec_deserialize(
        resolve(table, #[trigger] records[i].spec_name()),
    ) == Ok::<u64, Error>(records[i].spec_name()) by {
        lemma_unlabelled_name_round_trips(table, records[i].spec_name());
    }
    lemma_text_round_trip(records, table);
}

} // verus!
