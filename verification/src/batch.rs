use vstd::prelude::*;

use crate::extract::ExtractError;
use crate::extract::ExtractionResult;
use crate::extract::Outcome;
use crate::extract::error_agrees;
use crate::extract::extract;
use crate::extract::extract_outcome;
use crate::table::TableRow;
use crate::table::row_of;
use crate::table::rows_of;

verus! {

/// One document handed to the batch: its base file name and its text.
pub struct InputDocument {
    pub name: String,
    pub text: String,
}

/// One reported failure: the file's name and what went wrong with it.
pub struct FailureReport {
    pub name: String,
    pub error: ExtractError,
}

/// The rows owed by a batch: one per document whose extraction succeeds, in
/// input order, carrying that document's name.
pub open spec fn batch_records(docs: Seq<InputDocument>) -> Seq<TableRow>
    decreases docs.len(),
{
    if docs.len() == 0 {
        Seq::empty()
    } else {
        (match extract_outcome(docs[0].text@) {
            Outcome::Record { code, status } => seq![
                TableRow { code, name: docs[0].name@, status },
            ],
            _ => Seq::<TableRow>::empty(),
        }) + batch_records(docs.drop_first())
    }
}

/// The failures owed by a batch: the name and outcome of each document whose
/// extraction fails, in input order.
pub open spec fn batch_failures(docs: Seq<InputDocument>) -> Seq<(Seq<char>, Outcome)>
    decreases docs.len(),
{
    if docs.len() == 0 {
        Seq::empty()
    } else {
        (match extract_outcome(docs[0].text@) {
            Outcome::Record { .. } => Seq::<(Seq<char>, Outcome)>::empty(),
            _ => seq![(docs[0].name@, extract_outcome(docs[0].text@))],
        }) + batch_failures(docs.drop_first())
    }
}

/// `batch_records` distributes over concatenation.
proof fn lemma_batch_records_add(a: Seq<InputDocument>, b: Seq<InputDocument>)
    ensures
        batch_records(a + b) == batch_records(a) + batch_records(b),
    decreases a.len(),
{
    if a.len() == 0 {
        assert(a + b =~= b);
        assert(batch_records(a) == Seq::<TableRow>::empty());
        assert(batch_records(a + b) =~= batch_records(a) + batch_records(b));
    } else {
        lemma_batch_records_add(a.drop_first(), b);
        assert((a + b)[0] == a[0]);
        assert((a + b).drop_first() =~= a.drop_first() + b);
        assert(batch_records(a + b) =~= batch_records(a) + batch_records(b));
    }
}

/// `batch_failures` distributes over concatenation.
proof fn lemma_batch_failures_add(a: Seq<InputDocument>, b: Seq<InputDocument>)
    ensures
        batch_failures(a + b) == batch_failures(a) + batch_failures(b),
    decreases a.len(),
{
    if a.len() == 0 {
        assert(a + b =~= b);
        assert(batch_failures(a) == Seq::<(Seq<char>, Outcome)>::empty());
        assert(batch_failures(a + b) =~= batch_failures(a) + batch_failures(b));
    } else {
        lemma_batch_failures_add(a.drop_first(), b);
        assert((a + b)[0] == a[0]);
        assert((a + b).drop_first() =~= a.drop_first() + b);
        assert(batch_failures(a + b) =~= batch_failures(a) + batch_failures(b));
    }
}

/// The contribution of a single document.
proof fn lemma_batch_singleton(d: InputDocument)
    ensures
        batch_records(seq![d]) == (match extract_outcome(d.text@) {
            Outcome::Record { code, status } => seq![TableRow { code, name: d.name@, status }],
            _ => Seq::<TableRow>::empty(),
        }),
        batch_failures(seq![d]) == (match extract_outcome(d.text@) {
            Outcome::Record { .. } => Seq::<(Seq<char>, Outcome)>::empty(),
            _ => seq![(d.name@, extract_outcome(d.text@))],
        }),
{
    assert(seq![d][0] == d);
    assert(seq![d].drop_first() =~= Seq::<InputDocument>::empty());
    assert(batch_records(Seq::<InputDocument>::empty()) == Seq::<TableRow>::empty());
    assert(batch_failures(Seq::<InputDocument>::empty()) == Seq::<(Seq<char>, Outcome)>::empty());
    assert(batch_records(seq![d]) =~= (match extract_outcome(d.text@) {
        Outcome::Record { code, status } => seq![TableRow { code, name: d.name@, status }],
        _ => Seq::<TableRow>::empty(),
    }));
    assert(batch_failures(seq![d]) =~= (match extract_outcome(d.text@) {
        Outcome::Record { .. } => Seq::<(Seq<char>, Outcome)>::empty(),
        _ => seq![(d.name@, extract_outcome(d.text@))],
    }));
}

/// Processes a batch of documents: extracts each in order, keeping the
/// records of the documents that succeed and reporting each failing document
/// by name. A failing document never stops the batch.
pub fn process_batch(docs: &Vec<InputDocument>) -> (r: (
    Vec<ExtractionResult>,
    Vec<FailureReport>,
))
    ensures
        rows_of(r.0@) == batch_records(docs@),
        r.1@.len() == batch_failures(docs@).len(),
        forall|k: int|
            0 <= k < r.1@.len() ==> r.1@[k].name@ == batch_failures(docs@)[k].0 && error_agrees(
                r.1@[k].error,
                batch_failures(docs@)[k].1,
            ),
{
    let mut records: Vec<ExtractionResult> = Vec::new();
    let mut failures: Vec<FailureReport> = Vec::new();
    proof {
        assert(docs@.take(0) =~= Seq::<InputDocument>::empty());
        assert(rows_of(records@) =~= batch_records(docs@.take(0)));
    }
    let mut i: usize = 0;
    while i < docs.len()
        invariant
            i <= docs.len(),
            rows_of(records@) == batch_records(docs@.take(i as int)),
            failures@.len() == batch_failures(docs@.take(i as int)).len(),
            forall|k: int|
                0 <= k < failures@.len() ==> failures@[k].name@ == batch_failures(
                    docs@.take(i as int),
                )[k].0 && error_agrees(
                    failures@[k].error,
                    batch_failures(docs@.take(i as int))[k].1,
                ),
        decreases docs.len() - i,
    {
        let d = &docs[i];
        let outcome = extract(d.text.as_str(), d.name.as_str());
        proof {
            lemma_batch_records_add(docs@.take(i as int), seq![docs@[i as int]]);
            lemma_batch_failures_add(docs@.take(i as int), seq![docs@[i as int]]);
            lemma_batch_singleton(docs@[i as int]);
            assert(docs@.take(i as int) + seq![docs@[i as int]] =~= docs@.take(i as int + 1));
        }
        match outcome {
            Ok(rec) => {
                let ghost old_records = records@;
                records.push(rec);
                proof {
                    assert(row_of(rec) =~= (match extract_outcome(d.text@) {
                        Outcome::Record { code, status } => TableRow {
                            code,
                            name: d.name@,
                            status,
                        },
                        _ => row_of(rec),
                    }));
                    assert(rows_of(records@) =~= rows_of(old_records).push(row_of(rec)));
                    assert(rows_of(records@) =~= batch_records(docs@.take(i as int + 1)));
                }
            },
            Err(e) => {
                let report = FailureReport { name: d.name.clone(), error: e };
                failures.push(report);
                proof {
                    assert(batch_failures(docs@.take(i as int + 1)) =~= batch_failures(
                        docs@.take(i as int),
                    ).push((d.name@, extract_outcome(d.text@))));
                }
            },
        }
        i += 1;
    }
    proof {
        assert(docs@.take(docs@.len() as int) =~= docs@);
    }
    (records, failures)
}

/// A candidate input file: its name ends in `.xml` with at least one
/// character before the dot.
pub open spec fn xml_file_name(s: Seq<char>) -> bool {
    s.len() >= 5 && s.skip(s.len() - 4) == ".xml"@
}

/// Decides whether a file name is a candidate for the batch.
pub fn is_xml_file_name(name: &str) -> (r: bool)
    ensures
        r == xml_file_name(name@),
{
    proof {
        reveal_strlit(".xml");
    }
    let n = name.unicode_len();
    if n < 5 {
        return false;
    }
    let c0 = name.get_char(n - 4);
    let c1 = name.get_char(n - 3);
    let c2 = name.get_char(n - 2);
    let c3 = name.get_char(n - 1);
    let r = c0 == '.' && c1 == 'x' && c2 == 'm' && c3 == 'l';
    proof {
        let tail = name@.skip(n as int - 4);
        assert(tail.len() == 4);
        assert(tail[0] == name@[n as int - 4]);
        assert(tail[1] == name@[n as int - 3]);
        assert(tail[2] == name@[n as int - 2]);
        assert(tail[3] == name@[n as int - 1]);
        if r {
            assert(tail =~= ".xml"@);
        } else {
            assert(tail != ".xml"@);
        }
    }
    r
}

} // verus!
