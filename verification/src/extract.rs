use vstd::prelude::*;

use crate::text::digits_only;
use crate::text::is_digits_only;
use crate::xml::XmlNode;
use crate::xml::collect_texts;
use crate::xml::first_tagged;
use crate::xml::last_tagged;
use crate::xml::parse_document;
use crate::xml::tagged;
use crate::xml::texts_of;
use crate::xml::xml_parse;

verus! {

/// One successfully extracted record: the selected item code (possibly
/// empty), the caller-supplied source name, and the status text of the most
/// recent history row.
#[derive(Debug)]
pub struct ExtractionResult {
    pub item_code: String,
    pub source_name: String,
    pub status: String,
}

/// Why one document yields no record.
#[derive(Debug)]
pub enum ExtractError {
    /// The text is not well-formed XML; carries the parser's message.
    Parse(String),
    /// The document holds no StatusHistoryRow element.
    MissingStatusHistory,
    /// The last StatusHistoryRow holds no status element with text.
    MissingStatus,
}

impl ExtractError {
    /// A line of text describing the error, for the operator's log.
    pub fn describe(&self) -> (r: String)
        ensures
            match self {
                ExtractError::Parse(m) => r@ == "XML parse error: "@ + m@,
                ExtractError::MissingStatusHistory => r@ == "no StatusHistoryRow element found"@,
                ExtractError::MissingStatus => r@
                    == "no status tag found in the last StatusHistoryRow"@,
            },
    {
        match self {
            ExtractError::Parse(m) => String::from_str("XML parse error: ").concat(m.as_str()),
            ExtractError::MissingStatusHistory => String::from_str(
                "no StatusHistoryRow element found",
            ),
            ExtractError::MissingStatus => String::from_str(
                "no status tag found in the last StatusHistoryRow",
            ),
        }
    }
}

/// The tag of the elements that carry candidate item codes.
pub open spec fn code_tag() -> Seq<char> {
    "itemCode"@
}

/// The tag of the status-history rows.
pub open spec fn row_tag() -> Seq<char> {
    "StatusHistoryRow"@
}

/// The tag of the status elements inside a history row.
pub open spec fn status_tag() -> Seq<char> {
    "status"@
}

/// The candidate item codes of a document: the direct text of every itemCode
/// element that has any, in document order.
pub open spec fn item_codes(root: XmlNode) -> Seq<Seq<char>> {
    texts_of(tagged(root, code_tag()))
}

/// The first candidate that is non-empty and not digits-only.
pub open spec fn first_preferred(cs: Seq<Seq<char>>) -> Option<Seq<char>>
    decreases cs.len(),
{
    if cs.len() == 0 {
        None
    } else if cs[0].len() > 0 && !digits_only(cs[0]) {
        Some(cs[0])
    } else {
        first_preferred(cs.drop_first())
    }
}

/// The first non-empty candidate.
pub open spec fn first_nonempty(cs: Seq<Seq<char>>) -> Option<Seq<char>>
    decreases cs.len(),
{
    if cs.len() == 0 {
        None
    } else if cs[0].len() > 0 {
        Some(cs[0])
    } else {
        first_nonempty(cs.drop_first())
    }
}

/// The selected item code: the first non-empty candidate that is not
/// digits-only; failing that, the first non-empty candidate; failing that,
/// the empty string.
pub open spec fn selected(cs: Seq<Seq<char>>) -> Seq<char> {
    match first_preferred(cs) {
        Some(c) => c,
        None => match first_nonempty(cs) {
            Some(c) => c,
            None => Seq::empty(),
        },
    }
}

/// Whether the document holds any StatusHistoryRow element.
pub open spec fn has_rows(root: XmlNode) -> bool {
    tagged(root, row_tag()).len() > 0
}

/// The last StatusHistoryRow in document order: the most recent one.
pub open spec fn last_row(root: XmlNode) -> XmlNode {
    tagged(root, row_tag()).last()
}

/// The status of one history row: the text of the first status element in
/// the row's subtree, or nothing when no such element has text.
pub open spec fn row_status(row: XmlNode) -> Option<Seq<char>> {
    let sts = tagged(row, status_tag());
    if sts.len() == 0 {
        None
    } else {
        match sts[0].text {
            Some(t) => Some(t@),
            None => None,
        }
    }
}

/// The outcome that extraction owes for one document text.
pub enum Outcome {
    /// A record: the selected item code and the most recent status.
    Record { code: Seq<char>, status: Seq<char> },
    /// The text is not well-formed XML.
    BadXml { message: Seq<char> },
    /// No StatusHistoryRow element exists.
    NoHistory,
    /// The last StatusHistoryRow has no readable status text.
    NoStatus,
}

/// The outcome owed for document text `s`, stepwise: parse, find the last
/// history row, read its status, select the item code.
pub open spec fn extract_outcome(s: Seq<char>) -> Outcome {
    match xml_parse(s) {
        Err(m) => Outcome::BadXml { message: m },
        Ok(root) => if !has_rows(root) {
            Outcome::NoHistory
        } else {
            match row_status(last_row(root)) {
                None => Outcome::NoStatus,
                Some(st) => Outcome::Record { code: selected(item_codes(root)), status: st },
            }
        },
    }
}

/// The error `e` agrees with outcome `o`: the matching failure, message
/// included.
pub open spec fn error_agrees(e: ExtractError, o: Outcome) -> bool {
    match e {
        ExtractError::Parse(m) => o == (Outcome::BadXml { message: m@ }),
        ExtractError::MissingStatusHistory => o == Outcome::NoHistory,
        ExtractError::MissingStatus => o == Outcome::NoStatus,
    }
}

/// The executable result `r` agrees with outcome `o` and source name `name`.
pub open spec fn result_agrees(
    r: Result<ExtractionResult, ExtractError>,
    o: Outcome,
    name: Seq<char>,
) -> bool {
    match r {
        Ok(rec) => o == (Outcome::Record { code: rec.item_code@, status: rec.status@ })
            && rec.source_name@ == name,
        Err(e) => error_agrees(e, o),
    }
}

/// Selects the item code from the candidate list.
pub fn select_code(codes: &Vec<String>) -> (r: String)
    ensures
        r@ == selected(codes.deep_view()),
{
    let ghost cs = codes.deep_view();
    proof {
        assert(cs.skip(0) =~= cs);
    }
    let mut i: usize = 0;
    while i < codes.len()
        invariant
            i <= codes.len(),
            cs == codes.deep_view(),
            first_preferred(cs) == first_preferred(cs.skip(i as int)),
        decreases codes.len() - i,
    {
        let c = &codes[i];
        proof {
            assert(cs[i as int] == c@);
            assert(cs.skip(i as int)[0] == cs[i as int]);
        }
        if c.as_str().unicode_len() > 0 && !is_digits_only(c.as_str()) {
            return c.clone();
        }
        proof {
            assert(cs.skip(i as int).drop_first() =~= cs.skip(i as int + 1));
        }
        i += 1;
    }
    proof {
        assert(cs.skip(codes.len() as int) =~= Seq::<Seq<char>>::empty());
        assert(first_preferred(cs) is None);
        assert(cs.skip(0) =~= cs);
    }
    let mut j: usize = 0;
    while j < codes.len()
        invariant
            j <= codes.len(),
            cs == codes.deep_view(),
            first_preferred(cs) is None,
            first_nonempty(cs) == first_nonempty(cs.skip(j as int)),
        decreases codes.len() - j,
    {
        let c = &codes[j];
        proof {
            assert(cs[j as int] == c@);
            assert(cs.skip(j as int)[0] == cs[j as int]);
        }
        if c.as_str().unicode_len() > 0 {
            return c.clone();
        }
        proof {
            assert(cs.skip(j as int).drop_first() =~= cs.skip(j as int + 1));
        }
        j += 1;
    }
    proof {
        assert(cs.skip(codes.len() as int) =~= Seq::<Seq<char>>::empty());
        assert(first_nonempty(cs) is None);
    }
    String::new()
}

/// Applies the extraction rules to one document text: parse it as XML, take
/// the last StatusHistoryRow in document order, read the text of the first
/// status element in its subtree, and select the item code from the itemCode
/// elements' texts. `source_name` is carried through unread.
pub fn extract(document_text: &str, source_name: &str) -> (r: Result<
    ExtractionResult,
    ExtractError,
>)
    ensures
        result_agrees(r, extract_outcome(document_text@), source_name@),
{
    let root = match parse_document(document_text) {
        Ok(root) => root,
        Err(m) => {
            return Err(ExtractError::Parse(m));
        },
    };
    let row_t = String::from_str("StatusHistoryRow");
    let last = match last_tagged(&root, &row_t) {
        Some(m) => m,
        None => {
            return Err(ExtractError::MissingStatusHistory);
        },
    };
    let status_t = String::from_str("status");
    let st_node = match first_tagged(last, &status_t) {
        Some(m) => m,
        None => {
            return Err(ExtractError::MissingStatus);
        },
    };
    let status = match &st_node.text {
        Some(s) => s.clone(),
        None => {
            return Err(ExtractError::MissingStatus);
        },
    };
    let code_t = String::from_str("itemCode");
    let mut codes: Vec<String> = Vec::new();
    collect_texts(&root, &code_t, &mut codes);
    proof {
        assert(codes.deep_view() =~= item_codes(root));
    }
    let code = select_code(&codes);
    Ok(
        ExtractionResult {
            item_code: code,
            source_name: String::from_str(source_name),
            status,
        },
    )
}

/// Extraction is deterministic: equal document texts owe equal outcomes.
pub proof fn lemma_extract_deterministic(s1: Seq<char>, s2: Seq<char>)
    requires
        s1 == s2,
    ensures
        extract_outcome(s1) == extract_outcome(s2),
{
}

/// A well-formed document with at least one StatusHistoryRow whose status is
/// readable yields a record, and the status is the text of the first status
/// element inside the last such row in document order.
pub proof fn lemma_status_from_last_row(s: Seq<char>, root: XmlNode, st: Seq<char>)
    requires
        xml_parse(s) == Ok::<XmlNode, Seq<char>>(root),
        has_rows(root),
        row_status(last_row(root)) == Some(st),
    ensures
        extract_outcome(s) == (Outcome::Record {
            code: selected(item_codes(root)),
            status: st,
        }),
{
}

/// A well-formed document with no StatusHistoryRow element yields the
/// missing-history outcome.
pub proof fn lemma_missing_history(s: Seq<char>, root: XmlNode)
    requires
        xml_parse(s) == Ok::<XmlNode, Seq<char>>(root),
        !has_rows(root),
    ensures
        extract_outcome(s) == Outcome::NoHistory,
{
}

/// A document with no itemCode element at all selects the empty item code,
/// and still yields a record when a status is reachable.
pub proof fn lemma_no_codes_still_succeeds(s: Seq<char>, root: XmlNode, st: Seq<char>)
    requires
        xml_parse(s) == Ok::<XmlNode, Seq<char>>(root),
        tagged(root, code_tag()).len() == 0,
        has_rows(root),
        row_status(last_row(root)) == Some(st),
    ensures
        extract_outcome(s) == (Outcome::Record { code: Seq::<char>::empty(), status: st }),
{
    assert(item_codes(root) =~= Seq::<Seq<char>>::empty());
    assert(first_preferred(Seq::<Seq<char>>::empty()) is None);
    assert(first_nonempty(Seq::<Seq<char>>::empty()) is None);
}

} // verus!
