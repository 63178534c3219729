//! The decisions of the merge driver: which inputs the semantic merge can be
//! trusted with, what to do with its outcome, and which exit status a merge
//! ends with. Reading the files, running git and writing the result are the
//! program's part; what it does in between is decided here.
use vstd::prelude::*;

use crate::check::{check, check_prefix, findings_msgs, issue_views, CheckIssue, Severity};
use crate::doc::{accepts, doc_items, parse_document, parses_to, Document};
use crate::error::ParseError;
use crate::merge::MergeOutcome;
use crate::nodepath::doc_findings;

verus! {

/// Why an input is not handed to the semantic merge.
#[derive(Debug)]
pub enum Unmergeable {
    /// It does not parse.
    Parse(ParseError),
    /// It parses, but `check` reports an error on it.
    FailsCheck(Document),
    /// It holds more sections than can be counted.
    TooLarge,
}

/// Whether `check` reports an error on the document `d` of text `src`.
pub open spec fn fails_check(d: Document, src: Seq<char>) -> bool {
    let v = check_prefix(d, src) + findings_msgs(doc_findings(d));
    exists|i: int| 0 <= i < v.len() && v[i].0 == Severity::Error
}

fn any_error(issues: &Vec<CheckIssue>) -> (b: bool)
    ensures
        b == exists|i: int| 0 <= i < issue_views(issues@).len() && issue_views(issues@)[i].0 == Severity::Error,
{
    let ghost v = issue_views(issues@);
    let mut i: usize = 0;
    while i < issues.len()
        invariant
            i <= issues@.len(),
            v == issue_views(issues@),
            forall|k: int| 0 <= k < i ==> v[k].0 != Severity::Error,
        decreases issues@.len() - i,
    {
        if matches!(issues[i].severity, Severity::Error) {
            proof {
                assert(v[i as int].0 == Severity::Error);
            }
            return true;
        }
        i += 1;
    }
    false
}

/// Whether the semantic merge can be trusted with the text `src`: the
/// document it parses to, or why not. A text that does not parse, or whose
/// document `check` finds an error in, is handed to a line merge instead.
pub fn mergeability(src: &str) -> (r: Result<Document, Unmergeable>)
    ensures
        r matches Ok(d) ==> parses_to(src@, d) && !fails_check(d, src@),
        r matches Err(Unmergeable::Parse(_)) <==> !accepts(src@),
        r matches Err(Unmergeable::FailsCheck(d)) ==> parses_to(src@, d) && fails_check(d, src@),
        r matches Err(Unmergeable::TooLarge) ==> accepts(src@) && forall|d: Document|
            parses_to(src@, d) ==> d.sections@.len() == usize::MAX,
{
    match parse_document(src) {
        Err(e) => Err(Unmergeable::Parse(e)),
        Ok(doc) => {
            if doc.sections.len() == usize::MAX {
                proof {
                    assert forall|d: Document| parses_to(src@, d) implies d.sections@.len()
                        == usize::MAX by {
                        assert(doc_items(d.sections@) == doc_items(doc.sections@));
                        assert(doc_items(d.sections@).len() == d.sections@.len());
                        assert(doc_items(doc.sections@).len() == doc.sections@.len());
                    }
                }
                return Err(Unmergeable::TooLarge);
            }
            let report = check(&doc, src);
            if any_error(&report.issues) {
                Err(Unmergeable::FailsCheck(doc))
            } else {
                Ok(doc)
            }
        },
    }
}

/// What the driver does with a merge's outcome.
#[derive(Debug, PartialEq, Eq)]
pub enum DriverStep {
    /// The merge came out clean but its text no longer parses, which would be
    /// worse than a conflict: hand the merge to a line merge instead.
    TextMerge,
    /// Write the merged text and exit with `status`.
    Write { status: u8 },
}

/// The driver's step after a semantic merge: a clean text that parses is
/// written with status 0, a conflicted one with status 1, and a clean text
/// that does not parse is handed to a line merge.
pub fn driver_step(o: &MergeOutcome) -> (r: DriverStep)
    ensures
        (r == DriverStep::TextMerge) <==> (o.conflicts@.len() == 0 && !accepts(o.text@)),
        r matches DriverStep::Write { status } ==> (status == 0 <==> o.conflicts@.len() == 0) && status <= 1,
{
    if o.conflicts.len() > 0 {
        DriverStep::Write { status: 1 }
    } else if parse_document(o.text.as_str()).is_ok() {
        DriverStep::Write { status: 0 }
    } else {
        DriverStep::TextMerge
    }
}

/// The exit status of a merge that a line merge did, from the number of
/// conflicts it left.
pub fn fallback_status(conflicts: usize) -> (s: u8)
    ensures
        (s == 0) <==> (conflicts == 0),
        s <= 1,
{
    if conflicts == 0 {
        0
    } else {
        1
    }
}

} // verus!
