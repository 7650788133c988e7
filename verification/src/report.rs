//! Findings: what is wrong with a text, and where.

use vstd::prelude::*;
use crate::position::{Location, Position};
use crate::report_kind::ReportKind;

verus! {

/// One finding of the scanner: what is wrong, where, and the text of the
/// line on which it was found.
#[derive(Debug)]
pub struct Report {
    kind: ReportKind,
    msg: &'static str,
    pos: Option<Position>,
    line: String,
}

/// What a [`Report`] says, as mathematical values.
pub struct ReportView {
    pub kind: ReportKind,
    pub pos: Option<Location>,
    pub line: Seq<char>,
}

/// The view of an optional place.
pub open spec fn place_view(pos: Option<Position>) -> Option<Location> {
    match pos {
        Some(p) => Some(p@),
        None => None,
    }
}

impl View for Report {
    type V = ReportView;

    closed spec fn view(&self) -> ReportView {
        ReportView { kind: self.kind, pos: place_view(self.pos), line: self.line@ }
    }
}

impl Report {
    #[verifier::type_invariant]
    spec fn message_fits_kind(self) -> bool {
        self.msg@ == self.kind.message()
    }

    /// A finding of the given kind at the given place, if it has one, on the
    /// line with the given text.
    pub fn new(kind: ReportKind, pos: Option<Position>, line: String) -> (r: Self)
        ensures
            r@ == (ReportView { kind, pos: place_view(pos), line: line@ }),
    {
        let msg = kind.msg();
        Report { kind, msg, pos, line }
    }

    /// What is wrong.
    pub fn get_kind(&self) -> (k: ReportKind)
        ensures
            k == self@.kind,
    {
        self.kind
    }

    /// The message of the finding's kind.
    pub fn get_msg(&self) -> (m: &'static str)
        ensures
            m@ == self@.kind.message(),
    {
        proof {
            use_type_invariant(self);
        }
        self.msg
    }

    /// Where the finding is, if it has a place.
    pub fn get_pos(&self) -> (p: Option<Position>)
        ensures
            place_view(p) == self@.pos,
    {
        self.pos
    }

    /// The text of the line on which the finding is.
    pub fn get_line(&self) -> (l: &str)
        ensures
            l@ == self@.line,
    {
        self.line.as_str()
    }
}

} // verus!
