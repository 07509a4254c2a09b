//! The error model: one variant per kind of failure a caller can tell apart.
use vstd::prelude::*;

verus! {

/// Every failure the library reports.
///
/// `BadCron`, `UnsupportedSyntax` and `NotAlpha` describe an expression that
/// cannot be used; `BadDate` means that no fire time was found in the search
/// window; `Value` and `Type` are plain argument errors; `Foreign` carries an
/// error raised by host code that a clock called into.
#[derive(Debug, Clone, PartialEq, Eq)]
pub enum CroniterError {
    /// Syntax error, unknown value, or value out of range.
    BadCron(String),
    /// Valid syntax whose results would be inaccurate.
    UnsupportedSyntax(String),
    /// Invalid day or month abbreviation.
    NotAlpha(String),
    /// No next/previous fire time could be found.
    BadDate(String),
    /// The two bounds of a range are of different kinds.
    BadTypeRange(String),
    /// A plain value error (not a cron error).
    Value(String),
    /// A plain type error.
    Type(String),
    /// An error raised by host code, with the name of its class.
    Foreign { class: String, msg: String },
}

/// An error as contracts speak of it: its kind and the text it carries.
pub enum ErrorView {
    BadCron(Seq<char>),
    UnsupportedSyntax(Seq<char>),
    NotAlpha(Seq<char>),
    BadDate(Seq<char>),
    BadTypeRange(Seq<char>),
    Value(Seq<char>),
    Type(Seq<char>),
    Foreign(Seq<char>, Seq<char>),
}

impl View for CroniterError {
    type V = ErrorView;

    open spec fn view(&self) -> ErrorView {
        match self {
            CroniterError::BadCron(m) => ErrorView::BadCron(m@),
            CroniterError::UnsupportedSyntax(m) => ErrorView::UnsupportedSyntax(m@),
            CroniterError::NotAlpha(m) => ErrorView::NotAlpha(m@),
            CroniterError::BadDate(m) => ErrorView::BadDate(m@),
            CroniterError::BadTypeRange(m) => ErrorView::BadTypeRange(m@),
            CroniterError::Value(m) => ErrorView::Value(m@),
            CroniterError::Type(m) => ErrorView::Type(m@),
            CroniterError::Foreign { class, msg } => ErrorView::Foreign(class@, msg@),
        }
    }
}

impl ErrorView {
    /// The text the error displays: what it carries (for `Foreign`, the
    /// message, not the class).
    pub open spec fn message(self) -> Seq<char> {
        match self {
            ErrorView::BadCron(m) => m,
            ErrorView::UnsupportedSyntax(m) => m,
            ErrorView::NotAlpha(m) => m,
            ErrorView::BadDate(m) => m,
            ErrorView::BadTypeRange(m) => m,
            ErrorView::Value(m) => m,
            ErrorView::Type(m) => m,
            ErrorView::Foreign(_, m) => m,
        }
    }
}

impl CroniterError {
    /// The text the error displays.
    pub fn message(&self) -> (r: String)
        ensures
            r@ == self@.message(),
    {
        match self {
            CroniterError::BadCron(m) => m.clone(),
            CroniterError::UnsupportedSyntax(m) => m.clone(),
            CroniterError::NotAlpha(m) => m.clone(),
            CroniterError::BadDate(m) => m.clone(),
            CroniterError::BadTypeRange(m) => m.clone(),
            CroniterError::Value(m) => m.clone(),
            CroniterError::Type(m) => m.clone(),
            CroniterError::Foreign { class: _, msg } => msg.clone(),
        }
    }
}

} // verus!
