//! The values that the store hands to its callers, and its error type.
use vstd::prelude::*;

verus! {

/// Why an operation of the store was refused.
#[derive(Debug, Clone)]
pub enum StoreError {
    /// An argument breaks a rule of the data folder.
    Invalid(String),
    /// A category, note or file that the call names does not exist.
    NotFound(String),
    /// The call would overwrite something that exists.
    Conflict(String),
    /// Reading or writing a file failed.
    Io(String),
}

/// One line of a day's to-do list.
#[derive(Debug, Clone, PartialEq, Eq)]
pub struct TodoItem {
    pub text: String,
    pub done: bool,
}

/// What the library shows of one file of a category.
#[derive(Debug, Clone, PartialEq, Eq)]
pub struct NoteSummary {
    pub category: String,
    pub title: String,
    pub file_name: String,
    pub extension: String,
    pub kind: String,
}

/// A file of a category together with its text.
#[derive(Debug, Clone, PartialEq, Eq)]
pub struct NoteDoc {
    pub category: String,
    pub title: String,
    pub file_name: String,
    pub extension: String,
    pub kind: String,
    pub body: String,
    pub size_label: String,
}

/// Whether `e` is `Invalid` with the message `m`.
pub open spec fn is_invalid(e: StoreError, m: Seq<char>) -> bool {
    e matches StoreError::Invalid(x) && x@ == m
}

/// Whether `e` is `NotFound` with the message `m`.
pub open spec fn is_not_found(e: StoreError, m: Seq<char>) -> bool {
    e matches StoreError::NotFound(x) && x@ == m
}

/// Whether `e` is `Conflict` with the message `m`.
pub open spec fn is_conflict(e: StoreError, m: Seq<char>) -> bool {
    e matches StoreError::Conflict(x) && x@ == m
}

/// An `Invalid` error with the message `m`.
pub fn invalid(m: &str) -> (e: StoreError)
    ensures
        is_invalid(e, m@),
{
    StoreError::Invalid(m.to_owned())
}

/// A `NotFound` error with the message `m`.
pub fn not_found(m: &str) -> (e: StoreError)
    ensures
        is_not_found(e, m@),
{
    StoreError::NotFound(m.to_owned())
}

/// A `Conflict` error with the message `m`.
pub fn conflict(m: &str) -> (e: StoreError)
    ensures
        is_conflict(e, m@),
{
    StoreError::Conflict(m.to_owned())
}

impl StoreError {
    /// The text that the user is shown for this error.
    pub fn message(&self) -> (r: String)
        ensures
            match self {
                StoreError::Invalid(m) => r@ == m@,
                StoreError::NotFound(m) => r@ == m@,
                StoreError::Conflict(m) => r@ == m@,
                StoreError::Io(m) => r@ == "读写失败："@ + m@,
            },
    {
        match self {
            StoreError::Invalid(m) => m.clone(),
            StoreError::NotFound(m) => m.clone(),
            StoreError::Conflict(m) => m.clone(),
            StoreError::Io(m) => {
                let mut r = "读写失败：".to_owned();
                r.append(m.as_str());
                r
            },
        }
    }
}

/// The view of an error: its kind and message.
pub enum Failure {
    Invalid(Seq<char>),
    NotFound(Seq<char>),
    Conflict(Seq<char>),
    Io(Seq<char>),
}

impl View for StoreError {
    type V = Failure;

    open spec fn view(&self) -> Failure {
        match self {
            StoreError::Invalid(m) => Failure::Invalid(m@),
            StoreError::NotFound(m) => Failure::NotFound(m@),
            StoreError::Conflict(m) => Failure::Conflict(m@),
            StoreError::Io(m) => Failure::Io(m@),
        }
    }
}

/// The view of a note summary.
pub struct SummaryView {
    pub category: Seq<char>,
    pub title: Seq<char>,
    pub file_name: Seq<char>,
    pub extension: Seq<char>,
    pub kind: Seq<char>,
}

impl View for NoteSummary {
    type V = SummaryView;

    open spec fn view(&self) -> SummaryView {
        SummaryView {
            category: self.category@,
            title: self.title@,
            file_name: self.file_name@,
            extension: self.extension@,
            kind: self.kind@,
        }
    }
}

/// The views of a sequence of summaries.
pub open spec fn summary_views(v: Seq<NoteSummary>) -> Seq<SummaryView> {
    v.map_values(|s: NoteSummary| s@)
}

/// The view of a note with its text.
pub struct DocView {
    pub category: Seq<char>,
    pub title: Seq<char>,
    pub file_name: Seq<char>,
    pub extension: Seq<char>,
    pub kind: Seq<char>,
    pub body: Seq<char>,
    pub size_label: Seq<char>,
}

impl View for NoteDoc {
    type V = DocView;

    open spec fn view(&self) -> DocView {
        DocView {
            category: self.category@,
            title: self.title@,
            file_name: self.file_name@,
            extension: self.extension@,
            kind: self.kind@,
            body: self.body@,
            size_label: self.size_label@,
        }
    }
}

/// A copy of `e`.
pub fn copy_error(e: &StoreError) -> (r: StoreError)
    ensures
        r@ == e@,
{
    match e {
        StoreError::Invalid(m) => StoreError::Invalid(m.clone()),
        StoreError::NotFound(m) => StoreError::NotFound(m.clone()),
        StoreError::Conflict(m) => StoreError::Conflict(m.clone()),
        StoreError::Io(m) => StoreError::Io(m.clone()),
    }
}

} // verus!
