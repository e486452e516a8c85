//! What can go wrong, across the catalogue, the history, the runner and the
//! scaffold generator.

use vstd::prelude::*;
use vstd::string::*;

verus! {

/// A failure, with the name or the detail that it is about.
#[derive(Debug, PartialEq, Eq)]
pub enum MigrationError {
    /// Two units supplied to the catalogue share this name.
    DuplicateName(String),
    /// The catalogue holds no unit of this name.
    NotFound(String),
    /// The history already records this name as applied.
    DuplicateApplication(String),
    /// The history does not record this name as applied.
    NotApplied(String),
    /// The database failed while a unit ran or while its history row was
    /// written; the text is the database's own.
    TransactionFailure(String),
    /// A scaffold file could not be written; the text is the system's own.
    IoError(String),
    /// A unit of this name already exists where the scaffold would go.
    NameCollision(String),
}

/// A failure as contracts speak of it: the variant and the characters of its
/// text.
pub enum ErrorView {
    DuplicateName(Seq<char>),
    NotFound(Seq<char>),
    DuplicateApplication(Seq<char>),
    NotApplied(Seq<char>),
    TransactionFailure(Seq<char>),
    IoError(Seq<char>),
    NameCollision(Seq<char>),
}

impl View for MigrationError {
    type V = ErrorView;

    open spec fn view(&self) -> ErrorView {
        match self {
            MigrationError::DuplicateName(s) => ErrorView::DuplicateName(s@),
            MigrationError::NotFound(s) => ErrorView::NotFound(s@),
            MigrationError::DuplicateApplication(s) => ErrorView::DuplicateApplication(s@),
            MigrationError::NotApplied(s) => ErrorView::NotApplied(s@),
            MigrationError::TransactionFailure(s) => ErrorView::TransactionFailure(s@),
            MigrationError::IoError(s) => ErrorView::IoError(s@),
            MigrationError::NameCollision(s) => ErrorView::NameCollision(s@),
        }
    }
}

impl ErrorView {
    /// The name or detail that the failure carries.
    pub open spec fn subject(self) -> Seq<char> {
        match self {
            ErrorView::DuplicateName(s) => s,
            ErrorView::NotFound(s) => s,
            ErrorView::DuplicateApplication(s) => s,
            ErrorView::NotApplied(s) => s,
            ErrorView::TransactionFailure(s) => s,
            ErrorView::IoError(s) => s,
            ErrorView::NameCollision(s) => s,
        }
    }

    /// The fixed words that open the message of this kind of failure.
    pub open spec fn label(self) -> Seq<char> {
        match self {
            ErrorView::DuplicateName(_) => "duplicate migration name: "@,
            ErrorView::NotFound(_) => "no such migration: "@,
            ErrorView::DuplicateApplication(_) => "migration already applied: "@,
            ErrorView::NotApplied(_) => "migration not applied: "@,
            ErrorView::TransactionFailure(_) => "transaction failed: "@,
            ErrorView::IoError(_) => "i/o error: "@,
            ErrorView::NameCollision(_) => "migration file already exists: "@,
        }
    }

    /// The message shown to an operator: the label, then the subject.
    pub open spec fn message(self) -> Seq<char> {
        self.label() + self.subject()
    }
}

impl MigrationError {
    /// The name or detail that the failure carries.
    pub fn subject(&self) -> (s: &String)
        ensures
            s@ == self@.subject(),
    {
        match self {
            MigrationError::DuplicateName(s) => s,
            MigrationError::NotFound(s) => s,
            MigrationError::DuplicateApplication(s) => s,
            MigrationError::NotApplied(s) => s,
            MigrationError::TransactionFailure(s) => s,
            MigrationError::IoError(s) => s,
            MigrationError::NameCollision(s) => s,
        }
    }

    /// The message shown to an operator.
    pub fn message(&self) -> (text: String)
        ensures
            text@ == self@.message(),
    {
        let label: &str = match self {
            MigrationError::DuplicateName(_) => "duplicate migration name: ",
            MigrationError::NotFound(_) => "no such migration: ",
            MigrationError::DuplicateApplication(_) => "migration already applied: ",
            MigrationError::NotApplied(_) => "migration not applied: ",
            MigrationError::TransactionFailure(_) => "transaction failed: ",
            MigrationError::IoError(_) => "i/o error: ",
            MigrationError::NameCollision(_) => "migration file already exists: ",
        };
        String::from_str(label).concat(self.subject().as_str())
    }

    /// A copy of this failure.
    pub fn duplicate(&self) -> (copy: MigrationError)
        ensures
            copy@ == self@,
    {
        match self {
            MigrationError::DuplicateName(s) => MigrationError::DuplicateName(s.clone()),
            MigrationError::NotFound(s) => MigrationError::NotFound(s.clone()),
            MigrationError::DuplicateApplication(s) => MigrationError::DuplicateApplication(
                s.clone(),
            ),
            MigrationError::NotApplied(s) => MigrationError::NotApplied(s.clone()),
            MigrationError::TransactionFailure(s) => MigrationError::TransactionFailure(s.clone()),
            MigrationError::IoError(s) => MigrationError::IoError(s.clone()),
            MigrationError::NameCollision(s) => MigrationError::NameCollision(s.clone()),
        }
    }
}

} // verus!
