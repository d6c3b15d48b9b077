//! The error type of the library.

use vstd::prelude::*;

verus! {

/// How a failure is classed.
#[derive(Clone, Copy, Debug, PartialEq, Eq, Structural)]
pub enum ErrorKind {
    /// Data that was read does not make sense.
    DataInvalid,
    /// Anything that should not have come up.
    Unexpected,
}

/// `std::num::ParseIntError`, carried as the cause of a failure.
#[verifier::external_type_specification]
#[verifier::external_body]
pub struct ExParseIntError(std::num::ParseIntError);

/// `arrow_schema::ArrowError`, carried as the cause of a failure.
#[verifier::external_type_specification]
#[verifier::external_body]
pub struct ExArrowError(arrow_schema::ArrowError);

/// The failure underneath an `Error`.
#[derive(Debug)]
pub enum Source {
    ParseInt(std::num::ParseIntError),
    Arrow(arrow_schema::ArrowError),
}

/// Which sort of failure lies underneath an `Error`.
pub enum SourceKind {
    ParseInt,
    Arrow,
}

impl Source {
    /// The sort of this cause.
    pub open spec fn sort(self) -> SourceKind {
        match self {
            Source::ParseInt(_) => SourceKind::ParseInt,
            Source::Arrow(_) => SourceKind::Arrow,
        }
    }
}

/// A failure: its kind, what went wrong, and what it was about.
#[derive(Debug)]
pub struct Error {
    pub kind: ErrorKind,
    pub message: String,
    pub context: Vec<(String, String)>,
    pub source: Option<Source>,
}

/// The mathematical content of an `Error`.
#[verifier::ext_equal]
pub struct ErrorView {
    pub kind: ErrorKind,
    pub message: Seq<char>,
    pub context: Seq<(Seq<char>, Seq<char>)>,
    pub source: Option<SourceKind>,
}

impl View for Error {
    type V = ErrorView;

    open spec fn view(&self) -> ErrorView {
        ErrorView {
            kind: self.kind,
            message: self.message@,
            context: self.context@.map_values(|entry: (String, String)| (entry.0@, entry.1@)),
            source: match self.source {
                Some(source) => Some(source.sort()),
                None => None,
            },
        }
    }
}

impl ErrorView {
    /// An error with neither context nor cause.
    pub open spec fn plain(kind: ErrorKind, message: Seq<char>) -> ErrorView {
        ErrorView { kind, message, context: Seq::empty(), source: None }
    }

    /// The same error with one more context entry.
    pub open spec fn with_context(self, key: Seq<char>, value: Seq<char>) -> ErrorView {
        ErrorView { context: self.context.push((key, value)), ..self }
    }

    /// The same error with a cause.
    pub open spec fn with_source(self, source: SourceKind) -> ErrorView {
        ErrorView { source: Some(source), ..self }
    }
}

/// The word an error kind is shown as.
pub open spec fn kind_text(kind: ErrorKind) -> Seq<char> {
    match kind {
        ErrorKind::DataInvalid => "DataInvalid"@,
        ErrorKind::Unexpected => "Unexpected"@,
    }
}

/// Context entries as `key: value`, parted by commas.
pub open spec fn context_text(context: Seq<(Seq<char>, Seq<char>)>) -> Seq<char>
    decreases context.len(),
{
    if context.len() == 0 {
        Seq::empty()
    } else {
        let before = context_text(context.drop_last());
        let separator = if context.len() == 1 {
            Seq::empty()
        } else {
            ", "@
        };
        before + separator + context.last().0 + ": "@ + context.last().1
    }
}

/// An error shown as one line: its kind, its context if there is any, and its
/// message if there is one.
pub open spec fn error_text(error: ErrorView) -> Seq<char> {
    let head = kind_text(error.kind);
    let middle = if error.context.len() == 0 {
        head
    } else {
        head + ", context: { "@ + context_text(error.context) + " }"@
    };
    if error.message.len() == 0 {
        middle
    } else {
        middle + " => "@ + error.message
    }
}

impl Error {
    /// An error with neither context nor cause.
    pub fn new(kind: ErrorKind, message: &str) -> (error: Error)
        ensures
            error@ == ErrorView::plain(kind, message@),
            error.kind == kind,
            error.message@ == message@,
            error.context@.len() == 0,
            error.source is None,
    {
        let error = Error { kind, message: message.to_owned(), context: Vec::new(), source: None };
        assert(error@.context =~= Seq::empty());
        error
    }

    /// Adds a context entry behind those that are there.
    pub fn with_context(self, key: &str, value: &str) -> (error: Error)
        ensures
            error@ == self@.with_context(key@, value@),
            error.kind == self.kind,
            error.message == self.message,
            error.context@.len() == self.context@.len() + 1,
            error.context@.drop_last() == self.context@,
            error.context@.last().0@ == key@,
            error.context@.last().1@ == value@,
            error.source == self.source,
    {
        let mut context = self.context;
        context.push((key.to_owned(), value.to_owned()));
        let error = Error { kind: self.kind, message: self.message, context, source: self.source };
        proof {
            assert(error@.context =~= self@.context.push((key@, value@)));
            assert(error.context@.drop_last() =~= self.context@);
        }
        error
    }

    /// Sets the cause.
    pub fn with_source(self, source: Source) -> (error: Error)
        ensures
            error@ == self@.with_source(source.sort()),
            error.kind == self.kind,
            error.message == self.message,
            error.context == self.context,
            error.source == Some(source),
    {
        let error = Error {
            kind: self.kind,
            message: self.message,
            context: self.context,
            source: Some(source),
        };
        assert(error@.context =~= self@.context);
        error
    }

    /// How the failure is classed.
    pub fn kind(&self) -> (kind: ErrorKind)
        ensures
            kind == self@.kind,
            kind == self.kind,
    {
        self.kind
    }

    /// What went wrong.
    pub fn message(&self) -> (message: &str)
        ensures
            message@ == self@.message,
            message@ == self.message@,
    {
        self.message.as_str()
    }

    /// The error as one line of text; the cause is left out.
    pub fn to_string(&self) -> (text: String)
        ensures
            text@ == error_text(self@),
    {
        let mut text: String = match self.kind {
            ErrorKind::DataInvalid => "DataInvalid".to_owned(),
            ErrorKind::Unexpected => "Unexpected".to_owned(),
        };
        if self.context.len() > 0 {
            text.append(", context: { ");
            let ghost head = text@;
            let mut i: usize = 0;
            while i < self.context.len()
                invariant
                    i <= self.context.len(),
                    text@ == head + context_text(self@.context.take(i as int)),
                decreases self.context.len() - i,
            {
                let ghost before = text@;
                if i > 0 {
                    text.append(", ");
                }
                text.append(self.context[i].0.as_str());
                text.append(": ");
                text.append(self.context[i].1.as_str());
                proof {
                    let shown = self@.context.take(i + 1);
                    assert(shown.drop_last() =~= self@.context.take(i as int));
                    assert(shown.last() == (
                        self.context@[i as int].0@,
                        self.context@[i as int].1@,
                    ));
                    assert(text@ =~= head + context_text(shown));
                }
                i = i + 1;
            }
            assert(self@.context.take(i as int) =~= self@.context);
            text.append(" }");
            assert(text@ =~= kind_text(self.kind) + ", context: { "@ + context_text(self@.context)
                + " }"@);
        }
        if self.message.as_str().is_empty() {
        } else {
            text.append(" => ");
            text.append(self.message.as_str());
        }
        text
    }
}

} // verus!
