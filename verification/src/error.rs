use vstd::prelude::*;

verus! {

/// Why a piece of a dictionary could not be read or written.
#[derive(Debug)]
pub enum DicWriteReason {
    /// A CSV record lacks the named field.
    NoRawField(&'static str),
    /// An escape `\uXXXX` or `\u{...}` does not name a character.
    InvalidCharLiteral(String),
    /// A field that must hold an `i16` does not.
    InvalidI16Literal(String),
    /// A field that must hold a `u32` does not.
    InvalidU32Literal(String),
    /// A word reference is malformed or out of range.
    InvalidWordId(String),
    /// A splitting mode is unknown, or splits are given where none may be.
    InvalidSplit(String),
    /// An inline split unit lacks the named part.
    SplitFormatError { field: &'static str, original: String },
    /// The surface of an entry is empty.
    EmptySurface,
    /// The part-of-speech table is full.
    PosLimitExceeded(String),
    /// A string or a list is longer than the format allows.
    InvalidSize { actual: usize, expected: usize },
    /// The CSV input could not be read.
    CsvError(csv::Error),
}

/// The mathematical value of a [`DicWriteReason`].
pub enum ReasonModel {
    NoRawField(Seq<char>),
    InvalidCharLiteral(Seq<char>),
    InvalidI16Literal(Seq<char>),
    InvalidU32Literal(Seq<char>),
    InvalidWordId(Seq<char>),
    InvalidSplit(Seq<char>),
    SplitFormatError { field: Seq<char>, original: Seq<char> },
    EmptySurface,
    PosLimitExceeded(Seq<char>),
    InvalidSize { actual: nat, expected: nat },
    CsvError,
}

impl View for DicWriteReason {
    type V = ReasonModel;

    open spec fn view(&self) -> ReasonModel {
        match self {
            DicWriteReason::NoRawField(n) => ReasonModel::NoRawField(n@),
            DicWriteReason::InvalidCharLiteral(s) => ReasonModel::InvalidCharLiteral(s@),
            DicWriteReason::InvalidI16Literal(s) => ReasonModel::InvalidI16Literal(s@),
            DicWriteReason::InvalidU32Literal(s) => ReasonModel::InvalidU32Literal(s@),
            DicWriteReason::InvalidWordId(s) => ReasonModel::InvalidWordId(s@),
            DicWriteReason::InvalidSplit(s) => ReasonModel::InvalidSplit(s@),
            DicWriteReason::SplitFormatError { field, original } => ReasonModel::SplitFormatError {
                field: field@,
                original: original@,
            },
            DicWriteReason::EmptySurface => ReasonModel::EmptySurface,
            DicWriteReason::PosLimitExceeded(s) => ReasonModel::PosLimitExceeded(s@),
            DicWriteReason::InvalidSize { actual, expected } => ReasonModel::InvalidSize {
                actual: *actual as nat,
                expected: *expected as nat,
            },
            DicWriteReason::CsvError(_) => ReasonModel::CsvError,
        }
    }
}

pub type DicWriteResult<T> = Result<T, DicWriteReason>;

/// A result whose error is taken by its view.
pub open spec fn result_view<T>(r: DicWriteResult<T>) -> Result<T, ReasonModel> {
    match r {
        Ok(v) => Ok(v),
        Err(e) => Err(e@),
    }
}

/// A result of a string, with both sides taken by their views.
pub open spec fn string_result_view(r: DicWriteResult<String>) -> Result<Seq<char>, ReasonModel> {
    match r {
        Ok(v) => Ok(v@),
        Err(e) => Err(e@),
    }
}

/// A failure while building a dictionary, with the input it arose in.
#[derive(Debug)]
pub struct DicBuildError {
    /// Name of the input (a file name, or a label such as `<pos-table>`).
    pub file: String,
    /// Line of the input, as far as it is known.
    pub line: usize,
    /// What went wrong.
    pub cause: DicWriteReason,
}

pub type SudachiResult<T> = Result<T, DicBuildError>;

/// Where in the input the builder currently is: attached to every error.
#[derive(Debug)]
pub struct DicCompilationCtx {
    pub name: String,
    pub line: usize,
}

impl DicCompilationCtx {
    /// A context with an empty name at line 0.
    pub fn new() -> (res: DicCompilationCtx)
        ensures
            res.name@ == Seq::<char>::empty(),
            res.line == 0,
    {
        DicCompilationCtx { name: String::new(), line: 0 }
    }

    /// Replaces the input name and returns the previous one.
    pub fn set_filename(&mut self, name: String) -> (prev: String)
        ensures
            prev@ == old(self).name@,
            final(self).name@ == name@,
            final(self).line == old(self).line,
    {
        let mut name = name;
        std::mem::swap(&mut self.name, &mut name);
        name
    }

    /// Replaces the line and returns the previous one.
    pub fn set_line(&mut self, line: usize) -> (prev: usize)
        ensures
            prev == old(self).line,
            final(self).line == line,
            final(self).name@ == old(self).name@,
    {
        let prev = self.line;
        self.line = line;
        prev
    }

    /// Moves the line forward by `offset`.
    pub fn add_line(&mut self, offset: usize)
        requires
            old(self).line + offset <= usize::MAX,
        ensures
            final(self).line == old(self).line + offset,
            final(self).name@ == old(self).name@,
    {
        self.line = self.line + offset;
    }

    /// The error `reason`, placed at the current name and line.
    pub fn to_sudachi_err(&self, reason: DicWriteReason) -> (err: DicBuildError)
        ensures
            err.file@ == self.name@,
            err.line == self.line,
            err.cause@ == reason@,
    {
        DicBuildError { file: self.name.clone(), line: self.line, cause: reason }
    }

    /// Places the error of `result`, if any, at the current name and line.
    pub fn transform<T>(&self, result: DicWriteResult<T>) -> (res: SudachiResult<T>)
        ensures
            match (result, res) {
                (Ok(a), Ok(b)) => a == b,
                (Err(r), Err(e)) => e.file@ == self.name@ && e.line == self.line && e.cause@ == r@,
                _ => false,
            },
    {
        match result {
            Ok(v) => Ok(v),
            Err(reason) => Err(self.to_sudachi_err(reason)),
        }
    }
}

} // verus!
