//! Engine errors and compile diagnostics.
//!
//! A [`Diagnostic`] has the shape `{severity, file, line, col, message}` of
//! the JSON diagnostics contract.
use vstd::prelude::*;
use crate::deck::{Deck, DeckError, deck_error_text, first_violation};
use crate::text::{dec_chars, push_dec_chars};

verus! {

/// Severity of a diagnostic.
#[derive(Debug, Clone, Copy, PartialEq, Eq, Structural)]
pub enum Severity {
    /// An error that fails the compilation.
    Error,
    /// A warning; compilation goes on.
    Warning,
}

/// One diagnostic with its source position (1-based line and column).
///
/// A diagnostic whose span cannot be resolved has an empty `file` and
/// `line` and `col` zero.
#[derive(Debug, Clone, PartialEq, Eq)]
pub struct Diagnostic {
    /// Error or warning.
    pub severity: Severity,
    /// The file the diagnostic points at, relative to the project root;
    /// empty when unresolved.
    pub file: String,
    /// 1-based line; 0 when unresolved.
    pub line: u32,
    /// 1-based column (in characters); 0 when unresolved.
    pub col: u32,
    /// The message.
    pub message: String,
}

/// A failure of the engine: compilation, rendering, file I/O or package
/// resolution.
#[derive(Debug, Clone, PartialEq, Eq)]
pub enum EngineError {
    /// Compilation failed with these diagnostics.
    Compile(Vec<Diagnostic>),
    /// Rendering failed (frame out of range, rasterisation failure).
    Render(String),
    /// File I/O failed (the root file cannot be read, ...).
    Io(String),
    /// Package resolution or download failed.
    Package(String),
    /// The document carries no `<pdfpc-file>` metadata (it does not use
    /// Touying); there is no silent fallback.
    PdfpcMissing,
    /// The `<pdfpc-file>` metadata does not follow the schema, for this
    /// reason.
    PdfpcSchema(String),
}

/// The lines listing `ds`, each `"\n  file:line:col: message"`.
pub open spec fn diagnostic_lines(ds: Seq<Diagnostic>) -> Seq<char>
    decreases ds.len(),
{
    if ds.len() == 0 {
        Seq::empty()
    } else {
        let d = ds.last();
        diagnostic_lines(ds.drop_last()) + "\n  "@ + d.file@ + ":"@ + dec_chars(d.line as nat) + ":"@
            + dec_chars(d.col as nat) + ": "@ + d.message@
    }
}

/// The text of an engine error.
pub open spec fn engine_error_text(e: EngineError) -> Seq<char> {
    match e {
        EngineError::Compile(ds) => "compilation failed with "@ + dec_chars(ds@.len()) + " diagnostic(s)"@
            + diagnostic_lines(ds@),
        EngineError::Render(m) => "render error: "@ + m@,
        EngineError::Io(m) => "io error: "@ + m@,
        EngineError::Package(m) => "package error: "@ + m@,
        EngineError::PdfpcMissing => "pdfpc metadata missing: the deck must be built with Touying"@,
        EngineError::PdfpcSchema(m) => "pdfpc schema error: "@ + m@,
    }
}

impl EngineError {
    /// A text that says what failed; for a compile error, the number of
    /// diagnostics and one line per diagnostic.
    pub fn message(&self) -> (s: String)
        ensures
            s@ == engine_error_text(*self),
    {
        match self {
            EngineError::Compile(ds) => {
                let mut s = String::from_str("compilation failed with ");
                push_dec_chars(&mut s, ds.len() as u64);
                s.append(" diagnostic(s)");
                let ghost head = s@;
                let mut i: usize = 0;
                proof {
                    assert(ds@.take(0) =~= Seq::<Diagnostic>::empty());
                }
                while i < ds.len()
                    invariant
                        i <= ds@.len(),
                        s@ == head + diagnostic_lines(ds@.take(i as int)),
                    decreases ds@.len() - i,
                {
                    let d = &ds[i];
                    s.append("\n  ");
                    s.append(d.file.as_str());
                    s.append(":");
                    push_dec_chars(&mut s, d.line as u64);
                    s.append(":");
                    push_dec_chars(&mut s, d.col as u64);
                    s.append(": ");
                    s.append(d.message.as_str());
                    proof {
                        assert(ds@.take(i + 1).drop_last() =~= ds@.take(i as int));
                        assert(ds@.take(i + 1).last() == *d);
                        assert(s@ =~= head + diagnostic_lines(ds@.take(i + 1)));
                    }
                    i = i + 1;
                }
                proof {
                    assert(ds@.take(ds@.len() as int) =~= ds@);
                }
                s
            },
            EngineError::Render(m) => {
                let mut s = String::from_str("render error: ");
                s.append(m.as_str());
                s
            },
            EngineError::Io(m) => {
                let mut s = String::from_str("io error: ");
                s.append(m.as_str());
                s
            },
            EngineError::Package(m) => {
                let mut s = String::from_str("package error: ");
                s.append(m.as_str());
                s
            },
            EngineError::PdfpcMissing => String::from_str("pdfpc metadata missing: the deck must be built with Touying"),
            EngineError::PdfpcSchema(m) => {
                let mut s = String::from_str("pdfpc schema error: ");
                s.append(m.as_str());
                s
            },
        }
    }
}

/// Checks a freshly built deck: a broken invariant becomes
/// [`EngineError::Render`] with the text `deck invariant violated: <why>`.
pub fn validated(deck: Deck) -> (r: Result<Deck, EngineError>)
    requires
        deck.addressable(),
    ensures
        match first_violation(deck.slides@) {
            Ok(()) => r == Ok::<Deck, EngineError>(deck),
            Err(e) => r matches Err(EngineError::Render(m)) && m@ == "deck invariant violated: "@
                + deck_error_text(e),
        },
{
    match deck.validate() {
        Ok(()) => Ok(deck),
        Err(e) => {
            let mut m = String::from_str("deck invariant violated: ");
            let why = e.message();
            m.append(why.as_str());
            Err(EngineError::Render(m))
        },
    }
}

} // verus!
