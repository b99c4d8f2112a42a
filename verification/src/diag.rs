//! Compile diagnostics as line-delimited JSON.
//!
//! Each diagnostic is one line: the JSON object
//! `{severity, file, line, col, message}` as serde_json writes it, with
//! `severity` the lower-case `"error"` or `"warning"`.
use vstd::prelude::*;
use vstd::utf8::encode_utf8;
use crate::diagnostic::{Diagnostic, EngineError, Severity};
use crate::encode::push_bytes;

verus! {

/// A value of a JSON object member written by this library.
#[derive(Debug)]
pub enum JsonField {
    /// A string.
    Text(String),
    /// An unsigned integer.
    Number(u64),
}

/// The view of a member value.
pub enum FieldView {
    /// A string.
    Text(Seq<char>),
    /// An unsigned integer.
    Number(u64),
}

/// The views of the members, in order.
pub open spec fn fields_view(fields: Seq<(String, JsonField)>) -> Seq<(Seq<char>, FieldView)> {
    fields.map_values(
        |f: (String, JsonField)|
            (
                f.0@,
                match f.1 {
                    JsonField::Text(t) => FieldView::Text(t@),
                    JsonField::Number(n) => FieldView::Number(n),
                },
            ),
    )
}

/// The text that serde_json writes (`serde_json::Value::to_string`) for the
/// object built by inserting the members `fields` in order into a
/// `serde_json::Map`.
pub uninterp spec fn json_object_text(fields: Seq<(Seq<char>, FieldView)>) -> Seq<char>;

/// Wraps serde_json: inserts the members into a `serde_json::Map`, each
/// value as `serde_json::Value::from`, and writes the object with
/// `Value::to_string`.
#[verifier::external_body]
fn json_object(fields: Vec<(String, JsonField)>) -> (r: String)
    ensures
        r@ == json_object_text(fields_view(fields@)),
{
    let mut m = serde_json::Map::new();
    for (k, v) in fields {
        m.insert(k, match v {
            JsonField::Text(t) => serde_json::Value::from(t),
            JsonField::Number(n) => serde_json::Value::from(n),
        });
    }
    serde_json::Value::Object(m).to_string()
}

/// The members of a diagnostic line, in this order: `severity`, `file`,
/// `line`, `col`, `message`.
pub open spec fn diagnostic_fields(severity: Seq<char>, file: Seq<char>, line: u32, col: u32, message: Seq<char>) -> Seq<
    (Seq<char>, FieldView),
> {
    seq![
        ("severity"@, FieldView::Text(severity)),
        ("file"@, FieldView::Text(file)),
        ("line"@, FieldView::Number(line as u64)),
        ("col"@, FieldView::Number(col as u64)),
        ("message"@, FieldView::Text(message)),
    ]
}

/// The JSON object of one diagnostic line.
pub open spec fn json_diagnostic_object(severity: Seq<char>, file: Seq<char>, line: u32, col: u32, message: Seq<char>) -> Seq<
    char,
> {
    json_object_text(diagnostic_fields(severity, file, line, col, message))
}

fn diagnostic_object(severity: &str, file: &str, line: u32, col: u32, message: &str) -> (r: String)
    ensures
        r@ == json_diagnostic_object(severity@, file@, line, col, message@),
{
    let mut fields: Vec<(String, JsonField)> = Vec::new();
    fields.push((String::from_str("severity"), JsonField::Text(String::from_str(severity))));
    fields.push((String::from_str("file"), JsonField::Text(String::from_str(file))));
    fields.push((String::from_str("line"), JsonField::Number(line as u64)));
    fields.push((String::from_str("col"), JsonField::Number(col as u64)));
    fields.push((String::from_str("message"), JsonField::Text(String::from_str(message))));
    proof {
        assert(fields_view(fields@) =~= diagnostic_fields(severity@, file@, line, col, message@));
    }
    json_object(fields)
}

/// The lower-case name of a severity.
pub open spec fn severity_name(s: Severity) -> Seq<char> {
    match s {
        Severity::Error => "error"@,
        Severity::Warning => "warning"@,
    }
}

/// The line of a diagnostic, without its newline.
pub open spec fn diagnostic_json(d: Diagnostic) -> Seq<char> {
    json_diagnostic_object(severity_name(d.severity), d.file@, d.line, d.col, d.message@)
}

/// The bytes of the diagnostics, one line each.
pub open spec fn diagnostics_out(ds: Seq<Diagnostic>) -> Seq<u8>
    decreases ds.len(),
{
    if ds.len() == 0 {
        Seq::empty()
    } else {
        diagnostics_out(ds.drop_last()) + encode_utf8(diagnostic_json(ds.last())) + seq![10u8]
    }
}

fn severity_str(s: Severity) -> (r: &'static str)
    ensures
        r@ == severity_name(s),
{
    match s {
        Severity::Error => "error",
        Severity::Warning => "warning",
    }
}

fn push_line(sink: &mut Vec<u8>, text: &String)
    ensures
        final(sink)@ == old(sink)@ + encode_utf8(text@) + seq![10u8],
{
    let ghost before = sink@;
    push_bytes(sink, text.as_str().as_bytes());
    push_bytes(sink, &[10u8]);
    proof {
        assert(sink@ =~= before + encode_utf8(text@) + seq![10u8]);
    }
}

/// Writes the diagnostics, one JSON line each.
pub fn write_diagnostics(sink: &mut Vec<u8>, diags: &[Diagnostic])
    ensures
        final(sink)@ == old(sink)@ + diagnostics_out(diags@),
{
    let ghost before = sink@;
    let mut i: usize = 0;
    proof {
        assert(diags@.take(0) =~= Seq::<Diagnostic>::empty());
        assert(sink@ =~= before + diagnostics_out(diags@.take(0)));
    }
    while i < diags.len()
        invariant
            i <= diags@.len(),
            sink@ == before + diagnostics_out(diags@.take(i as int)),
        decreases diags@.len() - i,
    {
        let d = &diags[i];
        let text = diagnostic_object(severity_str(d.severity), d.file.as_str(), d.line, d.col, d.message.as_str());
        push_line(sink, &text);
        proof {
            assert(diags@.take(i + 1).drop_last() =~= diags@.take(i as int));
            assert(diags@.take(i + 1).last() == *d);
            assert(sink@ =~= before + diagnostics_out(diags@.take(i + 1)));
        }
        i = i + 1;
    }
    proof {
        assert(diags@.take(diags@.len() as int) =~= diags@);
    }
}

/// The bytes written for an engine error: the diagnostics of a compile
/// error; otherwise one error line without position (empty file, line and
/// column 0) whose message is `<kind>: <text>`, the kind being `render`,
/// `io`, `package` or `pdfpc`.
pub open spec fn engine_error_out(err: EngineError) -> Seq<u8> {
    match err {
        EngineError::Compile(ds) => diagnostics_out(ds@),
        EngineError::Render(m) => encode_utf8(json_diagnostic_object("error"@, ""@, 0, 0, "render: "@ + m@)) + seq![10u8],
        EngineError::Io(m) => encode_utf8(json_diagnostic_object("error"@, ""@, 0, 0, "io: "@ + m@)) + seq![10u8],
        EngineError::Package(m) => encode_utf8(json_diagnostic_object("error"@, ""@, 0, 0, "package: "@ + m@))
            + seq![10u8],
        EngineError::PdfpcMissing => encode_utf8(json_diagnostic_object("error"@, ""@, 0, 0, "pdfpc: "@ + "metadata missing"@))
            + seq![10u8],
        EngineError::PdfpcSchema(m) => encode_utf8(json_diagnostic_object("error"@, ""@, 0, 0, "pdfpc: "@ + m@))
            + seq![10u8],
    }
}

fn write_message(sink: &mut Vec<u8>, prefix: &str, msg: &str)
    ensures
        final(sink)@ == old(sink)@ + encode_utf8(json_diagnostic_object("error"@, ""@, 0, 0, prefix@ + msg@)) + seq![10u8],
{
    let mut m = String::from_str(prefix);
    m.append(msg);
    let text = diagnostic_object("error", "", 0, 0, m.as_str());
    push_line(sink, &text);
}

/// Writes an engine error as diagnostic JSON (see [`engine_error_out`]).
pub fn report_engine_error(sink: &mut Vec<u8>, err: &EngineError)
    ensures
        final(sink)@ == old(sink)@ + engine_error_out(*err),
{
    let ghost before = sink@;
    match err {
        EngineError::Compile(diags) => {
            let sl = diags.as_slice();
            write_diagnostics(sink, sl);
            proof {
                assert(sl@ == diags@);
            }
        },
        EngineError::Render(msg) => write_message(sink, "render: ", msg.as_str()),
        EngineError::Io(msg) => write_message(sink, "io: ", msg.as_str()),
        EngineError::Package(msg) => write_message(sink, "package: ", msg.as_str()),
        EngineError::PdfpcMissing => write_message(sink, "pdfpc: ", "metadata missing"),
        EngineError::PdfpcSchema(msg) => write_message(sink, "pdfpc: ", msg.as_str()),
    }
    proof {
        assert(sink@ == before + engine_error_out(*err));
    }
}

} // verus!
