//! Pure wire parsers: the line-delimited JSON of the control socket, and the
//! terminal's answer to `CSI 16 t` (the cell size in pixels).
use vstd::prelude::*;
use vstd::string::StrSliceExecFns;
use crate::cli::str_eq;
use crate::deck::FrameId;
use crate::geometry::CellSize;
use crate::nav::Action;

verus! {

/// `c` has the Unicode `White_Space` property, the whitespace that
/// `str::trim` strips.
pub open spec fn is_white_space(c: char) -> bool {
    ||| '\u{9}' <= c <= '\u{d}'
    ||| c == ' ' || c == '\u{85}' || c == '\u{a0}' || c == '\u{1680}'
    ||| '\u{2000}' <= c <= '\u{200a}'
    ||| c == '\u{2028}' || c == '\u{2029}' || c == '\u{202f}' || c == '\u{205f}' || c == '\u{3000}'
}

/// `s` with leading and trailing whitespace removed, as `str::trim` does.
pub open spec fn trimmed(s: Seq<char>) -> Seq<char>
    decreases s.len(),
{
    if s.len() > 0 && is_white_space(s[0]) {
        trimmed(s.drop_first())
    } else if s.len() > 0 && is_white_space(s.last()) {
        trimmed(s.drop_last())
    } else {
        s
    }
}

/// A member value of a JSON object, holding what the control protocol reads
/// of it.
#[derive(Debug)]
pub enum JsonScalar {
    /// A string.
    Str(String),
    /// A number: its value when it is an integer in `0..=u64::MAX`.
    Number(Option<u64>),
    /// Anything else: null, a boolean, an array or an object.
    Other,
}

/// The view of a member value.
pub enum ScalarView {
    /// A string.
    Str(Seq<char>),
    /// A number, with its value when it is an integer in `0..=u64::MAX`.
    Number(Option<u64>),
    /// Anything else.
    Other,
}

/// The view of a member value.
pub open spec fn scalar_view(v: JsonScalar) -> ScalarView {
    match v {
        JsonScalar::Str(s) => ScalarView::Str(s@),
        JsonScalar::Number(n) => ScalarView::Number(n),
        JsonScalar::Other => ScalarView::Other,
    }
}

/// The views of the members of an object, in order.
pub open spec fn members_view(es: Seq<(String, JsonScalar)>) -> Seq<(Seq<char>, ScalarView)> {
    es.map_values(|e: (String, JsonScalar)| (e.0@, scalar_view(e.1)))
}

/// The view of a parsed JSON text: `None` when it is not JSON, `Some(None)`
/// when it is JSON but not an object, else the members of the object.
pub open spec fn parsed_view(r: Option<Option<Vec<(String, JsonScalar)>>>) -> Option<Option<Seq<(Seq<char>, ScalarView)>>> {
    match r {
        None => None,
        Some(None) => Some(None),
        Some(Some(es)) => Some(Some(members_view(es@))),
    }
}

/// What `serde_json::from_str::<serde_json::Value>` makes of a text, seen
/// as [`parsed_view`] describes: `None` for a text that is not JSON,
/// `Some(None)` for JSON that is not an object, else the object's members in
/// the order of its map.
pub uninterp spec fn json_object_members(text: Seq<char>) -> Option<Option<Seq<(Seq<char>, ScalarView)>>>;

fn is_ws(c: char) -> (r: bool)
    ensures
        r == is_white_space(c),
{
    ('\u{9}' <= c && c <= '\u{d}') || c == ' ' || c == '\u{85}' || c == '\u{a0}' || c == '\u{1680}' || ('\u{2000}'
        <= c && c <= '\u{200a}') || c == '\u{2028}' || c == '\u{2029}' || c == '\u{202f}' || c == '\u{205f}' || c
        == '\u{3000}'
}

proof fn lemma_trim_front(s: Seq<char>, i: int)
    requires
        0 <= i <= s.len(),
        forall|k: int| 0 <= k < i ==> is_white_space(#[trigger] s[k]),
    ensures
        trimmed(s) == trimmed(s.subrange(i, s.len() as int)),
    decreases i,
{
    if i > 0 {
        assert(is_white_space(s[0]));
        let t = s.drop_first();
        assert forall|k: int| 0 <= k < i - 1 implies is_white_space(#[trigger] t[k]) by {
            assert(t[k] == s[k + 1]);
        }
        lemma_trim_front(t, i - 1);
        assert(t.subrange(i - 1, t.len() as int) =~= s.subrange(i, s.len() as int));
    } else {
        assert(s.subrange(0, s.len() as int) =~= s);
    }
}

proof fn lemma_trim_back(t: Seq<char>, j: int)
    requires
        1 <= j <= t.len(),
        !is_white_space(t[0]),
        !is_white_space(t[j - 1]),
        forall|k: int| j <= k < t.len() ==> is_white_space(#[trigger] t[k]),
    ensures
        trimmed(t) == t.subrange(0, j),
    decreases t.len() - j,
{
    if j < t.len() {
        assert(is_white_space(t[t.len() - 1]));
        let u = t.drop_last();
        assert(u[0] == t[0]);
        assert forall|k: int| j <= k < u.len() implies is_white_space(#[trigger] u[k]) by {
            assert(u[k] == t[k]);
        }
        lemma_trim_back(u, j);
        assert(u.subrange(0, j) =~= t.subrange(0, j));
    } else {
        assert(t.subrange(0, j) =~= t);
    }
}

/// `s` without leading and trailing whitespace, as `str::trim` gives it
/// (see [`trimmed`]).
fn trim_str(s: &str) -> (r: &str)
    ensures
        r@ == trimmed(s@),
{
    let n = s.unicode_len();
    let mut i: usize = 0;
    while i < n
        invariant
            n == s@.len(),
            i <= n,
            forall|k: int| 0 <= k < i ==> is_white_space(#[trigger] s@[k]),
        ensures
            i < n ==> !is_white_space(s@[i as int]),
        decreases n - i,
    {
        if !is_ws(s.get_char(i)) {
            break;
        }
        i = i + 1;
    }
    let mut j: usize = n;
    while j > i
        invariant
            n == s@.len(),
            i <= j <= n,
            forall|k: int| j <= k < n ==> is_white_space(#[trigger] s@[k]),
        ensures
            j > i ==> !is_white_space(s@[j - 1]),
        decreases j - i,
    {
        if !is_ws(s.get_char(j - 1)) {
            break;
        }
        j = j - 1;
    }
    proof {
        lemma_trim_front(s@, i as int);
        let t = s@.subrange(i as int, n as int);
        if i < n {
            assert(!is_white_space(s@[i as int]));
            if j == i {
                assert(is_white_space(s@[i as int]));
            }
            assert(t[0] == s@[i as int]);
            assert(t[j - i - 1] == s@[j - 1]);
            assert forall|k: int| j - i <= k < t.len() implies is_white_space(#[trigger] t[k]) by {
                assert(t[k] == s@[k + i]);
            }
            lemma_trim_back(t, j - i);
            assert(t.subrange(0, j - i) =~= s@.subrange(i as int, j as int));
        } else {
            assert(t =~= Seq::<char>::empty());
            assert(s@.subrange(i as int, j as int) =~= Seq::<char>::empty());
        }
    }
    s.substring_char(i, j)
}

/// Wraps `serde_json::from_str::<serde_json::Value>` and converts the value:
/// an object into its members (a string member as its text, a number as
/// `Number::as_u64`, anything else as `Other`); other JSON as `Some(None)`.
#[verifier::external_body]
fn parse_json_object(text: &str) -> (r: Option<Option<Vec<(String, JsonScalar)>>>)
    ensures
        parsed_view(r) == json_object_members(text@),
{
    match serde_json::from_str::<serde_json::Value>(text) {
        Err(_) => None,
        Ok(serde_json::Value::Object(m)) => Some(Some(m.into_iter().map(|(k, v)| (k, match v {
            serde_json::Value::String(s) => JsonScalar::Str(s),
            serde_json::Value::Number(n) => JsonScalar::Number(n.as_u64()),
            _ => JsonScalar::Other,
        })).collect())),
        Ok(_) => Some(None),
    }
}

/// The value of the first member named `key`.
pub open spec fn member(es: Seq<(Seq<char>, ScalarView)>, key: Seq<char>) -> Option<ScalarView>
    decreases es.len(),
{
    if es.len() == 0 {
        None
    } else if es[0].0 == key {
        Some(es[0].1)
    } else {
        member(es.drop_first(), key)
    }
}

/// The `cmd` and `frame` members of a parsed control line: `None` when the
/// line is not JSON; else the `cmd` member if it is a string and the `frame`
/// member if it is an integer in `0..=u64::MAX` (both absent for JSON that
/// is not an object).
pub open spec fn command_fields(parsed: Option<Option<Seq<(Seq<char>, ScalarView)>>>) -> Option<(Option<Seq<char>>, Option<u64>)> {
    match parsed {
        None => None,
        Some(None) => Some((None, None)),
        Some(Some(es)) => Some(
            (
                match member(es, "cmd"@) {
                    Some(ScalarView::Str(c)) => Some(c),
                    _ => None,
                },
                match member(es, "frame"@) {
                    Some(ScalarView::Number(n)) => n,
                    _ => None,
                },
            ),
        ),
    }
}

fn member_of<'a>(es: &'a Vec<(String, JsonScalar)>, key: &str) -> (r: Option<&'a JsonScalar>)
    ensures
        match member(members_view(es@), key@) {
            Some(v) => r matches Some(x) && scalar_view(*x) == v,
            None => r is None,
        },
{
    let mut i: usize = 0;
    proof {
        assert(members_view(es@).skip(0) =~= members_view(es@));
    }
    while i < es.len()
        invariant
            i <= es@.len(),
            member(members_view(es@), key@) == member(members_view(es@).skip(i as int), key@),
        decreases es@.len() - i,
    {
        proof {
            assert(members_view(es@).skip(i as int).drop_first() =~= members_view(es@).skip(i + 1));
            assert(members_view(es@).skip(i as int)[0] == members_view(es@)[i as int]);
        }
        if str_eq(es[i].0.as_str(), key) {
            return Some(&es[i].1);
        }
        i = i + 1;
    }
    None
}

/// The `cmd` and `frame` members of a parsed control line (see
/// [`command_fields`]).
pub fn command_fields_of(parsed: Option<Option<Vec<(String, JsonScalar)>>>) -> (r: Option<(Option<String>, Option<u64>)>)
    ensures
        match r {
            None => command_fields(parsed_view(parsed)) is None,
            Some((cmd, frame)) => command_fields(parsed_view(parsed)) == Some(
                (
                    match cmd {
                        Some(c) => Some(c@),
                        None => None,
                    },
                    frame,
                ),
            ),
        },
{
    let es = match parsed {
        None => {
            return None;
        },
        Some(None) => {
            return Some((None, None));
        },
        Some(Some(es)) => es,
    };
    let cmd = match member_of(&es, "cmd") {
        Some(JsonScalar::Str(c)) => Some(c.clone()),
        _ => None,
    };
    let frame = match member_of(&es, "frame") {
        Some(JsonScalar::Number(n)) => *n,
        _ => None,
    };
    Some((cmd, frame))
}

/// The action of a control command given its `cmd` and `frame` members:
/// `reload`, `next` (advance), `prev` (retreat), `quit`, and `goto` with a
/// `frame` that fits a frame id; anything else is `None`.
pub open spec fn command_action(cmd: Option<Seq<char>>, frame: Option<u64>) -> Option<Action> {
    match cmd {
        None => None,
        Some(c) => if c == "reload"@ {
            Some(Action::Reload)
        } else if c == "next"@ {
            Some(Action::Advance)
        } else if c == "prev"@ {
            Some(Action::Retreat)
        } else if c == "quit"@ {
            Some(Action::Quit)
        } else if c == "goto"@ {
            match frame {
                Some(n) => if n <= u32::MAX {
                    Some(Action::Goto(FrameId(n as u32)))
                } else {
                    None
                },
                None => None,
            }
        } else {
            None
        },
    }
}

/// The action of the parsed members of a control line (see
/// [`command_action`]); `None` for a line that was not JSON.
pub fn command_from_fields(fields: Option<(Option<String>, Option<u64>)>) -> (r: Option<Action>)
    ensures
        r == match fields {
            None => None,
            Some((cmd, frame)) => command_action(
                match cmd {
                    Some(c) => Some(c@),
                    None => None,
                },
                frame,
            ),
        },
{
    let (cmd, frame) = match fields {
        None => {
            return None;
        },
        Some(f) => f,
    };
    let c = match cmd {
        None => {
            return None;
        },
        Some(c) => c,
    };
    let s = c.as_str();
    if str_eq(s, "reload") {
        Some(Action::Reload)
    } else if str_eq(s, "next") {
        Some(Action::Advance)
    } else if str_eq(s, "prev") {
        Some(Action::Retreat)
    } else if str_eq(s, "quit") {
        Some(Action::Quit)
    } else if str_eq(s, "goto") {
        match frame {
            Some(n) => if n <= 4294967295u64 {
                Some(Action::Goto(FrameId(n as u32)))
            } else {
                None
            },
            None => None,
        }
    } else {
        None
    }
}

/// Maps one line of the control socket (line-delimited JSON, surrounding
/// whitespace ignored) to an [`Action`]:
/// `{"cmd":"reload"}`, `{"cmd":"goto","frame":N}`, `{"cmd":"next"}`,
/// `{"cmd":"prev"}`, `{"cmd":"quit"}`. Anything else is `None`.
pub fn parse_command(line: &str) -> (r: Option<Action>)
    ensures
        r == match command_fields(json_object_members(trimmed(line@))) {
            None => None,
            Some((cmd, frame)) => command_action(cmd, frame),
        },
{
    let t = trim_str(line);
    command_from_fields(command_fields_of(parse_json_object(t)))
}

/// The first position at or after `i` where `ESC [` starts in `b`, or the
/// length of `b` when there is none.
pub open spec fn find_csi(b: Seq<u8>, i: int) -> int
    decreases b.len() - i,
{
    if i < 0 || i + 1 >= b.len() {
        b.len() as int
    } else if b[i] == 27 && b[i + 1] == 91 {
        i
    } else {
        find_csi(b, i + 1)
    }
}

/// The first position at or after `i` of byte `x` in `b`, or the length of
/// `b` when there is none.
pub open spec fn find_byte(b: Seq<u8>, x: u8, i: int) -> int
    decreases b.len() - i,
{
    if i < 0 || i >= b.len() {
        b.len() as int
    } else if b[i] == x {
        i
    } else {
        find_byte(b, x, i + 1)
    }
}

/// The `;`-separated fields of `s` from position `i` on.
pub open spec fn split_from(s: Seq<u8>, i: int) -> Seq<Seq<u8>>
    decreases s.len() - i,
{
    let k = find_byte(s, 59u8, i);
    if 0 <= i <= k < s.len() {
        seq![s.subrange(i, k)] + split_from(s, k + 1)
    } else if 0 <= i <= s.len() {
        seq![s.subrange(i, s.len() as int)]
    } else {
        Seq::empty()
    }
}

/// The value of a string of ASCII digits.
pub open spec fn digits_value(s: Seq<u8>) -> nat
    decreases s.len(),
{
    if s.len() == 0 {
        0
    } else {
        digits_value(s.drop_last()) * 10 + (s.last() - 48) as nat
    }
}

/// Every byte of `s` is an ASCII digit.
pub open spec fn all_digits(s: Seq<u8>) -> bool {
    forall|i: int| 0 <= i < s.len() ==> 48 <= #[trigger] s[i] <= 57
}

/// `u32::from_str` on ASCII bytes: an optional `+`, then at least one digit,
/// the value fitting a `u32`.
pub open spec fn parse_u32(s: Seq<u8>) -> Option<u32> {
    let d = if s.len() > 0 && s[0] == 43 {
        s.drop_first()
    } else {
        s
    };
    if d.len() > 0 && all_digits(d) && digits_value(d) <= u32::MAX {
        Some(digits_value(d) as u32)
    } else {
        None
    }
}

/// The cell size reported by the body between `ESC [` and `t`: exactly
/// three `;`-separated fields `6`, height, width, both non-zero.
pub open spec fn report_body(body: Seq<u8>) -> Option<CellSize> {
    let parts = split_from(body, 0);
    if parts.len() != 3 || parts[0] != seq![54u8] {
        None
    } else {
        match (parse_u32(parts[1]), parse_u32(parts[2])) {
            (Some(h), Some(w)) => if h != 0 && w != 0 {
                Some(CellSize { w_px: w, h_px: h })
            } else {
                None
            },
            _ => None,
        }
    }
}

/// The cell size of a `CSI 16 t` answer: the body runs from after the first
/// `ESC [` up to the first `t` after it.
pub open spec fn cell_size_report(b: Seq<u8>) -> Option<CellSize> {
    let c = find_csi(b, 0);
    if c + 1 >= b.len() {
        None
    } else {
        let e = find_byte(b, 116u8, c + 2);
        if e >= b.len() {
            None
        } else {
            report_body(b.subrange(c + 2, e))
        }
    }
}

proof fn lemma_digits_grow(s: Seq<u8>, i: int)
    requires
        0 <= i <= s.len(),
    ensures
        digits_value(s.take(i)) <= digits_value(s),
    decreases s.len() - i,
{
    if i < s.len() {
        lemma_digits_grow(s, i + 1);
        assert(s.take(i + 1).drop_last() =~= s.take(i));
    } else {
        assert(s.take(i) =~= s);
    }
}

fn parse_u32_vec(s: &Vec<u8>) -> (r: Option<u32>)
    ensures
        r == parse_u32(s@),
{
    let n = s.len();
    let start: usize = if n > 0 && s[0] == 43 {
        1
    } else {
        0
    };
    let ghost d = s@.skip(start as int);
    proof {
        if n > 0 && s@[0] == 43 {
            assert(d =~= s@.drop_first());
        } else {
            assert(d =~= s@);
        }
    }
    if start == n {
        return None;
    }
    let mut acc: u64 = 0;
    let mut i = start;
    proof {
        assert(d.take(0) =~= Seq::<u8>::empty());
    }
    while i < n
        invariant
            start <= i <= n,
            n == s@.len(),
            d == s@.skip(start as int),
            d == (if s@.len() > 0 && s@[0] == 43 {
                s@.drop_first()
            } else {
                s@
            }),
            forall|k: int| 0 <= k < i - start ==> 48 <= #[trigger] d[k] <= 57,
            acc == digits_value(d.take(i - start)),
            acc <= u32::MAX,
        decreases n - i,
    {
        let c = s[i];
        proof {
            assert(d[i - start] == c);
        }
        if c < 48 || c > 57 {
            proof {
                assert(!all_digits(d));
            }
            return None;
        }
        proof {
            assert(d.take(i - start + 1).drop_last() =~= d.take(i - start));
            assert(d.take(i - start + 1).last() == c);
        }
        acc = acc * 10 + (c - 48) as u64;
        if acc > 4294967295u64 {
            proof {
                lemma_digits_grow(d, i - start + 1);
            }
            return None;
        }
        i = i + 1;
    }
    proof {
        assert(d.take(n - start) =~= d);
        assert(all_digits(d));
    }
    Some(acc as u32)
}

fn copy_range(src: &[u8], from: usize, to: usize) -> (r: Vec<u8>)
    requires
        from <= to <= src@.len(),
    ensures
        r@ == src@.subrange(from as int, to as int),
{
    let mut out: Vec<u8> = Vec::new();
    let mut k = from;
    while k < to
        invariant
            from <= k <= to,
            to <= src@.len(),
            out@ == src@.subrange(from as int, k as int),
        decreases to - k,
    {
        out.push(src[k]);
        proof {
            assert(src@.subrange(from as int, k + 1) =~= out@);
        }
        k = k + 1;
    }
    out
}

fn split_fields(body: &Vec<u8>) -> (r: Vec<Vec<u8>>)
    ensures
        r@.map_values(|v: Vec<u8>| v@) == split_from(body@, 0),
{
    let n = body.len();
    let mut fields: Vec<Vec<u8>> = Vec::new();
    let mut pos: usize = 0;
    proof {
        assert(fields@.map_values(|v: Vec<u8>| v@) + split_from(body@, 0) =~= split_from(body@, 0));
    }
    loop
        invariant
            n == body@.len(),
            pos <= n,
            fields@.map_values(|v: Vec<u8>| v@) + split_from(body@, pos as int) == split_from(body@, 0),
        decreases n - pos,
    {
        let mut k = pos;
        while k < n && body[k] != 59
            invariant
                pos <= k <= n,
                n == body@.len(),
                find_byte(body@, 59u8, pos as int) == find_byte(body@, 59u8, k as int),
            decreases n - k,
        {
            k = k + 1;
        }
        let ghost before = fields@.map_values(|v: Vec<u8>| v@);
        let piece = copy_range(body.as_slice(), pos, k);
        fields.push(piece);
        proof {
            assert(fields@.map_values(|v: Vec<u8>| v@) =~= before.push(body@.subrange(pos as int, k as int)));
        }
        if k == n {
            proof {
                assert(split_from(body@, pos as int) =~= seq![body@.subrange(pos as int, n as int)]);
                assert(fields@.map_values(|v: Vec<u8>| v@) =~= split_from(body@, 0));
            }
            return fields;
        }
        proof {
            assert(split_from(body@, pos as int) == seq![body@.subrange(pos as int, k as int)] + split_from(
                body@,
                k + 1,
            ));
            assert(fields@.map_values(|v: Vec<u8>| v@) + split_from(body@, k + 1) =~= before + split_from(
                body@,
                pos as int,
            ));
        }
        pos = k + 1;
    }
}

/// Parses the terminal's answer to `CSI 16 t`, `ESC [ 6 ; <height> ;
/// <width> t` (height first): leading noise before `ESC [` is skipped; a
/// zero size, a number out of range, another kind than `6` or a wrong shape
/// gives `None`.
pub fn parse_cell_size_report(bytes: &[u8]) -> (r: Option<CellSize>)
    ensures
        r == cell_size_report(bytes@),
{
    let n = bytes.len();
    let mut i: usize = 0;
    while i < n && !(i + 1 < n && bytes[i] == 27 && bytes[i + 1] == 91)
        invariant
            i <= n,
            n == bytes@.len(),
            find_csi(bytes@, 0) == find_csi(bytes@, i as int) || find_csi(bytes@, 0) == n,
            i + 1 < n ==> find_csi(bytes@, 0) == find_csi(bytes@, i as int),
        decreases n - i,
    {
        i = i + 1;
    }
    if n - i <= 1 {
        proof {
            assert(find_csi(bytes@, 0) + 1 >= n);
        }
        return None;
    }
    let start = i + 2;
    let mut e = start;
    while e < n && bytes[e] != 116
        invariant
            start <= e <= n,
            n == bytes@.len(),
            find_byte(bytes@, 116u8, start as int) == find_byte(bytes@, 116u8, e as int),
        decreases n - e,
    {
        e = e + 1;
    }
    if e == n {
        return None;
    }
    let body = copy_range(bytes, start, e);
    let fields = split_fields(&body);
    proof {
        assert(fields@.len() == split_from(body@, 0).len());
    }
    if fields.len() != 3 {
        return None;
    }
    proof {
        assert(fields@[0]@ == split_from(body@, 0)[0]);
        assert(fields@[1]@ == split_from(body@, 0)[1]);
        assert(fields@[2]@ == split_from(body@, 0)[2]);
    }
    if !(fields[0].len() == 1 && fields[0][0] == 54) {
        proof {
            if fields@[0]@ == seq![54u8] {
                assert(fields@[0]@.len() == 1);
            }
        }
        return None;
    }
    proof {
        assert(fields@[0]@ =~= seq![54u8]);
    }
    let h = match parse_u32_vec(&fields[1]) {
        None => {
            return None;
        },
        Some(h) => h,
    };
    let w = match parse_u32_vec(&fields[2]) {
        None => {
            return None;
        },
        Some(w) => w,
    };
    if w == 0 || h == 0 {
        return None;
    }
    Some(CellSize { w_px: w, h_px: h })
}

} // verus!
