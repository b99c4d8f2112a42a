//! How a terminal reads the graphic-rendition escapes that the cell writer
//! sends: a small model of the ECMA-48 reader (`ESC [ params m`, the
//! parameters `0`, `1`, `2`, `3`, `4`, `7`, `22`, `23`, `24`, `27`, `39`,
//! `49` and the truecolor forms `38;2;r;g;b` and `48;2;r;g;b`), and the
//! proof that the bytes written before a cell leave the terminal showing the
//! colours and attributes that the cell wants.
use vstd::prelude::*;
use crate::cell::{CellAttrs, Color};
use crate::cell_sink::{
    SgrState, attr_param, attr_params, bg_param, csi_m, fg_param, full_sgr, has_bits, join_params,
    reset_seq, sgr_step,
};
use crate::decimal::dec;

verus! {

/// A colour as the terminal shows it.
pub enum TermColor {
    /// The terminal's own default colour.
    Default,
    /// A truecolor value.
    Rgb(nat, nat, nat),
}

/// The graphic rendition the terminal applies to the text it prints next.
pub struct Rendition {
    /// Foreground colour.
    pub fg: TermColor,
    /// Background colour.
    pub bg: TermColor,
    /// Bold.
    pub bold: bool,
    /// Dim.
    pub dim: bool,
    /// Italic.
    pub italic: bool,
    /// Underline.
    pub underline: bool,
    /// Reverse video.
    pub reverse: bool,
}

/// Where the terminal's reader stands in the byte stream.
pub enum Reader {
    /// Plain text.
    Ground,
    /// After `ESC`.
    Escape,
    /// Inside `ESC [`, with the parameter bytes read so far.
    Csi(Seq<u8>),
}

/// A terminal: its current rendition and its reader.
pub struct Term {
    /// The rendition.
    pub rendition: Rendition,
    /// The reader.
    pub reader: Reader,
}

/// The rendition after a reset: default colours, no attribute.
pub open spec fn plain_rendition() -> Rendition {
    Rendition {
        fg: TermColor::Default,
        bg: TermColor::Default,
        bold: false,
        dim: false,
        italic: false,
        underline: false,
        reverse: false,
    }
}

/// The effect of one SGR parameter on rendition `r`.
pub open spec fn sgr_param_effect(r: Rendition, n: nat) -> Rendition {
    if n == 0 {
        plain_rendition()
    } else if n == 1 {
        Rendition { bold: true, ..r }
    } else if n == 2 {
        Rendition { dim: true, ..r }
    } else if n == 3 {
        Rendition { italic: true, ..r }
    } else if n == 4 {
        Rendition { underline: true, ..r }
    } else if n == 7 {
        Rendition { reverse: true, ..r }
    } else if n == 22 {
        Rendition { bold: false, dim: false, ..r }
    } else if n == 23 {
        Rendition { italic: false, ..r }
    } else if n == 24 {
        Rendition { underline: false, ..r }
    } else if n == 27 {
        Rendition { reverse: false, ..r }
    } else if n == 39 {
        Rendition { fg: TermColor::Default, ..r }
    } else if n == 49 {
        Rendition { bg: TermColor::Default, ..r }
    } else {
        r
    }
}

/// The rendition after the SGR parameters `ns`, read left to right;
/// `38;2;r;g;b` sets a truecolor foreground and `48;2;r;g;b` a truecolor
/// background.
pub open spec fn apply_sgr(r: Rendition, ns: Seq<nat>) -> Rendition
    decreases ns.len(),
{
    if ns.len() == 0 {
        r
    } else if (ns[0] == 38 || ns[0] == 48) && ns.len() >= 5 && ns[1] == 2 {
        let c = TermColor::Rgb(ns[2], ns[3], ns[4]);
        apply_sgr(
            if ns[0] == 38 {
                Rendition { fg: c, ..r }
            } else {
                Rendition { bg: c, ..r }
            },
            ns.skip(5),
        )
    } else {
        apply_sgr(sgr_param_effect(r, ns[0]), ns.drop_first())
    }
}

/// The value of an ASCII digit (0 for any other byte).
pub open spec fn digit_value(b: u8) -> nat {
    if 48 <= b <= 57 {
        (b - 48) as nat
    } else {
        0
    }
}

/// The number that the digits `s` make when read after the digits that
/// made `cur`.
pub open spec fn fold_digits(cur: nat, s: Seq<u8>) -> nat
    decreases s.len(),
{
    if s.len() == 0 {
        cur
    } else {
        fold_digits(cur * 10 + digit_value(s[0]), s.drop_first())
    }
}

/// The parameters of the parameter string `s`, read left to right: digits
/// accumulate onto `cur`, and `;` ends a parameter (an empty one is `0`).
pub open spec fn params_from(s: Seq<u8>, cur: nat) -> Seq<nat>
    decreases s.len(),
{
    if s.len() == 0 {
        seq![cur]
    } else if s[0] == 59 {
        seq![cur] + params_from(s.drop_first(), 0)
    } else {
        params_from(s.drop_first(), cur * 10 + digit_value(s[0]))
    }
}

/// The SGR parameters of the parameter string `s`.
pub open spec fn sgr_params_of(s: Seq<u8>) -> Seq<nat> {
    params_from(s, 0)
}

/// The terminal after reading byte `b`: `ESC` starts an escape, `[` after
/// it a control sequence, whose parameter bytes are collected until a final
/// byte (`@` to `~`) ends it; the final byte `m` applies the parameters.
pub open spec fn read_byte(t: Term, b: u8) -> Term {
    match t.reader {
        Reader::Ground => if b == 27 {
            Term { reader: Reader::Escape, ..t }
        } else {
            t
        },
        Reader::Escape => if b == 91 {
            Term { reader: Reader::Csi(Seq::empty()), ..t }
        } else {
            Term { reader: Reader::Ground, ..t }
        },
        Reader::Csi(body) => if 64 <= b <= 126 {
            Term {
                rendition: if b == 109 {
                    apply_sgr(t.rendition, sgr_params_of(body))
                } else {
                    t.rendition
                },
                reader: Reader::Ground,
            }
        } else {
            Term { reader: Reader::Csi(body.push(b)), ..t }
        },
    }
}

/// The terminal after reading `bytes` in order.
pub open spec fn read_bytes(t: Term, bytes: Seq<u8>) -> Term
    decreases bytes.len(),
{
    if bytes.len() == 0 {
        t
    } else {
        read_byte(read_bytes(t, bytes.drop_last()), bytes.last())
    }
}

/// How the terminal shows colour `c`: its default for zero alpha, else the
/// RGB value.
pub open spec fn shown_color(c: Color) -> TermColor {
    if c[3] == 0 {
        TermColor::Default
    } else {
        TermColor::Rgb(c[0] as nat, c[1] as nat, c[2] as nat)
    }
}

/// The rendition that shows the SGR state `s`.
pub open spec fn rendition_of(s: SgrState) -> Rendition {
    Rendition {
        fg: shown_color(s.fg),
        bg: shown_color(s.bg),
        bold: has_bits(s.attrs, 1),
        dim: has_bits(s.attrs, 2),
        italic: has_bits(s.attrs, 4),
        underline: has_bits(s.attrs, 8),
        reverse: has_bits(s.attrs, 16),
    }
}

/// The rendition of a terminal in SGR state `cur` (`None`: just reset).
pub open spec fn rendition_before(cur: Option<SgrState>) -> Rendition {
    match cur {
        None => plain_rendition(),
        Some(c) => rendition_of(c),
    }
}

/// Every byte of `s` is a digit or `;`.
pub open spec fn param_text(s: Seq<u8>) -> bool {
    forall|i: int| 0 <= i < s.len() ==> (48 <= #[trigger] s[i] <= 57 || s[i] == 59)
}

/// Every byte of `s` is a digit.
pub open spec fn digits_only(s: Seq<u8>) -> bool {
    forall|i: int| 0 <= i < s.len() ==> 48 <= #[trigger] s[i] <= 57
}

/// The SGR parameters of a list of parameter strings.
pub open spec fn params_list(ps: Seq<Seq<u8>>) -> Seq<nat>
    decreases ps.len(),
{
    if ps.len() == 0 {
        Seq::empty()
    } else {
        params_list(ps.drop_last()) + sgr_params_of(ps.last())
    }
}

proof fn lemma_read_append(t: Term, a: Seq<u8>, b: Seq<u8>)
    ensures
        read_bytes(t, a + b) == read_bytes(read_bytes(t, a), b),
    decreases b.len(),
{
    if b.len() == 0 {
        assert(a + b =~= a);
    } else {
        assert((a + b).drop_last() =~= a + b.drop_last());
        assert((a + b).last() == b.last());
        lemma_read_append(t, a, b.drop_last());
    }
}

proof fn lemma_read_csi_body(t: Term, body: Seq<u8>)
    requires
        t.reader is Ground,
        param_text(body),
    ensures
        read_bytes(t, seq![27u8, 91u8] + body) == (Term { rendition: t.rendition, reader: Reader::Csi(body) }),
    decreases body.len(),
{
    if body.len() == 0 {
        assert(body =~= Seq::<u8>::empty());
        assert(seq![27u8, 91u8] + body =~= seq![27u8, 91u8]);
        assert(seq![27u8, 91u8].drop_last() =~= seq![27u8]);
        assert(seq![27u8].drop_last() =~= Seq::<u8>::empty());
        assert(read_bytes(t, Seq::<u8>::empty()) == t);
        assert(read_bytes(t, seq![27u8]) == read_byte(t, 27u8));
        assert(read_bytes(t, seq![27u8, 91u8]) == read_byte(read_byte(t, 27u8), 91u8));
    } else {
        let pre = body.drop_last();
        assert(param_text(pre)) by {
            assert forall|i: int| 0 <= i < pre.len() implies (48 <= #[trigger] pre[i] <= 57 || pre[i] == 59) by {
                assert(pre[i] == body[i]);
            }
        }
        lemma_read_csi_body(t, pre);
        assert((seq![27u8, 91u8] + body).drop_last() =~= seq![27u8, 91u8] + pre);
        assert((seq![27u8, 91u8] + body).last() == body.last());
        assert(body.last() == body[body.len() - 1]);
        assert(pre.push(body.last()) =~= body);
        let x = body.last();
        assert(48 <= body[body.len() - 1] <= 57 || body[body.len() - 1] == 59);
        assert(read_bytes(t, seq![27u8, 91u8] + body) == read_byte(
            read_bytes(t, seq![27u8, 91u8] + pre),
            x,
        ));
    }
}

/// A whole `ESC [ params m` read from plain text applies its parameters.
proof fn lemma_read_csi_m(t: Term, ps: Seq<Seq<u8>>)
    requires
        t.reader is Ground,
        param_text(join_params(ps)),
    ensures
        read_bytes(t, csi_m(ps)) == (Term {
            rendition: apply_sgr(t.rendition, sgr_params_of(join_params(ps))),
            reader: Reader::Ground,
        }),
{
    let body = join_params(ps);
    lemma_read_csi_body(t, body);
    assert(csi_m(ps).drop_last() =~= seq![27u8, 91u8] + body);
    assert(csi_m(ps).last() == 109u8);
}

proof fn lemma_param_text_concat(a: Seq<u8>, b: Seq<u8>)
    requires
        param_text(a),
        param_text(b),
    ensures
        param_text(a + b),
{
    assert forall|i: int| 0 <= i < (a + b).len() implies (48 <= #[trigger] (a + b)[i] <= 57 || (a + b)[i]
        == 59) by {
        if i < a.len() {
            assert((a + b)[i] == a[i]);
        } else {
            assert((a + b)[i] == b[i - a.len()]);
        }
    }
}

proof fn lemma_join_param_text(ps: Seq<Seq<u8>>)
    requires
        forall|k: int| 0 <= k < ps.len() ==> param_text(#[trigger] ps[k]),
    ensures
        param_text(join_params(ps)),
    decreases ps.len(),
{
    if ps.len() == 1 {
        assert(param_text(ps[0]));
    } else if ps.len() > 1 {
        let pre = ps.drop_last();
        assert forall|k: int| 0 <= k < pre.len() implies param_text(#[trigger] pre[k]) by {
            assert(pre[k] == ps[k]);
        }
        lemma_join_param_text(pre);
        assert(param_text(seq![59u8]));
        assert(param_text(ps[ps.len() - 1]));
        lemma_param_text_concat(join_params(pre), seq![59u8]);
        lemma_param_text_concat(join_params(pre) + seq![59u8], ps.last());
    }
}

proof fn lemma_dec_digits(n: nat)
    ensures
        digits_only(dec(n)),
        fold_digits(0, dec(n)) == n,
    decreases n,
{
    if n < 10 {
        let d = (48 + n) as u8;
        assert(d == 48 + n);
        assert(dec(n) =~= Seq::<u8>::empty().push(d));
        lemma_fold_push(0, Seq::<u8>::empty(), d);
        assert(fold_digits(0, Seq::<u8>::empty()) == 0);
    } else {
        lemma_dec_digits(n / 10);
        let d = (48 + n % 10) as u8;
        assert(d == 48 + n % 10);
        assert(n == (n / 10) * 10 + n % 10);
        lemma_fold_push(0, dec(n / 10), d);
        assert forall|i: int| 0 <= i < dec(n).len() implies 48 <= #[trigger] dec(n)[i] <= 57 by {
            if i < dec(n / 10).len() {
                assert(dec(n)[i] == dec(n / 10)[i]);
            }
        }
    }
}

proof fn lemma_fold_push(cur: nat, s: Seq<u8>, d: u8)
    ensures
        fold_digits(cur, s.push(d)) == fold_digits(cur, s) * 10 + digit_value(d),
    decreases s.len(),
{
    if s.len() == 0 {
        assert(s.push(d).drop_first() =~= Seq::<u8>::empty());
        assert(s.push(d)[0] == d);
        assert(fold_digits(cur * 10 + digit_value(d), Seq::<u8>::empty()) == cur * 10 + digit_value(d));
    } else {
        assert(s.push(d)[0] == s[0]);
        assert(s.push(d).drop_first() =~= s.drop_first().push(d));
        lemma_fold_push(cur * 10 + digit_value(s[0]), s.drop_first(), d);
    }
}

proof fn lemma_params_digits(s: Seq<u8>, cur: nat)
    requires
        digits_only(s),
    ensures
        params_from(s, cur) == seq![fold_digits(cur, s)],
    decreases s.len(),
{
    if s.len() > 0 {
        assert(48 <= s[0] <= 57);
        assert(digits_only(s.drop_first())) by {
            assert forall|i: int| 0 <= i < s.drop_first().len() implies 48 <= #[trigger] s.drop_first()[i]
                <= 57 by {
                assert(s.drop_first()[i] == s[i + 1]);
            }
        }
        lemma_params_digits(s.drop_first(), cur * 10 + digit_value(s[0]));
    }
}

proof fn lemma_params_split(a: Seq<u8>, b: Seq<u8>, cur: nat)
    ensures
        params_from(a + seq![59u8] + b, cur) == params_from(a, cur) + params_from(b, 0),
    decreases a.len(),
{
    let s = a + seq![59u8] + b;
    if a.len() == 0 {
        assert(s[0] == 59u8);
        assert(s.drop_first() =~= b);
    } else {
        assert(s[0] == a[0]);
        assert(s.drop_first() =~= a.drop_first() + seq![59u8] + b);
        if a[0] == 59 {
            lemma_params_split(a.drop_first(), b, 0);
            assert(seq![cur] + (params_from(a.drop_first(), 0) + params_from(b, 0)) =~= seq![cur]
                + params_from(a.drop_first(), 0) + params_from(b, 0));
        } else {
            lemma_params_split(a.drop_first(), b, cur * 10 + digit_value(a[0]));
        }
    }
}

proof fn lemma_params_of_join(ps: Seq<Seq<u8>>)
    requires
        ps.len() > 0,
    ensures
        sgr_params_of(join_params(ps)) == params_list(ps),
    decreases ps.len(),
{
    if ps.len() == 1 {
        assert(ps =~= seq![ps[0]]);
        lemma_params_list_one(ps[0]);
    } else {
        lemma_params_of_join(ps.drop_last());
        lemma_params_split(join_params(ps.drop_last()), ps.last(), 0);
    }
}

proof fn lemma_params_list_append(x: Seq<Seq<u8>>, y: Seq<Seq<u8>>)
    ensures
        params_list(x + y) == params_list(x) + params_list(y),
    decreases y.len(),
{
    if y.len() == 0 {
        assert(x + y =~= x);
        assert(params_list(x) + params_list(y) =~= params_list(x));
    } else {
        assert((x + y).drop_last() =~= x + y.drop_last());
        assert((x + y).last() == y.last());
        lemma_params_list_append(x, y.drop_last());
        assert(params_list(x) + params_list(y.drop_last()) + sgr_params_of(y.last()) =~= params_list(x) + (
        params_list(y.drop_last()) + sgr_params_of(y.last())));
    }
}

proof fn lemma_params_list_one(p: Seq<u8>)
    ensures
        params_list(seq![p]) == sgr_params_of(p),
{
    assert(seq![p].drop_last() =~= Seq::<Seq<u8>>::empty());
    assert(seq![p].last() == p);
    assert(params_list(Seq::<Seq<u8>>::empty()) == Seq::<nat>::empty());
    assert(Seq::<nat>::empty() + sgr_params_of(p) =~= sgr_params_of(p));
}

/// The SGR parameters that the colour parameter for `c` holds: `base + 1`
/// (the default-colour code) for zero alpha, else `base;2;r;g;b`.
pub open spec fn color_numbers(c: Color, base: nat) -> Seq<nat> {
    if c[3] == 0 {
        seq![base + 1]
    } else {
        seq![base, 2, c[0] as nat, c[1] as nat, c[2] as nat]
    }
}

proof fn lemma_two_digits(a: u8, b: u8)
    requires
        48 <= a <= 57,
        48 <= b <= 57,
    ensures
        sgr_params_of(seq![a, b]) == seq![digit_value(a) * 10 + digit_value(b)],
        param_text(seq![a, b]),
{
    assert(digits_only(seq![a, b]));
    lemma_params_digits(seq![a, b], 0);
    assert(seq![a, b] =~= seq![a].push(b));
    lemma_fold_push(0, seq![a], b);
    assert(seq![a] =~= Seq::<u8>::empty().push(a));
    lemma_fold_push(0, Seq::<u8>::empty(), a);
    assert(fold_digits(0, Seq::<u8>::empty()) == 0);
    let ab = seq![a, b];
    assert(param_text(ab)) by {
        assert forall|i: int| 0 <= i < ab.len() implies (48 <= #[trigger] ab[i] <= 57 || ab[i] == 59) by {
        }
    }
}

proof fn lemma_color_param_numbers(c: Color, lead: u8)
    requires
        lead == 51 || lead == 52,
    ensures
        sgr_params_of(
            if c[3] == 0 {
                seq![lead, 57u8]
            } else {
                seq![lead, 56u8, 59u8, 50u8, 59u8] + dec(c[0] as nat) + seq![59u8] + dec(c[1] as nat)
                    + seq![59u8] + dec(c[2] as nat)
            },
        ) == color_numbers(c, digit_value(lead) * 10 + 8),
        param_text(
            if c[3] == 0 {
                seq![lead, 57u8]
            } else {
                seq![lead, 56u8, 59u8, 50u8, 59u8] + dec(c[0] as nat) + seq![59u8] + dec(c[1] as nat)
                    + seq![59u8] + dec(c[2] as nat)
            },
        ),
{
    if c[3] == 0 {
        lemma_two_digits(lead, 57u8);
    } else {
        let r = dec(c[0] as nat);
        let g = dec(c[1] as nat);
        let b = dec(c[2] as nat);
        lemma_dec_digits(c[0] as nat);
        lemma_dec_digits(c[1] as nat);
        lemma_dec_digits(c[2] as nat);
        lemma_params_digits(r, 0);
        lemma_params_digits(g, 0);
        lemma_params_digits(b, 0);
        let d = g + seq![59u8] + b;
        let cc = r + seq![59u8] + d;
        let bb = seq![50u8] + seq![59u8] + cc;
        let whole = seq![lead, 56u8] + seq![59u8] + bb;
        assert(whole =~= seq![lead, 56u8, 59u8, 50u8, 59u8] + r + seq![59u8] + g + seq![59u8] + b);
        lemma_params_split(g, b, 0);
        lemma_params_split(r, d, 0);
        lemma_params_split(seq![50u8], cc, 0);
        lemma_params_split(seq![lead, 56u8], bb, 0);
        lemma_two_digits(lead, 56u8);
        assert(digits_only(seq![50u8]));
        lemma_params_digits(seq![50u8], 0);
        assert(seq![50u8] =~= Seq::<u8>::empty().push(50u8));
        lemma_fold_push(0, Seq::<u8>::empty(), 50u8);
        assert(fold_digits(0, Seq::<u8>::empty()) == 0);
        assert(sgr_params_of(seq![50u8]) == seq![2nat]);
        assert(sgr_params_of(r) == seq![c[0] as nat]);
        assert(sgr_params_of(g) == seq![c[1] as nat]);
        assert(sgr_params_of(b) == seq![c[2] as nat]);
        assert(sgr_params_of(seq![lead, 56u8]) == seq![digit_value(lead) * 10 + 8]);
        assert(sgr_params_of(whole) =~= color_numbers(c, digit_value(lead) * 10 + 8));
        assert(param_text(r)) by {
            assert forall|i: int| 0 <= i < r.len() implies (48 <= #[trigger] r[i] <= 57 || r[i] == 59) by {
                assert(digits_only(r));
            }
        }
        assert(param_text(g)) by {
            assert forall|i: int| 0 <= i < g.len() implies (48 <= #[trigger] g[i] <= 57 || g[i] == 59) by {
                assert(digits_only(g));
            }
        }
        assert(param_text(b)) by {
            assert forall|i: int| 0 <= i < b.len() implies (48 <= #[trigger] b[i] <= 57 || b[i] == 59) by {
                assert(digits_only(b));
            }
        }
        assert(param_text(seq![59u8]));
        assert(param_text(seq![lead, 56u8, 59u8, 50u8, 59u8]));
        lemma_param_text_concat(seq![lead, 56u8, 59u8, 50u8, 59u8], r);
        lemma_param_text_concat(seq![lead, 56u8, 59u8, 50u8, 59u8] + r, seq![59u8]);
        lemma_param_text_concat(seq![lead, 56u8, 59u8, 50u8, 59u8] + r + seq![59u8], g);
        lemma_param_text_concat(seq![lead, 56u8, 59u8, 50u8, 59u8] + r + seq![59u8] + g, seq![59u8]);
        lemma_param_text_concat(seq![lead, 56u8, 59u8, 50u8, 59u8] + r + seq![59u8] + g + seq![59u8], b);
    }
}

proof fn lemma_one_digit(d: u8)
    requires
        48 <= d <= 57,
    ensures
        sgr_params_of(seq![d]) == seq![digit_value(d)],
        param_text(seq![d]),
{
    assert(digits_only(seq![d]));
    lemma_params_digits(seq![d], 0);
    assert(seq![d] =~= Seq::<u8>::empty().push(d));
    lemma_fold_push(0, Seq::<u8>::empty(), d);
    assert(fold_digits(0, Seq::<u8>::empty()) == 0);
    let one = seq![d];
    assert(param_text(one)) by {
        assert forall|i: int| 0 <= i < one.len() implies (48 <= #[trigger] one[i] <= 57 || one[i] == 59) by {
        }
    }
}

proof fn lemma_apply_single(r: Rendition, n: nat, rest: Seq<nat>)
    requires
        n != 38,
        n != 48,
    ensures
        apply_sgr(r, seq![n] + rest) == apply_sgr(sgr_param_effect(r, n), rest),
{
    let s = seq![n] + rest;
    assert(s[0] == n);
    assert(s.drop_first() =~= rest);
}

/// Rendition `r` with the colour that parameter `base` (`38` foreground,
/// `48` background) sets.
pub open spec fn set_color(r: Rendition, base: nat, c: TermColor) -> Rendition {
    if base == 38 {
        Rendition { fg: c, ..r }
    } else {
        Rendition { bg: c, ..r }
    }
}

proof fn lemma_apply_color(r: Rendition, c: Color, base: nat, rest: Seq<nat>)
    requires
        base == 38 || base == 48,
    ensures
        apply_sgr(r, color_numbers(c, base) + rest) == apply_sgr(set_color(r, base, shown_color(c)), rest),
{
    if c[3] == 0 {
        lemma_apply_single(r, base + 1, rest);
    } else {
        let s = color_numbers(c, base) + rest;
        assert(s[0] == base && s[1] == 2 && s[2] == c[0] as nat && s[3] == c[1] as nat && s[4] == c[2] as nat);
        assert(s.skip(5) =~= rest);
    }
}

/// Rendition `r` after the attribute parameter `n` when `want` has `bit`
/// and `have` lacks it.
pub open spec fn attr_step(r: Rendition, want: CellAttrs, have: CellAttrs, bit: u8, n: nat) -> Rendition {
    if has_bits(want, bit) && !has_bits(have, bit) {
        sgr_param_effect(r, n)
    } else {
        r
    }
}

/// Rendition `r` after the attribute parameters that `want` adds to `have`.
pub open spec fn attrs_added(r: Rendition, want: CellAttrs, have: CellAttrs) -> Rendition {
    attr_step(
        attr_step(
            attr_step(attr_step(attr_step(r, want, have, 1, 1), want, have, 2, 2), want, have, 4, 3),
            want,
            have,
            8,
            4,
        ),
        want,
        have,
        16,
        7,
    )
}

/// Every parameter string of `ps` is parameter text.
pub open spec fn all_param_text(ps: Seq<Seq<u8>>) -> bool {
    forall|k: int| 0 <= k < ps.len() ==> param_text(#[trigger] ps[k])
}

proof fn lemma_all_param_text_concat(x: Seq<Seq<u8>>, y: Seq<Seq<u8>>)
    requires
        all_param_text(x),
        all_param_text(y),
    ensures
        all_param_text(x + y),
{
    assert forall|k: int| 0 <= k < (x + y).len() implies param_text(#[trigger] (x + y)[k]) by {
        if k < x.len() {
            assert((x + y)[k] == x[k]);
        } else {
            assert((x + y)[k] == y[k - x.len()]);
        }
    }
}

proof fn lemma_apply_attr_part(
    r: Rendition,
    want: CellAttrs,
    have: CellAttrs,
    bit: u8,
    code: u8,
    rest: Seq<nat>,
)
    requires
        49 <= code <= 55,
    ensures
        apply_sgr(r, params_list(attr_param(want, have, bit, code)) + rest) == apply_sgr(
            attr_step(r, want, have, bit, digit_value(code)),
            rest,
        ),
        all_param_text(attr_param(want, have, bit, code)),
{
    lemma_one_digit(code);
    if has_bits(want, bit) && !has_bits(have, bit) {
        lemma_params_list_one(seq![code]);
        lemma_apply_single(r, digit_value(code), rest);
        assert(all_param_text(seq![seq![code]]));
    } else {
        assert(attr_param(want, have, bit, code) =~= Seq::<Seq<u8>>::empty());
        assert(params_list(Seq::<Seq<u8>>::empty()) + rest =~= rest);
    }
}

proof fn lemma_apply_attrs(r: Rendition, want: CellAttrs, have: CellAttrs, rest: Seq<nat>)
    ensures
        apply_sgr(r, params_list(attr_params(want, have)) + rest) == apply_sgr(
            attrs_added(r, want, have),
            rest,
        ),
        all_param_text(attr_params(want, have)),
{
    let p1 = attr_param(want, have, 1, 49u8);
    let p2 = attr_param(want, have, 2, 50u8);
    let p3 = attr_param(want, have, 4, 51u8);
    let p4 = attr_param(want, have, 8, 52u8);
    let p5 = attr_param(want, have, 16, 55u8);
    lemma_params_list_append(p1, p2);
    lemma_params_list_append(p1 + p2, p3);
    lemma_params_list_append(p1 + p2 + p3, p4);
    lemma_params_list_append(p1 + p2 + p3 + p4, p5);
    let l1 = params_list(p1);
    let l2 = params_list(p2);
    let l3 = params_list(p3);
    let l4 = params_list(p4);
    let l5 = params_list(p5);
    assert(params_list(attr_params(want, have)) + rest =~= l1 + (l2 + (l3 + (l4 + (l5 + rest)))));
    let r1 = attr_step(r, want, have, 1, 1);
    let r2 = attr_step(r1, want, have, 2, 2);
    let r3 = attr_step(r2, want, have, 4, 3);
    let r4 = attr_step(r3, want, have, 8, 4);
    lemma_apply_attr_part(r, want, have, 1, 49u8, l2 + (l3 + (l4 + (l5 + rest))));
    lemma_apply_attr_part(r1, want, have, 2, 50u8, l3 + (l4 + (l5 + rest)));
    lemma_apply_attr_part(r2, want, have, 4, 51u8, l4 + (l5 + rest));
    lemma_apply_attr_part(r3, want, have, 8, 52u8, l5 + rest);
    lemma_apply_attr_part(r4, want, have, 16, 55u8, rest);
    lemma_all_param_text_concat(p1, p2);
    lemma_all_param_text_concat(p1 + p2, p3);
    lemma_all_param_text_concat(p1 + p2 + p3, p4);
    lemma_all_param_text_concat(p1 + p2 + p3 + p4, p5);
}

proof fn lemma_color_params(c: Color)
    ensures
        sgr_params_of(fg_param(c)) == color_numbers(c, 38),
        sgr_params_of(bg_param(c)) == color_numbers(c, 48),
        param_text(fg_param(c)),
        param_text(bg_param(c)),
{
    lemma_color_param_numbers(c, 51u8);
    lemma_color_param_numbers(c, 52u8);
}

proof fn lemma_no_bits_in_zero()
    ensures
        forall|b: u8| b != 0 ==> (0u8 & b) != b,
{
    assert(forall|b: u8| b != 0 ==> (0u8 & b) != b) by (bit_vector);
}

proof fn lemma_subset_bit(w: u8, c: u8, b: u8)
    by (bit_vector)
    requires
        w & c == c,
    ensures
        c & b == b ==> w & b == b,
{
}

/// Reading a list of parameter strings as one `ESC [ ... m` applies the
/// parameters of each string in turn.
proof fn lemma_read_params(t: Term, ps: Seq<Seq<u8>>)
    requires
        t.reader is Ground,
        ps.len() > 0,
        all_param_text(ps),
    ensures
        read_bytes(t, csi_m(ps)) == (Term {
            rendition: apply_sgr(t.rendition, params_list(ps)),
            reader: Reader::Ground,
        }),
{
    lemma_join_param_text(ps);
    lemma_read_csi_m(t, ps);
    lemma_params_of_join(ps);
}

proof fn lemma_full_sgr_from_plain(w: SgrState)
    ensures
        read_bytes(Term { rendition: plain_rendition(), reader: Reader::Ground }, full_sgr(w)) == (Term {
            rendition: rendition_of(w),
            reader: Reader::Ground,
        }),
{
    let t = Term { rendition: plain_rendition(), reader: Reader::Ground };
    let ap = attr_params(w.attrs, CellAttrs(0));
    let f = fg_param(w.fg);
    let b = bg_param(w.bg);
    let ps = ap + seq![f, b];
    lemma_color_params(w.fg);
    lemma_color_params(w.bg);
    lemma_params_list_one(f);
    lemma_params_list_one(b);
    assert(seq![f, b] =~= seq![f] + seq![b]);
    lemma_params_list_append(seq![f], seq![b]);
    lemma_params_list_append(ap, seq![f, b]);
    let cf = color_numbers(w.fg, 38);
    let cb = color_numbers(w.bg, 48);
    assert(params_list(ps) == params_list(ap) + (cf + cb));
    lemma_apply_attrs(plain_rendition(), w.attrs, CellAttrs(0), cf + cb);
    let ra = attrs_added(plain_rendition(), w.attrs, CellAttrs(0));
    lemma_apply_color(ra, w.fg, 38, cb);
    assert(cb + Seq::<nat>::empty() =~= cb);
    lemma_apply_color(set_color(ra, 38, shown_color(w.fg)), w.bg, 48, Seq::<nat>::empty());
    let fb = seq![f, b];
    assert(all_param_text(fb)) by {
        assert forall|k: int| 0 <= k < fb.len() implies param_text(#[trigger] fb[k]) by {
            if k == 0 {
                assert(fb[k] == f);
            } else {
                assert(fb[k] == b);
            }
        }
    }
    lemma_all_param_text_concat(ap, seq![f, b]);
    lemma_read_params(t, ps);
    lemma_no_bits_in_zero();
    assert(!has_bits(CellAttrs(0), 1) && !has_bits(CellAttrs(0), 2) && !has_bits(CellAttrs(0), 4)
        && !has_bits(CellAttrs(0), 8) && !has_bits(CellAttrs(0), 16));
}

proof fn lemma_reset_then_full(c: SgrState, w: SgrState)
    ensures
        read_bytes(Term { rendition: rendition_of(c), reader: Reader::Ground }, reset_seq() + full_sgr(w))
            == (Term { rendition: rendition_of(w), reader: Reader::Ground }),
{
    let t = Term { rendition: rendition_of(c), reader: Reader::Ground };
    let reset_ps = seq![seq![48u8]];
    lemma_one_digit(48u8);
    assert(join_params(reset_ps) == seq![48u8]);
    assert(reset_seq() =~= csi_m(reset_ps));
    assert(all_param_text(reset_ps));
    lemma_read_params(t, reset_ps);
    lemma_params_list_one(seq![48u8]);
    assert(seq![0nat] + Seq::<nat>::empty() =~= seq![0nat]);
    lemma_apply_single(rendition_of(c), 0, Seq::<nat>::empty());
    lemma_read_append(t, reset_seq(), full_sgr(w));
    lemma_full_sgr_from_plain(w);
}

/// The parameters sent when `w` only adds to `c`: the added attribute
/// codes, then the foreground and the background where they changed.
pub open spec fn added_params(c: SgrState, w: SgrState) -> Seq<Seq<u8>> {
    attr_params(w.attrs, c.attrs) + (if w.fg@ != c.fg@ {
        seq![fg_param(w.fg)]
    } else {
        Seq::empty()
    }) + (if w.bg@ != c.bg@ {
        seq![bg_param(w.bg)]
    } else {
        Seq::empty()
    })
}

proof fn lemma_added_params_applied(c: SgrState, w: SgrState)
    requires
        has_bits(w.attrs, c.attrs.0),
    ensures
        all_param_text(added_params(c, w)),
        apply_sgr(rendition_of(c), params_list(added_params(c, w))) == rendition_of(w),
{
    let ap = attr_params(w.attrs, c.attrs);
    let fo: Seq<Seq<u8>> = if w.fg@ != c.fg@ {
        seq![fg_param(w.fg)]
    } else {
        Seq::empty()
    };
    let bo: Seq<Seq<u8>> = if w.bg@ != c.bg@ {
        seq![bg_param(w.bg)]
    } else {
        Seq::empty()
    };
    let ps = added_params(c, w);
    lemma_subset_bit(w.attrs.0, c.attrs.0, 1);
    lemma_subset_bit(w.attrs.0, c.attrs.0, 2);
    lemma_subset_bit(w.attrs.0, c.attrs.0, 4);
    lemma_subset_bit(w.attrs.0, c.attrs.0, 8);
    lemma_subset_bit(w.attrs.0, c.attrs.0, 16);
    lemma_color_params(w.fg);
    lemma_color_params(w.bg);
    let cf: Seq<nat> = if w.fg@ != c.fg@ {
        color_numbers(w.fg, 38)
    } else {
        Seq::empty()
    };
    let cb: Seq<nat> = if w.bg@ != c.bg@ {
        color_numbers(w.bg, 48)
    } else {
        Seq::empty()
    };
    if w.fg@ != c.fg@ {
        lemma_params_list_one(fg_param(w.fg));
    } else {
        assert(w.fg =~= c.fg);
    }
    if w.bg@ != c.bg@ {
        lemma_params_list_one(bg_param(w.bg));
    } else {
        assert(w.bg =~= c.bg);
    }
    assert(params_list(fo) == cf);
    assert(params_list(bo) == cb);
    lemma_apply_attrs(rendition_of(c), w.attrs, c.attrs, cf + cb);
    lemma_params_list_append(ap + fo, bo);
    lemma_params_list_append(ap, fo);
    assert(params_list(ps) =~= params_list(ap) + (cf + cb));
    let ra = attrs_added(rendition_of(c), w.attrs, c.attrs);
    let rf = if w.fg@ != c.fg@ {
        set_color(ra, 38, shown_color(w.fg))
    } else {
        ra
    };
    if w.fg@ != c.fg@ {
        lemma_apply_color(ra, w.fg, 38, cb);
    } else {
        assert(cf + cb =~= cb);
    }
    if w.bg@ != c.bg@ {
        assert(cb + Seq::<nat>::empty() =~= cb);
        lemma_apply_color(rf, w.bg, 48, Seq::<nat>::empty());
    }
    assert(all_param_text(fo));
    assert(all_param_text(bo));
    lemma_all_param_text_concat(ap, fo);
    lemma_all_param_text_concat(ap + fo, bo);
}

/// When nothing is added, the shown state already is the wanted one.
proof fn lemma_nothing_added(c: SgrState, w: SgrState)
    requires
        has_bits(w.attrs, c.attrs.0),
        added_params(c, w).len() == 0,
    ensures
        rendition_of(c) == rendition_of(w),
{
    lemma_subset_bit(w.attrs.0, c.attrs.0, 1);
    lemma_subset_bit(w.attrs.0, c.attrs.0, 2);
    lemma_subset_bit(w.attrs.0, c.attrs.0, 4);
    lemma_subset_bit(w.attrs.0, c.attrs.0, 8);
    lemma_subset_bit(w.attrs.0, c.attrs.0, 16);
    assert(attr_param(w.attrs, c.attrs, 1, 49u8).len() == 0);
    assert(attr_param(w.attrs, c.attrs, 2, 50u8).len() == 0);
    assert(attr_param(w.attrs, c.attrs, 4, 51u8).len() == 0);
    assert(attr_param(w.attrs, c.attrs, 8, 52u8).len() == 0);
    assert(attr_param(w.attrs, c.attrs, 16, 55u8).len() == 0);
    assert(w.fg@ == c.fg@);
    assert(w.bg@ == c.bg@);
    assert(w.fg =~= c.fg);
    assert(w.bg =~= c.bg);
}

/// What a cell's SGR bytes do on the terminal: written to a terminal that
/// shows the SGR state `cur` (the reset state for `None`), reading plain
/// text, the bytes `sgr_step(cur, w)` leave it showing exactly the colours
/// and attributes of `w`, ready for the cell's text.
pub proof fn lemma_sgr_step_shows_wanted(cur: Option<SgrState>, w: SgrState)
    ensures
        read_bytes(Term { rendition: rendition_before(cur), reader: Reader::Ground }, sgr_step(cur, w))
            == (Term { rendition: rendition_of(w), reader: Reader::Ground }),
{
    match cur {
        None => {
            lemma_full_sgr_from_plain(w);
        },
        Some(c) => {
            if !has_bits(w.attrs, c.attrs.0) {
                lemma_reset_then_full(c, w);
            } else {
                let ps = added_params(c, w);
                assert(sgr_step(cur, w) == if ps.len() == 0 {
                    Seq::<u8>::empty()
                } else {
                    csi_m(ps)
                });
                if ps.len() == 0 {
                    lemma_nothing_added(c, w);
                } else {
                    lemma_added_params_applied(c, w);
                    lemma_read_params(Term { rendition: rendition_of(c), reader: Reader::Ground }, ps);
                }
            }
        },
    }
}

} // verus!
