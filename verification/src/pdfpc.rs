//! Slides, overlay steps and speaker notes recovered from the pdfpc page
//! list that Touying emits.
//!
//! Touying emits one `<pdfpc-file>` metadata value: a dictionary with
//! `pdfpcFormat: 2` and `pages`, an array of dictionaries
//! `(idx: 0, label: "1", overlay: 0, hidden: false, note: "...")`; `note` is
//! absent on pages without one, and `label` is a string.
//!
//! Consecutive pages with the same `label` are the overlays of one logical
//! slide; every page is one step, whose frame is the page's `idx`. A slide
//! takes the note of its first overlay. Hidden pages are kept as steps, so
//! that frame numbers stay the page numbers. Slides are numbered from 0 in
//! order of appearance.
use vstd::prelude::*;
use crate::cli::str_eq;
use crate::deck::{Deck, DeckMeta, FrameId, Slide, SlideIdx, Step, deck_error_text, first_violation, total_steps, slide_len};
use crate::diagnostic::{EngineError, validated};

verus! {

/// The pdfpc entry of one physical page.
#[derive(Debug, Clone)]
pub struct PdfpcPage {
    /// Physical page number (0-based, presentation order).
    pub idx: u32,
    /// Logical slide label; only its changes matter.
    pub label: String,
    /// Speaker note of the page, if any.
    pub note: Option<String>,
}

/// The shape of one logical slide: its frames and its note.
pub struct SlideShape {
    /// The frames of its steps, in order.
    pub frames: Seq<u32>,
    /// Its note.
    pub note: Option<Seq<char>>,
}

/// The characters of an optional string.
pub open spec fn opt_view(n: Option<String>) -> Option<Seq<char>> {
    match n {
        Some(s) => Some(s@),
        None => None,
    }
}

/// The slides of `pages`: a new slide where the label differs from the
/// previous page's, else one more step on the current slide.
pub open spec fn grouped(pages: Seq<PdfpcPage>) -> Seq<SlideShape>
    decreases pages.len(),
{
    if pages.len() == 0 {
        Seq::empty()
    } else {
        let prev = grouped(pages.drop_last());
        let p = pages.last();
        if pages.len() == 1 || p.label@ != pages[pages.len() - 2].label@ || prev.len() == 0 {
            prev.push(SlideShape { frames: seq![p.idx], note: opt_view(p.note) })
        } else {
            prev.update(
                prev.len() - 1,
                SlideShape { frames: prev.last().frames.push(p.idx), note: prev.last().note },
            )
        }
    }
}

/// The shape of a built slide.
pub open spec fn shape_of(s: Slide) -> SlideShape {
    SlideShape { frames: s.steps@.map_values(|st: Step| st.frame.0), note: opt_view(s.notes) }
}

/// `slides` are numbered by position and have the shapes `g`.
pub open spec fn slides_match(slides: Seq<Slide>, g: Seq<SlideShape>) -> bool {
    &&& slides.len() == g.len()
    &&& forall|k: int| 0 <= k < slides.len() ==> (#[trigger] slides[k]).index.0 == k && shape_of(slides[k]) == g[k]
}

/// Page `q` opens a new slide: it is the first page, or its label differs
/// from the label of the page before it.
pub open spec fn opens_slide(pages: Seq<PdfpcPage>, q: int) -> bool {
    q == 0 || pages[q].label@ != pages[q - 1].label@
}

/// The number of slides opened by the pages before position `p`.
pub open spec fn slides_opened(pages: Seq<PdfpcPage>, p: int) -> nat
    decreases p,
{
    if p <= 0 {
        0
    } else {
        slides_opened(pages, p - 1) + if opens_slide(pages, p - 1) {
            1nat
        } else {
            0nat
        }
    }
}

/// The page that opened the slide page `p` belongs to.
pub open spec fn opener(pages: Seq<PdfpcPage>, p: int) -> int
    decreases p,
{
    if p <= 0 || opens_slide(pages, p) {
        p
    } else {
        opener(pages, p - 1)
    }
}

proof fn lemma_prefix_counts(pages: Seq<PdfpcPage>, p: int)
    requires
        pages.len() > 0,
        0 <= p < pages.len(),
    ensures
        slides_opened(pages.drop_last(), p) == slides_opened(pages, p),
        p < pages.len() - 1 ==> opener(pages.drop_last(), p) == opener(pages, p),
        p < pages.len() - 1 ==> opens_slide(pages.drop_last(), p) == opens_slide(pages, p),
    decreases p,
{
    if p > 0 {
        lemma_prefix_counts(pages, p - 1);
    }
}

proof fn lemma_opener_bounds(pages: Seq<PdfpcPage>, p: int)
    requires
        0 <= p,
    ensures
        0 <= opener(pages, p) <= p,
        opens_slide(pages, opener(pages, p)),
        slides_opened(pages, p + 1) == slides_opened(pages, opener(pages, p) + 1),
    decreases p,
{
    if p > 0 && !opens_slide(pages, p) {
        lemma_opener_bounds(pages, p - 1);
    }
}

/// Page `p` is where `g` puts it: a step of the slide opened last at or
/// before `p`, at the position of `p` counted from the page that opened that
/// slide, which carries the note of that page.
pub open spec fn page_placed(pages: Seq<PdfpcPage>, g: Seq<SlideShape>, p: int) -> bool {
    let k = slides_opened(pages, p + 1) - 1;
    let j = p - opener(pages, p);
    &&& 0 <= k < g.len()
    &&& 0 <= j < g[k].frames.len()
    &&& g[k].frames[j] == pages[p].idx
    &&& g[k].note == opt_view(pages[opener(pages, p)].note)
}

/// Page `p` is step `j` of slide `k` as the pages open slides.
pub open spec fn page_at(pages: Seq<PdfpcPage>, k: int, j: int, p: int) -> bool {
    &&& 0 <= p < pages.len()
    &&& slides_opened(pages, p + 1) - 1 == k
    &&& p - opener(pages, p) == j
}

/// Step `j` of slide `k` comes from some page.
pub open spec fn from_page(pages: Seq<PdfpcPage>, k: int, j: int) -> bool {
    exists|p: int| #[trigger] page_at(pages, k, j, p)
}

proof fn lemma_page_at_kept(pages: Seq<PdfpcPage>, k: int, j: int, p: int)
    requires
        pages.len() > 1,
        page_at(pages.drop_last(), k, j, p),
    ensures
        page_at(pages, k, j, p),
{
    lemma_prefix_counts(pages, p);
    lemma_prefix_counts(pages, p + 1);
}

proof fn lemma_placed_kept(pages: Seq<PdfpcPage>, p: int)
    requires
        pages.len() > 1,
        0 <= p < pages.len() - 1,
        page_placed(pages.drop_last(), grouped(pages.drop_last()), p),
        grouped(pages) == grouped(pages.drop_last()).push(
            SlideShape { frames: seq![pages.last().idx], note: opt_view(pages.last().note) },
        ) || (grouped(pages.drop_last()).len() > 0 && grouped(pages) == grouped(pages.drop_last()).update(
            grouped(pages.drop_last()).len() - 1,
            SlideShape {
                frames: grouped(pages.drop_last()).last().frames.push(pages.last().idx),
                note: grouped(pages.drop_last()).last().note,
            },
        )),
    ensures
        page_placed(pages, grouped(pages), p),
{
    let pre = pages.drop_last();
    lemma_prefix_counts(pages, p);
    lemma_prefix_counts(pages, p + 1);
    lemma_opener_bounds(pages, p);
    assert(pre[p] == pages[p]);
    assert(pre[opener(pages, p)] == pages[opener(pages, p)]);
}

/// How the pages group into slides: there are as many slides as pages that
/// open one (the first page and each page whose label differs from the one
/// before); every page is placed as [`page_placed`] says, so that a slide
/// has the note of the page that opened it; every step of every slide is
/// some page placed there; and every slide has a step.
pub proof fn lemma_grouped_pages(pages: Seq<PdfpcPage>)
    ensures
        grouped(pages).len() == slides_opened(pages, pages.len() as int),
        pages.len() > 0 ==> grouped(pages).last().frames.len() == pages.len() - opener(
            pages,
            pages.len() - 1,
        ),
        forall|k: int| 0 <= k < grouped(pages).len() ==> (#[trigger] grouped(pages)[k]).frames.len() > 0,
        forall|p: int| 0 <= p < pages.len() ==> #[trigger] page_placed(pages, grouped(pages), p),
        forall|k: int, j: int|
            #![trigger from_page(pages, k, j)]
            0 <= k < grouped(pages).len() && 0 <= j < grouped(pages)[k].frames.len() ==> from_page(
                pages,
                k,
                j,
            ),
    decreases pages.len(),
{
    let n = pages.len() as int;
    if n > 0 {
        let pre = pages.drop_last();
        lemma_grouped_pages(pre);
        let prev = grouped(pre);
        let g = grouped(pages);
        let last = pages.last();
        lemma_opener_bounds(pages, n - 1);
        lemma_prefix_counts(pages, n - 1);
        if n > 1 {
            lemma_prefix_counts(pages, n - 2);
            lemma_opener_bounds(pages, n - 2);
            lemma_opener_bounds(pages, 0);
            lemma_slides_opened_mono(pages, 1, n - 1);
            assert(prev.len() > 0);
            assert(pages[n - 2] == pre[n - 2]);
        }
        if opens_slide(pages, n - 1) {
            assert(g == prev.push(SlideShape { frames: seq![last.idx], note: opt_view(last.note) }));
        } else {
            assert(g == prev.update(
                prev.len() - 1,
                SlideShape { frames: prev.last().frames.push(last.idx), note: prev.last().note },
            ));
            assert(page_placed(pre, prev, n - 2));
            assert(pre[opener(pre, n - 2)] == pages[opener(pages, n - 1)]);
        }
        assert forall|p: int| 0 <= p < n implies #[trigger] page_placed(pages, g, p) by {
            if p < n - 1 {
                assert(page_placed(pre, prev, p));
                lemma_placed_kept(pages, p);
            }
        }
        assert forall|k: int, j: int|
            #![trigger from_page(pages, k, j)]
            0 <= k < grouped(pages).len() && 0 <= j < grouped(pages)[k].frames.len() implies from_page(
                pages,
                k,
                j,
            ) by {
            if k < prev.len() && j < prev[k].frames.len() {
                assert(from_page(pre, k, j));
                let p = choose|p: int| #[trigger] page_at(pre, k, j, p);
                lemma_page_at_kept(pages, k, j, p);
                assert(page_at(pages, k, j, p));
            } else {
                if opens_slide(pages, n - 1) {
                    assert(k == prev.len() && j == 0);
                } else {
                    assert(k == prev.len() - 1 && j == prev.last().frames.len());
                }
                assert(page_at(pages, k, j, n - 1));
            }
        }
    } else {
        assert(grouped(pages) =~= Seq::<SlideShape>::empty());
    }
}

proof fn lemma_slides_opened_mono(pages: Seq<PdfpcPage>, p: int, q: int)
    requires
        0 <= p <= q,
    ensures
        slides_opened(pages, p) <= slides_opened(pages, q),
    decreases q - p,
{
    if p < q {
        lemma_slides_opened_mono(pages, p, q - 1);
    }
}

/// The slides built from `pages` follow them: each page is a step of the
/// slide opened last at or before it, that slide carries the note of the
/// page that opened it, and no step comes from anywhere else.
pub proof fn lemma_built_slides_follow_pages(pages: Seq<PdfpcPage>, slides: Seq<Slide>)
    requires
        slides_match(slides, grouped(pages)),
    ensures
        slides.len() == slides_opened(pages, pages.len() as int),
        forall|p: int|
            #![trigger pages[p]]
            0 <= p < pages.len() ==> {
                let k = slides_opened(pages, p + 1) - 1;
                let j = p - opener(pages, p);
                &&& 0 <= k < slides.len()
                &&& 0 <= j < slides[k].steps@.len()
                &&& slides[k].steps@[j].frame.0 == pages[p].idx
                &&& opt_view(slides[k].notes) == opt_view(pages[opener(pages, p)].note)
            },
        forall|k: int, j: int|
            #![trigger slides[k].steps@[j]]
            0 <= k < slides.len() && 0 <= j < slides[k].steps@.len() ==> from_page(pages, k, j),
{
    lemma_grouped_pages(pages);
    assert forall|k: int, j: int|
        #![trigger slides[k].steps@[j]]
        0 <= k < slides.len() && 0 <= j < slides[k].steps@.len() implies from_page(pages, k, j) by {
        assert(shape_of(slides[k]) == grouped(pages)[k]);
        assert(shape_of(slides[k]).frames.len() == slides[k].steps@.len());
    }
    assert forall|p: int|
        #![trigger pages[p]]
        0 <= p < pages.len() implies {
            let k = slides_opened(pages, p + 1) - 1;
            let j = p - opener(pages, p);
            &&& 0 <= k < slides.len()
            &&& 0 <= j < slides[k].steps@.len()
            &&& slides[k].steps@[j].frame.0 == pages[p].idx
            &&& opt_view(slides[k].notes) == opt_view(pages[opener(pages, p)].note)
        } by {
        assert(page_placed(pages, grouped(pages), p));
        let k = slides_opened(pages, p + 1) - 1;
        assert(shape_of(slides[k]) == grouped(pages)[k]);
    }
}

proof fn lemma_total_push(slides: Seq<Slide>, s: Slide)
    ensures
        total_steps(slides.push(s)) == total_steps(slides) + slide_len(s),
{
    assert(slides.push(s).drop_last() =~= slides);
}

/// Builds the deck of `pages` (see [`grouped`]) and checks it: a deck whose
/// frames are not `0, 1, 2, ...` fails with [`EngineError::Render`].
pub fn build(pages: &[PdfpcPage], meta: DeckMeta) -> (r: Result<Deck, EngineError>)
    requires
        pages@.len() < u32::MAX,
    ensures
        exists|slides: Seq<Slide>|
            #![trigger first_violation(slides)]
            slides_match(slides, grouped(pages@)) && match first_violation(slides) {
                Ok(()) => r matches Ok(d) && d.slides@ == slides && d.meta == meta,
                Err(e) => r matches Err(EngineError::Render(m)) && m@ == "deck invariant violated: "@
                    + deck_error_text(e),
            },
{
    let mut slides: Vec<Slide> = Vec::new();
    let n = pages.len();
    let mut i: usize = 0;
    proof {
        assert(pages@.take(0) =~= Seq::<PdfpcPage>::empty());
    }
    while i < n
        invariant
            n == pages@.len(),
            n < u32::MAX,
            i <= n,
            slides_match(slides@, grouped(pages@.take(i as int))),
            slides@.len() <= i,
            total_steps(slides@) == i,
            i > 0 ==> slides@.len() > 0,
        decreases n - i,
    {
        let page = &pages[i];
        let ghost g0 = grouped(pages@.take(i as int));
        proof {
            assert(pages@.take(i + 1).drop_last() =~= pages@.take(i as int));
            assert(pages@.take(i + 1).last() == *page);
            if i > 0 {
                assert(pages@.take(i + 1)[i - 1] == pages@[i - 1]);
            }
        }
        let new_group = i == 0 || !str_eq(pages[i - 1].label.as_str(), page.label.as_str());
        if new_group {
            let notes = match &page.note {
                Some(t) => Some(t.clone()),
                None => None,
            };
            let mut steps: Vec<Step> = Vec::new();
            steps.push(Step { frame: FrameId(page.idx) });
            let slide = Slide { index: SlideIdx(slides.len() as u32), steps, notes };
            let ghost before = slides@;
            slides.push(slide);
            proof {
                lemma_total_push(before, slide);
                assert(shape_of(slide).frames =~= seq![page.idx]);
                let g1 = grouped(pages@.take(i + 1));
                assert(g1 == g0.push(SlideShape { frames: seq![page.idx], note: opt_view(page.note) }));
                assert forall|k: int| 0 <= k < slides@.len() implies (#[trigger] slides@[k]).index.0 == k
                    && shape_of(slides@[k]) == g1[k] by {
                    if k < before.len() {
                        assert(slides@[k] == before[k]);
                    }
                }
            }
        } else {
            let ghost before = slides@;
            let mut last = slides.pop().unwrap();
            let ghost old_last = last;
            last.steps.push(Step { frame: FrameId(page.idx) });
            let ghost mid = slides@;
            slides.push(last);
            proof {
                assert(before.drop_last() =~= mid);
                assert(before.last() == old_last);
                lemma_total_push(mid, old_last);
                lemma_total_push(mid, last);
                assert(before =~= mid.push(old_last));
                assert(shape_of(last).frames =~= shape_of(old_last).frames.push(page.idx));
                let g1 = grouped(pages@.take(i + 1));
                assert(g1 == g0.update(
                    g0.len() - 1,
                    SlideShape { frames: g0.last().frames.push(page.idx), note: g0.last().note },
                ));
                assert forall|k: int| 0 <= k < slides@.len() implies (#[trigger] slides@[k]).index.0 == k
                    && shape_of(slides@[k]) == g1[k] by {
                    if k < mid.len() {
                        assert(slides@[k] == before[k]);
                    } else {
                        assert(before[k] == old_last);
                    }
                }
            }
        }
        i = i + 1;
    }
    proof {
        assert(pages@.take(n as int) =~= pages@);
    }
    let ghost built = slides@;
    let deck = Deck { meta, slides };
    validated(deck)
}

} // verus!

verus! {

/// A metadata value of the compiled document, holding what the pdfpc reader
/// looks at.
#[derive(Debug)]
pub enum MetaValue {
    /// An integer.
    Int(i64),
    /// A string.
    Str(String),
    /// An array.
    Array(Vec<MetaValue>),
    /// A dictionary, its entries in order; keys are distinct.
    Dict(Vec<(String, MetaValue)>),
    /// Any other value (boolean, none, content, ...).
    Other,
}

/// The value of `key` in the dictionary entries `es`.
pub open spec fn dict_get(es: Seq<(String, MetaValue)>, key: Seq<char>) -> Option<MetaValue>
    decreases es.len(),
{
    if es.len() == 0 {
        None
    } else if es[0].0@ == key {
        Some(es[0].1)
    } else {
        dict_get(es.drop_first(), key)
    }
}

/// What the reader keeps of one page entry.
pub struct PageView {
    /// The page number.
    pub idx: u32,
    /// The slide label.
    pub label: Seq<char>,
    /// The note.
    pub note: Option<Seq<char>>,
}

/// The view of a parsed page.
pub open spec fn page_view(p: PdfpcPage) -> PageView {
    PageView { idx: p.idx, label: p.label@, note: opt_view(p.note) }
}

/// The views of parsed pages.
pub open spec fn page_views(pages: Seq<PdfpcPage>) -> Seq<PageView> {
    pages.map_values(|p: PdfpcPage| page_view(p))
}

/// One page entry: a dictionary with an integer `idx` that fits `u32` and a
/// string `label`; `note` counts only when it is a string.
pub open spec fn page_entry(v: MetaValue) -> Option<PageView> {
    match v {
        MetaValue::Dict(es) => match (dict_get(es@, "idx"@), dict_get(es@, "label"@)) {
            (Some(MetaValue::Int(i)), Some(MetaValue::Str(l))) => if 0 <= i <= u32::MAX {
                Some(
                    PageView {
                        idx: i as u32,
                        label: l@,
                        note: match dict_get(es@, "note"@) {
                            Some(MetaValue::Str(n)) => Some(n@),
                            _ => None,
                        },
                    },
                )
            } else {
                None
            },
            _ => None,
        },
        _ => None,
    }
}

/// All page entries, or `None` if one is malformed.
pub open spec fn page_entries(items: Seq<MetaValue>) -> Option<Seq<PageView>>
    decreases items.len(),
{
    if items.len() == 0 {
        Some(Seq::empty())
    } else {
        match (page_entries(items.drop_last()), page_entry(items.last())) {
            (Some(ps), Some(p)) => Some(ps.push(p)),
            _ => None,
        }
    }
}

/// The pages of the `<pdfpc-file>` value, or why it does not follow the
/// schema.
pub open spec fn pdfpc_pages(v: MetaValue) -> Result<Seq<PageView>, Seq<char>> {
    match v {
        MetaValue::Dict(es) => if dict_get(es@, "pdfpcFormat"@) != Some(MetaValue::Int(2)) {
            Err("pdfpcFormat must be 2"@)
        } else {
            match dict_get(es@, "pages"@) {
                Some(MetaValue::Array(items)) => match page_entries(items@) {
                    Some(ps) => Ok(ps),
                    None => Err("each page needs an integer idx and a string label"@),
                },
                _ => Err("pages must be an array"@),
            }
        },
        _ => Err("the metadata must be a dictionary"@),
    }
}

/// The value of `key` among the entries of a dictionary.
pub fn lookup<'a>(es: &'a Vec<(String, MetaValue)>, key: &str) -> (r: Option<&'a MetaValue>)
    ensures
        match dict_get(es@, key@) {
            Some(v) => r matches Some(x) && *x == v,
            None => r is None,
        },
{
    let mut i: usize = 0;
    proof {
        assert(es@.skip(0) =~= es@);
    }
    while i < es.len()
        invariant
            i <= es@.len(),
            dict_get(es@, key@) == dict_get(es@.skip(i as int), key@),
        decreases es@.len() - i,
    {
        proof {
            assert(es@.skip(i as int).drop_first() =~= es@.skip(i + 1));
            assert(es@.skip(i as int)[0] == es@[i as int]);
        }
        if str_eq(es[i].0.as_str(), key) {
            return Some(&es[i].1);
        }
        i = i + 1;
    }
    None
}

fn read_page(v: &MetaValue) -> (r: Option<PdfpcPage>)
    ensures
        match page_entry(*v) {
            Some(pv) => r matches Some(p) && page_view(p) == pv,
            None => r is None,
        },
{
    match v {
        MetaValue::Dict(es) => {
            let idx = match lookup(es, "idx") {
                Some(MetaValue::Int(i)) => *i,
                _ => return None,
            };
            let label = match lookup(es, "label") {
                Some(MetaValue::Str(l)) => l.clone(),
                _ => return None,
            };
            if idx < 0 || idx > u32::MAX as i64 {
                return None;
            }
            let note = match lookup(es, "note") {
                Some(MetaValue::Str(n)) => Some(n.clone()),
                _ => None,
            };
            Some(PdfpcPage { idx: idx as u32, label, note })
        },
        _ => None,
    }
}

/// Reads the pages of the `<pdfpc-file>` value (see [`pdfpc_pages`]): every
/// page entry in order, or the reason the value does not follow the schema.
pub fn read_pages(v: &MetaValue) -> (r: Result<Vec<PdfpcPage>, String>)
    ensures
        match pdfpc_pages(*v) {
            Ok(ps) => r matches Ok(pages) && page_views(pages@) == ps,
            Err(m) => r matches Err(e) && e@ == m,
        },
{
    let es = match v {
        MetaValue::Dict(es) => es,
        _ => return Err(String::from_str("the metadata must be a dictionary")),
    };
    match lookup(es, "pdfpcFormat") {
        Some(MetaValue::Int(2)) => {},
        _ => return Err(String::from_str("pdfpcFormat must be 2")),
    }
    let items = match lookup(es, "pages") {
        Some(MetaValue::Array(items)) => items,
        _ => return Err(String::from_str("pages must be an array")),
    };
    let mut out: Vec<PdfpcPage> = Vec::new();
    let mut i: usize = 0;
    proof {
        assert(items@.take(0) =~= Seq::<MetaValue>::empty());
        assert(page_views(out@) =~= Seq::<PageView>::empty());
    }
    while i < items.len()
        invariant
            i <= items@.len(),
            page_entries(items@.take(i as int)) == Some(page_views(out@)),
            pdfpc_pages(*v) == match page_entries(items@) {
                Some(ps) => Ok(ps),
                None => Err::<Seq<PageView>, Seq<char>>("each page needs an integer idx and a string label"@),
            },
        decreases items@.len() - i,
    {
        proof {
            assert(items@.take(i + 1).drop_last() =~= items@.take(i as int));
            assert(items@.take(i + 1).last() == items@[i as int]);
        }
        match read_page(&items[i]) {
            Some(p) => {
                let ghost before = out@;
                out.push(p);
                proof {
                    assert(page_views(out@) =~= page_views(before).push(page_view(p)));
                }
            },
            None => {
                proof {
                    lemma_entries_none_extends(items@, i as int);
                }
                return Err(String::from_str("each page needs an integer idx and a string label"));
            },
        }
        i = i + 1;
    }
    proof {
        assert(items@.take(items@.len() as int) =~= items@);
    }
    Ok(out)
}

proof fn lemma_entries_none_extends(items: Seq<MetaValue>, i: int)
    requires
        0 <= i < items.len(),
        page_entry(items[i]) is None,
    ensures
        page_entries(items) is None,
    decreases items.len(),
{
    if i < items.len() - 1 {
        lemma_entries_none_extends(items.drop_last(), i);
    }
}

/// The deck of the `<pdfpc-file>` metadata value `meta_value` (`None` when
/// the document has none): a missing value is [`EngineError::PdfpcMissing`],
/// one that does not follow the schema [`EngineError::PdfpcSchema`] with the
/// reason, and otherwise the deck is built from its pages (see [`build`]).
pub fn pdfpc_deck(meta_value: Option<&MetaValue>, meta: DeckMeta) -> (r: Result<Deck, EngineError>)
    requires
        meta_value matches Some(v) ==> (pdfpc_pages(*v) matches Ok(ps) ==> ps.len() < u32::MAX),
    ensures
        match meta_value {
            None => r == Err::<Deck, EngineError>(EngineError::PdfpcMissing),
            Some(v) => match pdfpc_pages(*v) {
                Err(m) => r matches Err(EngineError::PdfpcSchema(e)) && e@ == m,
                Ok(ps) => exists|pages: Seq<PdfpcPage>, slides: Seq<Slide>|
                    #![trigger first_violation(slides), page_views(pages)]
                    page_views(pages) == ps && slides_match(slides, grouped(pages))
                        && match first_violation(slides) {
                        Ok(()) => r matches Ok(d) && d.slides@ == slides && d.meta == meta,
                        Err(e) => r matches Err(EngineError::Render(m)) && m@ == "deck invariant violated: "@
                            + deck_error_text(e),
                    },
            },
        },
{
    let v = match meta_value {
        Some(v) => v,
        None => return Err(EngineError::PdfpcMissing),
    };
    match read_pages(v) {
        Err(m) => Err(EngineError::PdfpcSchema(m)),
        Ok(pages) => {
            proof {
                assert(page_views(pages@).len() == pages@.len());
            }
            let sl = pages.as_slice();
            let r = build(sl, meta);
            proof {
                assert(sl@ == pages@);
            }
            r
        },
    }
}

} // verus!
