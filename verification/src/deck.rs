//! The logical slide deck: slides, overlay steps and frame navigation.
//!
//! A [`Deck`] is a list of slides; each slide expands into one or more overlay
//! steps and each step is exactly one rendered page (a frame). A well-formed
//! deck satisfies three invariants, checked by [`Deck::validate`]:
//!
//! - I1: `slides[i].index == SlideIdx(i)`;
//! - I2: every slide has at least one step;
//! - I3: listing all steps in presentation order, the `n`-th step has frame `n`.
//!
//! The empty deck is allowed; navigation on it always answers `None`. No
//! navigation function panics: out-of-range arguments give `None`.
use vstd::prelude::*;
use crate::text::{dec_chars, push_dec_chars};

verus! {

/// Zero-based page number in presentation order.
#[derive(Debug, Clone, Copy, PartialEq, Eq, PartialOrd, Ord, Hash, Structural)]
pub struct FrameId(pub u32);

/// Zero-based logical slide number.
#[derive(Debug, Clone, Copy, PartialEq, Eq, PartialOrd, Ord, Hash, Structural)]
pub struct SlideIdx(pub u32);

/// One overlay state inside a slide; it corresponds to exactly one page.
#[derive(Debug, Clone, Copy, PartialEq, Eq, Structural)]
pub struct Step {
    /// Page number in presentation order.
    pub frame: FrameId,
}

/// A logical slide, expanded into one or more overlay steps.
#[derive(Debug, Clone)]
pub struct Slide {
    /// Logical slide number; equal to the slide's position (I1).
    pub index: SlideIdx,
    /// Overlay steps; never empty in a valid deck (I2).
    pub steps: Vec<Step>,
    /// Speaker notes of the slide.
    pub notes: Option<String>,
}

/// Page size in points, each dimension held as the bit pattern of an IEEE-754
/// single-precision number (`f32::to_bits`). The deck logic never computes
/// with it; renderers decode it.
#[derive(Debug, Clone, Copy, PartialEq, Eq, Structural)]
pub struct SizePt {
    /// Width in points, as `f32` bits.
    pub w_bits: u32,
    /// Height in points, as `f32` bits.
    pub h_bits: u32,
}

/// Deck-wide metadata.
#[derive(Debug, Clone)]
pub struct DeckMeta {
    /// Optional title.
    pub title: Option<String>,
    /// Page size in points.
    pub page_pt: SizePt,
}

/// A compiled deck: logical structure only (no pixels, no protocol).
#[derive(Debug, Clone)]
pub struct Deck {
    /// Deck metadata.
    pub meta: DeckMeta,
    /// Logical slides in order.
    pub slides: Vec<Slide>,
}

/// Violation reported by [`Deck::validate`].
#[allow(inconsistent_fields)]
#[derive(Debug, Clone, Copy, PartialEq, Eq)]
pub enum DeckError {
    /// A slide's index differs from its position (I1).
    SlideIndexMismatch {
        /// Position of the slide.
        at: usize,
        /// Index stored in the slide.
        found: SlideIdx,
    },
    /// A slide has no steps (I2).
    EmptySteps {
        /// Index of the slide.
        slide: SlideIdx,
    },
    /// A step's frame is not the next number in presentation order (I3).
    FrameSequence {
        /// The frame that was expected.
        expected: FrameId,
        /// The frame that was found.
        found: FrameId,
    },
}

/// Number of steps of a slide.
pub open spec fn slide_len(s: Slide) -> nat {
    s.steps@.len()
}

/// Total number of steps of `slides`.
pub open spec fn total_steps(slides: Seq<Slide>) -> nat
    decreases slides.len(),
{
    if slides.len() == 0 {
        0
    } else {
        total_steps(slides.drop_last()) + slide_len(slides.last())
    }
}

/// First frame of slide `i` in a valid deck: the number of steps before it.
pub open spec fn steps_before(slides: Seq<Slide>, i: int) -> nat {
    total_steps(slides.take(i))
}

/// The deck satisfies the invariants I1, I2 and I3.
pub open spec fn valid_slides(slides: Seq<Slide>) -> bool {
    forall|i: int|
        0 <= i < slides.len() ==> {
            &&& (#[trigger] slides[i]).index.0 == i
            &&& slide_len(slides[i]) > 0
            &&& forall|j: int|
                0 <= j < slide_len(slides[i]) ==> (#[trigger] slides[i].steps@[j]).frame.0
                    == steps_before(slides, i) + j
        }
}

/// Index of the first step of `steps` whose frame is not `next + j`, if any.
pub open spec fn first_bad_step(steps: Seq<Step>, next: int) -> Option<int>
    decreases steps.len(),
{
    if steps.len() == 0 {
        None
    } else if steps[0].frame.0 != next {
        Some(0)
    } else {
        match first_bad_step(steps.drop_first(), next + 1) {
            Some(j) => Some(j + 1),
            None => None,
        }
    }
}

/// The first invariant violation met when scanning slides from position `i`
/// (expecting frame `next` next), checking I1, then I2, then I3 on each slide
/// before moving to the next one.
pub open spec fn first_violation_from(slides: Seq<Slide>, i: int, next: int) -> Result<
    (),
    DeckError,
>
    decreases slides.len() - i,
{
    if i < 0 || i >= slides.len() {
        Ok(())
    } else if slides[i].index.0 != i {
        Err(DeckError::SlideIndexMismatch { at: i as usize, found: slides[i].index })
    } else if slide_len(slides[i]) == 0 {
        Err(DeckError::EmptySteps { slide: slides[i].index })
    } else {
        match first_bad_step(slides[i].steps@, next) {
            Some(j) => Err(
                DeckError::FrameSequence {
                    expected: FrameId((next + j) as u32),
                    found: slides[i].steps@[j].frame,
                },
            ),
            None => first_violation_from(slides, i + 1, next + slide_len(slides[i])),
        }
    }
}

/// What [`Deck::validate`] answers for `slides`.
pub open spec fn first_violation(slides: Seq<Slide>) -> Result<(), DeckError> {
    first_violation_from(slides, 0, 0)
}

/// The slide that holds the `f`-th step in presentation order.
pub open spec fn slide_at(slides: Seq<Slide>, f: int) -> Option<SlideIdx>
    decreases slides.len(),
{
    if slides.len() == 0 || f < 0 || f >= total_steps(slides) {
        None
    } else if f >= total_steps(slides.drop_last()) {
        Some(slides.last().index)
    } else {
        slide_at(slides.drop_last(), f)
    }
}

/// First frame of slide number `s`, if that slide exists and has a step.
pub open spec fn first_frame_of(slides: Seq<Slide>, s: int) -> Option<FrameId> {
    if 0 <= s < slides.len() && slide_len(slides[s]) > 0 {
        Some(slides[s].steps@[0].frame)
    } else {
        None
    }
}

/// The frame after `f` in a deck of `total` frames, if any.
pub open spec fn advance_frame(total: nat, f: FrameId) -> Option<FrameId> {
    if f.0 + 1 < total {
        Some(FrameId((f.0 + 1) as u32))
    } else {
        None
    }
}

/// The frame before `f` in a deck of `total` frames, if `f` is in the deck
/// and not the first.
pub open spec fn retreat_frame(total: nat, f: FrameId) -> Option<FrameId> {
    if f.0 > 0 && f.0 < total {
        Some(FrameId((f.0 - 1) as u32))
    } else {
        None
    }
}

/// Stepping back undoes stepping forward: whenever a frame has a next
/// frame, the frame before that one is the frame itself; and whenever a
/// frame has a previous frame, the frame after that one is the frame itself.
/// (Frame numbers are `u32`, so the deck holds at most `u32::MAX` frames.)
pub proof fn lemma_retreat_undoes_advance(total: nat, f: FrameId)
    requires
        total <= u32::MAX,
    ensures
        advance_frame(total, f) matches Some(g) ==> retreat_frame(total, g) == Some(f),
        retreat_frame(total, f) matches Some(g) ==> advance_frame(total, g) == Some(f),
{
}

/// The first frame of the slide after the one holding frame `f`.
pub open spec fn next_slide_frame(slides: Seq<Slide>, f: int) -> Option<FrameId> {
    match slide_at(slides, f) {
        Some(s) => if s.0 < u32::MAX {
            first_frame_of(slides, s.0 + 1)
        } else {
            None
        },
        None => None,
    }
}

/// The first frame of the slide before the one holding frame `f`.
pub open spec fn prev_slide_frame(slides: Seq<Slide>, f: int) -> Option<FrameId> {
    match slide_at(slides, f) {
        Some(s) => if s.0 == 0 {
            None
        } else {
            first_frame_of(slides, s.0 - 1)
        },
        None => None,
    }
}

/// The text of a deck error.
pub open spec fn deck_error_text(e: DeckError) -> Seq<char> {
    match e {
        DeckError::SlideIndexMismatch { at, found } => "slide at position "@ + dec_chars(at as nat)
            + " has index "@ + dec_chars(found.0 as nat) + " (expected "@ + dec_chars(at as nat) + ")"@,
        DeckError::EmptySteps { slide } => "slide "@ + dec_chars(slide.0 as nat) + " has no steps"@,
        DeckError::FrameSequence { expected, found } => "frame sequence broken: expected FrameId("@
            + dec_chars(expected.0 as nat) + "), found FrameId("@ + dec_chars(found.0 as nat) + ")"@,
    }
}

impl DeckError {
    /// A sentence that says which invariant is broken and where.
    pub fn message(&self) -> (s: String)
        ensures
            s@ == deck_error_text(*self),
    {
        match self {
            DeckError::SlideIndexMismatch { at, found } => {
                let mut s = String::from_str("slide at position ");
                push_dec_chars(&mut s, *at as u64);
                s.append(" has index ");
                push_dec_chars(&mut s, found.0 as u64);
                s.append(" (expected ");
                push_dec_chars(&mut s, *at as u64);
                s.append(")");
                s
            },
            DeckError::EmptySteps { slide } => {
                let mut s = String::from_str("slide ");
                push_dec_chars(&mut s, slide.0 as u64);
                s.append(" has no steps");
                s
            },
            DeckError::FrameSequence { expected, found } => {
                let mut s = String::from_str("frame sequence broken: expected FrameId(");
                push_dec_chars(&mut s, expected.0 as u64);
                s.append("), found FrameId(");
                push_dec_chars(&mut s, found.0 as u64);
                s.append(")");
                s
            },
        }
    }
}

impl Deck {
    /// Total number of steps of the deck.
    pub open spec fn total(&self) -> nat {
        total_steps(self.slides@)
    }

    /// Every frame number of the deck fits in a `u32`, with room for one more.
    pub open spec fn addressable(&self) -> bool {
        self.total() < u32::MAX
    }

    /// The deck satisfies I1, I2 and I3.
    pub open spec fn valid(&self) -> bool {
        valid_slides(self.slides@)
    }

    /// Checks the invariants I1 to I3; the first violation in scan order is
    /// reported. The empty deck is valid.
    pub fn validate(&self) -> (r: Result<(), DeckError>)
        requires
            self.addressable(),
        ensures
            r == first_violation(self.slides@),
            r is Ok <==> self.valid(),
    {
        proof {
            lemma_violation_iff_valid(self.slides@, 0);
            assert(self.slides@.take(0) =~= Seq::<Slide>::empty());
        }
        let mut next_frame: u32 = 0;
        let mut i: usize = 0;
        let n = self.slides.len();
        while i < n
            invariant
                n == self.slides@.len(),
                0 <= i <= n,
                next_frame == steps_before(self.slides@, i as int),
                total_steps(self.slides@) < u32::MAX,
                first_violation(self.slides@) == first_violation_from(
                    self.slides@,
                    i as int,
                    next_frame as int,
                ),
            decreases n - i,
        {
            let slide = &self.slides[i];
            proof {
                lemma_steps_before_step(self.slides@, i as int);
                lemma_steps_before_le_total(self.slides@, i as int + 1);
            }
            if slide.index.0 as usize != i {
                return Err(DeckError::SlideIndexMismatch { at: i, found: slide.index });
            }
            if slide.steps.len() == 0 {
                return Err(DeckError::EmptySteps { slide: slide.index });
            }
            let m = slide.steps.len();
            let mut j: usize = 0;
            proof {
                assert(slide.steps@.skip(0) =~= slide.steps@);
                assert(shift_bad(first_bad_step(slide.steps@, next_frame as int), 0)
                    == first_bad_step(slide.steps@, next_frame as int));
            }
            while j < m
                invariant
                    slide == self.slides@[i as int],
                    n == self.slides@.len(),
                    0 <= i < n,
                    slide.index.0 == i,
                    m > 0,
                    first_violation(self.slides@) == first_violation_from(
                        self.slides@,
                        i as int,
                        steps_before(self.slides@, i as int) as int,
                    ),
                    m == slide.steps@.len(),
                    0 <= j <= m,
                    next_frame == steps_before(self.slides@, i as int) + j,
                    steps_before(self.slides@, i as int) + m <= total_steps(self.slides@),
                    total_steps(self.slides@) < u32::MAX,
                    first_bad_step(slide.steps@, steps_before(self.slides@, i as int) as int)
                        == shift_bad(first_bad_step(slide.steps@.skip(j as int), next_frame as int), j as int),
                    forall|k: int|
                        0 <= k < j ==> (#[trigger] slide.steps@[k]).frame.0 == steps_before(
                            self.slides@,
                            i as int,
                        ) + k,
                decreases m - j,
            {
                let step = slide.steps[j];
                proof {
                    lemma_first_bad_skip(slide.steps@, j as int, next_frame as int);
                }
                if step.frame.0 != next_frame {
                    return Err(
                        DeckError::FrameSequence { expected: FrameId(next_frame), found: step.frame },
                    );
                }
                next_frame = next_frame + 1;
                j = j + 1;
            }
            proof {
                assert(slide.steps@.skip(m as int) =~= Seq::<Step>::empty());
                assert(first_bad_step(slide.steps@.skip(m as int), next_frame as int) is None);
            }
            i = i + 1;
        }
        Ok(())
    }

    /// Total number of frames (steps) of the deck.
    pub fn frame_count(&self) -> (r: usize)
        requires
            self.addressable(),
        ensures
            r == self.total(),
    {
        let mut acc: usize = 0;
        let mut i: usize = 0;
        let n = self.slides.len();
        while i < n
            invariant
                n == self.slides@.len(),
                0 <= i <= n,
                acc == steps_before(self.slides@, i as int),
                total_steps(self.slides@) < u32::MAX,
            decreases n - i,
        {
            proof {
                lemma_steps_before_step(self.slides@, i as int);
                lemma_steps_before_le_total(self.slides@, i as int + 1);
            }
            acc = acc + self.slides[i].steps.len();
            i = i + 1;
        }
        proof {
            assert(self.slides@.take(n as int) =~= self.slides@);
        }
        acc
    }

    /// Whether every frame number fits in a `u32` with room for one more
    /// (see [`Deck::addressable`]), which the deck queries need.
    pub fn is_addressable(&self) -> (r: bool)
        ensures
            r == self.addressable(),
    {
        let mut acc: usize = 0;
        let mut i: usize = 0;
        let n = self.slides.len();
        while i < n
            invariant
                n == self.slides@.len(),
                0 <= i <= n,
                acc == steps_before(self.slides@, i as int),
                acc < u32::MAX,
            decreases n - i,
        {
            proof {
                lemma_steps_before_step(self.slides@, i as int);
            }
            let len = self.slides[i].steps.len();
            if len >= (u32::MAX as usize) - acc {
                proof {
                    lemma_steps_before_le_total(self.slides@, i as int + 1);
                }
                return false;
            }
            acc = acc + len;
            i = i + 1;
        }
        proof {
            assert(self.slides@.take(n as int) =~= self.slides@);
        }
        true
    }

    /// The slide holding `frame`; `None` when `frame` is past the last step.
    pub fn slide_of(&self, frame: FrameId) -> (r: Option<SlideIdx>)
        requires
            self.addressable(),
        ensures
            r == slide_at(self.slides@, frame.0 as int),
    {
        let target = frame.0 as usize;
        let mut acc: usize = 0;
        let mut i: usize = 0;
        let n = self.slides.len();
        while i < n
            invariant
                n == self.slides@.len(),
                0 <= i <= n,
                acc == steps_before(self.slides@, i as int),
                acc <= target,
                target == frame.0,
                total_steps(self.slides@) < u32::MAX,
            decreases n - i,
        {
            proof {
                lemma_steps_before_step(self.slides@, i as int);
                lemma_steps_before_le_total(self.slides@, i as int + 1);
            }
            let next = acc + self.slides[i].steps.len();
            if target < next {
                proof {
                    lemma_slide_at_position(self.slides@, i as int, target as int);
                }
                return Some(self.slides[i].index);
            }
            acc = next;
            i = i + 1;
        }
        proof {
            assert(self.slides@.take(n as int) =~= self.slides@);
        }
        None
    }

    /// First frame of `slide`; `None` when the slide does not exist or has no
    /// step.
    pub fn slide_first_frame(&self, slide: SlideIdx) -> (r: Option<FrameId>)
        ensures
            r == first_frame_of(self.slides@, slide.0 as int),
    {
        let idx = slide.0 as usize;
        if idx < self.slides.len() {
            let s = &self.slides[idx];
            if s.steps.len() > 0 {
                Some(s.steps[0].frame)
            } else {
                None
            }
        } else {
            None
        }
    }

    /// One frame forward: `None` at the last frame or out of range.
    pub fn advance(&self, frame: FrameId) -> (r: Option<FrameId>)
        requires
            self.addressable(),
        ensures
            r == advance_frame(self.total(), frame),
    {
        let total = self.frame_count();
        let cur = frame.0 as usize;
        if total > 0 && cur < total - 1 {
            Some(FrameId(frame.0 + 1))
        } else {
            None
        }
    }

    /// One frame back: `None` at the first frame or out of range.
    pub fn retreat(&self, frame: FrameId) -> (r: Option<FrameId>)
        requires
            self.addressable(),
        ensures
            r == retreat_frame(self.total(), frame),
    {
        if frame.0 == 0 {
            return None;
        }
        let total = self.frame_count();
        if (frame.0 as usize) >= total {
            return None;
        }
        Some(FrameId(frame.0 - 1))
    }

    /// First frame of the slide after the one holding `frame`; `None` within
    /// the last slide or out of range.
    pub fn next_slide(&self, frame: FrameId) -> (r: Option<FrameId>)
        requires
            self.addressable(),
        ensures
            r == next_slide_frame(self.slides@, frame.0 as int),
    {
        let cur = match self.slide_of(frame) {
            Some(c) => c,
            None => return None,
        };
        let next = match cur.0.checked_add(1) {
            Some(n) => n,
            None => return None,
        };
        self.slide_first_frame(SlideIdx(next))
    }

    /// First frame of the slide before the one holding `frame`; `None` within
    /// the first slide or out of range.
    pub fn prev_slide(&self, frame: FrameId) -> (r: Option<FrameId>)
        requires
            self.addressable(),
        ensures
            r == prev_slide_frame(self.slides@, frame.0 as int),
    {
        let cur = match self.slide_of(frame) {
            Some(c) => c,
            None => return None,
        };
        if cur.0 == 0 {
            return None;
        }
        self.slide_first_frame(SlideIdx(cur.0 - 1))
    }
}

/// Shifts an index found in a suffix starting at `j` back to the whole sequence.
pub open spec fn shift_bad(r: Option<int>, j: int) -> Option<int> {
    match r {
        Some(k) => Some(k + j),
        None => None,
    }
}

/// Slides from position `i` on satisfy I1 to I3 (with I3 relative to the whole
/// deck).
pub open spec fn valid_from(slides: Seq<Slide>, i: int) -> bool {
    forall|k: int|
        i <= k < slides.len() ==> {
            &&& (#[trigger] slides[k]).index.0 == k
            &&& slide_len(slides[k]) > 0
            &&& forall|j: int|
                0 <= j < slide_len(slides[k]) ==> (#[trigger] slides[k].steps@[j]).frame.0
                    == steps_before(slides, k) + j
        }
}

/// The first frame of the next slide is this slide's first frame plus its
/// number of steps.
pub proof fn lemma_steps_before_step(slides: Seq<Slide>, i: int)
    requires
        0 <= i < slides.len(),
    ensures
        steps_before(slides, i + 1) == steps_before(slides, i) + slide_len(slides[i]),
{
    assert(slides.take(i + 1).drop_last() =~= slides.take(i));
}

/// No slide starts after the last frame.
pub proof fn lemma_steps_before_le_total(slides: Seq<Slide>, i: int)
    requires
        0 <= i <= slides.len(),
    ensures
        steps_before(slides, i) <= total_steps(slides),
    decreases slides.len() - i,
{
    if i == slides.len() {
        assert(slides.take(i) =~= slides);
    } else {
        lemma_steps_before_step(slides, i);
        lemma_steps_before_le_total(slides, i + 1);
    }
}

proof fn lemma_first_bad_none(steps: Seq<Step>, next: int)
    ensures
        first_bad_step(steps, next) is None <==> forall|j: int|
            0 <= j < steps.len() ==> (#[trigger] steps[j]).frame.0 == next + j,
    decreases steps.len(),
{
    if steps.len() > 0 {
        lemma_first_bad_none(steps.drop_first(), next + 1);
        if first_bad_step(steps, next) is None {
            assert forall|j: int| 0 <= j < steps.len() implies (#[trigger] steps[j]).frame.0
                == next + j by {
                if j > 0 {
                    assert(steps[j] == steps.drop_first()[j - 1]);
                }
            }
        } else if steps[0].frame.0 == next {
            let k = choose|k: int|
                0 <= k < steps.drop_first().len() && (#[trigger] steps.drop_first()[k]).frame.0
                    != next + 1 + k;
            assert(steps[k + 1] == steps.drop_first()[k]);
        }
    }
}

proof fn lemma_violation_iff_valid(slides: Seq<Slide>, i: int)
    requires
        0 <= i <= slides.len(),
    ensures
        first_violation_from(slides, i, steps_before(slides, i) as int) is Ok <==> valid_from(
            slides,
            i,
        ),
    decreases slides.len() - i,
{
    if i < slides.len() {
        lemma_violation_iff_valid(slides, i + 1);
        lemma_steps_before_step(slides, i);
        lemma_first_bad_none(slides[i].steps@, steps_before(slides, i) as int);
        if valid_from(slides, i) {
            assert(valid_from(slides, i + 1));
        } else if valid_from(slides, i + 1) {
            assert(!({
                &&& slides[i].index.0 == i
                &&& slide_len(slides[i]) > 0
                &&& forall|j: int|
                    0 <= j < slide_len(slides[i]) ==> (#[trigger] slides[i].steps@[j]).frame.0
                        == steps_before(slides, i) + j
            }));
        }
    }
}

proof fn lemma_first_bad_skip(steps: Seq<Step>, j: int, next: int)
    requires
        0 <= j < steps.len(),
    ensures
        first_bad_step(steps.skip(j), next) == (if steps[j].frame.0 != next {
            Some(0int)
        } else {
            shift_bad(first_bad_step(steps.skip(j + 1), next + 1), 1)
        }),
{
    assert(steps.skip(j).drop_first() =~= steps.skip(j + 1));
}

proof fn lemma_slide_at_position(slides: Seq<Slide>, i: int, f: int)
    requires
        0 <= i < slides.len(),
        steps_before(slides, i) <= f < steps_before(slides, i + 1),
    ensures
        slide_at(slides, f) == Some(slides[i].index),
    decreases slides.len(),
{
    let n = slides.len();
    lemma_steps_before_step(slides, i);
    lemma_steps_before_le_total(slides, i + 1);
    let pre = slides.drop_last();
    assert(slides.take(n - 1) =~= pre);
    if i == n - 1 {
        assert(f >= total_steps(pre));
        assert(slides.take(n as int) =~= slides);
    } else {
        lemma_steps_before_le_total(slides, i + 1);
        assert(pre.take(i) =~= slides.take(i));
        assert(pre.take(i + 1) =~= slides.take(i + 1));
        lemma_steps_before_le_total(pre, i + 1);
        lemma_slide_at_position(pre, i, f);
        assert(pre[i] == slides[i]);
    }
}

proof fn lemma_steps_before_prefix(slides: Seq<Slide>, i: int)
    requires
        0 <= i < slides.len(),
    ensures
        steps_before(slides.drop_last(), i) == steps_before(slides, i),
{
    assert(slides.drop_last().take(i) =~= slides.take(i));
}

proof fn lemma_locate(slides: Seq<Slide>, f: int) -> (i: int)
    requires
        0 <= f < total_steps(slides),
    ensures
        0 <= i < slides.len(),
        steps_before(slides, i) <= f < steps_before(slides, i + 1),
    decreases slides.len(),
{
    let n = slides.len();
    let pre = slides.drop_last();
    assert(slides.take(n - 1) =~= pre);
    assert(slides.take(n as int) =~= slides);
    if f >= total_steps(pre) {
        n - 1
    } else {
        let i = lemma_locate(pre, f);
        lemma_steps_before_prefix(slides, i);
        if i + 1 < n {
            lemma_steps_before_prefix(slides, i + 1);
        }
        i
    }
}

/// In a valid deck every frame `f` of the deck lies in exactly one slide
/// `i`: the frames of slide `i` are `steps_before(i)` up to
/// `steps_before(i + 1)`, the slide holding `f` is `SlideIdx(i)` and its
/// first frame is `steps_before(i)`.
pub proof fn lemma_frame_in_slide(slides: Seq<Slide>, f: int) -> (i: int)
    requires
        valid_slides(slides),
        0 <= f < total_steps(slides),
    ensures
        0 <= i < slides.len(),
        steps_before(slides, i) <= f < steps_before(slides, i + 1),
        steps_before(slides, i + 1) == steps_before(slides, i) + slide_len(slides[i]),
        slide_at(slides, f) == Some(SlideIdx(i as u32)),
        slides[i].index == SlideIdx(i as u32),
        first_frame_of(slides, i) == Some(FrameId(steps_before(slides, i) as u32)),
        steps_before(slides, i + 1) <= total_steps(slides),
{
    let i = lemma_locate(slides, f);
    lemma_slide_at_position(slides, i, f);
    lemma_steps_before_step(slides, i);
    lemma_steps_before_le_total(slides, i + 1);
    assert(slides[i].index.0 == i);
    assert(slides[i].steps@[0].frame.0 == steps_before(slides, i) + 0);
    i
}

/// Going back one slide lands on the first frame of the slide just before
/// the one holding `f`: that frame lies in slide `s - 1` and the frame before
/// it (if any) does not. From the first slide there is no previous slide.
pub proof fn lemma_prev_slide_target(slides: Seq<Slide>, f: int)
    requires
        valid_slides(slides),
        0 <= f < total_steps(slides),
    ensures
        slide_at(slides, f) is Some,
        slide_at(slides, f).unwrap().0 == 0 <==> prev_slide_frame(slides, f) is None,
        prev_slide_frame(slides, f) matches Some(g) ==> {
            &&& slide_at(slides, g.0 as int) == Some(SlideIdx((slide_at(slides, f).unwrap().0 - 1) as u32))
            &&& (g.0 == 0 || slide_at(slides, g.0 - 1) != slide_at(slides, g.0 as int))
        },
{
    let i = lemma_frame_in_slide(slides, f);
    if i > 0 {
        let p = i - 1;
        assert(slides[p].index.0 == p);
        assert(slide_len(slides[p]) > 0);
        assert(slides[p].steps@[0].frame.0 == steps_before(slides, p) + 0);
        lemma_steps_before_step(slides, p);
        let g = steps_before(slides, p) as int;
        lemma_slide_at_position(slides, p, g);
        if p > 0 {
            assert(slides[p - 1].index.0 == p - 1);
            assert(slide_len(slides[p - 1]) > 0);
            lemma_steps_before_step(slides, p - 1);
            lemma_slide_at_position(slides, p - 1, g - 1);
        } else {
            assert(slides.take(0) =~= Seq::<Slide>::empty());
        }
    }
}

/// Going forward one slide lands on the first frame of the slide just after
/// the one holding `f`: that frame lies in slide `s + 1` and the frame before
/// it lies in slide `s`. From the last slide there is no next slide.
pub proof fn lemma_next_slide_target(slides: Seq<Slide>, f: int)
    requires
        valid_slides(slides),
        0 <= f < total_steps(slides),
    ensures
        slide_at(slides, f) is Some,
        slide_at(slides, f).unwrap().0 + 1 == slides.len() <==> next_slide_frame(slides, f) is None,
        next_slide_frame(slides, f) matches Some(g) ==> {
            &&& slide_at(slides, g.0 as int) == Some(SlideIdx((slide_at(slides, f).unwrap().0 + 1) as u32))
            &&& slide_at(slides, g.0 - 1) == slide_at(slides, f)
        },
{
    let i = lemma_frame_in_slide(slides, f);
    if i + 1 < slides.len() {
        let q = i + 1;
        assert(slides[q].index.0 == q);
        assert(slide_len(slides[q]) > 0);
        assert(slides[q].steps@[0].frame.0 == steps_before(slides, q) + 0);
        lemma_steps_before_step(slides, q);
        let g = steps_before(slides, q) as int;
        lemma_slide_at_position(slides, q, g);
        lemma_slide_at_position(slides, i, g - 1);
    }
}

/// A frame outside the deck has neither a previous nor a next slide.
pub proof fn lemma_slide_jump_outside(slides: Seq<Slide>, f: int)
    requires
        !(0 <= f < total_steps(slides)),
    ensures
        prev_slide_frame(slides, f) is None,
        next_slide_frame(slides, f) is None,
{
}

/// The first frames of the slides grow with the slide number.
pub proof fn lemma_steps_before_mono(slides: Seq<Slide>, i: int, j: int)
    requires
        0 <= i <= j <= slides.len(),
    ensures
        steps_before(slides, i) <= steps_before(slides, j),
    decreases j - i,
{
    if i < j {
        lemma_steps_before_step(slides, j - 1);
        lemma_steps_before_mono(slides, i, j - 1);
    }
}

} // verus!
