//! A small LRU cache of rasterised frames, bounded in bytes.
//!
//! The key is the frame id together with the pixel size it was rasterised
//! at, so a new viewport size misses and old sizes age out. Entries are kept
//! oldest first; a hit moves its entry to the end. The capacity counts bytes,
//! and one entry is always kept even when it alone exceeds the capacity.
use vstd::prelude::*;
use crate::deck::FrameId;
use crate::geometry::Viewport;
use crate::pixel::Frame;

verus! {

/// A cache key: a frame and the pixel size it was rasterised at.
#[derive(Debug, Clone, Copy, PartialEq, Eq, Structural)]
pub struct Key {
    /// The frame.
    pub id: FrameId,
    /// Width in pixels.
    pub w: u32,
    /// Height in pixels.
    pub h: u32,
}

/// Byte size of a cached frame.
pub open spec fn frame_bytes(f: Frame) -> nat {
    f.image@.len()
}

/// Total byte size of the entries.
pub open spec fn total_bytes(es: Seq<(Key, Frame)>) -> nat
    decreases es.len(),
{
    if es.len() == 0 {
        0
    } else {
        frame_bytes(es[0].1) + total_bytes(es.drop_first())
    }
}

/// The position of `key` in the entries, or `-1`.
pub open spec fn key_pos(es: Seq<(Key, Frame)>, key: Key) -> int
    decreases es.len(),
{
    if es.len() == 0 {
        -1
    } else if es[0].0 == key {
        0
    } else {
        let p = key_pos(es.drop_first(), key);
        if p < 0 {
            -1
        } else {
            p + 1
        }
    }
}

/// The entries without the one of `key`.
pub open spec fn without_key(es: Seq<(Key, Frame)>, key: Key) -> Seq<(Key, Frame)> {
    let p = key_pos(es, key);
    if 0 <= p < es.len() {
        es.remove(p)
    } else {
        es
    }
}

/// The entries after evicting the oldest ones while the total exceeds `cap`
/// and more than one entry is left.
pub open spec fn evict(es: Seq<(Key, Frame)>, cap: nat) -> Seq<(Key, Frame)>
    decreases es.len(),
{
    if es.len() > 1 && total_bytes(es) > cap {
        evict(es.drop_first(), cap)
    } else {
        es
    }
}

/// No key occurs twice.
pub open spec fn distinct_keys(es: Seq<(Key, Frame)>) -> bool {
    forall|i: int, j: int| 0 <= i < j < es.len() ==> es[i].0 != es[j].0
}

/// The LRU frame cache: entries from least to most recently used.
pub struct FrameCache {
    cap_bytes: usize,
    used_bytes: usize,
    entries: Vec<(Key, Frame)>,
}

proof fn lemma_key_pos(es: Seq<(Key, Frame)>, key: Key)
    ensures
        -1 <= key_pos(es, key) < es.len(),
        key_pos(es, key) >= 0 ==> es[key_pos(es, key)].0 == key,
        key_pos(es, key) >= 0 ==> forall|j: int| 0 <= j < key_pos(es, key) ==> es[j].0 != key,
        key_pos(es, key) < 0 ==> forall|j: int| 0 <= j < es.len() ==> es[j].0 != key,
    decreases es.len(),
{
    if es.len() > 0 {
        lemma_key_pos(es.drop_first(), key);
        if es[0].0 != key {
            assert forall|j: int| 1 <= j < es.len() implies es[j] == es.drop_first()[j - 1] by {}
        }
    }
}

proof fn lemma_total_push(es: Seq<(Key, Frame)>, e: (Key, Frame))
    ensures
        total_bytes(es.push(e)) == total_bytes(es) + frame_bytes(e.1),
    decreases es.len(),
{
    if es.len() > 0 {
        lemma_total_push(es.drop_first(), e);
        assert(es.push(e).drop_first() =~= es.drop_first().push(e));
        assert(es.push(e)[0] == es[0]);
    } else {
        assert(es.push(e).drop_first() =~= Seq::<(Key, Frame)>::empty());
        assert(total_bytes(Seq::<(Key, Frame)>::empty()) == 0);
        assert(es.push(e)[0] == e);
    }
}

proof fn lemma_total_remove(es: Seq<(Key, Frame)>, p: int)
    requires
        0 <= p < es.len(),
    ensures
        total_bytes(es.remove(p)) + frame_bytes(es[p].1) == total_bytes(es),
    decreases es.len(),
{
    if p == 0 {
        assert(es.remove(0) =~= es.drop_first());
    } else {
        lemma_total_remove(es.drop_first(), p - 1);
        assert(es.remove(p).drop_first() =~= es.drop_first().remove(p - 1));
        assert(es.remove(p)[0] == es[0]);
    }
}

impl FrameCache {
    /// The capacity is at least 1, the byte count matches the entries and no
    /// key occurs twice.
    pub closed spec fn wf(&self) -> bool {
        &&& self.cap_bytes >= 1
        &&& self.used_bytes == total_bytes(self.entries@)
        &&& distinct_keys(self.entries@)
    }

    /// The entries, least recently used first.
    pub closed spec fn entries(&self) -> Seq<(Key, Frame)> {
        self.entries@
    }

    /// The capacity in bytes.
    pub closed spec fn cap(&self) -> nat {
        self.cap_bytes as nat
    }

    /// The bytes of the frames held.
    pub closed spec fn used(&self) -> nat {
        self.used_bytes as nat
    }

    /// Whether an entry holds `key`.
    pub open spec fn has(&self, key: Key) -> bool {
        key_pos(self.entries(), key) >= 0
    }

    /// An empty cache holding at most `cap_bytes` bytes (at least 1).
    pub fn new(cap_bytes: usize) -> (c: FrameCache)
        ensures
            c.entries() == Seq::<(Key, Frame)>::empty(),
            c.cap() == (if cap_bytes < 1 {
                1
            } else {
                cap_bytes
            }),
            c.used() == 0,
            c.wf(),
    {
        FrameCache {
            cap_bytes: if cap_bytes < 1 {
                1
            } else {
                cap_bytes
            },
            used_bytes: 0,
            entries: Vec::new(),
        }
    }

    /// The bytes of the frames held.
    pub fn used_bytes(&self) -> (u: usize)
        requires
            self.wf(),
        ensures
            u == self.used(),
            u == total_bytes(self.entries()),
    {
        self.used_bytes
    }

    fn position(&self, key: Key) -> (p: Option<usize>)
        ensures
            match p {
                Some(i) => key_pos(self.entries(), key) == i,
                None => key_pos(self.entries(), key) < 0,
            },
    {
        proof {
            lemma_key_pos(self.entries@, key);
        }
        let n = self.entries.len();
        let mut i: usize = 0;
        while i < n
            invariant
                n == self.entries@.len(),
                i <= n,
                forall|j: int| 0 <= j < i ==> self.entries@[j].0 != key,
                -1 <= key_pos(self.entries@, key) < n,
                key_pos(self.entries@, key) >= 0 ==> self.entries@[key_pos(self.entries@, key)].0 == key,
                key_pos(self.entries@, key) >= 0 ==> forall|j: int|
                    0 <= j < key_pos(self.entries@, key) ==> self.entries@[j].0 != key,
                key_pos(self.entries@, key) < 0 ==> forall|j: int|
                    0 <= j < n ==> self.entries@[j].0 != key,
            decreases n - i,
        {
            let k = self.entries[i].0;
            if k.id.0 == key.id.0 && k.w == key.w && k.h == key.h {
                return Some(i);
            }
            i = i + 1;
        }
        None
    }

    /// Whether `key` is cached (a look that does not count as a use).
    pub fn contains(&self, key: Key) -> (r: bool)
        ensures
            r == self.has(key),
    {
        self.position(key).is_some()
    }

    /// The frame of `key`; a hit moves its entry to the most recent end.
    pub fn get(&mut self, key: Key) -> (r: Option<&Frame>)
        requires
            old(self).wf(),
        ensures
            final(self).wf(),
            ({
                let es = old(self).entries();
                let p = key_pos(es, key);
                &&& final(self).cap() == old(self).cap()
                &&& p < 0 ==> r is None && final(self).entries() == es
                &&& p >= 0 ==> r == Some(&es[p].1) && final(self).entries() == es.remove(p).push(es[p])
            }),
    {
        proof {
            lemma_key_pos(self.entries@, key);
        }
        let pos = match self.position(key) {
            None => {
                return None;
            },
            Some(p) => p,
        };
        let ghost es = self.entries@;
        let entry = self.entries.remove(pos);
        self.entries.push(entry);
        proof {
            lemma_total_remove(es, pos as int);
            lemma_total_push(es.remove(pos as int), es[pos as int]);
            assert forall|i: int, j: int| 0 <= i < j < self.entries@.len() implies self.entries@[i].0
                != self.entries@[j].0 by {
                let n = es.len();
                if j == n - 1 {
                    if i < pos {
                        assert(self.entries@[i] == es[i]);
                    } else {
                        assert(self.entries@[i] == es[i + 1]);
                    }
                } else {
                    if i < pos {
                        assert(self.entries@[i] == es[i]);
                    } else {
                        assert(self.entries@[i] == es[i + 1]);
                    }
                    if j < pos {
                        assert(self.entries@[j] == es[j]);
                    } else {
                        assert(self.entries@[j] == es[j + 1]);
                    }
                }
            }
        }
        let last = self.entries.len() - 1;
        Some(&self.entries[last].1)
    }

    fn evict_to_cap(&mut self)
        requires
            old(self).wf(),
        ensures
            final(self).wf(),
            final(self).entries() == evict(old(self).entries(), old(self).cap()),
            final(self).cap() == old(self).cap(),
    {
        let ghost cap0 = self.cap_bytes as nat;
        let ghost es0 = self.entries@;
        while self.used_bytes > self.cap_bytes && self.entries.len() > 1
            invariant
                self.cap_bytes == cap0,
                self.cap_bytes >= 1,
                self.used_bytes == total_bytes(self.entries@),
                distinct_keys(self.entries@),
                evict(es0, cap0) == evict(self.entries@, cap0),
            decreases self.entries@.len(),
        {
            let ghost es = self.entries@;
            let (_, old_frame) = self.entries.remove(0);
            proof {
                lemma_total_remove(es, 0);
                assert(es.remove(0) =~= es.drop_first());
                assert forall|i: int, j: int| 0 <= i < j < self.entries@.len() implies self.entries@[i].0
                    != self.entries@[j].0 by {
                    assert(self.entries@[i] == es[i + 1]);
                    assert(self.entries@[j] == es[j + 1]);
                }
            }
            let b = old_frame.image.as_bytes().len();
            self.used_bytes = self.used_bytes - b;
        }
    }

    /// Stores `frame` under `key`: an entry of the same key is replaced, and
    /// the oldest entries are evicted while the total exceeds the capacity,
    /// always keeping at least one.
    pub fn insert(&mut self, key: Key, frame: Frame)
        requires
            old(self).wf(),
            old(self).used() + frame_bytes(frame) <= usize::MAX,
        ensures
            final(self).wf(),
            final(self).entries() == evict(
                without_key(old(self).entries(), key).push((key, frame)),
                old(self).cap(),
            ),
            final(self).cap() == old(self).cap(),
    {
        proof {
            lemma_key_pos(self.entries@, key);
        }
        let ghost es0 = self.entries@;
        match self.position(key) {
            Some(pos) => {
                let ghost es = self.entries@;
                let (_, old_frame) = self.entries.remove(pos);
                proof {
                    lemma_total_remove(es, pos as int);
                    assert forall|i: int, j: int| 0 <= i < j < self.entries@.len() implies self.entries@[i].0
                        != self.entries@[j].0 by {
                        if i < pos {
                            assert(self.entries@[i] == es[i]);
                        } else {
                            assert(self.entries@[i] == es[i + 1]);
                        }
                        if j < pos {
                            assert(self.entries@[j] == es[j]);
                        } else {
                            assert(self.entries@[j] == es[j + 1]);
                        }
                    }
                    assert forall|j: int| 0 <= j < self.entries@.len() implies self.entries@[j].0 != key by {
                        if j < pos {
                            assert(self.entries@[j] == es[j]);
                        } else {
                            assert(self.entries@[j] == es[j + 1]);
                        }
                    }
                }
                let b = old_frame.image.as_bytes().len();
                self.used_bytes = self.used_bytes - b;
            },
            None => {},
        }
        let ghost es1 = self.entries@;
        proof {
            assert(es1 == without_key(es0, key));
            assert(forall|j: int| 0 <= j < es1.len() ==> es1[j].0 != key);
        }
        let fb = frame.image.as_bytes().len();
        self.used_bytes = self.used_bytes + fb;
        self.entries.push((key, frame));
        proof {
            lemma_total_push(es1, (key, frame));
            assert forall|i: int, j: int| 0 <= i < j < self.entries@.len() implies self.entries@[i].0
                != self.entries@[j].0 by {
                if j < es1.len() {
                    assert(self.entries@[i] == es1[i]);
                    assert(self.entries@[j] == es1[j]);
                } else {
                    assert(self.entries@[i] == es1[i]);
                }
            }
        }
        self.evict_to_cap();
    }

    /// Sets the capacity (at least 1) and evicts down to it at once.
    pub fn set_cap(&mut self, cap_bytes: usize)
        requires
            old(self).wf(),
        ensures
            final(self).wf(),
            final(self).cap() == (if cap_bytes < 1 {
                1
            } else {
                cap_bytes
            }),
            final(self).entries() == evict(old(self).entries(), final(self).cap()),
    {
        self.cap_bytes = if cap_bytes < 1 {
            1
        } else {
            cap_bytes
        };
        self.evict_to_cap();
    }

    /// Drops every entry.
    pub fn clear(&mut self)
        requires
            old(self).wf(),
        ensures
            final(self).wf(),
            final(self).entries() == Seq::<(Key, Frame)>::empty(),
            final(self).used() == 0,
            final(self).cap() == old(self).cap(),
    {
        self.entries.clear();
        self.used_bytes = 0;
    }
}

/// Eviction only drops the oldest entries and always keeps at least one:
/// what remains is a non-empty suffix of the entries (for non-empty entries)
/// that fits the capacity unless a single entry is left; in particular the
/// newest entry, the one just inserted, always stays.
pub proof fn lemma_evict_keeps_newest(es: Seq<(Key, Frame)>, cap: nat)
    requires
        es.len() >= 1,
    ensures
        evict(es, cap).len() >= 1,
        evict(es, cap).len() <= es.len(),
        evict(es, cap) == es.skip(es.len() - evict(es, cap).len()),
        evict(es, cap).last() == es.last(),
        evict(es, cap).len() == 1 || total_bytes(evict(es, cap)) <= cap,
    decreases es.len(),
{
    if es.len() > 1 && total_bytes(es) > cap {
        lemma_evict_keeps_newest(es.drop_first(), cap);
        let r = evict(es.drop_first(), cap);
        assert(es.skip(es.len() - r.len()) =~= es.drop_first().skip(es.drop_first().len() - r.len()));
    } else {
        assert(es.skip(0) =~= es);
    }
}

/// How many frames of the current viewport size the cache holds: the
/// current frame and the prefetch candidates around it.
pub const CACHE_FRAMES: usize = 12;

/// The cache capacity for `viewport`: the bytes of one frame of its pixel
/// size (at least 1), times [`CACHE_FRAMES`].
pub fn cache_cap_bytes(viewport: Viewport) -> (c: usize)
    requires
        viewport.spec_pixel_size().bytes() * CACHE_FRAMES <= usize::MAX,
    ensures
        c == (if viewport.spec_pixel_size().bytes() < 1 {
            1
        } else {
            viewport.spec_pixel_size().bytes()
        }) * CACHE_FRAMES,
{
    let one = viewport.pixel_size().byte_len();
    let one = if one < 1 {
        1
    } else {
        one
    };
    one * CACHE_FRAMES
}

} // verus!
