//! Growable array: a lazily extending tree of fixed-size segments.
//!
//! A segment holds `2^SEGMENT_LOGSIZE` slots and is read either as a block of
//! child segments or, at the leaves, as a block of element slots. Which
//! reading applies is decided by a height carried alongside the root, never
//! stored in the segment itself. The tree starts as a single leaf and only
//! ever grows: raising the root by one level multiplies the index space by
//! the segment width, with the old tree becoming child `0` of the new root.
//!
//! The structure is a sparse array: `spec_at` maps every index to the element
//! stored there, or `None` where nothing was ever stored.

use vstd::prelude::*;

verus! {

use vstd::arithmetic::div_mod::{
    lemma_basic_div,
    lemma_fundamental_div_mod,
    lemma_mod_division_less_than_divisor,
    lemma_multiply_divide_lt,
    lemma_small_mod,
};
use vstd::arithmetic::mul::lemma_mul_is_commutative;
use vstd::arithmetic::power2::{
    lemma2_to64,
    lemma2_to64_rest,
    lemma_pow2_adds,
    lemma_pow2_pos,
    lemma_pow2_strictly_increases,
    pow2,
};
use vstd::bits::{
    lemma_u64_low_bits_mask_is_mod,
    lemma_u64_pow2_no_overflow,
    lemma_u64_shl_is_mul,
    lemma_u64_shr_is_div,
    low_bits_mask,
};

broadcast use lemma_mul_is_commutative, lemma_mod_division_less_than_divisor, lemma_pow2_pos;

/// Log2 of the number of slots in one segment.
pub const SEGMENT_LOGSIZE: u64 = 10;

/// Number of slots in one segment.
pub const SEGMENT_SIZE: u64 = 1024;

/// The deepest tree a word-sized index can need: a height-6 root already
/// spans more than 2^64 indices.
pub const MAX_HEIGHT: u64 = 6;

/// A block of slots, read as child segments or as element slots depending on
/// the height at which it sits. `Empty` stands for a segment that was never
/// allocated.
#[derive(Debug)]
enum Segment<T> {
    Empty,
    Elems(Vec<Option<T>>),
    Children(Vec<Segment<T>>),
}

/// Number of indices a segment of height `h` spans.
pub open spec fn cap(h: nat) -> nat {
    pow2(10 * (h + 1))
}

/// Well-formedness of a segment of height `h`: leaves at height 0, full-width
/// blocks throughout. An unallocated segment is well formed at any height.
spec fn seg_wf<T>(seg: Segment<T>, h: nat) -> bool
    decreases h,
{
    match seg {
        Segment::Empty => true,
        Segment::Elems(v) => h == 0 && v.len() == 1024,
        Segment::Children(cs) => h >= 1 && cs.len() == 1024 && (forall|j: int|
            0 <= j < 1024 ==> seg_wf(#[trigger] cs[j], (h - 1) as nat)),
    }
}

/// The element stored at index `i` below a segment of height `h`.
spec fn seg_at<T>(seg: Segment<T>, h: nat, i: nat) -> Option<T>
    decreases h,
{
    match seg {
        Segment::Empty => None,
        Segment::Elems(v) => if h == 0 && i < 1024 {
            v[i as int]
        } else {
            None
        },
        Segment::Children(cs) => if h >= 1 && i < cap(h) {
            seg_at(cs[(i / pow2(10 * h)) as int], (h - 1) as nat, i % pow2(10 * h))
        } else {
            None
        },
    }
}

/// Growable array of optional elements, indexed by `u64`.
#[derive(Debug)]
pub struct GrowableArray<T> {
    root: Segment<T>,
    height: u64,
}

impl<T> GrowableArray<T> {
    pub closed spec fn wf(self) -> bool {
        &&& seg_wf(self.root, self.height as nat)
        &&& self.height <= MAX_HEIGHT
    }

    /// The element at index `i`, or `None` where none was stored.
    pub closed spec fn spec_at(self, i: nat) -> Option<T> {
        if i < cap(self.height as nat) {
            seg_at(self.root, self.height as nat, i)
        } else {
            None
        }
    }

    /// Create a new growable array: a single leaf segment, all slots empty.
    pub fn new() -> (r: Self)
        ensures
            r.wf(),
            forall|j: nat| r.spec_at(j) == None::<T>,
    {
        GrowableArray { root: fresh_segment(0), height: 0 }
    }

    /// Read the slot at `index`. Pure: a missing path means the slot was
    /// never written.
    pub fn get(&self, index: u64) -> (r: Option<&T>)
        requires
            self.wf(),
        ensures
            (match r {
                Some(t) => self.spec_at(index as nat) == Some(*t),
                None => self.spec_at(index as nat) is None,
            }),
    {
        if self.height < MAX_HEIGHT && index >= capacity_of(self.height) {
            return None;
        }
        proof {
            lemma_index_in_cap(self.height as nat, index);
        }
        seg_get(&self.root, self.height, index)
    }

    /// Store `value` at `index`, extending the tree height and allocating
    /// missing segments as needed. Every other index keeps its content.
    pub fn set(&mut self, index: u64, value: T)
        requires
            old(self).wf(),
        ensures
            final(self).wf(),
            forall|j: nat|
                #[trigger] final(self).spec_at(j) == (if j == index as nat {
                    Some(value)
                } else {
                    old(self).spec_at(j)
                }),
    {
        // Grow bottom-up until the root spans `index`.
        while self.height < MAX_HEIGHT && index >= capacity_of(self.height)
            invariant
                self.wf(),
                forall|j: nat| #[trigger] self.spec_at(j) == old(self).spec_at(j),
            decreases MAX_HEIGHT - self.height,
        {
            let ghost h = self.height as nat;
            let ghost prev = *self;
            let mut old_root = Segment::Empty;
            core::mem::swap(&mut self.root, &mut old_root);
            let mut cs: Vec<Segment<T>> = Vec::new();
            cs.push(old_root);
            while cs.len() < 1024
                invariant
                    1 <= cs.len() <= 1024,
                    cs[0] == prev.root,
                    forall|x: int| 1 <= x < cs.len() ==> cs[x] is Empty,
                decreases 1024 - cs.len(),
            {
                cs.push(Segment::Empty);
            }
            self.root = Segment::Children(cs);
            self.height = self.height + 1;
            proof {
                lemma_grow_preserves(self.root, prev.root, h);
                assert forall|j: nat| #[trigger] self.spec_at(j) == prev.spec_at(j) by {
                    lemma_pow2_strictly_increases(10 * (h + 1), 10 * (h + 2));
                    assert(cap(h) < cap(h + 1));
                }
            }
        }
        proof {
            lemma_index_in_cap(self.height as nat, index);
        }
        let ghost mid = *self;
        seg_set(&mut self.root, self.height, index, value);
        proof {
            assert forall|j: nat| #[trigger] self.spec_at(j) == (if j == index as nat {
                Some(value)
            } else {
                old(self).spec_at(j)
            }) by {
                assert(mid.spec_at(j) == old(self).spec_at(j));
                if j >= cap(mid.height as nat) {
                    assert(self.spec_at(j) is None);
                }
            }
        }
    }
}

impl<T> Default for GrowableArray<T> {
    fn default() -> (r: Self)
        ensures
            r.wf(),
            forall|j: nat| r.spec_at(j) == None::<T>,
    {
        GrowableArray::new()
    }
}

/// Exec capacity of a height-`h` root, defined below the overflow line.
fn capacity_of(h: u64) -> (r: u64)
    requires
        h < MAX_HEIGHT,
    ensures
        r as nat == cap(h as nat),
{
    proof {
        lemma_u64_pow2_no_overflow((10 * (h + 1)) as nat);
        lemma_u64_shl_is_mul(1u64, (10 * (h + 1)) as u64);
    }
    1u64 << (10 * (h + 1))
}

/// Any index that survived the growth check lies below the root's span.
proof fn lemma_index_in_cap(h: nat, index: u64)
    requires
        h >= MAX_HEIGHT || (index as nat) < cap(h),
    ensures
        (index as nat) < cap(h),
{
    if h >= MAX_HEIGHT {
        lemma2_to64_rest();
        assert((index as nat) < pow2(64));
        if 64 < 10 * (h + 1) {
            lemma_pow2_strictly_increases(64, 10 * (h + 1));
        }
    }
}

/// A fresh root of height `h + 1` whose child 0 is the old root spans the old
/// indices identically; the new indices are all unallocated.
proof fn lemma_grow_preserves<T>(new_root: Segment<T>, old_root: Segment<T>, h: nat)
    requires
        seg_wf(old_root, h),
        new_root matches Segment::Children(cs) && cs.len() == 1024 && cs[0] == old_root && (forall|
            x: int,
        |
            1 <= x < 1024 ==> cs[x] is Empty),
    ensures
        seg_wf(new_root, h + 1),
        forall|j: nat|
            j < cap(h + 1) ==> #[trigger] seg_at(new_root, h + 1, j) == (if j < cap(h) {
                seg_at(old_root, h, j)
            } else {
                None::<T>
            }),
{
    let cs = new_root->Children_0;
    assert forall|x: int| 0 <= x < 1024 implies seg_wf(#[trigger] cs[x], h) by {
        if x >= 1 {
            assert(cs[x] is Empty);
        }
    }
    let p = pow2(10 * (h + 1));
    assert forall|j: nat| j < cap(h + 1) implies #[trigger] seg_at(new_root, h + 1, j) == (if j
        < cap(h) {
        seg_at(old_root, h, j)
    } else {
        None::<T>
    }) by {
        assert(10 * (h + 1 + 1) == 10 * (h + 1) + 10);
        lemma_pow2_adds(10 * (h + 1), 10);
        lemma2_to64();
        assert(cap(h + 1) == p * 1024);
        let d = j / p;
        lemma_multiply_divide_lt(j as int, p as int, 1024);
        assert(d < 1024);
        if j < cap(h) {
            lemma_basic_div(j as int, p as int);
            lemma_small_mod(j, p);
            assert(d == 0);
            assert(seg_at(new_root, h + 1, j) == seg_at(old_root, h, j % p));
        } else {
            assert(d >= 1) by {
                if d == 0 {
                    lemma_fundamental_div_mod(j as int, p as int);
                }
            }
            assert(cs[d as int] is Empty);
        }
    }
}

/// A segment with nothing in it: a leaf of empty slots at height 0, a block
/// of unallocated children above.
fn fresh_segment<T>(h: u64) -> (s: Segment<T>)
    ensures
        seg_wf(s, h as nat),
        h >= 1 ==> s is Children,
        h == 0 ==> s is Elems,
        forall|j: nat| seg_at(s, h as nat, j) == None::<T>,
{
    proof {
        lemma2_to64();
    }
    if h == 0 {
        let mut v: Vec<Option<T>> = Vec::new();
        while v.len() < 1024
            invariant
                v.len() <= 1024,
                forall|x: int| 0 <= x < v.len() ==> v[x] is None,
            decreases 1024 - v.len(),
        {
            v.push(None);
        }
        let s = Segment::Elems(v);
        proof {
            assert(seg_wf(s, h as nat));
            assert forall|j: nat| seg_at(s, h as nat, j) == None::<T> by {
                if j < 1024 {
                    assert(s->Elems_0[j as int] is None);
                }
            }
        }
        s
    } else {
        let mut cs: Vec<Segment<T>> = Vec::new();
        while cs.len() < 1024
            invariant
                cs.len() <= 1024,
                forall|x: int| 0 <= x < cs.len() ==> cs[x] is Empty,
            decreases 1024 - cs.len(),
        {
            cs.push(Segment::Empty);
        }
        let s = Segment::Children(cs);
        proof {
            assert forall|x: int| 0 <= x < 1024 implies seg_wf(#[trigger] s->Children_0[x], ((h as nat) - 1) as nat) by {
                assert(s->Children_0[x] is Empty);
            }
            assert(seg_wf(s, h as nat));
            assert forall|j: nat| seg_at(s, h as nat, j) == None::<T> by {
                if j < cap(h as nat) {
                    let p = pow2(10 * (h as nat));
                    assert(10 * ((h as nat) + 1) == 10 * (h as nat) + 10);
                    lemma_pow2_adds(10 * (h as nat), 10);
                    lemma2_to64();
                    lemma_multiply_divide_lt(j as int, p as int, 1024);
                    assert(s->Children_0[(j / p) as int] is Empty);
                    assert(seg_at(s->Children_0[(j / p) as int], ((h as nat) - 1) as nat, j % p) == None::<T>);
                }
            }
        }
        s
    }
}

/// Walk one segment level on the way to index `i`.
fn seg_get<'a, T>(seg: &'a Segment<T>, h: u64, i: u64) -> (r: Option<&'a T>)
    requires
        seg_wf(*seg, h as nat),
        h <= MAX_HEIGHT,
        (i as nat) < cap(h as nat),
    ensures
        (match r {
            Some(t) => seg_at(*seg, h as nat, i as nat) == Some(*t),
            None => seg_at(*seg, h as nat, i as nat) is None,
        }),
    decreases h,
{
    match seg {
        Segment::Empty => None,
        Segment::Elems(v) => {
            proof {
                lemma2_to64();
            }
            let d = i as usize;
            v[d].as_ref()
        },
        Segment::Children(cs) => {
            proof {
                lemma_digit_split(i, h);
            }
            let d = (i >> (10 * h)) as usize;
            let rest = i & ((1u64 << (10 * h)) - 1);
            seg_get(&cs[d], h - 1, rest)
        },
    }
}

/// Exec digit extraction agrees with the spec division and remainder, and
/// the digit is in range.
proof fn lemma_digit_split(i: u64, h: u64)
    requires
        1 <= h <= MAX_HEIGHT,
        (i as nat) < cap(h as nat),
    ensures
        (1u64 << ((10 * h) as u64)) >= 1,
        (i >> ((10 * h) as u64)) as nat == (i as nat) / pow2(10 * (h as nat)),
        (i >> ((10 * h) as u64)) < 1024,
        (i & (((1u64 << ((10 * h) as u64)) - 1) as u64)) as nat == (i as nat) % pow2(10 * (h as nat)),
        ((i as nat) % pow2(10 * (h as nat))) < cap((h - 1) as nat),
{
    let hn = h as nat;
    lemma_u64_shr_is_div(i, (10 * h) as u64);
    lemma_u64_pow2_no_overflow(10 * hn);
    lemma_u64_shl_is_mul(1u64, (10 * h) as u64);
    assert((1u64 << ((10 * h) as u64)) as nat == pow2(10 * hn));
    assert((((1u64 << ((10 * h) as u64)) - 1) as u64) as nat == low_bits_mask(10 * hn));
    lemma_u64_low_bits_mask_is_mod(i, 10 * hn);
    assert(10 * (hn + 1) == 10 * hn + 10);
    lemma_pow2_adds(10 * hn, 10);
    lemma2_to64();
    assert(cap(hn) == pow2(10 * hn) * 1024);
    lemma_multiply_divide_lt(i as int, pow2(10 * hn) as int, 1024);
    assert(10 * ((hn - 1) as nat + 1) == 10 * hn);
}

/// Decomposing an index into its top digit and remainder is injective.
proof fn lemma_digit_unique(j: nat, i: nat, p: nat)
    requires
        p >= 1,
        j / p == i / p,
        j % p == i % p,
    ensures
        j == i,
{
    lemma_fundamental_div_mod(j as int, p as int);
    lemma_fundamental_div_mod(i as int, p as int);
}

/// Store `value` at index `i` below `seg`, allocating the missing path.
fn seg_set<T>(seg: &mut Segment<T>, h: u64, i: u64, value: T)
    requires
        seg_wf(*old(seg), h as nat),
        h <= MAX_HEIGHT,
        (i as nat) < cap(h as nat),
    ensures
        seg_wf(*final(seg), h as nat),
        forall|j: nat|
            j < cap(h as nat) ==> #[trigger] seg_at(*final(seg), h as nat, j) == (if j == i as nat {
                Some(value)
            } else {
                seg_at(*old(seg), h as nat, j)
            }),
    decreases h,
{
    if matches!(seg, Segment::Empty) {
        let mut fresh = fresh_segment(h);
        core::mem::swap(seg, &mut fresh);
    }
    let ghost mid = *seg;
    assert(seg_wf(mid, h as nat));
    assert(forall|j: nat|
        j < cap(h as nat) ==> #[trigger] seg_at(mid, h as nat, j) == seg_at(
            *old(seg),
            h as nat,
            j,
        ));
    match seg {
        Segment::Empty => {
            proof {
                assert(false);
            }
        },
        Segment::Elems(v) => {
            proof {
                lemma2_to64();
            }
            let d = i as usize;
            let ghost oldv = v@;
            v[d] = Some(value);
            proof {
                assert(v@ == oldv.update(d as int, Some(value)));
                assert forall|j: nat| j < cap(h as nat) implies #[trigger] seg_at(
                    *seg,
                    h as nat,
                    j,
                ) == (if j == i as nat {
                    Some(value)
                } else {
                    seg_at(mid, h as nat, j)
                }) by {
                    assert(seg_at(*seg, h as nat, j) == seg->Elems_0[j as int]);
                    assert(seg_at(mid, h as nat, j) == mid->Elems_0[j as int]);
                }
            }
        },
        Segment::Children(cs) => {
            proof {
                lemma_digit_split(i, h);
            }
            let d = (i >> (10 * h)) as usize;
            let rest = i & ((1u64 << (10 * h)) - 1);
            let ghost oldcs = cs@;
            seg_set(&mut cs[d], h - 1, rest, value);
            proof {
                let hn = h as nat;
                let p = pow2(10 * hn);
                assert(cs@ == oldcs.update(d as int, cs@[d as int]));
                assert forall|x: int| 0 <= x < 1024 implies seg_wf(
                    #[trigger] cs@[x],
                    (hn - 1) as nat,
                ) by {
                    if x != d as int {
                        assert(cs@[x] == oldcs[x]);
                    }
                }
                assert forall|j: nat| j < cap(hn) implies #[trigger] seg_at(
                    *seg,
                    hn,
                    j,
                ) == (if j == i as nat {
                    Some(value)
                } else {
                    seg_at(mid, hn, j)
                }) by {
                    let dj = j / p;
                    let jr = j % p;
                    assert(10 * (hn + 1) == 10 * hn + 10);
                    lemma_pow2_adds(10 * hn, 10);
                    lemma2_to64();
                    lemma_multiply_divide_lt(j as int, p as int, 1024);
                    assert(dj < 1024);
                    assert(seg_at(*seg, hn, j) == seg_at(cs@[dj as int], (hn - 1) as nat, jr));
                    assert(seg_at(mid, hn, j) == seg_at(oldcs[dj as int], (hn - 1) as nat, jr));
                    if dj == (i as nat) / p {
                        assert(cs@[dj as int] == cs@[d as int]);
                        assert(jr < cap((hn - 1) as nat));
                        if jr == (i as nat) % p {
                            lemma_digit_unique(j, i as nat, p);
                            assert(j == i as nat);
                        } else {
                            assert(j != i as nat);
                            assert(seg_at(cs@[d as int], (hn - 1) as nat, jr) == seg_at(
                                oldcs[d as int],
                                (hn - 1) as nat,
                                jr,
                            ));
                        }
                    } else {
                        assert(j != i as nat);
                        assert(cs@[dj as int] == oldcs[dj as int]);
                    }
                }
            }
        },
    }
}

} // verus!
