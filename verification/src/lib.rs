//! Enumerates, for a bounded window of a 32-bit register, every bit pattern
//! with an exact number of set bits, in ascending numeric order, and offers
//! a width-scoped bit inversion.
//!
//! A [`Subint`] binds a register width of at most 32 bits.  Its
//! [`Subint::permute`] operation hands out a [`PermIter`], a cursor that
//! yields each pattern with the requested number of set bits exactly once,
//! smallest first, and then reports exhaustion forever.  [`Subint::invert`]
//! flips exactly the low bits inside the bound width.

use vstd::prelude::*;

pub mod raw;

verus! {

/// The value `v` with exactly its low `w` bits flipped.
pub open spec fn spec_invert(w: u32, v: u32) -> u32 {
    v ^ raw::mask(w)
}

/// Whether the entries of `s` grow strictly from front to back.
pub open spec fn strictly_ascending(s: Seq<u32>) -> bool {
    forall|i: int, j: int| 0 <= i < j < s.len() ==> s[i] < s[j]
}

/// A register width of at most 32 bits, fixed at construction.
#[derive(Clone, Copy)]
pub struct Subint {
    count: u32,
}

/// The error returned when a requested register width exceeds the 32 bits
/// of the underlying word.
#[derive(Clone, Copy, Debug, PartialEq, Eq, Structural)]
pub struct OutOfRange;

impl Subint {
    /// The bound register width.
    pub closed spec fn width(self) -> u32 {
        self.count
    }

    #[verifier::type_invariant]
    spec fn bounded(self) -> bool {
        self.count <= 32
    }
}

/// Binds the register width `count`, or rejects a width beyond the 32 bits
/// of the underlying word.
pub fn of(count: u32) -> (r: Result<Subint, OutOfRange>)
    ensures
        count <= 32 ==> (r matches Ok(s) && s.width() == count),
        count > 32 ==> r is Err,
{
    if count <= 32 {
        Ok(Subint { count })
    } else {
        Err(OutOfRange)
    }
}

/// A cursor over the patterns with a fixed number of set bits inside a
/// fixed window, yielding them in ascending order via [`PermIter::next`].
#[derive(Clone, Copy)]
pub struct PermIter {
    subint_count: u32,
    ones: u32,
    cursor: u32,
    done: bool,
    hist: Ghost<Seq<u32>>,
}

impl PermIter {
    /// The window width being permuted over.
    pub closed spec fn width(self) -> u32 {
        self.subint_count
    }

    /// The number of set bits of every yielded pattern.
    pub closed spec fn target(self) -> u32 {
        self.ones
    }

    /// The pattern the next successful pull will yield.
    pub closed spec fn current(self) -> u32 {
        self.cursor
    }

    /// All patterns yielded so far, oldest first.
    pub closed spec fn yielded(self) -> Seq<u32> {
        self.hist@
    }

    /// Whether further pulls can still yield a pattern.
    pub closed spec fn active(self) -> bool {
        !self.done && self.ones <= self.subint_count
    }

    /// The cursor's internal consistency: the window fits the word, an
    /// active cursor holds a pattern of the right shape, and the yielded
    /// patterns are ascending patterns below it.
    pub closed spec fn wf(self) -> bool {
        &&& self.subint_count <= 32
        &&& (self.active() ==> raw::is_perm(self.subint_count, self.ones, self.cursor))
        &&& strictly_ascending(self.hist@)
        &&& (forall|i: int|
            0 <= i < self.hist@.len() ==> raw::is_perm(
                self.subint_count,
                self.ones,
                #[trigger] self.hist@[i],
            ))
        &&& (self.active() ==> forall|i: int|
            0 <= i < self.hist@.len() ==> #[trigger] self.hist@[i] < self.cursor)
        &&& (self.ones > self.subint_count ==> self.hist@.len() == 0)
        &&& (self.active() ==> self.hist@.len() == raw::count_perms_below(
            self.subint_count,
            self.ones,
            self.cursor as int,
        ))
        &&& ((self.done && self.ones <= self.subint_count) ==> self.hist@.len()
            == raw::count_perms_below(self.subint_count, self.ones, raw::mask(self.subint_count) + 1))
    }

    /// Pulls the next pattern: the current one while the cursor is active,
    /// or nothing once it is exhausted.  Exhaustion is permanent, and a
    /// request for more set bits than the window holds is exhausted from
    /// the start.
    pub fn next(&mut self) -> (r: Option<u32>)
        requires
            old(self).wf(),
        ensures
            final(self).wf(),
            final(self).width() == old(self).width(),
            final(self).target() == old(self).target(),
            !old(self).active() ==> r is None && *final(self) == *old(self),
            old(self).active() ==> r == Some(old(self).current()) && final(self).yielded()
                == old(self).yielded().push(old(self).current()),
            (r matches Some(v) ==> raw::is_perm(old(self).width(), old(self).target(), v)),
            old(self).active() ==> (final(self).active() <==> old(self).current()
                != raw::top_pattern(old(self).width(), old(self).target())),
            (old(self).active() && final(self).active()) ==> raw::is_next_perm(
                old(self).width(),
                old(self).target(),
                old(self).current(),
                final(self).current(),
            ),
    {
        if self.done || self.subint_count < self.ones {
            None
        } else {
            let ret: u32 = self.cursor;
            let nxt: u32 = raw::advance(self.subint_count, self.ones, self.cursor);
            proof {
                raw::lemma_min_le_top(self.subint_count, self.ones);
                raw::lemma_pattern_bounds(self.subint_count, self.ones);
                assert(raw::count_perms_below(self.subint_count, self.ones, ret + 1)
                    == raw::count_perms_below(self.subint_count, self.ones, ret as int) + 1);
            }
            if nxt <= ret {
                self.done = true;
                proof {
                    assert forall|v: u32| ret + 1 <= v < raw::mask(self.subint_count) + 1 implies
                        !raw::is_perm(self.subint_count, self.ones, v) by {}
                    raw::lemma_count_empty_range(
                        self.subint_count,
                        self.ones,
                        ret + 1,
                        raw::mask(self.subint_count) + 1,
                    );
                }
            } else {
                self.cursor = nxt;
                proof {
                    assert forall|v: u32| ret + 1 <= v < nxt implies !raw::is_perm(
                        self.subint_count,
                        self.ones,
                        v,
                    ) by {}
                    raw::lemma_count_empty_range(self.subint_count, self.ones, ret + 1, nxt as int);
                }
            }
            self.hist = Ghost(self.hist@.push(ret));
            Some(ret)
        }
    }
}

impl Subint {
    /// Starts a fresh cursor over the patterns with `ones` set bits inside
    /// this width, positioned on the smallest such pattern.  A request for
    /// more set bits than the width holds starts exhausted instead.
    pub fn permute(&self, ones: u32) -> (r: PermIter)
        ensures
            r.wf(),
            r.width() == self.width(),
            r.target() == ones,
            r.yielded() == Seq::<u32>::empty(),
            r.active() <==> ones <= self.width(),
            r.active() ==> r.current() == raw::mask(ones),
    {
        proof {
            use_type_invariant(self);
        }
        let start: u32 = if ones <= 32 {
            raw::mk_ones(ones)
        } else {
            0
        };
        let it = PermIter {
            subint_count: self.count,
            ones: ones,
            cursor: start,
            done: false,
            hist: Ghost(Seq::<u32>::empty()),
        };
        proof {
            if ones <= self.count {
                raw::lemma_mask_nested(ones, self.count);
                raw::lemma_pattern_bounds(self.count, ones);
                assert forall|v: u32| 0 <= v < raw::mask(ones) implies !raw::is_perm(
                    self.count,
                    ones,
                    v,
                ) by {}
                raw::lemma_count_empty_range(self.count, ones, 0, raw::mask(ones) as int);
            }
        }
        it
    }

    /// Flips exactly the low bits inside this width, leaving every higher
    /// bit of `v` untouched.
    pub fn invert(&self, v: u32) -> (r: u32)
        ensures
            r == spec_invert(self.width(), v),
    {
        proof {
            use_type_invariant(self);
        }
        v ^ raw::mk_ones(self.count)
    }
}

/// Law: inverting a value twice within one width restores the value.
pub proof fn lemma_invert_round_trip(w: u32, v: u32)
    requires
        w <= 32,
        v & raw::mask(w) == v,
    ensures
        spec_invert(w, spec_invert(w, v)) == v,
{
    assert((v ^ raw::mask(w)) ^ raw::mask(w) == v) by (bit_vector);
}

/// Law: every pattern a well-formed cursor has yielded has exactly the
/// target number of set bits, all inside the window.
pub proof fn lemma_yielded_patterns(it: PermIter)
    requires
        it.wf(),
    ensures
        forall|i: int|
            0 <= i < it.yielded().len() ==> raw::is_perm(
                it.width(),
                it.target(),
                #[trigger] it.yielded()[i],
            ),
{
}

/// Law: the patterns a well-formed cursor has yielded are strictly
/// ascending, the wrap-around value included.
pub proof fn lemma_yielded_ascending(it: PermIter)
    requires
        it.wf(),
    ensures
        strictly_ascending(it.yielded()),
{
}

/// Law: a well-formed cursor that has run out, with a target no larger
/// than its width, has yielded exactly `width` choose `target` patterns.
pub proof fn lemma_yielded_count(it: PermIter)
    requires
        it.wf(),
        !it.active(),
        it.target() <= it.width(),
    ensures
        it.yielded().len() == raw::binomial(it.width() as nat, it.target() as nat),
{
    raw::lemma_count_all(it.width(), it.target());
}

} // verus!
