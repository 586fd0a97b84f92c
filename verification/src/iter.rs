//! Utilities for iteration with duration objects.
use vstd::prelude::*;
use crate::arithmetic::{add_spec, div_spec, mul_spec, sub_spec};
use crate::binary64::Binary64;
use crate::convert::from_int_spec;
use crate::duration::FloatDuration;

verus! {

/// The point of index `i` on the lattice that starts at `start` and goes on
/// in steps of `step`: `start + step * i`.
pub open spec fn lattice_point(start: Binary64, step: Binary64, i: int) -> Binary64 {
    add_spec(start, mul_spec(step, from_int_spec(i)))
}

/// The distance between two neighbours where `begin` to `end` is divided
/// into `steps` points: `(end - begin) / (steps - 1)`.
pub open spec fn step_between(begin: Binary64, end: Binary64, steps: int) -> Binary64 {
    div_spec(sub_spec(end, begin), from_int_spec(steps - 1))
}

/// An evenly spaced lattice of `FloatDuration`s that is walked once, from
/// either end.
///
/// This type is returned by `subdivide` and friends, and is not meant to be
/// made directly.
#[derive(Debug, Clone, Copy)]
pub struct Subdivide {
    start: FloatDuration,
    step_size: FloatDuration,
    len: usize,
    index: usize,
}

impl Subdivide {
    /// The first point of the lattice, whether or not it has been handed out.
    pub closed spec fn start(self) -> Binary64 {
        self.start@
    }

    /// The distance between two neighbouring points.
    pub closed spec fn step(self) -> Binary64 {
        self.step_size@
    }

    /// The index of the point that `next` hands out.
    pub closed spec fn front(self) -> int {
        self.index as int
    }

    /// One more than the index of the point that `next_back` hands out.
    pub closed spec fn back(self) -> int {
        self.len as int
    }

    /// The front never passes the back.
    #[verifier::type_invariant]
    closed spec fn well_formed(self) -> bool {
        self.index <= self.len
    }

    /// The points that are still to come, in order from the front.
    pub open spec fn remaining(self) -> Seq<Binary64> {
        Seq::new(
            (self.back() - self.front()) as nat,
            |k: int| lattice_point(self.start(), self.step(), self.front() + k),
        )
    }

    /// The lattice of `steps` points from `start` to `end`, at its first point.
    fn new(start: FloatDuration, end: FloatDuration, steps: usize) -> (r: Subdivide)
        requires
            steps >= 2,
        ensures
            r.start() == start@,
            r.step() == step_between(start@, end@, steps as int),
            r.front() == 0,
            r.back() == steps,
    {
        let step_size = end.sub(start).div(Binary64::from_usize(steps - 1));
        Subdivide { start, step_size, len: steps, index: 0 }
    }

    /// The distance between steps in the iteration.
    pub fn step_size(&self) -> (r: FloatDuration)
        ensures
            r@ == self.step(),
    {
        self.step_size
    }

    /// How many points are still to come.
    pub fn len(&self) -> (n: usize)
        ensures
            n == self.remaining().len(),
            n == self.back() - self.front(),
    {
        proof {
            use_type_invariant(self);
        }
        self.len - self.index
    }

    /// The bounds on the number of points still to come: both are that
    /// number.
    pub fn size_hint(&self) -> (r: (usize, Option<usize>))
        ensures
            r.0 == self.remaining().len(),
            r.1 == Some(r.0),
    {
        proof {
            use_type_invariant(self);
        }
        let left = self.len - self.index;
        (left, Some(left))
    }

    /// The next point from the front, if any is left.
    pub fn next(&mut self) -> (r: Option<FloatDuration>)
        ensures
            final(self).start() == old(self).start(),
            final(self).step() == old(self).step(),
            final(self).back() == old(self).back(),
            match r {
                Some(point) => {
                    &&& old(self).remaining().len() > 0
                    &&& point@ == old(self).remaining().first()
                    &&& final(self).front() == old(self).front() + 1
                    &&& final(self).remaining() == old(self).remaining().drop_first()
                },
                None => old(self).remaining().len() == 0 && *final(self) == *old(self),
            },
    {
        proof {
            use_type_invariant(&*self);
        }
        if self.index >= self.len {
            None
        } else {
            let index = self.index;
            self.index = self.index + 1;
            let point = self.start.add(self.step_size.mul(Binary64::from_usize(index)));
            assert(self.remaining() =~= old(self).remaining().drop_first());
            Some(point)
        }
    }

    /// The next point from the back, if any is left.
    pub fn next_back(&mut self) -> (r: Option<FloatDuration>)
        ensures
            final(self).start() == old(self).start(),
            final(self).step() == old(self).step(),
            final(self).front() == old(self).front(),
            match r {
                Some(point) => {
                    &&& old(self).remaining().len() > 0
                    &&& point@ == old(self).remaining().last()
                    &&& final(self).back() == old(self).back() - 1
                    &&& final(self).remaining() == old(self).remaining().drop_last()
                },
                None => old(self).remaining().len() == 0 && *final(self) == *old(self),
            },
    {
        proof {
            use_type_invariant(&*self);
        }
        if self.index >= self.len {
            None
        } else {
            self.len = self.len - 1;
            let index = self.len;
            let point = self.start.add(self.step_size.mul(Binary64::from_usize(index)));
            assert(self.remaining() =~= old(self).remaining().drop_last());
            Some(point)
        }
    }

    /// All the points that are still to come, from the front to the back.
    pub fn collect(self) -> (v: Vec<FloatDuration>)
        ensures
            v@.len() == self.remaining().len(),
            forall|k: int| 0 <= k < v@.len() ==> (#[trigger] v@[k])@ == self.remaining()[k],
    {
        let mut walker = self;
        let mut v: Vec<FloatDuration> = Vec::new();
        proof {
            use_type_invariant(&self);
        }
        loop
            invariant
                walker.start() == self.start(),
                walker.step() == self.step(),
                walker.back() == self.back(),
                self.front() <= walker.front() <= self.back(),
                v@.len() == walker.front() - self.front(),
                forall|k: int| 0 <= k < v@.len() ==> (#[trigger] v@[k])@ == self.remaining()[k],
            decreases walker.back() - walker.front(),
        {
            let ghost before = walker;
            proof {
                use_type_invariant(&walker);
            }
            match walker.next() {
                Some(point) => {
                    assert(point@ == before.remaining()[0]);
                    assert(before.remaining()[0] == self.remaining()[before.front()
                        - self.front()]);
                    v.push(point);
                },
                None => {
                    return v;
                },
            }
        }
    }

    /// All the points that are still to come, from the back to the front.
    pub fn collect_reversed(self) -> (v: Vec<FloatDuration>)
        ensures
            v@.len() == self.remaining().len(),
            forall|k: int|
                0 <= k < v@.len() ==> (#[trigger] v@[k])@ == self.remaining()[v@.len() - 1 - k],
    {
        let mut walker = self;
        let mut v: Vec<FloatDuration> = Vec::new();
        proof {
            use_type_invariant(&self);
        }
        loop
            invariant
                walker.start() == self.start(),
                walker.step() == self.step(),
                walker.front() == self.front(),
                self.front() <= walker.back() <= self.back(),
                v@.len() == self.back() - walker.back(),
                forall|k: int|
                    0 <= k < v@.len() ==> (#[trigger] v@[k])@ == self.remaining()[self.back()
                        - self.front() - 1 - k],
            decreases walker.back() - walker.front(),
        {
            let ghost before = walker;
            proof {
                use_type_invariant(&walker);
            }
            match walker.next_back() {
                Some(point) => {
                    assert(point@ == before.remaining()[before.back() - before.front() - 1]);
                    assert(before.remaining()[before.back() - before.front() - 1]
                        == self.remaining()[before.back() - self.front() - 1]);
                    v.push(point);
                },
                None => {
                    return v;
                },
            }
        }
    }
}

/// Subdivide the distance between two durations into `steps` evenly spaced
/// points.
///
/// The lattice has exactly `steps` points, computed one by one as they are
/// asked for. It includes both ends: the point of index zero is computed
/// from `begin`, and the last one lies at `steps - 1` steps from it. It can
/// be walked from both sides.
///
/// `steps` is at least two, so that the lattice has both ends.
pub fn subdivide(begin: FloatDuration, end: FloatDuration, steps: usize) -> (r: Subdivide)
    requires
        steps >= 2,
    ensures
        r.start() == begin@,
        r.step() == step_between(begin@, end@, steps as int),
        r.front() == 0,
        r.back() == steps,
        r.remaining().len() == steps,
{
    Subdivide::new(begin, end, steps)
}

/// A lattice that hands out the size of its step with each point.
#[derive(Debug, Clone, Copy)]
pub struct SubdivideWithStep {
    points: Subdivide,
}

impl SubdivideWithStep {
    /// The lattice that the points come from.
    pub closed spec fn points(self) -> Subdivide {
        self.points
    }

    /// The next point from the front with the step size, if any point is
    /// left.
    pub fn next(&mut self) -> (r: Option<(FloatDuration, FloatDuration)>)
        ensures
            final(self).points().start() == old(self).points().start(),
            final(self).points().step() == old(self).points().step(),
            final(self).points().back() == old(self).points().back(),
            match r {
                Some(pair) => {
                    &&& old(self).points().remaining().len() > 0
                    &&& pair.0@ == old(self).points().remaining().first()
                    &&& pair.1@ == old(self).points().step()
                    &&& final(self).points().front() == old(self).points().front() + 1
                },
                None => old(self).points().remaining().len() == 0 && *final(self) == *old(self),
            },
    {
        let step = self.points.step_size();
        match self.points.next() {
            Some(point) => Some((point, step)),
            None => None,
        }
    }

    /// How many points are still to come.
    pub fn len(&self) -> (n: usize)
        ensures
            n == self.points().remaining().len(),
    {
        self.points.len()
    }
}

/// Subdivide the distance between two durations into `steps` evenly spaced
/// points and include the step size.
///
/// This is `subdivide` with the step size handed out beside each point, for
/// the common case of a simulation over discrete time steps.
///
/// `steps` is at least two, so that the lattice has both ends.
pub fn subdivide_with_step(begin: FloatDuration, end: FloatDuration, steps: usize) -> (r:
    SubdivideWithStep)
    requires
        steps >= 2,
    ensures
        r.points().start() == begin@,
        r.points().step() == step_between(begin@, end@, steps as int),
        r.points().front() == 0,
        r.points().back() == steps,
{
    SubdivideWithStep { points: subdivide(begin, end, steps) }
}

} // verus!
