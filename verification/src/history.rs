//! The bounded history of published metrics: the newest points, at most
//! `capacity` of them, oldest first.
use vstd::prelude::*;
use std::collections::VecDeque;
use crate::collector::bounded_push;

verus! {

/// At most `capacity` points, oldest first; a push beyond capacity drops the
/// oldest point.
#[derive(Debug)]
pub struct History<T> {
    capacity: usize,
    points: VecDeque<T>,
}

impl<T> History<T> {
    #[verifier::type_invariant]
    spec fn bounded(self) -> bool {
        0 < self.capacity && self.points@.len() <= self.capacity
    }

    /// The retained points, oldest first.
    pub closed spec fn view_points(&self) -> Seq<T> {
        self.points@
    }

    pub closed spec fn capacity_view(&self) -> nat {
        self.capacity as nat
    }

    /// An empty history of the given capacity.
    pub fn new(capacity: usize) -> (h: Self)
        requires
            capacity > 0,
        ensures
            h.capacity_view() == capacity,
            h.view_points() == Seq::<T>::empty(),
    {
        History { capacity, points: VecDeque::with_capacity(capacity) }
    }

    pub fn capacity(&self) -> (c: usize)
        ensures
            c == self.capacity_view(),
            c > 0,
    {
        proof {
            use_type_invariant(self);
        }
        self.capacity
    }

    /// Appends `point`, dropping the oldest point when the history is full.
    pub fn push(&mut self, point: T)
        ensures
            final(self).capacity_view() == old(self).capacity_view(),
            final(self).view_points() == bounded_push(old(self).view_points(), point, old(self).capacity_view()),
            final(self).view_points().len() <= final(self).capacity_view(),
    {
        proof {
            use_type_invariant(&*self);
        }
        let ghost before = self.points@;
        let mut points: VecDeque<T> = VecDeque::new();
        std::mem::swap(&mut points, &mut self.points);
        if points.len() == self.capacity {
            let _ = points.pop_front();
        }
        points.push_back(point);
        proof {
            let s = before.push(point);
            if s.len() > self.capacity {
                assert(points@ =~= s.subrange(s.len() - self.capacity, s.len() as int));
            } else {
                assert(points@ =~= s);
            }
        }
        self.points = points;
    }

    /// The newest point, if any.
    pub fn current(&self) -> (c: Option<&T>)
        ensures
            self.view_points().len() == 0 ==> c is None,
            self.view_points().len() > 0 ==> c == Some(&self.view_points().last()),
    {
        let n = self.points.len();
        if n == 0 {
            None
        } else {
            Some(&self.points[n - 1])
        }
    }

    /// The retained points, oldest first.
    pub fn points(&self) -> (p: &VecDeque<T>)
        ensures
            p@ == self.view_points(),
    {
        &self.points
    }
}

} // verus!
