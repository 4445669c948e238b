//! Threshold-crossing detection on a sample stream.
use vstd::prelude::*;
use crate::SAMPLE_UNIT;


verus! {

/// Where a sample stream stands relative to a threshold, and whether it
/// just crossed it.
#[derive(Clone, Copy, PartialEq, Eq, Structural)]
pub enum Edge {
    High,
    Low,
    Rose,
    Fell,
}

impl Edge {
    pub fn is_edge(&self) -> (r: bool)
        ensures
            r == (*self == Edge::Rose || *self == Edge::Fell),
    {
        *self == Edge::Rose || *self == Edge::Fell
    }

    pub fn is_high(&self) -> (r: bool)
        ensures
            r == (*self == Edge::Rose || *self == Edge::High),
    {
        *self == Edge::Rose || *self == Edge::High
    }

    pub fn is_low(&self) -> (r: bool)
        ensures
            r == (*self == Edge::Fell || *self == Edge::Low),
    {
        *self == Edge::Fell || *self == Edge::Low
    }

    pub fn rose(&self) -> (r: bool)
        ensures
            r == (*self == Edge::Rose),
    {
        *self == Edge::Rose
    }

    pub fn fell(&self) -> (r: bool)
        ensures
            r == (*self == Edge::Fell),
    {
        *self == Edge::Fell
    }
}

/// The edge classification of `sample` against `threshold`, given the
/// previously seen sample.
pub open spec fn edge_of(previous: i64, sample: i64, threshold: i64) -> Edge {
    if previous < threshold && sample > threshold {
        Edge::Rose
    } else if previous > threshold && sample < threshold {
        Edge::Fell
    } else if sample < threshold {
        Edge::Low
    } else {
        Edge::High
    }
}

/// Remembers the previous sample of a stream and classifies each new one.
#[derive(Clone, Copy)]
pub struct EdgeDetector {
    pub threshold: i64,
    pub previous_sample: i64,
}

impl EdgeDetector {
    /// A detector with the conventional gate threshold of one half.
    pub fn new_default() -> (r: EdgeDetector)
        ensures
            r.threshold == SAMPLE_UNIT / 2,
            r.previous_sample == 0,
    {
        EdgeDetector { threshold: SAMPLE_UNIT / 2, previous_sample: 0 }
    }

    pub fn new(threshold: i64) -> (r: EdgeDetector)
        ensures
            r.threshold == threshold,
            r.previous_sample == 0,
    {
        EdgeDetector { threshold, previous_sample: 0 }
    }

    /// Classify `sample` against the threshold and remember it.
    pub fn step(&mut self, sample: i64) -> (r: Edge)
        ensures
            r == edge_of(old(self).previous_sample, sample, old(self).threshold),
            final(self).previous_sample == sample,
            final(self).threshold == old(self).threshold,
    {
        let edge = if self.previous_sample < self.threshold && sample > self.threshold {
            Edge::Rose
        } else if self.previous_sample > self.threshold && sample < self.threshold {
            Edge::Fell
        } else if sample < self.threshold {
            Edge::Low
        } else {
            Edge::High
        };
        self.previous_sample = sample;
        edge
    }
}

} // verus!
