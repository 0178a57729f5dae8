//! Commands sent to render workers and the scanlines that come back.

use std::cmp::Ordering;
use vstd::prelude::*;
use vstd::std_specs::cmp::PartialEqSpecImpl;
use vstd::std_specs::cmp::PartialOrdSpecImpl;

verus! {

/// What a worker is told to do. `C` is the render context that a scanline job
/// carries (scene, image size, sample count, bounce limit).
#[derive(Clone, Debug)]
pub enum RenderCommand<C> {
    /// Leave the work loop.
    Stop,
    /// Render the scanline with row index `line_num`.
    Line { line_num: i32, context: C },
}

/// What a worker does next.
#[derive(Debug)]
pub enum WorkerStep<C> {
    /// Leave the work loop for good.
    Exit,
    /// Render the scanline with row index `line_num` and send it back, then
    /// wait for the next command.
    Render { line_num: i32, context: C },
}

/// Decides what a worker does with what it took from its command queue:
/// `None` stands for a queue that has been closed. A stop command and a
/// closed queue both end the worker; a scanline job is rendered as it is.
pub fn worker_step<C>(received: Option<RenderCommand<C>>) -> (step: WorkerStep<C>)
    ensures
        step == match received {
            None => WorkerStep::Exit,
            Some(RenderCommand::Stop) => WorkerStep::Exit,
            Some(RenderCommand::Line { line_num, context }) => WorkerStep::Render {
                line_num,
                context,
            },
        },
{
    match received {
        None => WorkerStep::Exit,
        Some(RenderCommand::Stop) => WorkerStep::Exit,
        Some(RenderCommand::Line { line_num, context }) => WorkerStep::Render {
            line_num,
            context,
        },
    }
}

/// One finished scanline: its row index and its pixels, left to right. `P` is
/// the pixel type; the pixels are sums over the samples, not yet normalised.
#[derive(Debug)]
pub struct RenderResult<P> {
    pub line_num: i32,
    pub line: Vec<P>,
}

/// The order of two scanlines by row index, reversed: the scanline with the
/// greater row index is the lesser one, so that sorting puts the topmost row
/// first.
pub open spec fn reversed_row_order(left: i32, right: i32) -> Ordering {
    if left > right {
        Ordering::Less
    } else if left < right {
        Ordering::Greater
    } else {
        Ordering::Equal
    }
}

impl<P> RenderResult<P> {
    /// Compares two scanlines by row index alone, in reversed order.
    pub fn cmp(&self, other: &Self) -> (ord: Ordering)
        ensures
            ord == reversed_row_order(self.line_num, other.line_num),
    {
        if self.line_num > other.line_num {
            Ordering::Less
        } else if self.line_num < other.line_num {
            Ordering::Greater
        } else {
            Ordering::Equal
        }
    }
}

impl<P> PartialEq for RenderResult<P> {
    /// Two scanlines are equal when they have the same row index, whatever
    /// their pixels.
    fn eq(&self, other: &Self) -> (same: bool) {
        self.line_num == other.line_num
    }
}

impl<P> PartialEqSpecImpl for RenderResult<P> {
    open spec fn obeys_eq_spec() -> bool {
        true
    }

    open spec fn eq_spec(&self, other: &Self) -> bool {
        self.line_num == other.line_num
    }
}

impl<P> Eq for RenderResult<P> {

}

impl<P> PartialOrd for RenderResult<P> {
    fn partial_cmp(&self, other: &Self) -> (ord: Option<Ordering>) {
        Some(self.cmp(other))
    }
}

impl<P> PartialOrdSpecImpl for RenderResult<P> {
    open spec fn obeys_partial_cmp_spec() -> bool {
        true
    }

    open spec fn partial_cmp_spec(&self, other: &Self) -> Option<Ordering> {
        Some(reversed_row_order(self.line_num, other.line_num))
    }
}

} // verus!
