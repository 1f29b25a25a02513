//! The questions put to the desktop, kept with their answers so that
//! contracts can say what was asked for: each minimum-size question, each
//! move, each request to raise a window and each question for the window in
//! front, in order.
use crate::model::{AspectRatio, BackendError, Rect, Size, WindowBackend, WindowId};
use vstd::prelude::*;

verus! {

/// One question put to the desktop, with its answer.
pub enum DesktopCall {
    /// The smallest size window `id` accepts.
    MinimumSize { id: WindowId, minimum: Result<Size, BackendError> },
    /// Window `id` was asked to take `rect`; the answer is the rectangle it took.
    Move { id: WindowId, rect: Rect, answer: Result<Rect, BackendError> },
    /// Window `id` was asked to come to the front, with the outcome.
    Locate { id: WindowId, outcome: Result<(), BackendError> },
    /// The window in front, if the desktop named one.
    Foreground { window: Option<WindowId> },
}

/// Asks the desktop for the smallest size of window `id` and records the question.
pub(crate) fn ask_minimum_size<B: WindowBackend>(
    backend: &B,
    calls: &mut Ghost<Seq<DesktopCall>>,
    id: WindowId,
    ratio: AspectRatio,
) -> (r: Result<Size, BackendError>)
    ensures
        final(calls)@ == old(calls)@.push(DesktopCall::MinimumSize { id, minimum: r }),
{
    let r = backend.minimum_size(id, ratio);
    proof {
        calls@ = calls@.push(DesktopCall::MinimumSize { id, minimum: r });
    }
    r
}

/// Asks the desktop to move window `id` to `rect` and records the request.
pub(crate) fn request_move<B: WindowBackend>(
    backend: &B,
    calls: &mut Ghost<Seq<DesktopCall>>,
    id: WindowId,
    rect: Rect,
) -> (r: Result<Rect, BackendError>)
    ensures
        final(calls)@ == old(calls)@.push(DesktopCall::Move { id, rect, answer: r }),
{
    let r = backend.move_resize(id, rect);
    proof {
        calls@ = calls@.push(DesktopCall::Move { id, rect, answer: r });
    }
    r
}

/// Asks the desktop to bring window `id` to the front and records the request.
pub(crate) fn request_locate<B: WindowBackend>(
    backend: &B,
    calls: &mut Ghost<Seq<DesktopCall>>,
    id: WindowId,
) -> (r: Result<(), BackendError>)
    ensures
        final(calls)@ == old(calls)@.push(DesktopCall::Locate { id, outcome: r }),
{
    let r = backend.locate(id);
    proof {
        calls@ = calls@.push(DesktopCall::Locate { id, outcome: r });
    }
    r
}

/// Asks the desktop which window is in front and records the answer.
pub(crate) fn ask_foreground<B: WindowBackend>(
    backend: &B,
    calls: &mut Ghost<Seq<DesktopCall>>,
) -> (r: Option<WindowId>)
    ensures
        final(calls)@ == old(calls)@.push(DesktopCall::Foreground { window: r }),
{
    let r = backend.foreground_window();
    proof {
        calls@ = calls@.push(DesktopCall::Foreground { window: r });
    }
    r
}

} // verus!
