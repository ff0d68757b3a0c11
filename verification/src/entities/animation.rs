//! Which animation an entity shows, and how an animation steps through its frames.
use vstd::prelude::*;

verus! {

/// How an animation goes on after its last frame.
#[derive(Clone, Copy, Debug, PartialEq, Eq, Structural)]
pub enum AnimationType {
    /// Back to the first frame.
    Loop,
    /// Back and forth.
    PingPong,
}

/// Which of an entity's animations is shown.
#[derive(Clone, Copy, Debug, PartialEq, Eq, Structural)]
pub enum AnimationState {
    Front,
    Back,
    Left,
    Right,
    Idle,
    Default,
}

/// The frame after `current`, the one before it having been `previous`, in an
/// animation of `frame_count` frames: one further in the direction it was
/// going (forward when it stood still); past either end, the first frame for a
/// loop, the second to last for a ping-pong. Returns the new current frame and
/// the new previous one (the old current).
pub fn advance_frame(current: i32, previous: i32, frame_count: i32, kind: AnimationType) -> (next: (i32, i32))
    requires
        0 <= current < frame_count,
        0 <= previous < frame_count,
    ensures
        next.1 == current,
        ({
            let dir = current - previous;
            let stepped = if dir != 0 { current + dir } else { current + 1 };
            next.0 == if stepped >= frame_count || stepped < 0 {
                match kind {
                    AnimationType::Loop => 0,
                    AnimationType::PingPong => frame_count - 2,
                }
            } else {
                stepped
            }
        }),
{
    let dir: i64 = current as i64 - previous as i64;
    let stepped: i64 = if dir != 0 {
        current as i64 + dir
    } else {
        current as i64 + 1
    };
    if stepped >= frame_count as i64 || stepped < 0 {
        match kind {
            AnimationType::Loop => (0, current),
            AnimationType::PingPong => (frame_count - 2, current),
        }
    } else {
        (stepped as i32, current)
    }
}

} // verus!
