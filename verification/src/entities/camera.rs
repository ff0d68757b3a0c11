//! The camera: the part of the level shown on the screen.
use vstd::prelude::*;

verus! {

/// The rectangle of the level shown: top left corner and size, in pixels.
#[derive(Clone, Copy, Debug, PartialEq, Eq, Structural)]
pub struct Camera {
    pub x: i32,
    pub y: i32,
    pub width: u32,
    pub height: u32,
}

impl Camera {
    /// A camera at `(x, y)` showing `width` by `height` pixels.
    pub fn new(x: i32, y: i32, width: u32, height: u32) -> (camera: Camera)
        ensures
            camera.x == x,
            camera.y == y,
            camera.width == width,
            camera.height == height,
    {
        Camera { x, y, width, height }
    }

    /// Moves the camera by `(x, y)`.
    pub fn move_camera(&mut self, x: i32, y: i32)
        requires
            i32::MIN <= old(self).x + x <= i32::MAX,
            i32::MIN <= old(self).y + y <= i32::MAX,
        ensures
            final(self).x == old(self).x + x,
            final(self).y == old(self).y + y,
            final(self).width == old(self).width,
            final(self).height == old(self).height,
    {
        self.x = self.x + x;
        self.y = self.y + y;
    }

    /// Puts the camera's corner at `(x, y)`.
    pub fn set_camera(&mut self, x: i32, y: i32)
        ensures
            final(self).x == x,
            final(self).y == y,
            final(self).width == old(self).width,
            final(self).height == old(self).height,
    {
        self.x = x;
        self.y = y;
    }

    /// The middle of the shown rectangle (halves rounded toward zero), the
    /// size taken as an `i32` as it is stored.
    pub fn get_camera_center(&self) -> (center: (i32, i32))
        requires
            i32::MIN <= self.x + half(self.width as i32) <= i32::MAX,
            i32::MIN <= self.y + half(self.height as i32) <= i32::MAX,
        ensures
            center.0 == self.x + half(self.width as i32),
            center.1 == self.y + half(self.height as i32),
            self.width <= i32::MAX ==> center.0 == self.x + self.width / 2,
            self.height <= i32::MAX ==> center.1 == self.y + self.height / 2,
    {
        (self.x + self.width as i32 / 2, self.y + self.height as i32 / 2)
    }
}

/// Half of `v`, rounded toward zero.
pub open spec fn half(v: i32) -> int {
    if v >= 0 {
        v / 2
    } else {
        -((-v) / 2)
    }
}

/// The middle of the rectangle shown by `c`.
pub open spec fn center_of(c: Camera) -> (int, int) {
    (c.x + c.width / 2, c.y + c.height / 2)
}

/// Moving the camera by `(dx, dy)` and then by `(-dx, -dy)` puts it back where
/// it was; on the way its size stays and its centre moves by `(dx, dy)`.
pub proof fn lemma_move_and_back(c0: Camera, c1: Camera, c2: Camera, dx: int, dy: int)
    requires
        c1.x == c0.x + dx,
        c1.y == c0.y + dy,
        c1.width == c0.width,
        c1.height == c0.height,
        c2.x == c1.x + (-dx),
        c2.y == c1.y + (-dy),
        c2.width == c1.width,
        c2.height == c1.height,
    ensures
        c2 == c0,
        center_of(c1) == (center_of(c0).0 + dx, center_of(c0).1 + dy),
{
}

} // verus!
