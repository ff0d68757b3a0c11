//! Where a tile's picture lies: a file and a rectangle in it.
use vstd::prelude::*;

verus! {

/// A picture: the file it is in, and the rectangle of that file it takes
/// (`width` and `height` 0 mean the whole file, measured when it is loaded).
#[derive(Debug, Clone, Eq, Hash)]
pub struct TextureData {
    pub path: String,
    pub width: u32,
    pub height: u32,
    pub x: u32,
    pub y: u32,
}

impl TextureData {
    /// The whole of the file at `path`, its size not measured yet.
    pub fn new(path: String) -> (data: TextureData)
        ensures
            data.path == path,
            data.width == 0,
            data.height == 0,
            data.x == 0,
            data.y == 0,
    {
        TextureData { path, width: 0, height: 0, x: 0, y: 0 }
    }

    /// The `width` by `height` rectangle at `(x, y)` of the file at `path`.
    pub fn new_full(path: String, width: u32, height: u32, x: u32, y: u32) -> (data: TextureData)
        ensures
            data.path == path,
            data.width == width,
            data.height == height,
            data.x == x,
            data.y == y,
    {
        TextureData { path, width, height, x, y }
    }

    /// Takes the size of the loaded picture, `texture_width` by
    /// `texture_height`, when no size was set (either side 0); a set size stays.
    pub fn size_auto(&mut self, texture_width: u32, texture_height: u32)
        ensures
            final(self).path == old(self).path,
            final(self).x == old(self).x,
            final(self).y == old(self).y,
            old(self).width == 0 || old(self).height == 0 ==> final(self).width == texture_width
                && final(self).height == texture_height,
            old(self).width != 0 && old(self).height != 0 ==> final(self).width == old(self).width
                && final(self).height == old(self).height,
    {
        if self.width == 0 || self.height == 0 {
            self.width = texture_width;
            self.height = texture_height;
        }
    }
}

impl PartialEq for TextureData {
    fn eq(&self, other: &Self) -> (same: bool) {
        let same_path = self.path == other.path;
        same_path && self.width == other.width && self.height == other.height && self.x == other.x
            && self.y == other.y
    }
}

impl vstd::std_specs::cmp::PartialEqSpecImpl for TextureData {
    open spec fn obeys_eq_spec() -> bool {
        true
    }

    open spec fn eq_spec(&self, other: &TextureData) -> bool {
        self.path@ == other.path@ && self.width == other.width && self.height == other.height
            && self.x == other.x && self.y == other.y
    }
}

} // verus!
