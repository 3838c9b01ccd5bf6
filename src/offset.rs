use vstd::prelude::*;
use crate::model::{Pos, WorldPos};

verus! {

/// A point `p` moved by the vector `o`, over the integers.
pub open spec fn shift(p: (int, int, int), o: (int, int, int)) -> (int, int, int) {
    (p.0 + o.0, p.1 + o.1, p.2 + o.2)
}

/// A point `p` moved back by the vector `o`, over the integers.
pub open spec fn unshift(p: (int, int, int), o: (int, int, int)) -> (int, int, int) {
    (p.0 - o.0, p.1 - o.1, p.2 - o.2)
}

impl Pos {
    pub open spec fn spec_coords(self) -> (int, int, int) {
        (self.x as int, self.y as int, self.z as int)
    }
}

impl WorldPos {
    pub open spec fn spec_coords(self) -> (int, int, int) {
        (self.x as int, self.y as int, self.z as int)
    }
}

/// The world position of the test-local position `pos` of a test placed at
/// `offset`.
pub open spec fn translated(pos: Pos, offset: Pos) -> WorldPos {
    WorldPos {
        x: (pos.x + offset.x) as i64,
        y: (pos.y + offset.y) as i64,
        z: (pos.z + offset.z) as i64,
    }
}

/// Maps a test-local position to the world by adding the test's offset.
pub fn apply_offset(pos: Pos, offset: Pos) -> (r: WorldPos)
    ensures
        r == translated(pos, offset),
        r.spec_coords() == shift(pos.spec_coords(), offset.spec_coords()),
{
    WorldPos {
        x: pos.x as i64 + offset.x as i64,
        y: pos.y as i64 + offset.y as i64,
        z: pos.z as i64 + offset.z as i64,
    }
}

/// Moving a point by an offset and back again gives the point itself, for
/// every integer point and offset.
pub proof fn lemma_translate_reversible(p: (int, int, int), o: (int, int, int))
    ensures
        unshift(shift(p, o), o) == p,
{
}

} // verus!
