//! Map cells as the build-time map data stores them.

use vstd::prelude::*;

verus! {

/// Layer slot value marking "no tile here".
pub const INVALID_TILE: u16 = 0xffff;

/// The number of real layers in a cell: the index of the first
/// `INVALID_TILE` slot from `i` on, or all four when every slot is real.
pub open spec fn spec_stack_len_from(layers: Seq<u16>, i: int) -> int
    recommends
        layers.len() == 4,
        0 <= i <= 4,
    decreases 4 - i,
{
    if i < 0 || i >= 4 {
        4
    } else if layers[i] == INVALID_TILE {
        i
    } else {
        spec_stack_len_from(layers, i + 1)
    }
}

/// One map cell: up to `NUM_LAYERS` tile-table indices, base first,
/// unused slots holding `INVALID_TILE`.
#[derive(Clone, Copy, Debug)]
pub struct MapTile {
    pub layers: [u16; 4],
}

impl MapTile {
    /// The stack of real layers: exactly the slots before the first
    /// invalid one, in order, as tile handles.
    pub fn stack(&self) -> (r: crate::tile::GenMapTile)
        ensures
            r.layers@.len() == spec_stack_len_from(self.layers@, 0),
            forall|i: int| 0 <= i < r.layers@.len()
                ==> (#[trigger] r.layers@[i]).0 == self.layers@[i] as u32
                    && self.layers@[i] != INVALID_TILE,
    {
        let mut layers: Vec<crate::tile::TileId> = Vec::new();
        let mut i: usize = 0;
        while i < 4
            invariant
                0 <= i <= 4,
                layers@.len() == i,
                spec_stack_len_from(self.layers@, 0) == spec_stack_len_from(self.layers@, i as int),
                forall|k: int| 0 <= k < layers@.len()
                    ==> (#[trigger] layers@[k]).0 == self.layers@[k] as u32
                        && self.layers@[k] != INVALID_TILE,
            decreases 4 - i,
        {
            let v = self.layers[i];
            if v == INVALID_TILE {
                proof {
                    assert(spec_stack_len_from(self.layers@, i as int) == i as int);
                }
                return crate::tile::GenMapTile { layers };
            }
            layers.push(crate::tile::TileId(v as u32));
            i += 1;
        }
        proof {
            assert(spec_stack_len_from(self.layers@, 4) == 4);
        }
        crate::tile::GenMapTile { layers }
    }
}

} // verus!
