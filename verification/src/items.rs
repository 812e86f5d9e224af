//! The materials a voxel can be made of.

use vstd::prelude::*;

verus! {

/// Number of materials; block identifiers are `0..ITEM_COUNT`.
pub const ITEM_COUNT: u16 = 8;

/// The six face directions, as unit steps on the grid: left, bottom, back,
/// right, top, front.
pub const FACES: [[i8; 3]; 6] = [[-1, 0, 0], [0, -1, 0], [0, 0, -1], [1, 0, 0], [0, 1, 0], [0, 0, 1]];

/// The materials by name, in the order of their block identifiers.
#[derive(Clone, Copy, Debug, PartialEq, Eq, Structural)]
pub enum Items {
    Air,
    Dirt,
    Grass,
    Stone,
    Glass,
    Wood,
    Leave,
    Sand,
}

/// What the engine knows of one material.
#[derive(Clone, Copy, Debug)]
pub struct Item {
    pub name: &'static str,
    pub id: u16,
    pub is_transparent: bool,
    pub is_solid: bool,
    /// Texture layer for each face direction, in the order of `FACES`.
    pub textures: [u16; 6],
    /// How much light passes through a voxel of this material, in tenths:
    /// 0 lets none through, 10 lets all of it through.
    pub light_multiplier: u8,
}

impl Items {
    /// The block identifier of a material.
    pub open spec fn spec_id(self) -> u16 {
        match self {
            Items::Air => 0,
            Items::Dirt => 1,
            Items::Grass => 2,
            Items::Stone => 3,
            Items::Glass => 4,
            Items::Wood => 5,
            Items::Leave => 6,
            Items::Sand => 7,
        }
    }

    /// The block identifier of a material.
    #[verifier::when_used_as_spec(spec_id)]
    pub fn id(self) -> (id: u16)
        ensures
            id == self.spec_id(),
            id < ITEM_COUNT,
    {
        match self {
            Items::Air => 0,
            Items::Dirt => 1,
            Items::Grass => 2,
            Items::Stone => 3,
            Items::Glass => 4,
            Items::Wood => 5,
            Items::Leave => 6,
            Items::Sand => 7,
        }
    }
}

/// Whether light and sight pass through the material `id`.
pub open spec fn item_is_transparent(id: u16) -> bool {
    id == 0 || id == 4 || id == 6
}

/// Whether the material `id` takes up its cell.
pub open spec fn item_is_solid(id: u16) -> bool {
    id != 0
}

/// The light multiplier of the material `id`, in tenths.
pub open spec fn item_light_multiplier(id: u16) -> u8 {
    if id == 0 {
        10
    } else if id == 4 {
        9
    } else if id == 6 {
        8
    } else {
        0
    }
}

/// The texture layers of the material `id`, one for each face direction.
pub open spec fn item_textures(id: u16) -> Seq<u16> {
    if id == 1 {
        seq![1u16, 1u16, 1u16, 1u16, 1u16, 1u16]
    } else if id == 2 {
        seq![2u16, 1u16, 2u16, 2u16, 7u16, 2u16]
    } else if id == 4 {
        seq![3u16, 3u16, 3u16, 3u16, 3u16, 3u16]
    } else if id == 5 {
        seq![5u16, 6u16, 5u16, 5u16, 6u16, 5u16]
    } else if id == 6 {
        seq![16u16, 16u16, 16u16, 16u16, 16u16, 16u16]
    } else if id == 7 {
        seq![10u16, 10u16, 10u16, 10u16, 10u16, 10u16]
    } else {
        seq![0u16, 0u16, 0u16, 0u16, 0u16, 0u16]
    }
}

/// The name of the material `id`.
pub open spec fn item_name(id: u16) -> &'static str {
    if id == 0 {
        "Air"
    } else if id == 1 {
        "Dirt"
    } else if id == 2 {
        "Grass"
    } else if id == 3 {
        "Stone"
    } else if id == 4 {
        "Glass"
    } else if id == 5 {
        "Wood"
    } else if id == 6 {
        "Leave"
    } else {
        "Sand"
    }
}

/// The table entry of a material.
pub fn item(id: u16) -> (entry: Item)
    requires
        id < ITEM_COUNT,
    ensures
        entry.id == id,
        entry.name == item_name(id),
        entry.is_transparent == item_is_transparent(id),
        entry.is_solid == item_is_solid(id),
        entry.light_multiplier == item_light_multiplier(id),
        entry.textures@ == item_textures(id),
        entry.light_multiplier <= 10,
{
    if id == 0 {
        Item { name: "Air", id: 0, is_transparent: true, is_solid: false, textures: [0, 0, 0, 0, 0, 0], light_multiplier: 10 }
    } else if id == 1 {
        Item { name: "Dirt", id: 1, is_transparent: false, is_solid: true, textures: [1, 1, 1, 1, 1, 1], light_multiplier: 0 }
    } else if id == 2 {
        Item { name: "Grass", id: 2, is_transparent: false, is_solid: true, textures: [2, 1, 2, 2, 7, 2], light_multiplier: 0 }
    } else if id == 3 {
        Item { name: "Stone", id: 3, is_transparent: false, is_solid: true, textures: [0, 0, 0, 0, 0, 0], light_multiplier: 0 }
    } else if id == 4 {
        Item { name: "Glass", id: 4, is_transparent: true, is_solid: true, textures: [3, 3, 3, 3, 3, 3], light_multiplier: 9 }
    } else if id == 5 {
        Item { name: "Wood", id: 5, is_transparent: false, is_solid: true, textures: [5, 6, 5, 5, 6, 5], light_multiplier: 0 }
    } else if id == 6 {
        Item { name: "Leave", id: 6, is_transparent: true, is_solid: true, textures: [16, 16, 16, 16, 16, 16], light_multiplier: 8 }
    } else {
        Item { name: "Sand", id: 7, is_transparent: false, is_solid: true, textures: [10, 10, 10, 10, 10, 10], light_multiplier: 0 }
    }
}

} // verus!
