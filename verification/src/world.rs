use vstd::prelude::*;

use crate::bitmap::{Bitmap, HeightMap};
use crate::types::Bit;
use crate::wfc::{lemma_grid_index, lemma_index_grid};

verus! {

/// A voxel position in the grid (integer coordinates); `y` is the vertical
/// axis.
#[derive(Debug, Clone, Copy, PartialEq, Eq, Structural, Hash)]
pub struct VoxelPos {
    pub x: i32,
    pub y: i32,
    pub z: i32,
}

/// One face of a voxel cube.
#[derive(Debug, Clone, Copy, PartialEq, Eq, Structural)]
pub enum Face {
    Front,
    Back,
    Top,
    Bottom,
    Right,
    Left,
}

impl VoxelPos {
    pub fn new(x: i32, y: i32, z: i32) -> (r: Self)
        ensures
            r.x == x,
            r.y == y,
            r.z == z,
    {
        Self { x, y, z }
    }

    /// The neighboring position through the given face.
    pub fn neighbor(&self, face: Face) -> (r: VoxelPos)
        requires
            i32::MIN < self.x < i32::MAX,
            i32::MIN < self.y < i32::MAX,
            i32::MIN < self.z < i32::MAX,
        ensures
            r == (match face {
                Face::Front => VoxelPos { z: (self.z + 1) as i32, ..*self },
                Face::Back => VoxelPos { z: (self.z - 1) as i32, ..*self },
                Face::Top => VoxelPos { y: (self.y + 1) as i32, ..*self },
                Face::Bottom => VoxelPos { y: (self.y - 1) as i32, ..*self },
                Face::Right => VoxelPos { x: (self.x + 1) as i32, ..*self },
                Face::Left => VoxelPos { x: (self.x - 1) as i32, ..*self },
            }),
    {
        match face {
            Face::Front => VoxelPos::new(self.x, self.y, self.z + 1),
            Face::Back => VoxelPos::new(self.x, self.y, self.z - 1),
            Face::Top => VoxelPos::new(self.x, self.y + 1, self.z),
            Face::Bottom => VoxelPos::new(self.x, self.y - 1, self.z),
            Face::Right => VoxelPos::new(self.x + 1, self.y, self.z),
            Face::Left => VoxelPos::new(self.x - 1, self.y, self.z),
        }
    }
}

/// A unit voxel: a position and the terrain category that gives it its
/// material.
#[derive(Debug, Clone, Copy, PartialEq, Eq, Structural)]
pub struct Voxel {
    pub pos: VoxelPos,
    pub bit: Bit,
}

impl Voxel {
    pub fn new(pos: VoxelPos, bit: Bit) -> (r: Self)
        ensures
            r.pos == pos,
            r.bit == bit,
    {
        Self { pos, bit }
    }
}

/// A contiguous run of vertices inside a shared vertex buffer.
pub struct Mesh {
    pub vertex_offset: u64,
    pub num_vertices: u64,
}

impl Mesh {
    pub fn new(vertex_offset: u64, num_vertices: u64) -> (r: Self)
        ensures
            r.vertex_offset == vertex_offset,
            r.num_vertices == num_vertices,
    {
        Mesh { vertex_offset, num_vertices }
    }
}

/// A generated world: the category bitmap and the height map derived from
/// it. Together they determine the voxel volume without rerunning the
/// solver.
pub struct WorldDefinition {
    pub bitmap: Bitmap,
    pub height_map: HeightMap,
}

impl WorldDefinition {
    pub open spec fn wf(self) -> bool {
        &&& self.bitmap.wf()
        &&& self.height_map.bottoms@.len() == self.bitmap.bits@.len()
        &&& self.height_map.tops@.len() == self.bitmap.bits@.len()
    }
}

/// The voxel column of one bitmap cell: everything below sea level is
/// filled with dirt, the span from sea level to `top` takes the cell's own
/// category, and open space yields nothing.
pub open spec fn cell_voxels(bit: Bit, x: int, z: int, bottom: int, top: int) -> Seq<Voxel> {
    if bit == Bit::Space {
        Seq::empty()
    } else {
        Seq::new(
            if bottom < 0 {
                (0 - bottom) as nat
            } else {
                0nat
            },
            |m: int|
                Voxel {
                    pos: VoxelPos { x: x as i32, y: (bottom + m) as i32, z: z as i32 },
                    bit: Bit::Dirt,
                },
        ) + Seq::new(
            if top > 0 {
                top as nat
            } else {
                0nat
            },
            |m: int| Voxel { pos: VoxelPos { x: x as i32, y: m as i32, z: z as i32 }, bit },
        )
    }
}

/// The voxels of the first `c` bitmap cells, cells taken column-major: all
/// rows of column 0 first, then column 1, and so on.
pub open spec fn world_voxels_upto(wd: WorldDefinition, c: int) -> Seq<Voxel>
    decreases c,
{
    if c <= 0 {
        Seq::empty()
    } else {
        let h = wd.bitmap.height as int;
        let w = wd.bitmap.width as int;
        let x = (c - 1) / h;
        let y = (c - 1) % h;
        world_voxels_upto(wd, c - 1) + cell_voxels(
            wd.bitmap.bits@[y * w + x],
            x,
            y,
            wd.height_map.bottoms@[y * w + x] as int,
            wd.height_map.tops@[y * w + x] as int,
        )
    }
}

/// Turn a generated world into its voxel list, cell by cell: dirt fill
/// below sea level, the cell's own category above, nothing for open space.
pub fn bitmap_to_voxels(world_def: WorldDefinition) -> (r: Vec<Voxel>)
    requires
        world_def.wf(),
        world_def.bitmap.bits@.len() < 0x40000000,
    ensures
        r@ == world_voxels_upto(
            world_def,
            world_def.bitmap.width * world_def.bitmap.height,
        ),
{
    let w = world_def.bitmap.width;
    let h = world_def.bitmap.height;
    let n = world_def.bitmap.bits.len();
    let mut voxels: Vec<Voxel> = Vec::new();
    for c in 0..n
        invariant
            world_def.wf(),
            w == world_def.bitmap.width,
            h == world_def.bitmap.height,
            n == world_def.bitmap.bits@.len(),
            n < 0x40000000,
            voxels@ == world_voxels_upto(world_def, c as int),
    {
        proof {
            assert(h > 0) by (nonlinear_arith)
                requires
                    c < n,
                    n == w * h,
                    0 <= w,
                    0 <= h,
            ;
            lemma_index_grid(c as int, h as int, w as int);
        }
        let x = c / h;
        let y = c % h;
        proof {
            lemma_grid_index(x as int, y as int, w as int, h as int);
        }
        let idx = y * w + x;
        let bit = world_def.bitmap.bits[idx];
        let ghost base = voxels@;
        let ghost bottom_g = world_def.height_map.bottoms@[idx as int] as int;
        let ghost top_g = world_def.height_map.tops@[idx as int] as int;
        let is_space = match bit {
            Bit::Space => true,
            _ => false,
        };
        if !is_space {
            let bottom = world_def.height_map.bottoms[idx];
            let top = world_def.height_map.tops[idx];
            let ghost dirt_len: int = if bottom_g < 0 {
                0 - bottom_g
            } else {
                0
            };
            let mut level = bottom;
            while level < 0
                invariant
                    world_def.wf(),
                    w == world_def.bitmap.width,
                    h == world_def.bitmap.height,
                    x < w,
                    y < h,
                    bit == world_def.bitmap.bits@[y * w + x],
                    !(bit == Bit::Space),
                    bottom == world_def.height_map.bottoms@[y * w + x],
                    bottom_g == bottom as int,
                    bottom <= level,
                    level <= 0 || level == bottom,
                    voxels@ == base + Seq::new(
                        (level - bottom) as nat,
                        |m: int|
                            Voxel {
                                pos: VoxelPos {
                                    x: x as i32,
                                    y: (bottom + m) as i32,
                                    z: y as i32,
                                },
                                bit: Bit::Dirt,
                            },
                    ),
                decreases 0 - level,
            {
                let pos = VoxelPos::new(x as i32, level, y as i32);
                let voxel = Voxel::new(pos, Bit::Dirt);
                voxels.push(voxel);
                proof {
                    assert(Seq::new(
                        (level + 1 - bottom) as nat,
                        |m: int|
                            Voxel {
                                pos: VoxelPos {
                                    x: x as i32,
                                    y: (bottom + m) as i32,
                                    z: y as i32,
                                },
                                bit: Bit::Dirt,
                            },
                    ) =~= Seq::new(
                        (level - bottom) as nat,
                        |m: int|
                            Voxel {
                                pos: VoxelPos {
                                    x: x as i32,
                                    y: (bottom + m) as i32,
                                    z: y as i32,
                                },
                                bit: Bit::Dirt,
                            },
                    ).push(
                        Voxel {
                            pos: VoxelPos { x: x as i32, y: level as i32, z: y as i32 },
                            bit: Bit::Dirt,
                        },
                    ));
                }
                level = level + 1;
            }
            let ghost dirt_part = Seq::new(
                dirt_len as nat,
                |m: int|
                    Voxel {
                        pos: VoxelPos { x: x as i32, y: (bottom + m) as i32, z: y as i32 },
                        bit: Bit::Dirt,
                    },
            );
            proof {
                assert(voxels@ == base + dirt_part);
            }
            let mut level2: i32 = 0;
            while level2 < top
                invariant
                    world_def.wf(),
                    w == world_def.bitmap.width,
                    h == world_def.bitmap.height,
                    x < w,
                    y < h,
                    bit == world_def.bitmap.bits@[y * w + x],
                    !(bit == Bit::Space),
                    top == world_def.height_map.tops@[y * w + x],
                    top_g == top as int,
                    0 <= level2,
                    level2 <= top || level2 == 0,
                    voxels@ == base + dirt_part + Seq::new(
                        level2 as nat,
                        |m: int|
                            Voxel {
                                pos: VoxelPos { x: x as i32, y: m as i32, z: y as i32 },
                                bit: bit,
                            },
                    ),
                decreases top - level2,
            {
                let pos = VoxelPos::new(x as i32, level2, y as i32);
                let voxel = Voxel::new(pos, bit);
                voxels.push(voxel);
                proof {
                    assert(Seq::new(
                        (level2 + 1) as nat,
                        |m: int|
                            Voxel {
                                pos: VoxelPos { x: x as i32, y: m as i32, z: y as i32 },
                                bit: bit,
                            },
                    ) =~= Seq::new(
                        level2 as nat,
                        |m: int|
                            Voxel {
                                pos: VoxelPos { x: x as i32, y: m as i32, z: y as i32 },
                                bit: bit,
                            },
                    ).push(Voxel { pos: VoxelPos { x: x as i32, y: level2 as i32, z: y as i32 }, bit: bit }));
                }
                level2 = level2 + 1;
            }
            proof {
                let top_part = Seq::new(
                    if top_g > 0 {
                        top_g as nat
                    } else {
                        0nat
                    },
                    |m: int|
                        Voxel {
                            pos: VoxelPos { x: x as i32, y: m as i32, z: y as i32 },
                            bit: bit,
                        },
                );
                assert(voxels@ == base + dirt_part + top_part);
                assert(cell_voxels(bit, x as int, y as int, bottom_g, top_g) == dirt_part
                    + top_part);
                assert(base + (dirt_part + top_part) =~= base + dirt_part + top_part);
            }
        } else {
            proof {
                assert(cell_voxels(bit, x as int, y as int, bottom_g, top_g) == Seq::<
                    Voxel,
                >::empty());
                assert(base + cell_voxels(bit, x as int, y as int, bottom_g, top_g) =~= base);
            }
        }
        proof {
            assert(voxels@ =~= world_voxels_upto(world_def, c + 1));
        }
    }
    proof {
        assert(n == world_def.bitmap.width * world_def.bitmap.height);
    }
    voxels
}

} // verus!
