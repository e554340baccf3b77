//! Sparse voxel storage: an octree over a cube of side `2^size`, each cell
//! either empty or a colored leaf. A `Leaf` above the bottom level stands for
//! a uniform subtree; a `Branch` splits the cube into eight octants, indexed
//! by the high bit of each coordinate as `4*x + 2*y + z`.

use vstd::prelude::*;

verus! {

use crate::color::Rgba;

/// One subtree: empty space, a uniform colored region, or eight octants.
pub enum TreeBody {
    Empty,
    Leaf(Rgba),
    Branch(Vec<TreeBody>),
}

/// A cubic voxel volume of side `2^size`.
pub struct VoxelTree {
    pub size: u32,
    pub root: TreeBody,
}

/// Largest supported depth: cube side up to `2^20`.
pub const MAX_DEPTH: u32 = 20;

/// `2^s`, defined by doubling.
pub open spec fn side_of_log(s: nat) -> nat
    decreases s,
{
    if s == 0 {
        1
    } else {
        2 * side_of_log((s - 1) as nat)
    }
}

pub proof fn lemma_side_of_log_20()
    ensures
        side_of_log(20) == 0x100000,
{
    reveal_with_fuel(side_of_log, 21);
}

pub proof fn lemma_side_of_log_le(s: nat, t: nat)
    requires
        s <= t,
    ensures
        side_of_log(s) <= side_of_log(t),
        side_of_log(s) >= 1,
    decreases t,
{
    if t > 0 {
        if s == t {
            lemma_side_of_log_le((s - 1) as nat, (t - 1) as nat);
        } else {
            lemma_side_of_log_le(s, (t - 1) as nat);
        }
    }
}

/// A positive power of two.
pub open spec fn is_pow2(n: int) -> bool
    decreases n,
{
    n == 1 || (n >= 2 && n % 2 == 0 && is_pow2(n / 2))
}

proof fn lemma_side_of_log_pow2(s: nat)
    ensures
        is_pow2(side_of_log(s) as int),
    decreases s,
{
    if s > 0 {
        lemma_side_of_log_pow2((s - 1) as nat);
        lemma_side_of_log_le(0, (s - 1) as nat);
    }
}

/// Well-formed subtree for a cube of the given side: branches only above the
/// unit cube, always with exactly eight children, each well-formed for half
/// the side.
pub open spec fn body_wf(b: TreeBody, side: int) -> bool
    decreases side,
{
    match b {
        TreeBody::Empty => true,
        TreeBody::Leaf(_) => true,
        TreeBody::Branch(ch) => side >= 2 && side % 2 == 0 && ch@.len() == 8 && (forall|i: int|
            0 <= i < 8 ==> body_wf(#[trigger] ch@[i], side / 2)),
    }
}

/// Octant index of a coordinate triple within a cube split at `h`.
pub open spec fn oct_of(x: int, y: int, z: int, h: int) -> int {
    (if x >= h {
        4int
    } else {
        0int
    }) + (if y >= h {
        2int
    } else {
        0int
    }) + (if z >= h {
        1int
    } else {
        0int
    })
}

/// The state of the cell at `(x, y, z)` in a subtree of the given side:
/// `None` for empty, `Some(color)` for a leaf.
pub open spec fn cell_at(b: TreeBody, side: int, x: int, y: int, z: int) -> Option<Rgba>
    decreases side,
{
    match b {
        TreeBody::Empty => None,
        TreeBody::Leaf(c) => Some(c),
        TreeBody::Branch(ch) => if side < 2 {
            None
        } else {
            let h = side / 2;
            let oct = oct_of(x, y, z, h);
            cell_at(
                ch@[oct],
                h,
                x - if x >= h {
                    h
                } else {
                    0
                },
                y - if y >= h {
                    h
                } else {
                    0
                },
                z - if z >= h {
                    h
                } else {
                    0
                },
            )
        },
    }
}

impl VoxelTree {
    /// The cube's side length, `2^size`.
    pub open spec fn side_spec(self) -> int {
        side_of_log(self.size as nat) as int
    }

    pub open spec fn wf(self) -> bool {
        self.size <= MAX_DEPTH && body_wf(self.root, self.side_spec())
    }

    pub open spec fn in_bounds(self, x: int, y: int, z: int) -> bool {
        0 <= x < self.side_spec() && 0 <= y < self.side_spec() && 0 <= z < self.side_spec()
    }

    /// The state of one cell of the volume.
    pub open spec fn cell(self, x: int, y: int, z: int) -> Option<Rgba> {
        cell_at(self.root, self.side_spec(), x, y, z)
    }

    /// An empty volume of side `2^size`.
    pub fn new(size: u32) -> (t: VoxelTree)
        requires
            size <= MAX_DEPTH,
        ensures
            t.wf(),
            t.size == size,
            forall|x: int, y: int, z: int| cell_at(t.root, t.side_spec(), x, y, z) is None,
    {
        VoxelTree { size, root: TreeBody::Empty }
    }

    /// The cube's side length as a machine integer.
    pub fn side(&self) -> (s: usize)
        requires
            self.wf(),
        ensures
            s == self.side_spec(),
    {
        let mut s: usize = 1;
        let mut i: u32 = 0;
        proof {
            lemma_side_of_log_20();
        }
        while i < self.size
            invariant
                i <= self.size <= 20,
                s == side_of_log(i as nat),
                side_of_log(20) == 0x100000,
            decreases self.size - i,
        {
            proof {
                lemma_side_of_log_le((i + 1) as nat, 20);
            }
            s = s * 2;
            i = i + 1;
        }
        s
    }

    /// Reads the cell at an in-range coordinate.
    pub fn get(&self, x: usize, y: usize, z: usize) -> (r: Option<Rgba>)
        requires
            self.wf(),
            self.in_bounds(x as int, y as int, z as int),
        ensures
            r == self.cell(x as int, y as int, z as int),
    {
        let side = self.side();
        get_in(&self.root, side, x, y, z)
    }
}

fn set_in(b: &mut TreeBody, side: usize, x: usize, y: usize, z: usize, val: Option<Rgba>)
    requires
        body_wf(*old(b), side as int),
        is_pow2(side as int),
        x < side,
        y < side,
        z < side,
    ensures
        body_wf(*final(b), side as int),
        forall|qx: int, qy: int, qz: int|
            0 <= qx < side && 0 <= qy < side && 0 <= qz < side ==> #[trigger] cell_at(
                *final(b),
                side as int,
                qx,
                qy,
                qz,
            ) == if qx == x && qy == y && qz == z {
                val
            } else {
                cell_at(*old(b), side as int, qx, qy, qz)
            },
    decreases side,
{
    if side == 1 {
        match val {
            Some(c) => {
                *b = TreeBody::Leaf(c);
            },
            None => {
                *b = TreeBody::Empty;
            },
        }
        return;
    }
    let ghost pre = *b;
    match b {
        TreeBody::Branch(_) => {},
        TreeBody::Empty => {
            let mut ch: Vec<TreeBody> = Vec::new();
            ch.push(TreeBody::Empty);
            ch.push(TreeBody::Empty);
            ch.push(TreeBody::Empty);
            ch.push(TreeBody::Empty);
            ch.push(TreeBody::Empty);
            ch.push(TreeBody::Empty);
            ch.push(TreeBody::Empty);
            ch.push(TreeBody::Empty);
            *b = TreeBody::Branch(ch);
        },
        TreeBody::Leaf(c0) => {
            let c = *c0;
            let mut ch: Vec<TreeBody> = Vec::new();
            ch.push(TreeBody::Leaf(c));
            ch.push(TreeBody::Leaf(c));
            ch.push(TreeBody::Leaf(c));
            ch.push(TreeBody::Leaf(c));
            ch.push(TreeBody::Leaf(c));
            ch.push(TreeBody::Leaf(c));
            ch.push(TreeBody::Leaf(c));
            ch.push(TreeBody::Leaf(c));
            *b = TreeBody::Branch(ch);
        },
    }
    let h = side / 2;
    proof {
        let chs = (*b)->Branch_0@;
        assert(forall|i: int| 0 <= i < 8 ==> body_wf(#[trigger] chs[i], h as int));
        assert(body_wf(*b, side as int));
        assert forall|qx: int, qy: int, qz: int|
            0 <= qx < side && 0 <= qy < side && 0 <= qz < side implies #[trigger] cell_at(
            *b,
            side as int,
            qx,
            qy,
            qz,
        ) == cell_at(pre, side as int, qx, qy, qz) by {
            let hh = h as int;
            let q_oct = oct_of(qx, qy, qz, hh);
            assert(0 <= q_oct < 8);
            let sqx = qx - if qx >= hh {
                hh
            } else {
                0int
            };
            let sqy = qy - if qy >= hh {
                hh
            } else {
                0int
            };
            let sqz = qz - if qz >= hh {
                hh
            } else {
                0int
            };
            assert(cell_at(*b, side as int, qx, qy, qz) == cell_at(chs[q_oct], hh, sqx, sqy, sqz));
            if pre is Empty {
                assert(chs[q_oct] == TreeBody::Empty);
                assert(cell_at(chs[q_oct], hh, sqx, sqy, sqz) is None);
            } else if pre is Leaf {
                assert(chs[q_oct] == TreeBody::Leaf(pre->Leaf_0));
                assert(cell_at(chs[q_oct], hh, sqx, sqy, sqz) == Some(pre->Leaf_0));
            }
        }
    }
    let ghost mid = *b;
    let ghost mut newch: Seq<TreeBody> = Seq::empty();
    let xi: usize = if x >= h {
        1
    } else {
        0
    };
    let yi: usize = if y >= h {
        1
    } else {
        0
    };
    let zi: usize = if z >= h {
        1
    } else {
        0
    };
    let oct: usize = 4 * xi + 2 * yi + zi;
    match b {
        TreeBody::Branch(ch) => {
            set_in(&mut ch[oct], h, x - h * xi, y - h * yi, z - h * zi, val);
            proof {
                newch = ch@;
            }
        },
        _ => {
            proof {
                assert(false);
            }
        },
    }
    proof {
        assert((*b)->Branch_0@ == newch);
        assert(newch =~= mid->Branch_0@.update(oct as int, newch[oct as int]));
        assert(body_wf(*b, side as int));
        assert forall|qx: int, qy: int, qz: int|
            0 <= qx < side && 0 <= qy < side && 0 <= qz < side implies #[trigger] cell_at(
            *b,
            side as int,
            qx,
            qy,
            qz,
        ) == if qx == x && qy == y && qz == z {
            val
        } else {
            cell_at(mid, side as int, qx, qy, qz)
        } by {
            let hh = h as int;
            assert(side == 2 * h);
            let q_oct = oct_of(qx, qy, qz, hh);
            assert(0 <= q_oct < 8);
            assert(oct_of(x as int, y as int, z as int, hh) == oct);
            let sqx = qx - if qx >= hh {
                hh
            } else {
                0int
            };
            let sqy = qy - if qy >= hh {
                hh
            } else {
                0int
            };
            let sqz = qz - if qz >= hh {
                hh
            } else {
                0int
            };
            assert(cell_at(*b, side as int, qx, qy, qz) == cell_at(newch[q_oct], hh, sqx, sqy, sqz));
            assert(cell_at(mid, side as int, qx, qy, qz) == cell_at(
                mid->Branch_0@[q_oct],
                hh,
                sqx,
                sqy,
                sqz,
            ));
            if q_oct != oct {
                assert(newch[q_oct] == mid->Branch_0@[q_oct]);
            }
        }
    }
}

impl VoxelTree {
    /// Writes the cell at an in-range coordinate: `Some(color)` stores a
    /// leaf, `None` clears the cell to empty. Every other cell is unchanged.
    pub fn set(&mut self, x: usize, y: usize, z: usize, val: Option<Rgba>)
        requires
            old(self).wf(),
            old(self).in_bounds(x as int, y as int, z as int),
        ensures
            final(self).wf(),
            final(self).size == old(self).size,
            forall|qx: int, qy: int, qz: int|
                old(self).in_bounds(qx, qy, qz) ==> #[trigger] final(self).cell(qx, qy, qz)
                    == if qx == x && qy == y && qz == z {
                    val
                } else {
                    old(self).cell(qx, qy, qz)
                },
    {
        proof {
            lemma_side_of_log_pow2(self.size as nat);
        }
        let side = self.side();
        set_in(&mut self.root, side, x, y, z, val);
    }
}

/// The position of a cell in the octree's depth-first traversal order:
/// octant blocks first, recursively within each octant. The scan that yields
/// seed cells always returns the occupied cell with the smallest such index.
pub open spec fn morton(side: int, x: int, y: int, z: int) -> int
    decreases side,
{
    if side < 2 {
        0
    } else {
        let h = side / 2;
        oct_of(x, y, z, h) * (h * h * h) + morton(
            h,
            x - if x >= h {
                h
            } else {
                0
            },
            y - if y >= h {
                h
            } else {
                0
            },
            z - if z >= h {
                h
            } else {
                0
            },
        )
    }
}

proof fn lemma_morton_range(side: int, x: int, y: int, z: int)
    requires
        is_pow2(side),
        0 <= x < side,
        0 <= y < side,
        0 <= z < side,
    ensures
        0 <= morton(side, x, y, z) < side * side * side,
    decreases side,
{
    if side < 2 {
        assert(side * side * side == 1) by (nonlinear_arith)
            requires side == 1;
    } else {
        let h = side / 2;
        let oct = oct_of(x, y, z, h);
        let sx = x - if x >= h {
            h
        } else {
            0int
        };
        let sy = y - if y >= h {
            h
        } else {
            0int
        };
        let sz = z - if z >= h {
            h
        } else {
            0int
        };
        lemma_morton_range(h, sx, sy, sz);
        let h3 = h * h * h;
        assert(h3 >= 1) by (nonlinear_arith)
            requires h >= 1, h3 == h * h * h;
        assert(0 <= oct * h3 <= 7 * h3) by (nonlinear_arith)
            requires 0 <= oct <= 7, h3 >= 0;
        assert(side * side * side == 8 * h3) by (nonlinear_arith)
            requires side == 2 * h, h3 == h * h * h;
    }
}

proof fn lemma_morton_zero(side: int)
    requires
        is_pow2(side),
    ensures
        morton(side, 0, 0, 0) == 0,
    decreases side,
{
    if side >= 2 {
        let h = side / 2;
        lemma_morton_zero(h);
        let oct = oct_of(0, 0, 0, h);
        assert(oct == 0);
        assert(oct * (h * h * h) == 0) by (nonlinear_arith)
            requires oct == 0;
        assert(morton(side, 0, 0, 0) == oct * (h * h * h) + morton(h, 0, 0, 0));
    }
}

proof fn lemma_morton_pos(side: int, x: int, y: int, z: int)
    requires
        is_pow2(side),
        0 <= x < side,
        0 <= y < side,
        0 <= z < side,
        !(x == 0 && y == 0 && z == 0),
    ensures
        morton(side, x, y, z) > 0,
    decreases side,
{
    if side < 2 {
        assert(false);
    }
    let h = side / 2;
    let oct = oct_of(x, y, z, h);
    let sx = x - if x >= h {
        h
    } else {
        0int
    };
    let sy = y - if y >= h {
        h
    } else {
        0int
    };
    let sz = z - if z >= h {
        h
    } else {
        0int
    };
    lemma_morton_range(h, sx, sy, sz);
    let h3 = h * h * h;
    assert(h3 >= 1) by (nonlinear_arith)
        requires h >= 1, h3 == h * h * h;
    if oct == 0 {
        lemma_morton_pos(h, sx, sy, sz);
    } else {
        assert(oct * h3 >= h3) by (nonlinear_arith)
            requires oct >= 1, h3 >= 0;
    }
}

/// Finds the occupied cell with the smallest depth-first traversal index, or
/// reports that the subtree holds no occupied cell at all.
fn find_in(b: &TreeBody, side: usize) -> (r: Option<(usize, usize, usize, Rgba)>)
    requires
        body_wf(*b, side as int),
        is_pow2(side as int),
    ensures
        match r {
            None => forall|qx: int, qy: int, qz: int|
                0 <= qx < side && 0 <= qy < side && 0 <= qz < side ==> #[trigger] cell_at(
                    *b,
                    side as int,
                    qx,
                    qy,
                    qz,
                ) is None,
            Some(f) => f.0 < side && f.1 < side && f.2 < side && cell_at(
                *b,
                side as int,
                f.0 as int,
                f.1 as int,
                f.2 as int,
            ) == Some(f.3) && forall|qx: int, qy: int, qz: int|
                0 <= qx < side && 0 <= qy < side && 0 <= qz < side && (#[trigger] cell_at(
                    *b,
                    side as int,
                    qx,
                    qy,
                    qz,
                )) is Some && !(qx == f.0 && qy == f.1 && qz == f.2) ==> morton(
                    side as int,
                    qx,
                    qy,
                    qz,
                ) > morton(side as int, f.0 as int, f.1 as int, f.2 as int),
        },
    decreases side,
{
    match b {
        TreeBody::Empty => None,
        TreeBody::Leaf(c) => {
            proof {
                lemma_morton_zero(side as int);
                assert forall|qx: int, qy: int, qz: int|
                    0 <= qx < side && 0 <= qy < side && 0 <= qz < side && cell_at(
                        *b,
                        side as int,
                        qx,
                        qy,
                        qz,
                    ) is Some && !(qx == 0 && qy == 0 && qz == 0) implies morton(
                    side as int,
                    qx,
                    qy,
                    qz,
                ) > morton(side as int, 0, 0, 0) by {
                    lemma_morton_pos(side as int, qx, qy, qz);
                }
            }
            Some((0, 0, 0, *c))
        },
        TreeBody::Branch(ch) => {
            let h = side / 2;
            let ghost hh = h as int;
            let ghost h3 = hh * hh * hh;
            proof {
                assert(h3 >= 1) by (nonlinear_arith)
                    requires hh >= 1, h3 == hh * hh * hh;
            }
            for i in 0..8usize
                invariant
                    body_wf(*b, side as int),
                    is_pow2(side as int),
                    *b is Branch,
                    ch == (*b)->Branch_0,
                    side == 2 * h,
                    1 <= h,
                    is_pow2(h as int),
                    hh == h as int,
                    h3 == hh * hh * hh,
                    ch@.len() == 8,
                    forall|j: int, sx: int, sy: int, sz: int|
                        0 <= j < i && 0 <= sx < h && 0 <= sy < h && 0 <= sz < h ==> (
                        #[trigger] cell_at(ch@[j], h as int, sx, sy, sz)) is None,
            {
                proof {
                    assert(body_wf(ch@[i as int], h as int));
                }
                match find_in(&ch[i], h) {
                    Some(f) => {
                        let (sx, sy, sz, c) = f;
                        let bx: usize = i / 4;
                        let by: usize = (i / 2) % 2;
                        let bz: usize = i % 2;
                        let x = sx + if bx == 1 {
                            h
                        } else {
                            0
                        };
                        let y = sy + if by == 1 {
                            h
                        } else {
                            0
                        };
                        let z = sz + if bz == 1 {
                            h
                        } else {
                            0
                        };
                        proof {
                            assert(i == 4 * bx + 2 * by + bz);
                            assert(oct_of(x as int, y as int, z as int, hh) == i);
                            assert(cell_at(*b, side as int, x as int, y as int, z as int)
                                == cell_at(ch@[i as int], hh, sx as int, sy as int, sz as int));
                            assert(morton(side as int, x as int, y as int, z as int) == i * h3
                                + morton(hh, sx as int, sy as int, sz as int));
                            lemma_morton_range(hh, sx as int, sy as int, sz as int);
                            assert forall|qx: int, qy: int, qz: int|
                                0 <= qx < side && 0 <= qy < side && 0 <= qz < side && cell_at(
                                    *b,
                                    side as int,
                                    qx,
                                    qy,
                                    qz,
                                ) is Some && !(qx == x && qy == y && qz == z) implies morton(
                                side as int,
                                qx,
                                qy,
                                qz,
                            ) > morton(side as int, x as int, y as int, z as int) by {
                                let q_oct = oct_of(qx, qy, qz, hh);
                                assert(0 <= q_oct < 8);
                                let sqx = qx - if qx >= hh {
                                    hh
                                } else {
                                    0int
                                };
                                let sqy = qy - if qy >= hh {
                                    hh
                                } else {
                                    0int
                                };
                                let sqz = qz - if qz >= hh {
                                    hh
                                } else {
                                    0int
                                };
                                assert(cell_at(*b, side as int, qx, qy, qz) == cell_at(
                                    ch@[q_oct],
                                    hh,
                                    sqx,
                                    sqy,
                                    sqz,
                                ));
                                assert(morton(side as int, qx, qy, qz) == q_oct * h3 + morton(
                                    hh,
                                    sqx,
                                    sqy,
                                    sqz,
                                ));
                                lemma_morton_range(hh, sqx, sqy, sqz);
                                if q_oct < i as int {
                                    assert(false);
                                } else if q_oct == i as int {
                                    assert(morton(hh, sqx, sqy, sqz) > morton(
                                        hh,
                                        sx as int,
                                        sy as int,
                                        sz as int,
                                    ));
                                } else {
                                    assert((i as int + 1) * h3 <= q_oct * h3) by (nonlinear_arith)
                                        requires i as int + 1 <= q_oct, h3 >= 0;
                                    assert((i as int + 1) * h3 == i as int * h3 + h3)
                                        by (nonlinear_arith);
                                }
                            }
                        }
                        return Some((x, y, z, c));
                    },
                    None => {},
                }
            }
            proof {
                assert forall|qx: int, qy: int, qz: int|
                    0 <= qx < side && 0 <= qy < side && 0 <= qz < side implies #[trigger] cell_at(
                    *b,
                    side as int,
                    qx,
                    qy,
                    qz,
                ) is None by {
                    let q_oct = oct_of(qx, qy, qz, hh);
                    assert(0 <= q_oct < 8);
                    let sqx = qx - if qx >= hh {
                        hh
                    } else {
                        0int
                    };
                    let sqy = qy - if qy >= hh {
                        hh
                    } else {
                        0int
                    };
                    let sqz = qz - if qz >= hh {
                        hh
                    } else {
                        0int
                    };
                    assert(cell_at(*b, side as int, qx, qy, qz) == cell_at(
                        ch@[q_oct],
                        hh,
                        sqx,
                        sqy,
                        sqz,
                    ));
                }
            }
            None
        },
    }
}

/// A well-formed volume's side lies between one and `2^20`.
pub proof fn lemma_side_bound(t: VoxelTree)
    requires
        t.wf(),
    ensures
        1 <= t.side_spec() <= 0x100000,
{
    lemma_side_of_log_20();
    lemma_side_of_log_le(t.size as nat, 20);
}

/// The traversal index of every in-range cell of a volume lies in
/// `[0, side^3)`.
pub proof fn lemma_tree_morton_range(t: VoxelTree, x: int, y: int, z: int)
    requires
        t.wf(),
        t.in_bounds(x, y, z),
    ensures
        0 <= morton(t.side_spec(), x, y, z) < t.side_spec() * t.side_spec() * t.side_spec(),
{
    lemma_side_of_log_pow2(t.size as nat);
    lemma_morton_range(t.side_spec(), x, y, z);
}

impl VoxelTree {
    /// Returns the occupied cell that the depth-first octant scan reaches
    /// first — the occupied coordinate with the smallest `morton` index —
    /// together with its color, or `None` when the volume is empty.
    pub fn find_any_occupied(&self) -> (r: Option<(usize, usize, usize, Rgba)>)
        requires
            self.wf(),
        ensures
            match r {
                None => forall|qx: int, qy: int, qz: int|
                    self.in_bounds(qx, qy, qz) ==> #[trigger] self.cell(qx, qy, qz) is None,
                Some(f) => self.in_bounds(f.0 as int, f.1 as int, f.2 as int) && self.cell(
                    f.0 as int,
                    f.1 as int,
                    f.2 as int,
                ) == Some(f.3) && forall|qx: int, qy: int, qz: int|
                    self.in_bounds(qx, qy, qz) && (#[trigger] self.cell(qx, qy, qz)) is Some && !(
                    qx == f.0 && qy == f.1 && qz == f.2) ==> morton(self.side_spec(), qx, qy, qz)
                        > morton(self.side_spec(), f.0 as int, f.1 as int, f.2 as int),
            },
    {
        proof {
            lemma_side_of_log_pow2(self.size as nat);
        }
        let side = self.side();
        find_in(&self.root, side)
    }
}

fn get_in(b: &TreeBody, side: usize, x: usize, y: usize, z: usize) -> (r: Option<Rgba>)
    requires
        body_wf(*b, side as int),
        1 <= side,
        x < side,
        y < side,
        z < side,
    ensures
        r == cell_at(*b, side as int, x as int, y as int, z as int),
    decreases side,
{
    match b {
        TreeBody::Empty => None,
        TreeBody::Leaf(c) => Some(*c),
        TreeBody::Branch(ch) => {
            let h = side / 2;
            let xi = if x >= h {
                1
            } else {
                0
            };
            let yi = if y >= h {
                1
            } else {
                0
            };
            let zi = if z >= h {
                1
            } else {
                0
            };
            let oct: usize = 4 * xi + 2 * yi + zi;
            get_in(&ch[oct], h, x - h * xi, y - h * yi, z - h * zi)
        },
    }
}

} // verus!
