use crate::utilities::{ivec3, IVec3};
use vstd::prelude::*;

verus! {

/// Which cells around a cell count as its neighbours.
#[derive(Clone, Copy, PartialEq, Eq, Debug, Structural)]
pub enum Neighbourhood {
    /// The 6 cells that share a face with the cell.
    VonNeumann,
    /// The 26 cells that share a face, an edge or a corner with the cell.
    Moore,
}

/// The `k`-th Von Neumann offset: `+x, +y, +z, -x, -y, -z`.
pub open spec fn von_neumann_offset(k: int) -> IVec3 {
    let s: i32 = if k < 3 { 1i32 } else { -1i32 };
    let axis = k % 3;
    IVec3 {
        x: if axis == 0 { s } else { 0 },
        y: if axis == 1 { s } else { 0 },
        z: if axis == 2 { s } else { 0 },
    }
}

/// The `k`-th Moore offset: the 27 points of `{-1, 0, 1}³` with `x` fastest, then `y`,
/// then `z`, leaving out the centre.
pub open spec fn moore_offset(k: int) -> IVec3 {
    let m = if k < 13 { k } else { k + 1 };
    IVec3 { x: (m % 3 - 1) as i32, y: ((m / 3) % 3 - 1) as i32, z: (m / 9 - 1) as i32 }
}

/// Position of the offset opposite to the `k`-th one.
pub open spec fn mirror_index(nh: Neighbourhood, k: int) -> int {
    match nh {
        Neighbourhood::VonNeumann => (k + 3) % 6,
        Neighbourhood::Moore => 25 - k,
    }
}

impl Neighbourhood {
    /// The offsets of the neighbourhood, in the order in which they are applied.
    pub open spec fn offsets(self) -> Seq<IVec3> {
        match self {
            Neighbourhood::VonNeumann => Seq::new(6, |k: int| von_neumann_offset(k)),
            Neighbourhood::Moore => Seq::new(26, |k: int| moore_offset(k)),
        }
    }

    /// The offsets of the neighbourhood: 6 for Von Neumann, 26 for Moore.
    pub fn get_neighbourhood_iter(&self) -> (r: Vec<IVec3>)
        ensures
            r@ == self.offsets(),
    {
        let mut r: Vec<IVec3> = Vec::new();
        match self {
            Neighbourhood::VonNeumann => {
                r.push(ivec3(1, 0, 0));
                r.push(ivec3(0, 1, 0));
                r.push(ivec3(0, 0, 1));
                r.push(ivec3(-1, 0, 0));
                r.push(ivec3(0, -1, 0));
                r.push(ivec3(0, 0, -1));
                assert(r@ =~= self.offsets());
            },
            Neighbourhood::Moore => {
                let mut m: i32 = 0;
                while m < 27
                    invariant
                        0 <= m <= 27,
                        r@.len() == if m <= 13 { m as int } else { m - 1 },
                        forall|k: int| 0 <= k < r@.len() ==> #[trigger] r@[k] == moore_offset(k),
                    decreases 27 - m,
                {
                    if m != 13 {
                        r.push(ivec3(m % 3 - 1, (m / 3) % 3 - 1, m / 9 - 1));
                    }
                    m += 1;
                }
                assert(r@ =~= self.offsets());
            },
        }
        r
    }
}

/// Each offset of a neighbourhood is in `{-1, 0, 1}³`, and the offset at the mirror
/// position is its negation.
pub proof fn lemma_offsets_symmetric(nh: Neighbourhood)
    ensures
        forall|k: int|
            0 <= k < nh.offsets().len() ==> {
                let d = #[trigger] nh.offsets()[k];
                let e = nh.offsets()[mirror_index(nh, k)];
                &&& 0 <= mirror_index(nh, k) < nh.offsets().len()
                &&& mirror_index(nh, mirror_index(nh, k)) == k
                &&& -1 <= d.x <= 1 && -1 <= d.y <= 1 && -1 <= d.z <= 1
                &&& e.x == -d.x && e.y == -d.y && e.z == -d.z
            },
        nh.offsets().len() <= 26,
{
}

} // verus!
