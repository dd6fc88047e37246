//! The unified tree model every parser produces.

use vstd::prelude::*;
use vstd::string::*;
use crate::decimal::Real;

verus! {

/// A generic labeled tree: the sole output contract of every parser.
///
/// `kind` is a namespaced tag naming the payload's meaning; `data` holds the
/// byte-encoded payload record; `children` are owned exclusively, so the
/// value is a tree by construction.
#[derive(Debug)]
pub struct Node {
    pub name: String,
    pub kind: String,
    pub data: Vec<u8>,
    pub children: Vec<Node>,
}

/// One coordinate block as parallel arrays. `atomic_num[i]` is `-1` for a
/// dummy atom, `-2` for the distinguished placeholder, and the element's
/// number otherwise; coordinates are in angstrom after normalization.
#[derive(Debug)]
pub struct AtomicCoordinates {
    pub atomic_num: Vec<i32>,
    pub x: Vec<Real>,
    pub y: Vec<Real>,
    pub z: Vec<Real>,
}

/// Ghost value of a coordinate block.
pub ghost struct CoordsVal {
    pub nums: Seq<i32>,
    pub xs: Seq<Real>,
    pub ys: Seq<Real>,
    pub zs: Seq<Real>,
}

impl CoordsVal {
    /// The four arrays run in parallel: equal lengths throughout.
    pub open spec fn wf(self) -> bool {
        self.nums.len() == self.xs.len() && self.xs.len() == self.ys.len() && self.ys.len()
            == self.zs.len()
    }

    pub open spec fn empty() -> CoordsVal {
        CoordsVal { nums: seq![], xs: seq![], ys: seq![], zs: seq![] }
    }

    /// The block extended by one atom record.
    pub open spec fn push(self, num: i32, x: Real, y: Real, z: Real) -> CoordsVal {
        CoordsVal {
            nums: self.nums.push(num),
            xs: self.xs.push(x),
            ys: self.ys.push(y),
            zs: self.zs.push(z),
        }
    }
}

impl View for AtomicCoordinates {
    type V = CoordsVal;

    open spec fn view(&self) -> CoordsVal {
        CoordsVal { nums: self.atomic_num@, xs: self.x@, ys: self.y@, zs: self.z@ }
    }
}

impl AtomicCoordinates {
    pub open spec fn wf(self) -> bool {
        self@.wf()
    }

    /// A block with no atoms yet.
    pub fn new() -> (r: AtomicCoordinates)
        ensures
            r@ == CoordsVal::empty(),
    {
        let r = AtomicCoordinates {
            atomic_num: Vec::new(),
            x: Vec::new(),
            y: Vec::new(),
            z: Vec::new(),
        };
        proof {
            assert(r@.nums =~= CoordsVal::empty().nums);
            assert(r@.xs =~= CoordsVal::empty().xs);
            assert(r@.ys =~= CoordsVal::empty().ys);
            assert(r@.zs =~= CoordsVal::empty().zs);
        }
        r
    }

    /// Appends one atom record to all four arrays.
    pub fn push_atom(&mut self, num: i32, x: Real, y: Real, z: Real)
        ensures
            final(self)@ == old(self)@.push(num, x, y, z),
    {
        self.atomic_num.push(num);
        self.x.push(x);
        self.y.push(y);
        self.z.push(z);
    }

    /// Number of atom records, when the arrays agree.
    pub fn len(&self) -> (r: usize)
        requires
            self.wf(),
        ensures
            r == self@.nums.len(),
    {
        self.atomic_num.len()
    }
}

/// Per-file summary record for formats with an overall molecule header.
#[derive(Debug)]
pub struct Molecule {
    pub n_atoms: i32,
    pub atomic_num: Vec<i32>,
    pub charge: i32,
    pub name: String,
}

/// Ghost value of a molecule summary.
pub ghost struct MoleculeVal {
    pub n_atoms: i32,
    pub nums: Seq<i32>,
    pub charge: i32,
    pub name: Seq<char>,
}

impl View for Molecule {
    type V = MoleculeVal;

    open spec fn view(&self) -> MoleculeVal {
        MoleculeVal {
            n_atoms: self.n_atoms,
            nums: self.atomic_num@,
            charge: self.charge,
            name: self.name@,
        }
    }
}

/// Grid metadata and the scalar field of a Gaussian Cube file.
#[derive(Debug)]
pub struct VolumeCube {
    pub comment1: String,
    pub comment2: String,
    pub box_origin: Vec<Real>,
    pub steps_number: Vec<i32>,
    pub steps_size: Vec<Vec<Real>>,
    pub cube_data: Vec<Vec<Vec<Real>>>,
}

/// Ghost value of a volume cube.
pub ghost struct CubeVal {
    pub comment1: Seq<char>,
    pub comment2: Seq<char>,
    pub origin: Seq<Real>,
    pub steps_number: Seq<i32>,
    pub steps_size: Seq<Seq<Real>>,
    pub cube_data: Seq<Seq<Seq<Real>>>,
}

impl View for VolumeCube {
    type V = CubeVal;

    open spec fn view(&self) -> CubeVal {
        CubeVal {
            comment1: self.comment1@,
            comment2: self.comment2@,
            origin: self.box_origin@,
            steps_number: self.steps_number@,
            steps_size: Seq::new(self.steps_size@.len(), |i: int| self.steps_size@[i]@),
            cube_data: Seq::new(
                self.cube_data@.len(),
                |i: int| Seq::new(self.cube_data@[i]@.len(), |j: int| self.cube_data@[i]@[j]@),
            ),
        }
    }
}

/// Tag of a node holding a molecule summary payload.
pub fn kind_molecule() -> (r: String)
    ensures
        r@ == "mircmd:chemistry:molecule"@,
{
    String::from_str("mircmd:chemistry:molecule")
}

/// Tag of a node holding a coordinate-block payload.
pub fn kind_atomic_coordinates() -> (r: String)
    ensures
        r@ == "mircmd:chemistry:atomic_coordinates"@,
{
    String::from_str("mircmd:chemistry:atomic_coordinates")
}

/// Tag of a node holding a volume-cube payload.
pub fn kind_volume_cube() -> (r: String)
    ensures
        r@ == "mircmd:chemistry:volume_cube"@,
{
    String::from_str("mircmd:chemistry:volume_cube")
}

/// Tag of the container node a UNEX file is rooted in.
pub fn kind_unex() -> (r: String)
    ensures
        r@ == "mircmd:chemistry:unex"@,
{
    String::from_str("mircmd:chemistry:unex")
}

} // verus!
