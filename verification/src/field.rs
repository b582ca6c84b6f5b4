//! Cost fields and cost volumes: dense arrays of byte costs with bounds-checked
//! lookup, and the positions that address them.

use crate::graph::MAX_NODES;
use vstd::prelude::*;

verus! {

/// The cost that marks a cell no route may stand on.
pub const IMPASSABLE: u8 = 255;

/// A cell of a cost field: column `x`, row `y`.
#[derive(Clone, Copy, Debug, PartialEq, Eq, Structural)]
pub struct Position2D {
    pub x: usize,
    pub y: usize,
}

/// A cell of a cost volume: column `x`, row `y`, layer `layer`.
#[derive(Clone, Copy, Debug, PartialEq, Eq, Structural)]
pub struct Position3D {
    pub x: usize,
    pub y: usize,
    pub layer: usize,
}

/// One of the three dimensions of a volume.
#[derive(Clone, Copy, Debug, PartialEq, Eq, Structural)]
pub enum Axis {
    X,
    Y,
    Layer,
}

/// Why an array was refused as a cost field or volume.
#[derive(Clone, Copy, Debug, PartialEq, Eq, Structural)]
pub enum FieldError {
    /// A dimension is zero.
    EmptyDimension,
    /// The dimensions describe more cells than a search can number.
    TooLarge,
    /// The array does not hold one value per cell.
    LengthMismatch,
    /// The value at `index` is not a byte.
    ValueOutOfRange { index: usize },
    /// The frame at `index` does not have the extent of the first frame.
    FrameMismatch { index: usize },
}

/// A lookup outside the array.
#[derive(Clone, Copy, Debug, PartialEq, Eq, Structural)]
pub struct OutOfBounds;

impl Position2D {
    /// The same cell seen as a cell of a one-layer volume.
    pub open spec fn lifted(self) -> Position3D {
        Position3D { x: self.x, y: self.y, layer: 0 }
    }

    /// The same cell as a cell of a one-layer volume.
    pub fn lift(self) -> (p: Position3D)
        ensures
            p == self.lifted(),
    {
        Position3D { x: self.x, y: self.y, layer: 0 }
    }
}

impl Position3D {
    /// The coordinate of this cell along `axis`.
    pub open spec fn along(self, axis: Axis) -> int {
        match axis {
            Axis::X => self.x as int,
            Axis::Y => self.y as int,
            Axis::Layer => self.layer as int,
        }
    }

    /// The coordinate of this cell along `axis`.
    pub fn coordinate(self, axis: Axis) -> (c: usize)
        ensures
            c == self.along(axis),
    {
        match axis {
            Axis::X => self.x,
            Axis::Y => self.y,
            Axis::Layer => self.layer,
        }
    }

    /// The cell of the layer this cell is in, forgetting the layer.
    pub open spec fn flattened(self) -> Position2D {
        Position2D { x: self.x, y: self.y }
    }
}

impl Axis {
    /// The axis numbered `index`: 0 is `X`, 1 is `Y`, 2 is `Layer`.
    pub open spec fn numbered(index: int) -> Option<Axis> {
        if index == 0 {
            Some(Axis::X)
        } else if index == 1 {
            Some(Axis::Y)
        } else if index == 2 {
            Some(Axis::Layer)
        } else {
            None
        }
    }

    /// The axis numbered `index`, if there is one.
    pub fn from_index(index: usize) -> (a: Option<Axis>)
        ensures
            a == Axis::numbered(index as int),
    {
        if index == 0 {
            Some(Axis::X)
        } else if index == 1 {
            Some(Axis::Y)
        } else if index == 2 {
            Some(Axis::Layer)
        } else {
            None
        }
    }
}

/// What a cost array is, mathematically: its three extents and one cost per cell,
/// rows within a layer and layers one after another. A field is a one-layer volume.
pub struct Terrain {
    pub width: int,
    pub height: int,
    pub depth: int,
    pub cells: Seq<u8>,
}

impl Terrain {
    /// No extent is zero, the cells can be numbered, and there is one cost per cell.
    pub open spec fn wf(self) -> bool {
        &&& 0 < self.width
        &&& 0 < self.height
        &&& 0 < self.depth
        &&& self.width <= usize::MAX
        &&& self.height <= usize::MAX
        &&& self.depth <= usize::MAX
        &&& self.width * self.height * self.depth <= MAX_NODES
        &&& self.cells.len() == self.width * self.height * self.depth
    }

    /// The extent along `axis`.
    pub open spec fn extent(self, axis: Axis) -> int {
        match axis {
            Axis::X => self.width,
            Axis::Y => self.height,
            Axis::Layer => self.depth,
        }
    }

    /// `p` lies inside the array.
    pub open spec fn holds(self, p: Position3D) -> bool {
        p.x < self.width && p.y < self.height && p.layer < self.depth
    }

    /// Where the cost of `p` stands in `cells`.
    pub open spec fn index(self, p: Position3D) -> int {
        (p.layer * self.height + p.y) * self.width + p.x
    }

    /// The cost of `p`.
    pub open spec fn toll(self, p: Position3D) -> u8 {
        self.cells[self.index(p)]
    }

    /// A route may stand on `p`: it lies inside and does not carry the impassable
    /// cost.
    pub open spec fn passable(self, p: Position3D) -> bool {
        self.holds(p) && self.toll(p) < IMPASSABLE
    }

    /// The position whose cost stands at `v` in `cells`.
    pub open spec fn position(self, v: int) -> Position3D {
        Position3D {
            x: (v % self.width) as usize,
            y: ((v / self.width) % self.height) as usize,
            layer: ((v / self.width) / self.height) as usize,
        }
    }

    /// Every position inside has a place in `cells`, and `position` finds it back.
    pub proof fn lemma_index(self, p: Position3D)
        requires
            self.wf(),
            self.holds(p),
        ensures
            0 <= self.index(p) < self.cells.len(),
            self.position(self.index(p)) == p,
    {
        let w = self.width;
        let h = self.height;
        let d = self.depth;
        let row = p.layer * h + p.y;
        assert(0 <= row < h * d) by (nonlinear_arith)
            requires
                0 <= p.layer < d,
                0 <= p.y < h,
                row == p.layer * h + p.y,
        ;
        assert(0 <= row * w + p.x < w * h * d) by (nonlinear_arith)
            requires
                0 <= row < h * d,
                0 <= p.x < w,
        ;
        vstd::arithmetic::div_mod::lemma_fundamental_div_mod_converse(row * w + p.x, w, row, p.x as int);
        vstd::arithmetic::div_mod::lemma_fundamental_div_mod_converse(row, h, p.layer as int, p.y as int);
    }

    /// Every place in `cells` belongs to a position inside, and `index` finds it
    /// back.
    pub proof fn lemma_position(self, v: int)
        requires
            self.wf(),
            0 <= v < self.cells.len(),
        ensures
            self.holds(self.position(v)),
            self.index(self.position(v)) == v,
    {
        let w = self.width;
        let h = self.height;
        let d = self.depth;
        let row = v / w;
        vstd::arithmetic::div_mod::lemma_fundamental_div_mod(v, w);
        vstd::arithmetic::div_mod::lemma_fundamental_div_mod(v / w, h);
        vstd::arithmetic::div_mod::lemma_mod_bound(v, w);
        vstd::arithmetic::div_mod::lemma_div_pos_is_pos(v, w);
        assert(w * h * d == w * (h * d)) by (nonlinear_arith);
        vstd::arithmetic::div_mod::lemma_multiply_divide_lt(v, w, h * d);
        vstd::arithmetic::div_mod::lemma_fundamental_div_mod(row, h);
        vstd::arithmetic::div_mod::lemma_mod_bound(row, h);
        vstd::arithmetic::div_mod::lemma_div_pos_is_pos(row, h);
        vstd::arithmetic::div_mod::lemma_multiply_divide_lt(row, h, d);
        let layer = row / h;
        let y = row % h;
        let x = v % w;
        assert(h * layer == layer * h) by (nonlinear_arith);
        assert(w * row == row * w) by (nonlinear_arith);
        assert(h <= MAX_NODES && w <= MAX_NODES && d <= MAX_NODES) by (nonlinear_arith)
            requires
                0 < w,
                0 < h,
                0 < d,
                w * h * d <= MAX_NODES,
        ;
    }
}

/// Where the cost of `p` stands in an array of the given extents.
pub fn place_of(width: usize, height: usize, depth: usize, p: Position3D) -> (v: usize)
    requires
        0 < width,
        0 < height,
        0 < depth,
        width * height * depth <= usize::MAX,
        p.x < width,
        p.y < height,
        p.layer < depth,
    ensures
        v == (p.layer * height + p.y) * width + p.x,
        v < width * height * depth,
{
    proof {
        assert(p.layer * height + p.y < height * depth && 0 <= p.layer * height) by (nonlinear_arith)
            requires
                0 <= p.layer < depth,
                0 <= p.y < height,
        ;
        assert(height * depth <= width * height * depth) by (nonlinear_arith)
            requires
                0 < width,
                0 < height,
                0 < depth,
        ;
        assert((p.layer * height + p.y) * width + p.x < width * height * depth && 0 <= (p.layer
            * height + p.y) * width) by (nonlinear_arith)
            requires
                0 <= p.layer * height + p.y < height * depth,
                0 <= p.x < width,
        ;
    }
    (p.layer * height + p.y) * width + p.x
}

/// Which of the conditions on a cost array fails first, if any: the extents, then
/// the number of cells, then the number of values.
pub open spec fn shape_fault(width: int, height: int, depth: int, len: int) -> Option<FieldError> {
    if width == 0 || height == 0 || depth == 0 {
        Some(FieldError::EmptyDimension)
    } else if width * height * depth > MAX_NODES {
        Some(FieldError::TooLarge)
    } else if len != width * height * depth {
        Some(FieldError::LengthMismatch)
    } else {
        None
    }
}

/// Decides `shape_fault`.
fn check_shape(width: usize, height: usize, depth: usize, len: usize) -> (r: Option<FieldError>)
    ensures
        r == shape_fault(width as int, height as int, depth as int, len as int),
{
    if width == 0 || height == 0 || depth == 0 {
        return Some(FieldError::EmptyDimension);
    }
    assert(width * height <= 0xffff_ffff_ffff_ffff * 0xffff_ffff_ffff_ffff) by (nonlinear_arith)
        requires
            0 <= width <= 0xffff_ffff_ffff_ffff,
            0 <= height <= 0xffff_ffff_ffff_ffff,
    ;
    let layer: u128 = (width as u128) * (height as u128);
    if layer > MAX_NODES as u128 {
        assert(width * height * depth > MAX_NODES) by (nonlinear_arith)
            requires
                width * height > MAX_NODES,
                depth >= 1,
        ;
        return Some(FieldError::TooLarge);
    }
    assert(layer * depth <= 0x1_0000_0000_0000 * 0xffff_ffff_ffff_ffff) by (nonlinear_arith)
        requires
            0 <= layer <= 0x1_0000_0000_0000,
            0 <= depth <= 0xffff_ffff_ffff_ffff,
    ;
    let all: u128 = layer * (depth as u128);
    if all > MAX_NODES as u128 {
        return Some(FieldError::TooLarge);
    }
    if len as u128 != all {
        return Some(FieldError::LengthMismatch);
    }
    None
}

/// The values of `values` as bytes, where every one of them is a byte.
pub open spec fn as_bytes(values: Seq<i64>) -> Seq<u8> {
    values.map_values(|v: i64| v as u8)
}

/// The least index at which `values` holds something that is not a byte.
pub open spec fn first_misfit(values: Seq<i64>) -> Option<int> {
    if exists|i: int| 0 <= i < values.len() && !(0 <= #[trigger] values[i] <= 255) {
        Some(
            choose|i: int|
                0 <= i < values.len() && !(0 <= #[trigger] values[i] <= 255) && forall|j: int|
                    0 <= j < i ==> 0 <= #[trigger] values[j] <= 255,
        )
    } else {
        None
    }
}

/// Copies `values` into bytes, or reports the first value that is not one.
fn to_bytes(values: &Vec<i64>) -> (r: Result<Vec<u8>, usize>)
    ensures
        match r {
            Ok(bytes) => first_misfit(values@) is None && bytes@ == as_bytes(values@),
            Err(i) => first_misfit(values@) == Some(i as int),
        },
{
    let mut bytes: Vec<u8> = Vec::new();
    let mut i: usize = 0;
    while i < values.len()
        invariant
            i <= values@.len(),
            bytes@.len() == i,
            forall|j: int| 0 <= j < i ==> 0 <= #[trigger] values@[j] <= 255,
            forall|j: int| 0 <= j < i ==> bytes@[j] == values@[j] as u8,
        decreases values@.len() - i,
    {
        let v = values[i];
        if v < 0 || v > 255 {
            proof {
                let m = first_misfit(values@)->0;
                assert(!(0 <= values@[i as int] <= 255));
                assert(m == i as int) by {
                    if m < i {
                        assert(0 <= values@[m] <= 255);
                    } else if m > i {
                        assert(0 <= values@[i as int] <= 255);
                    }
                }
            }
            return Err(i);
        }
        bytes.push(v as u8);
        i += 1;
    }
    proof {
        assert(bytes@ =~= as_bytes(values@));
    }
    Ok(bytes)
}

/// Where the cell `c` of layer `k` stands among the cells of layers of `area`
/// cells each.
pub open spec fn slot(k: int, area: int, c: int) -> int {
    k * area + c
}

/// Two frames are as wide and as high as each other.
pub open spec fn same_extent(a: CostField, b: CostField) -> bool {
    a@.width == b@.width && a@.height == b@.height
}

/// The least index of a frame that does not have the extent of the first.
pub open spec fn first_odd_frame(frames: Seq<CostField>) -> Option<int> {
    if exists|i: int| 0 <= i < frames.len() && !same_extent(#[trigger] frames[i], frames[0]) {
        Some(
            choose|i: int|
                0 <= i < frames.len() && !same_extent(#[trigger] frames[i], frames[0]) && forall|j: int|
                    0 <= j < i ==> same_extent(#[trigger] frames[j], frames[0]),
        )
    } else {
        None
    }
}

/// Why frames cannot be stacked to a volume, if they cannot: there is none, one
/// of them differs in extent from the first, or together they have too many cells.
pub open spec fn stack_fault(frames: Seq<CostField>) -> Option<FieldError> {
    if frames.len() == 0 {
        Some(FieldError::EmptyDimension)
    } else if first_odd_frame(frames) is Some {
        Some(FieldError::FrameMismatch { index: first_odd_frame(frames)->0 as usize })
    } else if frames[0]@.width * frames[0]@.height * frames.len() > MAX_NODES {
        Some(FieldError::TooLarge)
    } else {
        None
    }
}

/// A three-dimensional array of costs.
pub struct CostVolume {
    width: usize,
    height: usize,
    depth: usize,
    cells: Vec<u8>,
}

impl View for CostVolume {
    type V = Terrain;

    closed spec fn view(&self) -> Terrain {
        Terrain {
            width: self.width as int,
            height: self.height as int,
            depth: self.depth as int,
            cells: self.cells@,
        }
    }
}

impl CostVolume {
    #[verifier::type_invariant]
    spec fn inv(&self) -> bool {
        self@.wf()
    }

    /// The volume of `depth` layers of `height` rows of `width` costs that `cells`
    /// holds, layer by layer and row by row.
    pub fn new(width: usize, height: usize, depth: usize, cells: Vec<u8>) -> (r: Result<
        CostVolume,
        FieldError,
    >)
        ensures
            match r {
                Ok(v) => {
                    &&& shape_fault(width as int, height as int, depth as int, cells@.len() as int)
                        is None
                    &&& v@ == (Terrain {
                        width: width as int,
                        height: height as int,
                        depth: depth as int,
                        cells: cells@,
                    })
                    &&& v@.wf()
                },
                Err(e) => shape_fault(width as int, height as int, depth as int, cells@.len() as int)
                    == Some(e),
            },
    {
        match check_shape(width, height, depth, cells.len()) {
            Some(e) => Err(e),
            None => Ok(CostVolume { width, height, depth, cells }),
        }
    }

    /// As `new`, from values that have yet to be shown to be bytes. The shape is
    /// checked first, then the values in order.
    pub fn from_values(width: usize, height: usize, depth: usize, values: &Vec<i64>) -> (r: Result<
        CostVolume,
        FieldError,
    >)
        ensures
            match r {
                Ok(v) => {
                    &&& shape_fault(width as int, height as int, depth as int, values@.len() as int)
                        is None
                    &&& first_misfit(values@) is None
                    &&& v@ == (Terrain {
                        width: width as int,
                        height: height as int,
                        depth: depth as int,
                        cells: as_bytes(values@),
                    })
                    &&& v@.wf()
                },
                Err(e) => match shape_fault(
                    width as int,
                    height as int,
                    depth as int,
                    values@.len() as int,
                ) {
                    Some(fault) => e == fault,
                    None => first_misfit(values@) matches Some(i) && e == (FieldError::ValueOutOfRange {
                        index: i as usize,
                    }),
                },
            },
    {
        match check_shape(width, height, depth, values.len()) {
            Some(e) => Err(e),
            None => match to_bytes(values) {
                Ok(cells) => Ok(CostVolume { width, height, depth, cells }),
                Err(index) => Err(FieldError::ValueOutOfRange { index }),
            },
        }
    }

    /// The volume whose layers are the given frames, in order. The frames must be
    /// of one extent, and together of no more cells than a search can number.
    pub fn stack(frames: &Vec<CostField>) -> (r: Result<CostVolume, FieldError>)
        ensures
            match r {
                Ok(v) => {
                    &&& stack_fault(frames@) is None
                    &&& v@.wf()
                    &&& v@.width == frames@[0]@.width
                    &&& v@.height == frames@[0]@.height
                    &&& v@.depth == frames@.len()
                    &&& forall|p: Position3D|
                        v@.holds(p) ==> #[trigger] v@.toll(p) == frames@[p.layer as int]@.toll(
                            p.flattened().lifted(),
                        )
                },
                Err(e) => stack_fault(frames@) == Some(e),
            },
    {
        let depth = frames.len();
        if depth == 0 {
            return Err(FieldError::EmptyDimension);
        }
        let width = frames[0].width();
        let height = frames[0].height();
        let first = frames[0].cells();
        let area = first.len();
        let ghost w = width as int;
        let ghost h = height as int;
        proof {
            assert(w * h * 1 == w * h) by (nonlinear_arith);
        }
        let mut i: usize = 1;
        while i < depth
            invariant
                1 <= i <= depth,
                depth == frames@.len(),
                w == frames@[0]@.width,
                h == frames@[0]@.height,
                width == w,
                height == h,
                forall|k: int|
                    0 <= k < i ==> (#[trigger] frames@[k])@.width == w && frames@[k]@.height == h,
            decreases depth - i,
        {
            if frames[i].width() != width || frames[i].height() != height {
                proof {
                    let m = first_odd_frame(frames@)->0;
                    assert(!same_extent(frames@[i as int], frames@[0]));
                    assert(m == i as int) by {
                        if m < i {
                            assert(frames@[m]@.width == w);
                        } else if m > i {
                            assert(same_extent(frames@[i as int], frames@[0]));
                        }
                    }
                }
                return Err(FieldError::FrameMismatch { index: i });
            }
            i += 1;
        }
        proof {
            assert forall|k: int| 0 <= k < frames@.len() implies same_extent(
                #[trigger] frames@[k],
                frames@[0],
            ) by {
                assert(frames@[k]@.width == w);
            }
            assert(first_odd_frame(frames@) is None);
        }
        assert(area * depth <= 0x1_0000_0000_0000 * 0xffff_ffff_ffff_ffff) by (nonlinear_arith)
            requires
                0 <= area <= 0x1_0000_0000_0000,
                0 <= depth <= 0xffff_ffff_ffff_ffff,
        ;
        let all: u128 = (area as u128) * (depth as u128);
        assert(w * h * depth == area * depth) by (nonlinear_arith)
            requires
                area == w * h,
        ;
        if all > MAX_NODES as u128 {
            return Err(FieldError::TooLarge);
        }
        let mut cells: Vec<u8> = Vec::new();
        let mut l: usize = 0;
        while l < depth
            invariant
                l <= depth,
                depth == frames@.len(),
                area == w * h,
                area * depth <= MAX_NODES,
                forall|k: int|
                    0 <= k < depth ==> (#[trigger] frames@[k])@.width == w && frames@[k]@.height == h,
                cells@.len() == l * area,
                forall|k: int, c: int|
                    0 <= k < l && 0 <= c < area ==> cells@[#[trigger] slot(k, area as int, c)]
                        == frames@[k]@.cells[c],
            decreases depth - l,
        {
            let frame = frames[l].cells();
            let ghost before = cells@;
            assert(frame@.len() == area) by {
                assert(frames@[l as int]@.width == w);
                assert(w * h * 1 == w * h) by (nonlinear_arith);
            }
            let mut c: usize = 0;
            while c < area
                invariant
                    c <= area,
                    frame@.len() == area,
                    frame@ == frames@[l as int]@.cells,
                    cells@.len() == l * area + c,
                    forall|j: int| 0 <= j < l * area ==> cells@[j] == before[j],
                    before.len() == l * area,
                    forall|j: int| 0 <= j < c ==> cells@[l * area + j] == frame@[j],
                decreases area - c,
            {
                cells.push(frame[c]);
                c += 1;
            }
            proof {
                assert((l + 1) * area == l * area + area) by (nonlinear_arith);
                assert forall|k: int, c: int| 0 <= k < l + 1 && 0 <= c < area implies cells@[#[trigger] slot(
                    k,
                    area as int,
                    c,
                )] == frames@[k]@.cells[c] by {
                    if k < l {
                        assert(0 <= k * area + c < l * area) by (nonlinear_arith)
                            requires
                                0 <= k < l,
                                0 <= c < area,
                        ;
                        assert(before[slot(k, area as int, c)] == frames@[k]@.cells[c]);
                    }
                }
            }
            l += 1;
        }
        proof {
            assert(depth * area == area * depth) by (nonlinear_arith);
            assert(w <= usize::MAX && h <= usize::MAX);
        }
        let volume = CostVolume { width, height, depth, cells };
        proof {
            assert(volume@.wf());
            assert forall|p: Position3D| volume@.holds(p) implies #[trigger] volume@.toll(p)
                == frames@[p.layer as int]@.toll(p.flattened().lifted()) by {
                let t = frames@[p.layer as int]@;
                let c = p.y * w + p.x;
                assert(0 <= c < area && 0 <= p.y * w) by (nonlinear_arith)
                    requires
                        0 <= p.x < w,
                        0 <= p.y < h,
                        c == p.y * w + p.x,
                        area == w * h,
                ;
                assert((p.layer * h + p.y) * w + p.x == p.layer * area + c) by (nonlinear_arith)
                    requires
                        area == w * h,
                        c == p.y * w + p.x,
                ;
                assert(t.index(p.flattened().lifted()) == c) by {
                    assert((0 * t.height + p.y) * t.width == p.y * w) by (nonlinear_arith)
                        requires
                            t.width == w,
                    ;
                }
                assert(frames@[p.layer as int]@.width == w);
                assert(volume@.cells[slot(p.layer as int, area as int, c)] == t.cells[c]);
            }
        }
        Ok(volume)
    }

    /// Number of columns.
    pub fn width(&self) -> (w: usize)
        ensures
            w == self@.width,
    {
        self.width
    }

    /// Number of rows.
    pub fn height(&self) -> (h: usize)
        ensures
            h == self@.height,
    {
        self.height
    }

    /// Number of layers.
    pub fn depth(&self) -> (d: usize)
        ensures
            d == self@.depth,
    {
        self.depth
    }

    /// The extent along `axis`.
    pub fn extent(&self, axis: Axis) -> (e: usize)
        ensures
            e == self@.extent(axis),
    {
        match axis {
            Axis::X => self.width,
            Axis::Y => self.height,
            Axis::Layer => self.depth,
        }
    }

    /// The costs, layer by layer and row by row.
    pub fn cells(&self) -> (c: &Vec<u8>)
        ensures
            c@ == self@.cells,
            self@.wf(),
    {
        proof {
            use_type_invariant(self);
        }
        &self.cells
    }

    /// The cost of `p`, or `OutOfBounds` where `p` lies outside the volume.
    pub fn cost_at(&self, p: Position3D) -> (r: Result<u8, OutOfBounds>)
        ensures
            match r {
                Ok(c) => self@.holds(p) && c == self@.toll(p),
                Err(_) => !self@.holds(p),
            },
    {
        if p.x < self.width && p.y < self.height && p.layer < self.depth {
            proof {
                use_type_invariant(self);
            }
            let n = self.cells.len();
            let v = place_of(self.width, self.height, self.depth, p);
            Ok(self.cells[v])
        } else {
            Err(OutOfBounds)
        }
    }
}

/// A two-dimensional array of costs.
pub struct CostField {
    width: usize,
    height: usize,
    cells: Vec<u8>,
}

impl View for CostField {
    type V = Terrain;

    closed spec fn view(&self) -> Terrain {
        Terrain { width: self.width as int, height: self.height as int, depth: 1, cells: self.cells@ }
    }
}

impl CostField {
    #[verifier::type_invariant]
    spec fn inv(&self) -> bool {
        self@.wf()
    }

    /// The field of `height` rows of `width` costs that `cells` holds, row by row.
    pub fn new(width: usize, height: usize, cells: Vec<u8>) -> (r: Result<CostField, FieldError>)
        ensures
            match r {
                Ok(f) => {
                    &&& shape_fault(width as int, height as int, 1, cells@.len() as int) is None
                    &&& f@ == (Terrain {
                        width: width as int,
                        height: height as int,
                        depth: 1,
                        cells: cells@,
                    })
                    &&& f@.wf()
                },
                Err(e) => shape_fault(width as int, height as int, 1, cells@.len() as int) == Some(e),
            },
    {
        match check_shape(width, height, 1, cells.len()) {
            Some(e) => Err(e),
            None => Ok(CostField { width, height, cells }),
        }
    }

    /// As `new`, from values that have yet to be shown to be bytes. The shape is
    /// checked first, then the values in order.
    pub fn from_values(width: usize, height: usize, values: &Vec<i64>) -> (r: Result<
        CostField,
        FieldError,
    >)
        ensures
            match r {
                Ok(f) => {
                    &&& shape_fault(width as int, height as int, 1, values@.len() as int) is None
                    &&& first_misfit(values@) is None
                    &&& f@ == (Terrain {
                        width: width as int,
                        height: height as int,
                        depth: 1,
                        cells: as_bytes(values@),
                    })
                    &&& f@.wf()
                },
                Err(e) => match shape_fault(width as int, height as int, 1, values@.len() as int) {
                    Some(fault) => e == fault,
                    None => first_misfit(values@) matches Some(i) && e == (FieldError::ValueOutOfRange {
                        index: i as usize,
                    }),
                },
            },
    {
        match check_shape(width, height, 1, values.len()) {
            Some(e) => Err(e),
            None => match to_bytes(values) {
                Ok(cells) => Ok(CostField { width, height, cells }),
                Err(index) => Err(FieldError::ValueOutOfRange { index }),
            },
        }
    }

    /// Number of columns.
    pub fn width(&self) -> (w: usize)
        ensures
            w == self@.width,
    {
        self.width
    }

    /// Number of rows.
    pub fn height(&self) -> (h: usize)
        ensures
            h == self@.height,
            self@.depth == 1,
    {
        self.height
    }

    /// The costs, row by row.
    pub fn cells(&self) -> (c: &Vec<u8>)
        ensures
            c@ == self@.cells,
            self@.wf(),
            self@.depth == 1,
    {
        proof {
            use_type_invariant(self);
        }
        &self.cells
    }

    /// The cost of `p`, or `OutOfBounds` where `p` lies outside the field.
    pub fn cost_at(&self, p: Position2D) -> (r: Result<u8, OutOfBounds>)
        ensures
            match r {
                Ok(c) => self@.holds(p.lifted()) && c == self@.toll(p.lifted()),
                Err(_) => !self@.holds(p.lifted()),
            },
    {
        if p.x < self.width && p.y < self.height {
            proof {
                use_type_invariant(self);
            }
            let n = self.cells.len();
            let v = place_of(self.width, self.height, 1, p.lift());
            Ok(self.cells[v])
        } else {
            Err(OutOfBounds)
        }
    }
}

} // verus!
