use vstd::prelude::*;

verus! {

/// Byte order of a binary PLOT3D file.
#[derive(Debug, Clone, Copy, PartialEq, Eq, Structural)]
pub enum ByteOrder {
    LittleEndian,
    BigEndian,
}

/// Floating-point precision of the values of a PLOT3D file.
#[derive(Debug, Clone, Copy, PartialEq, Eq, Structural)]
pub enum Precision {
    F32,
    F64,
    Mixed,
}

/// The name under which a precision is reported.
pub open spec fn spec_precision_str(p: Precision) -> Seq<char> {
    match p {
        Precision::F32 => "f32"@,
        Precision::F64 => "f64"@,
        Precision::Mixed => "mixed"@,
    }
}

/// The name under which a byte order is reported.
pub open spec fn spec_byte_order_str(o: ByteOrder) -> Seq<char> {
    match o {
        ByteOrder::LittleEndian => "Little-Endian"@,
        ByteOrder::BigEndian => "Big-Endian"@,
    }
}

/// Width in bytes of one stored value of the given precision
/// (a mixed precision has no width; it is given 0).
pub open spec fn value_width(p: Precision) -> nat {
    match p {
        Precision::F32 => 4,
        Precision::F64 => 8,
        Precision::Mixed => 0,
    }
}

impl Precision {
    /// The name of the precision: "f32", "f64" or "mixed".
    pub fn as_str(&self) -> (s: &'static str)
        ensures
            s@ == spec_precision_str(*self),
    {
        match self {
            Precision::F32 => "f32",
            Precision::F64 => "f64",
            Precision::Mixed => "mixed",
        }
    }
}

/// Report name of a byte order as an owned string.
pub fn byte_order_string(o: ByteOrder) -> (s: String)
    ensures
        s@ == spec_byte_order_str(o),
{
    match o {
        ByteOrder::LittleEndian => "Little-Endian".to_string(),
        ByteOrder::BigEndian => "Big-Endian".to_string(),
    }
}

/// Grid dimensions (I, J, K).
#[derive(Debug, Clone, Copy, PartialEq, Eq, Structural)]
pub struct GridDimensions {
    pub i: u32,
    pub j: u32,
    pub k: u32,
}

impl GridDimensions {
    /// Number of points of a grid with these dimensions.
    pub open spec fn points(self) -> nat {
        self.i as nat * self.j as nat * self.k as nat
    }

    /// Whether no dimension is zero.
    pub open spec fn nonzero(self) -> bool {
        self.i != 0 && self.j != 0 && self.k != 0
    }

    /// Number of points, computed without overflow.
    pub fn point_count(&self) -> (n: u128)
        ensures
            n as nat == self.points(),
            n < 0x1_0000_0000_0000_0000_0000_0000,
    {
        let a = self.i as u128;
        let b = self.j as u128;
        let c = self.k as u128;
        assert(a * b <= 0xffff_fffe_0000_0001) by (nonlinear_arith)
            requires
                a <= 0xffff_ffff,
                b <= 0xffff_ffff,
        ;
        let ab = a * b;
        assert(ab * c <= 0xffff_fffe_0000_0001 * 0xffff_ffff) by (nonlinear_arith)
            requires
                ab <= 0xffff_fffe_0000_0001,
                c <= 0xffff_ffff,
        ;
        ab * c
    }

    /// Number of points as a `usize`; the product must fit.
    pub fn total_points(&self) -> (n: usize)
        requires
            self.points() <= usize::MAX,
        ensures
            n as nat == self.points(),
    {
        let n = self.point_count();
        n as usize
    }
}

/// Errors of the PLOT3D readers.
#[derive(Debug, Clone, Copy, PartialEq, Eq, Structural)]
pub enum Plot3DError {
    /// The data ended before a value could be read completely.
    UnexpectedEof,
    /// Neither byte order gives a grid count in 1..=999.
    InvalidGridCountBothOrders { le: i32, be: i32 },
    /// The grid count is out of range.
    InvalidNumberOfGrids(i32),
    /// A grid has a zero dimension.
    InvalidDimensions(u32, u32, u32),
    /// A coordinate record starts with a non-positive length marker.
    InvalidRecordMarker(i32),
    /// The closing record marker differs from the opening one.
    RecordMarkerMismatch { opening: i32, closing: i32 },
    /// The closing marker of the X record of separate coordinate records differs.
    XRecordMarkerMismatch { opening: i32, closing: i32 },
    /// A coordinate record has a length that matches no known layout.
    InvalidRecordSize { count: u128, size: i32 },
    /// A per-coordinate record has a length other than the expected one.
    RecordSizeMismatch { size: i32, expected_size: i32 },
    /// The closing marker of an IBLANK record differs from the opening one.
    IblankMarkerMismatch { opening: i32, closing: i32 },
    /// The metadata record of a solution file is shorter than announced.
    MetadataRecordTruncated,
    /// NQ is outside 5..=100 (the raw value read from the file).
    InvalidNq(i32),
    /// The Q record length fits neither single nor double precision.
    InvalidQRecordSize { expected_f32: u128, expected_f64: u128, size: i32 },
    /// A function file gives a negative number of functions.
    InvalidFunctionCount(i32),
    /// An ASCII file has no first line.
    EmptyFile,
    /// The first line of an ASCII file is not an integer.
    CannotParseGridCount,
    /// A dimension line is missing.
    MissingDimensionLine,
    /// A dimension line holds a token that is not an unsigned integer.
    CannotParseDimensions,
    /// A dimension line does not hold exactly three values.
    ExpectedThreeDimensions,
    /// A coordinate line holds a token that is not a number.
    CannotParseCoordinate,
    /// The coordinate data ended early.
    IncompleteCoordinates { expected: u128, x: usize, y: usize, z: usize },
    /// A solution line holds a token that is not a number.
    CannotParseValue,
    /// The solution data of a grid ended early.
    IncompleteSolution { grid_index: usize, expected: u128, got: usize },
    /// The line with the given index could not be read as text.
    UnreadableLine(usize),
}

} // verus!
