//! Buffers of numbers: the description that comes with foreign memory, how
//! its elements are gathered, and the pool that memory is taken from.

use crate::status::{Error, ErrorView};
use crate::text::{cat2, cat3, cat4, cat5, decimal, decimal_of_size, digit, signed_decimal};
use vstd::prelude::*;

verus! {

/// The flag of a buffer that must not be written to.
pub const BUF_FLAG_READONLY: u32 = 1;

/// The main memory.
pub const DEVICE_CPU: i32 = 0;

/// A description of foreign memory.
pub struct BufferDescriptor {
    /// Where the first element lies; zero for nowhere.
    pub address: usize,
    /// The sizes of the dimensions. Its length is that of the foreign array;
    /// only the first `ndim` entries count.
    pub shape: Vec<i64>,
    /// How many bytes one step along each dimension is, in either direction.
    pub strides: Vec<i64>,
    pub ndim: i32,
    pub dtype: i32,
    pub flags: u32,
    pub device: i32,
    pub reserved: (i64, i64),
}

/// What a description that is in order comes to.
pub struct ValidatedBuffer {
    pub ndim: usize,
    pub element_size: usize,
    pub element_count: usize,
    /// The bytes that the elements take when they are packed.
    pub byte_size: u64,
    /// The offset of the lowest byte that belongs to an element.
    pub low: isize,
    /// The offset of the highest byte that belongs to an element.
    pub last: isize,
}

// ---------------------------------------------------------------- the numbers

/// A digit to the base of sixteen.
pub open spec fn hex_digit(d: nat) -> char {
    if d < 10 {
        digit(d)
    } else {
        ('a' as int + d as int - 10) as char
    }
}

/// The notation of `n` to the base of sixteen, without leading zeros.
pub open spec fn hexadecimal(n: nat) -> Seq<char>
    decreases n,
{
    if n < 16 {
        seq![hex_digit(n)]
    } else {
        hexadecimal(n / 16).push(hex_digit(n % 16))
    }
}

fn hex_digit_of(d: u32) -> (c: char)
    requires
        d < 16,
    ensures
        c == hex_digit(d as nat),
{
    match d {
        0 => '0',
        1 => '1',
        2 => '2',
        3 => '3',
        4 => '4',
        5 => '5',
        6 => '6',
        7 => '7',
        8 => '8',
        9 => '9',
        10 => 'a',
        11 => 'b',
        12 => 'c',
        13 => 'd',
        14 => 'e',
        _ => 'f',
    }
}

fn hexadecimal_of(n: u32) -> (s: String)
    ensures
        s@ == hexadecimal(n as nat),
    decreases n,
{
    if n < 16 {
        let mut s = String::new();
        s.push(hex_digit_of(n));
        s
    } else {
        let mut s = hexadecimal_of(n / 16);
        s.push(hex_digit_of(n % 16));
        s
    }
}

fn wide_decimal_of(n: u128) -> (s: String)
    ensures
        s@ == decimal(n as nat),
    decreases n,
{
    if n < 10 {
        let mut s = String::new();
        s.push(hex_digit_of(n as u32));
        s
    } else {
        let mut s = wide_decimal_of(n / 10);
        s.push(hex_digit_of((n % 10) as u32));
        s
    }
}

fn wide_signed_of(n: i128) -> (s: String)
    ensures
        s@ == signed_decimal(n as int),
{
    if n < 0 {
        let magnitude: u128 = (-(n + 1)) as u128 + 1;
        let digits = wide_decimal_of(magnitude);
        proof {
            reveal_strlit("-");
            assert("-"@ =~= seq!['-']);
        }
        cat2("-", digits.as_str())
    } else {
        wide_decimal_of(n as u128)
    }
}

// ----------------------------------------------------------------- the extent

/// How many elements there are, and between which offsets the first byte of
/// each lies.
pub struct Extent {
    pub count: int,
    pub low: int,
    pub high: int,
}

/// The offset of the last element along one dimension.
pub open spec fn axis_reach(dim: int, stride: int) -> int {
    if dim == 0 {
        0
    } else {
        (dim - 1) * stride
    }
}

/// The extent with one more dimension.
pub open spec fn axis_extended(x: Extent, dim: i64, stride: i64, axis: nat) -> Result<
    Extent,
    ErrorView,
> {
    let reach = axis_reach(dim as int, stride as int);
    if dim < 0 {
        Err(
            ErrorView::InvalidArg(
                "buffer shape["@ + decimal(axis) + "] must not be negative, got "@ + signed_decimal(
                    dim as int,
                ),
            ),
        )
    } else if dim > usize::MAX {
        Err(ErrorView::InvalidArg("buffer shape["@ + decimal(axis) + "] is too large"@))
    } else if x.count * dim > usize::MAX {
        Err(ErrorView::InvalidArg("buffer element count overflow"@))
    } else if reach < 0 {
        if x.low + reach < i128::MIN {
            Err(ErrorView::InvalidArg("buffer minimum offset overflow"@))
        } else {
            Ok(Extent { count: x.count * dim, low: x.low + reach, high: x.high })
        }
    } else if x.high + reach > i128::MAX {
        Err(ErrorView::InvalidArg("buffer maximum offset overflow"@))
    } else {
        Ok(Extent { count: x.count * dim, low: x.low, high: x.high + reach })
    }
}

/// The extent of the first `k` dimensions.
pub open spec fn extent_of(shape: Seq<i64>, strides: Seq<i64>, k: nat) -> Result<Extent, ErrorView>
    decreases k,
{
    if k == 0 {
        Ok(Extent { count: 1, low: 0, high: 0 })
    } else {
        match extent_of(shape, strides, (k - 1) as nat) {
            Ok(x) => axis_extended(x, shape[k - 1], strides[k - 1], (k - 1) as nat),
            Err(e) => Err(e),
        }
    }
}

/// Whether all entries from `k` on are zero.
pub open spec fn zero_from(list: Seq<i64>, k: int) -> bool {
    forall|i: int| k <= i < list.len() ==> #[trigger] list[i] == 0
}

impl BufferDescriptor {
    /// What is wrong with the fields that do not depend on one another.
    pub open spec fn field_problem(self, element_size: usize) -> Option<ErrorView> {
        let unknown = self.flags & !BUF_FLAG_READONLY;
        if self.ndim < 1 || self.ndim > self.shape@.len() {
            Some(
                ErrorView::InvalidArg(
                    "buffer ndim must be in 1..="@ + decimal(self.shape@.len()) + ", got "@
                        + signed_decimal(self.ndim as int),
                ),
            )
        } else if self.device != DEVICE_CPU {
            Some(
                ErrorView::InvalidArg(
                    "buffer device "@ + signed_decimal(self.device as int)
                        + " is not supported; only LMFLOW_DEVICE_CPU (0) is available"@,
                ),
            )
        } else if unknown != 0 {
            Some(
                ErrorView::InvalidArg(
                    "buffer flags contain unknown bits: 0x"@ + hexadecimal(unknown as nat),
                ),
            )
        } else if self.reserved != (0i64, 0i64) {
            Some(ErrorView::InvalidArg("buffer reserved fields must be zero"@))
        } else if !zero_from(self.shape@, self.ndim as int) {
            Some(ErrorView::InvalidArg("buffer shape entries after ndim must be zero"@))
        } else if !zero_from(self.strides@, self.ndim as int) {
            Some(ErrorView::InvalidArg("buffer stride entries after ndim must be zero"@))
        } else if element_size == 0 {
            Some(
                ErrorView::InvalidArg(
                    "buffer dtype "@ + signed_decimal(self.dtype as int) + " is unknown"@,
                ),
            )
        } else {
            None
        }
    }

    /// What is wrong with the memory that an extent takes.
    pub open spec fn range_problem(self, x: Extent, element_size: usize) -> Option<ErrorView> {
        let last = x.high + element_size - 1;
        if last > i128::MAX {
            Some(ErrorView::InvalidArg("buffer byte extent overflow"@))
        } else if x.low < isize::MIN || last > isize::MAX {
            Some(
                ErrorView::InvalidArg(
                    "buffer address range ["@ + signed_decimal(x.low) + ", "@ + signed_decimal(last)
                        + "] exceeds platform pointer offsets"@,
                ),
            )
        } else if x.count > 0 && self.address == 0 {
            Some(ErrorView::InvalidArg("buffer data must be non-null for a non-empty shape"@))
        } else if x.count > 0 && (self.address + x.low < 0 || self.address + last > usize::MAX) {
            Some(
                ErrorView::InvalidArg(
                    "buffer address range ["@ + signed_decimal(self.address + x.low) + ", "@
                        + signed_decimal(self.address + last)
                        + "] is outside the platform address space"@,
                ),
            )
        } else if x.count * element_size > usize::MAX {
            Some(ErrorView::InvalidArg("buffer logical byte count overflow"@))
        } else {
            None
        }
    }

    /// The extent of the memory, or what is wrong with the description.
    pub open spec fn extent(self, element_size: usize) -> Result<Extent, ErrorView> {
        match self.field_problem(element_size) {
            Some(e) => Err(e),
            None => match extent_of(self.shape@, self.strides@, self.ndim as nat) {
                Err(e) => Err(e),
                Ok(x) => match self.range_problem(x, element_size) {
                    Some(e) => Err(e),
                    None => Ok(x),
                },
            },
        }
    }
}

impl ValidatedBuffer {
    /// Whether this is what a description with that extent comes to.
    pub open spec fn says(self, d: BufferDescriptor, element_size: usize, x: Extent) -> bool {
        &&& self.ndim == d.ndim
        &&& self.element_size == element_size
        &&& self.element_count == x.count
        &&& self.byte_size == x.count * element_size
        &&& self.low == x.low
        &&& self.last == x.high + element_size - 1
    }
}

proof fn lemma_extent_bounds(shape: Seq<i64>, strides: Seq<i64>, k: nat)
    requires
        extent_of(shape, strides, k) is Ok,
        k <= shape.len(),
        k <= strides.len(),
    ensures
        extent_of(shape, strides, k)->Ok_0.count >= 0,
        i128::MIN <= extent_of(shape, strides, k)->Ok_0.low <= 0,
        0 <= extent_of(shape, strides, k)->Ok_0.high <= i128::MAX,
    decreases k,
{
    if k > 0 {
        lemma_extent_bounds(shape, strides, (k - 1) as nat);
        let x = extent_of(shape, strides, (k - 1) as nat)->Ok_0;
        let dim = shape[k - 1] as int;
        assert(x.count * dim >= 0) by (nonlinear_arith)
            requires
                x.count >= 0,
                dim >= 0,
        ;
    }
}

fn find_nonzero(list: &Vec<i64>, from: usize) -> (r: bool)
    requires
        from <= list@.len(),
    ensures
        r == !zero_from(list@, from as int),
{
    for i in from..list.len()
        invariant
            forall|k: int| from <= k < i ==> #[trigger] list@[k] == 0,
    {
        if list[i] != 0 {
            assert(list@[i as int] != 0);
            return true;
        }
    }
    false
}

/// Checks a description of foreign memory. `element_size` is the size of one
/// element of its `dtype`, zero if there is no such type.
pub fn validate_buffer_descriptor(src: &BufferDescriptor, element_size: usize) -> (r: Result<
    ValidatedBuffer,
    Error,
>)
    requires
        src.shape@.len() == src.strides@.len(),
    ensures
        match src.extent(element_size) {
            Ok(x) => r matches Ok(v) && v.says(*src, element_size, x),
            Err(e) => r matches Err(y) && y@ == e,
        },
{
    if src.ndim < 1 || src.ndim as i64 as i128 > src.shape.len() as i128 {
        let limit = decimal_of_size(src.shape.len());
        let number = wide_signed_of(src.ndim as i128);
        return Err(
            Error::InvalidArg(
                cat4("buffer ndim must be in 1..=", limit.as_str(), ", got ", number.as_str()),
            ),
        );
    }
    let ndim: usize = src.ndim as usize;
    if src.device != DEVICE_CPU {
        let number = wide_signed_of(src.device as i128);
        return Err(
            Error::InvalidArg(
                cat3(
                    "buffer device ",
                    number.as_str(),
                    " is not supported; only LMFLOW_DEVICE_CPU (0) is available",
                ),
            ),
        );
    }
    let unknown: u32 = src.flags & !BUF_FLAG_READONLY;
    if unknown != 0 {
        let bits = hexadecimal_of(unknown);
        return Err(
            Error::InvalidArg(cat2("buffer flags contain unknown bits: 0x", bits.as_str())),
        );
    }
    if src.reserved.0 != 0 || src.reserved.1 != 0 {
        return Err(Error::InvalidArg("buffer reserved fields must be zero".to_owned()));
    }
    if find_nonzero(&src.shape, ndim) {
        return Err(Error::InvalidArg("buffer shape entries after ndim must be zero".to_owned()));
    }
    if find_nonzero(&src.strides, ndim) {
        return Err(Error::InvalidArg("buffer stride entries after ndim must be zero".to_owned()));
    }
    if element_size == 0 {
        let number = wide_signed_of(src.dtype as i128);
        return Err(Error::InvalidArg(cat3("buffer dtype ", number.as_str(), " is unknown")));
    }
    assert(src.field_problem(element_size) is None);
    let (count, low, high) = match measure(src, ndim) {
        Ok(x) => x,
        Err(e) => {
            return Err(e);
        },
    };
    let ghost x = Extent { count: count as int, low: low as int, high: high as int };
    proof {
        lemma_extent_bounds(src.shape@, src.strides@, ndim as nat);
    }
    let last: i128 = match high.checked_add((element_size - 1) as i128) {
        Some(n) => n,
        None => {
            return Err(Error::InvalidArg("buffer byte extent overflow".to_owned()));
        },
    };
    if low < isize::MIN as i128 || last > isize::MAX as i128 {
        let from = wide_signed_of(low);
        let to = wide_signed_of(last);
        return Err(
            Error::InvalidArg(
                cat5(
                    "buffer address range [",
                    from.as_str(),
                    ", ",
                    to.as_str(),
                    "] exceeds platform pointer offsets",
                ),
            ),
        );
    }
    if count > 0 && src.address == 0 {
        return Err(
            Error::InvalidArg("buffer data must be non-null for a non-empty shape".to_owned()),
        );
    }
    if count > 0 {
        let first_address: i128 = src.address as i128 + low;
        let last_address: i128 = src.address as i128 + last;
        if first_address < 0 || last_address > usize::MAX as i128 {
            let from = wide_signed_of(first_address);
            let to = wide_signed_of(last_address);
            return Err(
                Error::InvalidArg(
                    cat5(
                        "buffer address range [",
                        from.as_str(),
                        ", ",
                        to.as_str(),
                        "] is outside the platform address space",
                    ),
                ),
            );
        }
    }
    match count.checked_mul(element_size) {
        Some(bytes) => Ok(
            ValidatedBuffer {
                ndim,
                element_size,
                element_count: count,
                byte_size: bytes as u64,
                low: low as isize,
                last: last as isize,
            },
        ),
        None => Err(Error::InvalidArg("buffer logical byte count overflow".to_owned())),
    }
}

/// The number of elements and the lowest and the highest offset.
fn measure(src: &BufferDescriptor, ndim: usize) -> (r: Result<(usize, i128, i128), Error>)
    requires
        src.shape@.len() == src.strides@.len(),
        ndim <= src.shape@.len(),
    ensures
        match extent_of(src.shape@, src.strides@, ndim as nat) {
            Ok(x) => r matches Ok(y) && y.0 == x.count && y.1 == x.low && y.2 == x.high,
            Err(e) => r matches Err(y) && y@ == e,
        },
{
    let mut count: usize = 1;
    let mut low: i128 = 0;
    let mut high: i128 = 0;
    for axis in 0..ndim
        invariant
            src.shape@.len() == src.strides@.len(),
            ndim <= src.shape@.len(),
            extent_of(src.shape@, src.strides@, axis as nat) == Ok::<Extent, ErrorView>(
                Extent { count: count as int, low: low as int, high: high as int },
            ),
    {
        let dim: i64 = src.shape[axis];
        let stride: i64 = src.strides[axis];
        let ghost x = Extent { count: count as int, low: low as int, high: high as int };
        assert(extent_of(src.shape@, src.strides@, (axis + 1) as nat) == axis_extended(
            x,
            dim,
            stride,
            axis as nat,
        ));
        let ghost whole = extent_of(src.shape@, src.strides@, ndim as nat);
        proof {
            lemma_first_error(src.shape@, src.strides@, (axis + 1) as nat, ndim as nat);
        }
        if dim < 0 {
            let place = decimal_of_size(axis);
            let number = wide_signed_of(dim as i128);
            return Err(
                Error::InvalidArg(
                    cat4(
                        "buffer shape[",
                        place.as_str(),
                        "] must not be negative, got ",
                        number.as_str(),
                    ),
                ),
            );
        }
        if dim as i128 > usize::MAX as i128 {
            let place = decimal_of_size(axis);
            return Err(
                Error::InvalidArg(cat3("buffer shape[", place.as_str(), "] is too large")),
            );
        }
        let size: usize = dim as usize;
        count = match count.checked_mul(size) {
            Some(n) => n,
            None => {
                return Err(Error::InvalidArg("buffer element count overflow".to_owned()));
            },
        };
        let steps: i128 = if size == 0 {
            0
        } else {
            (size - 1) as i128
        };
        assert(-0x8000_0000_0000_0000 * 0x8000_0000_0000_0000 <= steps * stride
            <= 0x8000_0000_0000_0000 * 0x8000_0000_0000_0000) by (nonlinear_arith)
            requires
                0 <= steps <= 0x8000_0000_0000_0000,
                -0x8000_0000_0000_0000 <= stride <= 0x8000_0000_0000_0000,
        ;
        let reach: i128 = steps * stride as i128;
        assert(reach == axis_reach(dim as int, stride as int)) by (nonlinear_arith)
            requires
                reach == steps * stride,
                size == dim,
                steps == (if size == 0 {
                    0int
                } else {
                    size - 1
                }),
        ;
        if reach < 0 {
            low = match low.checked_add(reach) {
                Some(n) => n,
                None => {
                    return Err(Error::InvalidArg("buffer minimum offset overflow".to_owned()));
                },
            };
        } else {
            high = match high.checked_add(reach) {
                Some(n) => n,
                None => {
                    return Err(Error::InvalidArg("buffer maximum offset overflow".to_owned()));
                },
            };
        }
    }
    Ok((count, low, high))
}

/// What is wrong with a dimension stays wrong with more dimensions.
proof fn lemma_first_error(shape: Seq<i64>, strides: Seq<i64>, k: nat, n: nat)
    requires
        k <= n,
    ensures
        extent_of(shape, strides, k) is Err ==> extent_of(shape, strides, n) == extent_of(
            shape,
            strides,
            k,
        ),
    decreases n - k,
{
    if k < n {
        lemma_first_error(shape, strides, (k + 1) as nat, n);
    }
}

// ------------------------------------------------------------- the elements

/// How many elements the first `k` dimensions have.
pub open spec fn elements(dims: Seq<i64>, k: nat) -> int
    decreases k,
{
    if k == 0 {
        1
    } else {
        elements(dims, (k - 1) as nat) * dims[k - 1]
    }
}

/// Where element `e`, counted with the last dimension running fastest, lies.
pub open spec fn offset_of(dims: Seq<i64>, strides: Seq<i64>, k: nat, e: int) -> int
    decreases k,
{
    if k == 0 {
        0
    } else {
        offset_of(dims, strides, (k - 1) as nat, e / (dims[k - 1] as int)) + (e % (dims[k - 1] as int))
            * strides[k - 1]
    }
}

proof fn lemma_reach(i: int, dim: int, stride: int)
    by (nonlinear_arith)
    requires
        0 <= i < dim,
    ensures
        (dim - 1) * stride >= 0 ==> 0 <= i * stride <= (dim - 1) * stride,
        (dim - 1) * stride < 0 ==> (dim - 1) * stride <= i * stride <= 0,
{
}

/// Every element lies within the extent.
pub proof fn elements_lie_within(dims: Seq<i64>, strides: Seq<i64>, k: nat, e: int)
    requires
        k <= dims.len(),
        k <= strides.len(),
        extent_of(dims, strides, k) is Ok,
        0 <= e < extent_of(dims, strides, k)->Ok_0.count,
    ensures
        extent_of(dims, strides, k)->Ok_0.low <= offset_of(dims, strides, k, e)
            <= extent_of(dims, strides, k)->Ok_0.high,
    decreases k,
{
    if k > 0 {
        let x = extent_of(dims, strides, (k - 1) as nat)->Ok_0;
        let dim = dims[k - 1] as int;
        let stride = strides[k - 1] as int;
        lemma_extent_bounds(dims, strides, (k - 1) as nat);
        assert(dim > 0) by (nonlinear_arith)
            requires
                0 <= e < x.count * dim,
                dim >= 0,
        ;
        assert(0 <= e / dim < x.count && 0 <= e % dim < dim) by (nonlinear_arith)
            requires
                0 <= e < x.count * dim,
                dim > 0,
        ;
        elements_lie_within(dims, strides, (k - 1) as nat, e / dim);
        lemma_reach(e % dim, dim, stride);
        assert(axis_reach(dim, stride) == (dim - 1) * stride);
    }
}

/// Where an element lies.
fn find_offset(src: &BufferDescriptor, ndim: usize, e: usize) -> (r: i128)
    requires
        src.shape@.len() == src.strides@.len(),
        ndim <= src.shape@.len(),
        extent_of(src.shape@, src.strides@, ndim as nat) is Ok,
        0 <= e < extent_of(src.shape@, src.strides@, ndim as nat)->Ok_0.count,
    ensures
        r == offset_of(src.shape@, src.strides@, ndim as nat, e as int),
    decreases ndim,
{
    if ndim == 0 {
        return 0;
    }
    let ghost dims = src.shape@;
    let ghost strides = src.strides@;
    let ghost x = extent_of(dims, strides, (ndim - 1) as nat)->Ok_0;
    let dim: usize = src.shape[ndim - 1] as usize;
    let stride: i64 = src.strides[ndim - 1];
    proof {
        lemma_extent_bounds(dims, strides, (ndim - 1) as nat);
        lemma_extent_bounds(dims, strides, ndim as nat);
        assert(dim > 0) by (nonlinear_arith)
            requires
                0 <= e < x.count * dim,
                dim >= 0,
        ;
        let (at, size) = (e as int, dim as int);
        assert(0 <= at / size && at / size < x.count) by (nonlinear_arith)
            requires
                0 <= at < x.count * size,
                size > 0,
        ;
        elements_lie_within(dims, strides, ndim as nat, at);
    }
    let outer: i128 = find_offset(src, ndim - 1, e / dim);
    let index: usize = e % dim;
    proof {
        assert(-0x8000_0000_0000_0000 * 0x8000_0000_0000_0000 <= index * stride
            <= 0x8000_0000_0000_0000 * 0x8000_0000_0000_0000) by (nonlinear_arith)
            requires
                0 <= index <= 0x8000_0000_0000_0000,
                -0x8000_0000_0000_0000 <= stride <= 0x8000_0000_0000_0000,
        ;
    }
    let inner: i128 = index as i128 * stride as i128;
    outer + inner
}

/// The bytes of the elements, packed with the last dimension running fastest.
pub open spec fn gathered(
    window: Seq<u8>,
    d: BufferDescriptor,
    v: ValidatedBuffer,
    out: Seq<u8>,
) -> bool {
    &&& out.len() == v.byte_size
    &&& forall|e: int, b: int|
        0 <= e < v.element_count && 0 <= b < v.element_size ==> #[trigger] out[e * v.element_size
            + b] == window[offset_of(d.shape@, d.strides@, v.ndim as nat, e) - v.low + b]
}

/// Packs the elements of foreign memory, whatever their strides. `window` is
/// the memory from the lowest byte of an element to the highest.
pub fn gather(window: &Vec<u8>, src: &BufferDescriptor, v: &ValidatedBuffer) -> (out: Vec<u8>)
    requires
        src.shape@.len() == src.strides@.len(),
        src.extent(v.element_size) is Ok,
        v.says(*src, v.element_size, src.extent(v.element_size)->Ok_0),
        v.element_count > 0 ==> window@.len() == v.last - v.low + 1,
    ensures
        gathered(window@, *src, *v, out@),
{
    let ghost dims = src.shape@;
    let ghost strides = src.strides@;
    let ghost n = v.ndim as nat;
    let mut out: Vec<u8> = Vec::new();
    assert(0 * v.element_size == 0) by (nonlinear_arith);
    for e in 0..v.element_count
        invariant
            dims == src.shape@,
            strides == src.strides@,
            n == v.ndim,
            src.shape@.len() == src.strides@.len(),
            src.extent(v.element_size) is Ok,
            v.says(*src, v.element_size, src.extent(v.element_size)->Ok_0),
            v.element_count > 0 ==> window@.len() == v.last - v.low + 1,
            out@.len() == e * v.element_size,
            forall|i: int, b: int|
                0 <= i < e && 0 <= b < v.element_size ==> #[trigger] out@[i * v.element_size + b]
                    == window@[offset_of(dims, strides, n, i) - v.low + b],
    {
        proof {
            elements_lie_within(dims, strides, n, e as int);
        }
        let start: i128 = find_offset(src, v.ndim, e) - v.low as i128;
        let ghost before = out@;
        for b in 0..v.element_size
            invariant
                dims == src.shape@,
                strides == src.strides@,
                n == v.ndim,
                src.extent(v.element_size) is Ok,
                v.says(*src, v.element_size, src.extent(v.element_size)->Ok_0),
                window@.len() == v.last - v.low + 1,
                0 <= e < v.element_count,
                start == offset_of(dims, strides, n, e as int) - v.low,
                0 <= start,
                start + v.element_size <= window@.len(),
                before.len() == e * v.element_size,
                out@.len() == before.len() + b,
                forall|i: int| 0 <= i < before.len() ==> #[trigger] out@[i] == before[i],
                forall|c: int|
                    0 <= c < b ==> #[trigger] out@[before.len() + c] == window@[start + c],
        {
            out.push(window[start as usize + b]);
        }
        proof {
            let size = v.element_size as int;
            assert((e + 1) * size == e * size + size) by (nonlinear_arith);
            assert forall|i: int, b: int| 0 <= i < e + 1 && 0 <= b < size implies #[trigger] out@[i
                * size + b] == window@[offset_of(dims, strides, n, i) - v.low + b] by {
                if i < e {
                    assert(i * size + b < e * size && 0 <= i * size + b) by (nonlinear_arith)
                        requires
                            0 <= i < e,
                            0 <= b < size,
                    ;
                    assert(out@[i * size + b] == before[i * size + b]);
                } else {
                    assert(out@[before.len() + b] == window@[start + b]);
                }
            }
        }
    }
    out
}

/// Whether the strides are those of packed elements of `unit` bytes.
pub open spec fn packed(dims: Seq<i64>, strides: Seq<i64>, k: nat, unit: int) -> bool
    decreases k,
{
    k == 0 || (strides[k - 1] == unit && packed(dims, strides, (k - 1) as nat, unit * dims[k - 1]))
}

/// Packed elements lie one behind the other, so that gathering them copies
/// the memory as it is.
pub proof fn packed_elements_are_in_line(
    dims: Seq<i64>,
    strides: Seq<i64>,
    k: nat,
    unit: int,
    e: int,
)
    requires
        k <= dims.len(),
        k <= strides.len(),
        forall|i: int| 0 <= i < k ==> #[trigger] dims[i] >= 0,
        packed(dims, strides, k, unit),
        0 <= e < elements(dims, k),
    ensures
        offset_of(dims, strides, k, e) == e * unit,
    decreases k,
{
    if k == 0 {
        assert(0 * unit == 0) by (nonlinear_arith);
    } else {
        let dim = dims[k - 1] as int;
        let rest = elements(dims, (k - 1) as nat);
        assert(dim > 0) by (nonlinear_arith)
            requires
                0 <= e < rest * dim,
                dim >= 0,
        ;
        assert(0 <= e / dim < rest) by (nonlinear_arith)
            requires
                0 <= e < rest * dim,
                dim > 0,
        ;
        packed_elements_are_in_line(dims, strides, (k - 1) as nat, unit * dim, e / dim);
        assert((e / dim) * (unit * dim) + (e % dim) * unit == e * unit) by (nonlinear_arith)
            requires
                dim > 0,
        ;
    }
}

// ------------------------------------------------------------------- the pool

/// A piece of memory, with the size and the alignment that it was made with.
#[derive(Debug, Clone, Copy, PartialEq, Eq, Structural)]
pub struct BufferAllocation {
    pub data: usize,
    pub size: usize,
    pub align: usize,
}

/// Memory that was given back and waits to be used again.
pub struct BufferPool {
    max_bytes: usize,
    bytes: usize,
    entries: Vec<BufferAllocation>,
}

#[verifier::ext_equal]
pub struct BufferPoolView {
    pub max_bytes: usize,
    pub entries: Seq<BufferAllocation>,
}

/// The bytes of several pieces of memory.
pub open spec fn total_size(entries: Seq<BufferAllocation>) -> nat
    decreases entries.len(),
{
    if entries.len() == 0 {
        0
    } else {
        total_size(entries.drop_last()) + entries.last().size as nat
    }
}

/// The first piece with that size and alignment.
pub open spec fn first_fit(entries: Seq<BufferAllocation>, size: usize, align: usize) -> Option<int>
    decreases entries.len(),
{
    if entries.len() == 0 {
        None
    } else {
        match first_fit(entries.drop_last(), size, align) {
            Some(i) => Some(i),
            None => if entries.last().size == size && entries.last().align == align {
                Some(entries.len() - 1)
            } else {
                None
            },
        }
    }
}

proof fn lemma_first_fit(entries: Seq<BufferAllocation>, size: usize, align: usize, k: int)
    requires
        0 <= k < entries.len(),
        entries[k].size == size && entries[k].align == align,
        forall|i: int|
            0 <= i < k ==> (#[trigger] entries[i]).size != size || entries[i].align != align,
    ensures
        first_fit(entries, size, align) == Some(k),
    decreases entries.len(),
{
    let front = entries.drop_last();
    if k < entries.len() - 1 {
        assert(front[k] == entries[k]);
        lemma_first_fit(front, size, align, k);
    } else {
        lemma_no_fit(front, size, align);
    }
}

proof fn lemma_no_fit(entries: Seq<BufferAllocation>, size: usize, align: usize)
    requires
        forall|i: int|
            0 <= i < entries.len() ==> (#[trigger] entries[i]).size != size || entries[i].align
                != align,
    ensures
        first_fit(entries, size, align) is None,
    decreases entries.len(),
{
    if entries.len() > 0 {
        lemma_no_fit(entries.drop_last(), size, align);
    }
}

/// Without the piece at `k`, whose place the last one takes.
pub open spec fn without(entries: Seq<BufferAllocation>, k: int) -> Seq<BufferAllocation> {
    entries.update(k, entries.last()).drop_last()
}

proof fn lemma_total_update(entries: Seq<BufferAllocation>, k: int, a: BufferAllocation)
    requires
        0 <= k < entries.len(),
    ensures
        total_size(entries.update(k, a)) == total_size(entries) - entries[k].size + a.size,
    decreases entries.len(),
{
    let changed = entries.update(k, a);
    if k == entries.len() - 1 {
        assert(changed.drop_last() =~= entries.drop_last());
    } else {
        assert(changed.drop_last() =~= entries.drop_last().update(k, a));
        lemma_total_update(entries.drop_last(), k, a);
    }
}

proof fn lemma_total_without(entries: Seq<BufferAllocation>, k: int)
    requires
        0 <= k < entries.len(),
    ensures
        total_size(without(entries, k)) == total_size(entries) - entries[k].size,
{
    let last = entries.last();
    lemma_total_update(entries, k, last);
    let changed = entries.update(k, last);
    assert(changed.last() == last);
}

impl View for BufferPool {
    type V = BufferPoolView;

    closed spec fn view(&self) -> BufferPoolView {
        BufferPoolView { max_bytes: self.max_bytes, entries: self.entries@ }
    }
}

impl BufferPoolView {
    /// Whether a piece that is given back is kept.
    pub open spec fn keeps(self, a: BufferAllocation) -> bool {
        total_size(self.entries) + a.size <= self.max_bytes
    }
}

impl BufferPool {
    #[verifier::type_invariant]
    closed spec fn within(self) -> bool {
        self.bytes == total_size(self.entries@) && self.bytes <= self.max_bytes
    }

    /// A pool that keeps up to so many bytes.
    pub fn new(max_bytes: usize) -> (r: BufferPool)
        ensures
            r@ == (BufferPoolView { max_bytes, entries: Seq::empty() }),
    {
        BufferPool { max_bytes, bytes: 0, entries: Vec::new() }
    }

    /// Whether the pool can keep anything.
    pub fn is_active(&self) -> (r: bool)
        ensures
            r == (self@.max_bytes > 0),
    {
        self.max_bytes > 0
    }

    /// The bytes that wait to be used again; never more than the pool may
    /// keep.
    pub fn held(&self) -> (r: usize)
        ensures
            r == total_size(self@.entries),
            r <= self@.max_bytes,
    {
        proof {
            use_type_invariant(self);
        }
        self.bytes
    }

    fn empty_out(&mut self) -> (r: Vec<BufferAllocation>)
        ensures
            r@ == old(self)@.entries,
    {
        let mut whole = BufferPool::new(0);
        std::mem::swap(&mut whole, self);
        whole.entries
    }

    /// Takes the first piece with that size and alignment. If there is none,
    /// the caller makes one.
    pub fn take(&mut self, size: usize, align: usize) -> (r: Option<BufferAllocation>)
        ensures
            match first_fit(old(self)@.entries, size, align) {
                Some(k) => {
                    &&& 0 <= k < old(self)@.entries.len()
                    &&& r == Some(old(self)@.entries[k])
                    &&& final(self)@ == (BufferPoolView {
                        entries: without(old(self)@.entries, k),
                        ..old(self)@
                    })
                },
                None => r is None && final(self)@ == old(self)@,
            },
    {
        proof {
            use_type_invariant(&*self);
        }
        let ghost all = self.entries@;
        let max_bytes: usize = self.max_bytes;
        let bytes: usize = self.bytes;
        let count: usize = self.entries.len();
        for i in 0..count
            invariant
                count == all.len(),
                all == self.entries@,
                *self == *old(self),
                max_bytes == self.max_bytes,
                bytes == self.bytes,
                bytes == total_size(all),
                bytes <= max_bytes,
                forall|k: int|
                    0 <= k < i ==> (#[trigger] all[k]).size != size || all[k].align != align,
        {
            if self.entries[i].size == size && self.entries[i].align == align {
                proof {
                    lemma_first_fit(all, size, align, i as int);
                    lemma_total_without(all, i as int);
                }
                let mut entries = self.empty_out();
                let found = entries.swap_remove(i);
                *self = BufferPool { max_bytes, bytes: bytes - size, entries };
                return Some(found);
            }
        }
        proof {
            lemma_no_fit(all, size, align);
        }
        None
    }

    /// Gives a piece back. Where it is not kept, the caller frees it.
    pub fn release(&mut self, allocation: BufferAllocation) -> (kept: bool)
        ensures
            kept == old(self)@.keeps(allocation),
            final(self)@ == (if kept {
                BufferPoolView { entries: old(self)@.entries.push(allocation), ..old(self)@ }
            } else {
                old(self)@
            }),
    {
        proof {
            use_type_invariant(&*self);
        }
        if allocation.size > self.max_bytes || self.bytes > self.max_bytes - allocation.size {
            return false;
        }
        let max_bytes: usize = self.max_bytes;
        let bytes: usize = self.bytes;
        let mut entries = self.empty_out();
        proof {
            assert(entries@.push(allocation).drop_last() =~= entries@);
        }
        entries.push(allocation);
        *self = BufferPool { max_bytes, bytes: bytes + allocation.size, entries };
        true
    }

    /// Empties the pool; the caller frees the pieces.
    pub fn drain(self) -> (r: Vec<BufferAllocation>)
        ensures
            r@ == self@.entries,
    {
        self.entries
    }
}

/// A piece that the pool kept is there for the next caller that asks for its
/// size and alignment, unless an older one fits too.
pub proof fn kept_memory_is_used_again(p: BufferPoolView, a: BufferAllocation)
    ensures
        first_fit(p.entries.push(a), a.size, a.align) is Some,
        first_fit(p.entries, a.size, a.align) is None ==> first_fit(
            p.entries.push(a),
            a.size,
            a.align,
        ) == Some(p.entries.len() as int) && without(
            p.entries.push(a),
            p.entries.len() as int,
        ) == p.entries,
{
    let all = p.entries.push(a);
    assert(all.drop_last() =~= p.entries);
    assert(without(all, p.entries.len() as int) =~= p.entries);
}

} // verus!
