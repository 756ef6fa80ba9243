//! Size arithmetic of the arena: how many extra bytes an entry really gets, how large an
//! entry is with them, and whether a pool of a requested shape can be addressed at all.

use vstd::prelude::*;

verus! {

/// Exclusive upper bound on the number of entries of a pool and on the byte size of its arena.
pub const MAX: usize = usize::MAX / 2;

/// `n` rounded up to a multiple of `align`: the least multiple that is not below `n`.
pub open spec fn round_up(n: int, align: int) -> int
    recommends
        align > 0,
{
    if n % align == 0 {
        n
    } else {
        n + (align - n % align)
    }
}

/// Why a requested shape is refused.
#[derive(Clone, Copy, Debug, PartialEq, Eq, Structural)]
pub enum LayoutError {
    /// The number of entries reaches [`MAX`].
    TooManyEntries,
    /// The alignment is zero.
    ZeroAlignment,
    /// The entry size is not a multiple of the alignment.
    Misaligned,
    /// An entry, or all entries together, do not fit below [`MAX`] bytes.
    TooLarge,
}

/// The shape of an arena: `count` entries of `entry_size` bytes each. An entry is a header of
/// `header` bytes and `extra` bytes of caller-defined storage.
#[derive(Clone, Copy, Debug, PartialEq, Eq, Structural)]
pub struct Layout {
    /// Number of entries.
    pub count: usize,
    /// Alignment of every entry.
    pub align: usize,
    /// Bytes of every entry besides the extra bytes: the payload and the bookkeeping.
    pub header: usize,
    /// Extra bytes of every entry, a multiple of `align`.
    pub extra: usize,
    /// Bytes of one entry: header and extra bytes.
    pub entry_size: usize,
}

impl Layout {
    /// The shape is consistent and the whole arena stays below [`MAX`] bytes.
    pub open spec fn wf(self) -> bool {
        &&& self.count < MAX
        &&& self.align > 0
        &&& self.extra % self.align == 0
        &&& self.entry_size == self.header + self.extra
        &&& self.entry_size % self.align == 0
        &&& self.entry_size * self.count < MAX
    }
}

/// The shape that a request for `count` entries with `extra` extra bytes each is given, when
/// the entry header takes `header` bytes and entries are aligned to `align`; or the reason
/// for which the request is refused. The conditions are tested in the order written.
pub open spec fn layout_of(count: usize, extra: usize, header: usize, align: usize) -> Result<
    Layout,
    LayoutError,
> {
    let padded = round_up(extra as int, align as int);
    let size = header + padded;
    if count >= MAX {
        Err(LayoutError::TooManyEntries)
    } else if align == 0 {
        Err(LayoutError::ZeroAlignment)
    } else if size > usize::MAX {
        Err(LayoutError::TooLarge)
    } else if size % (align as int) != 0 {
        Err(LayoutError::Misaligned)
    } else if size * count >= MAX {
        Err(LayoutError::TooLarge)
    } else {
        Ok(Layout { count, align, header, extra: padded as usize, entry_size: size as usize })
    }
}

/// Rounding up gives a multiple of `align` that is not below `n` and less than `align` above it.
pub proof fn lemma_round_up(n: int, align: int)
    requires
        n >= 0,
        align > 0,
    ensures
        round_up(n, align) % align == 0,
        n <= round_up(n, align) < n + align,
{
    let r = round_up(n, align);
    let q = n / align;
    assert(n == q * align + n % align) by {
        vstd::arithmetic::div_mod::lemma_fundamental_div_mod(n, align);
    }
    if n % align != 0 {
        assert(r == (q + 1) * align) by (nonlinear_arith)
            requires
                r == n + (align - n % align),
                n == q * align + n % align,
        ;
        assert(r % align == 0) by {
            vstd::arithmetic::div_mod::lemma_mod_multiples_basic(q + 1, align);
        }
    }
}

/// No multiple of `align` lies between `n` and `n` rounded up.
pub proof fn lemma_round_up_least(n: int, align: int, m: int)
    requires
        n >= 0,
        align > 0,
        m >= n,
        m % align == 0,
    ensures
        round_up(n, align) <= m,
{
    if n % align != 0 {
        let q = n / align;
        let k = m / align;
        assert(n == q * align + n % align) by {
            vstd::arithmetic::div_mod::lemma_fundamental_div_mod(n, align);
        }
        assert(m == k * align + m % align) by {
            vstd::arithmetic::div_mod::lemma_fundamental_div_mod(m, align);
        }
        assert(k >= q + 1) by (nonlinear_arith)
            requires
                m == k * align,
                n == q * align + n % align,
                0 < n % align,
                m >= n,
                align > 0,
        ;
        assert(k * align >= (q + 1) * align) by (nonlinear_arith)
            requires
                k >= q + 1,
                align > 0,
        ;
        assert((q + 1) * align == q * align + align) by (nonlinear_arith);
    }
}

/// Rounds `extra` up to a multiple of `align`, or reports that the result does not fit.
pub fn pad(extra: usize, align: usize) -> (r: Option<usize>)
    requires
        align > 0,
    ensures
        r == (if round_up(extra as int, align as int) <= usize::MAX {
            Some(round_up(extra as int, align as int) as usize)
        } else {
            None
        }),
{
    let rem = extra % align;
    if rem == 0 {
        Some(extra)
    } else {
        extra.checked_add(align - rem)
    }
}

impl Layout {
    /// Works out the shape of an arena of `count` entries with at least `extra` extra bytes
    /// each, or refuses the request.
    pub fn new(count: usize, extra: usize, header: usize, align: usize) -> (r: Result<
        Layout,
        LayoutError,
    >)
        ensures
            r == layout_of(count, extra, header, align),
            r matches Ok(l) ==> l.wf() && l.count == count && l.header == header && l.align
                == align && extra <= l.extra < extra + align,
    {
        if count >= MAX {
            return Err(LayoutError::TooManyEntries);
        }
        if align == 0 {
            return Err(LayoutError::ZeroAlignment);
        }
        proof {
            lemma_round_up(extra as int, align as int);
        }
        let padded = match pad(extra, align) {
            Some(p) => p,
            None => {
                return Err(LayoutError::TooLarge);
            },
        };
        let entry_size = match header.checked_add(padded) {
            Some(s) => s,
            None => {
                return Err(LayoutError::TooLarge);
            },
        };
        if entry_size % align != 0 {
            return Err(LayoutError::Misaligned);
        }
        match entry_size.checked_mul(count) {
            Some(total) => {
                if total >= MAX {
                    return Err(LayoutError::TooLarge);
                }
            },
            None => {
                return Err(LayoutError::TooLarge);
            },
        }
        Ok(Layout { count, align, header, extra: padded, entry_size })
    }
}

} // verus!
