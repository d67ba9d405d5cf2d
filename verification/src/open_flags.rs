//! Flags for opening a pool file, and what a set of them asks for: the size
//! of a new file, whether to create it and whether to format it.

use vstd::prelude::*;

verus! {

/// Size of a new pool file when no size flag is given.
pub const DEFAULT_POOL_SIZE: u64 = 8 * 1024 * 1024;

/// Create the pool file.
pub const O_C: u32 = 0x00000001;

/// Format the pool file.
pub const O_F: u32 = 0x00000002;

/// Create the pool file only if it does not exist.
pub const O_CNE: u32 = 0x00000004;

/// Create and format a new file.
pub const O_CF: u32 = O_C | O_F;

/// Create and format the pool file only if it does not exist.
pub const O_CFNE: u32 = O_CNE | O_F;

/// A new file of 1GB.
pub const O_1GB: u32 = 0x00000010;

/// A new file of 2GB.
pub const O_2GB: u32 = 0x00000020;

/// A new file of 4GB.
pub const O_4GB: u32 = 0x00000040;

/// A new file of 8GB.
pub const O_8GB: u32 = 0x00000080;

/// A new file of 16GB.
pub const O_16GB: u32 = 0x00000100;

/// A new file of 32GB.
pub const O_32GB: u32 = 0x00000200;

/// A new file of 64GB.
pub const O_64GB: u32 = 0x00000400;

/// A new file of 128GB.
pub const O_128GB: u32 = 0x00000800;

/// A new file of 256GB.
pub const O_256GB: u32 = 0x00001000;

/// A new file of 512GB.
pub const O_512GB: u32 = 0x00002000;

/// A new file of 1TB.
pub const O_1TB: u32 = 0x00004000;

/// A new file of 2TB.
pub const O_2TB: u32 = 0x00008000;

/// A new file of 4TB.
pub const O_4TB: u32 = 0x00010000;

/// A new file of 8TB.
pub const O_8TB: u32 = 0x00020000;

/// A new file of 16TB.
pub const O_16TB: u32 = 0x00040000;

/// A new file of 32TB.
pub const O_32TB: u32 = 0x00080000;

/// A new file of 64TB.
pub const O_64TB: u32 = 0x00100000;

/// Open only to read the recovery information.
pub const O_READINFO: u32 = 0xffff_ffff;

/// Why a set of open flags is refused.
#[derive(Clone, Copy, Debug, PartialEq, Eq, Structural)]
pub enum OpenError {
    /// More than one size flag.
    MultipleSizes,
    /// A size flag without a create flag.
    SizeWithoutCreate,
}

/// What a set of open flags asks for.
#[derive(Clone, Copy, Debug, PartialEq, Eq, Structural)]
pub struct OpenPlan {
    /// Size of the file to create.
    pub size: u64,
    /// Whether to (re)create the file.
    pub create: bool,
    /// Whether to format the file.
    pub format: bool,
}

/// Number of bits set in `x`.
pub open spec fn ones(x: u64) -> nat
    decreases x,
{
    if x == 0 {
        0
    } else {
        (x % 2) as nat + ones(x / 2)
    }
}

/// The size flags of `flags`, as the bits of its size field.
pub open spec fn size_bits(flags: u32) -> u64 {
    (flags as u64) / 16
}

/// A word has at most as many bits set as its value.
proof fn lemma_ones_le(x: u64)
    ensures
        ones(x) <= x,
    decreases x,
{
    if x > 0 {
        lemma_ones_le(x / 2);
    }
}

/// The number of bits set in `x`.
fn count_ones(x: u64) -> (r: u64)
    ensures
        r == ones(x),
{
    let mut c: u64 = 0;
    let mut y: u64 = x;
    proof {
        lemma_ones_le(x);
    }
    while y != 0
        invariant
            c + ones(y) == ones(x),
            ones(x) <= x,
        decreases y,
    {
        c = c + y % 2;
        y = y / 2;
    }
    c
}

/// What `flags` asks of the pool file at `path`, which exists or not: more
/// than one size flag, or a size flag without a create flag, is refused.
/// The size is that of the size flag in GB, or the default; the file is
/// created under `O_C`, or under `O_CNE` when it does not exist; it is
/// formatted under `O_F` when it is created, or when it does not exist.
pub fn open_plan(flags: u32, exists: bool) -> (r: Result<OpenPlan, OpenError>)
    ensures
        ones(size_bits(flags)) > 1 ==> r == Err::<OpenPlan, OpenError>(OpenError::MultipleSizes),
        ones(size_bits(flags)) <= 1 && size_bits(flags) != 0 && flags & (O_C | O_CNE) == 0 ==> r == Err::<
            OpenPlan,
            OpenError,
        >(OpenError::SizeWithoutCreate),
        ones(size_bits(flags)) <= 1 && (size_bits(flags) == 0 || flags & (O_C | O_CNE) != 0) ==> ({
            let create = (flags & O_C) != 0 || ((flags & O_CNE) != 0 && !exists);
            r == Ok::<OpenPlan, OpenError>(
                OpenPlan {
                    size: if size_bits(flags) == 0 {
                        DEFAULT_POOL_SIZE
                    } else {
                        (size_bits(flags) * 0x4000_0000) as u64
                    },
                    create,
                    format: if create {
                        (flags & O_F) != 0
                    } else {
                        !exists && (flags & O_F) != 0
                    },
                },
            )
        }),
{
    let bits: u64 = (flags as u64) / 16;
    if count_ones(bits) > 1 {
        return Err(OpenError::MultipleSizes);
    }
    let size: u64 = if bits == 0 {
        DEFAULT_POOL_SIZE
    } else {
        if flags & (O_C | O_CNE) == 0 {
            return Err(OpenError::SizeWithoutCreate);
        }
        bits * 0x4000_0000
    };
    let mut format = !exists && (flags & O_F) != 0;
    let create = (flags & O_C) != 0 || ((flags & O_CNE) != 0 && !exists);
    if create {
        format = (flags & O_F) != 0;
    }
    Ok(OpenPlan { size, create, format })
}

} // verus!
