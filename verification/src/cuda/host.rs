//! What a device host decides before it touches a device: launch geometry, names of
//! targets, and how an upload is cut into staged pieces.

use crate::text;
use crate::text::{push, push_decimal, push_text};
use vstd::prelude::*;

verus! {

/// The width of a thread block of the one-dimensional launches.
pub const BLOCK_1D: u32 = 256;

/// The grid, the block and the shared memory of a launch.
#[derive(Debug, Clone, Copy, PartialEq, Eq)]
pub struct LaunchConfig {
    /// Blocks along each axis.
    pub grid_dim: (u32, u32, u32),
    /// Threads of a block along each axis.
    pub block_dim: (u32, u32, u32),
    /// Dynamic shared memory of a block, in bytes.
    pub shared_mem_bytes: u32,
}

/// A refusal of the host.
#[derive(Debug, Clone, Copy, PartialEq, Eq)]
pub enum HostError {
    /// The geometry exceeds what a launch can express.
    Geometry(&'static str),
}

/// The options of one module build.
#[derive(Debug, Clone)]
pub struct CompileSpec {
    /// Appended to the architecture of the device: nothing for the plain target.
    pub arch_suffix: &'static str,
    /// Further options, as they are.
    pub options: Vec<String>,
    /// The environment variable that names where the emitted code is written to.
    pub dump_ptx_env: Option<&'static str>,
}

impl Default for CompileSpec {
    fn default() -> (r: CompileSpec)
        ensures
            r.arch_suffix == "",
            r.options@.len() == 0,
            r.dump_ptx_env is None,
    {
        CompileSpec { arch_suffix: "", options: Vec::new(), dump_ptx_env: None }
    }
}

/// The number of blocks for `n` threads.
pub open spec fn blocks(n: int) -> int {
    (n + BLOCK_1D - 1) / (BLOCK_1D as int)
}

/// The number of blocks for `n` threads.
fn count_blocks(n: usize) -> (r: u64)
    ensures
        r == blocks(n as int),
{
    let whole: u64 = n as u64 / 256;
    if n as u64 % 256 != 0 {
        whole + 1
    } else {
        whole
    }
}

/// The launch of one thread per item, refused where the grid cannot express it. For kernels
/// without a grid-stride loop.
pub fn launch_1d(n: usize) -> (r: Result<LaunchConfig, HostError>)
    ensures
        match r {
            Ok(c) => blocks(n as int) <= i32::MAX && c == (LaunchConfig {
                grid_dim: (blocks(n as int) as u32, 1, 1),
                block_dim: (BLOCK_1D, 1, 1),
                shared_mem_bytes: 0,
            }),
            Err(e) => blocks(n as int) > i32::MAX && e == HostError::Geometry("1-d grid"),
        },
        r matches Ok(c) ==> n <= 256 * c.grid_dim.0 < n + 256,
{
    let gx: u64 = count_blocks(n);
    if gx > 0x7fff_ffff {
        return Err(HostError::Geometry("1-d grid"));
    }
    Ok(
        LaunchConfig {
            grid_dim: (gx as u32, 1, 1),
            block_dim: (BLOCK_1D, 1, 1),
            shared_mem_bytes: 0,
        },
    )
}

/// The launch of a kernel that walks its items in strides of the grid: at least one block
/// and at most 65535, for any number of items.
pub fn launch_1d_grid_stride(n: usize) -> (r: LaunchConfig)
    ensures
        r == (LaunchConfig {
            grid_dim: (
                (if blocks(n as int) < 1 {
                    1
                } else if blocks(n as int) > 65535 {
                    65535
                } else {
                    blocks(n as int)
                }) as u32,
                1,
                1,
            ),
            block_dim: (BLOCK_1D, 1, 1),
            shared_mem_bytes: 0,
        }),
        1 <= r.grid_dim.0 <= 65535,
        r.grid_dim.0 < 65535 ==> n <= 256 * r.grid_dim.0,
        r.grid_dim.0 > 1 ==> 256 * (r.grid_dim.0 - 1) < n,
{
    let gx: u64 = count_blocks(n);
    let grid: u32 = if gx < 1 {
        1
    } else if gx > 65535 {
        65535
    } else {
        gx as u32
    };
    LaunchConfig { grid_dim: (grid, 1, 1), block_dim: (BLOCK_1D, 1, 1), shared_mem_bytes: 0 }
}

/// Appends the decimal text of an integer.
fn push_integer(s: &mut String, x: i32)
    ensures
        final(s)@ == old(s)@ + text::decimal(x as int),
{
    let ghost start: Seq<char> = s@;
    if x < 0 {
        let m: u64 = (-(x as i64)) as u64;
        push(s, '-');
        push_decimal(s, m);
        assert(s@ =~= start + text::decimal(x as int));
    } else {
        push_decimal(s, x as u64);
    }
}

/// The name of a target: a prefix, the two numbers of a compute capability, a suffix.
pub open spec fn target(prefix: Seq<char>, cc: (i32, i32), suffix: Seq<char>) -> Seq<char> {
    prefix + text::decimal(cc.0 as int) + text::decimal(cc.1 as int) + suffix
}

/// The name of a target.
fn name_target(prefix: &str, cc: (i32, i32), suffix: &str) -> (r: String)
    ensures
        r@ == target(prefix@, cc, suffix@),
{
    let mut s: String = String::new();
    push_text(&mut s, prefix);
    assert(s@ =~= prefix@);
    push_integer(&mut s, cc.0);
    push_integer(&mut s, cc.1);
    push_text(&mut s, suffix);
    s
}

/// The target of the run-time compiler for a device: `compute_` and its capability.
pub fn compute_arch(cc: (i32, i32), suffix: &str) -> (r: String)
    ensures
        r@ == target("compute_"@, cc, suffix@),
{
    name_target("compute_", cc, suffix)
}

/// The target that hand-written device code names: `sm_` and the capability.
pub fn sm_target(cc: (i32, i32), suffix: &str) -> (r: String)
    ensures
        r@ == target("sm_"@, cc, suffix@),
{
    name_target("sm_", cc, suffix)
}

/// Uploads of at most this many bytes are not staged.
pub const STAGE_BYPASS_BYTES: usize = 65536;

/// Whether an upload of so many bytes is staged.
pub fn is_staged(bytes: usize) -> (r: bool)
    ensures
        r == (bytes > STAGE_BYPASS_BYTES),
        r == (bytes > 64 * 1024),
{
    bytes > STAGE_BYPASS_BYTES
}

/// Copies of fewer bytes than this are not shared out: 4 MiB.
pub const PAR_MIN_BYTES: usize = 4194304;

/// The bytes of one share of a copy: 2 MiB.
pub const GRAIN_BYTES: usize = 2097152;

/// How many items of `size` bytes are one share of a copy of so many bytes; none where the
/// copy is not shared out.
pub fn fill_grain(bytes: usize, size: usize) -> (r: Option<usize>)
    requires
        size > 0,
    ensures
        r == (if bytes < PAR_MIN_BYTES {
            None::<usize>
        } else if size > GRAIN_BYTES {
            Some(1)
        } else {
            Some((GRAIN_BYTES / size) as usize)
        }),
        r matches Some(g) ==> g > 0,
        r is Some <==> bytes >= 4 * 1024 * 1024,
        r matches Some(g) ==> g == 1 || g * size <= 2 * 1024 * 1024,
        r matches Some(g) ==> (g + 1) * size > 2 * 1024 * 1024,
{
    if bytes < PAR_MIN_BYTES {
        None
    } else if size > GRAIN_BYTES {
        Some(1)
    } else {
        proof {
            let g: int = GRAIN_BYTES as int / size as int;
            vstd::arithmetic::div_mod::lemma_div_non_zero(GRAIN_BYTES as int, size as int);
            vstd::arithmetic::div_mod::lemma_fundamental_div_mod(GRAIN_BYTES as int, size as int);
            assert(g * size == size * g && (g + 1) * size == size * g + size) by (nonlinear_arith);
        }
        Some(GRAIN_BYTES / size)
    }
}

/// The size of a staging buffer where nothing else is asked for: 32 MiB.
pub const DEFAULT_CHUNK: usize = 33554432;

/// The size of a staging buffer: what is asked for, rounded up to a positive multiple of
/// 4 KiB.
pub fn stage_chunk(asked: usize) -> (r: usize)
    requires
        asked <= usize::MAX - 4095,
    ensures
        r % 4096 == 0,
        r >= 4096,
        r >= asked,
        asked > 0 ==> r < asked + 4096,
        asked == 0 ==> r == 4096,
{
    let up: usize = (asked + 4095) / 4096 * 4096;
    if up < 4096 {
        4096
    } else {
        up
    }
}

/// One staged piece of an upload: `n` items from `off` on, through buffer `buf`.
#[derive(Debug, Clone, Copy, PartialEq, Eq, Structural)]
pub struct Stage {
    /// The first item.
    pub off: usize,
    /// The number of items.
    pub n: usize,
    /// The buffer, 0 or 1.
    pub buf: usize,
}

/// The pieces of an upload from item `off` on, where `turn` pieces went before.
pub open spec fn stages(len: int, chunk: int, off: int, turn: int) -> Seq<Stage>
    decreases len - off,
{
    if off >= len || chunk <= 0 {
        Seq::empty()
    } else {
        let n = if chunk < len - off {
            chunk
        } else {
            len - off
        };
        seq![Stage { off: off as usize, n: n as usize, buf: (turn % 2) as usize }] + stages(
            len,
            chunk,
            off + n,
            turn + 1,
        )
    }
}

/// The next piece of an upload of `len` items, `chunk` at most at a time, from item `off` on,
/// where `turn` pieces went before; none where all is uploaded.
pub fn next_stage(len: usize, chunk: usize, off: usize, turn: usize) -> (r: Option<Stage>)
    requires
        chunk > 0,
    ensures
        match r {
            Some(s) => {
                &&& off < len
                &&& stages(len as int, chunk as int, off as int, turn as int)[0] == s
                &&& s.off == off && 0 < s.n <= chunk && s.n <= len - off
                &&& stages(len as int, chunk as int, off as int, turn as int).skip(1) == stages(
                    len as int,
                    chunk as int,
                    off + s.n,
                    turn + 1,
                )
            },
            None => off >= len && stages(len as int, chunk as int, off as int, turn as int).len()
                == 0,
        },
{
    if off >= len {
        return None;
    }
    let left: usize = len - off;
    let n: usize = if chunk < left {
        chunk
    } else {
        left
    };
    let s: Stage = Stage { off, n, buf: turn % 2 };
    proof {
        let all: Seq<Stage> = stages(len as int, chunk as int, off as int, turn as int);
        let rest: Seq<Stage> = stages(len as int, chunk as int, off + n, turn + 1);
        assert(all == seq![s] + rest);
        assert(all.skip(1) =~= rest);
    }
    Some(s)
}

/// The pieces of an upload cover its items, in order and each once, and two pieces that
/// follow one another go through different buffers.
pub proof fn law_stages_cover(len: int, chunk: int, off: int, turn: int)
    requires
        0 <= off <= len <= usize::MAX,
        chunk > 0,
        turn >= 0,
    ensures
        ({
            let all = stages(len, chunk, off, turn);
            &&& off < len ==> all.len() > 0 && all[0].off == off && all.last().off + all.last().n
                == len && all[0].buf == turn % 2
            &&& off == len ==> all.len() == 0
            &&& forall|i: int| 0 <= i < all.len() ==> 0 < (#[trigger] all[i]).n <= chunk
            &&& forall|i: int|
                0 < i < all.len() ==> (#[trigger] all[i]).off == all[i - 1].off + all[i - 1].n
            &&& forall|i: int| 0 < i < all.len() ==> (#[trigger] all[i]).buf != all[i - 1].buf
        }),
    decreases len - off,
{
    if off < len {
        let n: int = if chunk < len - off {
            chunk
        } else {
            len - off
        };
        law_stages_cover(len, chunk, off + n, turn + 1);
        let all: Seq<Stage> = stages(len, chunk, off, turn);
        let rest: Seq<Stage> = stages(len, chunk, off + n, turn + 1);
        let first: Stage = Stage { off: off as usize, n: n as usize, buf: (turn % 2) as usize };
        assert(all == seq![first] + rest);
        assert(all[0] == first);
        assert(turn % 2 != (turn + 1) % 2);
        assert(0 <= turn % 2 < 2 && 0 <= (turn + 1) % 2 < 2);
        assert forall|i: int| 0 < i < all.len() implies #[trigger] all[i] == rest[i - 1] by {}
        assert forall|i: int| 0 <= i < all.len() implies 0 < (#[trigger] all[i]).n <= chunk by {
            if i > 0 {
                assert(all[i] == rest[i - 1]);
            }
        }
        assert forall|i: int| 0 < i < all.len() implies (#[trigger] all[i]).off == all[i - 1].off
            + all[i - 1].n && all[i].buf != all[i - 1].buf by {
            assert(all[i] == rest[i - 1]);
            if i > 1 {
                assert(all[i - 1] == rest[i - 2]);
            } else {
                assert(rest[0].off == off + n);
            }
        }
        if off + n < len {
            assert(all.last() == rest.last());
        } else {
            assert(rest.len() == 0);
            assert(all.last() == first);
        }
    }
}

} // verus!
