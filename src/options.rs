//! Dump configuration and the window of the buffer that it selects.
use vstd::prelude::*;

verus! {

/// How a dump is laid out and which bytes it covers.
pub struct HexDumpOptions {
    /// Reverse the bytes within each group before rendering them.
    pub little_endian: bool,
    /// Bytes per group; 0 stands for 16.
    pub group_size: usize,
    /// Bytes per line; must be positive to encode.
    pub cols: usize,
    /// Cap on the number of bytes rendered after the seek.
    pub length: Option<usize>,
    /// Start of the window: from the front when non-negative, from the end otherwise.
    pub seek: i32,
}

/// The command-line settings of the dump tool.
pub struct Args {
    pub file: String,
    pub little_endian: bool,
    pub group_size: usize,
    pub length: Option<usize>,
    pub cols: usize,
    pub seek: i32,
    /// Decode a dump instead of producing one.
    pub revert: bool,
}

impl Args {
    /// The dump configuration that these settings describe.
    pub fn options(&self) -> (o: HexDumpOptions)
        ensures
            o.little_endian == self.little_endian,
            o.group_size == self.group_size,
            o.cols == self.cols,
            o.length == self.length,
            o.seek == self.seek,
    {
        HexDumpOptions {
            little_endian: self.little_endian,
            group_size: self.group_size,
            cols: self.cols,
            length: self.length,
            seek: self.seek,
        }
    }
}

/// The group size in effect: 0 stands for 16.
pub open spec fn effective_group_size(g: usize) -> nat {
    if g == 0 {
        16
    } else {
        g as nat
    }
}

/// First index of the window in a buffer of `n` bytes.
pub open spec fn window_start(n: nat, seek: int) -> nat {
    if seek >= 0 {
        if seek <= n {
            seek as nat
        } else {
            n
        }
    } else if -seek <= n {
        (n + seek) as nat
    } else {
        0
    }
}

/// End (exclusive) of the window in a buffer of `n` bytes.
pub open spec fn window_end(n: nat, seek: int, length: Option<usize>) -> nat {
    let start = window_start(n, seek);
    match length {
        Some(l) => if start + l <= n {
            (start + l) as nat
        } else {
            n
        },
        None => n,
    }
}

/// The half-open range of buffer indices that a dump of `n` bytes covers.
pub fn window_bounds(n: usize, seek: i32, length: Option<usize>) -> (r: (usize, usize))
    ensures
        r.0 == window_start(n as nat, seek as int),
        r.1 == window_end(n as nat, seek as int, length),
        r.0 <= r.1 <= n,
{
    let start: usize = if seek >= 0 {
        if seek as usize <= n {
            seek as usize
        } else {
            n
        }
    } else {
        let back: u64 = (-(seek as i64)) as u64;
        if back <= n as u64 {
            n - back as usize
        } else {
            0
        }
    };
    let end: usize = match length {
        Some(l) => if l <= n - start {
            start + l
        } else {
            n
        },
        None => n,
    };
    (start, end)
}

/// The group size in effect: 0 stands for 16.
pub(crate) fn effective_group_size_of(g: usize) -> (r: usize)
    ensures
        r == effective_group_size(g),
        r > 0,
{
    if g == 0 {
        16
    } else {
        g
    }
}

} // verus!
