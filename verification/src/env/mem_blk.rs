//! Backing files for loop devices, kept in a ramfs.
use vstd::prelude::*;
use vstd::string::StringExecFns;
use crate::decimal::{decimal, format_u64, lemma_decimal_injective};

verus! {

/// Where the ramfs that holds the backing files is mounted.
pub const POOL_DIR: &'static str = "/mnt/dmtest";

/// `<POOL_DIR>/<i>`.
pub open spec fn file_path(i: u64) -> Seq<char> {
    POOL_DIR@ + "/"@ + decimal(i as nat)
}

/// Hands out the paths of backing files: `<POOL_DIR>/0`, `<POOL_DIR>/1`, and
/// so on.
pub struct MemBlkAllocator {
    i: u64,
}

impl View for MemBlkAllocator {
    type V = u64;

    /// The number of the next file.
    closed spec fn view(&self) -> u64 {
        self.i
    }
}

impl MemBlkAllocator {
    /// An allocator that has handed out no path yet.
    pub fn new() -> (a: MemBlkAllocator)
        ensures
            a@ == 0,
    {
        MemBlkAllocator { i: 0 }
    }

    /// The number of the next file: how many paths were handed out.
    pub fn count(&self) -> (n: u64)
        ensures
            n == self@,
    {
        self.i
    }

    /// The path of the next backing file.
    pub fn next_path(&mut self) -> (path: String)
        requires
            old(self)@ < u64::MAX,
        ensures
            path@ == file_path(old(self)@),
            final(self)@ == old(self)@ + 1,
    {
        let mut path = String::from_str(POOL_DIR);
        path.append("/");
        path.append(format_u64(self.i).as_str());
        self.i = self.i + 1;
        path
    }
}

/// Different files get different paths.
pub proof fn lemma_paths_distinct(a: u64, b: u64)
    requires
        a != b,
    ensures
        file_path(a) != file_path(b),
{
    let p = POOL_DIR@ + "/"@;
    if file_path(a) == file_path(b) {
        assert(decimal(a as nat) =~= file_path(a).skip(p.len() as int));
        assert(decimal(b as nat) =~= file_path(b).skip(p.len() as int));
        lemma_decimal_injective(a as nat, b as nat);
    }
}

} // verus!
