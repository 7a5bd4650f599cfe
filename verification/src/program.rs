//! Executable programs.
use vstd::prelude::*;

use crate::code_block::{CodeBlock, Mast};
use crate::hasher::Digest;

verus! {

/// Model of an executable program.
#[verifier::ext_equal]
pub struct SpecProgram {
    pub root: Mast,
    pub kernel: Seq<Digest>,
    pub table: Map<Digest, Mast>,
}

impl SpecProgram {
    /// True if the program can find whatever it invokes: the procedures which its code and the
    /// blocks of its table invoke are in the table under their digests, and those which they
    /// invoke in the kernel are procedures of the kernel.
    pub open spec fn is_resolved(self) -> bool {
        &&& self.root.resolves(self.table.dom(), self.kernel)
        &&& forall|digest: Digest| #[trigger]
            self.table.contains_key(digest) ==> {
                &&& self.table[digest].digest() == digest
                &&& self.table[digest].resolves(self.table.dom(), self.kernel)
            }
    }
}

/// The procedures of a kernel, given by the digests of their code.
#[derive(Debug)]
pub struct Kernel {
    proc_hashes: Vec<Digest>,
}

impl View for Kernel {
    type V = Seq<Digest>;

    closed spec fn view(&self) -> Seq<Digest> {
        self.proc_hashes@
    }
}

impl Kernel {
    /// Returns a kernel with the given procedures.
    pub fn new(proc_hashes: Vec<Digest>) -> (r: Kernel)
        ensures
            r@ == proc_hashes@,
    {
        Kernel { proc_hashes }
    }

    /// Returns the digests of the procedures of this kernel.
    pub fn proc_hashes(&self) -> (r: &Vec<Digest>)
        ensures
            r@ == self@,
    {
        &self.proc_hashes
    }
}

impl Default for Kernel {
    /// Returns a kernel without procedures.
    fn default() -> (r: Kernel)
        ensures
            r@ == Seq::<Digest>::empty(),
    {
        Kernel { proc_hashes: Vec::new() }
    }
}

impl Clone for Kernel {
    /// Returns a copy of this kernel.
    fn clone(&self) -> (r: Kernel)
        ensures
            r@ == self@,
    {
        let proc_hashes = self.proc_hashes.clone();
        assert(proc_hashes@ =~= self.proc_hashes@);
        Kernel { proc_hashes }
    }
}

/// Code blocks by their digests.
pub struct CodeBlockTable {
    blocks: Vec<CodeBlock>,
}

impl CodeBlockTable {
    /// The map in which the last of several blocks with one digest counts.
    spec fn map_of(blocks: Seq<CodeBlock>) -> Map<Digest, Mast>
        decreases blocks.len(),
    {
        if blocks.len() == 0 {
            Map::empty()
        } else {
            Self::map_of(blocks.drop_last()).insert(blocks.last()@.digest(), blocks.last()@)
        }
    }
}

impl View for CodeBlockTable {
    type V = Map<Digest, Mast>;

    closed spec fn view(&self) -> Map<Digest, Mast> {
        CodeBlockTable::map_of(self.blocks@)
    }
}

impl CodeBlockTable {
    /// Returns an empty table.
    pub fn new() -> (r: CodeBlockTable)
        ensures
            r@ == Map::<Digest, Mast>::empty(),
    {
        CodeBlockTable { blocks: Vec::new() }
    }

    /// Puts the block into this table, in place of one with the same digest.
    pub fn insert(&mut self, block: CodeBlock)
        ensures
            final(self)@ == old(self)@.insert(block@.digest(), block@),
    {
        self.blocks.push(block);
        assert(self.blocks@.drop_last() =~= old(self).blocks@);
    }

    /// Returns the block with the given digest.
    pub fn get(&self, digest: Digest) -> (r: Option<&CodeBlock>)
        ensures
            r matches Some(block) ==> self@.contains_key(digest) && block@ == self@[digest],
            r is None ==> !self@.contains_key(digest),
    {
        let mut i: usize = self.blocks.len();
        assert(self.blocks@.take(i as int) =~= self.blocks@);
        while i > 0
            invariant
                i <= self.blocks.len(),
                self@.contains_key(digest) == Self::map_of(self.blocks@.take(i as int)).contains_key(digest),
                self@.contains_key(digest) ==> self@[digest] == Self::map_of(self.blocks@.take(i as int))[digest],
            decreases i,
        {
            assert(self.blocks@.take(i as int).drop_last() =~= self.blocks@.take(i - 1));
            if self.blocks[i - 1].hash() == digest {
                return Some(&self.blocks[i - 1]);
            }
            i = i - 1;
        }
        None
    }
}

/// An executable program.
pub struct Program {
    root: CodeBlock,
    kernel: Kernel,
    cb_table: CodeBlockTable,
}

impl View for Program {
    type V = SpecProgram;

    closed spec fn view(&self) -> SpecProgram {
        SpecProgram { root: self.root@, kernel: self.kernel@, table: self.cb_table@ }
    }
}

impl Program {
    /// Returns a program with the given code, for the given kernel; the table holds the code of
    /// the procedures which the program calls.
    pub fn with_kernel(root: CodeBlock, kernel: Kernel, cb_table: CodeBlockTable) -> (r: Program)
        ensures
            r@ == (SpecProgram { root: root@, kernel: kernel@, table: cb_table@ }),
    {
        Program { root, kernel, cb_table }
    }

    /// Returns the code of this program.
    pub fn root(&self) -> (r: &CodeBlock)
        ensures
            r@ == self@.root,
    {
        &self.root
    }

    /// Returns the kernel of this program.
    pub fn kernel(&self) -> (r: &Kernel)
        ensures
            r@ == self@.kernel,
    {
        &self.kernel
    }

    /// Returns the code of the procedures which this program calls.
    pub fn cb_table(&self) -> (r: &CodeBlockTable)
        ensures
            r@ == self@.table,
    {
        &self.cb_table
    }

    /// Returns the digest of the code of this program.
    pub fn hash(&self) -> (r: Digest)
        ensures
            r == self@.root.digest(),
    {
        self.root.hash()
    }
}

} // verus!
