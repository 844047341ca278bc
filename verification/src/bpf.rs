//! Classic BPF, as far as a filter of system calls needs it: instructions, the data
//! that a filter looks at, and what running a filter yields.
use vstd::prelude::*;

verus! {

/// One instruction: an operation, how far to jump if a comparison holds and if it
/// does not, and a constant.
#[derive(Debug, Clone, Copy, PartialEq, Eq, Structural)]
pub struct SockFilter {
    pub code: u16,
    pub jt: u8,
    pub jf: u8,
    pub k: u32,
}

/// A system call as a filter sees it.
#[derive(Debug, Clone, Copy, PartialEq, Eq)]
pub struct SeccompData {
    pub nr: i32,
    pub arch: u32,
    pub instruction_pointer: u64,
    pub args: [u64; 6],
}

/// Load the word at an absolute position.
pub const LOAD: u16 = 0x20;

/// Jump on equality with a constant.
pub const JUMP_IF_EQUAL: u16 = 0x15;

/// Return a constant.
pub const RETURN: u16 = 0x06;

/// The low half of a double word.
pub open spec fn low(x: u64) -> u32 {
    (x % 0x1_0000_0000) as u32
}

/// The high half of a double word.
pub open spec fn high(x: u64) -> u32 {
    (x / 0x1_0000_0000) as u32
}

/// One half of a double word that stands at `at`, as a little-endian machine lays it
/// out: first the low half, then the high half.
pub open spec fn half(x: u64, at: int, offset: int) -> u32 {
    if offset == at {
        low(x)
    } else {
        high(x)
    }
}

/// The word at a position of the data of a system call, on a little-endian machine.
pub open spec fn load(d: SeccompData, offset: int) -> Option<u32> {
    if offset % 4 != 0 || !(0 <= offset < 64) {
        None
    } else if offset == 0 {
        Some(d.nr as u32)
    } else if offset == 4 {
        Some(d.arch)
    } else if offset < 16 {
        Some(half(d.instruction_pointer, 8, offset))
    } else {
        let i = (offset - 16) / 8;
        Some(half(d.args@[i], 16 + 8 * i, offset))
    }
}

/// The data of a system call on a little-endian machine: its number, the architecture,
/// then the instruction pointer and the six arguments, each as two words of which the
/// first is worth the less. There is nothing between them or behind them.
pub proof fn law_layout_of_data(d: SeccompData, i: int, offset: int)
    requires
        0 <= i < 6,
    ensures
        load(d, 0) == Some(d.nr as u32),
        load(d, 4) == Some(d.arch),
        load(d, 8) is Some,
        load(d, 12) is Some,
        load(d, 8)->0 + 0x1_0000_0000 * load(d, 12)->0 == d.instruction_pointer,
        load(d, 16 + 8 * i) is Some,
        load(d, 20 + 8 * i) is Some,
        load(d, 16 + 8 * i)->0 + 0x1_0000_0000 * load(d, 20 + 8 * i)->0 == d.args@[i],
        load(d, offset) is Some <==> 0 <= offset < 64 && offset % 4 == 0,
{
    lemma_halves(d.instruction_pointer);
    lemma_halves(d.args@[i]);
    assert(load(d, 8) == Some(low(d.instruction_pointer)));
    assert(load(d, 12) == Some(high(d.instruction_pointer)));
    assert((16 + 8 * i - 16) / 8 == i);
    assert((20 + 8 * i - 16) / 8 == i);
    assert((16 + 8 * i) % 4 == 0);
    assert((20 + 8 * i) % 4 == 0);
    assert(load(d, 16 + 8 * i) == Some(low(d.args@[i])));
    assert(load(d, 20 + 8 * i) == Some(high(d.args@[i])));
}

proof fn lemma_halves(x: u64)
    ensures
        low(x) + 0x1_0000_0000 * high(x) == x,
{
}

/// What a filter returns from instruction `pc` on, with `acc` in the accumulator.
/// There is no result where the filter leaves its instructions, loads from outside
/// the data or holds an operation that is none of the three.
pub open spec fn run(prog: Seq<SockFilter>, d: SeccompData, pc: int, acc: u32) -> Option<u32>
    decreases vstd::math::max(prog.len() - pc, 0),
{
    if pc < 0 || pc >= prog.len() {
        None
    } else {
        let f = prog[pc];
        if f.code == LOAD {
            match load(d, f.k as int) {
                Some(word) => run(prog, d, pc + 1, word),
                None => None,
            }
        } else if f.code == JUMP_IF_EQUAL {
            run(
                prog,
                d,
                pc + 1 + if acc == f.k {
                    f.jt
                } else {
                    f.jf
                },
                acc,
            )
        } else if f.code == RETURN {
            Some(f.k)
        } else {
            None
        }
    }
}

} // verus!
