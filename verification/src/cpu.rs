//! A two-instruction processor: `noop` burns one cycle, `addx` burns two and
//! then adds to the X register.  The register's value is recorded at the end
//! of every `addx`, and can be read back for any cycle.

use std::collections::HashMap;

use vstd::prelude::*;
use vstd::string::StrSliceExecFns;

use crate::parsing::{int_str_val, is_int_str, parse_i32};

verus! {

broadcast use vstd::std_specs::hash::group_hash_axioms;

/// One instruction.
#[derive(Debug)]
pub enum Instruction {
    NOP,
    ADDX(i32),
}

/// The processor: its program, the X values recorded at the cycles where an
/// `addx` completed, and the cycle the last run ended on.
#[derive(Debug)]
pub struct Cpu {
    program: Vec<Instruction>,
    x_at: HashMap<u32, i32>,
    highest_cycle: u32,
}

/// A line spelling the one-cycle instruction.
pub open spec fn is_noop_line(s: Seq<char>) -> bool {
    s == "noop"@
}

/// A line spelling the add instruction and its operand.
pub open spec fn is_addx_line(s: Seq<char>) -> bool {
    &&& s.len() > 5
    &&& s.subrange(0, 5) == "addx "@
    &&& is_int_str(s.skip(5))
    &&& i32::MIN <= int_str_val(s.skip(5)) <= i32::MAX
}

/// The operand written on an add line.
pub open spec fn addx_operand(s: Seq<char>) -> int {
    int_str_val(s.skip(5))
}

/// Cycles a run of the program burns.
pub closed spec fn spec_cycles(prog: Seq<Instruction>) -> int
    decreases prog.len(),
{
    if prog.len() == 0 {
        0
    } else {
        spec_cycles(prog.drop_last()) + match prog.last() {
            Instruction::NOP => 1int,
            Instruction::ADDX(_) => 2int,
        }
    }
}

/// The X register after a run of the program, starting from one.
pub closed spec fn spec_x(prog: Seq<Instruction>) -> int
    decreases prog.len(),
{
    if prog.len() == 0 {
        1
    } else {
        spec_x(prog.drop_last()) + match prog.last() {
            Instruction::NOP => 0int,
            Instruction::ADDX(v) => v as int,
        }
    }
}

/// The recordings a run adds to the map: at the end of each `addx`, the
/// cycle so far maps to the register's new value.
pub closed spec fn spec_run_map(m0: Map<u32, i32>, prog: Seq<Instruction>) -> Map<u32, i32>
    decreases prog.len(),
{
    if prog.len() == 0 {
        m0
    } else {
        let m = spec_run_map(m0, prog.drop_last());
        match prog.last() {
            Instruction::NOP => m,
            Instruction::ADDX(_) => m.insert(
                spec_cycles(prog) as u32,
                spec_x(prog) as i32,
            ),
        }
    }
}

/// Every prefix of the program keeps the cycle count and register in range.
pub closed spec fn run_fits(prog: Seq<Instruction>) -> bool
    decreases prog.len(),
{
    if prog.len() == 0 {
        true
    } else {
        &&& run_fits(prog.drop_last())
        &&& spec_cycles(prog) <= u32::MAX
        &&& i32::MIN <= spec_x(prog) <= i32::MAX
    }
}

/// The value `get_x_at` reads: walk down from the cycle to the nearest
/// recorded one; below cycle two the register still holds its initial one.
pub closed spec fn spec_lookup(m: Map<u32, i32>, c: u32) -> int
    decreases c,
{
    if c <= 1 {
        1
    } else if m.contains_key(c) {
        m[c] as int
    } else {
        spec_lookup(m, (c - 1) as u32)
    }
}

impl Cpu {
    pub closed spec fn spec_program(&self) -> Seq<Instruction> {
        self.program@
    }

    pub closed spec fn spec_map(&self) -> Map<u32, i32> {
        self.x_at@
    }

    pub closed spec fn spec_highest(&self) -> int {
        self.highest_cycle as int
    }

    pub fn new() -> (r: Self)
        ensures
            r.spec_program() == Seq::<Instruction>::empty(),
            r.spec_map() == Map::<u32, i32>::empty().insert(0, 1),
            r.spec_highest() == 0,
    {
        let mut x_at: HashMap<u32, i32> = HashMap::new();
        x_at.insert(0, 1);
        Self { program: Vec::new(), x_at, highest_cycle: 0 }
    }

    /// Append the instruction a line spells.
    pub fn add_line(&mut self, line: String)
        requires
            is_noop_line(line@) || is_addx_line(line@),
        ensures
            final(self).spec_program().len() == old(self).spec_program().len() + 1,
            final(self).spec_program().drop_last() == old(self).spec_program(),
            is_noop_line(line@) ==> final(self).spec_program().last() is NOP,
            is_addx_line(line@) ==> final(self).spec_program().last() == Instruction::ADDX(
                addx_operand(line@) as i32,
            ),
            final(self).spec_map() == old(self).spec_map(),
            final(self).spec_highest() == old(self).spec_highest(),
    {
        proof {
            reveal_strlit("noop");
            reveal_strlit("addx ");
        }
        let c = line.as_str().get_char(0);
        if c == 'n' {
            proof {
                if is_addx_line(line@) {
                    assert(line@.subrange(0, 5)[0] == 'a');
                    assert(false);
                }
            }
            self.program.push(Instruction::NOP);
        } else {
            proof {
                if is_noop_line(line@) {
                    assert(line@[0] == 'n');
                    assert(false);
                }
            }
            let ghost rest = line@.skip(5);
            let n = line.as_str().unicode_len();
            let op_str = line.as_str().substring_char(5, n);
            proof {
                assert(op_str@ =~= rest);
            }
            let op1 = parse_i32(op_str).unwrap();
            self.program.push(Instruction::ADDX(op1));
        }
        proof {
            assert(self.program@.drop_last() =~= old(self).program@);
        }
    }

    /// Run the program from the start, recording the register at the end of
    /// every `addx`.
    pub fn execute(&mut self)
        requires
            run_fits(old(self).spec_program()),
        ensures
            final(self).spec_program() == old(self).spec_program(),
            final(self).spec_map() == spec_run_map(old(self).spec_map(), old(self).spec_program()),
            final(self).spec_highest() == spec_cycles(old(self).spec_program()),
    {
        let mut cycle: u32 = 0;
        let mut x_reg: i32 = 1;
        let n = self.program.len();
        let ghost prog = self.program@;
        let ghost m0 = self.x_at@;
        let mut i: usize = 0;
        while i < n
            invariant
                n == self.program@.len(),
                i <= n,
                self.program@ == prog,
                run_fits(prog),
                cycle == spec_cycles(prog.subrange(0, i as int)),
                x_reg == spec_x(prog.subrange(0, i as int)),
                self.x_at@ == spec_run_map(m0, prog.subrange(0, i as int)),
                self.highest_cycle == old(self).highest_cycle,
            decreases n - i,
        {
            let ghost pre = prog.subrange(0, i as int);
            let ghost cur = prog.subrange(0, i + 1 as int);
            proof {
                assert(cur.drop_last() =~= pre);
                assert(cur.last() == prog[i as int]);
                lemma_run_fits_prefix(prog, i + 1);
                lemma_cycles_x_bounds(cur);
            }
            match self.program[i] {
                Instruction::NOP => {
                    cycle = cycle + 1;
                },
                Instruction::ADDX(op1) => {
                    cycle = cycle + 2;
                    x_reg = x_reg + op1;
                    self.x_at.insert(cycle, x_reg);
                },
            }
            i = i + 1;
        }
        proof {
            assert(prog.subrange(0, n as int) =~= prog);
        }
        self.highest_cycle = cycle;
    }

    /// The register's value at the start of the given cycle (clamped to the
    /// last cycle the program ran to): the nearest recording at or below it.
    pub fn get_x_at(&self, cycle: i32) -> (r: i32)
        requires
            cycle >= 1,
        ensures
            r == spec_lookup(
                self.spec_map(),
                if cycle - 1 > self.spec_highest() {
                    self.spec_highest() as u32
                } else {
                    (cycle - 1) as u32
                },
            ),
    {
        let mut check_cycle: u32 = cycle as u32;
        check_cycle = check_cycle - 1;

        if check_cycle > self.highest_cycle {
            check_cycle = self.highest_cycle;
        }

        while check_cycle > 1
            invariant
                spec_lookup(
                    self.spec_map(),
                    if cycle - 1 > self.spec_highest() {
                        self.spec_highest() as u32
                    } else {
                        (cycle - 1) as u32
                    },
                ) == spec_lookup(self.spec_map(), check_cycle),
            decreases check_cycle,
        {
            match self.x_at.get(&check_cycle) {
                Option::None => {
                    check_cycle = check_cycle - 1;
                },
                Option::Some(val) => {
                    return *val;
                },
            }
        }
        return 1;
    }
}

/// Prefixes of a program whose runs stay in range also stay in range.
proof fn lemma_run_fits_prefix(prog: Seq<Instruction>, k: int)
    requires
        run_fits(prog),
        0 <= k <= prog.len(),
    ensures
        run_fits(prog.subrange(0, k)),
    decreases prog.len(),
{
    if k < prog.len() {
        assert(prog.drop_last() =~= prog.subrange(0, prog.len() - 1));
        lemma_run_fits_prefix(prog.subrange(0, prog.len() - 1), k);
        assert(prog.subrange(0, prog.len() - 1).subrange(0, k) =~= prog.subrange(0, k));
    } else {
        assert(prog.subrange(0, k) =~= prog);
    }
}

/// A program whose run stays in range has a nonnegative cycle count.
proof fn lemma_cycles_x_bounds(prog: Seq<Instruction>)
    ensures
        spec_cycles(prog) >= 0,
    decreases prog.len(),
{
    if prog.len() > 0 {
        lemma_cycles_x_bounds(prog.drop_last());
    }
}

} // verus!
