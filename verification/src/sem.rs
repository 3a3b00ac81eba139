//! The mathematical model of execution: a ghost machine (tape, cursor, input
//! and output byte sequences) and a fuel-indexed big-step semantics over it.
//!
//! Fuel is consumed only when a loop body is entered: a run of straight-line
//! commands needs no fuel at all, and `run_cmds(p, m, fuel)` returns `None`
//! exactly when `fuel` loop-nesting budget was not enough to finish. The
//! semantics is a total spec function, so every contract phrased with it pins
//! the result completely.

use vstd::prelude::*;

verus! {

/// A single command in its mathematical form: a loop body is a sequence of
/// commands rather than an owned vector.
pub enum CmdSpec {
    /// Move the cursor right by the given count.
    IncPointer(u8),
    /// Move the cursor left by the given count.
    DecPointer(u8),
    /// Add the given count to the current cell, modulo 256.
    IncValue(u8),
    /// Subtract the given count from the current cell, modulo 256.
    DecValue(u8),
    /// Emit the current cell to the output.
    PutChar,
    /// Read one input byte into the current cell; zero at end of input.
    GetChar,
    /// Run the body while the current cell is nonzero.
    Loop(Seq<CmdSpec>),
}

/// The whole state an execution touches: the tape, the cursor, the input
/// bytes not yet read, and the output bytes written so far.
#[verifier::ext_equal]
pub struct Machine {
    pub mem: Seq<u8>,
    pub ptr: nat,
    pub input: Seq<u8>,
    pub output: Seq<u8>,
}

impl Machine {
    /// The tape is never empty and the cursor always points into it.
    pub open spec fn wf(self) -> bool {
        self.ptr < self.mem.len()
    }

    /// The value of the cell under the cursor.
    pub open spec fn cell(self) -> u8 {
        self.mem[self.ptr as int]
    }
}

/// `mem` extended at the high end with zero cells until it holds at least
/// `need` cells (unchanged if it is already long enough).
pub open spec fn grown(mem: Seq<u8>, need: nat) -> Seq<u8> {
    if mem.len() >= need {
        mem
    } else {
        mem + Seq::new((need - mem.len()) as nat, |i: int| 0u8)
    }
}

/// The cursor moves `n` cells right; the tape grows at the high end until the
/// cursor is strictly interior, keeping one trailing zero cell available.
pub open spec fn move_right(m: Machine, n: nat) -> Machine {
    Machine { mem: grown(m.mem, m.ptr + n + 2), ptr: m.ptr + n, ..m }
}

/// The cursor moves `n` cells left. When `n` exceeds the cursor, `n - ptr`
/// zero cells materialize at the low end and the cursor then denotes the new
/// lowest cell.
pub open spec fn move_left(m: Machine, n: nat) -> Machine {
    if n > m.ptr {
        Machine { mem: Seq::new((n - m.ptr) as nat, |i: int| 0u8) + m.mem, ptr: 0, ..m }
    } else {
        Machine { ptr: (m.ptr - n) as nat, ..m }
    }
}

/// Addition of cell values, wrapping modulo 256.
pub open spec fn wrap_add(c: u8, n: u8) -> u8 {
    if c + n < 256 {
        (c + n) as u8
    } else {
        (c + n - 256) as u8
    }
}

/// Subtraction of cell values, wrapping modulo 256.
pub open spec fn wrap_sub(c: u8, n: u8) -> u8 {
    if n <= c {
        (c - n) as u8
    } else {
        (c - n + 256) as u8
    }
}

/// The cell under the cursor replaced by `v`.
pub open spec fn set_cell(m: Machine, v: u8) -> Machine {
    Machine { mem: m.mem.update(m.ptr as int, v), ..m }
}

/// The current cell appended to the output.
pub open spec fn do_put(m: Machine) -> Machine {
    Machine { output: m.output.push(m.cell()), ..m }
}

/// One byte read from the input into the current cell; at end of input the
/// cell becomes zero and the input stays empty.
pub open spec fn do_get(m: Machine) -> Machine {
    if m.input.len() == 0 {
        set_cell(m, 0)
    } else {
        Machine { mem: m.mem.update(m.ptr as int, m.input[0]), input: m.input.drop_first(), ..m }
    }
}

/// Big-step run of a command sequence. `None` means the fuel ran out inside
/// some loop.
pub open spec fn run_cmds(cmds: Seq<CmdSpec>, m: Machine, fuel: nat) -> Option<Machine>
    decreases fuel, cmds.len(), 1nat,
{
    if cmds.len() == 0 {
        Some(m)
    } else {
        match run_cmd(cmds[0], m, fuel) {
            Some(m1) => run_cmds(cmds.drop_first(), m1, fuel),
            None => None,
        }
    }
}

/// Big-step run of one command.
pub open spec fn run_cmd(c: CmdSpec, m: Machine, fuel: nat) -> Option<Machine>
    decreases fuel, 0nat, 2nat,
{
    match c {
        CmdSpec::IncPointer(n) => Some(move_right(m, n as nat)),
        CmdSpec::DecPointer(n) => Some(move_left(m, n as nat)),
        CmdSpec::IncValue(n) => Some(set_cell(m, wrap_add(m.cell(), n))),
        CmdSpec::DecValue(n) => Some(set_cell(m, wrap_sub(m.cell(), n))),
        CmdSpec::PutChar => Some(do_put(m)),
        CmdSpec::GetChar => Some(do_get(m)),
        CmdSpec::Loop(body) => run_loop(body, m, fuel),
    }
}

/// Big-step run of a loop: while the current cell is nonzero, run the body,
/// spending one unit of fuel per iteration.
pub open spec fn run_loop(body: Seq<CmdSpec>, m: Machine, fuel: nat) -> Option<Machine>
    decreases fuel, 0nat, 1nat,
{
    if m.cell() == 0 {
        Some(m)
    } else if fuel == 0 {
        None
    } else {
        match run_cmds(body, m, (fuel - 1) as nat) {
            Some(m1) => run_loop(body, m1, (fuel - 1) as nat),
            None => None,
        }
    }
}

/// Running a concatenation runs the first part, then the second from where
/// the first ended.
pub proof fn lemma_run_cmds_append(a: Seq<CmdSpec>, b: Seq<CmdSpec>, m: Machine, fuel: nat)
    ensures
        run_cmds(a + b, m, fuel) == (match run_cmds(a, m, fuel) {
            Some(m1) => run_cmds(b, m1, fuel),
            None => None,
        }),
    decreases a.len(),
{
    if a.len() == 0 {
        assert(a + b =~= b);
    } else {
        assert((a + b)[0] == a[0]);
        assert((a + b).drop_first() =~= a.drop_first() + b);
        match run_cmd(a[0], m, fuel) {
            Some(m1) => {
                lemma_run_cmds_append(a.drop_first(), b, m1, fuel);
            },
            None => {},
        }
    }
}

/// Growing twice is growing once to the larger demand.
pub proof fn lemma_grown_grown(mem: Seq<u8>, a: nat, b: nat)
    requires
        a <= b,
    ensures
        grown(grown(mem, a), b) == grown(mem, b),
{
    assert(grown(grown(mem, a), b) =~= grown(mem, b));
}

/// Running a command sequence preserves the machine invariant.
pub proof fn lemma_run_cmds_wf(cmds: Seq<CmdSpec>, m: Machine, fuel: nat)
    requires
        m.wf(),
    ensures
        run_cmds(cmds, m, fuel) matches Some(m1) ==> m1.wf(),
    decreases fuel, cmds.len(), 1nat,
{
    if cmds.len() != 0 {
        lemma_run_cmd_wf(cmds[0], m, fuel);
        match run_cmd(cmds[0], m, fuel) {
            Some(m1) => {
                lemma_run_cmds_wf(cmds.drop_first(), m1, fuel);
            },
            None => {},
        }
    }
}

/// Running one command preserves the machine invariant.
pub proof fn lemma_run_cmd_wf(c: CmdSpec, m: Machine, fuel: nat)
    requires
        m.wf(),
    ensures
        run_cmd(c, m, fuel) matches Some(m1) ==> m1.wf(),
    decreases fuel, 0nat, 2nat,
{
    match c {
        CmdSpec::Loop(body) => {
            lemma_run_loop_wf(body, m, fuel);
        },
        _ => {},
    }
}

/// Running a loop preserves the machine invariant.
pub proof fn lemma_run_loop_wf(body: Seq<CmdSpec>, m: Machine, fuel: nat)
    requires
        m.wf(),
    ensures
        run_loop(body, m, fuel) matches Some(m1) ==> m1.wf(),
    decreases fuel, 0nat, 1nat,
{
    if m.cell() != 0 && fuel > 0 {
        lemma_run_cmds_wf(body, m, (fuel - 1) as nat);
        match run_cmds(body, m, (fuel - 1) as nat) {
            Some(m1) => {
                lemma_run_loop_wf(body, m1, (fuel - 1) as nat);
            },
            None => {},
        }
    }
}

/// Stepping through a sequence by index: the suffix from `j` is the `j`-th
/// element followed by the suffix from `j + 1`.
pub proof fn lemma_skip_step<A>(s: Seq<A>, j: int)
    requires
        0 <= j < s.len(),
    ensures
        s.skip(j)[0] == s[j],
        s.skip(j).drop_first() =~= s.skip(j + 1),
        s.skip(j).len() == s.len() - j,
{
}

} // verus!
