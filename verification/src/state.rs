//! The executor: the mutable tape with its cursor, the byte-oriented input
//! source and output sink, and the tree-walking interpreter.
//!
//! Every mutating operation is specified by the matching effect of `sem`, and
//! `State::execute` is tied exactly to the fuel-indexed big-step semantics:
//! it returns `true` and the machine demanded by `sem::run_cmds` when the fuel
//! suffices, and `false` exactly when `sem::run_cmds` answers `None`.

use vstd::pervasive::VecAdditionalExecFns;
use vstd::prelude::*;

use crate::program::Command;
use crate::program::Program;
use crate::program::lemma_cmds_view;
use crate::program::prog_view;
use crate::sem;
use crate::sem::Machine;

verus! {

/// A byte-oriented input source: a buffer read from front to back, one byte
/// per request; reading past the end yields zero.
pub struct InputSource {
    bytes: Vec<u8>,
    pos: usize,
}

impl InputSource {
    /// The bytes not yet read.
    pub closed spec fn remaining(self) -> Seq<u8> {
        self.bytes@.skip(self.pos as int)
    }

    /// The read position never passes the end of the buffer.
    pub closed spec fn wf(self) -> bool {
        self.pos <= self.bytes@.len()
    }

    /// An input source holding the given bytes, none read yet.
    pub fn new(bytes: Vec<u8>) -> (src: InputSource)
        ensures
            src.wf(),
            src.remaining() == bytes@,
    {
        let src = InputSource { bytes, pos: 0 };
        proof {
            assert(src.remaining() =~= src.bytes@);
        }
        src
    }

    /// The next byte, or zero once the source is exhausted (end of input is a
    /// defined zero, not an error).
    fn read_byte(&mut self) -> (b: u8)
        requires
            old(self).wf(),
        ensures
            final(self).wf(),
            old(self).remaining().len() == 0 ==> b == 0 && final(self).remaining()
                == old(self).remaining(),
            old(self).remaining().len() > 0 ==> b == old(self).remaining()[0]
                && final(self).remaining() == old(self).remaining().drop_first(),
    {
        if self.pos < self.bytes.len() {
            let b = self.bytes[self.pos];
            self.pos = self.pos + 1;
            proof {
                assert(self.remaining() =~= old(self).remaining().drop_first());
            }
            b
        } else {
            0
        }
    }
}

/// A byte-oriented output sink: an in-memory buffer that collects every byte
/// written.
pub struct OutputSink {
    bytes: Vec<u8>,
}

impl OutputSink {
    /// The bytes written so far.
    pub closed spec fn data(self) -> Seq<u8> {
        self.bytes@
    }

    /// An empty sink.
    pub fn new() -> (sink: OutputSink)
        ensures
            sink.data() == Seq::<u8>::empty(),
    {
        let sink = OutputSink { bytes: Vec::new() };
        proof {
            assert(sink.data() =~= Seq::<u8>::empty());
        }
        sink
    }

    /// One byte appended to the output.
    fn write_byte(&mut self, b: u8)
        ensures
            final(self).data() == old(self).data().push(b),
    {
        self.bytes.push(b);
    }

    /// The collected output, surrendering the sink.
    pub fn into_vec(self) -> (v: Vec<u8>)
        ensures
            v@ == self.data(),
    {
        self.bytes
    }
}

/// The memory tape and its cursor. The tape always holds at least one cell
/// and the cursor always points into it; it stands for a two-way-infinite
/// line of zero cells, materialized lazily at whichever end is approached.
pub struct State {
    memory: Vec<u8>,
    pointer: usize,
}

/// The ghost machine made of a tape state, an input source and an output
/// sink: the object the semantics of `sem` runs on.
pub open spec fn mach(s: State, src: InputSource, sink: OutputSink) -> Machine {
    Machine { mem: s.mem(), ptr: s.ptr(), input: src.remaining(), output: sink.data() }
}

impl State {
    /// The cells of the tape.
    pub closed spec fn mem(self) -> Seq<u8> {
        self.memory@
    }

    /// The cursor.
    pub closed spec fn ptr(self) -> nat {
        self.pointer as nat
    }

    /// The tape invariant: at least one cell, cursor in range.
    pub open spec fn wf(self) -> bool {
        self.ptr() < self.mem().len()
    }

    /// A fresh tape: a single zero cell with the cursor on it.
    pub fn new() -> (s: State)
        ensures
            s.wf(),
            s.mem() == seq![0u8],
            s.ptr() == 0,
    {
        let mut memory: Vec<u8> = Vec::new();
        memory.push(0);
        let s = State { memory, pointer: 0 };
        proof {
            assert(s.mem() =~= seq![0u8]);
        }
        s
    }

    /// The cursor, for callers that inspect the tape.
    pub fn cursor(&self) -> (r: usize)
        ensures
            r == self.ptr(),
    {
        self.pointer
    }

    /// The number of materialized cells.
    pub fn tape_len(&self) -> (r: usize)
        ensures
            r == self.mem().len(),
    {
        self.memory.len()
    }

    /// The value of the cell under the cursor.
    pub fn cell(&self) -> (r: u8)
        requires
            self.wf(),
        ensures
            r == self.mem()[self.ptr() as int],
    {
        self.memory[self.pointer]
    }

    /// Move the cursor right, growing the tape at the high end until the
    /// cursor is strictly interior.
    fn inc_pointer(&mut self, val: usize)
        requires
            old(self).wf(),
            val < usize::MAX,
        ensures
            final(self).wf(),
            final(self).ptr() == old(self).ptr() + val,
            final(self).mem() == sem::grown(old(self).mem(), (old(self).ptr() + val + 2) as nat),
    {
        let ghost mem0 = self.memory@;
        let ghost p0 = self.pointer as nat;
        let mut slack: usize = self.memory.len() - 1 - self.pointer;
        let ghost slack0 = slack as nat;
        while slack <= val
            invariant
                val < usize::MAX,
                self.pointer < self.memory@.len(),
                self.pointer == p0,
                slack == slack0 || slack <= val + 1,
                slack == self.memory@.len() - 1 - self.pointer,
                self.memory@ == sem::grown(mem0, (p0 + slack + 1) as nat),
                mem0.len() == p0 + slack0 + 1,
            decreases val + 1 - slack,
        {
            self.memory.push(0);
            slack = slack + 1;
            proof {
                assert(self.memory@ =~= sem::grown(mem0, (p0 + slack + 1) as nat));
            }
        }
        let len_now = self.memory.len();
        proof {
            assert(p0 + val + 2 <= len_now);
        }
        self.pointer = self.pointer + val;
        proof {
            assert(self.memory@ =~= sem::grown(mem0, (p0 + val + 2) as nat));
        }
    }

    /// Move the cursor left; when the move passes the low end, zero cells
    /// materialize there and the cursor lands on the new lowest cell.
    fn dec_pointer(&mut self, val: usize)
        requires
            old(self).wf(),
        ensures
            final(self).wf(),
            val > old(self).ptr() ==> final(self).ptr() == 0 && final(self).mem() == Seq::new(
                (val - old(self).ptr()) as nat,
                |i: int| 0u8,
            ) + old(self).mem(),
            val <= old(self).ptr() ==> final(self).ptr() == old(self).ptr() - val
                && final(self).mem() == old(self).mem(),
    {
        if val > self.pointer {
            let ghost mem0 = self.memory@;
            let k = val - self.pointer;
            let mut j: usize = 0;
            while j < k
                invariant
                    j <= k,
                    self.memory@ == Seq::new(j as nat, |i: int| 0u8) + mem0,
                decreases k - j,
            {
                self.memory.insert(0, 0);
                j = j + 1;
                proof {
                    assert(self.memory@ =~= Seq::new(j as nat, |i: int| 0u8) + mem0);
                }
            }
            self.pointer = 0;
        } else {
            self.pointer = self.pointer - val;
        }
    }

    /// Add to the cell under the cursor, wrapping modulo 256.
    fn add_val(&mut self, val: u8)
        requires
            old(self).wf(),
        ensures
            final(self).wf(),
            final(self).ptr() == old(self).ptr(),
            final(self).mem() == old(self).mem().update(
                old(self).ptr() as int,
                sem::wrap_add(old(self).mem()[old(self).ptr() as int], val),
            ),
    {
        let c = self.memory[self.pointer];
        let s: u16 = c as u16 + val as u16;
        let r: u8 = if s >= 256 {
            (s - 256) as u8
        } else {
            s as u8
        };
        self.memory.set(self.pointer, r);
    }

    /// Subtract from the cell under the cursor, wrapping modulo 256.
    fn sub_val(&mut self, val: u8)
        requires
            old(self).wf(),
        ensures
            final(self).wf(),
            final(self).ptr() == old(self).ptr(),
            final(self).mem() == old(self).mem().update(
                old(self).ptr() as int,
                sem::wrap_sub(old(self).mem()[old(self).ptr() as int], val),
            ),
    {
        let c = self.memory[self.pointer];
        let r: u8 = if val <= c {
            c - val
        } else {
            ((c as u16 + 256) - val as u16) as u8
        };
        self.memory.set(self.pointer, r);
    }

    /// Read one byte from the source into the cell under the cursor; an
    /// exhausted source yields zero.
    fn get_char(&mut self, reader: &mut InputSource)
        requires
            old(self).wf(),
            old(reader).wf(),
        ensures
            final(self).wf(),
            final(reader).wf(),
            final(self).ptr() == old(self).ptr(),
            old(reader).remaining().len() == 0 ==> final(self).mem() == old(self).mem().update(
                old(self).ptr() as int,
                0u8,
            ) && final(reader).remaining() == old(reader).remaining(),
            old(reader).remaining().len() > 0 ==> final(self).mem() == old(self).mem().update(
                old(self).ptr() as int,
                old(reader).remaining()[0],
            ) && final(reader).remaining() == old(reader).remaining().drop_first(),
    {
        let b = reader.read_byte();
        self.memory.set(self.pointer, b);
    }

    /// Write the cell under the cursor to the sink as one byte.
    fn put_char(&self, writer: &mut OutputSink)
        requires
            self.wf(),
        ensures
            final(writer).data() == old(writer).data().push(self.mem()[self.ptr() as int]),
    {
        let b = self.memory[self.pointer];
        writer.write_byte(b);
    }

    /// Run `subprogram` while the cell under the cursor is nonzero, spending
    /// one unit of fuel per iteration, exactly as `sem::run_loop` does.
    fn run_loop(
        &mut self,
        subprogram: &Program,
        reader: &mut InputSource,
        writer: &mut OutputSink,
        fuel: u64,
    ) -> (done: bool)
        requires
            old(self).wf(),
            old(reader).wf(),
        ensures
            final(self).wf(),
            final(reader).wf(),
            (match sem::run_loop(
                prog_view(*subprogram),
                mach(*old(self), *old(reader), *old(writer)),
                fuel as nat,
            ) {
                Some(m1) => done && mach(*final(self), *final(reader), *final(writer)) == m1,
                None => !done,
            }),
        decreases fuel, 0nat,
    {
        let ghost bv = prog_view(*subprogram);
        let ghost m0 = mach(*self, *reader, *writer);
        let mut fuel_cur: u64 = fuel;
        #[verifier::loop_isolation(false)]
        while self.memory[self.pointer] != 0
            invariant
                self.wf(),
                reader.wf(),
                fuel_cur <= fuel,
                sem::run_loop(bv, m0, fuel as nat) == sem::run_loop(
                    bv,
                    mach(*self, *reader, *writer),
                    fuel_cur as nat,
                ),
            decreases fuel_cur,
        {
            let ghost m_prev = mach(*self, *reader, *writer);
            proof {
                assert(m_prev.cell() != 0);
            }
            if fuel_cur == 0 {
                proof {
                    assert(sem::run_loop(bv, m_prev, 0nat) == Option::<Machine>::None);
                }
                return false;
            }
            let done = self.execute(subprogram, reader, writer, fuel_cur - 1);
            if !done {
                proof {
                    assert(sem::run_cmds(bv, m_prev, (fuel_cur - 1) as nat) is None);
                    assert(sem::run_loop(bv, m_prev, fuel_cur as nat) is None);
                }
                return false;
            }
            proof {
                assert(sem::run_loop(bv, m_prev, fuel_cur as nat) == sem::run_loop(
                    bv,
                    mach(*self, *reader, *writer),
                    (fuel_cur - 1) as nat,
                ));
            }
            fuel_cur = fuel_cur - 1;
        }
        proof {
            assert(mach(*self, *reader, *writer).cell() == 0);
        }
        true
    }

    /// Execute the commands of `program` in order against this tape, reading
    /// from `reader` and writing to `writer`.
    ///
    /// The run mirrors `sem::run_cmds` exactly: when that semantics finishes
    /// within `fuel` loop-iteration budget, the call returns `true` and the
    /// tape, source and sink are the machine the semantics demands; when the
    /// semantics answers `None`, the call stops early and returns `false`.
    pub fn execute(
        &mut self,
        program: &Program,
        reader: &mut InputSource,
        writer: &mut OutputSink,
        fuel: u64,
    ) -> (done: bool)
        requires
            old(self).wf(),
            old(reader).wf(),
        ensures
            final(self).wf(),
            final(reader).wf(),
            (match sem::run_cmds(
                prog_view(*program),
                mach(*old(self), *old(reader), *old(writer)),
                fuel as nat,
            ) {
                Some(m1) => done && mach(*final(self), *final(reader), *final(writer)) == m1,
                None => !done,
            }),
        decreases fuel, 1nat,
    {
        let ghost pv = prog_view(*program);
        let ghost m0 = mach(*self, *reader, *writer);
        proof {
            lemma_cmds_view(program.commands@);
            assert(pv.skip(0) =~= pv);
        }
        let n = program.commands.len();
        let mut j: usize = 0;
        #[verifier::loop_isolation(false)]
        while j < n
            invariant
                j <= n,
                self.wf(),
                reader.wf(),
                sem::run_cmds(pv, m0, fuel as nat) == sem::run_cmds(
                    pv.skip(j as int),
                    mach(*self, *reader, *writer),
                    fuel as nat,
                ),
            decreases n - j,
        {
            let ghost m_before = mach(*self, *reader, *writer);
            proof {
                sem::lemma_skip_step(pv, j as int);
                assert(pv[j as int] == crate::program::cmd_view(program.commands@[j as int]));
            }
            let cmd = &program.commands[j];
            match cmd {
                Command::IncPointer(count) => {
                    self.inc_pointer(*count as usize);
                    proof {
                        assert(mach(*self, *reader, *writer) =~= sem::move_right(
                            m_before,
                            *count as nat,
                        ));
                    }
                },
                Command::DecPointer(count) => {
                    self.dec_pointer(*count as usize);
                    proof {
                        assert(mach(*self, *reader, *writer) =~= sem::move_left(
                            m_before,
                            *count as nat,
                        ));
                    }
                },
                Command::IncValue(count) => {
                    self.add_val(*count);
                    proof {
                        assert(mach(*self, *reader, *writer) =~= sem::set_cell(
                            m_before,
                            sem::wrap_add(m_before.cell(), *count),
                        ));
                    }
                },
                Command::DecValue(count) => {
                    self.sub_val(*count);
                    proof {
                        assert(mach(*self, *reader, *writer) =~= sem::set_cell(
                            m_before,
                            sem::wrap_sub(m_before.cell(), *count),
                        ));
                    }
                },
                Command::PutChar => {
                    self.put_char(writer);
                    proof {
                        assert(mach(*self, *reader, *writer) =~= sem::do_put(m_before));
                    }
                },
                Command::GetChar => {
                    self.get_char(reader);
                    proof {
                        assert(mach(*self, *reader, *writer) =~= sem::do_get(m_before));
                    }
                },
                Command::Loop(sub) => {
                    let done = self.run_loop(sub, reader, writer, fuel);
                    if !done {
                        proof {
                            assert(sem::run_cmd(pv[j as int], m_before, fuel as nat) is None);
                            assert(sem::run_cmds(pv.skip(j as int), m_before, fuel as nat) is None);
                        }
                        return false;
                    }
                },
            }
            proof {
                assert(sem::run_cmds(pv.skip(j as int), m_before, fuel as nat) == sem::run_cmds(
                    pv.skip(j as int + 1),
                    mach(*self, *reader, *writer),
                    fuel as nat,
                ));
            }
            j = j + 1;
        }
        proof {
            assert(pv.skip(n as int).len() == 0);
        }
        true
    }
}

} // verus!
