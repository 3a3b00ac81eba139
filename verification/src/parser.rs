//! The parser: a run-length folding pass over the source bytes followed by a
//! structural pass that builds the nested command tree.
//!
//! The model has two layers. `fold_bytes` says exactly which `(count, byte)`
//! tokens the folding pass yields: maximal runs of the four operator bytes
//! `+ - > <` collapse into counted tokens (capped at 255 so a count always
//! fits in one byte), every other byte passes through with count 1. `pfold`
//! then runs the structural pass as a small stack machine: one frame per open
//! loop, a closing bracket at the bottom of the stack ends the parse early
//! (the same silent truncation the executable parser performs), and a stream
//! that ends with frames still open is the one parse error, carrying the
//! number of loops left open.

use vstd::prelude::*;

use crate::program::Command;
use crate::program::ParseError;
use crate::program::Program;
use crate::program::cmd_view;
use crate::program::cmds_view;
use crate::program::lemma_cmds_view_push;
use crate::program::prog_view;
use crate::sem::CmdSpec;
use crate::sem::lemma_skip_step;

verus! {

/// The recognized operator bytes, by their ASCII codes.
pub const OP_RIGHT: u8 = 62;

pub const OP_LEFT: u8 = 60;

pub const OP_PLUS: u8 = 43;

pub const OP_MINUS: u8 = 45;

pub const OP_PUT: u8 = 46;

pub const OP_GET: u8 = 44;

pub const OP_OPEN: u8 = 91;

pub const OP_CLOSE: u8 = 93;

/// The four operator bytes whose runs fold into counted tokens.
pub open spec fn is_fold_byte(b: u8) -> bool {
    b == OP_PLUS || b == OP_MINUS || b == OP_RIGHT || b == OP_LEFT
}

/// Folding, from position `i` with a run of `reps` copies of `cur` open.
pub open spec fn fold_from(s: Seq<u8>, i: int, cur: u8, reps: u8) -> Seq<(u8, u8)>
    decreases s.len() - i,
{
    if i < 0 || i >= s.len() {
        seq![(reps, cur)]
    } else if s[i] == cur && is_fold_byte(cur) && reps < 255 {
        fold_from(s, i + 1, cur, (reps + 1) as u8)
    } else {
        seq![(reps, cur)] + fold_from(s, i + 1, s[i], 1)
    }
}

/// The token stream the run-length folding pass yields for a source text.
pub open spec fn fold_bytes(s: Seq<u8>) -> Seq<(u8, u8)> {
    if s.len() == 0 {
        Seq::empty()
    } else {
        fold_from(s, 1, s[0], 1)
    }
}

/// The command a non-bracket token maps to, if any: counted tokens for the
/// four operators, I/O commands only with count 1, anything else dropped.
pub open spec fn tok_cmd(t: (u8, u8)) -> Option<CmdSpec> {
    if t.1 == OP_RIGHT {
        Some(CmdSpec::IncPointer(t.0))
    } else if t.1 == OP_LEFT {
        Some(CmdSpec::DecPointer(t.0))
    } else if t.1 == OP_PLUS {
        Some(CmdSpec::IncValue(t.0))
    } else if t.1 == OP_MINUS {
        Some(CmdSpec::DecValue(t.0))
    } else if t.1 == OP_PUT && t.0 == 1 {
        Some(CmdSpec::PutChar)
    } else if t.1 == OP_GET && t.0 == 1 {
        Some(CmdSpec::GetChar)
    } else {
        None
    }
}

/// The state of the structural pass: still running with one frame per open
/// loop (the bottom frame is the top-level program), or finished early.
pub enum PStep {
    Run(Seq<Seq<CmdSpec>>),
    Done(Seq<CmdSpec>),
}

/// The topmost open loop closes: its frame is wrapped in a `Loop` command and
/// appended to the frame below.
pub open spec fn close_frame(st: Seq<Seq<CmdSpec>>, body: Seq<CmdSpec>) -> Seq<Seq<CmdSpec>>
    recommends
        st.len() >= 2,
{
    let st1 = st.drop_last();
    st1.update(st1.len() - 1, st1.last().push(CmdSpec::Loop(body)))
}

/// One token applied to the frame stack.
pub open spec fn pstep(t: (u8, u8), st: Seq<Seq<CmdSpec>>) -> PStep
    recommends
        st.len() >= 1,
{
    if t.1 == OP_OPEN && t.0 == 1 {
        PStep::Run(st.push(Seq::empty()))
    } else if t.1 == OP_CLOSE && t.0 == 1 {
        if st.len() >= 2 {
            PStep::Run(close_frame(st, st.last()))
        } else {
            PStep::Done(st.last())
        }
    } else {
        match tok_cmd(t) {
            Some(c) => PStep::Run(st.update(st.len() - 1, st.last().push(c))),
            None => PStep::Run(st),
        }
    }
}

/// The structural pass over a whole token stream.
pub open spec fn pfold(ts: Seq<(u8, u8)>, st: Seq<Seq<CmdSpec>>) -> PStep
    decreases ts.len(),
{
    if ts.len() == 0 {
        PStep::Run(st)
    } else {
        match pstep(ts[0], st) {
            PStep::Done(p) => PStep::Done(p),
            PStep::Run(st1) => pfold(ts.drop_first(), st1),
        }
    }
}

/// The verdict once the stream is exhausted (or the pass finished early):
/// exactly one frame left means success, more mean that many unclosed loops.
pub open spec fn stack_result(ps: PStep) -> Result<Seq<CmdSpec>, nat> {
    match ps {
        PStep::Done(p) => Ok(p),
        PStep::Run(st) => if st.len() == 1 {
            Ok(st[0])
        } else {
            Err((st.len() - 1) as nat)
        },
    }
}

/// What parsing a token stream yields.
pub open spec fn parse_toks(ts: Seq<(u8, u8)>) -> Result<Seq<CmdSpec>, nat> {
    stack_result(pfold(ts, seq![Seq::<CmdSpec>::empty()]))
}

/// What parsing a source text yields: fold the runs, then parse the tokens.
pub open spec fn parse_bytes(s: Seq<u8>) -> Result<Seq<CmdSpec>, nat> {
    parse_toks(fold_bytes(s))
}

/// Folding never yields more tokens than there were bytes.
pub proof fn lemma_fold_from_len(s: Seq<u8>, i: int, cur: u8, reps: u8)
    requires
        0 <= i <= s.len(),
    ensures
        fold_from(s, i, cur, reps).len() <= s.len() - i + 1,
    decreases s.len() - i,
{
    if i < s.len() {
        if s[i] == cur && is_fold_byte(cur) && reps < 255 {
            lemma_fold_from_len(s, i + 1, cur, (reps + 1) as u8);
        } else {
            lemma_fold_from_len(s, i + 1, s[i], 1);
        }
    }
}

/// Folding never yields more tokens than there were bytes.
pub proof fn lemma_fold_bytes_len(s: Seq<u8>)
    ensures
        fold_bytes(s).len() <= s.len(),
{
    if s.len() > 0 {
        lemma_fold_from_len(s, 1, s[0], 1);
    }
}

/// The run-length folding pass: maximal runs of `+ - > <` collapse into
/// `(count, byte)` tokens (counts capped at 255), all other bytes pass
/// through with count 1.
fn fold_runs(buf: &[u8]) -> (toks: Vec<(u8, u8)>)
    ensures
        toks@ == fold_bytes(buf@),
{
    let mut toks: Vec<(u8, u8)> = Vec::new();
    if buf.len() > 0 {
        let mut cur: u8 = buf[0];
        let mut reps: u8 = 1;
        let mut i: usize = 1;
        #[verifier::loop_isolation(false)]
        while i < buf.len()
            invariant
                1 <= i <= buf@.len(),
                1 <= reps,
                fold_bytes(buf@) == toks@ + fold_from(buf@, i as int, cur, reps),
            decreases buf@.len() - i,
        {
            let ghost toks0 = toks@;
            let ghost cur0 = cur;
            let ghost reps0 = reps;
            let b = buf[i];
            if b == cur && (b == OP_PLUS || b == OP_MINUS || b == OP_RIGHT || b == OP_LEFT) && reps < 255 {
                reps = reps + 1;
            } else {
                toks.push((reps, cur));
                cur = b;
                reps = 1;
                proof {
                    assert(toks@ =~= toks0 + seq![(reps0, cur0)]);
                    assert((toks0 + seq![(reps0, cur0)]) + fold_from(buf@, i + 1, buf@[i as int], 1)
                        =~= toks0 + (seq![(reps0, cur0)] + fold_from(buf@, i + 1, buf@[i as int], 1)));
                }
            }
            i = i + 1;
        }
        let ghost toks1 = toks@;
        toks.push((reps, cur));
        proof {
            assert(toks@ =~= toks1 + seq![(reps, cur)]);
        }
    } else {
        proof {
            assert(toks@ =~= fold_bytes(buf@));
        }
    }
    toks
}

impl Program {
    /// One nesting level of the structural pass, starting at token `start`
    /// with the ghost frame stack `st` (one frame per enclosing open loop,
    /// plus an empty top frame this level fills in).
    ///
    /// Returns the parsed level and the position just past the token that
    /// ended it. The contract replays the level against the stack machine:
    /// at depth 0 the stream's overall verdict is the returned program; at
    /// greater depth the stack machine goes on from the closed frame.
    fn parse_depth(
        toks: &Vec<(u8, u8)>,
        start: usize,
        depth: u32,
        Ghost(st): Ghost<Seq<Seq<CmdSpec>>>,
    ) -> (r: (Result<Program, ParseError>, usize))
        requires
            start <= toks@.len(),
            toks@.len() <= u32::MAX,
            st.len() == depth as nat + 1,
            st.last() == Seq::<CmdSpec>::empty(),
            depth <= start,
        ensures
            start <= r.1 <= toks@.len(),
            (match r.0 {
                Ok(p) => {
                    if depth == 0 {
                        stack_result(pfold(toks@.skip(start as int), st)) == Ok::<
                            Seq<CmdSpec>,
                            nat,
                        >(prog_view(p))
                    } else {
                        pfold(toks@.skip(start as int), st) == pfold(
                            toks@.skip(r.1 as int),
                            close_frame(st, prog_view(p)),
                        )
                    }
                },
                Err(e) => (match e {
                    ParseError::MissingClosingBracket(d) => {
                        &&& pfold(toks@.skip(start as int), st) matches PStep::Run(stf)
                            && stf.len() == d as nat + 1
                        &&& d >= 1
                    },
                }),
            }),
        decreases toks@.len() - start,
    {
        let mut cmds: Vec<Command> = Vec::new();
        let mut i: usize = start;
        proof {
            assert(st.update(st.len() - 1, cmds_view(cmds@)) =~= st);
        }
        #[verifier::loop_isolation(false)]
        while i < toks.len()
            invariant
                start <= i <= toks@.len(),
                pfold(toks@.skip(start as int), st) == pfold(
                    toks@.skip(i as int),
                    st.update(st.len() - 1, cmds_view(cmds@)),
                ),
            decreases toks@.len() - i,
        {
            let ghost st_now = st.update(st.len() - 1, cmds_view(cmds@));
            proof {
                lemma_skip_step(toks@, i as int);
            }
            let t = toks[i];
            let count: u8 = t.0;
            let b: u8 = t.1;
            i = i + 1;
            if b == OP_OPEN && count == 1 {
                let ghost st_sub = st_now.push(Seq::<CmdSpec>::empty());
                let sub = Program::parse_depth(toks, i, depth + 1, Ghost(st_sub));
                match sub.0 {
                    Ok(subp) => {
                        proof {
                            lemma_cmds_view_push(cmds@, Command::Loop(subp));
                            assert(close_frame(st_sub, prog_view(subp)) =~= st.update(
                                st.len() - 1,
                                cmds_view(cmds@).push(CmdSpec::Loop(prog_view(subp))),
                            ));
                        }
                        cmds.push(Command::Loop(subp));
                        i = sub.1;
                    },
                    Err(e) => {
                        return (Err(e), sub.1);
                    },
                }
            } else if b == OP_CLOSE && count == 1 {
                let p = Program { commands: cmds };
                if depth == 0 {
                    proof {
                        assert(st_now.len() == 1);
                        assert(st_now.last() == prog_view(p));
                    }
                    return (Ok(p), i);
                } else {
                    proof {
                        assert(st_now.len() >= 2);
                        assert(close_frame(st_now, st_now.last()) =~= close_frame(
                            st,
                            prog_view(p),
                        ));
                    }
                    return (Ok(p), i);
                }
            } else {
                let ghost cmds0 = cmds@;
                if b == OP_RIGHT {
                    cmds.push(Command::IncPointer(count));
                } else if b == OP_LEFT {
                    cmds.push(Command::DecPointer(count));
                } else if b == OP_PLUS {
                    cmds.push(Command::IncValue(count));
                } else if b == OP_MINUS {
                    cmds.push(Command::DecValue(count));
                } else if b == OP_PUT && count == 1 {
                    cmds.push(Command::PutChar);
                } else if b == OP_GET && count == 1 {
                    cmds.push(Command::GetChar);
                }
                proof {
                    if cmds@ != cmds0 {
                        lemma_cmds_view_push(cmds0, cmds@.last());
                        assert(cmds@ =~= cmds0.push(cmds@.last()));
                        assert(st.update(st.len() - 1, cmds_view(cmds@)) =~= st_now.update(
                            st_now.len() - 1,
                            st_now.last().push(cmd_view(cmds@.last())),
                        ));
                    }
                }
            }
        }
        if depth == 0 {
            let p = Program { commands: cmds };
            proof {
                assert(pfold(toks@.skip(i as int), st.update(st.len() - 1, cmds_view(cmds@)))
                    == PStep::Run(st.update(st.len() - 1, prog_view(p))));
            }
            (Ok(p), i)
        } else {
            (Err(ParseError::MissingClosingBracket(depth)), i)
        }
    }

    /// Parse a source text: fold runs of repeated operators, then build the
    /// command tree. Every byte outside the eight recognized ones is a
    /// comment and contributes nothing; the one failure is a stream that ends
    /// with loops still open, reported with how many were left open.
    pub fn parse(buf: &[u8]) -> (r: Result<Program, ParseError>)
        requires
            buf@.len() <= u32::MAX,
        ensures
            (match r {
                Ok(p) => parse_bytes(buf@) == Ok::<Seq<CmdSpec>, nat>(prog_view(p)),
                Err(e) => (match e {
                    ParseError::MissingClosingBracket(d) => parse_bytes(buf@) == Err::<
                        Seq<CmdSpec>,
                        nat,
                    >(d as nat) && d >= 1,
                }),
            }),
    {
        let toks = fold_runs(buf);
        proof {
            lemma_fold_bytes_len(buf@);
            assert(toks@.skip(0) =~= toks@);
        }
        let ghost st0: Seq<Seq<CmdSpec>> = seq![Seq::<CmdSpec>::empty()];
        let parsed = Program::parse_depth(&toks, 0, 0, Ghost(st0));
        parsed.0
    }
}

} // verus!
