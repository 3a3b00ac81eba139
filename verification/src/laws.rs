//! The global laws of the interpreter, proved against the models of `sem`
//! and `parser`:
//!
//! - a source with no operator bytes parses to the empty program, and the
//!   empty program leaves any machine untouched;
//! - moving the cursor right and then left by the same count returns it to
//!   its starting cell and preserves every previously materialized cell;
//! - run-length folding is behavior-preserving: parsing the folded token
//!   stream and parsing the source byte by byte give programs whose runs
//!   agree exactly, error depths included.

use vstd::prelude::*;

use crate::parser::OP_CLOSE;
use crate::parser::OP_GET;
use crate::parser::OP_LEFT;
use crate::parser::OP_OPEN;
use crate::parser::OP_PLUS;
use crate::parser::OP_PUT;
use crate::parser::OP_RIGHT;
use crate::parser::PStep;
use crate::parser::close_frame;
use crate::parser::fold_bytes;
use crate::parser::fold_from;
use crate::parser::is_fold_byte;
use crate::parser::parse_bytes;
use crate::parser::parse_toks;
use crate::parser::pfold;
use crate::parser::pstep;
use crate::parser::stack_result;
use crate::parser::tok_cmd;
use crate::sem::CmdSpec;
use crate::sem::Machine;
use crate::sem::move_left;
use crate::sem::move_right;
use crate::sem::run_cmd;
use crate::sem::run_cmds;
use crate::sem::run_loop;
use crate::sem::set_cell;
use crate::sem::wrap_add;
use crate::sem::wrap_sub;

verus! {

/// Law: the empty program is a no-op: running it returns any machine
/// unchanged, whatever the fuel.
pub proof fn lemma_empty_program_is_noop(m: Machine, fuel: nat)
    ensures
        run_cmds(Seq::<CmdSpec>::empty(), m, fuel) == Some(m),
{
}

/// A byte one of the eight recognized operator characters.
pub open spec fn is_cmd_byte(b: u8) -> bool {
    is_fold_byte(b) || b == OP_PUT || b == OP_GET || b == OP_OPEN || b == OP_CLOSE
}

proof fn lemma_comment_pfold(s: Seq<u8>, i: int, cur: u8, st: Seq<Seq<CmdSpec>>)
    requires
        0 <= i <= s.len(),
        !is_cmd_byte(cur),
        forall|j: int| i <= j < s.len() ==> !is_cmd_byte(s[j]),
        st.len() >= 1,
    ensures
        pfold(fold_from(s, i, cur, 1), st) == PStep::Run(st),
    decreases s.len() - i,
{
    if i >= s.len() {
        assert(seq![(1u8, cur)].drop_first() =~= Seq::<(u8, u8)>::empty());
        assert(seq![(1u8, cur)][0] == (1u8, cur));
        assert(pfold(Seq::<(u8, u8)>::empty(), st) == PStep::Run(st));
    } else {
        let rest = fold_from(s, i + 1, s[i], 1);
        assert((seq![(1u8, cur)] + rest)[0] == (1u8, cur));
        assert((seq![(1u8, cur)] + rest).drop_first() =~= rest);
        lemma_comment_pfold(s, i + 1, s[i], st);
    }
}

/// Law: a source text that holds no operator byte is all comment: it parses
/// to the empty program (which, by `lemma_empty_program_is_noop`, leaves any
/// machine unchanged — in particular a fresh one: no output, a single zero
/// cell, cursor at zero).
pub proof fn lemma_comment_only_source_parses_empty(s: Seq<u8>)
    requires
        forall|i: int| 0 <= i < s.len() ==> !is_cmd_byte(s[i]),
    ensures
        parse_bytes(s) == Ok::<Seq<CmdSpec>, nat>(Seq::empty()),
{
    let st0: Seq<Seq<CmdSpec>> = seq![Seq::<CmdSpec>::empty()];
    if s.len() == 0 {
        assert(stack_result(pfold(Seq::empty(), st0)) == Ok::<Seq<CmdSpec>, nat>(st0[0]));
    } else {
        assert(!is_cmd_byte(s[0]));
        lemma_comment_pfold(s, 1, s[0], st0);
    }
}

/// Law: moving the cursor right by `n` and then left by `n` returns it to its
/// starting cell: the run always succeeds, every previously materialized cell
/// keeps its value, the cells that materialized are zero, and input and
/// output are untouched.
pub proof fn lemma_move_right_then_left(m: Machine, n: u8, fuel: nat)
    requires
        m.wf(),
    ensures
        run_cmds(seq![CmdSpec::IncPointer(n), CmdSpec::DecPointer(n)], m, fuel) matches Some(m2)
            && m2.wf()
            && m2.ptr == m.ptr
            && m2.input == m.input
            && m2.output == m.output
            && m2.mem.len() >= m.mem.len()
            && (forall|i: int| 0 <= i < m.mem.len() ==> m2.mem[i] == m.mem[i])
            && (forall|i: int| m.mem.len() <= i < m2.mem.len() ==> m2.mem[i] == 0),
{
    let cmds = seq![CmdSpec::IncPointer(n), CmdSpec::DecPointer(n)];
    let m1 = move_right(m, n as nat);
    let m2 = move_left(m1, n as nat);
    assert(cmds.drop_first() =~= seq![CmdSpec::DecPointer(n)]);
    assert(seq![CmdSpec::DecPointer(n)].drop_first() =~= Seq::<CmdSpec>::empty());
    assert(cmds[0] == CmdSpec::IncPointer(n));
    assert(seq![CmdSpec::DecPointer(n)][0] == CmdSpec::DecPointer(n));
    assert(run_cmd(CmdSpec::IncPointer(n), m, fuel) == Some(m1));
    assert(run_cmd(CmdSpec::DecPointer(n), m1, fuel) == Some(m2));
    assert(run_cmds(Seq::<CmdSpec>::empty(), m2, fuel) == Some(m2));
    assert(run_cmds(seq![CmdSpec::DecPointer(n)], m1, fuel) == Some(m2));
    assert(run_cmds(cmds, m, fuel) == Some(m2));
    assert(m2.ptr == m.ptr);
}

/// The token stream of the unfolded source: one count-1 token per byte.
pub open spec fn unit_toks(s: Seq<u8>) -> Seq<(u8, u8)> {
    Seq::new(s.len(), |i: int| (1u8, s[i]))
}

/// What parsing the source byte by byte, with no folding at all, yields.
pub open spec fn parse_unfolded(s: Seq<u8>) -> Result<Seq<CmdSpec>, nat> {
    parse_toks(unit_toks(s))
}

/// A counted token replaced by count copies of the count-1 token.
pub open spec fn tok_units(t: (u8, u8)) -> Seq<(u8, u8)> {
    Seq::new(t.0 as nat, |i: int| (1u8, t.1))
}

/// Every token of a stream unfolded into count-1 tokens.
pub open spec fn toks_units(ts: Seq<(u8, u8)>) -> Seq<(u8, u8)>
    decreases ts.len(),
{
    if ts.len() == 0 {
        Seq::empty()
    } else {
        tok_units(ts[0]) + toks_units(ts.drop_first())
    }
}

proof fn lemma_toks_units_cons(t: (u8, u8), ts: Seq<(u8, u8)>)
    ensures
        toks_units(seq![t] + ts) == tok_units(t) + toks_units(ts),
{
    assert((seq![t] + ts)[0] == t);
    assert((seq![t] + ts).drop_first() =~= ts);
}

proof fn lemma_fold_units(s: Seq<u8>, i: int, cur: u8, reps: u8)
    requires
        0 <= i <= s.len(),
        reps >= 1,
    ensures
        toks_units(fold_from(s, i, cur, reps)) == tok_units((reps, cur)) + unit_toks(s.skip(i)),
    decreases s.len() - i,
{
    if i >= s.len() {
        assert(seq![(reps, cur)].drop_first() =~= Seq::<(u8, u8)>::empty());
        assert(seq![(reps, cur)][0] == (reps, cur));
        assert(toks_units(Seq::<(u8, u8)>::empty()) == Seq::<(u8, u8)>::empty());
        assert(toks_units(seq![(reps, cur)]) =~= tok_units((reps, cur)) + unit_toks(s.skip(i)));
    } else if s[i] == cur && is_fold_byte(cur) && reps < 255 {
        lemma_fold_units(s, i + 1, cur, (reps + 1) as u8);
        assert(tok_units(((reps + 1) as u8, cur)) + unit_toks(s.skip(i + 1)) =~= tok_units(
            (reps, cur),
        ) + unit_toks(s.skip(i)));
    } else {
        lemma_toks_units_cons((reps, cur), fold_from(s, i + 1, s[i], 1));
        lemma_fold_units(s, i + 1, s[i], 1);
        assert(tok_units((reps, cur)) + (tok_units((1u8, s[i])) + unit_toks(s.skip(i + 1)))
            =~= tok_units((reps, cur)) + unit_toks(s.skip(i)));
    }
}

/// Unfolding the folded token stream recovers the source byte by byte.
pub proof fn lemma_units_of_fold(s: Seq<u8>)
    ensures
        toks_units(fold_bytes(s)) == unit_toks(s),
{
    if s.len() == 0 {
        assert(unit_toks(s) =~= Seq::<(u8, u8)>::empty());
    } else {
        lemma_fold_units(s, 1, s[0], 1);
        assert(tok_units((1u8, s[0])) + unit_toks(s.skip(1)) =~= unit_toks(s));
    }
}

/// A well-formed token: positive count, and a count above one only on the
/// four foldable operator bytes.
pub open spec fn wf_tok(t: (u8, u8)) -> bool {
    t.0 >= 1 && (t.0 > 1 ==> is_fold_byte(t.1))
}

proof fn lemma_fold_from_wf(s: Seq<u8>, i: int, cur: u8, reps: u8)
    requires
        0 <= i <= s.len(),
        reps >= 1,
        reps > 1 ==> is_fold_byte(cur),
    ensures
        forall|k: int|
            0 <= k < fold_from(s, i, cur, reps).len() ==> wf_tok(fold_from(s, i, cur, reps)[k]),
    decreases s.len() - i,
{
    let res = fold_from(s, i, cur, reps);
    if i >= s.len() {
        assert forall|k: int| 0 <= k < res.len() implies wf_tok(res[k]) by {
            assert(res[k] == (reps, cur));
        }
    } else if s[i] == cur && is_fold_byte(cur) && reps < 255 {
        lemma_fold_from_wf(s, i + 1, cur, (reps + 1) as u8);
        assert forall|k: int| 0 <= k < res.len() implies wf_tok(res[k]) by {
            assert(res[k] == fold_from(s, i + 1, cur, (reps + 1) as u8)[k]);
        }
    } else {
        lemma_fold_from_wf(s, i + 1, s[i], 1);
        let rest = fold_from(s, i + 1, s[i], 1);
        assert forall|k: int| 0 <= k < res.len() implies wf_tok(res[k]) by {
            if k == 0 {
                assert(res[k] == (reps, cur));
            } else {
                assert(res[k] == rest[k - 1]);
            }
        }
    }
}

/// Every token the folding pass yields is well formed.
pub proof fn lemma_fold_bytes_wf(s: Seq<u8>)
    ensures
        forall|k: int| 0 <= k < fold_bytes(s).len() ==> wf_tok(fold_bytes(s)[k]),
{
    if s.len() > 0 {
        lemma_fold_from_wf(s, 1, s[0], 1);
    }
}

/// A command unfolded: a counted command becomes count copies of the unit
/// command, a loop body unfolds recursively, everything else stays.
pub open spec fn expand_cmd(c: CmdSpec) -> Seq<CmdSpec>
    decreases c,
{
    match c {
        CmdSpec::IncPointer(n) => if n == 0 {
            seq![c]
        } else {
            Seq::new(n as nat, |i: int| CmdSpec::IncPointer(1))
        },
        CmdSpec::DecPointer(n) => if n == 0 {
            seq![c]
        } else {
            Seq::new(n as nat, |i: int| CmdSpec::DecPointer(1))
        },
        CmdSpec::IncValue(n) => if n == 0 {
            seq![c]
        } else {
            Seq::new(n as nat, |i: int| CmdSpec::IncValue(1))
        },
        CmdSpec::DecValue(n) => if n == 0 {
            seq![c]
        } else {
            Seq::new(n as nat, |i: int| CmdSpec::DecValue(1))
        },
        CmdSpec::PutChar => seq![CmdSpec::PutChar],
        CmdSpec::GetChar => seq![CmdSpec::GetChar],
        CmdSpec::Loop(body) => seq![CmdSpec::Loop(expand_cmds(body))],
    }
}

/// A command sequence unfolded command by command.
pub open spec fn expand_cmds(s: Seq<CmdSpec>) -> Seq<CmdSpec>
    decreases s,
{
    if s.len() == 0 {
        Seq::empty()
    } else {
        expand_cmd(s[0]) + expand_cmds(s.drop_first())
    }
}

proof fn lemma_expand_cmds_push(s: Seq<CmdSpec>, c: CmdSpec)
    ensures
        expand_cmds(s.push(c)) == expand_cmds(s) + expand_cmd(c),
    decreases s.len(),
{
    if s.len() == 0 {
        assert(s.push(c)[0] == c);
        assert(s.push(c).drop_first() =~= Seq::<CmdSpec>::empty());
        assert(expand_cmds(Seq::<CmdSpec>::empty()) == Seq::<CmdSpec>::empty());
        assert(expand_cmds(s.push(c)) =~= expand_cmds(s) + expand_cmd(c));
    } else {
        assert(s.push(c)[0] == s[0]);
        assert(s.push(c).drop_first() =~= s.drop_first().push(c));
        lemma_expand_cmds_push(s.drop_first(), c);
        assert(expand_cmd(s[0]) + (expand_cmds(s.drop_first()) + expand_cmd(c)) =~= (expand_cmd(
            s[0],
        ) + expand_cmds(s.drop_first())) + expand_cmd(c));
    }
}

/// The unit command of a foldable operator byte.
pub open spec fn unit_cmd(b: u8) -> CmdSpec {
    if b == OP_RIGHT {
        CmdSpec::IncPointer(1)
    } else if b == OP_LEFT {
        CmdSpec::DecPointer(1)
    } else if b == OP_PLUS {
        CmdSpec::IncValue(1)
    } else {
        CmdSpec::DecValue(1)
    }
}

/// Every frame of a parser stack unfolded.
pub open spec fn expand_stack(st: Seq<Seq<CmdSpec>>) -> Seq<Seq<CmdSpec>> {
    Seq::new(st.len(), |i: int| expand_cmds(st[i]))
}

/// A parser state unfolded.
pub open spec fn expand_pstep(ps: PStep) -> PStep {
    match ps {
        PStep::Run(st) => PStep::Run(expand_stack(st)),
        PStep::Done(p) => PStep::Done(expand_cmds(p)),
    }
}

proof fn lemma_pfold_append(a: Seq<(u8, u8)>, b: Seq<(u8, u8)>, st: Seq<Seq<CmdSpec>>)
    ensures
        pfold(a + b, st) == (match pfold(a, st) {
            PStep::Run(st1) => pfold(b, st1),
            PStep::Done(p) => PStep::Done(p),
        }),
    decreases a.len(),
{
    if a.len() == 0 {
        assert(a + b =~= b);
    } else {
        assert((a + b)[0] == a[0]);
        assert((a + b).drop_first() =~= a.drop_first() + b);
        match pstep(a[0], st) {
            PStep::Run(st1) => {
                lemma_pfold_append(a.drop_first(), b, st1);
            },
            PStep::Done(_) => {},
        }
    }
}

proof fn lemma_pfold_single(t: (u8, u8), st: Seq<Seq<CmdSpec>>)
    ensures
        pfold(seq![t], st) == pstep(t, st),
{
    assert(seq![t][0] == t);
    assert(seq![t].drop_first() =~= Seq::<(u8, u8)>::empty());
    match pstep(t, st) {
        PStep::Run(st1) => {
            assert(pfold(Seq::<(u8, u8)>::empty(), st1) == PStep::Run(st1));
        },
        PStep::Done(_) => {},
    }
}

proof fn lemma_units_push(b: u8, n: u8, st: Seq<Seq<CmdSpec>>)
    requires
        st.len() >= 1,
        is_fold_byte(b),
        n >= 1,
    ensures
        pfold(tok_units((n, b)), st) == PStep::Run(
            st.update(st.len() - 1, st.last() + Seq::new(n as nat, |i: int| unit_cmd(b))),
        ),
    decreases n,
{
    let one = (1u8, b);
    let st1 = st.update(st.len() - 1, st.last().push(unit_cmd(b)));
    assert(pstep(one, st) == PStep::Run(st1));
    if n == 1 {
        assert(tok_units((n, b)) =~= seq![one]);
        lemma_pfold_single(one, st);
        assert(st.last().push(unit_cmd(b)) =~= st.last() + Seq::new(1nat, |i: int| unit_cmd(b)));
        assert(st1 =~= st.update(st.len() - 1, st.last() + Seq::new(1nat, |i: int| unit_cmd(b))));
    } else {
        assert(tok_units((n, b)) =~= seq![one] + tok_units(((n - 1) as u8, b)));
        lemma_pfold_append(seq![one], tok_units(((n - 1) as u8, b)), st);
        lemma_pfold_single(one, st);
        lemma_units_push(b, (n - 1) as u8, st1);
        assert(st1.last() + Seq::new((n - 1) as nat, |i: int| unit_cmd(b)) =~= st.last() + Seq::new(
            n as nat,
            |i: int| unit_cmd(b),
        ));
        assert(st1.update(st1.len() - 1, st1.last() + Seq::new((n - 1) as nat, |i: int| unit_cmd(b)))
            =~= st.update(st.len() - 1, st.last() + Seq::new(n as nat, |i: int| unit_cmd(b))));
    }
}

proof fn lemma_pstep_expand(t: (u8, u8), st: Seq<Seq<CmdSpec>>)
    requires
        st.len() >= 1,
        wf_tok(t),
    ensures
        pfold(tok_units(t), expand_stack(st)) == expand_pstep(pstep(t, st)),
        (pstep(t, st) matches PStep::Run(st1) ==> st1.len() >= 1),
{
    let est = expand_stack(st);
    let n = t.0;
    let b = t.1;
    assert(est.len() == st.len());
    assert(est.last() == expand_cmds(st.last()));
    if is_fold_byte(b) {
        lemma_units_push(b, n, est);
        let c = match tok_cmd(t) {
            Some(c0) => c0,
            None => CmdSpec::PutChar,
        };
        assert(tok_cmd(t) == Some(c));
        assert(expand_cmd(c) =~= Seq::new(n as nat, |i: int| unit_cmd(b)));
        let st1 = st.update(st.len() - 1, st.last().push(c));
        lemma_expand_cmds_push(st.last(), c);
        assert(expand_stack(st1) =~= est.update(
            est.len() - 1,
            est.last() + Seq::new(n as nat, |i: int| unit_cmd(b)),
        ));
    } else {
        assert(n == 1);
        assert(tok_units(t) =~= seq![t]);
        lemma_pfold_single(t, est);
        if b == OP_OPEN {
            assert(expand_stack(st.push(Seq::empty())) =~= est.push(Seq::empty()));
        } else if b == OP_CLOSE {
            if st.len() >= 2 {
                let body = st.last();
                let st1 = st.drop_last();
                let est1 = est.drop_last();
                assert(est1 =~= expand_stack(st1));
                lemma_expand_cmds_push(st1.last(), CmdSpec::Loop(body));
                assert(expand_cmds(st1.last().push(CmdSpec::Loop(body))) =~= est1.last().push(
                    CmdSpec::Loop(expand_cmds(body)),
                ));
                assert(expand_stack(close_frame(st, body)) =~= close_frame(est, est.last()));
            }
        } else {
            match tok_cmd(t) {
                Some(c) => {
                    assert(expand_cmd(c) =~= seq![c]);
                    let st1 = st.update(st.len() - 1, st.last().push(c));
                    lemma_expand_cmds_push(st.last(), c);
                    assert(est.last().push(c) =~= est.last() + seq![c]);
                    assert(expand_stack(st1) =~= est.update(est.len() - 1, est.last().push(c)));
                },
                None => {},
            }
        }
    }
}

proof fn lemma_pfold_expand(ts: Seq<(u8, u8)>, st: Seq<Seq<CmdSpec>>)
    requires
        st.len() >= 1,
        forall|k: int| 0 <= k < ts.len() ==> wf_tok(ts[k]),
    ensures
        pfold(toks_units(ts), expand_stack(st)) == expand_pstep(pfold(ts, st)),
    decreases ts.len(),
{
    if ts.len() == 0 {
        assert(toks_units(ts) == Seq::<(u8, u8)>::empty());
    } else {
        let t = ts[0];
        assert(wf_tok(t));
        lemma_pstep_expand(t, st);
        lemma_pfold_append(tok_units(t), toks_units(ts.drop_first()), expand_stack(st));
        match pstep(t, st) {
            PStep::Run(st1) => {
                assert forall|k: int| 0 <= k < ts.drop_first().len() implies wf_tok(
                    ts.drop_first()[k],
                ) by {
                    assert(ts.drop_first()[k] == ts[k + 1]);
                }
                lemma_pfold_expand(ts.drop_first(), st1);
            },
            PStep::Done(_) => {},
        }
    }
}

/// Law (parser half of folding preservation): parsing the folded token
/// stream and parsing the source byte by byte fail on the same inputs with
/// the same depth, and on success the byte-by-byte program is exactly the
/// unfolding of the folded one.
pub proof fn lemma_parse_unfolded_is_expansion(s: Seq<u8>)
    ensures
        (parse_bytes(s) matches Ok(p) ==> parse_unfolded(s) == Ok::<Seq<CmdSpec>, nat>(
            expand_cmds(p),
        )),
        (parse_bytes(s) matches Err(d) ==> parse_unfolded(s) == Err::<Seq<CmdSpec>, nat>(d)),
{
    let st0: Seq<Seq<CmdSpec>> = seq![Seq::<CmdSpec>::empty()];
    lemma_units_of_fold(s);
    lemma_fold_bytes_wf(s);
    lemma_pfold_expand(fold_bytes(s), st0);
    assert(expand_stack(st0) =~= st0);
    match pfold(fold_bytes(s), st0) {
        PStep::Run(stf) => {
            assert(expand_stack(stf).len() == stf.len());
            if stf.len() == 1 {
                assert(expand_stack(stf)[0] == expand_cmds(stf[0]));
            }
        },
        PStep::Done(_) => {},
    }
}

proof fn lemma_run_singleton(c: CmdSpec, m: Machine, fuel: nat)
    ensures
        run_cmds(seq![c], m, fuel) == run_cmd(c, m, fuel),
{
    assert(seq![c][0] == c);
    assert(seq![c].drop_first() =~= Seq::<CmdSpec>::empty());
    match run_cmd(c, m, fuel) {
        Some(m1) => {
            assert(run_cmds(Seq::<CmdSpec>::empty(), m1, fuel) == Some(m1));
        },
        None => {},
    }
}

proof fn lemma_run_repeat_inc_pointer(m: Machine, n: u8, fuel: nat)
    requires
        n >= 1,
    ensures
        run_cmds(Seq::new(n as nat, |i: int| CmdSpec::IncPointer(1)), m, fuel) == Some(
            move_right(m, n as nat),
        ),
    decreases n,
{
    let s = Seq::new(n as nat, |i: int| CmdSpec::IncPointer(1));
    assert(s[0] == CmdSpec::IncPointer(1));
    let m1 = move_right(m, 1);
    assert(run_cmd(s[0], m, fuel) == Some(m1));
    assert(run_cmds(s, m, fuel) == run_cmds(s.drop_first(), m1, fuel));
    if n == 1 {
        assert(s.drop_first() =~= Seq::<CmdSpec>::empty());
        assert(run_cmds(Seq::<CmdSpec>::empty(), m1, fuel) == Some(m1));
        assert(m1 =~= move_right(m, n as nat));
    } else {
        assert(s.drop_first() =~= Seq::new((n - 1) as nat, |i: int| CmdSpec::IncPointer(1)));
        lemma_run_repeat_inc_pointer(m1, (n - 1) as u8, fuel);
        crate::sem::lemma_grown_grown(m.mem, m.ptr + 1 + 2, m.ptr + n as nat + 2);
        assert(move_right(m1, (n - 1) as nat) =~= move_right(m, n as nat));
    }
}

proof fn lemma_move_left_step(m: Machine, k: nat)
    ensures
        move_left(move_left(m, 1), k) == move_left(m, k + 1),
{
    let m1 = move_left(m, 1);
    if m.ptr == 0 {
        assert(m1.mem =~= Seq::new(1, |i: int| 0u8) + m.mem);
        if k > 0 {
            assert(Seq::new(k, |i: int| 0u8) + (Seq::new(1, |i: int| 0u8) + m.mem) =~= Seq::new(
                k + 1,
                |i: int| 0u8,
            ) + m.mem);
        }
        assert(move_left(m1, k) =~= move_left(m, k + 1));
    } else {
        if k + 1 > m.ptr {
            assert(Seq::new((k - (m.ptr - 1)) as nat, |i: int| 0u8) + m.mem =~= Seq::new(
                (k + 1 - m.ptr) as nat,
                |i: int| 0u8,
            ) + m.mem);
        }
        assert(move_left(m1, k) =~= move_left(m, k + 1));
    }
}

proof fn lemma_run_repeat_dec_pointer(m: Machine, n: u8, fuel: nat)
    requires
        n >= 1,
    ensures
        run_cmds(Seq::new(n as nat, |i: int| CmdSpec::DecPointer(1)), m, fuel) == Some(
            move_left(m, n as nat),
        ),
    decreases n,
{
    let s = Seq::new(n as nat, |i: int| CmdSpec::DecPointer(1));
    assert(s[0] == CmdSpec::DecPointer(1));
    let m1 = move_left(m, 1);
    assert(run_cmd(s[0], m, fuel) == Some(m1));
    assert(run_cmds(s, m, fuel) == run_cmds(s.drop_first(), m1, fuel));
    if n == 1 {
        assert(s.drop_first() =~= Seq::<CmdSpec>::empty());
        assert(run_cmds(Seq::<CmdSpec>::empty(), m1, fuel) == Some(m1));
    } else {
        assert(s.drop_first() =~= Seq::new((n - 1) as nat, |i: int| CmdSpec::DecPointer(1)));
        lemma_run_repeat_dec_pointer(m1, (n - 1) as u8, fuel);
        lemma_move_left_step(m, (n - 1) as nat);
    }
}

proof fn lemma_run_repeat_inc_value(m: Machine, n: u8, fuel: nat)
    requires
        m.wf(),
        n >= 1,
    ensures
        run_cmds(Seq::new(n as nat, |i: int| CmdSpec::IncValue(1)), m, fuel) == Some(
            set_cell(m, wrap_add(m.cell(), n)),
        ),
    decreases n,
{
    let s = Seq::new(n as nat, |i: int| CmdSpec::IncValue(1));
    assert(s[0] == CmdSpec::IncValue(1));
    let m1 = set_cell(m, wrap_add(m.cell(), 1));
    assert(run_cmd(s[0], m, fuel) == Some(m1));
    assert(run_cmds(s, m, fuel) == run_cmds(s.drop_first(), m1, fuel));
    if n == 1 {
        assert(s.drop_first() =~= Seq::<CmdSpec>::empty());
        assert(run_cmds(Seq::<CmdSpec>::empty(), m1, fuel) == Some(m1));
    } else {
        assert(s.drop_first() =~= Seq::new((n - 1) as nat, |i: int| CmdSpec::IncValue(1)));
        lemma_run_repeat_inc_value(m1, (n - 1) as u8, fuel);
        assert(m1.cell() == wrap_add(m.cell(), 1));
        assert(wrap_add(wrap_add(m.cell(), 1), (n - 1) as u8) == wrap_add(m.cell(), n));
        assert(set_cell(m1, wrap_add(m.cell(), n)) =~= set_cell(m, wrap_add(m.cell(), n)));
    }
}

proof fn lemma_run_repeat_dec_value(m: Machine, n: u8, fuel: nat)
    requires
        m.wf(),
        n >= 1,
    ensures
        run_cmds(Seq::new(n as nat, |i: int| CmdSpec::DecValue(1)), m, fuel) == Some(
            set_cell(m, wrap_sub(m.cell(), n)),
        ),
    decreases n,
{
    let s = Seq::new(n as nat, |i: int| CmdSpec::DecValue(1));
    assert(s[0] == CmdSpec::DecValue(1));
    let m1 = set_cell(m, wrap_sub(m.cell(), 1));
    assert(run_cmd(s[0], m, fuel) == Some(m1));
    assert(run_cmds(s, m, fuel) == run_cmds(s.drop_first(), m1, fuel));
    if n == 1 {
        assert(s.drop_first() =~= Seq::<CmdSpec>::empty());
        assert(run_cmds(Seq::<CmdSpec>::empty(), m1, fuel) == Some(m1));
    } else {
        assert(s.drop_first() =~= Seq::new((n - 1) as nat, |i: int| CmdSpec::DecValue(1)));
        lemma_run_repeat_dec_value(m1, (n - 1) as u8, fuel);
        assert(m1.cell() == wrap_sub(m.cell(), 1));
        assert(wrap_sub(wrap_sub(m.cell(), 1), (n - 1) as u8) == wrap_sub(m.cell(), n));
        assert(set_cell(m1, wrap_sub(m.cell(), n)) =~= set_cell(m, wrap_sub(m.cell(), n)));
    }
}

proof fn lemma_expand_run_cmds(s: Seq<CmdSpec>, m: Machine, fuel: nat)
    requires
        m.wf(),
    ensures
        run_cmds(expand_cmds(s), m, fuel) == run_cmds(s, m, fuel),
    decreases fuel, s, 1nat,
{
    if s.len() != 0 {
        lemma_expand_run_cmd(s[0], m, fuel);
        crate::sem::lemma_run_cmds_append(expand_cmd(s[0]), expand_cmds(s.drop_first()), m, fuel);
        match run_cmd(s[0], m, fuel) {
            Some(m1) => {
                crate::sem::lemma_run_cmd_wf(s[0], m, fuel);
                lemma_expand_run_cmds(s.drop_first(), m1, fuel);
            },
            None => {},
        }
    }
}

proof fn lemma_expand_run_cmd(c: CmdSpec, m: Machine, fuel: nat)
    requires
        m.wf(),
    ensures
        run_cmds(expand_cmd(c), m, fuel) == run_cmd(c, m, fuel),
    decreases fuel, c, 2nat,
{
    match c {
        CmdSpec::IncPointer(n) => {
            if n == 0 {
                lemma_run_singleton(c, m, fuel);
            } else {
                lemma_run_repeat_inc_pointer(m, n, fuel);
            }
        },
        CmdSpec::DecPointer(n) => {
            if n == 0 {
                lemma_run_singleton(c, m, fuel);
            } else {
                lemma_run_repeat_dec_pointer(m, n, fuel);
            }
        },
        CmdSpec::IncValue(n) => {
            if n == 0 {
                lemma_run_singleton(c, m, fuel);
            } else {
                lemma_run_repeat_inc_value(m, n, fuel);
            }
        },
        CmdSpec::DecValue(n) => {
            if n == 0 {
                lemma_run_singleton(c, m, fuel);
            } else {
                lemma_run_repeat_dec_value(m, n, fuel);
            }
        },
        CmdSpec::PutChar => {
            lemma_run_singleton(c, m, fuel);
        },
        CmdSpec::GetChar => {
            lemma_run_singleton(c, m, fuel);
        },
        CmdSpec::Loop(body) => {
            lemma_run_singleton(CmdSpec::Loop(expand_cmds(body)), m, fuel);
            lemma_expand_run_loop(body, m, fuel);
        },
    }
}

proof fn lemma_expand_run_loop(body: Seq<CmdSpec>, m: Machine, fuel: nat)
    requires
        m.wf(),
    ensures
        run_loop(expand_cmds(body), m, fuel) == run_loop(body, m, fuel),
    decreases fuel, body, 0nat,
{
    if m.cell() != 0 && fuel > 0 {
        lemma_expand_run_cmds(body, m, (fuel - 1) as nat);
        match run_cmds(body, m, (fuel - 1) as nat) {
            Some(m1) => {
                crate::sem::lemma_run_cmds_wf(body, m, (fuel - 1) as nat);
                lemma_expand_run_loop(body, m1, (fuel - 1) as nat);
            },
            None => {},
        }
    }
}

/// Law: run-length folding is behavior-preserving. Parsing the folded token
/// stream and parsing the source byte by byte fail on exactly the same
/// sources, with the same count of unclosed loops; and where both succeed,
/// the two programs run any machine to exactly the same result — same tape,
/// same cursor, same output, same remaining input — with the same fuel.
pub proof fn lemma_folding_preserves_behavior(src: Seq<u8>, m: Machine, fuel: nat)
    requires
        m.wf(),
    ensures
        (parse_bytes(src) matches Err(d) ==> parse_unfolded(src) == Err::<Seq<CmdSpec>, nat>(d)),
        (parse_unfolded(src) matches Err(d) ==> parse_bytes(src) == Err::<Seq<CmdSpec>, nat>(d)),
        (parse_bytes(src) matches Ok(pf) ==> parse_unfolded(src) matches Ok(pu) && run_cmds(
            pu,
            m,
            fuel,
        ) == run_cmds(pf, m, fuel)),
{
    lemma_parse_unfolded_is_expansion(src);
    match parse_bytes(src) {
        Ok(pf) => {
            lemma_expand_run_cmds(pf, m, fuel);
        },
        Err(_) => {},
    }
}

} // verus!
