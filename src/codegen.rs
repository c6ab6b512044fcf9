//! Turning statements into instructions, with adjacent cancelling pairs
//! removed.
use vstd::prelude::*;
use crate::instr::{
    is_instr, is_program, lemma_push_program, rep, text_of, to_text, CLOSE, DEC, IN, INC, LEFT,
    OPEN, OUT, RIGHT,
};
use crate::parse::Statement;

verus! {

/// The instructions of one statement.
pub open spec fn statement_code(st: Statement) -> Seq<u8> {
    match st {
        Statement::Add(c) => rep(INC, c as nat),
        Statement::Sub(c) => rep(DEC, c as nat),
        Statement::LoopStart => seq![OPEN],
        Statement::LoopEnd => seq![CLOSE],
        Statement::ShiftLeft(c) => rep(LEFT, c as nat),
        Statement::ShiftRight(c) => rep(RIGHT, c as nat),
        Statement::Input => seq![IN],
        Statement::Output => seq![OUT],
    }
}

/// The instructions of a statement list, in order.
pub open spec fn expand(ast: Seq<Statement>) -> Seq<u8>
    decreases ast.len(),
{
    if ast.len() == 0 {
        Seq::empty()
    } else {
        expand(ast.drop_last()) + statement_code(ast.last())
    }
}

/// `a` followed by `b` does nothing: opposite moves, or an increment and a
/// decrement.
pub open spec fn cancels(a: u8, b: u8) -> bool {
    (a == INC && b == DEC) || (a == DEC && b == INC) || (a == LEFT && b == RIGHT) || (a == RIGHT
        && b == LEFT)
}

/// `s` with cancelling adjacent pairs removed until none is left.
pub open spec fn reduce(s: Seq<u8>) -> Seq<u8>
    decreases s.len(),
{
    if s.len() == 0 {
        Seq::empty()
    } else {
        let r = reduce(s.drop_last());
        if r.len() > 0 && cancels(r.last(), s.last()) {
            r.drop_last()
        } else {
            r.push(s.last())
        }
    }
}

/// No two adjacent instructions of `s` cancel.
pub open spec fn irreducible(s: Seq<u8>) -> bool {
    forall|i: int| 0 <= i < s.len() - 1 ==> !cancels(#[trigger] s[i], s[i + 1])
}

/// Appends `b` to the reduced code in `out`, or drops the last instruction
/// when `b` undoes it.
fn push_reduced(out: &mut Vec<u8>, b: u8)
    requires
        is_program(old(out)@),
        irreducible(old(out)@),
        is_instr(b),
    ensures
        is_program(final(out)@),
        irreducible(final(out)@),
        final(out)@ == ({
            let r = old(out)@;
            if r.len() > 0 && cancels(r.last(), b) {
                r.drop_last()
            } else {
                r.push(b)
            }
        }),
{
    let n = out.len();
    if n > 0 {
        let last = out[n - 1];
        if (last == INC && b == DEC) || (last == DEC && b == INC) || (last == LEFT && b == RIGHT)
            || (last == RIGHT && b == LEFT) {
            out.pop();
            assert forall|i: int| 0 <= i < out@.len() implies is_instr(#[trigger] out@[i]) by {
                assert(out@[i] == old(out)@[i]);
            }
            assert forall|i: int| 0 <= i < out@.len() - 1 implies !cancels(
                #[trigger] out@[i],
                out@[i + 1],
            ) by {
                assert(out@[i] == old(out)@[i]);
                assert(out@[i + 1] == old(out)@[i + 1]);
            }
            return;
        }
    }
    proof {
        lemma_push_program(out@, b);
    }
    out.push(b);
    assert forall|i: int| 0 <= i < out@.len() - 1 implies !cancels(#[trigger] out@[i], out@[i + 1]) by {
        assert(out@[i] == old(out)@.push(b)[i]);
        if i < n - 1 {
            assert(out@[i + 1] == old(out)@[i + 1]);
        }
    }
}

/// Generates the instructions of `ast` as text, with adjacent cancelling
/// pairs (`+-`, `-+`, `<>`, `><`) removed until none is left.
pub fn gen_bf(ast: Vec<Statement>) -> (r: String)
    ensures
        r@ == text_of(reduce(expand(ast@))),
        irreducible(reduce(expand(ast@))),
{
    let mut code: Vec<u8> = Vec::new();
    let mut i: usize = 0;
    while i < ast.len()
        invariant
            0 <= i <= ast.len(),
            code@ == reduce(expand(ast@.take(i as int))),
            is_program(code@),
            irreducible(code@),
        decreases ast.len() - i,
    {
        let st = ast[i];
        let (b, count): (u8, u32) = match st {
            Statement::Add(c) => (INC, c),
            Statement::Sub(c) => (DEC, c),
            Statement::LoopStart => (OPEN, 1),
            Statement::LoopEnd => (CLOSE, 1),
            Statement::ShiftLeft(c) => (LEFT, c),
            Statement::ShiftRight(c) => (RIGHT, c),
            Statement::Input => (IN, 1),
            Statement::Output => (OUT, 1),
        };
        assert(statement_code(st) =~= rep(b, count as nat));
        let ghost before = expand(ast@.take(i as int));
        let mut k: u32 = 0;
        while k < count
            invariant
                0 <= k <= count,
                is_instr(b),
                code@ == reduce(before + rep(b, k as nat)),
                is_program(code@),
                irreducible(code@),
            decreases count - k,
        {
            push_reduced(&mut code, b);
            k = k + 1;
            assert((before + rep(b, k as nat)).drop_last() =~= before + rep(b, (k - 1) as nat));
        }
        i = i + 1;
        assert(ast@.take(i as int).drop_last() =~= ast@.take(i - 1));
    }
    assert(ast@.take(ast.len() as int) =~= ast@);
    to_text(&code)
}

} // verus!
