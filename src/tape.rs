//! What generated code does when run: a machine over an unbounded tape of
//! wrapping byte cells, and the laws of the builder's algorithms.
use vstd::prelude::*;
use crate::builder::{
    back_code, copy_code, divmod_by_code, divmod_code, free_code, mul_code, mul_loop_code, sat_sub, transfer_code,
    DIVMOD_TEXT,
};
use crate::instr::program_of;
use crate::instr::{clear_code, moves, CLOSE, DEC, IN, INC, LEFT, OPEN, OUT, RIGHT};

verus! {

/// A machine state: every tape cell, the data pointer, what was output so
/// far and the input still to read.
pub struct Machine {
    pub tape: spec_fn(int) -> u8,
    pub ptr: int,
    pub out: Seq<u8>,
    pub input: Seq<u8>,
}

pub open spec fn cell(m: Machine, p: int) -> u8 {
    (m.tape)(p)
}

pub open spec fn set_cell(m: Machine, p: int, v: u8) -> Machine {
    Machine { tape: |j: int| if j == p { v } else { (m.tape)(j) }, ..m }
}

pub open spec fn with_ptr(m: Machine, p: int) -> Machine {
    Machine { ptr: p, ..m }
}

pub open spec fn wrap(v: int) -> u8 {
    (v % 256) as u8
}

/// The effect of one instruction other than a loop bracket. Input past the
/// end reads as 0.
pub open spec fn step(b: u8, m: Machine) -> Machine {
    let v = cell(m, m.ptr) as int;
    if b == RIGHT {
        with_ptr(m, m.ptr + 1)
    } else if b == LEFT {
        with_ptr(m, m.ptr - 1)
    } else if b == INC {
        set_cell(m, m.ptr, wrap(v + 1))
    } else if b == DEC {
        set_cell(m, m.ptr, wrap(v + 255))
    } else if b == OUT {
        Machine { out: m.out.push(cell(m, m.ptr)), ..m }
    } else if b == IN {
        if m.input.len() > 0 {
            Machine { input: m.input.drop_first(), ..set_cell(m, m.ptr, m.input[0]) }
        } else {
            set_cell(m, m.ptr, 0)
        }
    } else {
        m
    }
}

/// The index of the bracket that closes at depth `d`, scanning from `i`;
/// -1 if there is none.
pub open spec fn find_close(code: Seq<u8>, i: int, d: nat) -> int
    decreases code.len() - i,
{
    if i < 0 || i >= code.len() {
        -1
    } else if code[i] == CLOSE {
        if d == 0 {
            i
        } else {
            find_close(code, i + 1, (d - 1) as nat)
        }
    } else if code[i] == OPEN {
        find_close(code, i + 1, d + 1)
    } else {
        find_close(code, i + 1, d)
    }
}

/// Runs `code` from `m`, each loop allowed at most `fuel` turns (nested
/// loops less); `None` when the fuel runs out or brackets do not match.
pub open spec fn run(code: Seq<u8>, m: Machine, fuel: nat) -> Option<Machine>
    decreases fuel, code.len(), 1nat,
{
    if code.len() == 0 {
        Some(m)
    } else if code[0] == OPEN {
        let k = find_close(code, 1, 0);
        if 1 <= k < code.len() {
            match run_loop(code.subrange(1, k), m, fuel) {
                Some(m1) => run(code.subrange(k + 1, code.len() as int), m1, fuel),
                None => None,
            }
        } else {
            None
        }
    } else if code[0] == CLOSE {
        None
    } else {
        run(code.drop_first(), step(code[0], m), fuel)
    }
}

/// Runs the loop with body `body` from `m`.
pub open spec fn run_loop(body: Seq<u8>, m: Machine, fuel: nat) -> Option<Machine>
    decreases fuel, body.len(), 0nat,
{
    if cell(m, m.ptr) == 0 {
        Some(m)
    } else if fuel == 0 {
        None
    } else {
        match run(body, m, (fuel - 1) as nat) {
            Some(m1) => run_loop(body, m1, (fuel - 1) as nat),
            None => None,
        }
    }
}

/// Running `code` from `m` ends, in `m2`.
pub open spec fn runs(code: Seq<u8>, m: Machine, m2: Machine) -> bool {
    exists|f: nat| run(code, m, f) == Some(m2)
}

/// Brackets in `code` match.
pub open spec fn wellformed(code: Seq<u8>) -> bool
    decreases code.len(),
{
    if code.len() == 0 {
        true
    } else if code[0] == OPEN {
        let k = find_close(code, 1, 0);
        if 1 <= k < code.len() {
            wellformed(code.subrange(1, k)) && wellformed(code.subrange(k + 1, code.len() as int))
        } else {
            false
        }
    } else if code[0] == CLOSE {
        false
    } else {
        wellformed(code.drop_first())
    }
}

pub open spec fn loop_of(body: Seq<u8>) -> Seq<u8> {
    seq![OPEN] + body + seq![CLOSE]
}

proof fn lemma_find_close_range(code: Seq<u8>, i: int, d: nat)
    ensures
        find_close(code, i, d) == -1 || (i <= find_close(code, i, d) < code.len()),
    decreases code.len() - i,
{
    if 0 <= i < code.len() {
        if code[i] == CLOSE {
            if d > 0 {
                lemma_find_close_range(code, i + 1, (d - 1) as nat);
            }
        } else if code[i] == OPEN {
            lemma_find_close_range(code, i + 1, d + 1);
        } else {
            lemma_find_close_range(code, i + 1, d);
        }
    }
}

/// A close found inside `a` is found the same way in `a + b`.
proof fn lemma_find_close_extend(a: Seq<u8>, b: Seq<u8>, i: int, d: nat)
    requires
        0 <= i,
        find_close(a, i, d) != -1,
    ensures
        find_close(a + b, i, d) == find_close(a, i, d),
    decreases a.len() - i,
{
    lemma_find_close_range(a, i, d);
    assert((a + b)[i] == a[i]);
    if a[i] == CLOSE {
        if d > 0 {
            lemma_find_close_extend(a, b, i + 1, (d - 1) as nat);
        }
    } else if a[i] == OPEN {
        lemma_find_close_extend(a, b, i + 1, d + 1);
    } else {
        lemma_find_close_extend(a, b, i + 1, d);
    }
}

/// Scanning for a close skips over a well-formed stretch of code.
proof fn lemma_find_close_skip(c: Seq<u8>, i: int, w: Seq<u8>, d: nat)
    requires
        0 <= i,
        i + w.len() <= c.len(),
        c.subrange(i, i + w.len()) == w,
        wellformed(w),
    ensures
        find_close(c, i, d) == find_close(c, i + w.len(), d),
    decreases w.len(),
{
    if w.len() > 0 {
        assert(c[i] == w[0]);
        if w[0] == OPEN {
            let k = find_close(w, 1, 0);
            let inner = w.subrange(1, k);
            let rest = w.subrange(k + 1, w.len() as int);
            assert(c.subrange(i + 1, i + 1 + inner.len()) =~= inner);
            lemma_find_close_skip(c, i + 1, inner, d + 1);
            lemma_find_close_skip_close(w, k);
            assert(c[i + k] == w[k]);
            assert(c.subrange(i + k + 1, i + k + 1 + rest.len()) =~= rest);
            lemma_find_close_skip(c, i + k + 1, rest, d);
        } else {
            assert(c.subrange(i + 1, i + 1 + w.drop_first().len()) =~= w.drop_first());
            lemma_find_close_skip(c, i + 1, w.drop_first(), d);
        }
    }
}

/// The close found for a leading open is a close.
proof fn lemma_find_close_skip_close(w: Seq<u8>, k: int)
    requires
        k == find_close(w, 1, 0),
        1 <= k < w.len(),
    ensures
        w[k] == CLOSE,
{
    lemma_find_close_is_close(w, 1, 0);
}

proof fn lemma_find_close_is_close(w: Seq<u8>, i: int, d: nat)
    ensures
        find_close(w, i, d) != -1 ==> w[find_close(w, i, d)] == CLOSE,
    decreases w.len() - i,
{
    if 0 <= i < w.len() {
        if w[i] == CLOSE {
            if d > 0 {
                lemma_find_close_is_close(w, i + 1, (d - 1) as nat);
            }
        } else if w[i] == OPEN {
            lemma_find_close_is_close(w, i + 1, d + 1);
        } else {
            lemma_find_close_is_close(w, i + 1, d);
        }
    }
}

pub proof fn lemma_wellformed_loop(body: Seq<u8>)
    requires
        wellformed(body),
    ensures
        wellformed(loop_of(body)),
        find_close(loop_of(body), 1, 0) == body.len() + 1,
{
    let c = loop_of(body);
    assert(c.subrange(1, 1 + body.len() as int) =~= body);
    lemma_find_close_skip(c, 1, body, 0);
    assert(c[0] == OPEN);
    assert(c[body.len() as int + 1] == CLOSE);
    assert(find_close(c, body.len() as int + 1, 0) == body.len() + 1);
    assert(c.subrange(1, (body.len() + 1) as int) =~= body);
    assert(c.subrange((body.len() + 2) as int, c.len() as int) =~= Seq::<u8>::empty());
    assert(wellformed(Seq::<u8>::empty()));
}

pub proof fn lemma_wellformed_concat(a: Seq<u8>, b: Seq<u8>)
    requires
        wellformed(a),
        wellformed(b),
    ensures
        wellformed(a + b),
    decreases a.len(),
{
    if a.len() == 0 {
        assert(a + b =~= b);
    } else if a[0] == OPEN {
        let k = find_close(a, 1, 0);
        lemma_find_close_extend(a, b, 1, 0);
        let rest = a.subrange(k + 1, a.len() as int);
        lemma_wellformed_concat(rest, b);
        assert((a + b).subrange(1, k) =~= a.subrange(1, k));
        assert((a + b).subrange(k + 1, (a + b).len() as int) =~= rest + b);
    } else {
        lemma_wellformed_concat(a.drop_first(), b);
        assert((a + b).drop_first() =~= a.drop_first() + b);
    }
}

/// More fuel never changes a finished run.
proof fn lemma_run_mono(code: Seq<u8>, m: Machine, f: nat, g: nat)
    requires
        f <= g,
        run(code, m, f) is Some,
    ensures
        run(code, m, g) == run(code, m, f),
    decreases f, code.len(), 1nat,
{
    if code.len() > 0 {
        if code[0] == OPEN {
            let k = find_close(code, 1, 0);
            lemma_run_loop_mono(code.subrange(1, k), m, f, g);
            let m1 = run_loop(code.subrange(1, k), m, f).unwrap();
            lemma_run_mono(code.subrange(k + 1, code.len() as int), m1, f, g);
        } else if code[0] != CLOSE {
            lemma_run_mono(code.drop_first(), step(code[0], m), f, g);
        }
    }
}

proof fn lemma_run_loop_mono(body: Seq<u8>, m: Machine, f: nat, g: nat)
    requires
        f <= g,
        run_loop(body, m, f) is Some,
    ensures
        run_loop(body, m, g) == run_loop(body, m, f),
    decreases f, body.len(), 0nat,
{
    if cell(m, m.ptr) != 0 {
        lemma_run_mono(body, m, (f - 1) as nat, (g - 1) as nat);
        let m1 = run(body, m, (f - 1) as nat).unwrap();
        lemma_run_loop_mono(body, m1, (f - 1) as nat, (g - 1) as nat);
    }
}

/// Running `a + b` is running `a`, then `b`.
proof fn lemma_run_concat(a: Seq<u8>, b: Seq<u8>, m: Machine, f: nat)
    requires
        wellformed(a),
    ensures
        run(a + b, m, f) == match run(a, m, f) {
            Some(m1) => run(b, m1, f),
            None => None,
        },
    decreases a.len(),
{
    if a.len() == 0 {
        assert(a + b =~= b);
    } else if a[0] == OPEN {
        let k = find_close(a, 1, 0);
        lemma_find_close_extend(a, b, 1, 0);
        let rest = a.subrange(k + 1, a.len() as int);
        assert((a + b).subrange(1, k) =~= a.subrange(1, k));
        assert((a + b).subrange(k + 1, (a + b).len() as int) =~= rest + b);
        match run_loop(a.subrange(1, k), m, f) {
            Some(m1) => {
                lemma_run_concat(rest, b, m1, f);
            },
            None => {},
        }
    } else {
        assert((a + b).drop_first() =~= a.drop_first() + b);
        lemma_run_concat(a.drop_first(), b, step(a[0], m), f);
    }
}

/// Running `a` then `b` runs `a + b`.
pub proof fn lemma_runs_concat(a: Seq<u8>, b: Seq<u8>, m: Machine, m1: Machine, m2: Machine)
    requires
        wellformed(a),
        runs(a, m, m1),
        runs(b, m1, m2),
    ensures
        runs(a + b, m, m2),
{
    let f1 = choose|f: nat| run(a, m, f) == Some(m1);
    let f2 = choose|f: nat| run(b, m1, f) == Some(m2);
    let f = if f1 > f2 {
        f1
    } else {
        f2
    };
    lemma_run_mono(a, m, f1, f);
    lemma_run_mono(b, m1, f2, f);
    lemma_run_concat(a, b, m, f);
    assert(run(a + b, m, f) == Some(m2));
}

/// One instruction other than a bracket.
pub proof fn lemma_runs_step(b: u8, m: Machine)
    requires
        b != OPEN,
        b != CLOSE,
    ensures
        runs(seq![b], m, step(b, m)),
        wellformed(seq![b]),
{
    assert(seq![b].drop_first() =~= Seq::<u8>::empty());
    assert(seq![b][0] == b);
    assert(wellformed(Seq::<u8>::empty()));
    assert(run(Seq::<u8>::empty(), step(b, m), 0) == Some(step(b, m)));
    assert(run(seq![b], m, 0) == Some(step(b, m)));
}

/// A loop whose cell is zero is skipped.
pub proof fn lemma_loop_exit(body: Seq<u8>, m: Machine)
    requires
        wellformed(body),
        cell(m, m.ptr) == 0,
    ensures
        runs(loop_of(body), m, m),
{
    lemma_wellformed_loop(body);
    let c = loop_of(body);
    assert(c.subrange(1, (body.len() + 1) as int) =~= body);
    assert(c.subrange((body.len() + 2) as int, c.len() as int) =~= Seq::<u8>::empty());
    assert(c[0] == OPEN);
    assert(run_loop(body, m, 0) == Some(m));
    assert(run(Seq::<u8>::empty(), m, 0) == Some(m));
    assert(run(c, m, 0) == Some(m));
}

/// A loop whose cell is nonzero runs its body, then itself again.
pub proof fn lemma_loop_iter(body: Seq<u8>, m: Machine, m1: Machine, m2: Machine)
    requires
        wellformed(body),
        cell(m, m.ptr) != 0,
        runs(body, m, m1),
        runs(loop_of(body), m1, m2),
    ensures
        runs(loop_of(body), m, m2),
{
    lemma_wellformed_loop(body);
    let c = loop_of(body);
    assert(c.subrange(1, (body.len() + 1) as int) =~= body);
    assert(c.subrange((body.len() + 2) as int, c.len() as int) =~= Seq::<u8>::empty());
    assert(c[0] == OPEN);
    let f1 = choose|f: nat| run(body, m, f) == Some(m1);
    let f2 = choose|f: nat| run(c, m1, f) == Some(m2);
    match run_loop(body, m1, f2) {
        Some(x) => {
            assert(run(Seq::<u8>::empty(), x, f2) == Some(x));
        },
        None => {},
    }
    assert(run_loop(body, m1, f2) == Some(m2));
    let f = if f1 > f2 {
        f1
    } else {
        f2
    };
    lemma_run_mono(body, m, f1, f);
    lemma_run_loop_mono(body, m1, f2, f);
    assert(run_loop(body, m, f + 1) == Some(m2));
    assert(run(Seq::<u8>::empty(), m2, f + 1) == Some(m2));
    assert(run(c, m, f + 1) == Some(m2));
}

/// Moves take the pointer from `a` to `b` and touch nothing else.
pub proof fn lemma_moves(a: int, b: int, m: Machine)
    requires
        m.ptr == a,
    ensures
        runs(moves(a, b), m, with_ptr(m, b)),
        wellformed(moves(a, b)),
    decreases if a < b {
        b - a
    } else {
        a - b
    },
{
    if a == b {
        assert(moves(a, b) =~= Seq::<u8>::empty());
        assert(with_ptr(m, b) == m);
        assert(run(moves(a, b), m, 0) == Some(m));
    } else if a < b {
        lemma_runs_step(RIGHT, m);
        let m1 = with_ptr(m, a + 1);
        lemma_moves(a + 1, b, m1);
        assert(moves(a, b) =~= seq![RIGHT] + moves(a + 1, b));
        lemma_runs_concat(seq![RIGHT], moves(a + 1, b), m, m1, with_ptr(m, b));
        lemma_wellformed_concat(seq![RIGHT], moves(a + 1, b));
    } else {
        lemma_runs_step(LEFT, m);
        let m1 = with_ptr(m, a - 1);
        lemma_moves(a - 1, b, m1);
        assert(moves(a, b) =~= seq![LEFT] + moves(a - 1, b));
        lemma_runs_concat(seq![LEFT], moves(a - 1, b), m, m1, with_ptr(m, b));
        lemma_wellformed_concat(seq![LEFT], moves(a - 1, b));
    }
}

/// Runs `a` then `b`, both well-formed.
pub proof fn lemma_chain(a: Seq<u8>, b: Seq<u8>, m: Machine, m1: Machine, m2: Machine)
    requires
        wellformed(a),
        wellformed(b),
        runs(a, m, m1),
        runs(b, m1, m2),
    ensures
        runs(a + b, m, m2),
        wellformed(a + b),
{
    lemma_runs_concat(a, b, m, m1, m2);
    lemma_wellformed_concat(a, b);
}

/// Going to `x` and then to `y` costs `|x - y|` moves in the second call and
/// ends with the pointer at `y`, the tape untouched, as going straight to `y`
/// does.
pub proof fn lemma_goto_twice(c: int, x: int, y: int, m: Machine)
    requires
        m.ptr == c,
    ensures
        moves(x, y).len() == if x < y {
            y - x
        } else {
            x - y
        },
        runs(moves(c, x) + moves(x, y), m, with_ptr(m, y)),
        runs(moves(c, y), m, with_ptr(m, y)),
{
    lemma_moves(c, x, m);
    lemma_moves(x, y, with_ptr(m, x));
    assert(with_ptr(with_ptr(m, x), y) == with_ptr(m, y));
    lemma_chain(moves(c, x), moves(x, y), m, with_ptr(m, x), with_ptr(m, y));
    lemma_moves(c, y, m);
}

/// The clearing loop sets the current cell to 0 and changes nothing else.
pub proof fn lemma_clear(m: Machine)
    ensures
        runs(clear_code(), m, set_cell(m, m.ptr, 0)),
        wellformed(clear_code()),
    decreases cell(m, m.ptr),
{
    let body = seq![DEC];
    assert(clear_code() =~= loop_of(body));
    lemma_runs_step(DEC, m);
    lemma_wellformed_loop(body);
    let p = m.ptr;
    if cell(m, p) == 0 {
        assert(set_cell(m, p, 0).tape =~= m.tape);
        assert(set_cell(m, p, 0) == m);
        lemma_loop_exit(body, m);
    } else {
        let m1 = step(DEC, m);
        assert(cell(m1, p) == cell(m, p) - 1);
        lemma_clear(m1);
        assert(set_cell(m1, p, 0).tape =~= set_cell(m, p, 0).tape);
        assert(set_cell(m1, p, 0) == set_cell(m, p, 0));
        lemma_loop_iter(body, m, m1, set_cell(m, p, 0));
    }
}

/// The body of the loop that drains `start` into `pos`.
pub open spec fn transfer_body(start: int, pos: int) -> Seq<u8> {
    moves(start, pos) + seq![INC] + moves(pos, start) + seq![DEC]
}

proof fn lemma_transfer_body(start: int, pos: int, m: Machine)
    requires
        m.ptr == start,
        start != pos,
    ensures
        wellformed(transfer_body(start, pos)),
        runs(
            transfer_body(start, pos),
            m,
            set_cell(
                set_cell(m, pos, wrap(cell(m, pos) + 1)),
                start,
                wrap(cell(m, start) + 255),
            ),
        ),
{
    let a = with_ptr(m, pos);
    lemma_moves(start, pos, m);
    let b = step(INC, a);
    lemma_runs_step(INC, a);
    lemma_chain(moves(start, pos), seq![INC], m, a, b);
    let c = with_ptr(b, start);
    lemma_moves(pos, start, b);
    lemma_chain(moves(start, pos) + seq![INC], moves(pos, start), m, b, c);
    let d = step(DEC, c);
    lemma_runs_step(DEC, c);
    lemma_chain(moves(start, pos) + seq![INC] + moves(pos, start), seq![DEC], m, c, d);
    let want = set_cell(
        set_cell(m, pos, wrap(cell(m, pos) + 1)),
        start,
        wrap(cell(m, start) + 255),
    );
    assert(d.tape =~= want.tape);
    assert(d == want);
}

/// `add_to(pos)` with the pointer at `start` holding `v` and `pos` holding
/// `w`: `pos` ends at `(w + v) mod 256`, `start` at 0, the pointer back at
/// `start`, and nothing else changes.
pub proof fn lemma_add_to(start: int, pos: int, m: Machine)
    requires
        m.ptr == start,
        start != pos,
    ensures
        wellformed(transfer_code(start, pos, INC)),
        runs(
            transfer_code(start, pos, INC),
            m,
            set_cell(set_cell(m, pos, wrap(cell(m, pos) + cell(m, start))), start, 0),
        ),
    decreases cell(m, start),
{
    let body = transfer_body(start, pos);
    assert(transfer_code(start, pos, INC) =~= loop_of(body));
    lemma_transfer_body(start, pos, m);
    lemma_wellformed_loop(body);
    let v = cell(m, start) as int;
    let w = cell(m, pos) as int;
    let want = set_cell(set_cell(m, pos, wrap(w + v)), start, 0);
    if v == 0 {
        assert(want.tape =~= m.tape);
        assert(want == m);
        lemma_loop_exit(body, m);
    } else {
        let m1 = set_cell(set_cell(m, pos, wrap(w + 1)), start, wrap(v + 255));
        assert(cell(m1, start) == v - 1);
        lemma_add_to(start, pos, m1);
        let got = set_cell(
            set_cell(m1, pos, wrap(cell(m1, pos) + cell(m1, start))),
            start,
            0,
        );
        assert(wrap(wrap(w + 1) + (v - 1)) == wrap(w + v));
        assert(got.tape =~= want.tape);
        assert(got == want);
        lemma_loop_iter(body, m, m1, want);
    }
}

/// The body of `copy`'s first loop: one unit from `s` to both `t` and `tmp`.
pub open spec fn split_body(s: int, t: int, tmp: int) -> Seq<u8> {
    moves(s, t) + seq![INC] + moves(t, tmp) + seq![INC] + moves(tmp, s) + seq![DEC]
}

proof fn lemma_split_body(s: int, t: int, tmp: int, m: Machine)
    requires
        m.ptr == s,
        s != t,
        s != tmp,
        t != tmp,
    ensures
        wellformed(split_body(s, t, tmp)),
        runs(
            split_body(s, t, tmp),
            m,
            set_cell(
                set_cell(set_cell(m, t, wrap(cell(m, t) + 1)), tmp, wrap(cell(m, tmp) + 1)),
                s,
                wrap(cell(m, s) + 255),
            ),
        ),
{
    let a = with_ptr(m, t);
    lemma_moves(s, t, m);
    let b = step(INC, a);
    lemma_runs_step(INC, a);
    lemma_chain(moves(s, t), seq![INC], m, a, b);
    let p1 = moves(s, t) + seq![INC];
    let c = with_ptr(b, tmp);
    lemma_moves(t, tmp, b);
    lemma_chain(p1, moves(t, tmp), m, b, c);
    let p2 = p1 + moves(t, tmp);
    let d = step(INC, c);
    lemma_runs_step(INC, c);
    lemma_chain(p2, seq![INC], m, c, d);
    let p3 = p2 + seq![INC];
    let e = with_ptr(d, s);
    lemma_moves(tmp, s, d);
    lemma_chain(p3, moves(tmp, s), m, d, e);
    let p4 = p3 + moves(tmp, s);
    let f = step(DEC, e);
    lemma_runs_step(DEC, e);
    lemma_chain(p4, seq![DEC], m, e, f);
    let want = set_cell(
        set_cell(set_cell(m, t, wrap(cell(m, t) + 1)), tmp, wrap(cell(m, tmp) + 1)),
        s,
        wrap(cell(m, s) + 255),
    );
    assert(f.tape =~= want.tape);
    assert(f == want);
}

/// `copy`'s first loop drains `s` into both `t` and `tmp`.
proof fn lemma_split(s: int, t: int, tmp: int, m: Machine)
    requires
        m.ptr == s,
        s != t,
        s != tmp,
        t != tmp,
    ensures
        wellformed(loop_of(split_body(s, t, tmp))),
        runs(
            loop_of(split_body(s, t, tmp)),
            m,
            set_cell(
                set_cell(
                    set_cell(m, t, wrap(cell(m, t) + cell(m, s))),
                    tmp,
                    wrap(cell(m, tmp) + cell(m, s)),
                ),
                s,
                0,
            ),
        ),
    decreases cell(m, s),
{
    let body = split_body(s, t, tmp);
    lemma_split_body(s, t, tmp, m);
    lemma_wellformed_loop(body);
    let v = cell(m, s) as int;
    let a = cell(m, t) as int;
    let b = cell(m, tmp) as int;
    let want = set_cell(set_cell(set_cell(m, t, wrap(a + v)), tmp, wrap(b + v)), s, 0);
    if v == 0 {
        assert(want.tape =~= m.tape);
        assert(want == m);
        lemma_loop_exit(body, m);
    } else {
        let m1 = set_cell(
            set_cell(set_cell(m, t, wrap(a + 1)), tmp, wrap(b + 1)),
            s,
            wrap(v + 255),
        );
        lemma_split(s, t, tmp, m1);
        let got = set_cell(
            set_cell(
                set_cell(m1, t, wrap(cell(m1, t) + cell(m1, s))),
                tmp,
                wrap(cell(m1, tmp) + cell(m1, s)),
            ),
            s,
            0,
        );
        assert(wrap(wrap(a + 1) + (v - 1)) == wrap(a + v));
        assert(wrap(wrap(b + 1) + (v - 1)) == wrap(b + v));
        assert(got.tape =~= want.tape);
        assert(got == want);
        lemma_loop_iter(body, m, m1, want);
    }
}

/// Releasing one cell clears it and steps the pointer left (not below 0).
proof fn lemma_free_one(m: Machine)
    requires
        m.ptr >= 0,
    ensures
        wellformed(free_code(m.ptr, 1)),
        runs(free_code(m.ptr, 1), m, with_ptr(set_cell(m, m.ptr, 0), sat_sub(m.ptr, 1))),
{
    let p = m.ptr;
    assert(free_code(p, 0) =~= Seq::<u8>::empty());
    assert(free_code(p, 1) =~= clear_code() + back_code(p));
    lemma_clear(m);
    let c = set_cell(m, p, 0);
    if p > 0 {
        lemma_runs_step(LEFT, c);
        assert(step(LEFT, c) == with_ptr(c, p - 1));
        lemma_chain(clear_code(), back_code(p), m, c, with_ptr(c, p - 1));
    } else {
        assert(with_ptr(c, 0) == c);
        assert(back_code(p) =~= Seq::<u8>::empty());
        assert(run(Seq::<u8>::empty(), c, 0) == Some(c));
        assert(wellformed(Seq::<u8>::empty()));
        lemma_chain(clear_code(), back_code(p), m, c, c);
    }
    assert(clear_code() + back_code(p) == free_code(p, 1));
}

/// `copy(source, target)` through a transient cell `temp` that holds 0:
/// `target` ends holding what `source` holds, `source` and `temp` end as
/// they were, nothing else changes, and the pointer ends left of `temp`.
pub proof fn lemma_copy(c: int, source: int, target: int, temp: int, m: Machine)
    requires
        m.ptr == c,
        source != target,
        source != temp,
        target != temp,
        temp >= 0,
        cell(m, temp) == 0,
    ensures
        wellformed(copy_code(c, source, target, temp)),
        runs(
            copy_code(c, source, target, temp),
            m,
            with_ptr(set_cell(m, target, cell(m, source)), sat_sub(temp, 1)),
        ),
{
    let v = cell(m, source) as int;
    let m1 = with_ptr(m, temp);
    lemma_moves(c, temp, m);
    let m2 = with_ptr(m, target);
    lemma_moves(temp, target, m1);
    assert(with_ptr(m1, target) == m2);
    lemma_chain(moves(c, temp), moves(temp, target), m, m1, m2);
    let q2 = moves(c, temp) + moves(temp, target);
    let m3 = set_cell(m2, target, 0);
    lemma_clear(m2);
    lemma_chain(q2, clear_code(), m, m2, m3);
    let q3 = q2 + clear_code();
    let m4 = with_ptr(m3, source);
    lemma_moves(target, source, m3);
    lemma_chain(q3, moves(target, source), m, m3, m4);
    let q4 = q3 + moves(target, source);
    let body = split_body(source, target, temp);
    let l1 = seq![OPEN] + moves(source, target) + seq![INC] + moves(target, temp) + seq![INC]
        + moves(temp, source) + seq![DEC, CLOSE];
    assert(l1 =~= loop_of(body));
    lemma_split(source, target, temp, m4);
    let m5 = set_cell(
        set_cell(
            set_cell(m4, target, wrap(cell(m4, target) + cell(m4, source))),
            temp,
            wrap(cell(m4, temp) + cell(m4, source)),
        ),
        source,
        0,
    );
    lemma_chain(q4, l1, m, m4, m5);
    let q5 = q4 + l1;
    let m6 = with_ptr(m5, temp);
    lemma_moves(source, temp, m5);
    lemma_chain(q5, moves(source, temp), m, m5, m6);
    let q6 = q5 + moves(source, temp);
    lemma_add_to(temp, source, m6);
    let m7 = set_cell(
        set_cell(m6, source, wrap(cell(m6, source) + cell(m6, temp))),
        temp,
        0,
    );
    lemma_chain(q6, transfer_code(temp, source, INC), m, m6, m7);
    let q7 = q6 + transfer_code(temp, source, INC);
    lemma_free_one(m7);
    let m8 = with_ptr(set_cell(m7, temp, 0), sat_sub(temp, 1));
    lemma_chain(q7, free_code(temp, 1), m, m7, m8);
    assert(q7 + free_code(temp, 1) == copy_code(c, source, target, temp));
    let want = with_ptr(set_cell(m, target, cell(m, source)), sat_sub(temp, 1));
    assert(wrap(0 + v) == v);
    assert(m8.tape =~= want.tape);
    assert(m8 == want);
}

/// The body of `mul_to`'s loop.
pub open spec fn mul_body(start: int, pos: int, f: int) -> Seq<u8> {
    copy_code(start, f, f + 1, f + 2) + moves(f + 1, f + 1) + transfer_code(f + 1, pos, INC)
        + moves(f + 1, start) + seq![DEC]
}

/// The cells of `mul_to`: multiplier at `start`, target at `pos`, three
/// transient cells from `f`, all distinct.
pub open spec fn mul_layout(start: int, pos: int, f: int) -> bool {
    &&& f >= 0
    &&& start != pos
    &&& start != f && start != f + 1 && start != f + 2
    &&& pos != f && pos != f + 1 && pos != f + 2
}

proof fn lemma_mul_body(start: int, pos: int, f: int, m: Machine)
    requires
        m.ptr == start,
        mul_layout(start, pos, f),
        cell(m, f + 1) == 0,
        cell(m, f + 2) == 0,
    ensures
        wellformed(mul_body(start, pos, f)),
        runs(
            mul_body(start, pos, f),
            m,
            set_cell(
                set_cell(m, pos, wrap(cell(m, pos) + cell(m, f))),
                start,
                wrap(cell(m, start) + 255),
            ),
        ),
{
    let k = cell(m, f) as int;
    lemma_copy(start, f, f + 1, f + 2, m);
    let m1 = with_ptr(set_cell(m, f + 1, cell(m, f)), f + 1);
    assert(sat_sub(f + 2, 1) == f + 1);
    let q1 = copy_code(start, f, f + 1, f + 2);
    lemma_moves(f + 1, f + 1, m1);
    assert(with_ptr(m1, f + 1) == m1);
    lemma_chain(q1, moves(f + 1, f + 1), m, m1, m1);
    let q2 = q1 + moves(f + 1, f + 1);
    lemma_add_to(f + 1, pos, m1);
    let m2 = set_cell(set_cell(m1, pos, wrap(cell(m1, pos) + cell(m1, f + 1))), f + 1, 0);
    lemma_chain(q2, transfer_code(f + 1, pos, INC), m, m1, m2);
    let q3 = q2 + transfer_code(f + 1, pos, INC);
    let m3 = with_ptr(m2, start);
    lemma_moves(f + 1, start, m2);
    lemma_chain(q3, moves(f + 1, start), m, m2, m3);
    let q4 = q3 + moves(f + 1, start);
    let m4 = step(DEC, m3);
    lemma_runs_step(DEC, m3);
    lemma_chain(q4, seq![DEC], m, m3, m4);
    let want = set_cell(
        set_cell(m, pos, wrap(cell(m, pos) + k)),
        start,
        wrap(cell(m, start) + 255),
    );
    assert(m4.tape =~= want.tape);
    assert(m4 == want);
}

proof fn lemma_wrap_mul_step(acc: int, k: int, i: int)
    requires
        0 <= acc < 256,
        0 <= k,
        0 <= i,
    ensures
        i == 0 ==> wrap(acc + i * k) == acc,
        i >= 1 ==> wrap(wrap(acc + k) + (i - 1) * k) == wrap(acc + i * k),
{
    if i == 0 {
        assert(i * k == 0) by (nonlinear_arith)
            requires
                i == 0,
        ;
    } else {
        assert((acc + k) + (i - 1) * k == acc + i * k) by (nonlinear_arith);
        assert((i - 1) * k >= 0) by (nonlinear_arith)
            requires
                i >= 1,
                k >= 0,
        ;
        vstd::arithmetic::div_mod::lemma_add_mod_noop(acc + k, (i - 1) * k, 256);
        vstd::arithmetic::div_mod::lemma_mod_twice(acc + k, 256);
        vstd::arithmetic::div_mod::lemma_add_mod_noop((acc + k) % 256, (i - 1) * k, 256);
    }
}

proof fn lemma_mul_loop(start: int, pos: int, f: int, m: Machine)
    requires
        m.ptr == start,
        mul_layout(start, pos, f),
        cell(m, f + 1) == 0,
        cell(m, f + 2) == 0,
    ensures
        wellformed(mul_loop_code(start, pos, f)),
        runs(
            mul_loop_code(start, pos, f),
            m,
            set_cell(
                set_cell(m, pos, wrap(cell(m, pos) + cell(m, start) * cell(m, f))),
                start,
                0,
            ),
        ),
    decreases cell(m, start),
{
    let body = mul_body(start, pos, f);
    assert(mul_loop_code(start, pos, f) =~= loop_of(body));
    lemma_mul_body(start, pos, f, m);
    lemma_wellformed_loop(body);
    let i = cell(m, start) as int;
    let acc = cell(m, pos) as int;
    let k = cell(m, f) as int;
    let want = set_cell(set_cell(m, pos, wrap(acc + i * k)), start, 0);
    if i == 0 {
        lemma_wrap_mul_step(acc, k, i);
        assert(want.tape =~= m.tape);
        assert(want == m);
        lemma_loop_exit(body, m);
    } else {
        let m1 = set_cell(set_cell(m, pos, wrap(acc + k)), start, wrap(i + 255));
        assert(cell(m1, start) == i - 1);
        lemma_mul_loop(start, pos, f, m1);
        let got = set_cell(
            set_cell(m1, pos, wrap(cell(m1, pos) + cell(m1, start) * cell(m1, f))),
            start,
            0,
        );
        lemma_wrap_mul_step(acc, k, i);
        assert(got.tape =~= want.tape);
        assert(got == want);
        lemma_loop_iter(body, m, m1, want);
    }
}

/// `mul_to(pos)` with the multiplier `n` at `start`, the multiplicand `k`
/// at `pos` and the three cells from the frontier `f` at 0: `pos` ends at
/// `(n * k) mod 256`, `start` and the transient cells at 0, nothing else
/// changes, and the pointer ends left of `f`.
pub proof fn lemma_mul_to(start: int, pos: int, f: int, m: Machine)
    requires
        m.ptr == start,
        mul_layout(start, pos, f),
        cell(m, f) == 0,
        cell(m, f + 1) == 0,
        cell(m, f + 2) == 0,
    ensures
        wellformed(mul_code(start, pos, f)),
        runs(
            mul_code(start, pos, f),
            m,
            with_ptr(
                set_cell(set_cell(m, pos, wrap(cell(m, start) * cell(m, pos))), start, 0),
                sat_sub(f, 1),
            ),
        ),
{
    let n = cell(m, start) as int;
    let k = cell(m, pos) as int;
    let m1 = with_ptr(m, f);
    lemma_moves(start, f, m);
    lemma_copy(f, pos, f, f + 1, m1);
    let m2 = with_ptr(set_cell(m1, f, cell(m1, pos)), f);
    assert(sat_sub(f + 1, 1) == f);
    lemma_chain(moves(start, f), copy_code(f, pos, f, f + 1), m, m1, m2);
    let q2 = moves(start, f) + copy_code(f, pos, f, f + 1);
    let m3 = with_ptr(m2, f + 1);
    lemma_moves(f, f + 1, m2);
    lemma_chain(q2, moves(f, f + 1), m, m2, m3);
    let q3 = q2 + moves(f, f + 1);
    let m4 = with_ptr(m3, pos);
    lemma_moves(f + 1, pos, m3);
    lemma_chain(q3, moves(f + 1, pos), m, m3, m4);
    let q4 = q3 + moves(f + 1, pos);
    let m5 = set_cell(m4, pos, 0);
    lemma_clear(m4);
    lemma_chain(q4, clear_code(), m, m4, m5);
    let q5 = q4 + clear_code();
    let m6 = with_ptr(m5, start);
    lemma_moves(pos, start, m5);
    lemma_chain(q5, moves(pos, start), m, m5, m6);
    let q6 = q5 + moves(pos, start);
    lemma_mul_loop(start, pos, f, m6);
    let m7 = set_cell(
        set_cell(m6, pos, wrap(cell(m6, pos) + cell(m6, start) * cell(m6, f))),
        start,
        0,
    );
    lemma_chain(q6, mul_loop_code(start, pos, f), m, m6, m7);
    let q7 = q6 + mul_loop_code(start, pos, f);
    let m8 = with_ptr(m7, f + 1);
    lemma_moves(start, f + 1, m7);
    lemma_chain(q7, moves(start, f + 1), m, m7, m8);
    let q8 = q7 + moves(start, f + 1);
    lemma_free_one(m8);
    let m9 = with_ptr(set_cell(m8, f + 1, 0), f);
    lemma_chain(q8, free_code(f + 1, 1), m, m8, m9);
    let q9 = q8 + free_code(f + 1, 1);
    lemma_moves(f, f, m9);
    assert(with_ptr(m9, f) == m9);
    lemma_chain(q9, moves(f, f), m, m9, m9);
    let q10 = q9 + moves(f, f);
    lemma_free_one(m9);
    let m10 = with_ptr(set_cell(m9, f, 0), sat_sub(f, 1));
    lemma_chain(q10, free_code(f, 1), m, m9, m10);
    assert(q10 + free_code(f, 1) == mul_code(start, pos, f));
    let want = with_ptr(set_cell(set_cell(m, pos, wrap(n * k)), start, 0), sat_sub(f, 1));
    assert(m10.tape =~= want.tape);
    assert(m10 == want);
}

proof fn lemma_divmod_bytes()
    ensures
        divmod_code() == seq![
            OPEN, DEC, RIGHT, DEC, OPEN, RIGHT, INC, RIGHT, RIGHT, CLOSE, RIGHT, OPEN, INC, OPEN,
            DEC, LEFT, INC, RIGHT, CLOSE, RIGHT, INC, RIGHT, RIGHT, CLOSE, LEFT, LEFT, LEFT, LEFT,
            LEFT, CLOSE,
        ],
{
    reveal_strlit("[->-[>+>>]>[+[-<+>]>+>>]<<<<<]");
    reveal_with_fuel(program_of, 31);
    let t = DIVMOD_TEXT@;
    assert(t.len() == 30);
    assert(program_of(t) =~= seq![
            OPEN, DEC, RIGHT, DEC, OPEN, RIGHT, INC, RIGHT, RIGHT, CLOSE, RIGHT, OPEN, INC, OPEN,
            DEC, LEFT, INC, RIGHT, CLOSE, RIGHT, INC, RIGHT, RIGHT, CLOSE, LEFT, LEFT, LEFT, LEFT,
            LEFT, CLOSE,
        ]);
}

/// The body of the idiom's inner transfer: one unit from `s` to `t`.
pub open spec fn back_transfer_body(s: int, t: int) -> Seq<u8> {
    seq![DEC] + moves(s, t) + seq![INC] + moves(t, s)
}

proof fn lemma_back_transfer(s: int, t: int, m: Machine)
    requires
        m.ptr == s,
        s != t,
    ensures
        wellformed(loop_of(back_transfer_body(s, t))),
        runs(
            loop_of(back_transfer_body(s, t)),
            m,
            set_cell(set_cell(m, t, wrap(cell(m, t) + cell(m, s))), s, 0),
        ),
    decreases cell(m, s),
{
    let body = back_transfer_body(s, t);
    let v = cell(m, s) as int;
    let w = cell(m, t) as int;
    let a = step(DEC, m);
    lemma_runs_step(DEC, m);
    let b = with_ptr(a, t);
    lemma_moves(s, t, a);
    lemma_chain(seq![DEC], moves(s, t), m, a, b);
    let c = step(INC, b);
    lemma_runs_step(INC, b);
    lemma_chain(seq![DEC] + moves(s, t), seq![INC], m, b, c);
    let d = with_ptr(c, s);
    lemma_moves(t, s, c);
    lemma_chain(seq![DEC] + moves(s, t) + seq![INC], moves(t, s), m, c, d);
    lemma_wellformed_loop(body);
    let want = set_cell(set_cell(m, t, wrap(w + v)), s, 0);
    if v == 0 {
        assert(want.tape =~= m.tape);
        assert(want == m);
        lemma_loop_exit(body, m);
    } else {
        let m1 = set_cell(set_cell(m, t, wrap(w + 1)), s, wrap(v + 255));
        assert(d.tape =~= m1.tape);
        assert(d == m1);
        lemma_back_transfer(s, t, m1);
        let got = set_cell(set_cell(m1, t, wrap(cell(m1, t) + cell(m1, s))), s, 0);
        assert(wrap(wrap(w + 1) + (v - 1)) == wrap(w + v));
        assert(got.tape =~= want.tape);
        assert(got == want);
        lemma_loop_iter(body, m, m1, want);
    }
}

pub open spec fn div_x() -> Seq<u8> {
    seq![RIGHT, INC, RIGHT, RIGHT]
}

pub open spec fn div_z() -> Seq<u8> {
    seq![DEC, LEFT, INC, RIGHT]
}

pub open spec fn div_y() -> Seq<u8> {
    seq![INC] + loop_of(div_z()) + seq![RIGHT, INC, RIGHT, RIGHT]
}

/// One turn of the division idiom's loop.
pub open spec fn div_b() -> Seq<u8> {
    seq![DEC, RIGHT, DEC] + loop_of(div_x()) + seq![RIGHT] + loop_of(div_y()) + seq![
        LEFT,
        LEFT,
        LEFT,
        LEFT,
        LEFT,
    ]
}

/// The cells the idiom works on, from `p`: dividend, divisor, remainder
/// count, quotient count, then two cells that must hold 0.
pub open spec fn div_state(m: Machine, p: int, n: int, d: int, r: int, q: int) -> bool {
    &&& m.ptr == p
    &&& cell(m, p) == n
    &&& cell(m, p + 1) == d
    &&& cell(m, p + 2) == r
    &&& cell(m, p + 3) == q
    &&& cell(m, p + 4) == 0
    &&& cell(m, p + 5) == 0
}

proof fn lemma_div_turn(p: int, m: Machine, n: int, d: int, r: int, q: int)
    requires
        div_state(m, p, n, d, r, q),
        n >= 1,
        d >= 1,
        r + 1 < 256,
        q + 1 < 256,
        d == 1 ==> r >= 1,
    ensures
        wellformed(div_b()),
        d > 1 ==> runs(
            div_b(),
            m,
            set_cell(set_cell(set_cell(m, p, (n - 1) as u8), p + 1, (d - 1) as u8), p + 2, (r + 1) as u8),
        ),
        d == 1 ==> runs(
            div_b(),
            m,
            set_cell(
                set_cell(set_cell(set_cell(m, p, (n - 1) as u8), p + 1, (r + 1) as u8), p + 2, 0),
                p + 3,
                (q + 1) as u8,
            ),
        ),
{
    lemma_y_wellformed();
    lemma_wellformed_loop(div_x());
    lemma_wellformed_loop(div_y());
    let a1 = step(DEC, m);
    lemma_runs_step(DEC, m);
    let a2 = step(RIGHT, a1);
    lemma_runs_step(RIGHT, a1);
    lemma_chain(seq![DEC], seq![RIGHT], m, a1, a2);
    let a3 = step(DEC, a2);
    lemma_runs_step(DEC, a2);
    lemma_chain(seq![DEC] + seq![RIGHT], seq![DEC], m, a2, a3);
    assert(seq![DEC] + seq![RIGHT] + seq![DEC] =~= seq![DEC, RIGHT, DEC]);
    let h = seq![DEC, RIGHT, DEC];
    assert(a3.ptr == p + 1);
    assert(cell(a3, p + 1) == d - 1);
    // the first inner loop, as a one-cell step right and a count
    assert(div_x() =~= moves(p + 1, p + 2) + seq![INC] + moves(p + 2, p + 4));
    // body of the second inner loop
    assert(div_y() == seq![INC] + loop_of(div_z()) + seq![RIGHT, INC, RIGHT, RIGHT]);
    assert(div_z() =~= back_transfer_body(p + 2, p + 1));
    assert(seq![RIGHT, INC, RIGHT, RIGHT] =~= moves(p + 2, p + 3) + seq![INC] + moves(p + 3, p + 5));
    assert(seq![LEFT, LEFT, LEFT, LEFT, LEFT] =~= moves(p + 5, p));
    if d > 1 {
        let x1 = with_ptr(a3, p + 2);
        lemma_moves(p + 1, p + 2, a3);
        let x2 = step(INC, x1);
        lemma_runs_step(INC, x1);
        lemma_chain(moves(p + 1, p + 2), seq![INC], a3, x1, x2);
        let x3 = with_ptr(x2, p + 4);
        lemma_moves(p + 2, p + 4, x2);
        lemma_chain(moves(p + 1, p + 2) + seq![INC], moves(p + 2, p + 4), a3, x2, x3);
        lemma_loop_exit(div_x(), x3);
        lemma_loop_iter(div_x(), a3, x3, x3);
        lemma_chain(h, loop_of(div_x()), m, a3, x3);
        let x4 = step(RIGHT, x3);
        lemma_runs_step(RIGHT, x3);
        lemma_chain(h + loop_of(div_x()), seq![RIGHT], m, x3, x4);
        assert(x4.ptr == p + 5);
        // the second inner loop is skipped: its cell p + 5 holds 0
        lemma_loop_exit(div_y(), x4);
        lemma_chain(h + loop_of(div_x()) + seq![RIGHT], loop_of(div_y()), m, x4, x4);
        let x5 = with_ptr(x4, p);
        lemma_moves(p + 5, p, x4);
        lemma_chain(
            h + loop_of(div_x()) + seq![RIGHT] + loop_of(div_y()),
            moves(p + 5, p),
            m,
            x4,
            x5,
        );
        assert(h + loop_of(div_x()) + seq![RIGHT] + loop_of(div_y()) + moves(p + 5, p) == div_b());
        let want = set_cell(set_cell(set_cell(m, p, (n - 1) as u8), p + 1, (d - 1) as u8), p + 2, (r + 1) as u8);
        assert(x5.tape =~= want.tape);
        assert(x5 == want);
    } else {
        lemma_loop_exit(div_x(), a3);
        lemma_chain(h, loop_of(div_x()), m, a3, a3);
        let y0 = step(RIGHT, a3);
        lemma_runs_step(RIGHT, a3);
        lemma_chain(h + loop_of(div_x()), seq![RIGHT], m, a3, y0);
        assert(y0.ptr == p + 2);
        let y1 = step(INC, y0);
        lemma_runs_step(INC, y0);
        lemma_back_transfer(p + 2, p + 1, y1);
        let y2 = set_cell(set_cell(y1, p + 1, wrap(cell(y1, p + 1) + cell(y1, p + 2))), p + 2, 0);
        lemma_chain(seq![INC], loop_of(div_z()), y0, y1, y2);
        let y3 = with_ptr(y2, p + 3);
        lemma_moves(p + 2, p + 3, y2);
        lemma_chain(seq![INC] + loop_of(div_z()), moves(p + 2, p + 3), y0, y2, y3);
        let y4 = step(INC, y3);
        lemma_runs_step(INC, y3);
        lemma_chain(seq![INC] + loop_of(div_z()) + moves(p + 2, p + 3), seq![INC], y0, y3, y4);
        let y5 = with_ptr(y4, p + 5);
        lemma_moves(p + 3, p + 5, y4);
        lemma_chain(
            seq![INC] + loop_of(div_z()) + moves(p + 2, p + 3) + seq![INC],
            moves(p + 3, p + 5),
            y0,
            y4,
            y5,
        );
        assert(seq![INC] + loop_of(div_z()) + moves(p + 2, p + 3) + seq![INC] + moves(p + 3, p + 5)
            =~= div_y());
        lemma_loop_exit(div_y(), y5);
        lemma_loop_iter(div_y(), y0, y5, y5);
        lemma_chain(h + loop_of(div_x()) + seq![RIGHT], loop_of(div_y()), m, y0, y5);
        let y6 = with_ptr(y5, p);
        lemma_moves(p + 5, p, y5);
        lemma_chain(
            h + loop_of(div_x()) + seq![RIGHT] + loop_of(div_y()),
            moves(p + 5, p),
            m,
            y5,
            y6,
        );
        assert(h + loop_of(div_x()) + seq![RIGHT] + loop_of(div_y()) + moves(p + 5, p) == div_b());
        let want = set_cell(
            set_cell(set_cell(set_cell(m, p, (n - 1) as u8), p + 1, (r + 1) as u8), p + 2, 0),
            p + 3,
            (q + 1) as u8,
        );
        assert(y6.tape =~= want.tape);
        assert(y6 == want);
    }
}

proof fn lemma_flat(code: Seq<u8>)
    requires
        forall|i: int| 0 <= i < code.len() ==> code[i] != OPEN && code[i] != CLOSE,
    ensures
        wellformed(code),
    decreases code.len(),
{
    if code.len() > 0 {
        lemma_flat(code.drop_first());
    }
}

proof fn lemma_y_wellformed()
    ensures
        wellformed(div_x()),
        wellformed(div_z()),
        wellformed(div_y()),
{
    lemma_flat(div_x());
    lemma_flat(div_z());
    lemma_wellformed_loop(div_z());
    lemma_flat(seq![INC]);
    lemma_flat(seq![RIGHT, INC, RIGHT, RIGHT]);
    lemma_wellformed_concat(seq![INC], loop_of(div_z()));
    lemma_wellformed_concat(seq![INC] + loop_of(div_z()), seq![RIGHT, INC, RIGHT, RIGHT]);
}

proof fn lemma_div_succ(j: int, d0: int)
    requires
        0 <= j,
        2 <= d0,
    ensures
        0 <= j % d0 < d0,
        0 <= j / d0 <= j,
        j % d0 < d0 - 1 ==> (j + 1) % d0 == j % d0 + 1 && (j + 1) / d0 == j / d0,
        j % d0 == d0 - 1 ==> (j + 1) % d0 == 0 && (j + 1) / d0 == j / d0 + 1,
{
    vstd::arithmetic::div_mod::lemma_fundamental_div_mod(j, d0);
    let q = j / d0;
    let r = j % d0;
    assert(0 <= r < d0);
    assert(q >= 0 && q <= j) by {
        vstd::arithmetic::div_mod::lemma_div_pos_is_pos(j, d0);
        vstd::arithmetic::div_mod::lemma_div_is_ordered_by_denominator(j, 1, d0);
    }
    if r < d0 - 1 {
        assert(j + 1 == q * d0 + (r + 1)) by (nonlinear_arith)
            requires
                j == d0 * q + r,
        ;
        vstd::arithmetic::div_mod::lemma_fundamental_div_mod_converse(j + 1, d0, q, r + 1);
    } else {
        assert(j + 1 == (q + 1) * d0 + 0) by (nonlinear_arith)
            requires
                j == d0 * q + r,
                r == d0 - 1,
        ;
        vstd::arithmetic::div_mod::lemma_fundamental_div_mod_converse(j + 1, d0, q + 1, 0);
    }
}

proof fn lemma_div_b_wellformed()
    ensures
        wellformed(div_b()),
{
    lemma_y_wellformed();
    lemma_wellformed_loop(div_x());
    lemma_wellformed_loop(div_y());
    lemma_flat(seq![DEC, RIGHT, DEC]);
    lemma_flat(seq![RIGHT]);
    lemma_flat(seq![LEFT, LEFT, LEFT, LEFT, LEFT]);
    lemma_wellformed_concat(seq![DEC, RIGHT, DEC], loop_of(div_x()));
    lemma_wellformed_concat(seq![DEC, RIGHT, DEC] + loop_of(div_x()), seq![RIGHT]);
    lemma_wellformed_concat(seq![DEC, RIGHT, DEC] + loop_of(div_x()) + seq![RIGHT], loop_of(div_y()));
    lemma_wellformed_concat(
        seq![DEC, RIGHT, DEC] + loop_of(div_x()) + seq![RIGHT] + loop_of(div_y()),
        seq![LEFT, LEFT, LEFT, LEFT, LEFT],
    );
}

/// The cells after the idiom's loop has run `j` turns in all.
pub open spec fn div_after(m: Machine, p: int, d0: int, j: int) -> Machine {
    set_cell(
        set_cell(set_cell(set_cell(m, p, 0), p + 1, (d0 - j % d0) as u8), p + 2, (j % d0) as u8),
        p + 3,
        (j / d0) as u8,
    )
}

proof fn lemma_div_loop(p: int, d0: int, j: int, n: int, m: Machine)
    requires
        2 <= d0 <= 255,
        0 <= j,
        0 <= n,
        j + n <= 255,
        div_state(m, p, n, d0 - j % d0, j % d0, j / d0),
    ensures
        wellformed(loop_of(div_b())),
        runs(loop_of(div_b()), m, div_after(m, p, d0, j + n)),
    decreases n,
{
    lemma_div_succ(j, d0);
    lemma_div_b_wellformed();
    lemma_wellformed_loop(div_b());
    let want = div_after(m, p, d0, j + n);
    if n == 0 {
        assert(want.tape =~= m.tape);
        assert(want == m);
        lemma_loop_exit(div_b(), m);
    } else {
        let d = d0 - j % d0;
        let r = j % d0;
        let q = j / d0;
        lemma_div_turn(p, m, n, d, r, q);
        let m1 = if d > 1 {
            set_cell(set_cell(set_cell(m, p, (n - 1) as u8), p + 1, (d - 1) as u8), p + 2, (r + 1) as u8)
        } else {
            set_cell(
                set_cell(set_cell(set_cell(m, p, (n - 1) as u8), p + 1, (r + 1) as u8), p + 2, 0),
                p + 3,
                (q + 1) as u8,
            )
        };
        assert(div_state(m1, p, n - 1, d0 - (j + 1) % d0, (j + 1) % d0, (j + 1) / d0));
        lemma_div_loop(p, d0, j + 1, n - 1, m1);
        let got = div_after(m1, p, d0, j + 1 + (n - 1));
        assert(got.tape =~= want.tape);
        assert(got == want);
        lemma_loop_iter(div_b(), m, m1, want);
    }
}

/// `divmod_by` on dividend `n` at `p` and divisor `d` at `p + 1`, with the
/// four cells after them at 0: `p` ends holding `n / d`, `p + 1` holding
/// `n % d`, the scratch cells at 0 and the pointer at `p`. The embedded
/// division idiom needs `d >= 2`: with `d == 1` it walks off to the left.
pub proof fn lemma_divmod_by(p: int, m: Machine)
    requires
        m.ptr == p,
        cell(m, p + 1) >= 2,
        cell(m, p + 2) == 0,
        cell(m, p + 3) == 0,
        cell(m, p + 4) == 0,
        cell(m, p + 5) == 0,
    ensures
        wellformed(divmod_by_code(p)),
        runs(
            divmod_by_code(p),
            m,
            set_cell(
                set_cell(m, p, (cell(m, p) / cell(m, p + 1)) as u8),
                p + 1,
                (cell(m, p) % cell(m, p + 1)) as u8,
            ),
        ),
{
    let n = cell(m, p) as int;
    let d0 = cell(m, p + 1) as int;
    lemma_divmod_bytes();
    assert(divmod_code() =~= loop_of(div_b()));
    lemma_div_succ(0, d0);
    assert(0int % d0 == 0 && 0int / d0 == 0);
    lemma_div_loop(p, d0, 0, n, m);
    lemma_div_succ(n, d0);
    let m1 = div_after(m, p, d0, n);
    let code = divmod_code();
    let m2 = with_ptr(m1, p + 3);
    lemma_moves(p, p + 3, m1);
    lemma_chain(code, moves(p, p + 3), m, m1, m2);
    let c2 = code + moves(p, p + 3);
    lemma_add_to(p + 3, p, m2);
    let m3 = set_cell(set_cell(m2, p, wrap(cell(m2, p) + cell(m2, p + 3))), p + 3, 0);
    lemma_chain(c2, transfer_code(p + 3, p, INC), m, m2, m3);
    let c3 = c2 + transfer_code(p + 3, p, INC);
    let m4 = with_ptr(m3, p + 1);
    lemma_moves(p + 3, p + 1, m3);
    lemma_chain(c3, moves(p + 3, p + 1), m, m3, m4);
    let c4 = c3 + moves(p + 3, p + 1);
    let m5 = set_cell(m4, p + 1, 0);
    lemma_clear(m4);
    lemma_chain(c4, clear_code(), m, m4, m5);
    let c5 = c4 + clear_code();
    let m6 = with_ptr(m5, p + 2);
    lemma_moves(p + 1, p + 2, m5);
    lemma_chain(c5, moves(p + 1, p + 2), m, m5, m6);
    let c6 = c5 + moves(p + 1, p + 2);
    lemma_add_to(p + 2, p + 1, m6);
    let m7 = set_cell(set_cell(m6, p + 1, wrap(cell(m6, p + 1) + cell(m6, p + 2))), p + 2, 0);
    lemma_chain(c6, transfer_code(p + 2, p + 1, INC), m, m6, m7);
    let c7 = c6 + transfer_code(p + 2, p + 1, INC);
    let m8 = with_ptr(m7, p);
    lemma_moves(p + 2, p, m7);
    lemma_chain(c7, moves(p + 2, p), m, m7, m8);
    assert(c7 + moves(p + 2, p) == divmod_by_code(p));
    let want = set_cell(set_cell(m, p, (n / d0) as u8), p + 1, (n % d0) as u8);
    assert(m8.tape =~= want.tape);
    assert(m8 == want);
}

} // verus!
