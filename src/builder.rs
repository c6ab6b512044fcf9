//! The code builder: pointer tracking, cell allocation and structured
//! algorithms, all emitted as primitive instructions.
use std::collections::BTreeMap;
use vstd::prelude::*;
use crate::instr::{
    clear_code, code_of_text, is_instr, lemma_assoc, is_program, lemma_push_program, moves, program_of,
    push_rep, rep, text_of, to_text, CLOSE, DEC, IN, INC, LEFT, OPEN, OUT, RIGHT,
};
use crate::model::{Cells, MemoryModel};
use crate::optimizer::{lemma_trim_prefix, optimize, trim};

verus! {

/// `c - n`, stopping at zero.
pub open spec fn sat_sub(c: int, n: int) -> int {
    if c >= n {
        c - n
    } else {
        0
    }
}

/// A single left move, or nothing at position zero.
pub open spec fn back_code(c: int) -> Seq<u8> {
    if c > 0 {
        seq![LEFT]
    } else {
        Seq::empty()
    }
}

/// What releasing `n` cells emits with the pointer at `c`: each cell is
/// cleared, then the pointer steps left.
pub open spec fn free_code(c: int, n: nat) -> Seq<u8>
    decreases n,
{
    if n == 0 {
        Seq::empty()
    } else {
        free_code(c, (n - 1) as nat) + clear_code() + back_code(sat_sub(c, n - 1))
    }
}

/// `n` increments for a positive `delta`, else `-delta` decrements, the count
/// taken modulo 256 (the cell wraps, so the net effect is `delta`).
pub open spec fn step_code(delta: int) -> Seq<u8> {
    if delta > 0 {
        rep(INC, (delta % 256) as nat)
    } else {
        rep(DEC, ((-delta) % 256) as nat)
    }
}

/// Writing `bytes` into consecutive cells: each cell (cleared first when
/// `clearing`) is counted up to its byte, then the pointer steps right.
pub open spec fn write_code(bytes: Seq<u8>, clearing: bool) -> Seq<u8>
    decreases bytes.len(),
{
    if bytes.len() == 0 {
        Seq::empty()
    } else {
        write_code(bytes.drop_last(), clearing) + (if clearing {
            clear_code()
        } else {
            Seq::empty()
        }) + rep(INC, bytes.last() as nat) + seq![RIGHT]
    }
}

/// The loop that drains the cell at `start` into the cell at `pos`, one
/// unit per turn, applying `op` (an increment or a decrement) to `pos`.
pub open spec fn transfer_code(start: int, pos: int, op: u8) -> Seq<u8> {
    seq![OPEN] + moves(start, pos) + seq![op] + moves(pos, start) + seq![DEC, CLOSE]
}

/// `copy(source, target)` with the pointer at `c` and the transient cell at
/// `temp`: clear `target`, drain `source` into `target` and `temp`, drain
/// `temp` back into `source`, release `temp`.
pub open spec fn copy_code(c: int, source: int, target: int, temp: int) -> Seq<u8> {
    moves(c, temp) + moves(temp, target) + clear_code() + moves(target, source)
        + (seq![OPEN] + moves(source, target) + seq![INC] + moves(target, temp) + seq![INC]
        + moves(temp, source) + seq![DEC, CLOSE]) + moves(source, temp) + transfer_code(
        temp,
        source,
        INC,
    ) + free_code(temp, 1)
}

/// The loop of `mul_to`: while the multiplier at `start` is nonzero, copy
/// the saved multiplicand at `f` to `f + 1`, drain that into `pos`, and
/// count the multiplier down.
pub open spec fn mul_loop_code(start: int, pos: int, f: int) -> Seq<u8> {
    seq![OPEN] + copy_code(start, f, f + 1, f + 2) + moves(f + 1, f + 1) + transfer_code(
        f + 1,
        pos,
        INC,
    ) + moves(f + 1, start) + seq![DEC, CLOSE]
}

/// `mul_to(pos)` with the multiplier at `start` and the frontier at `f`: the
/// multiplicand is saved at `f`, `pos` cleared, the loop run, and both
/// transient cells released.
pub open spec fn mul_code(start: int, pos: int, f: int) -> Seq<u8> {
    moves(start, f) + copy_code(f, pos, f, f + 1) + moves(f, f + 1) + moves(f + 1, pos)
        + clear_code() + moves(pos, start) + mul_loop_code(start, pos, f) + moves(start, f + 1)
        + free_code(f + 1, 1) + moves(f, f) + free_code(f, 1)
}

/// The long-division idiom. From the pointer it reads dividend `n`, then
/// divisor `d`, then four cells that must hold 0. It ends at the dividend,
/// with the first four cells holding `0, d - n % d, n % d, n / d`. This
/// needs `d >= 2`: with `d == 1` the pointer drifts left.
pub const DIVMOD_TEXT: &'static str = "[->-[>+>>]>[+[-<+>]>+>>]<<<<<]";

/// Prints the current cell in decimal, ending where it started with every
/// other cell it touched at zero and the printed value back in its cell.
pub const PRINT_BYTE_TEXT: &'static str = ">>++++++++++<<[->+>-[>+>>]>[+[-<+>]>+>>]<<<<<<]>>[-]>>>++++++++++<[->-[>+>>]>[+[-<+>]>+>>]<<<<<]>[-]>>[>++++++[-<++++++++>]<.<<+>+>[-]]<[<[->-<]++++++[->++++++++<]>.[-]]<<++++++[-<++++++++>]<.[-]<<[-<+>]<";

pub open spec fn divmod_code() -> Seq<u8> {
    program_of(DIVMOD_TEXT@)
}

/// `div_by` at `p`: the quotient is drained into `p`, the rest cleared.
pub open spec fn div_code(p: int) -> Seq<u8> {
    divmod_code() + moves(p, p + 3) + transfer_code(p + 3, p, INC) + moves(p + 3, p + 1)
        + clear_code() + moves(p + 1, p + 2) + clear_code() + moves(p + 2, p)
}

/// `mod_by` at `p`: the remainder is drained into `p`, the rest cleared.
pub open spec fn mod_code(p: int) -> Seq<u8> {
    divmod_code() + moves(p, p + 2) + transfer_code(p + 2, p, INC) + moves(p + 2, p + 1)
        + clear_code() + moves(p + 1, p + 3) + clear_code() + moves(p + 3, p)
}

/// `divmod_by` at `p`: the quotient is drained into `p`, the remainder into
/// `p + 1`.
pub open spec fn divmod_by_code(p: int) -> Seq<u8> {
    divmod_code() + moves(p, p + 3) + transfer_code(p + 3, p, INC) + moves(p + 3, p + 1)
        + clear_code() + moves(p + 1, p + 2) + transfer_code(p + 2, p + 1, INC) + moves(p + 2, p)
}

/// Outputting `n` consecutive cells from the pointer.
pub open spec fn print_run_code(n: nat) -> Seq<u8>
    decreases n,
{
    if n == 0 {
        Seq::empty()
    } else {
        print_run_code((n - 1) as nat) + seq![OUT, RIGHT]
    }
}

/// The code point of a character.
pub open spec fn code_point(c: char) -> int {
    (c as u32) as int
}

/// Printing `t` on one cell that starts at 0: for each character the cell is
/// stepped by the difference from the previous code point, then output.
pub open spec fn text_code(t: Seq<char>) -> Seq<u8>
    decreases t.len(),
{
    if t.len() == 0 {
        Seq::empty()
    } else {
        let prev = if t.len() >= 2 {
            code_point(t[t.len() - 2])
        } else {
            0
        };
        text_code(t.drop_last()) + step_code(code_point(t.last()) - prev) + seq![OUT]
    }
}

/// Emits a program while tracking the pointer, the allocated cells and the
/// constant cells.
#[derive(Clone, Debug)]
pub struct Builder {
    pub model: MemoryModel,
    pub cursor: usize,
    pub result: Vec<u8>,
    pub constants: BTreeMap<u8, usize>,
}

impl Builder {
    /// The emitted code holds only the eight instructions.
    pub open spec fn wf(&self) -> bool {
        is_program(self.result@)
    }

    /// `self` is `before` with `code` appended, the pointer at `cursor` and
    /// the frontier at `frontier`; stored runs and constants are kept.
    pub open spec fn emits(self, before: Self, code: Seq<u8>, cursor: int, frontier: int) -> bool {
        &&& self.wf()
        &&& self.result@ == before.result@ + code
        &&& self.cursor == cursor
        &&& self.model.size == frontier
        &&& self.model.memory@ == before.model.memory@
        &&& self.constants@ == before.constants@
    }

    fn emit(&mut self, b: u8)
        requires
            old(self).wf(),
            is_instr(b),
        ensures
            final(self).emits(*old(self), seq![b], old(self).cursor as int, old(self).model.size as int),
    {
        proof {
            lemma_push_program(self.result@, b);
        }
        self.result.push(b);
        assert(self.result@ =~= old(self).result@ + seq![b]);
    }

    fn emit_rep(&mut self, b: u8, n: usize)
        requires
            old(self).wf(),
            is_instr(b),
        ensures
            final(self).emits(*old(self), rep(b, n as nat), old(self).cursor as int, old(self).model.size as int),
    {
        let ghost before = self.result@;
        push_rep(&mut self.result, b, n);
        assert forall|i: int| 0 <= i < self.result@.len() implies is_instr(
            #[trigger] self.result@[i],
        ) by {
            if i >= before.len() {
                assert(self.result@[i] == rep(b, n as nat)[i - before.len()]);
            } else {
                assert(self.result@[i] == before[i]);
            }
        }
    }

    fn emit_code(&mut self, code: &Vec<u8>)
        requires
            old(self).wf(),
            is_program(code@),
        ensures
            final(self).emits(*old(self), code@, old(self).cursor as int, old(self).model.size as int),
    {
        let mut i: usize = 0;
        while i < code.len()
            invariant
                0 <= i <= code.len(),
                is_program(code@),
                self.emits(*old(self), code@.take(i as int), old(self).cursor as int, old(self).model.size as int),
            decreases code.len() - i,
        {
            assert(is_instr(code@[i as int]));
            self.emit(code[i]);
            i = i + 1;
            assert(code@.take(i as int) =~= code@.take(i - 1).push(code@[i - 1]));
            assert(self.result@ =~= old(self).result@ + code@.take(i as int));
        }
        assert(code@.take(code.len() as int) =~= code@);
    }

    /// A builder with the constant cell for 0 at position 0, pointer there.
    pub fn new() -> (r: Self)
        ensures
            r.wf(),
            r.cursor == 0,
            r.result@ == Seq::<u8>::empty(),
            r.model.size == 1,
            r.model.memory@ == Map::<usize, Cells>::empty(),
            r.constants@ == map![0u8 => 0usize],
    {
        let mut s = Builder {
            model: MemoryModel::new(),
            cursor: 0,
            result: Vec::new(),
            constants: BTreeMap::new(),
        };
        s.new_constant(0);
        assert(s.result@ =~= Seq::<u8>::empty());
        assert(s.constants@ =~= map![0u8 => 0usize]);
        s
    }

    /*
        Allocating
     */

    /// Allocates one cell, sets it to `value` and records it as the constant
    /// cell for that value.
    pub fn new_constant(&mut self, value: u8) -> (r: &mut Self)
        requires
            old(self).wf(),
            old(self).model.size < usize::MAX,
        ensures
            r.wf(),
            r.result@ == old(self).result@ + moves(old(self).cursor as int, old(self).model.size as int) + rep(INC, value as nat),
            r.cursor == old(self).model.size,
            r.model.size == old(self).model.size + 1,
            r.model.memory@ == old(self).model.memory@,
            r.constants@ == old(self).constants@.insert(value, old(self).model.size as usize),
            *final(self) == *final(r),
    {
        let cell = self.n_cells(1);
        self.goto(cell.position).add(value);
        self.constants.insert(value, cell.position);
        self
    }

    /// Allocates `size` cells and moves the pointer to the first of them.
    pub fn n_cells(&mut self, size: usize) -> (r: Cells)
        requires
            old(self).wf(),
            old(self).model.size + size <= usize::MAX,
        ensures
            r.position == old(self).model.size,
            r.size == size,
            final(self).emits(*old(self), moves(old(self).cursor as int, r.position as int), r.position as int, old(self).model.size + size),
    {
        let cell = self.model.allocate(size);
        self.goto(cell.position);
        cell
    }

    /// Allocates one cell and sets it to `n`.
    pub fn new_byte(&mut self, n: u8) -> (r: Cells)
        requires
            old(self).wf(),
            old(self).model.size < usize::MAX,
        ensures
            r.position == old(self).model.size,
            r.size == 1,
            final(self).emits(*old(self), moves(old(self).cursor as int, r.position as int) + rep(INC, n as nat), r.position as int, old(self).model.size + 1),
    {
        let cell = self.model.allocate(1);
        self.goto(cell.position);
        self.add(n);
        assert(self.result@ =~= old(self).result@ + (moves(old(self).cursor as int, cell.position as int) + rep(INC, n as nat)));
        cell
    }

    /// Allocates one cell and moves the pointer to it.
    pub fn new_cell(&mut self) -> (r: &mut Self)
        requires
            old(self).wf(),
            old(self).model.size < usize::MAX,
        ensures
            r.emits(*old(self), moves(old(self).cursor as int, old(self).model.size as int), old(self).model.size as int, old(self).model.size + 1),
            *final(self) == *final(r),
    {
        let cell = self.model.allocate(1);
        self.goto(cell.position);
        self
    }

    /// Releases the `size` cells allocated last, clearing them one by one
    /// from the pointer leftwards.
    pub fn free_last_n(&mut self, size: usize) -> (r: &mut Self)
        requires
            old(self).wf(),
            size <= old(self).model.size,
        ensures
            r.emits(*old(self), free_code(old(self).cursor as int, size as nat), sat_sub(old(self).cursor as int, size as int), old(self).model.size - size),
            *final(self) == *final(r),
    {
        self.model.free(size);
        let mut i: usize = 0;
        while i < size
            invariant
                0 <= i <= size,
                self.emits(*old(self), free_code(old(self).cursor as int, i as nat), sat_sub(old(self).cursor as int, i as int), old(self).model.size - size),
            decreases size - i,
        {
            self.clear();
            self.back();
            i = i + 1;
            assert(self.result@ =~= old(self).result@ + free_code(old(self).cursor as int, i as nat));
        }
        self
    }

    /*
        Positioning
     */

    /// Moves the pointer to `index` by the shortest run of moves.
    pub fn goto(&mut self, index: usize) -> (r: &mut Self)
        requires
            old(self).wf(),
        ensures
            r.emits(*old(self), moves(old(self).cursor as int, index as int), index as int, old(self).model.size as int),
            *final(self) == *final(r),
    {
        if index > self.cursor {
            let n = index - self.cursor;
            self.emit_rep(RIGHT, n);
        } else {
            let n = self.cursor - index;
            self.emit_rep(LEFT, n);
        }
        self.cursor = index;
        self
    }

    /// Moves the pointer one cell right.
    pub fn advance(&mut self) -> (r: &mut Self)
        requires
            old(self).wf(),
            old(self).cursor < usize::MAX,
        ensures
            r.emits(*old(self), seq![RIGHT], old(self).cursor + 1, old(self).model.size as int),
            *final(self) == *final(r),
    {
        self.emit(RIGHT);
        self.cursor = self.cursor + 1;
        self
    }

    /// Moves the pointer one cell left; at position zero it does nothing.
    pub fn back(&mut self) -> (r: &mut Self)
        requires
            old(self).wf(),
        ensures
            r.emits(*old(self), back_code(old(self).cursor as int), sat_sub(old(self).cursor as int, 1), old(self).model.size as int),
            *final(self) == *final(r),
    {
        if self.cursor > 0 {
            self.emit(LEFT);
            self.cursor = self.cursor - 1;
        } else {
            assert(self.result@ =~= old(self).result@ + back_code(old(self).cursor as int));
        }
        self
    }

    /*
        Writing/Clearing
     */

    /// Drives the current cell to zero.
    pub fn clear(&mut self) -> (r: &mut Self)
        requires
            old(self).wf(),
        ensures
            r.emits(*old(self), clear_code(), old(self).cursor as int, old(self).model.size as int),
            *final(self) == *final(r),
    {
        self.emit(OPEN);
        self.emit(DEC);
        self.emit(CLOSE);
        assert(self.result@ =~= old(self).result@ + clear_code());
        self
    }

    /// Sets the current cell to `byte`, whatever it held.
    pub fn override_one_byte(&mut self, byte: u8) -> (r: &mut Self)
        requires
            old(self).wf(),
        ensures
            r.emits(*old(self), clear_code() + rep(INC, byte as nat), old(self).cursor as int, old(self).model.size as int),
            *final(self) == *final(r),
    {
        self.clear();
        self.add(byte);
        assert(self.result@ =~= old(self).result@ + (clear_code() + rep(INC, byte as nat)));
        self
    }

    /*
        Arithmetic
     */

    /// Increments the current cell `amount` times.
    pub fn add(&mut self, amount: u8) -> (r: &mut Self)
        requires
            old(self).wf(),
        ensures
            r.emits(*old(self), rep(INC, amount as nat), old(self).cursor as int, old(self).model.size as int),
            *final(self) == *final(r),
    {
        self.emit_rep(INC, amount as usize);
        self
    }

    /// Decrements the current cell `amount` times.
    pub fn sub(&mut self, amount: u8) -> (r: &mut Self)
        requires
            old(self).wf(),
        ensures
            r.emits(*old(self), rep(DEC, amount as nat), old(self).cursor as int, old(self).model.size as int),
            *final(self) == *final(r),
    {
        self.emit_rep(DEC, amount as usize);
        self
    }

    /// Adds the signed `amount` to the current cell: increments for a
    /// positive amount, decrements otherwise, `|amount| mod 256` of them.
    pub fn adjust(&mut self, amount: i16) -> (r: &mut Self)
        requires
            old(self).wf(),
        ensures
            r.emits(*old(self), step_code(amount as int), old(self).cursor as int, old(self).model.size as int),
            *final(self) == *final(r),
    {
        let m: i32 = amount as i32;
        if m > 0 {
            self.add((m % 256) as u8);
        } else {
            self.sub(((-m) % 256) as u8);
        }
        self
    }

    /*
        Control
     */

    /// Opens a conditional: the body runs if the current cell is nonzero.
    pub fn start_if(&mut self) -> (r: &mut Self)
        requires
            old(self).wf(),
        ensures
            r.emits(*old(self), seq![OPEN], old(self).cursor as int, old(self).model.size as int),
            *final(self) == *final(r),
    {
        self.emit(OPEN);
        self
    }

    /// Closes a conditional: clears the current cell, so that the body runs
    /// at most once.
    pub fn end_if(&mut self) -> (r: &mut Self)
        requires
            old(self).wf(),
        ensures
            r.emits(*old(self), clear_code().push(CLOSE), old(self).cursor as int, old(self).model.size as int),
            *final(self) == *final(r),
    {
        self.clear();
        self.emit(CLOSE);
        assert(self.result@ =~= old(self).result@ + clear_code().push(CLOSE));
        self
    }

    /// Opens a loop that repeats while the current cell is nonzero.
    pub fn start_while(&mut self) -> (r: &mut Self)
        requires
            old(self).wf(),
        ensures
            r.emits(*old(self), seq![OPEN], old(self).cursor as int, old(self).model.size as int),
            *final(self) == *final(r),
    {
        self.emit(OPEN);
        self
    }

    /// Moves the pointer back to the loop's test cell `pos`, then closes the
    /// loop.
    pub fn end_while(&mut self, pos: usize) -> (r: &mut Self)
        requires
            old(self).wf(),
        ensures
            r.emits(*old(self), moves(old(self).cursor as int, pos as int).push(CLOSE), pos as int, old(self).model.size as int),
            *final(self) == *final(r),
    {
        self.goto(pos);
        self.emit(CLOSE);
        assert(self.result@ =~= old(self).result@ + moves(old(self).cursor as int, pos as int).push(CLOSE));
        self
    }

    /// Closes a loop where the pointer stands.
    pub fn end_while_unchecked(&mut self) -> (r: &mut Self)
        requires
            old(self).wf(),
        ensures
            r.emits(*old(self), seq![CLOSE], old(self).cursor as int, old(self).model.size as int),
            *final(self) == *final(r),
    {
        self.emit(CLOSE);
        self
    }

    /*
        I/O
     */

    /// Outputs the current cell.
    pub fn print_ascii(&mut self) -> (r: &mut Self)
        requires
            old(self).wf(),
        ensures
            r.emits(*old(self), seq![OUT], old(self).cursor as int, old(self).model.size as int),
            *final(self) == *final(r),
    {
        self.emit(OUT);
        self
    }

    /// Reads one byte of input into the current cell.
    pub fn input_byte(&mut self) -> (r: &mut Self)
        requires
            old(self).wf(),
        ensures
            r.emits(*old(self), seq![IN], old(self).cursor as int, old(self).model.size as int),
            *final(self) == *final(r),
    {
        self.emit(IN);
        self
    }

    /// Allocates `bytes.len()` cells and writes each byte into its cell,
    /// clearing the cell first; the pointer ends just past the run.
    pub fn write_bytes(&mut self, bytes: &[u8]) -> (r: Cells)
        requires
            old(self).wf(),
            old(self).model.size + bytes@.len() <= usize::MAX,
        ensures
            r.position == old(self).model.size,
            r.size == bytes@.len(),
            final(self).emits(*old(self), moves(old(self).cursor as int, r.position as int) + write_code(bytes@, true), r.position + bytes@.len(), old(self).model.size + bytes@.len()),
    {
        self.write_run(bytes, true)
    }

    /// As `write_bytes`, without clearing: only for freshly allocated cells,
    /// which hold zero.
    pub fn write_bytes_unchecked(&mut self, bytes: &[u8]) -> (r: Cells)
        requires
            old(self).wf(),
            old(self).model.size + bytes@.len() <= usize::MAX,
        ensures
            r.position == old(self).model.size,
            r.size == bytes@.len(),
            final(self).emits(*old(self), moves(old(self).cursor as int, r.position as int) + write_code(bytes@, false), r.position + bytes@.len(), old(self).model.size + bytes@.len()),
    {
        self.write_run(bytes, false)
    }

    fn write_run(&mut self, bytes: &[u8], clearing: bool) -> (r: Cells)
        requires
            old(self).wf(),
            old(self).model.size + bytes@.len() <= usize::MAX,
        ensures
            r.position == old(self).model.size,
            r.size == bytes@.len(),
            final(self).emits(*old(self), moves(old(self).cursor as int, r.position as int) + write_code(bytes@, clearing), r.position + bytes@.len(), old(self).model.size + bytes@.len()),
    {
        let cells = self.n_cells(bytes.len());
        let ghost head = self.result@;
        let mut i: usize = 0;
        while i < bytes.len()
            invariant
                0 <= i <= bytes@.len(),
                cells.position == old(self).model.size,
                cells.size == bytes@.len(),
                cells.position + bytes@.len() <= usize::MAX,
                head == old(self).result@ + moves(old(self).cursor as int, cells.position as int),
                self.emits(*old(self), moves(old(self).cursor as int, cells.position as int) + write_code(bytes@.take(i as int), clearing), cells.position + i, old(self).model.size + bytes@.len()),
            decreases bytes@.len() - i,
        {
            let b = bytes[i];
            if clearing {
                self.override_one_byte(b);
            } else {
                self.add(b);
            }
            self.advance();
            i = i + 1;
            assert(bytes@.take(i as int).drop_last() =~= bytes@.take(i - 1));
            assert(self.result@ =~= old(self).result@ + (moves(old(self).cursor as int, cells.position as int) + write_code(bytes@.take(i as int), clearing)));
        }
        assert(bytes@.take(bytes@.len() as int) =~= bytes@);
        cells
    }

    /*
        Arithmetic algorithms
     */

    /// Consumes the current cell, adding its value into the cell at `pos`.
    pub fn add_to(&mut self, pos: usize) -> (r: &mut Self)
        requires
            old(self).wf(),
        ensures
            r.emits(*old(self), transfer_code(old(self).cursor as int, pos as int, INC), old(self).cursor as int, old(self).model.size as int),
            *final(self) == *final(r),
    {
        let start = self.cursor;
        self.start_while().goto(pos).add(1).goto(start).sub(1).end_while_unchecked();
        assert(rep(INC, 1) =~= seq![INC]);
        assert(rep(DEC, 1) =~= seq![DEC]);
        assert(self.result@ =~= old(self).result@ + transfer_code(start as int, pos as int, INC));
        self
    }

    /// Consumes the current cell, subtracting its value from the cell at `pos`.
    pub fn sub_from(&mut self, pos: usize) -> (r: &mut Self)
        requires
            old(self).wf(),
        ensures
            r.emits(*old(self), transfer_code(old(self).cursor as int, pos as int, DEC), old(self).cursor as int, old(self).model.size as int),
            *final(self) == *final(r),
    {
        let start = self.cursor;
        self.start_while().goto(pos).sub(1).goto(start).sub(1).end_while_unchecked();
        assert(rep(DEC, 1) =~= seq![DEC]);
        assert(self.result@ =~= old(self).result@ + transfer_code(start as int, pos as int, DEC));
        self
    }

    /// Consumes the current cell as a multiplier and multiplies the cell at
    /// `pos` by it, using transient cells at the frontier; the pointer ends
    /// one cell left of the frontier.
    pub fn mul_to(&mut self, pos: usize) -> (r: &mut Self)
        requires
            old(self).wf(),
            old(self).model.size + 3 <= usize::MAX,
        ensures
            r.emits(*old(self), mul_code(old(self).cursor as int, pos as int, old(self).model.size as int), sat_sub(old(self).model.size as int, 1), old(self).model.size as int),
            *final(self) == *final(r),
    {
        let ghost f = self.model.size as int;
        let ghost base = self.result@;
        let start = self.cursor;
        let saved = self.n_cells(1);
        let ghost mut acc = moves(start as int, f);
        self.copy(pos, saved.position);
        proof {
            lemma_assoc(base, acc, copy_code(f, pos as int, f, f + 1));
            acc = acc + copy_code(f, pos as int, f, f + 1);
        }
        let temp = self.n_cells(1);
        proof {
            lemma_assoc(base, acc, moves(f, f + 1));
            acc = acc + moves(f, f + 1);
        }
        self.goto(pos);
        proof {
            lemma_assoc(base, acc, moves(f + 1, pos as int));
            acc = acc + moves(f + 1, pos as int);
        }
        self.clear();
        proof {
            lemma_assoc(base, acc, clear_code());
            acc = acc + clear_code();
        }
        self.goto(start);
        proof {
            lemma_assoc(base, acc, moves(pos as int, start as int));
            acc = acc + moves(pos as int, start as int);
        }
        self.mul_loop(start, pos, saved.position, temp.position);
        proof {
            lemma_assoc(base, acc, mul_loop_code(start as int, pos as int, f));
            acc = acc + mul_loop_code(start as int, pos as int, f);
        }
        self.goto(temp.position);
        proof {
            lemma_assoc(base, acc, moves(start as int, f + 1));
            acc = acc + moves(start as int, f + 1);
        }
        self.free_last_n(1);
        proof {
            lemma_assoc(base, acc, free_code(f + 1, 1));
            acc = acc + free_code(f + 1, 1);
        }
        self.goto(saved.position);
        proof {
            lemma_assoc(base, acc, moves(f, f));
            acc = acc + moves(f, f);
        }
        self.free_last_n(1);
        proof {
            lemma_assoc(base, acc, free_code(f, 1));
            acc = acc + free_code(f, 1);
        }
        assert(self.result@ == old(self).result@ + mul_code(start as int, pos as int, f));
        self
    }

    fn mul_loop(&mut self, start: usize, pos: usize, saved: usize, temp: usize)
        requires
            old(self).wf(),
            old(self).cursor == start,
            saved + 1 == temp,
            temp + 1 == old(self).model.size,
            old(self).model.size + 1 <= usize::MAX,
        ensures
            final(self).emits(*old(self), mul_loop_code(start as int, pos as int, saved as int), start as int, old(self).model.size as int),
    {
        self.start_while();
        self.copy(saved, temp);
        let ghost r1 = self.result@;
        self.goto(temp).add_to(pos).goto(start).sub(1).end_while_unchecked();
        assert(rep(DEC, 1) =~= seq![DEC]);
        assert(self.result@ =~= r1 + (moves(temp as int, temp as int) + transfer_code(temp as int, pos as int, INC) + moves(temp as int, start as int) + seq![DEC, CLOSE]));
        assert(self.result@ =~= old(self).result@ + mul_loop_code(start as int, pos as int, saved as int));
    }

    /// Divides the dividend at the pointer by the divisor in the next cell.
    /// The pointer's cell becomes the quotient; the three cells after it
    /// end at zero.
    pub fn div_by(&mut self) -> (r: &mut Self)
        requires
            old(self).wf(),
            old(self).cursor + 3 <= usize::MAX,
        ensures
            r.emits(*old(self), div_code(old(self).cursor as int), old(self).cursor as int, old(self).model.size as int),
            *final(self) == *final(r),
    {
        self.emit_code(&code_of_text(DIVMOD_TEXT));
        let here = self.cursor;
        let divisor = self.cursor + 1;
        let rem = self.cursor + 2;
        let quo = self.cursor + 3;
        self.goto(quo).add_to(here);
        self.goto(divisor).clear().goto(rem).clear();
        self.goto(here);
        assert(self.result@ =~= old(self).result@ + div_code(here as int));
        self
    }

    /// As `div_by`, but the pointer's cell becomes the remainder.
    pub fn mod_by(&mut self) -> (r: &mut Self)
        requires
            old(self).wf(),
            old(self).cursor + 3 <= usize::MAX,
        ensures
            r.emits(*old(self), mod_code(old(self).cursor as int), old(self).cursor as int, old(self).model.size as int),
            *final(self) == *final(r),
    {
        self.emit_code(&code_of_text(DIVMOD_TEXT));
        let here = self.cursor;
        let divisor = self.cursor + 1;
        let rem = self.cursor + 2;
        let quo = self.cursor + 3;
        self.goto(rem).add_to(here);
        self.goto(divisor).clear().goto(quo).clear();
        self.goto(here);
        assert(self.result@ =~= old(self).result@ + mod_code(here as int));
        self
    }

    /// As `div_by`, and the divisor's cell becomes the remainder.
    pub fn divmod_by(&mut self) -> (r: &mut Self)
        requires
            old(self).wf(),
            old(self).cursor + 3 <= usize::MAX,
        ensures
            r.emits(*old(self), divmod_by_code(old(self).cursor as int), old(self).cursor as int, old(self).model.size as int),
            *final(self) == *final(r),
    {
        self.emit_code(&code_of_text(DIVMOD_TEXT));
        let here = self.cursor;
        let divisor = self.cursor + 1;
        let rem = self.cursor + 2;
        let quo = self.cursor + 3;
        self.goto(quo).add_to(here);
        self.goto(divisor).clear().goto(rem).add_to(divisor);
        self.goto(here);
        assert(self.result@ =~= old(self).result@ + divmod_by_code(here as int));
        self
    }

    /*
        Algorithms
     */

    /// Copies the value at `source` into `target`, leaving `source` as it
    /// was, through one transient cell at the frontier; the pointer ends one
    /// cell left of that cell.
    pub fn copy(&mut self, source: usize, target: usize) -> (r: &mut Self)
        requires
            old(self).wf(),
            old(self).model.size + 1 <= usize::MAX,
        ensures
            r.emits(*old(self), copy_code(old(self).cursor as int, source as int, target as int, old(self).model.size as int), sat_sub(old(self).model.size as int, 1), old(self).model.size as int),
            *final(self) == *final(r),
    {
        let ghost c = self.cursor as int;
        let ghost base = self.result@;
        let temp = self.n_cells(1).position;
        let ghost mut acc = moves(c, temp as int);
        self.goto(target);
        proof {
            lemma_assoc(base, acc, moves(temp as int, target as int));
            acc = acc + moves(temp as int, target as int);
        }
        self.clear();
        proof {
            lemma_assoc(base, acc, clear_code());
            acc = acc + clear_code();
        }
        self.goto(source);
        proof {
            lemma_assoc(base, acc, moves(target as int, source as int));
            acc = acc + moves(target as int, source as int);
        }
        let ghost r1 = self.result@;
        self.start_while().goto(target).add(1).goto(temp).add(1).goto(source).sub(1).end_while_unchecked();
        let ghost split = seq![OPEN] + moves(source as int, target as int) + seq![INC] + moves(target as int, temp as int) + seq![INC] + moves(temp as int, source as int) + seq![DEC, CLOSE];
        assert(rep(INC, 1) =~= seq![INC]);
        assert(rep(DEC, 1) =~= seq![DEC]);
        assert(self.result@ =~= r1 + split);
        proof {
            lemma_assoc(base, acc, split);
            acc = acc + split;
        }
        self.goto(temp);
        proof {
            lemma_assoc(base, acc, moves(source as int, temp as int));
            acc = acc + moves(source as int, temp as int);
        }
        let ghost r2 = self.result@;
        self.start_while().goto(source).add(1).goto(temp).sub(1).end_while_unchecked();
        assert(self.result@ =~= r2 + transfer_code(temp as int, source as int, INC));
        proof {
            lemma_assoc(base, acc, transfer_code(temp as int, source as int, INC));
            acc = acc + transfer_code(temp as int, source as int, INC);
        }
        self.goto(temp);
        assert(moves(temp as int, temp as int) =~= Seq::<u8>::empty());
        assert(self.result@ =~= r2 + transfer_code(temp as int, source as int, INC));
        self.free_last_n(1);
        proof {
            lemma_assoc(base, acc, free_code(temp as int, 1));
            acc = acc + free_code(temp as int, 1);
        }
        assert(self.result@ == old(self).result@ + copy_code(c, source as int, target as int, temp as int));
        self
    }

    /*
        Printing
     */

    /// Outputs each cell of `cells` in order; the pointer ends just past them.
    pub fn print_cells(&mut self, cells: Cells) -> (r: &mut Self)
        requires
            old(self).wf(),
            cells.position + cells.size <= usize::MAX,
        ensures
            r.emits(*old(self), moves(old(self).cursor as int, cells.position as int) + print_run_code(cells.size as nat), cells.position + cells.size, old(self).model.size as int),
            *final(self) == *final(r),
    {
        let orig = cells.position;
        self.goto(orig);
        let mut i: usize = 0;
        while i < cells.size
            invariant
                0 <= i <= cells.size,
                cells.position + cells.size <= usize::MAX,
                self.emits(*old(self), moves(old(self).cursor as int, cells.position as int) + print_run_code(i as nat), cells.position + i, old(self).model.size as int),
            decreases cells.size - i,
        {
            self.emit(OUT);
            self.advance();
            i = i + 1;
            assert(self.result@ =~= old(self).result@ + (moves(old(self).cursor as int, cells.position as int) + print_run_code(i as nat)));
        }
        self
    }

    /// Consumes the current cell and prints its value in decimal, without
    /// leading zeros; every cell it touches ends at zero.
    pub fn print_as_byte(&mut self) -> (r: &mut Self)
        requires
            old(self).wf(),
        ensures
            r.emits(*old(self), program_of(PRINT_BYTE_TEXT@) + clear_code(), old(self).cursor as int, old(self).model.size as int),
            *final(self) == *final(r),
    {
        self.emit_code(&code_of_text(PRINT_BYTE_TEXT));
        self.clear();
        assert(self.result@ =~= old(self).result@ + (program_of(PRINT_BYTE_TEXT@) + clear_code()));
        self
    }

    /// Prints `string` through a scratch cell allocated and freed around it.
    pub fn just_print(&mut self, string: &str) -> (r: &mut Self)
        requires
            old(self).wf(),
            old(self).model.size < usize::MAX,
        ensures
            r.emits(*old(self), moves(old(self).cursor as int, old(self).model.size as int) + text_code(string@) + clear_code() + free_code(old(self).model.size as int, 1), sat_sub(old(self).model.size as int, 1), old(self).model.size as int),
            *final(self) == *final(r),
    {
        let c = self.n_cells(1);
        self.goto(c.position);
        self.just_print_here(string);
        self.free_last_n(1);
        assert(moves(c.position as int, c.position as int) =~= Seq::<u8>::empty());
        assert(self.result@ =~= old(self).result@ + (moves(old(self).cursor as int, old(self).model.size as int) + text_code(string@) + clear_code() + free_code(old(self).model.size as int, 1)));
        self
    }

    /// Prints `string` on the current cell, which must hold zero, stepping
    /// it from one code point to the next; the cell is cleared afterwards.
    pub fn just_print_here(&mut self, string: &str) -> (r: &mut Self)
        requires
            old(self).wf(),
        ensures
            r.emits(*old(self), text_code(string@) + clear_code(), old(self).cursor as int, old(self).model.size as int),
            *final(self) == *final(r),
    {
        let n = string.unicode_len();
        let mut prev: i64 = 0;
        let mut i: usize = 0;
        while i < n
            invariant
                n == string@.len(),
                0 <= i <= n,
                prev == if i == 0 { 0 } else { code_point(string@[i - 1]) },
                self.emits(*old(self), text_code(string@.take(i as int)), old(self).cursor as int, old(self).model.size as int),
            decreases n - i,
        {
            let c = string.get_char(i);
            let cur: i64 = (c as u32) as i64;
            let d: i64 = cur - prev;
            let step: i16 = if d > 0 {
                (d % 256) as i16
            } else {
                -(((-d) % 256) as i16)
            };
            assert(step_code(step as int) =~= step_code(d as int));
            self.adjust(step).print_ascii();
            prev = cur;
            i = i + 1;
            assert(string@.take(i as int).drop_last() =~= string@.take(i - 1));
            assert(self.result@ =~= old(self).result@ + text_code(string@.take(i as int)));
        }
        assert(string@.take(n as int) =~= string@);
        self.clear();
        assert(self.result@ =~= old(self).result@ + (text_code(string@) + clear_code()));
        self
    }

    /*
        Finishing
     */

    /// The emitted program as text, tail-trimmed first if `do_optimize`.
    pub fn finish(&mut self, do_optimize: bool) -> (r: String)
        requires
            old(self).wf(),
        ensures
            final(self).result@ == if do_optimize {
                trim(old(self).result@)
            } else {
                old(self).result@
            },
            r@ == text_of(final(self).result@),
            final(self).cursor == old(self).cursor,
            final(self).model == old(self).model,
            final(self).constants == old(self).constants,
    {
        if do_optimize {
            optimize(&mut self.result);
            proof {
                lemma_trim_prefix(old(self).result@);
            }
            assert forall|i: int| 0 <= i < self.result@.len() implies is_instr(
                #[trigger] self.result@[i],
            ) by {
                assert(self.result@[i] == old(self).result@[i]);
            }
        }
        to_text(&self.result)
    }
}

} // verus!
