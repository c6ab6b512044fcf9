//! The eight primitive instructions and the shapes of emitted code.
use vstd::prelude::*;

verus! {

/// Move the data pointer one cell right.
pub const RIGHT: u8 = 62;

/// Move the data pointer one cell left.
pub const LEFT: u8 = 60;

/// Increment the current cell (wrapping).
pub const INC: u8 = 43;

/// Decrement the current cell (wrapping).
pub const DEC: u8 = 45;

/// Write the current cell to the output.
pub const OUT: u8 = 46;

/// Read one byte of input into the current cell.
pub const IN: u8 = 44;

/// Enter a loop while the current cell is nonzero.
pub const OPEN: u8 = 91;

/// Jump back to the loop start while the current cell is nonzero.
pub const CLOSE: u8 = 93;

pub open spec fn is_instr(b: u8) -> bool {
    b == RIGHT || b == LEFT || b == INC || b == DEC || b == OUT || b == IN || b == OPEN
        || b == CLOSE
}

/// Every byte of `s` is one of the eight instructions.
pub open spec fn is_program(s: Seq<u8>) -> bool {
    forall|i: int| 0 <= i < s.len() ==> is_instr(#[trigger] s[i])
}

/// `n` copies of the instruction `b`.
pub open spec fn rep(b: u8, n: nat) -> Seq<u8> {
    Seq::new(n, |_i: int| b)
}

/// The shortest run of pointer moves from position `from` to position `to`.
pub open spec fn moves(from: int, to: int) -> Seq<u8> {
    if to > from {
        rep(RIGHT, (to - from) as nat)
    } else {
        rep(LEFT, (from - to) as nat)
    }
}

/// The canonical loop that drives the current cell to zero.
pub open spec fn clear_code() -> Seq<u8> {
    seq![OPEN, DEC, CLOSE]
}

/// The text form of an instruction byte.
pub open spec fn char_of(b: u8) -> char {
    if b == RIGHT {
        '>'
    } else if b == LEFT {
        '<'
    } else if b == INC {
        '+'
    } else if b == DEC {
        '-'
    } else if b == OUT {
        '.'
    } else if b == IN {
        ','
    } else if b == OPEN {
        '['
    } else {
        ']'
    }
}

/// The text form of a program.
pub open spec fn text_of(s: Seq<u8>) -> Seq<char> {
    s.map_values(|b: u8| char_of(b))
}

/// The instruction that a text character stands for, if any.
pub open spec fn byte_of(c: char) -> Option<u8> {
    if c == '>' {
        Some(RIGHT)
    } else if c == '<' {
        Some(LEFT)
    } else if c == '+' {
        Some(INC)
    } else if c == '-' {
        Some(DEC)
    } else if c == '.' {
        Some(OUT)
    } else if c == ',' {
        Some(IN)
    } else if c == '[' {
        Some(OPEN)
    } else if c == ']' {
        Some(CLOSE)
    } else {
        None
    }
}

/// The instructions written in a text, other characters skipped.
pub open spec fn program_of(t: Seq<char>) -> Seq<u8>
    decreases t.len(),
{
    if t.len() == 0 {
        Seq::empty()
    } else {
        match byte_of(t.last()) {
            Some(b) => program_of(t.drop_last()).push(b),
            None => program_of(t.drop_last()),
        }
    }
}

pub proof fn lemma_push_program(s: Seq<u8>, b: u8)
    requires
        is_program(s),
        is_instr(b),
    ensures
        is_program(s.push(b)),
{
    assert forall|i: int| 0 <= i < s.push(b).len() implies is_instr(#[trigger] s.push(b)[i]) by {
        if i < s.len() {
            assert(s.push(b)[i] == s[i]);
        }
    }
}

pub proof fn lemma_assoc(a: Seq<u8>, b: Seq<u8>, c: Seq<u8>)
    ensures
        (a + b) + c == a + (b + c),
{
    assert((a + b) + c =~= a + (b + c));
}

/// Appends `n` copies of the instruction `b` to `code`.
pub fn push_rep(code: &mut Vec<u8>, b: u8, n: usize)
    ensures
        final(code)@ == old(code)@ + rep(b, n as nat),
{
    let mut i: usize = 0;
    while i < n
        invariant
            0 <= i <= n,
            code@ == old(code)@ + rep(b, i as nat),
        decreases n - i,
    {
        code.push(b);
        i = i + 1;
        assert(code@ =~= old(code)@ + rep(b, i as nat));
    }
}

/// The instructions written in `t`, other characters skipped.
pub fn code_of_text(t: &str) -> (r: Vec<u8>)
    ensures
        r@ == program_of(t@),
        is_program(r@),
{
    let n = t.unicode_len();
    let mut r: Vec<u8> = Vec::new();
    let mut i: usize = 0;
    while i < n
        invariant
            n == t@.len(),
            0 <= i <= n,
            r@ == program_of(t@.take(i as int)),
            is_program(r@),
        decreases n - i,
    {
        let c = t.get_char(i);
        let ghost before = r@;
        assert(t@.take(i + 1).drop_last() =~= t@.take(i as int));
        if c == '>' {
            r.push(RIGHT);
        } else if c == '<' {
            r.push(LEFT);
        } else if c == '+' {
            r.push(INC);
        } else if c == '-' {
            r.push(DEC);
        } else if c == '.' {
            r.push(OUT);
        } else if c == ',' {
            r.push(IN);
        } else if c == '[' {
            r.push(OPEN);
        } else if c == ']' {
            r.push(CLOSE);
        }
        proof {
            if r@.len() > before.len() {
                lemma_push_program(before, r@.last());
                assert(r@ =~= before.push(r@.last()));
            }
        }
        i = i + 1;
    }
    assert(t@.take(n as int) =~= t@);
    r
}

/// The program as text, one character per instruction.
pub fn to_text(code: &Vec<u8>) -> (r: String)
    requires
        is_program(code@),
    ensures
        r@ == text_of(code@),
{
    let mut r = String::new();
    let mut i: usize = 0;
    while i < code.len()
        invariant
            0 <= i <= code.len(),
            is_program(code@),
            r@ == text_of(code@.take(i as int)),
        decreases code.len() - i,
    {
        let b = code[i];
        assert(is_instr(code@[i as int]));
        let ghost before = r@;
        if b == RIGHT {
            r.append(">");
            proof { reveal_strlit(">"); }
        } else if b == LEFT {
            r.append("<");
            proof { reveal_strlit("<"); }
        } else if b == INC {
            r.append("+");
            proof { reveal_strlit("+"); }
        } else if b == DEC {
            r.append("-");
            proof { reveal_strlit("-"); }
        } else if b == OUT {
            r.append(".");
            proof { reveal_strlit("."); }
        } else if b == IN {
            r.append(",");
            proof { reveal_strlit(","); }
        } else if b == OPEN {
            r.append("[");
            proof { reveal_strlit("["); }
        } else {
            r.append("]");
            proof { reveal_strlit("]"); }
        }
        assert(r@ == before.push(char_of(b)));
        i = i + 1;
        assert(code@.take(i as int) =~= code@.take(i - 1).push(b));
        assert(r@ =~= text_of(code@.take(i as int)));
    }
    assert(code@.take(code.len() as int) =~= code@);
    r
}

} // verus!
