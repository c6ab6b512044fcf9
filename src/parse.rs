//! The mnemonic front end: whitespace-separated tokens, each one instruction
//! character with an optional decimal repeat count, or a `#` comment.
use vstd::prelude::*;

verus! {

#[derive(Debug, Clone, Copy, PartialEq, Eq, Structural)]
pub enum Statement {
    Add(u32),
    Sub(u32),
    LoopStart,
    LoopEnd,
    ShiftLeft(u32),
    ShiftRight(u32),
    Input,
    Output,
}

/// ASCII whitespace: space, tab, line feed, form feed, carriage return.
pub open spec fn is_ws(c: char) -> bool {
    c == ' ' || c == '\t' || c == '\n' || c == '\x0C' || c == '\r'
}

/// Splitting `s` from the left: the tokens completed so far, and the token
/// being read.
pub open spec fn scan(s: Seq<char>) -> (Seq<Seq<char>>, Seq<char>)
    decreases s.len(),
{
    if s.len() == 0 {
        (Seq::empty(), Seq::empty())
    } else {
        let (done, cur) = scan(s.drop_last());
        if is_ws(s.last()) {
            if cur.len() > 0 {
                (done.push(cur), Seq::empty())
            } else {
                (done, Seq::empty())
            }
        } else {
            (done, cur.push(s.last()))
        }
    }
}

/// The maximal runs of non-whitespace characters of `s`, in order.
pub open spec fn tokens(s: Seq<char>) -> Seq<Seq<char>> {
    let (done, cur) = scan(s);
    if cur.len() > 0 {
        done.push(cur)
    } else {
        done
    }
}

pub open spec fn is_digit(c: char) -> bool {
    '0' <= c && c <= '9'
}

pub open spec fn digit_value(c: char) -> int {
    (c as u32) as int - ('0' as u32) as int
}

/// The value of a run of decimal digits.
pub open spec fn decimal(d: Seq<char>) -> int
    decreases d.len(),
{
    if d.len() == 0 {
        0
    } else {
        decimal(d.drop_last()) * 10 + digit_value(d.last())
    }
}

/// The characters after an optional leading `+`.
pub open spec fn unsigned_part(t: Seq<char>) -> Seq<char> {
    if t.len() > 0 && t[0] == '+' {
        t.drop_first()
    } else {
        t
    }
}

pub open spec fn all_digits(d: Seq<char>) -> bool {
    forall|i: int| 0 <= i < d.len() ==> is_digit(#[trigger] d[i])
}

/// A `u32` written in decimal, with an optional leading `+`, as
/// `str::parse::<u32>` reads it.
pub open spec fn parse_count(t: Seq<char>) -> Option<u32> {
    let d = unsigned_part(t);
    if d.len() > 0 && all_digits(d) && decimal(d) <= u32::MAX {
        Some(decimal(d) as u32)
    } else {
        None
    }
}

/// The repeat count after the first character of a token; 1 when absent or
/// unreadable.
pub open spec fn count_of(t: Seq<char>) -> u32 {
    match parse_count(t.drop_first()) {
        Some(n) => n,
        None => 1,
    }
}

/// A token starts with an instruction character or `#`.
pub open spec fn is_known_token(t: Seq<char>) -> bool {
    t.len() > 0 && {
        let c = t[0];
        c == '+' || c == '-' || c == '[' || c == ']' || c == '<' || c == '>' || c == ','
            || c == '.' || c == '#'
    }
}

/// Every token of `s` is known.
pub open spec fn is_valid_source(s: Seq<char>) -> bool {
    forall|i: int| 0 <= i < tokens(s).len() ==> is_known_token(#[trigger] tokens(s)[i])
}

/// The statement a token stands for; `None` for a comment.
pub open spec fn statement_of(t: Seq<char>) -> Option<Statement> {
    let c = t[0];
    if c == '+' {
        Some(Statement::Add(count_of(t)))
    } else if c == '-' {
        Some(Statement::Sub(count_of(t)))
    } else if c == '[' {
        Some(Statement::LoopStart)
    } else if c == ']' {
        Some(Statement::LoopEnd)
    } else if c == '<' {
        Some(Statement::ShiftLeft(count_of(t)))
    } else if c == '>' {
        Some(Statement::ShiftRight(count_of(t)))
    } else if c == ',' {
        Some(Statement::Input)
    } else if c == '.' {
        Some(Statement::Output)
    } else {
        None
    }
}

/// The statements of a token list, comments skipped.
pub open spec fn statements(toks: Seq<Seq<char>>) -> Seq<Statement>
    decreases toks.len(),
{
    if toks.len() == 0 {
        Seq::empty()
    } else {
        match statement_of(toks.last()) {
            Some(st) => statements(toks.drop_last()).push(st),
            None => statements(toks.drop_last()),
        }
    }
}

proof fn lemma_decimal_grows(d: Seq<char>)
    requires
        forall|i: int| 0 <= i < d.len() ==> is_digit(#[trigger] d[i]),
    ensures
        decimal(d) >= 0,
        d.len() > 0 ==> decimal(d) >= decimal(d.drop_last()),
    decreases d.len(),
{
    if d.len() > 0 {
        lemma_decimal_grows(d.drop_last());
    }
}

/// Reads the characters `from..to` of `code` as `parse_count` does.
fn read_count(code: &str, from: usize, to: usize) -> (r: Option<u32>)
    requires
        from <= to <= code@.len(),
    ensures
        r == parse_count(code@.subrange(from as int, to as int)),
{
    let ghost t = code@.subrange(from as int, to as int);
    let mut j = from;
    assert(t.len() > 0 ==> t[0] == code@[from as int]);
    assert(t.len() > 0 ==> t.drop_first() =~= code@.subrange(from + 1, to as int));
    if from < to && code.get_char(from) == '+' {
        j = from + 1;
    }
    let ghost start = j as int;
    let ghost d = code@.subrange(start, to as int);
    assert(d =~= unsigned_part(t));
    if j == to {
        return None;
    }
    let mut value: u64 = 0;
    let mut over = false;
    while j < to
        invariant
            from <= start <= j <= to <= code@.len(),
            d == code@.subrange(start, to as int),
            t == code@.subrange(from as int, to as int),
            d == unsigned_part(t),
            forall|i: int| start <= i < j ==> is_digit(#[trigger] code@[i]),
            !over ==> value == decimal(code@.subrange(start, j as int)) && value <= u32::MAX,
            over ==> decimal(code@.subrange(start, j as int)) > u32::MAX,
        decreases to - j,
    {
        let c = code.get_char(j);
        if !('0' <= c && c <= '9') {
            assert(d[j - start] == c);
            assert(!is_digit(d[j - start]));
            return None;
        }
        let ghost p = code@.subrange(start, j + 1);
        assert(p.drop_last() =~= code@.subrange(start, j as int));
        proof {
            assert forall|i: int| 0 <= i < p.len() implies is_digit(#[trigger] p[i]) by {
                assert(p[i] == code@[start + i]);
            }
            lemma_decimal_grows(p);
        }
        if !over {
            let v: u64 = value * 10 + ((c as u32) - ('0' as u32)) as u64;
            if v > 0xFFFF_FFFF {
                over = true;
            } else {
                value = v;
            }
        }
        j = j + 1;
    }
    assert(code@.subrange(start, to as int) =~= d);
    assert forall|i: int| 0 <= i < d.len() implies is_digit(#[trigger] d[i]) by {
        assert(d[i] == code@[start + i]);
    }
    if over {
        None
    } else {
        Some(value as u32)
    }
}

/// The statement for the token `from..to` of `code`.
fn read_token(code: &str, from: usize, to: usize) -> (r: Option<Statement>)
    requires
        from < to <= code@.len(),
        is_known_token(code@.subrange(from as int, to as int)),
    ensures
        r == statement_of(code@.subrange(from as int, to as int)),
{
    let ghost t = code@.subrange(from as int, to as int);
    assert(t.drop_first() =~= code@.subrange(from + 1, to as int));
    let c = code.get_char(from);
    if c == '+' {
        Some(Statement::Add(read_count(code, from + 1, to).unwrap_or(1)))
    } else if c == '-' {
        Some(Statement::Sub(read_count(code, from + 1, to).unwrap_or(1)))
    } else if c == '[' {
        Some(Statement::LoopStart)
    } else if c == ']' {
        Some(Statement::LoopEnd)
    } else if c == '<' {
        Some(Statement::ShiftLeft(read_count(code, from + 1, to).unwrap_or(1)))
    } else if c == '>' {
        Some(Statement::ShiftRight(read_count(code, from + 1, to).unwrap_or(1)))
    } else if c == ',' {
        Some(Statement::Input)
    } else if c == '.' {
        Some(Statement::Output)
    } else {
        None
    }
}

/// Parses mnemonic source into statements, skipping comment tokens. Every
/// token must start with an instruction character or `#`.
pub fn parse_ebf(code: String) -> (r: Vec<Statement>)
    requires
        is_valid_source(code@),
    ensures
        r@ == statements(tokens(code@)),
{
    let s = code.as_str();
    let n = s.unicode_len();
    let mut out: Vec<Statement> = Vec::new();
    let mut start: usize = 0;
    let mut i: usize = 0;
    while i < n
        invariant
            s@ == code@,
            n == s@.len(),
            0 <= start <= i <= n,
            scan(s@.take(i as int)).1 == s@.subrange(start as int, i as int),
            out@ == statements(scan(s@.take(i as int)).0),
            forall|k: int|
                0 <= k < scan(s@.take(i as int)).0.len() ==> tokens(code@).len() > k && #[trigger] scan(s@.take(i as int)).0[k] == tokens(code@)[k],
            is_valid_source(code@),
        decreases n - i,
    {
        proof {
            lemma_scan_prefix(s@, i + 1);
            lemma_scan_step(s@, i as int);
        }
        let ghost done = scan(s@.take(i as int)).0;
        let ghost cur = scan(s@.take(i as int)).1;
        let c = s.get_char(i);
        if c == ' ' || c == '\t' || c == '\n' || c == '\x0C' || c == '\r' {
            if start < i {
                let ghost k = done.len();
                assert(scan(s@.take(i + 1)).0 == done.push(cur));
                assert(done.push(cur)[k as int] == cur);
                assert(is_known_token(tokens(code@)[k as int]));
                assert(done.push(cur).drop_last() =~= done);
                if let Some(st) = read_token(s, start, i) {
                    out.push(st);
                }
            }
            start = i + 1;
        } else {
            assert(s@.subrange(start as int, i + 1) =~= s@.subrange(start as int, i as int).push(c));
        }
        i = i + 1;
        assert(s@.subrange(i as int, i as int) =~= Seq::<char>::empty());
    }
    assert(s@.take(n as int) =~= s@);
    if start < n {
        let ghost k = scan(s@).0.len();
        assert(tokens(code@)[k as int] == s@.subrange(start as int, n as int));
        assert(scan(s@).0.push(s@.subrange(start as int, n as int)).drop_last() =~= scan(s@).0);
        if let Some(st) = read_token(s, start, n) {
            out.push(st);
        }
    }
    out
}

proof fn lemma_scan_step(s: Seq<char>, i: int)
    requires
        0 <= i < s.len(),
    ensures
        scan(s.take(i + 1)) == ({
            let (done, cur) = scan(s.take(i));
            if is_ws(s[i]) {
                if cur.len() > 0 {
                    (done.push(cur), Seq::<char>::empty())
                } else {
                    (done, Seq::<char>::empty())
                }
            } else {
                (done, cur.push(s[i]))
            }
        }),
{
    assert(s.take(i + 1).drop_last() =~= s.take(i));
    assert(s.take(i + 1).last() == s[i]);
}

/// The tokens completed within the first `i` characters are the first
/// tokens of the whole text; a token in progress is the next one.
proof fn lemma_scan_prefix(s: Seq<char>, i: int)
    requires
        0 <= i <= s.len(),
    ensures
        forall|k: int|
            0 <= k < scan(s.take(i)).0.len() ==> tokens(s).len() > k && #[trigger] scan(s.take(i)).0[k]
                == tokens(s)[k],
        scan(s.take(i)).1.len() > 0 ==> tokens(s).len() > scan(s.take(i)).0.len(),
    decreases s.len() - i,
{
    let (done, cur) = scan(s.take(i));
    if i == s.len() {
        assert(s.take(i) =~= s);
        assert forall|k: int| 0 <= k < done.len() implies tokens(s).len() > k
            && #[trigger] done[k] == tokens(s)[k] by {
            if cur.len() > 0 {
                assert(done.push(cur)[k] == done[k]);
            }
        }
    } else {
        lemma_scan_prefix(s, i + 1);
        lemma_scan_step(s, i);
        let (done1, cur1) = scan(s.take(i + 1));
        assert forall|k: int| 0 <= k < done.len() implies tokens(s).len() > k
            && #[trigger] done[k] == tokens(s)[k] by {
            assert(done1[k] == done[k]);
        }
        if cur.len() > 0 {
            if is_ws(s[i]) {
                assert(done1[done.len() as int] == cur);
            }
        }
    }
}

} // verus!
