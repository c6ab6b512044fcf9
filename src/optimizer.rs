//! The tail-trimming pass: drops everything after the last top-level output.
use vstd::prelude::*;
use crate::instr::{CLOSE, OPEN, OUT};

verus! {

/// Loop nesting depth after running through `s`; a stray close leaves it at 0.
pub open spec fn depth(s: Seq<u8>) -> nat
    decreases s.len(),
{
    if s.len() == 0 {
        0
    } else {
        let d = depth(s.drop_last());
        if s.last() == OPEN {
            d + 1
        } else if s.last() == CLOSE {
            if d > 0 {
                (d - 1) as nat
            } else {
                0
            }
        } else {
            d
        }
    }
}

/// Position `i` of `s` holds an output instruction outside every loop.
pub open spec fn is_top_output(s: Seq<u8>, i: int) -> bool {
    0 <= i < s.len() && s[i] == OUT && depth(s.take(i)) == 0
}

/// The last top-level output among the first `n` instructions, or -1.
pub open spec fn last_cut(s: Seq<u8>, n: nat) -> int
    decreases n,
{
    if n == 0 {
        -1
    } else if is_top_output(s, n - 1) {
        n - 1
    } else {
        last_cut(s, (n - 1) as nat)
    }
}

/// `s` cut right after its last top-level output; unchanged if it has none.
pub open spec fn trim(s: Seq<u8>) -> Seq<u8> {
    let m = last_cut(s, s.len());
    if m >= 0 {
        s.take(m + 1)
    } else {
        s
    }
}

proof fn lemma_last_cut_range(s: Seq<u8>, n: nat)
    ensures
        -1 <= last_cut(s, n) < n,
        last_cut(s, n) >= 0 ==> is_top_output(s, last_cut(s, n)),
        forall|i: int| last_cut(s, n) < i < n ==> !is_top_output(s, i),
    decreases n,
{
    if n > 0 {
        lemma_last_cut_range(s, (n - 1) as nat);
    }
}

/// Trimming only ever removes a tail.
pub proof fn lemma_trim_prefix(s: Seq<u8>)
    ensures
        trim(s).len() <= s.len(),
        trim(s) == s.take(trim(s).len() as int),
{
    lemma_last_cut_range(s, s.len());
    assert(s.take(s.len() as int) =~= s);
}

/// Truncates `code` right after its last output instruction that stands
/// outside every loop. Code with no such instruction is left as it is.
pub fn optimize(code: &mut Vec<u8>)
    ensures
        final(code)@ == trim(old(code)@),
{
    let len = code.len();
    let mut d: usize = 0;
    let mut cut: usize = 0;
    let mut found = false;
    let mut i: usize = 0;
    while i < len
        invariant
            len == code.len(),
            code@ == old(code)@,
            0 <= i <= len,
            d == depth(code@.take(i as int)),
            d <= i,
            found ==> cut < i && last_cut(code@, i as nat) == cut,
            !found ==> last_cut(code@, i as nat) == -1,
        decreases len - i,
    {
        let ghost s = code@;
        let c = code[i];
        assert(s.take(i + 1).drop_last() =~= s.take(i as int));
        if c == OUT && d == 0 {
            cut = i;
            found = true;
        }
        if c == OPEN {
            d = d + 1;
        } else if c == CLOSE {
            if d > 0 {
                d = d - 1;
            }
        }
        i = i + 1;
    }
    assert(code@.take(len as int) =~= code@);
    if found {
        code.truncate(cut + 1);
    }
}

/// Code that ends in a top-level output followed by instructions that output
/// nothing is cut right after that output.
pub proof fn lemma_trim_drops_cleanup(prefix: Seq<u8>, tail: Seq<u8>)
    requires
        depth(prefix) == 0,
        forall|j: int| 0 <= j < tail.len() ==> tail[j] != OUT,
    ensures
        trim(prefix.push(OUT) + tail) == prefix.push(OUT),
{
    let s = prefix.push(OUT) + tail;
    let p = prefix.len() as int;
    assert(s.take(p) =~= prefix);
    assert(is_top_output(s, p));
    lemma_last_cut_range(s, s.len());
    let m = last_cut(s, s.len());
    if m > p {
        assert(s[m] == tail[m - p - 1]);
    }
    assert(s.take(p + 1) =~= prefix.push(OUT));
}

/// Code with no top-level output is left unchanged.
pub proof fn lemma_trim_no_output(s: Seq<u8>)
    requires
        forall|i: int| !is_top_output(s, i),
    ensures
        trim(s) == s,
{
    lemma_last_cut_range(s, s.len());
}

/// Trimming twice is the same as trimming once.
pub proof fn lemma_trim_idempotent(s: Seq<u8>)
    ensures
        trim(trim(s)) == trim(s),
{
    lemma_last_cut_range(s, s.len());
    let m = last_cut(s, s.len());
    if m >= 0 {
        let t = s.take(m + 1);
        assert(t.take(m) =~= s.take(m));
        assert(is_top_output(t, m));
        assert(t.take(m + 1) =~= t);
    }
}

} // verus!
