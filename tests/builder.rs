use bcc::builder::Builder;
use bcc::model::{Cells, MemoryModel};
use bcc::optimizer::optimize;

/// Runs `code` on a zeroed tape and returns the tape, the pointer and the
/// output.
fn run(code: &str, input: &[u8]) -> (Vec<u8>, usize, Vec<u8>) {
    let prog: Vec<u8> = code.bytes().collect();
    let mut jump = vec![0usize; prog.len()];
    let mut stack = Vec::new();
    for (i, &b) in prog.iter().enumerate() {
        if b == b'[' {
            stack.push(i);
        } else if b == b']' {
            let j = stack.pop().unwrap();
            jump[i] = j;
            jump[j] = i;
        }
    }
    let mut tape = vec![0u8; 64];
    let mut ptr = 0usize;
    let mut out = Vec::new();
    let mut inp = input.iter();
    let mut pc = 0usize;
    let mut steps = 0u64;
    while pc < prog.len() {
        steps += 1;
        assert!(steps < 10_000_000);
        match prog[pc] {
            b'>' => ptr += 1,
            b'<' => ptr -= 1,
            b'+' => tape[ptr] = tape[ptr].wrapping_add(1),
            b'-' => tape[ptr] = tape[ptr].wrapping_sub(1),
            b'.' => out.push(tape[ptr]),
            b',' => tape[ptr] = *inp.next().unwrap_or(&0),
            b'[' => {
                if tape[ptr] == 0 {
                    pc = jump[pc];
                }
            }
            b']' => {
                if tape[ptr] != 0 {
                    pc = jump[pc];
                }
            }
            _ => panic!("not an instruction"),
        }
        pc += 1;
    }
    (tape, ptr, out)
}

fn text(b: &mut Builder) -> String {
    b.finish(false)
}

#[test]
fn allocator_frontier_is_sum_of_live() {
    let mut m = MemoryModel::new();
    let a = m.allocate(3);
    let b = m.allocate(2);
    assert_eq!((a.position, b.position), (0, 3));
    assert_eq!(m.size, 5);
    m.free(2);
    assert_eq!(m.size, 3);
    let c = m.allocate(4);
    assert_eq!(c.position, 3);
    m.free(4);
    m.free(3);
    assert_eq!(m.size, 0);
}

#[test]
fn store_value_records_run() {
    let mut m = MemoryModel::new();
    m.store_value(7, 2);
    m.store_value(9, 1);
    assert_eq!(m.size, 3);
    assert_eq!(m.memory.get(&9).unwrap().position, 2);
    let cells = Cells { position: 4, size: 2 };
    assert_eq!(cells.position_at(1), 5);
}

#[test]
fn new_builder_has_zero_constant() {
    let mut b = Builder::new();
    assert_eq!(b.cursor, 0);
    assert_eq!(b.model.size, 1);
    assert_eq!(b.constants.get(&0), Some(&0));
    assert_eq!(text(&mut b), "");
    b.new_constant(3);
    assert_eq!(b.constants.get(&3), Some(&1));
    assert_eq!(text(&mut b), ">+++");
}

#[test]
fn goto_twice_costs_distance() {
    let mut b = Builder::new();
    b.goto(7);
    let before = b.result.len();
    b.goto(3);
    assert_eq!(b.result.len() - before, 4);
    assert_eq!(b.cursor, 3);
    assert_eq!(text(&mut b), ">>>>>>><<<<");
    let mut d = Builder::new();
    d.goto(3);
    assert_eq!(text(&mut d), ">>>");
}

#[test]
fn back_stops_at_zero() {
    let mut b = Builder::new();
    b.back().advance().back().back();
    assert_eq!(b.cursor, 0);
    assert_eq!(text(&mut b), "><");
}

#[test]
fn free_last_n_clears_and_steps_back() {
    let mut b = Builder::new();
    b.n_cells(2);
    b.advance();
    b.free_last_n(2);
    assert_eq!(b.model.size, 1);
    assert_eq!(b.cursor, 0);
    assert_eq!(text(&mut b), ">>[-]<[-]<");
}

#[test]
fn adjust_signs_and_wraps() {
    let mut b = Builder::new();
    b.adjust(3).adjust(-2).adjust(0).adjust(258).adjust(i16::MIN);
    assert_eq!(text(&mut b), "+++--++");
}

#[test]
fn write_bytes_sets_cells() {
    let mut b = Builder::new();
    let cells = b.write_bytes(&[2, 1]);
    assert_eq!((cells.position, cells.size), (1, 2));
    assert_eq!(b.cursor, 3);
    assert_eq!(text(&mut b), ">[-]++>[-]+>");
    let mut u = Builder::new();
    u.write_bytes_unchecked(&[2, 1]);
    assert_eq!(text(&mut u), ">++>+>");
    let (tape, _, _) = run(&text(&mut b), &[]);
    assert_eq!(&tape[..3], &[0, 2, 1]);
}

#[test]
fn add_to_sums_into_target() {
    let mut b = Builder::new();
    let first = b.new_byte(35);
    let second = b.new_byte(50);
    b.goto(second.position).add_to(first.position);
    let (tape, _, _) = run(&text(&mut b), &[]);
    assert_eq!(tape[first.position], 85);
    assert_eq!(tape[second.position], 0);
}

#[test]
fn add_to_wraps() {
    let mut b = Builder::new();
    let first = b.new_byte(200);
    let second = b.new_byte(100);
    b.goto(second.position).add_to(first.position);
    let (tape, _, _) = run(&text(&mut b), &[]);
    assert_eq!((tape[first.position], tape[second.position]), (44, 0));
}

#[test]
fn sub_from_subtracts() {
    let mut b = Builder::new();
    let first = b.new_byte(10);
    let second = b.new_byte(13);
    b.goto(second.position).sub_from(first.position);
    let (tape, _, _) = run(&text(&mut b), &[]);
    assert_eq!((tape[first.position], tape[second.position]), (253, 0));
}

#[test]
fn copy_keeps_source() {
    let mut b = Builder::new();
    let s = b.new_byte(42);
    let t = b.new_byte(9);
    b.copy(s.position, t.position);
    assert_eq!(b.model.size, 3);
    let (tape, _, _) = run(&text(&mut b), &[]);
    assert_eq!(&tape[..4], &[0, 42, 42, 0]);
}

#[test]
fn mul_to_multiplies() {
    let mut b = Builder::new();
    let k = b.new_byte(7);
    let m = b.new_byte(6);
    b.goto(m.position).mul_to(k.position);
    assert_eq!(b.model.size, 3);
    let (tape, _, _) = run(&text(&mut b), &[]);
    assert_eq!(&tape[..6], &[0, 42, 0, 0, 0, 0]);
    let mut w = Builder::new();
    let k = w.new_byte(20);
    let m = w.new_byte(13);
    w.goto(m.position).mul_to(k.position);
    let (tape, _, _) = run(&text(&mut w), &[]);
    assert_eq!(tape[k.position], 4);
}

fn divide(n: u8, d: u8) -> Vec<Vec<u8>> {
    let mut res = Vec::new();
    for which in 0..3 {
        let mut b = Builder::new();
        let a = b.new_byte(n);
        b.new_byte(d);
        b.goto(a.position);
        match which {
            0 => b.div_by(),
            1 => b.mod_by(),
            _ => b.divmod_by(),
        };
        assert_eq!(b.cursor, a.position);
        let (tape, _, _) = run(&text(&mut b), &[]);
        res.push(tape[1..5].to_vec());
    }
    res
}

#[test]
fn division_results() {
    let r = divide(17, 5);
    assert_eq!(r[0], vec![3, 0, 0, 0]);
    assert_eq!(r[1], vec![2, 0, 0, 0]);
    assert_eq!(r[2], vec![3, 2, 0, 0]);
    let r = divide(4, 9);
    assert_eq!(r[2], vec![0, 4, 0, 0]);
}

#[test]
fn print_as_byte_decimal() {
    for (v, s) in [(72u8, "72"), (0, "0"), (255, "255"), (100, "100"), (7, "7")] {
        let mut b = Builder::new();
        b.new_byte(v);
        b.print_as_byte();
        let (tape, ptr, out) = run(&text(&mut b), &[]);
        assert_eq!(out, s.as_bytes());
        assert_eq!(ptr, 1);
        assert!(tape.iter().all(|&c| c == 0));
    }
}

#[test]
fn just_print_hi() {
    let mut b = Builder::new();
    b.just_print_here("Hi");
    let raw = b.result.clone();
    let expected: String = "+".repeat(72) + "." + &"+".repeat(33) + "." + "[-]";
    assert_eq!(String::from_utf8(raw).unwrap(), expected);
    let out = b.finish(true);
    assert_eq!(out.len(), 107);
    let mut s = Builder::new();
    s.just_print("Hi");
    let code = s.finish(true);
    assert_eq!(code.len(), 108);
    assert!(code.starts_with('>'));
    assert_eq!(run(&code, &[]).2, b"Hi");
}

#[test]
fn just_print_descending() {
    let mut b = Builder::new();
    b.just_print("ba");
    let code = text(&mut b);
    assert_eq!(run(&code, &[]).2, b"ba");
    assert!(code.contains(".-."));
}

#[test]
fn print_cells_outputs_run() {
    let mut b = Builder::new();
    let cells = b.write_bytes_unchecked(b"ok");
    b.print_cells(cells);
    assert_eq!(b.cursor, 3);
    assert_eq!(run(&text(&mut b), &[]).2, b"ok");
}

#[test]
fn conditionals_and_loops() {
    let mut b = Builder::new();
    let c = b.new_byte(5);
    b.start_if().just_print("A").goto(c.position).end_if();
    let n = b.new_byte(3);
    b.start_while().print_ascii().sub(1).end_while(n.position);
    b.start_while().input_byte().end_while_unchecked();
    let code = text(&mut b);
    assert!(code.ends_with(".-][,]"));
    let (tape, _, out) = run(&code, &[]);
    assert_eq!(out, vec![b'A', 3, 2, 1]);
    assert_eq!(tape[1], 0);
}

#[test]
fn optimize_cuts_after_last_top_output() {
    let mut code = b"+.[-]>>".to_vec();
    optimize(&mut code);
    assert_eq!(code, b"+.");
    let mut once = b"+[.-].<+".to_vec();
    optimize(&mut once);
    assert_eq!(once, b"+[.-].");
    let mut twice = once.clone();
    optimize(&mut twice);
    assert_eq!(twice, once);
}

#[test]
fn optimize_keeps_code_without_top_output() {
    let mut code = b"+[.-]>".to_vec();
    optimize(&mut code);
    assert_eq!(code, b"+[.-]>");
    let mut empty: Vec<u8> = Vec::new();
    optimize(&mut empty);
    assert!(empty.is_empty());
}

#[test]
fn finish_optimizes_on_request() {
    let mut b = Builder::new();
    b.add(2).print_ascii().clear();
    assert_eq!(b.finish(false), "++.[-]");
    assert_eq!(b.finish(true), "++.");
}
