use brainfuck::analyzer::{parse, Position, Range};
use brainfuck::autojit::{interpret_auto_jit, run_auto_jit};
use brainfuck::interpreter::{interpret, BrainfuckMemory, InterpretError, IoBuffer, RuntimeError};
use brainfuck::jit::{compile, interpret_jit};

fn run_ok(source: &str, input: &[u8]) -> (BrainfuckMemory, Vec<u8>) {
    let mut io = IoBuffer::new(input.to_vec());
    let mem = interpret(source, &mut io).unwrap();
    (mem, io.output)
}

#[test]
fn test_auto_jit_with_loop() {
    let input = ">>+++++++++++++++++++++++++++++++++<+++++[>.<-]";
    let mut io = IoBuffer::new(Vec::new());
    let memory = interpret_auto_jit(input, &mut io).unwrap();
    // five bangs on the terminal's behalf
    assert_eq!(io.output, vec![33u8; 5]);
    assert_eq!(memory.memory[2], 33);
    assert_eq!(memory.memory[1], 0);
}

#[test]
fn arithmetic_wraps_at_256() {
    let plus_256: String = std::iter::repeat('+').take(256).collect();
    let (mem, out) = run_ok(&plus_256, &[]);
    assert_eq!(mem.memory[0], 0);
    assert!(out.is_empty());

    let minus_256: String = std::iter::repeat('-').take(256).collect();
    let (mem, _) = run_ok(&minus_256, &[]);
    assert_eq!(mem.memory[0], 0);

    let plus_257: String = std::iter::repeat('+').take(257).collect();
    let (mem, _) = run_ok(&plus_257, &[]);
    assert_eq!(mem.memory[0], 1);
}

#[test]
fn tape_grows_with_zeroed_cells() {
    let rights: String = std::iter::repeat('>').take(1200).collect();
    let (mem, _) = run_ok(&rights, &[]);
    assert_eq!(mem.index, 1200);
    assert!(mem.index < mem.memory.len());
    assert_eq!(mem.memory.len(), 2000);
    for i in 1000..2000 {
        assert_eq!(mem.memory[i], 0);
    }
}

#[test]
fn wrap_under_fails_with_pointer_underflow() {
    let mut io = IoBuffer::new(Vec::new());
    let r = interpret("<<", &mut io);
    assert_eq!(r.unwrap_err(), InterpretError::Runtime(RuntimeError::PointerUnderflow));
    assert!(io.output.is_empty());
}

#[test]
fn hello_char_outputs_h() {
    let (mem, out) = run_ok("++++++++[>+++++++++<-]>.", &[]);
    assert_eq!(out, vec![0x48]);
    assert_eq!(mem.index, 1);
    assert_eq!(mem.memory[0], 0);
    assert_eq!(mem.memory[1], 72);
}

#[test]
fn nested_loop_zero_clears() {
    let (mem, out) = run_ok("+++[-]", &[]);
    assert_eq!(mem.memory[0], 0);
    assert!(out.is_empty());
}

#[test]
fn comments_behave_like_plain_source() {
    let (mem_a, out_a) = run_ok(">/*move*/>+// done\n+", &[]);
    let (mem_b, out_b) = run_ok(">>++", &[]);
    assert_eq!(mem_a.memory[2], 2);
    assert_eq!(mem_a.index, mem_b.index);
    assert_eq!(mem_a.memory, mem_b.memory);
    assert_eq!(out_a, out_b);
}

#[test]
fn interpreter_and_auto_jit_agree() {
    let source = ",[>+.<-]";
    let (mem_i, out_i) = run_ok(source, &[3]);
    let mut io = IoBuffer::new(vec![3]);
    let mem_a = interpret_auto_jit(source, &mut io).unwrap();
    assert_eq!(mem_i.index, mem_a.index);
    assert_eq!(mem_i.memory, mem_a.memory);
    assert_eq!(out_i, io.output);
}

#[test]
fn interpreter_and_jit_agree() {
    let source = "++[>+<-]";
    let (mem_i, out_i) = run_ok(source, &[]);
    let mut io = IoBuffer::new(Vec::new());
    let mem_j = interpret_jit(source, &mut io).unwrap();
    assert_eq!(mem_i.index, mem_j.index);
    assert_eq!(mem_i.memory, mem_j.memory);
    assert_eq!(out_i, io.output);
    assert_eq!(mem_j.memory[1], 2);
    assert_eq!(mem_j.memory[0], 0);
    assert_eq!(mem_j.index, 0);
}

#[test]
fn input_feeds_cells_in_order() {
    let (mem, out) = run_ok(",>,>,.", &[7, 8, 9]);
    assert_eq!(mem.memory[0], 7);
    assert_eq!(mem.memory[1], 8);
    assert_eq!(mem.memory[2], 9);
    assert_eq!(out, vec![9]);
}

#[test]
fn exhausted_input_is_an_error() {
    let mut io = IoBuffer::new(Vec::new());
    let r = interpret(",", &mut io);
    assert_eq!(r.unwrap_err(), InterpretError::Runtime(RuntimeError::InputExhausted));
}

#[test]
fn parse_failure_surfaces_from_interpret() {
    let mut io = IoBuffer::new(Vec::new());
    match interpret("[", &mut io) {
        Err(InterpretError::Parse(e)) => assert_eq!(e.error_message, "More [ found"),
        _ => assert!(false),
    }
}

#[test]
fn read_range_reads_zero_past_end() {
    let (mem, _) = run_ok("+>++", &[]);
    let window = mem.read_range(0, 4);
    assert_eq!(window, vec![1, 2, 0, 0]);
    let past = mem.read_range(5000, 3);
    assert_eq!(past, vec![0, 0, 0]);
}

#[test]
fn compile_requests_follow_the_threshold() {
    // three iterations: the hit count reaches the threshold once
    let tree = parse("+++[-]").unwrap().parse_token_group;
    let cache = compile(&tree);
    let mut mem = BrainfuckMemory::new();
    let mut io = IoBuffer::new(Vec::new());
    let mut requests: Vec<Range> = Vec::new();
    let r = run_auto_jit(&cache.ops, &mut mem, &mut io, &mut requests, u64::MAX);
    assert_eq!(r.unwrap(), true);
    assert_eq!(requests.len(), 1);
    assert_eq!(requests[0].start, Position::new(0, 3));
    assert_eq!(requests[0].end, Position::new(0, 6));

    // two iterations: the threshold is never reached
    let tree2 = parse("++[-]").unwrap().parse_token_group;
    let cache2 = compile(&tree2);
    let mut mem2 = BrainfuckMemory::new();
    let mut io2 = IoBuffer::new(Vec::new());
    let mut requests2: Vec<Range> = Vec::new();
    run_auto_jit(&cache2.ops, &mut mem2, &mut io2, &mut requests2, u64::MAX).unwrap();
    assert!(requests2.is_empty());

    // five iterations: still exactly one request for the loop
    let tree3 = parse("+++++[-]").unwrap().parse_token_group;
    let cache3 = compile(&tree3);
    let mut mem3 = BrainfuckMemory::new();
    let mut io3 = IoBuffer::new(Vec::new());
    let mut requests3: Vec<Range> = Vec::new();
    run_auto_jit(&cache3.ops, &mut mem3, &mut io3, &mut requests3, u64::MAX).unwrap();
    assert_eq!(requests3.len(), 1);
}
