use testlang::codegen::generate_asm;
use testlang::ops::Op;
use testlang::tokenizer::tokenize;

fn expected_header() -> String {
    let mut s = String::from("segment .text\n");
    s.push_str(
        "dump:
    mov     r8, -3689348814741910323
    sub     rsp, 40
    mov     BYTE [rsp+31], 10
    lea     rcx, [rsp+30]
.L2:
    mov     rax, rdi
    mul     r8
    mov     rax, rdi
    shr     rdx, 3
    lea     rsi, [rdx+rdx*4]
    add     rsi, rsi
    sub     rax, rsi
    mov     rsi, rcx
    sub     rcx, 1
    add     eax, 48
    mov     BYTE [rcx+1], al
    mov     rax, rdi
    mov     rdi, rdx
    cmp     rax, 9
    ja      .L2
    lea     rdx, [rsp+32]
    mov     edi, 1
    sub     rdx, rsi
    mov     rax, 1
    syscall
    add     rsp, 40
    ret\n\n",
    );
    s.push_str("global _start\n_start:\n");
    s
}

fn expected_footer() -> &'static str {
    "    mov rax, 60\n    mov rdi, 0\n    syscall\n"
}

#[test]
fn empty_sequence_gives_preamble_and_exit_only() {
    let text = generate_asm(&Vec::new());
    let mut expected = expected_header();
    expected.push_str(expected_footer());
    assert_eq!(text, expected);
}

#[test]
fn all_whitespace_source_gives_preamble_and_exit_only() {
    let text = generate_asm(&tokenize(" \n\t  "));
    let mut expected = expected_header();
    expected.push_str(expected_footer());
    assert_eq!(text, expected);
}

#[test]
fn generation_is_deterministic() {
    let code = tokenize("34 35 + . 1 1 = . nop");
    let first = generate_asm(&code);
    let second = generate_asm(&code);
    assert_eq!(first, second);
}

#[test]
fn sub_computes_first_pushed_minus_second_pushed() {
    // For source `a b -` the generated code must compute a - b: the pops
    // land b in rax and a in rbx, so the subtraction is rbx - rax.
    let text = generate_asm(&tokenize("7 3 -"));
    let mut expected = expected_header();
    expected.push_str("    push 7\n");
    expected.push_str("    push 3\n");
    expected.push_str("    pop rax\n    pop rbx\n    sub rbx, rax\n    push rbx\n");
    expected.push_str(expected_footer());
    assert_eq!(text, expected);
}

#[test]
fn div_computes_first_pushed_over_second_pushed() {
    // For source `a b /` the generated code must compute a / b: the
    // divisor b is popped first into rbx, the dividend a into rax, and
    // cqo/idiv divides rdx:rax by rbx, signed and truncating.
    let text = generate_asm(&tokenize("7 2 /"));
    let mut expected = expected_header();
    expected.push_str("    push 7\n");
    expected.push_str("    push 2\n");
    expected.push_str("    pop rbx\n    pop rax\n    cqo\n    idiv rbx\n    push rax\n");
    expected.push_str(expected_footer());
    assert_eq!(text, expected);
}

#[test]
fn add_print_scenario_text() {
    let text = generate_asm(&tokenize("34 35 + ."));
    let mut expected = expected_header();
    expected.push_str("    push 34\n");
    expected.push_str("    push 35\n");
    expected.push_str("    pop rax\n    pop rbx\n    add rax, rbx\n    push rax\n");
    expected.push_str("    pop rdi\n    call dump\n");
    expected.push_str(expected_footer());
    assert_eq!(text, expected);
}

#[test]
fn equal_print_scenario_text() {
    let text = generate_asm(&tokenize("1 1 = ."));
    let mut expected = expected_header();
    expected.push_str("    push 1\n");
    expected.push_str("    push 1\n");
    expected.push_str(
        "    mov rcx, 0\n    mov rdx, 1\n    pop rax\n    pop rbx\n    cmp rax, rbx\n    cmove rcx, rdx\n    push rcx\n",
    );
    expected.push_str("    pop rdi\n    call dump\n");
    expected.push_str(expected_footer());
    assert_eq!(text, expected);
}

#[test]
fn mul_div_nop_blocks() {
    let text = generate_asm(&tokenize("6 7 * 2 / nop ."));
    let mut expected = expected_header();
    expected.push_str("    push 6\n");
    expected.push_str("    push 7\n");
    expected.push_str("    pop rax\n    pop rbx\n    imul rbx, rax\n    push rbx\n");
    expected.push_str("    push 2\n");
    expected.push_str("    pop rbx\n    pop rax\n    cqo\n    idiv rbx\n    push rax\n");
    expected.push_str("    nop\n");
    expected.push_str("    pop rdi\n    call dump\n");
    expected.push_str(expected_footer());
    assert_eq!(text, expected);
}

#[test]
fn conditional_branches_aim_at_their_own_group() {
    // Positions: 0 push, 1 if, 2 push, 3 print, 4 else, 5 push, 6 print,
    // 7 end. The if branches to its else's position, the else jumps to
    // its end's position, and each closer defines its own label.
    let text = generate_asm(&tokenize("1 if 2 . else 3 . end"));
    let mut expected = expected_header();
    expected.push_str("    push 1\n");
    expected.push_str("    pop rax\n    test rax, rax\n    jz .addr_4\n");
    expected.push_str("    push 2\n");
    expected.push_str("    pop rdi\n    call dump\n");
    expected.push_str("    jmp .addr_7\n\n.addr_4:\n");
    expected.push_str("    push 3\n");
    expected.push_str("    pop rdi\n    call dump\n");
    expected.push_str("\n.addr_7:\n");
    expected.push_str(expected_footer());
    assert_eq!(text, expected);
}

#[test]
fn if_without_else_branches_to_its_end() {
    // Positions: 0 push, 1 if, 2 push, 3 print, 4 end: the if branches
    // straight to the end's label.
    let text = generate_asm(&tokenize("1 if 2 . end"));
    let mut expected = expected_header();
    expected.push_str("    push 1\n");
    expected.push_str("    pop rax\n    test rax, rax\n    jz .addr_4\n");
    expected.push_str("    push 2\n");
    expected.push_str("    pop rdi\n    call dump\n");
    expected.push_str("\n.addr_4:\n");
    expected.push_str(expected_footer());
    assert_eq!(text, expected);
}

#[test]
fn two_conditionals_get_distinct_labels() {
    let text = generate_asm(&tokenize("1 if 2 . else 3 . end 0 if 4 . else 5 . end"));
    let mut expected = expected_header();
    expected.push_str("    push 1\n");
    expected.push_str("    pop rax\n    test rax, rax\n    jz .addr_4\n");
    expected.push_str("    push 2\n");
    expected.push_str("    pop rdi\n    call dump\n");
    expected.push_str("    jmp .addr_7\n\n.addr_4:\n");
    expected.push_str("    push 3\n");
    expected.push_str("    pop rdi\n    call dump\n");
    expected.push_str("\n.addr_7:\n");
    expected.push_str("    push 0\n");
    expected.push_str("    pop rax\n    test rax, rax\n    jz .addr_12\n");
    expected.push_str("    push 4\n");
    expected.push_str("    pop rdi\n    call dump\n");
    expected.push_str("    jmp .addr_15\n\n.addr_12:\n");
    expected.push_str("    push 5\n");
    expected.push_str("    pop rdi\n    call dump\n");
    expected.push_str("\n.addr_15:\n");
    expected.push_str(expected_footer());
    assert_eq!(text, expected);
}

#[test]
fn nested_conditionals_get_distinct_labels() {
    // Positions: 0 push, 1 if, 2 push, 3 if, 4 push, 5 print, 6 end,
    // 7 end: the inner if closes at 6, the outer at 7.
    let text = generate_asm(&tokenize("1 if 1 if 2 . end end"));
    let mut expected = expected_header();
    expected.push_str("    push 1\n");
    expected.push_str("    pop rax\n    test rax, rax\n    jz .addr_7\n");
    expected.push_str("    push 1\n");
    expected.push_str("    pop rax\n    test rax, rax\n    jz .addr_6\n");
    expected.push_str("    push 2\n");
    expected.push_str("    pop rdi\n    call dump\n");
    expected.push_str("\n.addr_6:\n");
    expected.push_str("\n.addr_7:\n");
    expected.push_str(expected_footer());
    assert_eq!(text, expected);
}

#[test]
fn push_literal_is_emitted_verbatim() {
    // The push word is not validated here; whatever the word was, it is
    // spliced into the push line unchanged.
    let text = generate_asm(&vec![Op::Push(String::from("banana"))]);
    let mut expected = expected_header();
    expected.push_str("    push banana\n");
    expected.push_str(expected_footer());
    assert_eq!(text, expected);
}
