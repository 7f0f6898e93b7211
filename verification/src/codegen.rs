use crate::ops::{ops_view, Op, OpV};
use crate::tokenizer::{is_space, lemma_blank_source, lower_spec};
use vstd::prelude::*;

verus! {

/// The decimal-print routine: it destructively converts the value handed
/// to it in rdi to ASCII digits, with a trailing newline, on a scratch
/// buffer, and writes exactly those bytes to standard output. The value
/// is read as an unsigned 64-bit integer.
pub open spec fn dump_routine() -> Seq<char> {
    "dump:
    mov     r8, -3689348814741910323
    sub     rsp, 40
    mov     BYTE [rsp+31], 10
    lea     rcx, [rsp+30]
.L2:
    mov     rax, rdi
    mul     r8
    mov     rax, rdi
    shr     rdx, 3
    lea     rsi, [rdx+rdx*4]
    add     rsi, rsi
    sub     rax, rsi
    mov     rsi, rcx
    sub     rcx, 1
    add     eax, 48
    mov     BYTE [rcx+1], al
    mov     rax, rdi
    mov     rdi, rdx
    cmp     rax, 9
    ja      .L2
    lea     rdx, [rsp+32]
    mov     edi, 1
    sub     rdx, rsi
    mov     rax, 1
    syscall
    add     rsp, 40
    ret\n\n"@
}

/// The fixed text before the per-operation blocks: the section
/// declaration, the decimal-print routine, and the entry point.
pub open spec fn asm_header() -> Seq<char> {
    "segment .text\n"@ + dump_routine() + "global _start\n_start:\n"@
}

/// The fixed text after the per-operation blocks: a process exit with
/// status 0, whatever the operand stack holds.
pub open spec fn asm_footer() -> Seq<char> {
    "    mov rax, 60\n    mov rdi, 0\n    syscall\n"@
}

/// The decimal digit for one value below ten.
pub open spec fn digit_char(d: int) -> char {
    if d == 0 {
        '0'
    } else if d == 1 {
        '1'
    } else if d == 2 {
        '2'
    } else if d == 3 {
        '3'
    } else if d == 4 {
        '4'
    } else if d == 5 {
        '5'
    } else if d == 6 {
        '6'
    } else if d == 7 {
        '7'
    } else if d == 8 {
        '8'
    } else {
        '9'
    }
}

/// The decimal text of a non-negative number, most significant digit
/// first and without leading zeros.
pub open spec fn dec_seq(n: int) -> Seq<char>
    decreases n,
{
    if n < 0 {
        Seq::empty()
    } else if n < 10 {
        seq![digit_char(n)]
    } else {
        dec_seq(n / 10).push(digit_char(n % 10))
    }
}

/// One step of branch resolution, walking the sequence from position `i`
/// with a stack `st` of open conditional groups, innermost last: a frame
/// holds the position whose branch the group's closer will aim, first
/// the `If`'s, then — once an `Else` took the branch over — the `Else`'s,
/// with the flag telling which. `tg` starts as the identity, so a
/// position that never finds its closer keeps itself as target.
pub open spec fn resolve_rec(ops: Seq<OpV>, i: int, st: Seq<(int, bool)>, tg: Seq<int>) -> Seq<int>
    decreases ops.len() - i,
{
    if i < 0 || i >= ops.len() {
        tg
    } else {
        match ops[i] {
            OpV::If => resolve_rec(ops, i + 1, st.push((i, false)), tg),
            OpV::Else => {
                if st.len() > 0 && !st.last().1 {
                    resolve_rec(
                        ops,
                        i + 1,
                        st.drop_last().push((i, true)),
                        tg.update(st.last().0, i),
                    )
                } else {
                    resolve_rec(ops, i + 1, st, tg)
                }
            },
            OpV::End => {
                if st.len() > 0 {
                    resolve_rec(ops, i + 1, st.drop_last(), tg.update(st.last().0, i))
                } else {
                    resolve_rec(ops, i + 1, st, tg)
                }
            },
            _ => resolve_rec(ops, i + 1, st, tg),
        }
    }
}

/// The branch target of every position: an `If` aims at the `Else` or
/// `End` that closes its group, an `Else` at the `End` that closes it,
/// and every other position — an `If` or `Else` left open included —
/// at itself. Non-control positions never read their entry.
pub open spec fn branch_targets(ops: Seq<OpV>) -> Seq<int> {
    resolve_rec(ops, 0, Seq::empty(), Seq::new(ops.len() as nat, |j: int| j))
}

/// The assembly block of the operation standing at position `i` with
/// branch target `t`. The operand stack is the native stack. The binary
/// operations follow push order: `Sub` pops the subtrahend into `rax`
/// and the minuend into `rbx` and subtracts `rbx - rax`; `Div` pops the
/// divisor into `rbx` and the dividend into `rax` and divides
/// `rax / rbx`, signed and truncating. Both compute first-pushed against
/// second-pushed.
///
/// Branch labels are named from instruction positions, so they are
/// distinct across conditional groups, nested ones included: each `Else`
/// and each `End` defines the label of its own position and nothing else
/// defines any label; an `If` branches forward to the position of the
/// `Else` or `End` that closes its group, and an `Else` jumps on to the
/// position of its closing `End`. With balanced markers every referenced
/// label is therefore defined exactly once, by the instruction whose
/// position names it. An `If` that nothing closes branches to its own
/// position, which no block defines, so the downstream assembler reports
/// the imbalance; an `Else` without a closing `End` jumps to the label
/// it defines itself, and an `End` with no open `If` defines an
/// unreferenced label.
pub open spec fn emit_op(op: OpV, i: int, t: int) -> Seq<char> {
    match op {
        OpV::Push(w) => "    push "@ + w + "\n"@,
        OpV::Add => "    pop rax\n    pop rbx\n    add rax, rbx\n    push rax\n"@,
        OpV::Sub => "    pop rax\n    pop rbx\n    sub rbx, rax\n    push rbx\n"@,
        OpV::Mul => "    pop rax\n    pop rbx\n    imul rbx, rax\n    push rbx\n"@,
        OpV::Div => "    pop rbx\n    pop rax\n    cqo\n    idiv rbx\n    push rax\n"@,
        OpV::Equal => "    mov rcx, 0\n    mov rdx, 1\n    pop rax\n    pop rbx\n    cmp rax, rbx\n    cmove rcx, rdx\n    push rcx\n"@,
        OpV::Print => "    pop rdi\n    call dump\n"@,
        OpV::If => "    pop rax\n    test rax, rax\n    jz .addr_"@ + dec_seq(t) + "\n"@,
        OpV::Else => "    jmp .addr_"@ + dec_seq(t) + "\n\n.addr_"@ + dec_seq(i) + ":\n"@,
        OpV::End => "\n.addr_"@ + dec_seq(i) + ":\n"@,
        OpV::Nop => "    nop\n"@,
    }
}

/// The per-operation blocks from position `i` on, in sequence order,
/// each with its own position and its branch target.
pub open spec fn emit_from(ops: Seq<OpV>, tg: Seq<int>, i: int) -> Seq<char>
    decreases ops.len() - i,
{
    if i < 0 || i >= ops.len() {
        Seq::empty()
    } else {
        emit_op(ops[i], i, tg[i]) + emit_from(ops, tg, i + 1)
    }
}

/// The complete generated text for an instruction sequence.
pub open spec fn asm_of(ops: Seq<OpV>) -> Seq<char> {
    asm_header() + emit_from(ops, branch_targets(ops), 0) + asm_footer()
}

/// The empty instruction sequence generates the fixed preamble and the
/// exit sequence alone: no per-operation block at all.
pub proof fn lemma_asm_of_empty()
    ensures
        asm_of(Seq::empty()) == asm_header() + asm_footer(),
{
    let tg = branch_targets(Seq::empty());
    assert(emit_from(Seq::empty(), tg, 0) == Seq::<char>::empty());
    assert(asm_header() + Seq::<char>::empty() + asm_footer() =~= asm_header() + asm_footer());
}

/// An empty or all-whitespace source lowers to the empty sequence and so
/// generates the fixed preamble and the exit sequence alone.
pub proof fn lemma_blank_source_program(s: Seq<char>)
    requires
        forall|i: int| 0 <= i < s.len() ==> is_space(s[i]),
    ensures
        asm_of(lower_spec(s)) == asm_header() + asm_footer(),
{
    lemma_blank_source(s);
    lemma_asm_of_empty();
}

/// Label names are injective: the decimal text of a position determines
/// the position, so no two instructions ever name, and in particular
/// never define, the same label.
pub proof fn lemma_dec_seq_injective(a: int, b: int)
    requires
        0 <= a,
        0 <= b,
        a != b,
    ensures
        dec_seq(a) != dec_seq(b),
    decreases a + b,
{
    assert(forall|x: int, y: int|
        0 <= x < 10 && 0 <= y < 10 && x != y ==> digit_char(x) != digit_char(y));
    if a < 10 && b < 10 {
        assert(dec_seq(a)[0] == digit_char(a) && dec_seq(b)[0] == digit_char(b));
    } else if a < 10 {
        assert(dec_seq(b / 10).len() >= 1);
        assert(dec_seq(a).len() == 1 && dec_seq(b).len() >= 2);
    } else if b < 10 {
        assert(dec_seq(a / 10).len() >= 1);
        assert(dec_seq(b).len() == 1 && dec_seq(a).len() >= 2);
    } else {
        if a % 10 != b % 10 {
            assert(dec_seq(a).last() == digit_char(a % 10));
            assert(dec_seq(b).last() == digit_char(b % 10));
        } else {
            assert(a / 10 != b / 10);
            lemma_dec_seq_injective(a / 10, b / 10);
            if dec_seq(a) == dec_seq(b) {
                assert(dec_seq(a).len() == dec_seq(b).len());
                assert(dec_seq(a / 10).len() == dec_seq(b / 10).len());
                assert forall|k: int|
                    0 <= k < dec_seq(a / 10).len() implies #[trigger] dec_seq(a / 10)[k] == dec_seq(
                    b / 10,
                )[k] by {
                    assert(dec_seq(a / 10)[k] == dec_seq(a / 10).push(digit_char(a % 10))[k]);
                    assert(dec_seq(b / 10)[k] == dec_seq(b / 10).push(digit_char(b % 10))[k]);
                }
                assert(dec_seq(a / 10) =~= dec_seq(b / 10));
            }
        }
    }
}

proof fn lemma_resolve_rec_aims(ops: Seq<OpV>, i: int, st: Seq<(int, bool)>, tg: Seq<int>)
    requires
        0 <= i,
        tg.len() == ops.len(),
        forall|k: int| 0 <= k < st.len() ==> 0 <= #[trigger] st[k].0 < i,
        forall|k: int|
            0 <= k < ops.len() ==> #[trigger] tg[k] == k || (k < tg[k] < ops.len() && (ops[tg[k]] is Else
                || ops[tg[k]] is End)),
    ensures
        resolve_rec(ops, i, st, tg).len() == ops.len(),
        forall|k: int|
            0 <= k < ops.len() ==> #[trigger] resolve_rec(ops, i, st, tg)[k] == k || (k
                < resolve_rec(ops, i, st, tg)[k] < ops.len() && (ops[resolve_rec(ops, i, st, tg)[k]] is Else
                || ops[resolve_rec(ops, i, st, tg)[k]] is End)),
    decreases ops.len() - i,
{
    if i >= ops.len() {
    } else {
        match ops[i] {
            OpV::If => {
                lemma_resolve_rec_aims(ops, i + 1, st.push((i, false)), tg);
            },
            OpV::Else => {
                if st.len() > 0 && !st.last().1 {
                    let p = st.last().0;
                    lemma_resolve_rec_aims(
                        ops,
                        i + 1,
                        st.drop_last().push((i, true)),
                        tg.update(p, i),
                    );
                } else {
                    lemma_resolve_rec_aims(ops, i + 1, st, tg);
                }
            },
            OpV::End => {
                if st.len() > 0 {
                    let p = st.last().0;
                    lemma_resolve_rec_aims(ops, i + 1, st.drop_last(), tg.update(p, i));
                } else {
                    lemma_resolve_rec_aims(ops, i + 1, st, tg);
                }
            },
            _ => {
                lemma_resolve_rec_aims(ops, i + 1, st, tg);
            },
        }
    }
}

/// Every resolved branch aims forward at an `Else` or an `End` — the one
/// that closes its group — or at the branching instruction's own
/// position when nothing closes it; and only `Else` and `End` blocks
/// define labels, each the label of its own position. With
/// `lemma_dec_seq_injective` this pins the labeling down: a branch
/// target other than the branch's own position is defined exactly once.
pub proof fn lemma_targets_aim_at_closers(ops: Seq<OpV>)
    ensures
        branch_targets(ops).len() == ops.len(),
        forall|k: int|
            0 <= k < ops.len() ==> #[trigger] branch_targets(ops)[k] == k || (k < branch_targets(
                ops,
            )[k] < ops.len() && (ops[branch_targets(ops)[k]] is Else || ops[branch_targets(ops)[k]] is End)),
{
    lemma_resolve_rec_aims(ops, 0, Seq::empty(), Seq::new(ops.len() as nat, |j: int| j));
}

spec fn st_view(st: Seq<(usize, bool)>) -> Seq<(int, bool)> {
    st.map_values(|f: (usize, bool)| (f.0 as int, f.1))
}

spec fn tg_view(tg: Seq<usize>) -> Seq<int> {
    tg.map_values(|x: usize| x as int)
}

/// The decimal text of one digit.
fn digit_str(d: usize) -> (s: &'static str)
    requires
        d < 10,
    ensures
        s@ == seq![digit_char(d as int)],
{
    proof {
        reveal_strlit("0");
        reveal_strlit("1");
        reveal_strlit("2");
        reveal_strlit("3");
        reveal_strlit("4");
        reveal_strlit("5");
        reveal_strlit("6");
        reveal_strlit("7");
        reveal_strlit("8");
        reveal_strlit("9");
    }
    let s = if d == 0 {
        "0"
    } else if d == 1 {
        "1"
    } else if d == 2 {
        "2"
    } else if d == 3 {
        "3"
    } else if d == 4 {
        "4"
    } else if d == 5 {
        "5"
    } else if d == 6 {
        "6"
    } else if d == 7 {
        "7"
    } else if d == 8 {
        "8"
    } else {
        "9"
    };
    proof {
        assert(s@ =~= seq![digit_char(d as int)]);
    }
    s
}

/// The decimal text of a number, most significant digit first.
fn dec_str(n: usize) -> (s: String)
    ensures
        s@ == dec_seq(n as int),
    decreases n,
{
    if n < 10 {
        String::from_str(digit_str(n))
    } else {
        let mut s = dec_str(n / 10);
        s.append(digit_str(n % 10));
        proof {
            assert(dec_seq((n / 10) as int) + seq![digit_char((n % 10) as int)] =~= dec_seq(
                (n / 10) as int,
            ).push(digit_char((n % 10) as int)));
        }
        s
    }
}

/// Resolves every branch in one pass: walks the sequence with a stack of
/// open conditional groups and records, for each `If` and each matched
/// `Else`, the position of the instruction that closes it; every other
/// position keeps itself.
fn compute_targets(code: &Vec<Op>) -> (tg: Vec<usize>)
    ensures
        tg@.len() == code@.len(),
        tg_view(tg@) == branch_targets(ops_view(code@)),
{
    let ghost ops = ops_view(code@);
    let n = code.len();
    let mut tg: Vec<usize> = Vec::new();
    let mut j: usize = 0;
    while j < n
        invariant
            j <= n,
            n == code@.len(),
            tg@.len() == j,
            forall|k: int| 0 <= k < j ==> tg@[k] == k,
        decreases n - j,
    {
        tg.push(j);
        j += 1;
    }
    proof {
        assert(tg_view(tg@) =~= Seq::new(ops.len() as nat, |k: int| k));
    }
    let mut st: Vec<(usize, bool)> = Vec::new();
    let mut i: usize = 0;
    proof {
        assert(st_view(st@) =~= Seq::<(int, bool)>::empty());
    }
    while i < n
        invariant
            i <= n,
            n == code@.len(),
            ops == ops_view(code@),
            tg@.len() == n,
            forall|k: int| 0 <= k < st@.len() ==> st@[k].0 < i,
            branch_targets(ops) == resolve_rec(ops, i as int, st_view(st@), tg_view(tg@)),
        decreases n - i,
    {
        let ghost st0 = st_view(st@);
        let ghost tg0 = tg_view(tg@);
        proof {
            assert(ops[i as int] == code@[i as int]@);
        }
        match &code[i] {
            Op::If => {
                st.push((i, false));
                proof {
                    assert(st_view(st@) =~= st0.push((i as int, false)));
                }
            },
            Op::Else => {
                let sl = st.len();
                if sl > 0 && !st[sl - 1].1 {
                    let p = st[sl - 1].0;
                    let _ = st.pop();
                    st.push((i, true));
                    tg.set(p, i);
                    proof {
                        assert(st0.last() == (p as int, false));
                        assert(st_view(st@) =~= st0.drop_last().push((i as int, true)));
                        assert(tg_view(tg@) =~= tg0.update(p as int, i as int));
                    }
                } else {
                    proof {
                        assert(st@.len() > 0 ==> st0.last() == (
                            st@[st@.len() - 1].0 as int,
                            st@[st@.len() - 1].1,
                        ));
                    }
                }
            },
            Op::End => {
                let sl = st.len();
                if sl > 0 {
                    let p = st[sl - 1].0;
                    let _ = st.pop();
                    tg.set(p, i);
                    proof {
                        assert(st0.last() == (p as int, st0.last().1));
                        assert(st_view(st@) =~= st0.drop_last());
                        assert(tg_view(tg@) =~= tg0.update(p as int, i as int));
                    }
                }
            },
            _ => {
            },
        }
        i += 1;
    }
    proof {
        assert(resolve_rec(ops, n as int, st_view(st@), tg_view(tg@)) == tg_view(tg@));
    }
    tg
}

/// Generates the complete assembly text for an instruction sequence: the
/// fixed preamble, then one block per operation in sequence order with
/// its resolved branch target, then the exit sequence. Total and
/// deterministic: the text is a function of the sequence alone.
pub fn generate_asm(code: &Vec<Op>) -> (text: String)
    ensures
        text@ == asm_of(ops_view(code@)),
{
    let ghost ops = ops_view(code@);
    let ghost tgs = branch_targets(ops);
    let tg = compute_targets(code);
    let mut out = String::new();
    out.append("segment .text\n");
    out.append(
        "dump:
    mov     r8, -3689348814741910323
    sub     rsp, 40
    mov     BYTE [rsp+31], 10
    lea     rcx, [rsp+30]
.L2:
    mov     rax, rdi
    mul     r8
    mov     rax, rdi
    shr     rdx, 3
    lea     rsi, [rdx+rdx*4]
    add     rsi, rsi
    sub     rax, rsi
    mov     rsi, rcx
    sub     rcx, 1
    add     eax, 48
    mov     BYTE [rcx+1], al
    mov     rax, rdi
    mov     rdi, rdx
    cmp     rax, 9
    ja      .L2
    lea     rdx, [rsp+32]
    mov     edi, 1
    sub     rdx, rsi
    mov     rax, 1
    syscall
    add     rsp, 40
    ret\n\n",
    );
    out.append("global _start\n_start:\n");
    proof {
        assert(out@ =~= asm_header());
    }
    let mut i: usize = 0;
    while i < code.len()
        invariant
            i <= code.len(),
            code@.len() == ops.len() && tg@.len() == ops.len(),
            ops == ops_view(code@),
            tgs == branch_targets(ops),
            tg_view(tg@) == tgs,
            out@ + emit_from(ops, tgs, i as int) == asm_header() + emit_from(ops, tgs, 0),
        decreases code.len() - i,
    {
        let ghost out0 = out@;
        proof {
            assert(ops[i as int] == code@[i as int]@);
            assert(tgs[i as int] == tg@[i as int] as int);
            assert(emit_from(ops, tgs, i as int) == emit_op(ops[i as int], i as int, tgs[i as int])
                + emit_from(ops, tgs, i as int + 1));
        }
        match &code[i] {
            Op::Push(w) => {
                out.append("    push ");
                out.append(w.as_str());
                out.append("\n");
            },
            Op::Add => {
                out.append("    pop rax\n    pop rbx\n    add rax, rbx\n    push rax\n");
            },
            Op::Sub => {
                out.append("    pop rax\n    pop rbx\n    sub rbx, rax\n    push rbx\n");
            },
            Op::Mul => {
                out.append("    pop rax\n    pop rbx\n    imul rbx, rax\n    push rbx\n");
            },
            Op::Div => {
                out.append("    pop rbx\n    pop rax\n    cqo\n    idiv rbx\n    push rax\n");
            },
            Op::Equal => {
                out.append(
                    "    mov rcx, 0\n    mov rdx, 1\n    pop rax\n    pop rbx\n    cmp rax, rbx\n    cmove rcx, rdx\n    push rcx\n",
                );
            },
            Op::Print => {
                out.append("    pop rdi\n    call dump\n");
            },
            Op::If => {
                out.append("    pop rax\n    test rax, rax\n    jz .addr_");
                let t = dec_str(tg[i]);
                out.append(t.as_str());
                out.append("\n");
            },
            Op::Else => {
                out.append("    jmp .addr_");
                let t = dec_str(tg[i]);
                out.append(t.as_str());
                out.append("\n\n.addr_");
                let own = dec_str(i);
                out.append(own.as_str());
                out.append(":\n");
            },
            Op::End => {
                out.append("\n.addr_");
                let own = dec_str(i);
                out.append(own.as_str());
                out.append(":\n");
            },
            Op::Nop => {
                out.append("    nop\n");
            },
        }
        proof {
            assert(out@ =~= out0 + emit_op(ops[i as int], i as int, tgs[i as int]));
            assert(out@ + emit_from(ops, tgs, i as int + 1) =~= out0 + emit_from(
                ops,
                tgs,
                i as int,
            ));
        }
        i += 1;
    }
    proof {
        assert(emit_from(ops, tgs, code@.len() as int) == Seq::<char>::empty());
        assert(out@ + Seq::<char>::empty() =~= out@);
    }
    out.append("    mov rax, 60\n    mov rdi, 0\n    syscall\n");
    proof {
        assert(out@ =~= asm_of(ops));
    }
    out
}

} // verus!
