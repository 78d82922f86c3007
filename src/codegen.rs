use vstd::prelude::*;

use crate::parse::{
    lemma_funcs_view_index, lemma_ops_view_index, ops_view, Context, CtxView, FuncView, Op,
    OpView, Program,
};
use crate::text::{chars_of, string_of};

verus! {

/// The decimal digit for `d`.
pub open spec fn digit_char(d: nat) -> char {
    if d == 0 {
        '0'
    } else if d == 1 {
        '1'
    } else if d == 2 {
        '2'
    } else if d == 3 {
        '3'
    } else if d == 4 {
        '4'
    } else if d == 5 {
        '5'
    } else if d == 6 {
        '6'
    } else if d == 7 {
        '7'
    } else if d == 8 {
        '8'
    } else {
        '9'
    }
}

/// `n` written in decimal, without leading zeros.
pub open spec fn decimal(n: nat) -> Seq<char>
    decreases n,
{
    if n < 10 {
        seq![digit_char(n)]
    } else {
        decimal(n / 10).push(digit_char(n % 10))
    }
}

fn digit(d: u128) -> (r: char)
    requires
        d < 10,
    ensures
        r == digit_char(d as nat),
{
    if d == 0 {
        '0'
    } else if d == 1 {
        '1'
    } else if d == 2 {
        '2'
    } else if d == 3 {
        '3'
    } else if d == 4 {
        '4'
    } else if d == 5 {
        '5'
    } else if d == 6 {
        '6'
    } else if d == 7 {
        '7'
    } else if d == 8 {
        '8'
    } else {
        '9'
    }
}

/// Appends `n` in decimal.
fn push_decimal(out: &mut Vec<char>, n: u128)
    ensures
        final(out)@ == old(out)@ + decimal(n as nat),
    decreases n,
{
    if n >= 10 {
        push_decimal(out, n / 10);
    }
    out.push(digit(n % 10));
    proof {
        if n >= 10 {
            assert(final(out)@ =~= old(out)@ + decimal(n as nat));
        } else {
            assert(final(out)@ =~= old(out)@ + decimal(n as nat));
        }
    }
}

/// Appends the characters of `s`.
fn push_str(out: &mut Vec<char>, s: &str)
    ensures
        final(out)@ == old(out)@ + s@,
{
    let mut v = chars_of(s);
    out.append(&mut v);
}


/// A number as the emitted text writes it: in decimal.
pub open spec fn dec(n: int) -> Seq<char> {
    decimal(n as nat)
}

/// How far the label counter moves over an operation.
pub open spec fn op_count(o: OpView) -> nat
    decreases o,
{
    match o {
        OpView::Equals | OpView::Neq | OpView::GreaterThan | OpView::LessThan | OpView::Or
        | OpView::And => 2,
        OpView::If(b) => 2 + ops_count(b),
        OpView::While(cd, b) => 3 + ops_count(cd) + ops_count(b),
        OpView::Bind(_, _, b) => 1 + ops_count(b),
        _ => 1,
    }
}

/// How far the label counter moves over a sequence of operations.
pub open spec fn ops_count(s: Seq<OpView>) -> nat
    decreases s,
{
    if s.len() == 0 {
        0
    } else {
        op_count(s[0]) + ops_count(s.drop_first())
    }
}

/// The end of a comparison whose true branch jumps to `J<k>`: push 0, or 1 at `J<k>`.
pub open spec fn tail_false_true(k: int) -> Seq<char> {
    "\n\tpush\t0\n\tjmp\tJ"@ + dec(k + 1) + "\nJ"@ + dec(k) + ":\n\tpush\t1\nJ"@ + dec(k + 1) + ":\n"@
}

/// The copies that a binding of `count` values makes, from the `i`-th on.
pub open spec fn bind_copies(i: int, count: int) -> Seq<char>
    decreases count - i,
{
    if i >= count {
        seq![]
    } else {
        "\tmov\trbx, [rsp + "@ + dec(i * 8) + "]\n\tmov\t[rax+"@ + dec(i * 8) + "], rbx\n"@
            + bind_copies(i + 1, count)
    }
}

/// The assembly for an operation, with the label counter at `k`, in context `c`.
pub open spec fn op_text(o: OpView, k: int, c: CtxView) -> Seq<char>
    decreases o,
{
    match o {
        OpView::CallFn(index) => "\tmov\trax, [ret_stack_rsp]\t; Op::CallFn("@ + dec(index as int)
            + ")\n\tsub\trax, 8\n\tmov\t[ret_stack_rsp], rax\n\tmov\tqword [rax], RET"@ + dec(k)
            + "\n\tjmp\tfn_"@ + c.lookup[index as int] + "\nRET"@ + dec(k)
            + ":\n\tmov\trax, [ret_stack_rsp]\n\tadd\trax, 8\n\tmov\t[ret_stack_rsp], rax\n"@,
        OpView::Ret(n) => if n == 0 {
            "\tmov\trax, qword [ret_stack_rsp]\t; Op::Ret(0)\n\tjmp qword [rax]\n"@
        } else {
            "\tmov\trax, [ret_stack_rsp]\t; Op::Ret("@ + dec(n as int) + ")\n\tadd\trax, "@ + dec(
                n * 8,
            ) + "\n\tmov\tqword [ret_stack_rsp], rax\n\tjmp\tqword [rax]\n"@
        },
        OpView::Bind(count, peek, b) => "\tmov\trax, [ret_stack_rsp]\t; Op::Bind("@ + dec(
            count as int,
        ) + ")\n\tsub\trax, "@ + dec(count * 8) + "\n\tmov\t[ret_stack_rsp], rax\n"@
            + bind_copies(0, count as int) + (if peek {
            seq![]
        } else {
            "\tadd\trsp, "@ + dec(count * 8) + "\n"@
        }) + ops_text(b, k, c) + "\tmov\trax, [ret_stack_rsp]\n\tadd\trax, "@ + dec(count * 8)
            + "\n\tmov\tqword [ret_stack_rsp], rax\n"@,
        OpView::PushBind(index) => "\tmov\trax, [ret_stack_rsp]\t; Op::PushBind("@ + dec(
            index as int,
        ) + ")\n\tadd\trax, "@ + dec(index * 8) + "\n\tpush\tqword [rax]\n"@,
        OpView::PushInt(val) => "\tpush\t"@ + dec(val as int) + "\t\t\t; Op::PushInt("@ + dec(
            val as int,
        ) + ")\n"@,
        OpView::PushStrPtr(index) => "\tpush\tstr_"@ + dec(index as int) + "\t\t\t; Op::PushStrPtr("@
            + dec(index as int) + ")\n"@,
        OpView::Plus => "\tpop\trax\t\t\t; Op::Plus\n\tpop\trbx\n\tadd\trax, rbx\n\tpush\trax\n"@,
        OpView::Minus => "\tpop\trbx\t\t\t; Op::Minus\n\tpop\trax\n\tsub\trax, rbx\n\tpush\trax\n"@,
        OpView::DivMod =>
            "\tpop\trbx\t\t\t; Op::DivMod\n\tpop\trax\n\tmov\trdx, 0\n\tdiv\trbx\n\tpush\trax\n\tpush\trdx\n"@,
        OpView::Dup => "\tpush\tqword [rsp]\t\t; Op::Dup\n"@,
        OpView::Drop => "\tadd\trsp, 8\t\t\t; Op::Drop\n"@,
        OpView::Swap => "\tpop\trax\t\t\t; Op::Swap\n\tpop\trbx\n\tpush\trax\n\tpush\trbx\n"@,
        OpView::Over =>
            "\tpop\trax\t\t\t; Op::Over\n\tpop\trbx\n\tpop\trcx\n\tpush\trbx\n\tpush\trax\n\tpush\trcx\n"@,
        OpView::Equals => "\tpop\trax\t\t\t; Op::Equals\n\tpop\trbx\n\tcmp\trax, rbx\n\tje\tJ"@ + dec(k)
            + tail_false_true(k),
        OpView::Neq => "\tpop\trax\t\t\t; Op::Neq\n\tpop\trbx\n\tcmp\trax, rbx\n\tjne\tJ"@ + dec(k)
            + tail_false_true(k),
        OpView::GreaterThan => "\tpop\trax\t\t\t; Op::GreaterThan\n\tpop\trbx\n\tcmp\trax, rbx\n\tjb\tJ"@
            + dec(k) + tail_false_true(k),
        OpView::LessThan => "\tpop\trax\t\t\t; Op::LessThan\n\tpop\trbx\n\tcmp\trbx, rax\n\tjb\tJ"@
            + dec(k) + tail_false_true(k),
        OpView::Or => "\tpop\trax\t\t\t; Op::Or\n\tpop\trbx\n\tcmp\trax, 1\n\tje\tJ"@ + dec(k)
            + "\n\tcmp\trbx, 1\n\tje\tJ"@ + dec(k) + tail_false_true(k),
        OpView::And => "\tpop\trax\t\t\t; Op::And\n\tpop\trbx\n\tcmp\trax, rbx\n\tjne\tJ"@ + dec(k)
            + "\n\tcmp\trax, 1\n\tjne\tJ"@ + dec(k) + "\n\tpush\t1\n\tjmp\tJ"@ + dec(k + 1) + "\nJ"@
            + dec(k) + ":\n\tpush\t0\nJ"@ + dec(k + 1) + ":\n"@,
        OpView::Not => "\tpop\trax\t\t\t; Op::Not\n\tmov\trbx, 1\n\tsub\trbx, rax\n\tpush\trbx\n"@,
        OpView::ReadByte =>
            "\tpop\trbx\t\t\t; Op::ReadByte\n\tmov\trax, 0\n\tmov\tal, byte [rbx]\n\tpush\trax\n"@,
        OpView::If(b) => "\tpop\trax\t\t\t; Op::If\n\tcmp\trax, 1\n\tjne\tF"@ + dec(k) + "\n"@
            + ops_text(b, k + 1, c) + "F"@ + dec(k) + ":\n"@,
        OpView::While(cd, b) => "F"@ + dec(k) + ":\t\t\t\t\t; Op::While\n"@ + ops_text(cd, k + 2, c)
            + "\tpop\trax\n\tcmp\trax, 1\n\tjne\tF"@ + dec(k + 1) + "\n"@ + ops_text(
            b,
            k + 2 + ops_count(cd),
            c,
        ) + "\tjmp F"@ + dec(k) + "\nF"@ + dec(k + 1) + ":\n"@,
        OpView::Print => "\tpop\trdi\t\t\t; Op::Print\n\tcall\tprint\n"@,
        OpView::Puts => "\tmov\trdi, 1\t\t\t; Op::Puts\n\tpop\trsi\n\tpop\trdx\n\tmov\trax, 1\n\tsyscall\n"@,
    }
}

/// The assembly for a sequence of operations, with the label counter at `k` first.
pub open spec fn ops_text(s: Seq<OpView>, k: int, c: CtxView) -> Seq<char>
    decreases s,
{
    if s.len() == 0 {
        seq![]
    } else {
        op_text(s[0], k, c) + ops_text(s.drop_first(), k + op_count(s[0]), c)
    }
}


/// Whether every call in `o` names one of `n` function symbols.
pub open spec fn op_calls_ok(o: OpView, n: nat) -> bool
    decreases o,
{
    match o {
        OpView::CallFn(i) => i < n,
        OpView::If(b) => forall|j: int| 0 <= j < b.len() ==> op_calls_ok(#[trigger] b[j], n),
        OpView::While(cd, b) => (forall|j: int| 0 <= j < cd.len() ==> op_calls_ok(#[trigger] cd[j], n))
            && (forall|j: int| 0 <= j < b.len() ==> op_calls_ok(#[trigger] b[j], n)),
        OpView::Bind(_, _, b) => forall|j: int| 0 <= j < b.len() ==> op_calls_ok(#[trigger] b[j], n),
        _ => true,
    }
}

/// Whether every call in `s` names one of `n` function symbols.
pub open spec fn ops_calls_ok(s: Seq<OpView>, n: nat) -> bool {
    forall|j: int| 0 <= j < s.len() ==> op_calls_ok(#[trigger] s[j], n)
}

fn push_tail_false_true(out: &mut Vec<char>, k: u64)
    requires
        k < u64::MAX,
    ensures
        final(out)@ == old(out)@ + tail_false_true(k as int),
{
    push_str(out, "\n\tpush\t0\n\tjmp\tJ");
    push_decimal(out, (k + 1) as u128);
    push_str(out, "\nJ");
    push_decimal(out, k as u128);
    push_str(out, ":\n\tpush\t1\nJ");
    push_decimal(out, (k + 1) as u128);
    push_str(out, ":\n");
    assert(final(out)@ =~= old(out)@ + tail_false_true(k as int));
}

fn push_bind_copies(out: &mut Vec<char>, count: usize)
    ensures
        final(out)@ == old(out)@ + bind_copies(0, count as int),
{
    let mut i: usize = 0;
    while i < count
        invariant
            i <= count,
            out@ + bind_copies(i as int, count as int) == old(out)@ + bind_copies(0, count as int),
        decreases count - i,
    {
        let ghost before = out@;
        push_str(out, "\tmov\trbx, [rsp + ");
        push_decimal(out, (i as u128) * 8);
        push_str(out, "]\n\tmov\t[rax+");
        push_decimal(out, (i as u128) * 8);
        push_str(out, "], rbx\n");
        assert(out@ + bind_copies(i + 1, count as int) =~= before + bind_copies(i as int, count as int));
        i = i + 1;
    }
}

/// Appends the assembly for an operation whose text does not depend on the label counter.
fn write_plain(op: &Op, k: u64, buffer: &mut Vec<char>, ctx: &Context)
    requires
        !(op is If || op is While || op is Bind || op is Equals || op is Neq || op is GreaterThan
            || op is LessThan || op is Or || op is And),
        op_calls_ok(op.view(), ctx.view().lookup.len()),
    ensures
        final(buffer)@ == old(buffer)@ + op_text(op.view(), k as int, ctx.view()),
{
    let ghost b0 = buffer@;
    match op {
        Op::CallFn(index) => {
            push_str(buffer, "\tmov\trax, [ret_stack_rsp]\t; Op::CallFn(");
            push_decimal(buffer, *index as u128);
            push_str(buffer, ")\n\tsub\trax, 8\n\tmov\t[ret_stack_rsp], rax\n\tmov\tqword [rax], RET");
            push_decimal(buffer, k as u128);
            push_str(buffer, "\n\tjmp\tfn_");
            let mut name = chars_of(ctx.lookup[*index].as_str());
            buffer.append(&mut name);
            push_str(buffer, "\nRET");
            push_decimal(buffer, k as u128);
            push_str(buffer, ":\n\tmov\trax, [ret_stack_rsp]\n\tadd\trax, 8\n\tmov\t[ret_stack_rsp], rax\n");
        },
        Op::Ret(n) => {
            if *n == 0 {
                push_str(buffer, "\tmov\trax, qword [ret_stack_rsp]\t; Op::Ret(0)\n\tjmp qword [rax]\n");
            } else {
                push_str(buffer, "\tmov\trax, [ret_stack_rsp]\t; Op::Ret(");
                push_decimal(buffer, *n as u128);
                push_str(buffer, ")\n\tadd\trax, ");
                push_decimal(buffer, (*n as u128) * 8);
                push_str(buffer, "\n\tmov\tqword [ret_stack_rsp], rax\n\tjmp\tqword [rax]\n");
            }
        },
        Op::PushBind(index) => {
            push_str(buffer, "\tmov\trax, [ret_stack_rsp]\t; Op::PushBind(");
            push_decimal(buffer, *index as u128);
            push_str(buffer, ")\n\tadd\trax, ");
            push_decimal(buffer, (*index as u128) * 8);
            push_str(buffer, "\n\tpush\tqword [rax]\n");
        },
        Op::PushInt(val) => {
            push_str(buffer, "\tpush\t");
            push_decimal(buffer, *val as u128);
            push_str(buffer, "\t\t\t; Op::PushInt(");
            push_decimal(buffer, *val as u128);
            push_str(buffer, ")\n");
        },
        Op::PushStrPtr(index) => {
            push_str(buffer, "\tpush\tstr_");
            push_decimal(buffer, *index as u128);
            push_str(buffer, "\t\t\t; Op::PushStrPtr(");
            push_decimal(buffer, *index as u128);
            push_str(buffer, ")\n");
        },
        Op::Plus => push_str(buffer, "\tpop\trax\t\t\t; Op::Plus\n\tpop\trbx\n\tadd\trax, rbx\n\tpush\trax\n"),
        Op::Minus => push_str(buffer, "\tpop\trbx\t\t\t; Op::Minus\n\tpop\trax\n\tsub\trax, rbx\n\tpush\trax\n"),
        Op::DivMod => push_str(
            buffer,
            "\tpop\trbx\t\t\t; Op::DivMod\n\tpop\trax\n\tmov\trdx, 0\n\tdiv\trbx\n\tpush\trax\n\tpush\trdx\n",
        ),
        Op::Dup => push_str(buffer, "\tpush\tqword [rsp]\t\t; Op::Dup\n"),
        Op::Drop => push_str(buffer, "\tadd\trsp, 8\t\t\t; Op::Drop\n"),
        Op::Swap => push_str(buffer, "\tpop\trax\t\t\t; Op::Swap\n\tpop\trbx\n\tpush\trax\n\tpush\trbx\n"),
        Op::Over => push_str(
            buffer,
            "\tpop\trax\t\t\t; Op::Over\n\tpop\trbx\n\tpop\trcx\n\tpush\trbx\n\tpush\trax\n\tpush\trcx\n",
        ),
        Op::Not => push_str(buffer, "\tpop\trax\t\t\t; Op::Not\n\tmov\trbx, 1\n\tsub\trbx, rax\n\tpush\trbx\n"),
        Op::ReadByte => push_str(
            buffer,
            "\tpop\trbx\t\t\t; Op::ReadByte\n\tmov\trax, 0\n\tmov\tal, byte [rbx]\n\tpush\trax\n",
        ),
        Op::Print => push_str(buffer, "\tpop\trdi\t\t\t; Op::Print\n\tcall\tprint\n"),
        Op::Puts => push_str(
            buffer,
            "\tmov\trdi, 1\t\t\t; Op::Puts\n\tpop\trsi\n\tpop\trdx\n\tmov\trax, 1\n\tsyscall\n",
        ),
        _ => {},
    }
    assert(buffer@ =~= b0 + op_text(op.view(), k as int, ctx.view()));
}

/// Appends the assembly for a comparison, which uses the labels `J<k>` and `J<k + 1>`.
fn write_comparison(op: &Op, k: u64, buffer: &mut Vec<char>, ctx: &Context)
    requires
        op is Equals || op is Neq || op is GreaterThan || op is LessThan || op is Or || op is And,
        k < u64::MAX,
    ensures
        final(buffer)@ == old(buffer)@ + op_text(op.view(), k as int, ctx.view()),
{
    let ghost b0 = buffer@;
    match op {
        Op::Equals => {
            push_str(buffer, "\tpop\trax\t\t\t; Op::Equals\n\tpop\trbx\n\tcmp\trax, rbx\n\tje\tJ");
            push_decimal(buffer, k as u128);
            push_tail_false_true(buffer, k);
        },
        Op::Neq => {
            push_str(buffer, "\tpop\trax\t\t\t; Op::Neq\n\tpop\trbx\n\tcmp\trax, rbx\n\tjne\tJ");
            push_decimal(buffer, k as u128);
            push_tail_false_true(buffer, k);
        },
        Op::GreaterThan => {
            push_str(buffer, "\tpop\trax\t\t\t; Op::GreaterThan\n\tpop\trbx\n\tcmp\trax, rbx\n\tjb\tJ");
            push_decimal(buffer, k as u128);
            push_tail_false_true(buffer, k);
        },
        Op::LessThan => {
            push_str(buffer, "\tpop\trax\t\t\t; Op::LessThan\n\tpop\trbx\n\tcmp\trbx, rax\n\tjb\tJ");
            push_decimal(buffer, k as u128);
            push_tail_false_true(buffer, k);
        },
        Op::Or => {
            push_str(buffer, "\tpop\trax\t\t\t; Op::Or\n\tpop\trbx\n\tcmp\trax, 1\n\tje\tJ");
            push_decimal(buffer, k as u128);
            push_str(buffer, "\n\tcmp\trbx, 1\n\tje\tJ");
            push_decimal(buffer, k as u128);
            push_tail_false_true(buffer, k);
        },
        _ => {
            push_str(buffer, "\tpop\trax\t\t\t; Op::And\n\tpop\trbx\n\tcmp\trax, rbx\n\tjne\tJ");
            push_decimal(buffer, k as u128);
            push_str(buffer, "\n\tcmp\trax, 1\n\tjne\tJ");
            push_decimal(buffer, k as u128);
            push_str(buffer, "\n\tpush\t1\n\tjmp\tJ");
            push_decimal(buffer, (k + 1) as u128);
            push_str(buffer, "\nJ");
            push_decimal(buffer, k as u128);
            push_str(buffer, ":\n\tpush\t0\nJ");
            push_decimal(buffer, (k + 1) as u128);
            push_str(buffer, ":\n");
        },
    }
    assert(buffer@ =~= b0 + op_text(op.view(), k as int, ctx.view()));
}

/// Appends the assembly for a binding block: reserve a frame, copy the values, run the
/// body, release the frame.
#[verifier::rlimit(100)]
fn write_bind(op: &Op, count_ops: &mut u64, buffer: &mut Vec<char>, ctx: &Context)
    requires
        op_calls_ok(op.view(), ctx.view().lookup.len()),
        *old(count_ops) + op_count(op.view()) <= u64::MAX,
        op is Bind,
    ensures
        final(buffer)@ == old(buffer)@ + op_text(op.view(), *old(count_ops) as int, ctx.view()),
        *final(count_ops) == *old(count_ops) + op_count(op.view()),
    decreases op, 1int,
{
    let k = *count_ops;
    let ghost b0 = buffer@;
    if let Op::Bind { count, peek, body } = op {
        push_str(buffer, "\tmov\trax, [ret_stack_rsp]\t; Op::Bind(");
        push_decimal(buffer, *count as u128);
        push_str(buffer, ")\n\tsub\trax, ");
        push_decimal(buffer, (*count as u128) * 8);
        push_str(buffer, "\n\tmov\t[ret_stack_rsp], rax\n");
        push_bind_copies(buffer, *count);
        if !*peek {
            push_str(buffer, "\tadd\trsp, ");
            push_decimal(buffer, (*count as u128) * 8);
            push_str(buffer, "\n");
        }
        write_ops(body, count_ops, buffer, ctx);
        push_str(buffer, "\tmov\trax, [ret_stack_rsp]\n\tadd\trax, ");
        push_decimal(buffer, (*count as u128) * 8);
        push_str(buffer, "\n\tmov\tqword [ret_stack_rsp], rax\n");
        *count_ops = *count_ops + 1;
        assert(buffer@ =~= b0 + op_text(op.view(), k as int, ctx.view()));
    }
}

/// Appends the assembly for a conditional block, which skips to `F<k>` unless the top is 1.
fn write_if(op: &Op, count_ops: &mut u64, buffer: &mut Vec<char>, ctx: &Context)
    requires
        op_calls_ok(op.view(), ctx.view().lookup.len()),
        *old(count_ops) + op_count(op.view()) <= u64::MAX,
        op is If,
    ensures
        final(buffer)@ == old(buffer)@ + op_text(op.view(), *old(count_ops) as int, ctx.view()),
        *final(count_ops) == *old(count_ops) + op_count(op.view()),
    decreases op, 1int,
{
    let k = *count_ops;
    let ghost b0 = buffer@;
    if let Op::If(ops) = op {
        *count_ops = *count_ops + 1;
        push_str(buffer, "\tpop\trax\t\t\t; Op::If\n\tcmp\trax, 1\n\tjne\tF");
        push_decimal(buffer, k as u128);
        push_str(buffer, "\n");
        write_ops(ops, count_ops, buffer, ctx);
        push_str(buffer, "F");
        push_decimal(buffer, k as u128);
        push_str(buffer, ":\n");
        *count_ops = *count_ops + 1;
        assert(buffer@ =~= b0 + op_text(op.view(), k as int, ctx.view()));
    }
}

/// Appends the assembly for a loop: its head is `F<k>`, its exit `F<k + 1>`.
#[verifier::rlimit(100)]
fn write_while(op: &Op, count_ops: &mut u64, buffer: &mut Vec<char>, ctx: &Context)
    requires
        op_calls_ok(op.view(), ctx.view().lookup.len()),
        *old(count_ops) + op_count(op.view()) <= u64::MAX,
        op is While,
    ensures
        final(buffer)@ == old(buffer)@ + op_text(op.view(), *old(count_ops) as int, ctx.view()),
        *final(count_ops) == *old(count_ops) + op_count(op.view()),
    decreases op, 1int,
{
    let k = *count_ops;
    let ghost b0 = buffer@;
    if let Op::While { condn, body } = op {
        *count_ops = *count_ops + 2;
        push_str(buffer, "F");
        push_decimal(buffer, k as u128);
        push_str(buffer, ":\t\t\t\t\t; Op::While\n");
        write_ops(condn, count_ops, buffer, ctx);
        push_str(buffer, "\tpop\trax\n\tcmp\trax, 1\n\tjne\tF");
        push_decimal(buffer, (k + 1) as u128);
        push_str(buffer, "\n");
        write_ops(body, count_ops, buffer, ctx);
        push_str(buffer, "\tjmp F");
        push_decimal(buffer, k as u128);
        push_str(buffer, "\nF");
        push_decimal(buffer, (k + 1) as u128);
        push_str(buffer, ":\n");
        *count_ops = *count_ops + 1;
        assert(buffer@ =~= b0 + op_text(op.view(), k as int, ctx.view()));
    }
}

/// Appends the assembly for `op`, with the label counter at `count_ops`, which it advances.
fn write_op(op: &Op, count_ops: &mut u64, buffer: &mut Vec<char>, ctx: &Context)
    requires
        op_calls_ok(op.view(), ctx.view().lookup.len()),
        *old(count_ops) + op_count(op.view()) <= u64::MAX,
    ensures
        final(buffer)@ == old(buffer)@ + op_text(op.view(), *old(count_ops) as int, ctx.view()),
        *final(count_ops) == *old(count_ops) + op_count(op.view()),
    decreases op, 2int,
{
    let k = *count_ops;
    match op {
        Op::Bind { .. } => write_bind(op, count_ops, buffer, ctx),
        Op::If(_) => write_if(op, count_ops, buffer, ctx),
        Op::While { .. } => write_while(op, count_ops, buffer, ctx),
        Op::Equals | Op::Neq | Op::GreaterThan | Op::LessThan | Op::Or | Op::And => {
            write_comparison(op, k, buffer, ctx);
            *count_ops = *count_ops + 2;
        },
        _ => {
            write_plain(op, k, buffer, ctx);
            *count_ops = *count_ops + 1;
        },
    }
}

/// Appends the assembly for each operation of `ops` in turn.
fn write_ops(ops: &Vec<Op>, count_ops: &mut u64, buffer: &mut Vec<char>, ctx: &Context)
    requires
        ops_calls_ok(ops_view(ops@), ctx.view().lookup.len()),
        *old(count_ops) + ops_count(ops_view(ops@)) <= u64::MAX,
    ensures
        final(buffer)@ == old(buffer)@ + ops_text(ops_view(ops@), *old(count_ops) as int, ctx.view()),
        *final(count_ops) == *old(count_ops) + ops_count(ops_view(ops@)),
    decreases ops, 0int,
{
    let ghost sv = ops_view(ops@);
    let ghost k0 = *count_ops as int;
    proof {
        lemma_ops_view_index(ops@);
        assert(sv.skip(0) == sv);
    }
    let mut i: usize = 0;
    while i < ops.len()
        invariant
            i <= ops@.len(),
            sv == ops_view(ops@),
            sv.len() == ops@.len(),
            forall|j: int| 0 <= j < ops@.len() ==> #[trigger] sv[j] == ops@[j].view(),
            ops_calls_ok(sv, ctx.view().lookup.len()),
            *count_ops + ops_count(sv.skip(i as int)) == k0 + ops_count(sv),
            k0 + ops_count(sv) <= u64::MAX,
            buffer@ + ops_text(sv.skip(i as int), *count_ops as int, ctx.view()) == old(buffer)@
                + ops_text(sv, k0, ctx.view()),
        decreases ops.len() - i,
    {
        let ghost b = buffer@;
        let ghost k = *count_ops as int;
        assert(sv.skip(i as int).drop_first() == sv.skip(i + 1));
        assert(sv.skip(i as int)[0] == sv[i as int]);
        write_op(&ops[i], count_ops, buffer, ctx);
        assert(b + ops_text(sv.skip(i as int), k, ctx.view()) == buffer@ + ops_text(
            sv.skip(i + 1),
            *count_ops as int,
            ctx.view(),
        ));
        i = i + 1;
    }
    assert(sv.skip(i as int).len() == 0);
    assert(buffer@ + ops_text(sv.skip(i as int), *count_ops as int, ctx.view()) == buffer@);
}


/// The ELF header and the integer-printing routine `print`, which writes `rdi` in decimal
/// and a newline to standard output.
pub const PRELUDE: &'static str = "format ELF64 executable 3
entry main
segment readable executable
print:
	mov	r9, -3689348814741910323
	sub	rsp, 40
	mov	BYTE [rsp+31], 10
	lea	rcx, [rsp+30]
.L2:
	mov	rax, rdi
	lea	r8, [rsp+32]
	mul	r9
	mov	rax, rdi
	sub	r8, rcx
	shr	rdx, 3
	lea	rsi, [rdx+rdx*4]
	add	rsi, rsi
	sub	rax, rsi
	add	eax, 48
	mov	BYTE [rcx], al
	mov	rax, rdi
	mov	rdi, rdx
	mov	rdx, rcx
	sub	rcx, 1
	cmp	rax, 9
	ja	.L2
	lea	rax, [rsp+32]
	mov	edi, 1
	sub	rdx, rax
	xor	eax, eax
	lea	rsi, [rsp+32+rdx]
	mov	rdx, r8
	mov	rax, 1
	syscall
	add	rsp, 40
	ret
";

/// The entry point: it sets up the return stack, calls `fn_main` and exits with status 0.
pub const MAIN_ENTRY: &'static str = "main:
	mov	rax, ret_stack_rsp
	sub	rax, 8
	mov	qword [ret_stack_rsp], rax
	mov	qword [rax], RET_MAIN
	call	fn_main
RET_MAIN:
	mov	rax, 60
	mov	rdi, 0
	syscall
segment readable
";

/// The writable segment: the return stack pointer and 64 KiB of return stack.
pub const RUNTIME: &'static str = "segment readable writable
ret_stack_rsp: rq 1
ret_stack: rb 65536
ret_stack_end:
";

/// The assembly for the functions `fs`, with the label counter at `k` first.
pub open spec fn funcs_text(fs: Seq<FuncView>, k: int, c: CtxView) -> Seq<char>
    decreases fs.len(),
{
    if fs.len() == 0 {
        seq![]
    } else {
        "fn_"@ + fs[0].0 + ":\n"@ + ops_text(fs[0].1, k, c) + funcs_text(
            fs.drop_first(),
            k + ops_count(fs[0].1),
            c,
        )
    }
}

/// How far the label counter moves over the functions `fs`.
pub open spec fn funcs_count(fs: Seq<FuncView>) -> nat
    decreases fs.len(),
{
    if fs.len() == 0 {
        0
    } else {
        ops_count(fs[0].1) + funcs_count(fs.drop_first())
    }
}

/// The UTF-8 encoding of `c`.
pub open spec fn utf8_bytes(c: char) -> Seq<u8> {
    let x = c as u32;
    if x < 0x80 {
        seq![x as u8]
    } else if x < 0x800 {
        seq![(0xc0 + x / 64) as u8, (0x80 + x % 64) as u8]
    } else if x < 0x10000 {
        seq![(0xe0 + x / 4096) as u8, (0x80 + (x / 64) % 64) as u8, (0x80 + x % 64) as u8]
    } else {
        seq![
            (0xf0 + x / 262144) as u8,
            (0x80 + (x / 4096) % 64) as u8,
            (0x80 + (x / 64) % 64) as u8,
            (0x80 + x % 64) as u8,
        ]
    }
}

/// The UTF-8 encoding of `s`.
pub open spec fn str_bytes(s: Seq<char>) -> Seq<u8>
    decreases s.len(),
{
    if s.len() == 0 {
        seq![]
    } else {
        utf8_bytes(s[0]) + str_bytes(s.drop_first())
    }
}

/// Each byte of `bs` in decimal, after a comma.
pub open spec fn comma_bytes(bs: Seq<u8>) -> Seq<char>
    decreases bs.len(),
{
    if bs.len() == 0 {
        seq![]
    } else {
        ","@ + dec(bs[0] as int) + comma_bytes(bs.drop_first())
    }
}

/// The bytes `bs` in decimal, separated by commas.
pub open spec fn bytes_text(bs: Seq<u8>) -> Seq<char> {
    if bs.len() == 0 {
        seq![]
    } else {
        dec(bs[0] as int) + comma_bytes(bs.drop_first())
    }
}

/// The data lines for the interned strings from the `i`-th on: `str_<i>: db b0,b1,...`.
pub open spec fn data_text(strings: Seq<Seq<char>>, i: int) -> Seq<char>
    decreases strings.len() - i,
{
    if i < 0 || i >= strings.len() {
        seq![]
    } else {
        "str_"@ + dec(i) + ": db "@ + bytes_text(str_bytes(strings[i])) + "\n"@ + data_text(
            strings,
            i + 1,
        )
    }
}

/// The whole assembly file for the functions `fs` in context `c`.
pub open spec fn program_text(fs: Seq<FuncView>, c: CtxView) -> Seq<char> {
    PRELUDE@ + funcs_text(fs, 0, c) + MAIN_ENTRY@ + data_text(c.strings, 0) + RUNTIME@
}

/// Whether the emitter can take the functions `fs`: every call names a known function, and
/// the labels can be counted in a `u64`.
pub open spec fn program_ok(fs: Seq<FuncView>, c: CtxView) -> bool {
    &&& forall|i: int| 0 <= i < fs.len() ==> ops_calls_ok(#[trigger] fs[i].1, c.lookup.len())
    &&& funcs_count(fs) <= u64::MAX
}

/// Why `generate` refused a program.
#[derive(Debug, PartialEq, Eq, Clone, Copy, Structural)]
pub enum GenerateError {
    /// A call names a function symbol that the context does not have, or the program has more
    /// labels than a `u64` counts.
    InvalidProgram,
}


/// How far the label counter moves over `op`, where every call in it names one of `n`
/// functions and the count fits in a `u64`.
fn op_label_count(op: &Op, n: usize) -> (r: Option<u64>)
    ensures
        match r {
            Some(x) => op_calls_ok(op.view(), n as nat) && x == op_count(op.view()),
            None => !(op_calls_ok(op.view(), n as nat) && op_count(op.view()) <= u64::MAX),
        },
    decreases op, 1int,
{
    proof {
        match op {
            Op::If(b) => lemma_ops_view_index(b@),
            Op::While { condn, body } => {
                lemma_ops_view_index(condn@);
                lemma_ops_view_index(body@);
            },
            Op::Bind { body, .. } => lemma_ops_view_index(body@),
            _ => {},
        }
    }
    match op {
        Op::CallFn(i) => if *i < n {
            Some(1)
        } else {
            None
        },
        Op::Equals | Op::Neq | Op::GreaterThan | Op::LessThan | Op::Or | Op::And => Some(2),
        Op::If(b) => match ops_label_count(b, n) {
            Some(x) => x.checked_add(2),
            None => None,
        },
        Op::While { condn, body } => match ops_label_count(condn, n) {
            Some(x) => match ops_label_count(body, n) {
                Some(y) => match x.checked_add(y) {
                    Some(z) => z.checked_add(3),
                    None => None,
                },
                None => None,
            },
            None => None,
        },
        Op::Bind { body, .. } => match ops_label_count(body, n) {
            Some(x) => x.checked_add(1),
            None => None,
        },
        _ => Some(1),
    }
}

/// How far the label counter moves over `ops`, where every call in them names one of `n`
/// functions and the count fits in a `u64`.
fn ops_label_count(ops: &Vec<Op>, n: usize) -> (r: Option<u64>)
    ensures
        match r {
            Some(x) => ops_calls_ok(ops_view(ops@), n as nat) && x == ops_count(ops_view(ops@)),
            None => !(ops_calls_ok(ops_view(ops@), n as nat) && ops_count(ops_view(ops@))
                <= u64::MAX),
        },
    decreases ops, 0int,
{
    let ghost sv = ops_view(ops@);
    proof {
        lemma_ops_view_index(ops@);
        assert(sv.skip(0) == sv);
    }
    let mut total: u64 = 0;
    let mut i: usize = 0;
    while i < ops.len()
        invariant
            i <= ops@.len(),
            sv == ops_view(ops@),
            sv.len() == ops@.len(),
            forall|j: int| 0 <= j < ops@.len() ==> #[trigger] sv[j] == ops@[j].view(),
            forall|j: int| 0 <= j < i ==> op_calls_ok(#[trigger] sv[j], n as nat),
            total + ops_count(sv.skip(i as int)) == ops_count(sv),
        decreases ops.len() - i,
    {
        assert(sv.skip(i as int).drop_first() == sv.skip(i + 1));
        assert(sv.skip(i as int)[0] == sv[i as int]);
        match op_label_count(&ops[i], n) {
            Some(x) => match total.checked_add(x) {
                Some(t) => {
                    total = t;
                },
                None => {
                    return None;
                },
            },
            None => {
                proof {
                    if op_calls_ok(sv[i as int], n as nat) {
                        assert(ops_count(sv) >= op_count(sv[i as int]));
                    }
                }
                return None;
            },
        }
        i = i + 1;
    }
    assert(sv.skip(i as int).len() == 0);
    Some(total)
}

/// Appends the UTF-8 encoding of `c`.
fn push_utf8(out: &mut Vec<u8>, c: char)
    ensures
        final(out)@ == old(out)@ + utf8_bytes(c),
{
    let x = c as u32;
    if x < 0x80 {
        out.push(x as u8);
    } else if x < 0x800 {
        out.push((0xc0 + x / 64) as u8);
        out.push((0x80 + x % 64) as u8);
    } else if x < 0x10000 {
        out.push((0xe0 + x / 4096) as u8);
        out.push((0x80 + (x / 64) % 64) as u8);
        out.push((0x80 + x % 64) as u8);
    } else {
        out.push((0xf0 + x / 262144) as u8);
        out.push((0x80 + (x / 4096) % 64) as u8);
        out.push((0x80 + (x / 64) % 64) as u8);
        out.push((0x80 + x % 64) as u8);
    }
    assert(final(out)@ =~= old(out)@ + utf8_bytes(c));
}

/// The UTF-8 encoding of `s`.
fn encode_utf8(s: &Vec<char>) -> (r: Vec<u8>)
    ensures
        r@ == str_bytes(s@),
{
    let mut out: Vec<u8> = Vec::new();
    let mut i: usize = 0;
    assert(s@.skip(0) == s@);
    while i < s.len()
        invariant
            i <= s@.len(),
            out@ + str_bytes(s@.skip(i as int)) == str_bytes(s@),
        decreases s.len() - i,
    {
        let ghost before = out@;
        assert(s@.skip(i as int).drop_first() == s@.skip(i + 1));
        push_utf8(&mut out, s[i]);
        assert(out@ + str_bytes(s@.skip(i + 1)) =~= before + str_bytes(s@.skip(i as int)));
        i = i + 1;
    }
    assert(s@.skip(i as int).len() == 0);
    assert(out@ + str_bytes(s@.skip(i as int)) =~= out@);
    out
}

/// Appends the bytes `bs` in decimal, separated by commas.
fn push_bytes_text(out: &mut Vec<char>, bs: &Vec<u8>)
    ensures
        final(out)@ == old(out)@ + bytes_text(bs@),
{
    if bs.len() == 0 {
        return;
    }
    push_decimal(out, bs[0] as u128);
    let mut i: usize = 1;
    assert(bs@.skip(1) == bs@.drop_first());
    while i < bs.len()
        invariant
            1 <= i <= bs@.len(),
            out@ + comma_bytes(bs@.skip(i as int)) == old(out)@ + bytes_text(bs@),
        decreases bs.len() - i,
    {
        let ghost before = out@;
        assert(bs@.skip(i as int).drop_first() == bs@.skip(i + 1));
        push_str(out, ",");
        push_decimal(out, bs[i] as u128);
        assert(out@ + comma_bytes(bs@.skip(i + 1)) =~= before + comma_bytes(bs@.skip(i as int)));
        i = i + 1;
    }
    assert(bs@.skip(i as int).len() == 0);
    assert(out@ + comma_bytes(bs@.skip(i as int)) =~= out@);
}

/// Emits FASM assembly for x86-64 Linux: the prelude, each function under the label
/// `fn_<name>`, the entry point, one `str_<i>` line per interned string and the runtime segment.
/// A program whose calls name unknown functions, or with more labels than a `u64` counts,
/// is refused.
pub fn generate(program: Program) -> (r: Result<String, GenerateError>)
    ensures
        r is Ok <==> program_ok(program.funcs_view(), program.ctx.view()),
        r matches Ok(t) ==> t@ == program_text(program.funcs_view(), program.ctx.view()),
{
    let ghost fs = program.funcs_view();
    let ghost c = program.ctx.view();
    proof {
        lemma_funcs_view_index(program.funcs@);
        assert(fs.skip(0) == fs);
    }
    let n = program.ctx.lookup.len();
    let mut total: u64 = 0;
    let mut i: usize = 0;
    while i < program.funcs.len()
        invariant
            i <= fs.len(),
            fs == program.funcs_view(),
            fs.len() == program.funcs@.len(),
            forall|j: int| 0 <= j < fs.len() ==> #[trigger] fs[j] == program.funcs@[j].view(),
            n == c.lookup.len(),
            c == program.ctx.view(),
            forall|j: int| 0 <= j < i ==> ops_calls_ok(#[trigger] fs[j].1, n as nat),
            total + funcs_count(fs.skip(i as int)) == funcs_count(fs),
        decreases fs.len() - i,
    {
        assert(fs.skip(i as int).drop_first() == fs.skip(i + 1));
        assert(fs.skip(i as int)[0] == fs[i as int]);
        match ops_label_count(&program.funcs[i].body, n) {
            Some(x) => match total.checked_add(x) {
                Some(t) => {
                    total = t;
                },
                None => {
                    return Err(GenerateError::InvalidProgram);
                },
            },
            None => {
                proof {
                    if ops_calls_ok(fs[i as int].1, n as nat) {
                        assert(funcs_count(fs) >= ops_count(fs[i as int].1));
                    }
                }
                return Err(GenerateError::InvalidProgram);
            },
        }
        i = i + 1;
    }
    assert(fs.skip(i as int).len() == 0);
    assert(program_ok(fs, c));
    let mut out: Vec<char> = Vec::new();
    push_str(&mut out, PRELUDE);
    let mut count_ops: u64 = 0;
    let mut i: usize = 0;
    while i < program.funcs.len()
        invariant
            i <= fs.len(),
            fs == program.funcs_view(),
            fs.len() == program.funcs@.len(),
            forall|j: int| 0 <= j < fs.len() ==> #[trigger] fs[j] == program.funcs@[j].view(),
            c == program.ctx.view(),
            program_ok(fs, c),
            count_ops + funcs_count(fs.skip(i as int)) == funcs_count(fs),
            out@ + funcs_text(fs.skip(i as int), count_ops as int, c) == PRELUDE@ + funcs_text(
                fs,
                0,
                c,
            ),
        decreases fs.len() - i,
    {
        let ghost before = out@;
        let ghost k = count_ops as int;
        assert(fs.skip(i as int).drop_first() == fs.skip(i + 1));
        assert(fs.skip(i as int)[0] == fs[i as int]);
        let func = &program.funcs[i];
        push_str(&mut out, "fn_");
        let mut name = chars_of(func.ident.as_str());
        out.append(&mut name);
        push_str(&mut out, ":\n");
        write_ops(&func.body, &mut count_ops, &mut out, &program.ctx);
        assert(out@ + funcs_text(fs.skip(i + 1), count_ops as int, c) =~= before + funcs_text(
            fs.skip(i as int),
            k,
            c,
        ));
        i = i + 1;
    }
    assert(fs.skip(i as int).len() == 0);
    assert(out@ + funcs_text(fs.skip(i as int), count_ops as int, c) =~= out@);
    push_str(&mut out, MAIN_ENTRY);
    let ghost head = out@;
    let mut j: usize = 0;
    while j < program.ctx.strings.len()
        invariant
            j <= c.strings.len(),
            c == program.ctx.view(),
            c.strings.len() == program.ctx.strings@.len(),
            out@ + data_text(c.strings, j as int) == head + data_text(c.strings, 0),
        decreases c.strings.len() - j,
    {
        let ghost before = out@;
        push_str(&mut out, "str_");
        push_decimal(&mut out, j as u128);
        push_str(&mut out, ": db ");
        let chars = chars_of(program.ctx.strings[j].as_str());
        assert(chars@ == c.strings[j as int]);
        let bytes = encode_utf8(&chars);
        push_bytes_text(&mut out, &bytes);
        push_str(&mut out, "\n");
        assert(out@ + data_text(c.strings, j + 1) =~= before + data_text(c.strings, j as int));
        j = j + 1;
    }
    assert(out@ + data_text(c.strings, j as int) =~= out@);
    push_str(&mut out, RUNTIME);
    assert(out@ =~= program_text(fs, c));
    Ok(string_of(out.as_slice()))
}


/// A label of the emitted assembly: `J<n>` inside comparisons, `F<n>` for blocks, `RET<n>`
/// after a call.
pub enum AsmLabel {
    J(int),
    F(int),
    Ret(int),
}

/// The number in a label's name.
pub open spec fn label_number(l: AsmLabel) -> int {
    match l {
        AsmLabel::J(n) => n,
        AsmLabel::F(n) => n,
        AsmLabel::Ret(n) => n,
    }
}

/// The labels that `op_text(o, k, c)` defines (`<label>:` lines), in order.
pub open spec fn op_defs(o: OpView, k: int) -> Seq<AsmLabel>
    decreases o,
{
    match o {
        OpView::CallFn(_) => seq![AsmLabel::Ret(k)],
        OpView::Equals | OpView::Neq | OpView::GreaterThan | OpView::LessThan | OpView::Or
        | OpView::And => seq![AsmLabel::J(k), AsmLabel::J(k + 1)],
        OpView::If(b) => ops_defs(b, k + 1).push(AsmLabel::F(k)),
        OpView::While(cd, b) => seq![AsmLabel::F(k)] + ops_defs(cd, k + 2) + ops_defs(
            b,
            k + 2 + ops_count(cd),
        ) + seq![AsmLabel::F(k + 1)],
        OpView::Bind(_, _, b) => ops_defs(b, k),
        _ => seq![],
    }
}

/// The labels that `ops_text(s, k, c)` defines, in order.
pub open spec fn ops_defs(s: Seq<OpView>, k: int) -> Seq<AsmLabel>
    decreases s,
{
    if s.len() == 0 {
        seq![]
    } else {
        op_defs(s[0], k) + ops_defs(s.drop_first(), k + op_count(s[0]))
    }
}

/// The labels that `op_text(o, k, c)` refers to: the targets of `jmp`, `je`, `jne` and `jb`,
/// and the return label that a call stores.
pub open spec fn op_uses(o: OpView, k: int) -> Seq<AsmLabel>
    decreases o,
{
    match o {
        OpView::CallFn(_) => seq![AsmLabel::Ret(k)],
        OpView::Equals | OpView::Neq | OpView::GreaterThan | OpView::LessThan => seq![
            AsmLabel::J(k),
            AsmLabel::J(k + 1),
        ],
        OpView::Or | OpView::And => seq![AsmLabel::J(k), AsmLabel::J(k), AsmLabel::J(k + 1)],
        OpView::If(b) => seq![AsmLabel::F(k)] + ops_uses(b, k + 1),
        OpView::While(cd, b) => ops_uses(cd, k + 2) + seq![AsmLabel::F(k + 1)] + ops_uses(
            b,
            k + 2 + ops_count(cd),
        ) + seq![AsmLabel::F(k)],
        OpView::Bind(_, _, b) => ops_uses(b, k),
        _ => seq![],
    }
}

/// The labels that `ops_text(s, k, c)` refers to.
pub open spec fn ops_uses(s: Seq<OpView>, k: int) -> Seq<AsmLabel>
    decreases s,
{
    if s.len() == 0 {
        seq![]
    } else {
        op_uses(s[0], k) + ops_uses(s.drop_first(), k + op_count(s[0]))
    }
}

/// The labels of `d` have distinct numbers, all in `[lo, hi)`.
pub open spec fn distinct_in(d: Seq<AsmLabel>, lo: int, hi: int) -> bool {
    &&& forall|i: int| 0 <= i < d.len() ==> lo <= #[trigger] label_number(d[i]) < hi
    &&& forall|i: int, j: int|
        0 <= i < d.len() && 0 <= j < d.len() && i != j ==> label_number(#[trigger] d[i])
            != label_number(#[trigger] d[j])
}

proof fn lemma_distinct_concat(
    a: Seq<AsmLabel>,
    b: Seq<AsmLabel>,
    la: int,
    ha: int,
    lb: int,
    hb: int,
    lo: int,
    hi: int,
)
    requires
        distinct_in(a, la, ha),
        distinct_in(b, lb, hb),
        ha <= lb || hb <= la,
        lo <= la,
        lo <= lb,
        ha <= hi,
        hb <= hi,
    ensures
        distinct_in(a + b, lo, hi),
{
    assert forall|i: int| 0 <= i < (a + b).len() implies lo <= #[trigger] label_number((a + b)[i])
        < hi by {
        if i < a.len() {
            assert((a + b)[i] == a[i]);
        } else {
            assert((a + b)[i] == b[i - a.len()]);
        }
    }
    assert forall|i: int, j: int|
        0 <= i < (a + b).len() && 0 <= j < (a + b).len() && i != j implies label_number(
        #[trigger] (a + b)[i],
    ) != label_number(#[trigger] (a + b)[j]) by {
        if i < a.len() {
            assert((a + b)[i] == a[i]);
        } else {
            assert((a + b)[i] == b[i - a.len()]);
        }
        if j < a.len() {
            assert((a + b)[j] == a[j]);
        } else {
            assert((a + b)[j] == b[j - a.len()]);
        }
    }
}

proof fn lemma_uses_concat(a: Seq<AsmLabel>, b: Seq<AsmLabel>, da: Seq<AsmLabel>, db: Seq<AsmLabel>)
    requires
        forall|i: int| 0 <= i < a.len() ==> da.contains(#[trigger] a[i]),
        forall|i: int| 0 <= i < b.len() ==> db.contains(#[trigger] b[i]),
    ensures
        forall|i: int| 0 <= i < (a + b).len() ==> (da + db).contains(#[trigger] (a + b)[i]),
{
    assert forall|i: int| 0 <= i < (a + b).len() implies (da + db).contains(#[trigger] (a + b)[i]) by {
        if i < a.len() {
            assert((a + b)[i] == a[i]);
            let j = choose|j: int| 0 <= j < da.len() && da[j] == a[i];
            assert((da + db)[j] == da[j]);
        } else {
            assert((a + b)[i] == b[i - a.len()]);
            let j = choose|j: int| 0 <= j < db.len() && db[j] == b[i - a.len()];
            assert((da + db)[da.len() + j] == db[j]);
        }
    }
}

/// Labels of an operation, as `op_defs` and `op_uses` list them: those that its assembly
/// defines have distinct numbers, all in `[k, k + op_count(o))`, and every label it jumps to
/// (or stores as a return address) is one of them, so each is defined exactly once.
pub proof fn lemma_op_labels(o: OpView, k: int)
    ensures
        distinct_in(op_defs(o, k), k, k + op_count(o)),
        forall|i: int| 0 <= i < op_uses(o, k).len() ==> op_defs(o, k).contains(
            #[trigger] op_uses(o, k)[i],
        ),
    decreases o, 1int,
{
    match o {
        OpView::CallFn(_) => {
            assert(op_defs(o, k)[0] == AsmLabel::Ret(k));
            assert(op_defs(o, k).contains(AsmLabel::Ret(k)));
            assert forall|i: int| 0 <= i < op_uses(o, k).len() implies op_defs(o, k).contains(
                #[trigger] op_uses(o, k)[i],
            ) by {
                assert(op_uses(o, k) == seq![AsmLabel::Ret(k)]);
                assert(op_uses(o, k)[i] == AsmLabel::Ret(k));
            }
        },
        OpView::Equals | OpView::Neq | OpView::GreaterThan | OpView::LessThan | OpView::Or
        | OpView::And => {
            let d = op_defs(o, k);
            assert(d[0] == AsmLabel::J(k));
            assert(d[1] == AsmLabel::J(k + 1));
            assert(d.contains(AsmLabel::J(k)));
            assert(d.contains(AsmLabel::J(k + 1)));
            let u = op_uses(o, k);
            assert forall|i: int| 0 <= i < u.len() implies d.contains(#[trigger] u[i]) by {
                assert(u[i] == AsmLabel::J(k) || u[i] == AsmLabel::J(k + 1));
            }
        },
        OpView::If(b) => {
            lemma_ops_labels(b, k + 1);
            let inner = ops_defs(b, k + 1);
            let d = inner.push(AsmLabel::F(k));
            assert(d == inner + seq![AsmLabel::F(k)]);
            assert(distinct_in(seq![AsmLabel::F(k)], k, k + 1)) by {
                assert(seq![AsmLabel::F(k)][0] == AsmLabel::F(k));
            }
            lemma_distinct_concat(
                inner,
                seq![AsmLabel::F(k)],
                k + 1,
                k + 1 + ops_count(b),
                k,
                k + 1,
                k,
                k + op_count(o),
            );
            let u = op_uses(o, k);
            assert(d[d.len() - 1] == AsmLabel::F(k));
            assert forall|i: int| 0 <= i < u.len() implies d.contains(#[trigger] u[i]) by {
                if i == 0 {
                    assert(u[0] == AsmLabel::F(k));
                    assert(d[d.len() - 1] == u[0]);
                } else {
                    assert(u[i] == ops_uses(b, k + 1)[i - 1]);
                    let j = choose|j: int| 0 <= j < inner.len() && inner[j] == u[i];
                    assert(d[j] == inner[j]);
                }
            }
        },
        OpView::While(cd, b) => {
            let cc = ops_count(cd);
            lemma_ops_labels(cd, k + 2);
            lemma_ops_labels(b, k + 2 + cc);
            let head = seq![AsmLabel::F(k)];
            let tail = seq![AsmLabel::F(k + 1)];
            let dc = ops_defs(cd, k + 2);
            let dbody = ops_defs(b, k + 2 + cc);
            let hi = k + op_count(o);
            assert(distinct_in(head, k, k + 1)) by {
                assert(head[0] == AsmLabel::F(k));
            }
            assert(distinct_in(tail, k + 1, k + 2)) by {
                assert(tail[0] == AsmLabel::F(k + 1));
            }
            lemma_distinct_concat(head, dc, k, k + 1, k + 2, k + 2 + cc, k, hi);
            lemma_distinct_concat(head + dc, dbody, k, k + 2 + cc, k + 2 + cc, hi, k, hi);
            assert(forall|i: int| 0 <= i < (head + dc).len() ==> label_number(#[trigger] (head + dc)[i]) != k + 1) by {
                assert forall|i: int| 0 <= i < (head + dc).len() implies label_number(#[trigger] (head + dc)[i]) != k + 1 by {
                    if i == 0 {
                        assert((head + dc)[i] == head[0]);
                    } else {
                        assert((head + dc)[i] == dc[i - 1]);
                    }
                }
            }
            let d = op_defs(o, k);
            let hd = head + dc + dbody;
            assert(d == hd + tail);
            assert forall|i: int| 0 <= i < hd.len() implies label_number(#[trigger] hd[i]) != k + 1 by {
                if i < (head + dc).len() {
                    assert(hd[i] == (head + dc)[i]);
                } else {
                    assert(hd[i] == dbody[i - (head + dc).len()]);
                }
            }
            assert forall|i: int| 0 <= i < d.len() implies k <= #[trigger] label_number(d[i]) < hi by {
                if i < hd.len() {
                    assert(d[i] == hd[i]);
                } else {
                    assert(d[i] == tail[0]);
                }
            }
            assert forall|i: int, j: int|
                0 <= i < d.len() && 0 <= j < d.len() && i != j implies label_number(#[trigger] d[i])
                != label_number(#[trigger] d[j]) by {
                if i < hd.len() {
                    assert(d[i] == hd[i]);
                } else {
                    assert(d[i] == tail[0]);
                }
                if j < hd.len() {
                    assert(d[j] == hd[j]);
                } else {
                    assert(d[j] == tail[0]);
                }
            }
            let u = op_uses(o, k);
            let uc = ops_uses(cd, k + 2);
            let ub = ops_uses(b, k + 2 + cc);
            assert forall|i: int| 0 <= i < u.len() implies d.contains(#[trigger] u[i]) by {
                if i < uc.len() {
                    assert(u[i] == uc[i]);
                    let j = choose|j: int| 0 <= j < dc.len() && dc[j] == u[i];
                    assert(d[1 + j] == dc[j]);
                } else if i == uc.len() {
                    assert(u[i] == AsmLabel::F(k + 1));
                    assert(d[d.len() - 1] == AsmLabel::F(k + 1));
                } else if i < uc.len() + 1 + ub.len() {
                    assert(u[i] == ub[i - uc.len() - 1]);
                    let j = choose|j: int| 0 <= j < dbody.len() && dbody[j] == u[i];
                    assert(d[1 + dc.len() + j] == dbody[j]);
                } else {
                    assert(u[i] == AsmLabel::F(k));
                    assert(d[0] == AsmLabel::F(k));
                }
            }
        },
        OpView::Bind(_, _, b) => {
            lemma_ops_labels(b, k);
            assert(op_uses(o, k) == ops_uses(b, k));
            assert(op_defs(o, k) == ops_defs(b, k));
        },
        _ => {},
    }
}

/// Labels of a sequence of operations: those defined have distinct numbers, all in
/// `[k, k + ops_count(s))`, and every label referred to is one of them.
pub proof fn lemma_ops_labels(s: Seq<OpView>, k: int)
    ensures
        distinct_in(ops_defs(s, k), k, k + ops_count(s)),
        forall|i: int| 0 <= i < ops_uses(s, k).len() ==> ops_defs(s, k).contains(
            #[trigger] ops_uses(s, k)[i],
        ),
    decreases s, 0int,
{
    if s.len() > 0 {
        let c0 = op_count(s[0]);
        lemma_op_labels(s[0], k);
        lemma_ops_labels(s.drop_first(), k + c0);
        lemma_distinct_concat(
            op_defs(s[0], k),
            ops_defs(s.drop_first(), k + c0),
            k,
            k + c0,
            k + c0,
            k + ops_count(s),
            k,
            k + ops_count(s),
        );
        lemma_uses_concat(
            op_uses(s[0], k),
            ops_uses(s.drop_first(), k + c0),
            op_defs(s[0], k),
            ops_defs(s.drop_first(), k + c0),
        );
    } else {
        assert(ops_defs(s, k) =~= seq![]);
    }
}


/// The labels that `funcs_text(fs, k, c)` defines, in order.
pub open spec fn funcs_defs(fs: Seq<FuncView>, k: int) -> Seq<AsmLabel>
    decreases fs.len(),
{
    if fs.len() == 0 {
        seq![]
    } else {
        ops_defs(fs[0].1, k) + funcs_defs(fs.drop_first(), k + ops_count(fs[0].1))
    }
}

/// The labels that `funcs_text(fs, k, c)` refers to.
pub open spec fn funcs_uses(fs: Seq<FuncView>, k: int) -> Seq<AsmLabel>
    decreases fs.len(),
{
    if fs.len() == 0 {
        seq![]
    } else {
        ops_uses(fs[0].1, k) + funcs_uses(fs.drop_first(), k + ops_count(fs[0].1))
    }
}

/// Labels of a whole program, as `funcs_defs` and `funcs_uses` list them: over all its
/// functions, the numbered labels defined have distinct numbers, and every one referred to is
/// among them, so each is defined exactly once.
pub proof fn lemma_program_labels(fs: Seq<FuncView>, k: int)
    ensures
        distinct_in(funcs_defs(fs, k), k, k + funcs_count(fs)),
        forall|i: int| 0 <= i < funcs_uses(fs, k).len() ==> funcs_defs(fs, k).contains(
            #[trigger] funcs_uses(fs, k)[i],
        ),
    decreases fs.len(),
{
    if fs.len() > 0 {
        let c0 = ops_count(fs[0].1);
        lemma_ops_labels(fs[0].1, k);
        lemma_program_labels(fs.drop_first(), k + c0);
        lemma_distinct_concat(
            ops_defs(fs[0].1, k),
            funcs_defs(fs.drop_first(), k + c0),
            k,
            k + c0,
            k + c0,
            k + funcs_count(fs),
            k,
            k + funcs_count(fs),
        );
        lemma_uses_concat(
            ops_uses(fs[0].1, k),
            funcs_uses(fs.drop_first(), k + c0),
            ops_defs(fs[0].1, k),
            funcs_defs(fs.drop_first(), k + c0),
        );
    } else {
        assert(funcs_defs(fs, k) =~= seq![]);
    }
}

} // verus!
