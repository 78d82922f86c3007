use rackc::{compile, generate, CompileError, Context, Func, GenerateError, Lexer, Op, Program};
use rackc::parse::parse_tokens;

fn assembly(src: &str) -> String {
    compile(src, None).unwrap()
}

fn function_text<'a>(text: &'a str, name: &str) -> &'a str {
    let start = text.find(&format!("fn_{name}:\n")).unwrap();
    let rest = &text[start..];
    let end = rest.find("\nmain:\n").map(|i| i + 1).unwrap_or(rest.len());
    &rest[..end]
}

#[test]
fn codegen_sum_program() {
    let text = assembly("fn main in 34 35 + print end\n");
    assert!(text.starts_with("format ELF64 executable 3\nentry main\nsegment readable executable\nprint:\n"));
    let body = function_text(&text, "main");
    assert_eq!(
        body,
        "fn_main:\n\tpush\t34\t\t\t; Op::PushInt(34)\n\tpush\t35\t\t\t; Op::PushInt(35)\n\
         \tpop\trax\t\t\t; Op::Plus\n\tpop\trbx\n\tadd\trax, rbx\n\tpush\trax\n\
         \tpop\trdi\t\t\t; Op::Print\n\tcall\tprint\n\
         \tmov\trax, qword [ret_stack_rsp]\t; Op::Ret(0)\n\tjmp qword [rax]\n"
    );
    assert!(text.ends_with(
        "segment readable\nsegment readable writable\nret_stack_rsp: rq 1\nret_stack: rb 65536\nret_stack_end:\n"
    ));
}

#[test]
fn codegen_string_data() {
    let text = assembly("fn main in \"hi\\n\" puts end");
    assert!(text.contains("\tpush\t3\t\t\t; Op::PushInt(3)\n\tpush\tstr_0\t\t\t; Op::PushStrPtr(0)\n"));
    assert!(text.contains("\tmov\trdi, 1\t\t\t; Op::Puts\n\tpop\trsi\n\tpop\trdx\n\tmov\trax, 1\n\tsyscall\n"));
    assert!(text.contains("segment readable\nstr_0: db 104,105,10\nsegment readable writable\n"));
}

#[test]
fn codegen_plain_ascii_bytes_are_kept() {
    let text = assembly("fn main in \"Az ~!\" puts \"\" puts end");
    assert!(text.contains("str_0: db 65,122,32,126,33\n"));
    assert!(text.contains("str_1: db \n"));
}

#[test]
fn codegen_utf8_bytes() {
    let text = assembly("fn main in \"é€😀\" puts end");
    assert!(text.contains("str_0: db 195,169,226,130,172,240,159,152,128\n"));
}

#[test]
fn codegen_if_labels() {
    let text = assembly("fn main in 5 3 > if 42 print end end");
    let body = function_text(&text, "main");
    assert!(body.contains("\tcmp\trax, rbx\n\tjb\tJ2\n\tpush\t0\n\tjmp\tJ3\nJ2:\n\tpush\t1\nJ3:\n"));
    assert!(body.contains("\tpop\trax\t\t\t; Op::If\n\tcmp\trax, 1\n\tjne\tF4\n"));
    assert!(body.contains("F4:\n"));
}

#[test]
fn codegen_while_labels() {
    let text = assembly("fn main in 0 while dup 3 < do dup print 1 + end drop end");
    let body = function_text(&text, "main");
    assert!(body.contains("F1:\t\t\t\t\t; Op::While\n"));
    assert!(body.contains("\tjne\tF2\n"));
    assert!(body.contains("\tjmp F1\nF2:\n"));
}

#[test]
fn codegen_bind_frame() {
    let text = assembly("fn main in 7 let x in x x + print end end");
    let body = function_text(&text, "main");
    assert!(body.contains(
        "\tmov\trax, [ret_stack_rsp]\t; Op::Bind(1)\n\tsub\trax, 8\n\tmov\t[ret_stack_rsp], rax\n\
         \tmov\trbx, [rsp + 0]\n\tmov\t[rax+0], rbx\n\tadd\trsp, 8\n"
    ));
    assert!(body.contains("\tmov\trax, [ret_stack_rsp]\t; Op::PushBind(0)\n\tadd\trax, 0\n\tpush\tqword [rax]\n"));
    assert!(body.contains("\tmov\trax, [ret_stack_rsp]\n\tadd\trax, 8\n\tmov\tqword [ret_stack_rsp], rax\n"));
}

#[test]
fn codegen_peek_keeps_the_stack() {
    let text = assembly("fn main in 1 2 peek a b in a print ret end end");
    let body = function_text(&text, "main");
    assert!(body.contains("\tmov\trbx, [rsp + 8]\n\tmov\t[rax+8], rbx\n"));
    assert!(!body.contains("\tadd\trsp, 16\n"));
    assert!(body.contains("; Op::Ret(2)\n\tadd\trax, 16\n"));
}

#[test]
fn codegen_call_sequence() {
    let text = assembly("fn sq in dup + end fn main in 6 sq print end");
    let body = function_text(&text, "main");
    assert!(body.contains(
        "\tmov\trax, [ret_stack_rsp]\t; Op::CallFn(0)\n\tsub\trax, 8\n\tmov\t[ret_stack_rsp], rax\n\
         \tmov\tqword [rax], RET4\n\tjmp\tfn_sq\nRET4:\n"
    ));
}

#[test]
fn codegen_over_and_divmod_templates() {
    let text = assembly("fn main in 1 2 3 over 10 3 divmod end");
    assert!(text.contains("\tpop\trax\t\t\t; Op::Over\n\tpop\trbx\n\tpop\trcx\n\tpush\trbx\n\tpush\trax\n\tpush\trcx\n"));
    assert!(text.contains("\tpop\trbx\t\t\t; Op::DivMod\n\tpop\trax\n\tmov\trdx, 0\n\tdiv\trbx\n\tpush\trax\n\tpush\trdx\n"));
}

#[test]
fn codegen_same_source_same_text() {
    let src = "fn f in let a b in a b - end end fn main in 9 4 f print \"x\" puts end";
    assert_eq!(compile(src, None), compile(src, None));
    let a = {
        let mut l = Lexer::new(src, None);
        generate(parse_tokens(&mut l).unwrap()).unwrap()
    };
    assert_eq!(a, compile(src, None).unwrap());
}

fn referenced_and_defined(text: &str) -> (Vec<String>, Vec<String>) {
    let mut used = Vec::new();
    let mut defined = Vec::new();
    for line in text.lines() {
        let t = line.trim();
        for op in ["jmp", "jne", "je", "jb"] {
            if let Some(rest) = t.strip_prefix(op) {
                let target = rest.trim();
                if !target.starts_with("qword") && !target.starts_with("fn_") {
                    used.push(target.to_string());
                }
            }
        }
        if !line.starts_with('\t') {
            if let Some(idx) = line.find(':') {
                defined.push(line[..idx].to_string());
            }
        }
    }
    (used, defined)
}

#[test]
fn codegen_labels_defined_once() {
    let text = assembly(
        "fn main in 0 while dup 10 < do dup 2 % 0 = if dup print end \
         1 let n in n 3 > n 5 < and if n print end n 1 + end end drop end",
    );
    let (used, defined) = referenced_and_defined(&text);
    assert!(!used.is_empty());
    for label in &used {
        assert_eq!(defined.iter().filter(|d| *d == label).count(), 1, "label {label}");
    }
    let mut sorted = defined.clone();
    sorted.sort();
    sorted.dedup();
    assert_eq!(sorted.len(), defined.len());
}

#[test]
fn codegen_balanced_return_stack() {
    let text = assembly("fn main in 1 2 3 let a b c in a print peek x in x print end end end");
    let body = function_text(&text, "main");
    let reserve_3 = body.matches("\tsub\trax, 24\n\tmov\t[ret_stack_rsp], rax\n").count();
    let release_3 = body.matches("\tadd\trax, 24\n\tmov\tqword [ret_stack_rsp], rax\n").count();
    let reserve_1 = body.matches("\tsub\trax, 8\n\tmov\t[ret_stack_rsp], rax\n").count();
    let release_1 = body.matches("\tadd\trax, 8\n\tmov\tqword [ret_stack_rsp], rax\n").count();
    assert_eq!((reserve_3, release_3, reserve_1, release_1), (1, 1, 1, 1));
}

#[test]
fn codegen_refuses_unknown_function() {
    let program = Program {
        funcs: vec![Func { ident: "main".to_string(), body: vec![Op::CallFn(5), Op::Ret(0)] }],
        ctx: Context::default(),
    };
    assert_eq!(generate(program), Err(GenerateError::InvalidProgram));
}

#[test]
fn compile_needs_one_main() {
    assert_eq!(compile("fn f in end", None), Err(CompileError::MissingMain));
    assert_eq!(compile("fn main in end fn main in end", None), Err(CompileError::DuplicateMain));
    assert!(matches!(compile("fn main in", None), Err(CompileError::Syntax(_))));
}
