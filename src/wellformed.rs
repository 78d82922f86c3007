use vstd::prelude::*;

use crate::codegen::{funcs_count, op_calls_ok, op_count, ops_count, ops_calls_ok, program_ok};
use crate::lex::{lemma_lex_step_mono, lex_step, Keyword, LexPos, TokenKind, TEXT_LIMIT};
use crate::parse::{
    advances, ctx_insert, ctx_intern, ctx_wf, first_index, ident_op, keeps_on, keyword_ops,
    last_offset, opens_block, parse_block_from, parse_fn_from, parse_nested_from,
    parse_program_from, string_content, string_ops, empty_ctx, CtxView, FuncView, OpView,
};

verus! {

/// The context `d` comes after `c` within one block: the same functions and bindings, and
/// the strings of `c` followed by any new ones.
pub open spec fn ctx_grows(c: CtxView, d: CtxView) -> bool {
    &&& d.lookup == c.lookup
    &&& d.func_idents == c.func_idents
    &&& d.bindings == c.bindings
    &&& c.strings.len() <= d.strings.len()
    &&& d.strings.subrange(0, c.strings.len() as int) == c.strings
}

proof fn lemma_grows_trans(a: CtxView, b: CtxView, c: CtxView)
    requires
        ctx_grows(a, b),
        ctx_grows(b, c),
    ensures
        ctx_grows(a, c),
{
    assert(c.strings.subrange(0, a.strings.len() as int) == b.strings.subrange(
        0,
        a.strings.len() as int,
    ));
}

proof fn lemma_intern_grows(c: CtxView, v: Seq<char>)
    ensures
        ctx_grows(c, ctx_intern(c, v)),
{
    assert(ctx_intern(c, v).strings.subrange(0, c.strings.len() as int) =~= c.strings);
}

proof fn lemma_intern_no_duplicates(c: CtxView, v: Seq<char>)
    requires
        c.strings.no_duplicates(),
    ensures
        ctx_intern(c, v).strings.no_duplicates(),
{
    if !c.strings.contains(v) {
        let t = c.strings.push(v);
        assert forall|i: int, j: int| 0 <= i < t.len() && 0 <= j < t.len() && i != j implies t[i]
            != t[j] by {
            if i < c.strings.len() && j < c.strings.len() {
                assert(t[i] == c.strings[i] && t[j] == c.strings[j]);
            } else if i < c.strings.len() {
                assert(t[i] == c.strings[i]);
            } else if j < c.strings.len() {
                assert(t[j] == c.strings[j]);
            }
        }
    }
}

proof fn lemma_calls_ok_push(acc: Seq<OpView>, o: OpView, n: nat)
    requires
        ops_calls_ok(acc, n),
        op_calls_ok(o, n),
    ensures
        ops_calls_ok(acc.push(o), n),
{
    assert forall|j: int| 0 <= j < acc.push(o).len() implies op_calls_ok(
        #[trigger] acc.push(o)[j],
        n,
    ) by {
        if j < acc.len() {
            assert(acc.push(o)[j] == acc[j]);
        }
    }
}

proof fn lemma_calls_ok_concat(acc: Seq<OpView>, more: Seq<OpView>, n: nat)
    requires
        ops_calls_ok(acc, n),
        ops_calls_ok(more, n),
    ensures
        ops_calls_ok(acc + more, n),
{
    assert forall|j: int| 0 <= j < (acc + more).len() implies op_calls_ok(
        #[trigger] (acc + more)[j],
        n,
    ) by {
        if j < acc.len() {
            assert((acc + more)[j] == acc[j]);
        } else {
            assert((acc + more)[j] == more[j - acc.len()]);
        }
    }
}

proof fn lemma_ops_count_concat(a: Seq<OpView>, b: Seq<OpView>)
    ensures
        ops_count(a + b) == ops_count(a) + ops_count(b),
    decreases a.len(),
{
    if a.len() > 0 {
        assert((a + b).drop_first() == a.drop_first() + b);
        assert((a + b)[0] == a[0]);
        lemma_ops_count_concat(a.drop_first(), b);
    } else {
        assert(a + b == b);
    }
}

proof fn lemma_ops_count_push(a: Seq<OpView>, o: OpView)
    ensures
        ops_count(a.push(o)) == ops_count(a) + op_count(o),
{
    let one = seq![o];
    lemma_ops_count_concat(a, one);
    assert(a.push(o) == a + one);
    assert(one.drop_first() == Seq::<OpView>::empty());
    assert(ops_count(Seq::<OpView>::empty()) == 0);
    assert(ops_count(one) == op_count(one[0]) + ops_count(one.drop_first()));
}

proof fn lemma_funcs_count_push(fs: Seq<FuncView>, fv: FuncView)
    ensures
        funcs_count(fs.push(fv)) == funcs_count(fs) + ops_count(fv.1),
    decreases fs.len(),
{
    if fs.len() > 0 {
        assert(fs.push(fv).drop_first() == fs.drop_first().push(fv));
        assert(fs.push(fv)[0] == fs[0]);
        lemma_funcs_count_push(fs.drop_first(), fv);
    } else {
        assert(fs.push(fv).drop_first() == Seq::<FuncView>::empty());
        assert(funcs_count(Seq::<FuncView>::empty()) == 0);
        assert(fs.push(fv)[0] == fv);
        assert(funcs_count(fs.push(fv)) == ops_count(fs.push(fv)[0].1) + funcs_count(
            fs.push(fv).drop_first(),
        ));
    }
}

proof fn lemma_string_ops_count(c: CtxView, v: Seq<char>)
    ensures
        ops_count(string_ops(c, v)) == 2,
{
    let t = string_ops(c, v);
    let t1 = t.drop_first();
    assert(t1.drop_first() == Seq::<OpView>::empty());
    assert(ops_count(Seq::<OpView>::empty()) == 0);
    assert(ops_count(t1) == op_count(t1[0]) + ops_count(t1.drop_first()));
    assert(ops_count(t) == op_count(t[0]) + ops_count(t1));
}

proof fn lemma_keyword_ops_count(kw: Keyword)
    requires
        keyword_ops(kw) is Some,
    ensures
        ops_count(keyword_ops(kw).unwrap()) <= 3,
{
    let t = keyword_ops(kw).unwrap();
    let t1 = t.drop_first();
    let t2 = t1.drop_first();
    let t3 = t2.drop_first();
    assert(ops_count(Seq::<OpView>::empty()) == 0);
    assert(ops_count(t) == op_count(t[0]) + ops_count(t1));
    if t.len() == 1 {
        assert(t1 == Seq::<OpView>::empty());
    } else if t.len() == 2 {
        assert(ops_count(t1) == op_count(t1[0]) + ops_count(t2));
        assert(t2 == Seq::<OpView>::empty());
    } else {
        assert(ops_count(t1) == op_count(t1[0]) + ops_count(t2));
        assert(ops_count(t2) == op_count(t2[0]) + ops_count(t3));
        assert(t3 == Seq::<OpView>::empty());
    }
}

/// Reading a block keeps the context's functions and bindings, only adds strings, and gives
/// operations whose calls all name known functions.
#[verifier::rlimit(100)]
pub proof fn lemma_block_wf(
    s: Seq<char>,
    f: Option<Seq<char>>,
    p: LexPos,
    c: CtxView,
    term: Keyword,
    acc: Seq<OpView>,
)
    requires
        ctx_wf(c),
        ops_calls_ok(acc, c.lookup.len()),
    ensures
        parse_block_from(s, f, p, c, term, acc) matches Ok((ops, _, d)) ==> ctx_grows(c, d)
            && ops_calls_ok(ops, c.lookup.len()) && (c.strings.no_duplicates()
            ==> d.strings.no_duplicates()),
        parse_block_from(s, f, p, c, term, acc) matches Ok((ops, q, _)) ==> p.0 < q.0 && ops_count(
            ops,
        ) <= ops_count(acc) + 3 * (q.0 - p.0),
    decreases s.len() - p.0, 0int,
{
    let n = c.lookup.len();
    let (ot, p1) = lex_step(s, p);
    if let Some(t) = ot {
        if advances(s, p, p1) {
            match t.kind {
                TokenKind::Int(v) => {
                    lemma_calls_ok_push(acc, OpView::PushInt(v), n);
                    lemma_ops_count_push(acc, OpView::PushInt(v));
                    lemma_block_wf(s, f, p1, c, term, acc.push(OpView::PushInt(v)));
                },
                TokenKind::Keyword(kw) => {
                    if kw == term {
                        assert(c.strings.subrange(0, c.strings.len() as int) =~= c.strings);
                    } else if keyword_ops(kw) is Some {
                        let more = keyword_ops(kw).unwrap();
                        assert(ops_calls_ok(more, n));
                        lemma_calls_ok_concat(acc, more, n);
                        lemma_ops_count_concat(acc, more);
                        lemma_keyword_ops_count(kw);
                        lemma_block_wf(s, f, p1, c, term, acc + more);
                    } else if kw == Keyword::Ret {
                        let o = OpView::Ret(c.bindings.len() as usize);
                        lemma_calls_ok_push(acc, o, n);
                        lemma_ops_count_push(acc, o);
                        lemma_block_wf(s, f, p1, c, term, acc.push(o));
                    } else if kw != Keyword::Fn && opens_block(kw) {
                        lemma_nested_wf(s, f, p1, c, kw);
                        if let Ok((o, p2, c2)) = parse_nested_from(s, f, p1, c, kw) {
                            if advances(s, p, p2) {
                                lemma_calls_ok_push(acc, o, n);
                                lemma_ops_count_push(acc, o);
                                lemma_block_wf(s, f, p2, c2, term, acc.push(o));
                                if let Ok((ops, _, d)) = parse_block_from(s, f, p2, c2, term, acc.push(o)) {
                                    lemma_grows_trans(c, c2, d);
                                }
                            }
                        }
                    }
                },
                TokenKind::Identifier => {
                    if let Some(o) = ident_op(c, t.value) {
                        crate::parse::lemma_first_index_facts(c.lookup, t.value);
                        crate::parse::lemma_first_index_facts(c.func_idents, t.value);
                        lemma_calls_ok_push(acc, o, n);
                        lemma_ops_count_push(acc, o);
                        lemma_block_wf(s, f, p1, c, term, acc.push(o));
                    }
                },
                TokenKind::String => {
                    let v = string_content(t.value);
                    let c1 = ctx_intern(c, v);
                    lemma_intern_grows(c, v);
                    if c.strings.no_duplicates() {
                        lemma_intern_no_duplicates(c, v);
                    }
                    assert(ops_calls_ok(string_ops(c, t.value), n));
                    lemma_calls_ok_concat(acc, string_ops(c, t.value), n);
                    lemma_ops_count_concat(acc, string_ops(c, t.value));
                    lemma_string_ops_count(c, t.value);
                    lemma_block_wf(s, f, p1, c1, term, acc + string_ops(c, t.value));
                    if let Ok((ops, _, d)) = parse_block_from(s, f, p1, c1, term, acc + string_ops(c, t.value)) {
                        lemma_grows_trans(c, c1, d);
                    }
                },
                TokenKind::Char => {
                    if let Ok(o) = crate::parse::char_op(t.value) {
                        lemma_calls_ok_push(acc, o, n);
                        lemma_ops_count_push(acc, o);
                        lemma_block_wf(s, f, p1, c, term, acc.push(o));
                    }
                },
            }
        }
    }
}

/// Reading the construct that `kw` opens keeps the context's functions and bindings, only
/// adds strings, and gives an operation whose calls all name known functions.
pub proof fn lemma_nested_wf(s: Seq<char>, f: Option<Seq<char>>, p: LexPos, c: CtxView, kw: Keyword)
    requires
        ctx_wf(c),
    ensures
        parse_nested_from(s, f, p, c, kw) matches Ok((o, _, d)) ==> ctx_grows(c, d) && op_calls_ok(
            o,
            c.lookup.len(),
        ) && (c.strings.no_duplicates() ==> d.strings.no_duplicates()),
        parse_nested_from(s, f, p, c, kw) matches Ok((o, q, _)) ==> p.0 < q.0 && op_count(o) <= 3
            + 3 * (q.0 - p.0),
    decreases s.len() - p.0, 1int,
{
    match kw {
        Keyword::If => {
            lemma_block_wf(s, f, p, c, Keyword::End, seq![]);
        },
        Keyword::While => {
            lemma_block_wf(s, f, p, c, Keyword::Do, seq![]);
            if let Ok((cd, p1, c1)) = parse_block_from(s, f, p, c, Keyword::Do, seq![]) {
                if keeps_on(s, p, p1) {
                    lemma_block_wf(s, f, p1, c1, Keyword::End, seq![]);
                    if let Ok((b, p2, c2)) = parse_block_from(s, f, p1, c1, Keyword::End, seq![]) {
                        lemma_grows_trans(c, c1, c2);
                    }
                }
            }
        },
        Keyword::Let | Keyword::Peek => {
            if let Ok((ns, p1)) = crate::parse::binding_names(s, f, p, seq![]) {
                if keeps_on(s, p, p1) {
                    let c1 = CtxView { bindings: c.bindings + ns, ..c };
                    lemma_block_wf(s, f, p1, c1, Keyword::End, seq![]);
                }
            }
        },
        _ => {},
    }
}


/// Defining a function keeps a context well formed.
pub proof fn lemma_ctx_insert_wf(c: CtxView, name: Seq<char>)
    requires
        ctx_wf(c),
    ensures
        ctx_wf(ctx_insert(c, name)),
        ctx_insert(c, name).lookup.len() >= c.lookup.len(),
{
    let d = ctx_insert(c, name);
    assert forall|x: Seq<char>| d.lookup.contains(x) <==> d.func_idents.contains(x) by {
        if d.func_idents.contains(x) && x != name {
            let j = choose|j: int| 0 <= j < d.func_idents.len() && d.func_idents[j] == x;
            assert(c.func_idents[j] == x);
        }
        if d.lookup.contains(x) && x != name {
            let j = choose|j: int| 0 <= j < d.lookup.len() && d.lookup[j] == x;
            assert(c.lookup[j] == x);
        }
        if c.func_idents.contains(x) {
            let j = choose|j: int| 0 <= j < c.func_idents.len() && c.func_idents[j] == x;
            assert(d.func_idents[j] == x);
        }
        if c.lookup.contains(x) {
            let j = choose|j: int| 0 <= j < c.lookup.len() && c.lookup[j] == x;
            assert(d.lookup[j] == x);
        }
        assert(d.func_idents[d.func_idents.len() - 1] == name);
        if d.lookup.len() > c.lookup.len() {
            assert(d.lookup[d.lookup.len() - 1] == name);
        }
    }
}

/// A call that names one of `n` functions names one of any larger number of them.
pub proof fn lemma_calls_ok_mono(o: OpView, n: nat, m: nat)
    requires
        op_calls_ok(o, n),
        n <= m,
    ensures
        op_calls_ok(o, m),
    decreases o,
{
    match o {
        OpView::If(b) => {
            assert forall|j: int| 0 <= j < b.len() implies op_calls_ok(#[trigger] b[j], m) by {
                lemma_calls_ok_mono(b[j], n, m);
            }
        },
        OpView::While(cd, b) => {
            assert forall|j: int| 0 <= j < cd.len() implies op_calls_ok(#[trigger] cd[j], m) by {
                lemma_calls_ok_mono(cd[j], n, m);
            }
            assert forall|j: int| 0 <= j < b.len() implies op_calls_ok(#[trigger] b[j], m) by {
                lemma_calls_ok_mono(b[j], n, m);
            }
        },
        OpView::Bind(_, _, b) => {
            assert forall|j: int| 0 <= j < b.len() implies op_calls_ok(#[trigger] b[j], m) by {
                lemma_calls_ok_mono(b[j], n, m);
            }
        },
        _ => {},
    }
}

/// Every call in the functions `fs` names one of the context's function symbols.
pub open spec fn funcs_calls_ok(fs: Seq<FuncView>, c: CtxView) -> bool {
    forall|i: int| 0 <= i < fs.len() ==> ops_calls_ok(#[trigger] fs[i].1, c.lookup.len())
}

/// In a parsed program every call names a function of the program, and the context is well
/// formed.
pub proof fn lemma_program_wf(
    s: Seq<char>,
    f: Option<Seq<char>>,
    p: LexPos,
    c: CtxView,
    acc: Seq<FuncView>,
)
    requires
        ctx_wf(c),
        funcs_calls_ok(acc, c),
        0 <= p.0 <= s.len(),
    ensures
        parse_program_from(s, f, p, c, acc) matches Ok((fs, d)) ==> funcs_calls_ok(fs, d) && ctx_wf(d)
            && (c.strings.no_duplicates() ==> d.strings.no_duplicates()) && funcs_count(fs)
            <= funcs_count(acc) + 4 * (s.len() - p.0) && strings_extend(c.strings, d.strings),
    decreases s.len() - p.0,
{
    let (ot, p1) = lex_step(s, p);
    if ot is None {
        assert(c.strings.subrange(0, c.strings.len() as int) == c.strings);
    }
    if let Some(t) = ot {
        if t.kind == TokenKind::Keyword(Keyword::Fn) {
            if let Ok((fv, p2, c2)) = parse_fn_from(s, f, p1, c) {
                lemma_lex_step_mono(s, p);
                let (o1, q1) = lex_step(s, p1);
                lemma_lex_step_mono(s, p1);
                let t1 = o1->0;
                let c1 = ctx_insert(c, t1.value);
                lemma_ctx_insert_wf(c, t1.value);
                let (o2, q2) = lex_step(s, q1);
                lemma_lex_step_mono(s, q1);
                lemma_block_wf(s, f, q2, c1, Keyword::End, seq![]);
                let (b, p3, c3) = parse_block_from(s, f, q2, c1, Keyword::End, seq![])->Ok_0;
                assert(fv.1 == b.push(OpView::Ret(0)));
                assert(p2 == p3);
                lemma_calls_ok_push(b, OpView::Ret(0), c1.lookup.len());
                lemma_ops_count_push(b, OpView::Ret(0));
                assert(ops_count(Seq::<OpView>::empty()) == 0);
                assert(ops_count(fv.1) <= 1 + 3 * (p2.0 - q2.0));
                lemma_funcs_count_push(acc, fv);
                let acc2 = acc.push(fv);
                assert forall|i: int| 0 <= i < acc2.len() implies ops_calls_ok(
                    #[trigger] acc2[i].1,
                    c2.lookup.len(),
                ) by {
                    if i < acc.len() {
                        assert(acc2[i] == acc[i]);
                        assert forall|j: int| 0 <= j < acc[i].1.len() implies op_calls_ok(
                            #[trigger] acc[i].1[j],
                            c2.lookup.len(),
                        ) by {
                            lemma_calls_ok_mono(acc[i].1[j], c.lookup.len(), c2.lookup.len());
                        }
                    }
                }
                if advances(s, p, p2) {
                    lemma_program_wf(s, f, p2, c2, acc2);
                    if let Ok((fs, d)) = parse_program_from(s, f, p2, c2, acc2) {
                        assert(d.strings.subrange(0, c.strings.len() as int) == d.strings.subrange(
                            0,
                            c2.strings.len() as int,
                        ).subrange(0, c.strings.len() as int));
                    }
                }
            }
        }
    }
}

/// Every parsed program can be emitted: its calls name functions of the program, and it has
/// at most four labels per character of source, so the label counter fits in a `u64`.
pub proof fn lemma_parsed_program_ok(s: Seq<char>, f: Option<Seq<char>>, p: LexPos)
    requires
        0 <= p.0 <= s.len(),
        s.len() < TEXT_LIMIT,
    ensures
        parse_program_from(s, f, p, empty_ctx(), seq![]) matches Ok((fs, d)) ==> program_ok(fs, d)
            && d.strings.no_duplicates() && ctx_wf(d),
{
    assert(funcs_count(Seq::<FuncView>::empty()) == 0);
    lemma_program_wf(s, f, p, empty_ctx(), seq![]);
}

/// Whether the string table `t` starts with the table `s`: strings are only ever appended.
pub open spec fn strings_extend(s: Seq<Seq<char>>, t: Seq<Seq<char>>) -> bool {
    s.len() <= t.len() && t.subrange(0, s.len() as int) == s
}

/// String interning: once the literal `v` is read in context `c`, its index is that of its
/// content in the table, the table holds that content there, and any later literal `w` with
/// the same content, in the same function or another, gets the same index, whatever strings
/// were added in between.
pub proof fn lemma_string_interning(c: CtxView, v: Seq<char>, w: Seq<char>, later: CtxView)
    requires
        string_content(v) == string_content(w),
        strings_extend(ctx_intern(c, string_content(v)).strings, later.strings),
    ensures
        ({
            let i = first_index(c.strings, string_content(v));
            &&& string_ops(c, v)[1] == OpView::PushStrPtr(i as usize)
            &&& 0 <= i < ctx_intern(c, string_content(v)).strings.len()
            &&& ctx_intern(c, string_content(v)).strings[i] == string_content(v)
            &&& later.strings[i] == string_content(v)
            &&& string_ops(later, w)[1] == string_ops(c, v)[1]
            &&& later.strings.no_duplicates() ==> forall|j: int|
                0 <= j < later.strings.len() && later.strings[j] == string_content(v) ==> j == i
        }),
{
    let x = string_content(v);
    let c1 = ctx_intern(c, x);
    crate::parse::lemma_first_index_facts(c.strings, x);
    crate::parse::lemma_first_index_facts(c1.strings, x);
    crate::parse::lemma_first_index_facts(later.strings, x);
    let i = first_index(c.strings, x);
    assert(c1.strings[i] == x);
    assert(later.strings.subrange(0, c1.strings.len() as int)[i] == later.strings[i]);
    assert forall|j: int| 0 <= j < i implies later.strings[j] != x by {
        assert(later.strings.subrange(0, c1.strings.len() as int)[j] == later.strings[j]);
        assert(c1.strings[j] == c.strings[j]);
    }
}

/// Binding scope: inside `let` (or `peek`) with names `ns`, the `j`-th name, bound by no later
/// name and naming no function, stands for the binding `ns.len() - 1 - j` places from the
/// innermost, so the last name is the most recently pushed value; and once the block is read,
/// the bindings are again those from before it, so a name bound only there is unknown.
pub proof fn lemma_binding_scope(
    s: Seq<char>,
    f: Option<Seq<char>>,
    p: LexPos,
    c: CtxView,
    kw: Keyword,
    ns: Seq<Seq<char>>,
    j: int,
)
    requires
        ctx_wf(c),
        0 <= j < ns.len(),
        !c.func_idents.contains(ns[j]),
        forall|k: int| j < k < ns.len() ==> ns[k] != ns[j],
    ensures
        ident_op(CtxView { bindings: c.bindings + ns, ..c }, ns[j]) == Some(
            OpView::PushBind((ns.len() - 1 - j) as usize),
        ),
        parse_nested_from(s, f, p, c, kw) matches Ok((_, _, d)) ==> d.bindings == c.bindings,
{
    let b = c.bindings + ns;
    lemma_last_offset_at(b, ns[j], c.bindings.len() + j);
    lemma_nested_wf(s, f, p, c, kw);
}

proof fn lemma_last_offset_at(b: Seq<Seq<char>>, x: Seq<char>, at: int)
    requires
        0 <= at < b.len(),
        b[at] == x,
        forall|k: int| at < k < b.len() ==> b[k] != x,
    ensures
        last_offset(b, x) == b.len() - 1 - at,
    decreases b.len(),
{
    if at < b.len() - 1 {
        lemma_last_offset_at(b.drop_last(), x, at);
    }
}

} // verus!
