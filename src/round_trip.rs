use vstd::prelude::*;
use crate::token::{TokenView, literal_of};
use crate::lexer::{
    is_letter, is_digit, is_space, word_token, lex_from, scan, skip_spaces, letters_end, digits_end, chars_of,
    symbol_token, doubled, lemma_lex_step, lemma_scan_advances, tokens_of, lemma_skip_spaces,
};
use crate::ast::{ExprView, StmtView, render_expr, render_stmt};
use vstd::utf8::{encode_utf8, is_ascii_chars, is_ascii_chars_encode_utf8};
use crate::parser::{
    parse_expr, parse_prefix, parse_grouped, parse_prefix_operator, climb, parse_stmt, parse_stmts,
    parse_tokens, precedence_of, tok_at, past_semicolon, OperatorPrecedence,
};

verus! {

/// A name as the scanner produces it: a non-empty run of ASCII letters that
/// is not a keyword.
pub open spec fn is_word(v: Seq<char>) -> bool {
    &&& v.len() > 0
    &&& forall|i: int| 0 <= i < v.len() ==> (#[trigger] v[i] as u32) < 128 && is_letter((v[i] as u32) as u8)
    &&& word_token(v) == TokenView::Ident(v)
}

/// A non-empty run of ASCII digits.
pub open spec fn is_number(v: Seq<char>) -> bool {
    &&& v.len() > 0
    &&& forall|i: int| 0 <= i < v.len() ==> (#[trigger] v[i] as u32) < 128 && is_digit((v[i] as u32) as u8)
}

/// An expression tree of the shape that the parser builds.
pub open spec fn wf_expr(e: ExprView) -> bool
    decreases e,
{
    match e {
        ExprView::Ident { token, value } => token == TokenView::Ident(value) && is_word(value),
        ExprView::Int { token, value } => token == TokenView::Int(value) && is_number(value),
        ExprView::Prefix { operator, right } => (operator == TokenView::Bang || operator == TokenView::Minus)
            && wf_expr(*right),
        ExprView::Infix { left, operator, right } => precedence_of(operator).spec_rank() > 0 && wf_expr(*left)
            && wf_expr(*right),
    }
}

/// A statement of the shape that the parser builds.
pub open spec fn wf_stmt(s: StmtView) -> bool {
    match s {
        StmtView::Let { token, name_token, name, value } => token == TokenView::Let && name_token
            == TokenView::Ident(name) && is_word(name) && wf_expr(value),
        StmtView::Return { token, value } => token == TokenView::Return && wf_expr(value),
        StmtView::Expr { value, .. } => wf_expr(value),
    }
}

/// The tokens of an expression's rendered text.
pub open spec fn expr_tokens(e: ExprView) -> Seq<TokenView>
    decreases e,
{
    match e {
        ExprView::Ident { token, .. } => seq![token],
        ExprView::Int { token, .. } => seq![token],
        ExprView::Prefix { operator, right } => seq![TokenView::LParen, operator] + expr_tokens(*right) + seq![
            TokenView::RParen,
        ],
        ExprView::Infix { left, operator, right } => seq![TokenView::LParen] + expr_tokens(*left) + seq![operator]
            + expr_tokens(*right) + seq![TokenView::RParen],
    }
}

pub proof fn lemma_expr_tokens_len(e: ExprView)
    ensures
        expr_tokens(e).len() >= 1,
    decreases e,
{
}

/// The tokens of a rendered expression, read from index `i`, give back the
/// expression, ending at its last token.
pub proof fn lemma_parse_rendered_expr(ts: Seq<TokenView>, i: int, e: ExprView)
    requires
        wf_expr(e),
        0 <= i,
        i + expr_tokens(e).len() <= ts.len(),
        ts.subrange(i, i + expr_tokens(e).len()) == expr_tokens(e),
    ensures
        parse_prefix(ts, i) == Ok::<(ExprView, int), crate::parser::ErrorView>((e, i + expr_tokens(e).len() - 1)),
    decreases e,
{
    let n = expr_tokens(e).len() as int;
    assert(ts[i] == ts.subrange(i, i + n)[0]);
    match e {
        ExprView::Ident { token, value } => {},
        ExprView::Int { token, value } => {},
        ExprView::Prefix { operator, right } => {
            let r = *right;
            let nr = expr_tokens(r).len() as int;
            lemma_expr_tokens_len(r);
            assert(ts.subrange(i + 2, i + 2 + nr) =~= expr_tokens(r)) by {
                assert forall|k: int| 0 <= k < nr implies ts.subrange(i + 2, i + 2 + nr)[k] == expr_tokens(r)[k] by {
                    assert(ts.subrange(i, i + n)[k + 2] == expr_tokens(e)[k + 2]);
                }
            }
            assert(ts[i + 1] == ts.subrange(i, i + n)[1]);
            assert(ts[i + 2 + nr] == ts.subrange(i, i + n)[2 + nr]);
            lemma_parse_rendered_expr(ts, i + 2, r);
            let c = i + 1 + nr;
            assert(climb(ts, r, c, OperatorPrecedence::Prefix.spec_rank()) == Ok::<(ExprView, int), crate::parser::ErrorView>((r, c)));
            assert(parse_expr(ts, i + 2, OperatorPrecedence::Prefix.spec_rank()) == Ok::<(ExprView, int), crate::parser::ErrorView>((r, c)));
            assert(parse_prefix(ts, i + 1) == Ok::<(ExprView, int), crate::parser::ErrorView>((e, c)));
            assert(climb(ts, e, c, 0) == Ok::<(ExprView, int), crate::parser::ErrorView>((e, c)));
            assert(parse_expr(ts, i + 1, 0) == Ok::<(ExprView, int), crate::parser::ErrorView>((e, c)));
            assert(parse_grouped(ts, i) == Ok::<(ExprView, int), crate::parser::ErrorView>((e, c + 1)));
        },
        ExprView::Infix { left, operator, right } => {
            let l = *left;
            let r = *right;
            let nl = expr_tokens(l).len() as int;
            let nr = expr_tokens(r).len() as int;
            lemma_expr_tokens_len(l);
            lemma_expr_tokens_len(r);
            assert(ts.subrange(i + 1, i + 1 + nl) =~= expr_tokens(l)) by {
                assert forall|k: int| 0 <= k < nl implies ts.subrange(i + 1, i + 1 + nl)[k] == expr_tokens(l)[k] by {
                    assert(ts.subrange(i, i + n)[k + 1] == expr_tokens(e)[k + 1]);
                }
            }
            assert(ts.subrange(i + 2 + nl, i + 2 + nl + nr) =~= expr_tokens(r)) by {
                assert forall|k: int| 0 <= k < nr implies ts.subrange(i + 2 + nl, i + 2 + nl + nr)[k] == expr_tokens(r)[k] by {
                    assert(ts.subrange(i, i + n)[k + 2 + nl] == expr_tokens(e)[k + 2 + nl]);
                }
            }
            assert(ts[i + 1 + nl] == ts.subrange(i, i + n)[1 + nl]);
            assert(ts[i + 2 + nl + nr] == ts.subrange(i, i + n)[2 + nl + nr]);
            lemma_parse_rendered_expr(ts, i + 1, l);
            lemma_parse_rendered_expr(ts, i + 2 + nl, r);
            let a = i + nl;
            let c = a + 1 + nr;
            let p = precedence_of(operator).spec_rank();
            assert(climb(ts, r, c, p) == Ok::<(ExprView, int), crate::parser::ErrorView>((r, c)));
            assert(parse_expr(ts, a + 2, p) == Ok::<(ExprView, int), crate::parser::ErrorView>((r, c)));
            assert(climb(ts, e, c, 0) == Ok::<(ExprView, int), crate::parser::ErrorView>((e, c)));
            assert(climb(ts, l, a, 0) == Ok::<(ExprView, int), crate::parser::ErrorView>((e, c)));
            assert(parse_expr(ts, i + 1, 0) == Ok::<(ExprView, int), crate::parser::ErrorView>((e, c)));
            assert(parse_grouped(ts, i) == Ok::<(ExprView, int), crate::parser::ErrorView>((e, c + 1)));
        },
    }
}

/// The tokens of a statement's rendered text.
pub open spec fn stmt_tokens(s: StmtView) -> Seq<TokenView> {
    match s {
        StmtView::Let { name, value, .. } => seq![TokenView::Let, TokenView::Ident(name), TokenView::Assign]
            + expr_tokens(value) + seq![TokenView::Semicolon],
        StmtView::Return { value, .. } => seq![TokenView::Return] + expr_tokens(value) + seq![TokenView::Semicolon],
        StmtView::Expr { value, .. } => expr_tokens(value),
    }
}

/// What a statement becomes when its text is parsed again: the same tree,
/// except that an expression statement records the first token of the
/// rendered text (an opening parenthesis where the operand was a compound).
pub open spec fn reparsed(s: StmtView) -> StmtView {
    match s {
        StmtView::Expr { value, .. } => StmtView::Expr { token: expr_tokens(value)[0], value },
        _ => s,
    }
}

#[verifier::rlimit(40)]
proof fn lemma_parse_rendered_stmt(s: StmtView)
    requires
        wf_stmt(s),
    ensures
        parse_tokens(stmt_tokens(s)) == Ok::<Seq<StmtView>, crate::parser::ErrorView>(seq![reparsed(s)]),
{
    let ts = stmt_tokens(s);
    match s {
        StmtView::Let { token, name_token, name, value } => {
            let n = expr_tokens(value).len() as int;
            lemma_expr_tokens_len(value);
            assert(ts.subrange(3, 3 + n) =~= expr_tokens(value));
            lemma_parse_rendered_expr(ts, 3, value);
            let j = 2 + n;
            assert(ts[j + 1] == TokenView::Semicolon);
            assert(climb(ts, value, j, 0) == Ok::<(ExprView, int), crate::parser::ErrorView>((value, j)));
            assert(parse_expr(ts, 3, 0) == Ok::<(ExprView, int), crate::parser::ErrorView>((value, j)));
            assert(parse_stmt(ts, 0) == Ok::<(StmtView, int), crate::parser::ErrorView>((s, j + 1)));
            assert(parse_stmts(ts, j + 2) == Ok::<Seq<StmtView>, crate::parser::ErrorView>(Seq::empty()));
            assert(seq![s] + Seq::<StmtView>::empty() =~= seq![s]);
        },
        StmtView::Return { token, value } => {
            let n = expr_tokens(value).len() as int;
            lemma_expr_tokens_len(value);
            assert(ts.subrange(1, 1 + n) =~= expr_tokens(value));
            lemma_parse_rendered_expr(ts, 1, value);
            let j = n;
            assert(ts[j + 1] == TokenView::Semicolon);
            assert(climb(ts, value, j, 0) == Ok::<(ExprView, int), crate::parser::ErrorView>((value, j)));
            assert(parse_expr(ts, 1, 0) == Ok::<(ExprView, int), crate::parser::ErrorView>((value, j)));
            assert(parse_stmt(ts, 0) == Ok::<(StmtView, int), crate::parser::ErrorView>((s, j + 1)));
            assert(parse_stmts(ts, j + 2) == Ok::<Seq<StmtView>, crate::parser::ErrorView>(Seq::empty()));
            assert(seq![s] + Seq::<StmtView>::empty() =~= seq![s]);
        },
        StmtView::Expr { token, value } => {
            let n = expr_tokens(value).len() as int;
            lemma_expr_tokens_len(value);
            assert(ts.subrange(0, n) =~= expr_tokens(value));
            lemma_parse_rendered_expr(ts, 0, value);
            let j = n - 1;
            assert(climb(ts, value, j, 0) == Ok::<(ExprView, int), crate::parser::ErrorView>((value, j)));
            assert(parse_expr(ts, 0, 0) == Ok::<(ExprView, int), crate::parser::ErrorView>((value, j)));
            assert(!(ts[0] is Let) && !(ts[0] is Return)) by {
                reveal_with_fuel(expr_tokens, 1);
            }
            assert(parse_stmt(ts, 0) == Ok::<(StmtView, int), crate::parser::ErrorView>((reparsed(s), j)));
            assert(parse_stmts(ts, j + 1) == Ok::<Seq<StmtView>, crate::parser::ErrorView>(Seq::empty()));
            assert(seq![reparsed(s)] + Seq::<StmtView>::empty() =~= seq![reparsed(s)]);
        },
    }
}

/// The bytes from position `p` on spell the characters `s`.
pub open spec fn text_at(b: Seq<u8>, p: int, s: Seq<char>) -> bool {
    &&& 0 <= p
    &&& p + s.len() <= b.len()
    &&& forall|i: int| 0 <= i < s.len() ==> b[p + i] as u32 == #[trigger] s[i] as u32
}

proof fn lemma_text_split(b: Seq<u8>, p: int, s1: Seq<char>, s2: Seq<char>)
    requires
        text_at(b, p, s1 + s2),
    ensures
        text_at(b, p, s1),
        text_at(b, p + s1.len(), s2),
{
    assert forall|i: int| 0 <= i < s1.len() implies b[p + i] as u32 == #[trigger] s1[i] as u32 by {
        assert((s1 + s2)[i] == s1[i]);
    }
    assert forall|i: int| 0 <= i < s2.len() implies b[p + s1.len() + i] as u32 == #[trigger] s2[i] as u32 by {
        assert((s1 + s2)[s1.len() + i] == s2[i]);
    }
}

/// A rendered expression starts with a letter, a digit or `(`.
proof fn lemma_render_first(e: ExprView)
    requires
        wf_expr(e),
    ensures
        render_expr(e).len() >= 1,
        is_letter((render_expr(e)[0] as u32) as u8) || is_digit((render_expr(e)[0] as u32) as u8) || render_expr(e)[0] == '(',
        (render_expr(e)[0] as u32) < 128,
{
    match e {
        ExprView::Ident { value, .. } => {},
        ExprView::Int { value, .. } => {},
        ExprView::Prefix { operator, right } => {},
        ExprView::Infix { left, operator, right } => {},
    }
}

proof fn lemma_letters_run(b: Seq<u8>, k: int, q: int)
    requires
        0 <= k <= q <= b.len(),
        forall|i: int| k <= i < q ==> is_letter(#[trigger] b[i]),
        q == b.len() || !is_letter(b[q]),
    ensures
        letters_end(b, k) == q,
    decreases q - k,
{
    if k < q {
        lemma_letters_run(b, k + 1, q);
    }
}

proof fn lemma_digits_run(b: Seq<u8>, k: int, q: int)
    requires
        0 <= k <= q <= b.len(),
        forall|i: int| k <= i < q ==> is_digit(#[trigger] b[i]),
        q == b.len() || !is_digit(b[q]),
    ensures
        digits_end(b, k) == q,
    decreases q - k,
{
    if k < q {
        lemma_digits_run(b, k + 1, q);
    }
}

/// A space before the next token changes nothing in the stream.
proof fn lemma_lex_space(b: Seq<u8>, p: int)
    requires
        0 <= p < b.len(),
        is_space(b[p]),
    ensures
        lex_from(b, p) == lex_from(b, p + 1),
{
    assert(skip_spaces(b, p) == skip_spaces(b, p + 1));
    lemma_scan_advances(b, p + 1);
}

/// A byte that is neither space, letter nor digit, and does not begin a
/// two-byte operator, is one token.
proof fn lemma_lex_symbol(b: Seq<u8>, p: int)
    requires
        0 <= p < b.len(),
        !is_space(b[p]) && !is_letter(b[p]) && !is_digit(b[p]) && !doubled(b, p),
    ensures
        lex_from(b, p) == seq![symbol_token(b[p])] + lex_from(b, p + 1),
{
    assert(skip_spaces(b, p) == p);
    lemma_lex_step(b, p);
}

/// The characters that a run of ASCII bytes spells are those characters.
proof fn lemma_chars_of_text(b: Seq<u8>, p: int, value: Seq<char>)
    requires
        text_at(b, p, value),
    ensures
        chars_of(b.subrange(p, p + value.len())) =~= value,
{
    let q = p + value.len();
    assert forall|i: int| 0 <= i < value.len() implies #[trigger] chars_of(b.subrange(p, q))[i] == value[i] by {
        assert(b[p + i] as u32 == value[i] as u32);
        assert(b.subrange(p, q)[i] == b[p + i]);
        assert(chars_of(b.subrange(p, q))[i] == (b[p + i] as u32) as char);
        vstd::utf8::char_u32_cast(value[i], b[p + i] as u32);
    }
}

/// The bytes of a rendered expression scan to its tokens, when no letter or
/// digit follows them.
pub proof fn lemma_lex_rendered_expr(b: Seq<u8>, p: int, e: ExprView)
    requires
        wf_expr(e),
        text_at(b, p, render_expr(e)),
        p + render_expr(e).len() == b.len() || (!is_letter(b[p + render_expr(e).len()]) && !is_digit(
            b[p + render_expr(e).len()],
        )),
    ensures
        lex_from(b, p) == expr_tokens(e) + lex_from(b, p + render_expr(e).len()),
    decreases e, 1nat,
{
    let q = p + render_expr(e).len();
    match e {
        ExprView::Ident { token, value } => lemma_lex_word(b, p, value),
        ExprView::Int { token, value } => {
            assert(b[p] as u32 == value[0] as u32);
            assert forall|i: int| p <= i < q implies is_digit(#[trigger] b[i]) by {
                assert(b[p + (i - p)] as u32 == value[i - p] as u32);
            }
            lemma_digits_run(b, p, q);
            lemma_chars_of_text(b, p, value);
            assert(skip_spaces(b, p) == p);
            lemma_lex_step(b, p);
        },
        ExprView::Prefix { .. } => lemma_lex_rendered_prefix(b, p, e),
        ExprView::Infix { .. } => lemma_lex_rendered_infix(b, p, e),
    }
}

proof fn lemma_lex_rendered_prefix(b: Seq<u8>, p: int, e: ExprView)
    requires
        wf_expr(e),
        e is Prefix,
        text_at(b, p, render_expr(e)),
        p + render_expr(e).len() == b.len() || (!is_letter(b[p + render_expr(e).len()]) && !is_digit(
            b[p + render_expr(e).len()],
        )),
    ensures
        lex_from(b, p) == expr_tokens(e) + lex_from(b, p + render_expr(e).len()),
    decreases e, 0nat,
{
    let q = p + render_expr(e).len();
    let operator = e->Prefix_operator;
    let right = e->Prefix_right;
        let r = *right;
        let rr = render_expr(r);
        let op = literal_of(operator);
        lemma_render_first(r);
        lemma_text_split(b, p, seq!['('] + op + rr, seq![')']);
        lemma_text_split(b, p, seq!['('] + op, rr);
        lemma_text_split(b, p, seq!['('], op);
        assert(b[p] as u32 == seq!['('][0] as u32);
        assert(b[p + 1] as u32 == op[0] as u32);
        assert(b[p + 2] as u32 == rr[0] as u32);
        assert(b[q - 1] as u32 == seq![')'][0] as u32);
        lemma_lex_symbol(b, p);
        lemma_lex_symbol(b, p + 1);
        lemma_lex_rendered_expr(b, p + 2, r);
        lemma_lex_symbol(b, q - 1);
        assert(lex_from(b, p) =~= expr_tokens(e) + lex_from(b, q));
}

/// An infix operator between two spaces is one token.
proof fn lemma_lex_operator(b: Seq<u8>, m: int, operator: TokenView)
    requires
        precedence_of(operator).spec_rank() > 0,
        text_at(b, m, seq![' '] + literal_of(operator) + seq![' ']),
    ensures
        lex_from(b, m) == seq![operator] + lex_from(b, m + literal_of(operator).len() + 2),
{
    let op = literal_of(operator);
    let k = op.len() as int;
    lemma_text_split(b, m, seq![' '] + op, seq![' ']);
    lemma_text_split(b, m, seq![' '], op);
    assert(b[m] as u32 == seq![' '][0] as u32);
    assert(b[m + 1] as u32 == op[0] as u32);
    assert(b[m + 1 + k] as u32 == seq![' '][0] as u32);
    lemma_lex_space(b, m);
    if k == 2 {
        assert(b[m + 2] as u32 == op[1] as u32);
        assert(skip_spaces(b, m + 1) == m + 1);
        lemma_lex_step(b, m + 1);
    } else {
        lemma_lex_symbol(b, m + 1);
    }
    lemma_lex_space(b, m + 1 + k);
}

#[verifier::rlimit(80)]
proof fn lemma_lex_rendered_infix(b: Seq<u8>, p: int, e: ExprView)
    requires
        wf_expr(e),
        e is Infix,
        text_at(b, p, render_expr(e)),
        p + render_expr(e).len() == b.len() || (!is_letter(b[p + render_expr(e).len()]) && !is_digit(
            b[p + render_expr(e).len()],
        )),
    ensures
        lex_from(b, p) == expr_tokens(e) + lex_from(b, p + render_expr(e).len()),
    decreases e, 0nat,
{
    let q = p + render_expr(e).len();
    let l = *e->Infix_left;
    let r = *e->Infix_right;
    let operator = e->Infix_operator;
    let rl = render_expr(l);
    let rr = render_expr(r);
    let mid = seq![' '] + literal_of(operator) + seq![' '];
    lemma_render_first(l);
    lemma_render_first(r);
    let m = p + 1 + rl.len();
    let n = m + mid.len();
    assert(render_expr(e) =~= seq!['('] + rl + mid + rr + seq![')']);
    lemma_text_split(b, p, seq!['('] + rl + mid + rr, seq![')']);
    lemma_text_split(b, p, seq!['('] + rl + mid, rr);
    lemma_text_split(b, p, seq!['('] + rl, mid);
    lemma_text_split(b, p, seq!['('], rl);
    assert(b[p] as u32 == seq!['('][0] as u32);
    assert(b[m] as u32 == mid[0] as u32);
    assert(b[n] as u32 == rr[0] as u32);
    assert(b[q - 1] as u32 == seq![')'][0] as u32);
    lemma_lex_symbol(b, p);
    lemma_lex_rendered_expr(b, p + 1, l);
    lemma_lex_operator(b, m, operator);
    lemma_lex_rendered_expr(b, n, r);
    lemma_lex_symbol(b, q - 1);
    assert(lex_from(b, p) =~= expr_tokens(e) + lex_from(b, q));
}

/// A run of letters ending before a non-letter scans as one word.
proof fn lemma_lex_word(b: Seq<u8>, p: int, w: Seq<char>)
    requires
        text_at(b, p, w),
        w.len() > 0,
        forall|i: int| 0 <= i < w.len() ==> (#[trigger] w[i] as u32) < 128 && is_letter((w[i] as u32) as u8),
        p + w.len() == b.len() || !is_letter(b[p + w.len()]),
    ensures
        lex_from(b, p) == seq![word_token(w)] + lex_from(b, p + w.len()),
{
    let q = p + w.len();
    assert(b[p] as u32 == w[0] as u32);
    assert forall|i: int| p <= i < q implies is_letter(#[trigger] b[i]) by {
        assert(b[p + (i - p)] as u32 == w[i - p] as u32);
    }
    lemma_letters_run(b, p, q);
    lemma_chars_of_text(b, p, w);
    assert(skip_spaces(b, p) == p);
    lemma_lex_step(b, p);
}

/// Every character of a rendered expression is ASCII.
proof fn lemma_render_ascii(e: ExprView)
    requires
        wf_expr(e),
    ensures
        forall|i: int| 0 <= i < render_expr(e).len() ==> (#[trigger] render_expr(e)[i] as u32) < 128,
    decreases e,
{
    match e {
        ExprView::Ident { .. } => {},
        ExprView::Int { .. } => {},
        ExprView::Prefix { operator, right } => {
            lemma_render_ascii(*right);
            let parts = seq!['('] + literal_of(operator) + render_expr(*right) + seq![')'];
            assert forall|i: int| 0 <= i < parts.len() implies (#[trigger] parts[i] as u32) < 128 by {
                if i >= 1 + literal_of(operator).len() && i < parts.len() - 1 {
                    assert(parts[i] == render_expr(*right)[i - 1 - literal_of(operator).len()]);
                }
            }
        },
        ExprView::Infix { left, operator, right } => {
            lemma_render_ascii(*left);
            lemma_render_ascii(*right);
            let a = seq!['('] + render_expr(*left);
            let m = a + seq![' '] + literal_of(operator) + seq![' '];
            let parts = m + render_expr(*right) + seq![')'];
            assert forall|i: int| 0 <= i < parts.len() implies (#[trigger] parts[i] as u32) < 128 by {
                if 1 <= i < a.len() {
                    assert(parts[i] == render_expr(*left)[i - 1]);
                } else if m.len() <= i < parts.len() - 1 {
                    assert(parts[i] == render_expr(*right)[i - m.len()]);
                }
            }
        },
    }
}

/// The bytes of an ASCII text are its characters.
proof fn lemma_ascii_text(t: Seq<char>)
    requires
        forall|i: int| 0 <= i < t.len() ==> (#[trigger] t[i] as u32) < 128,
    ensures
        text_at(encode_utf8(t), 0, t),
        encode_utf8(t).len() == t.len(),
{
    assert forall|i: int| 0 <= i < t.len() implies '\0' <= #[trigger] t[i] <= '\u{7f}' by {
        assert((t[i] as u32) < 128);
        vstd::utf8::char_u32_cast(t[i], t[i] as u32);
        assert((t[i] as nat) < 128);
    }
    assert(is_ascii_chars(t));
    is_ascii_chars_encode_utf8(t);
    assert forall|i: int| 0 <= i < t.len() implies encode_utf8(t)[0 + i] as u32 == #[trigger] t[i] as u32 by {
        assert(encode_utf8(t)[i] == t[i] as u8);
    }
}

/// The text of a statement of the parser's shape scans to its tokens.
proof fn lemma_lex_rendered_stmt(s: StmtView)
    requires
        wf_stmt(s),
    ensures
        tokens_of(encode_utf8(render_stmt(s))) == stmt_tokens(s),
{
    let t = render_stmt(s);
    let b = encode_utf8(t);
    match s {
        StmtView::Let { token, name_token, name, value } => {
            let kw = seq!['l', 'e', 't'];
            let rv = render_expr(value);
            lemma_render_ascii(value);
            lemma_render_first(value);
            assert(t =~= kw + seq![' '] + name + seq![' ', '=', ' '] + rv + seq![';']);
            assert forall|i: int| 0 <= i < t.len() implies (#[trigger] t[i] as u32) < 128 by {
                let a = kw + seq![' '] + name + seq![' ', '=', ' '];
                if 4 <= i < 4 + name.len() {
                    assert(t[i] == name[i - 4]);
                } else if a.len() <= i < a.len() + rv.len() {
                    assert(t[i] == rv[i - a.len()]);
                }
            }
            lemma_ascii_text(t);
            let n1 = 4 + name.len() as int;
            let n2: int = n1 + 3;
            let n3: int = n2 + rv.len();
            lemma_text_split(b, 0, kw + seq![' '] + name + seq![' ', '=', ' '] + rv, seq![';']);
            lemma_text_split(b, 0, kw + seq![' '] + name + seq![' ', '=', ' '], rv);
            lemma_text_split(b, 0, kw + seq![' '] + name, seq![' ', '=', ' ']);
            lemma_text_split(b, 0, kw + seq![' '], name);
            lemma_text_split(b, 0, kw, seq![' ']);
            assert(b[3] as u32 == seq![' '][0] as u32);
            assert(b[n1] as u32 == seq![' ', '=', ' '][0] as u32);
            assert(b[n1 + 1] as u32 == seq![' ', '=', ' '][1] as u32);
            assert(b[n1 + 2] as u32 == seq![' ', '=', ' '][2] as u32);
            assert(b[n2] as u32 == rv[0] as u32);
            assert(b[n3] as u32 == seq![';'][0] as u32);
            assert(b[4] as u32 == name[0] as u32);
            lemma_lex_word(b, 0, kw);
            lemma_lex_space(b, 3);
            lemma_lex_word(b, 4, name);
            lemma_lex_space(b, n1);
            lemma_lex_symbol(b, n1 + 1);
            lemma_lex_space(b, n1 + 2);
            lemma_lex_rendered_expr(b, n2, value);
            lemma_lex_symbol(b, n3);
            lemma_skip_spaces(b, b.len() as int);
            lemma_lex_step(b, b.len() as int);
            assert(word_token(kw) == TokenView::Let);
            assert(tokens_of(b) =~= stmt_tokens(s));
        },
        StmtView::Return { token, value } => {
            let kw = seq!['r', 'e', 't', 'u', 'r', 'n'];
            let rv = render_expr(value);
            lemma_render_ascii(value);
            lemma_render_first(value);
            assert(t =~= kw + seq![' '] + rv + seq![';']);
            assert forall|i: int| 0 <= i < t.len() implies (#[trigger] t[i] as u32) < 128 by {
                if 7 <= i < 7 + rv.len() {
                    assert(t[i] == rv[i - 7]);
                }
            }
            lemma_ascii_text(t);
            let n3: int = 7 + rv.len() as int;
            lemma_text_split(b, 0, kw + seq![' '] + rv, seq![';']);
            lemma_text_split(b, 0, kw + seq![' '], rv);
            lemma_text_split(b, 0, kw, seq![' ']);
            assert(b[6] as u32 == seq![' '][0] as u32);
            assert(b[7] as u32 == rv[0] as u32);
            assert(b[n3] as u32 == seq![';'][0] as u32);
            lemma_lex_word(b, 0, kw);
            lemma_lex_space(b, 6);
            lemma_lex_rendered_expr(b, 7, value);
            lemma_lex_symbol(b, n3);
            lemma_skip_spaces(b, b.len() as int);
            lemma_lex_step(b, b.len() as int);
            assert(word_token(kw) == TokenView::Return);
            assert(tokens_of(b) =~= stmt_tokens(s));
        },
        StmtView::Expr { token, value } => {
            lemma_render_ascii(value);
            lemma_ascii_text(t);
            lemma_lex_rendered_expr(b, 0, value);
            lemma_skip_spaces(b, b.len() as int);
            lemma_lex_step(b, b.len() as int);
            assert(tokens_of(b) =~= stmt_tokens(s));
        },
    }
}

/// Rendering a statement of the shape the parser builds, then scanning and
/// parsing that text, gives the statement back; an expression statement comes
/// back recording the first token of its text.
pub proof fn render_then_parse(s: StmtView)
    requires
        wf_stmt(s),
    ensures
        parse_tokens(tokens_of(encode_utf8(render_stmt(s)))) == Ok::<Seq<StmtView>, crate::parser::ErrorView>(
            seq![reparsed(s)],
        ),
        wf_stmt(reparsed(s)),
        reparsed(reparsed(s)) == reparsed(s),
{
    lemma_lex_rendered_stmt(s);
    lemma_parse_rendered_stmt(s);
}

/// A token as the scanner produces it: names are words, integers are digit runs.
pub open spec fn wf_token(t: TokenView) -> bool {
    match t {
        TokenView::Ident(v) => is_word(v),
        TokenView::Int(v) => is_number(v),
        _ => true,
    }
}

proof fn lemma_chars_of_run(b: Seq<u8>, s: int, e: int)
    requires
        0 <= s <= e <= b.len(),
    ensures
        chars_of(b.subrange(s, e)).len() == e - s,
        forall|i: int| 0 <= i < e - s ==> (#[trigger] chars_of(b.subrange(s, e))[i] as u32) == b[s + i] as u32,
{
    assert forall|i: int| 0 <= i < e - s implies (#[trigger] chars_of(b.subrange(s, e))[i] as u32) == b[s + i] as u32 by {
        let c = chars_of(b.subrange(s, e))[i];
        assert(c == (b[s + i] as u32) as char);
    }
}

/// Every token the scanner produces is well formed.
pub proof fn lemma_lex_wf(b: Seq<u8>, p: int)
    requires
        0 <= p <= b.len(),
    ensures
        forall|i: int| 0 <= i < lex_from(b, p).len() ==> wf_token(#[trigger] lex_from(b, p)[i]),
    decreases b.len() - p,
{
    lemma_lex_step(b, p);
    lemma_scan_advances(b, p);
    let (t, q) = scan(b, p);
    if t != TokenView::EOF {
        lemma_lex_wf(b, q);
        lemma_skip_spaces(b, p);
        let st = skip_spaces(b, p);
        assert(wf_token(t)) by {
            if is_letter(b[st]) {
                let e = crate::lexer::letters_end(b, st);
                crate::lexer::lemma_letters_end(b, st + 1);
                crate::lexer::lemma_letters_end(b, st);
                lemma_chars_of_run(b, st, e);
                let w = chars_of(b.subrange(st, e));
                assert forall|i: int| 0 <= i < w.len() implies (#[trigger] w[i] as u32) < 128 && is_letter((w[i] as u32) as u8) by {
                    assert(is_letter(b[st + i]));
                }
            } else if is_digit(b[st]) {
                let e = crate::lexer::digits_end(b, st);
                crate::lexer::lemma_digits_end(b, st + 1);
                crate::lexer::lemma_digits_end(b, st);
                lemma_chars_of_run(b, st, e);
                let w = chars_of(b.subrange(st, e));
                assert forall|i: int| 0 <= i < w.len() implies (#[trigger] w[i] as u32) < 128 && is_digit((w[i] as u32) as u8) by {
                    assert(is_digit(b[st + i]));
                }
            }
        }
        assert forall|i: int| 0 <= i < lex_from(b, p).len() implies wf_token(#[trigger] lex_from(b, p)[i]) by {
            if i > 0 {
                assert(lex_from(b, p)[i] == lex_from(b, q)[i - 1]);
            }
        }
    }
}

pub open spec fn all_wf(ts: Seq<TokenView>) -> bool {
    forall|i: int| 0 <= i < ts.len() ==> wf_token(#[trigger] ts[i])
}

proof fn lemma_tok_at_wf(ts: Seq<TokenView>, i: int)
    requires
        all_wf(ts),
    ensures
        wf_token(tok_at(ts, i)),
{
}

proof fn lemma_parse_expr_wf(ts: Seq<TokenView>, i: int, p: nat)
    requires
        all_wf(ts),
    ensures
        parse_expr(ts, i, p) is Ok ==> wf_expr(parse_expr(ts, i, p)->Ok_0.0),
    decreases ts.len() - i, 2nat,
{
    lemma_parse_prefix_wf(ts, i);
    match parse_prefix(ts, i) {
        Ok((left, j)) => if i <= j < ts.len() {
            lemma_climb_wf(ts, left, j, p);
        },
        Err(_) => {},
    }
}

proof fn lemma_parse_prefix_wf(ts: Seq<TokenView>, i: int)
    requires
        all_wf(ts),
    ensures
        parse_prefix(ts, i) is Ok ==> wf_expr(parse_prefix(ts, i)->Ok_0.0),
    decreases ts.len() - i, 1nat,
{
    lemma_tok_at_wf(ts, i);
    match tok_at(ts, i) {
        TokenView::Bang => lemma_prefix_operator_wf(ts, i),
        TokenView::Minus => lemma_prefix_operator_wf(ts, i),
        TokenView::LParen => lemma_grouped_wf(ts, i),
        _ => {},
    }
}

proof fn lemma_prefix_operator_wf(ts: Seq<TokenView>, i: int)
    requires
        all_wf(ts),
        tok_at(ts, i) == TokenView::Bang || tok_at(ts, i) == TokenView::Minus,
    ensures
        parse_prefix_operator(ts, i) is Ok ==> wf_expr(parse_prefix_operator(ts, i)->Ok_0.0),
    decreases ts.len() - i, 0nat,
{
    if 0 <= i < ts.len() {
        lemma_parse_expr_wf(ts, i + 1, OperatorPrecedence::Prefix.spec_rank());
    }
}

proof fn lemma_grouped_wf(ts: Seq<TokenView>, i: int)
    requires
        all_wf(ts),
    ensures
        parse_grouped(ts, i) is Ok ==> wf_expr(parse_grouped(ts, i)->Ok_0.0),
    decreases ts.len() - i, 0nat,
{
    if 0 <= i < ts.len() {
        lemma_parse_expr_wf(ts, i + 1, OperatorPrecedence::Lowest.spec_rank());
    }
}

proof fn lemma_climb_wf(ts: Seq<TokenView>, left: ExprView, j: int, p: nat)
    requires
        all_wf(ts),
        wf_expr(left),
    ensures
        climb(ts, left, j, p) is Ok ==> wf_expr(climb(ts, left, j, p)->Ok_0.0),
    decreases ts.len() - j, 0nat,
{
    let op = tok_at(ts, j + 1);
    if p < precedence_of(op).spec_rank() && 0 <= j && j + 1 < ts.len() {
        lemma_parse_expr_wf(ts, j + 2, precedence_of(op).spec_rank());
        match parse_expr(ts, j + 2, precedence_of(op).spec_rank()) {
            Ok((right, k)) => {
                let joined = ExprView::Infix { left: Box::new(left), operator: op, right: Box::new(right) };
                assert(wf_expr(joined));
                if j < k < ts.len() {
                    lemma_climb_wf(ts, joined, k, p);
                }
            },
            Err(_) => {},
        }
    }
}

proof fn lemma_parse_stmts_wf(ts: Seq<TokenView>, i: int)
    requires
        all_wf(ts),
    ensures
        parse_stmts(ts, i) is Ok ==> forall|k: int| 0 <= k < parse_stmts(ts, i)->Ok_0.len()
            ==> wf_stmt(#[trigger] parse_stmts(ts, i)->Ok_0[k]),
    decreases ts.len() - i,
{
    if 0 <= i < ts.len() {
        lemma_tok_at_wf(ts, i);
        lemma_tok_at_wf(ts, i + 1);
        lemma_parse_expr_wf(ts, i, 0);
        lemma_parse_expr_wf(ts, i + 1, 0);
        lemma_parse_expr_wf(ts, i + 3, 0);
        match parse_stmt(ts, i) {
            Ok((s, j)) => {
                assert(wf_stmt(s));
                if i <= j < ts.len() {
                    lemma_parse_stmts_wf(ts, j + 1);
                    match parse_stmts(ts, j + 1) {
                        Ok(rest) => {
                            assert forall|k: int| 0 <= k < (seq![s] + rest).len() implies wf_stmt(#[trigger] (seq![s] + rest)[k]) by {
                                if k > 0 {
                                    assert((seq![s] + rest)[k] == rest[k - 1]);
                                }
                            }
                        },
                        Err(_) => {},
                    }
                }
            },
            Err(_) => {},
        }
    }
}

/// Parsing, rendering and parsing again: each statement parsed from a source
/// text renders to a text that parses to exactly one statement, the same tree
/// (an expression statement recording the first token of its text), and that
/// statement renders to the same text, so a second round changes nothing.
pub proof fn parse_render_parse(b: Seq<u8>, k: int)
    requires
        parse_tokens(tokens_of(b)) is Ok,
        0 <= k < parse_tokens(tokens_of(b))->Ok_0.len(),
    ensures
        ({
            let s = parse_tokens(tokens_of(b))->Ok_0[k];
            &&& parse_tokens(tokens_of(encode_utf8(render_stmt(s)))) == Ok::<Seq<StmtView>, crate::parser::ErrorView>(
                seq![reparsed(s)],
            )
            &&& render_stmt(reparsed(s)) == render_stmt(s)
            &&& reparsed(reparsed(s)) == reparsed(s)
            &&& (s is Let || s is Return ==> reparsed(s) == s)
            &&& (s is Expr ==> reparsed(s)->Expr_value == s->Expr_value)
        }),
{
    lemma_lex_wf(b, 0);
    lemma_parse_stmts_wf(tokens_of(b), 0);
    let s = parse_tokens(tokens_of(b))->Ok_0[k];
    render_then_parse(s);
}

} // verus!
