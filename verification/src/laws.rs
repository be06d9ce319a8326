use vstd::prelude::*;

verus! {

use crate::parts::{PartModel, TemplateInfo, TemplateError};
use crate::lexer::{
    at_open, at_lit_open, at_close, at_lit_close, take_text, take_block, lex, open_kind, open_len,
    BlockKind,
};
use crate::normalize::normalize_model;
use crate::optimize::{optimize_model, content_of, optimized_form, lemma_optimize_form};
use crate::transform_model;

/// Law: whatever a successful transform returns is in optimized form — no
/// directive part, no empty part, and no two adjacent parts of one kind.
pub proof fn lemma_transform_is_optimized(s: Seq<char>, info: TemplateInfo)
    ensures
        transform_model(s, info) matches Ok(ps) ==> optimized_form(ps),
{
    match lex(s) {
        Ok(segs) => {
            lemma_optimize_form(normalize_model(segs, info));
        },
        Err(_) => {},
    }
}

/// A block-open delimiter `<#` occurs somewhere in `s`.
pub open spec fn contains_open(s: Seq<char>) -> bool {
    exists|j: int| 0 <= j && j + 2 <= s.len() && #[trigger] s[j] == '<' && s[j + 1] == '#'
}

/// A block-close delimiter `#>` occurs somewhere in `s`.
pub open spec fn contains_close(s: Seq<char>) -> bool {
    exists|j: int| 0 <= j && j + 2 <= s.len() && #[trigger] s[j] == '#' && s[j + 1] == '>'
}

proof fn lemma_no_open_skip(s: Seq<char>, k: int)
    requires
        !contains_open(s),
        0 <= k <= s.len(),
    ensures
        !contains_open(s.skip(k)),
{
    if contains_open(s.skip(k)) {
        let j = choose|j: int|
            0 <= j && j + 2 <= s.skip(k).len() && #[trigger] s.skip(k)[j] == '<' && s.skip(k)[j
                + 1] == '#';
        assert(s[j + k] == '<' && s[j + k + 1] == '#');
        assert(contains_open(s));
    }
}

proof fn lemma_no_close_skip(s: Seq<char>, k: int)
    requires
        !contains_close(s),
        0 <= k <= s.len(),
    ensures
        !contains_close(s.skip(k)),
{
    if contains_close(s.skip(k)) {
        let j = choose|j: int|
            0 <= j && j + 2 <= s.skip(k).len() && #[trigger] s.skip(k)[j] == '#' && s.skip(k)[j
                + 1] == '>';
        assert(s[j + k] == '#' && s[j + k + 1] == '>');
        assert(contains_close(s));
    }
}

/// Text scanning consumes an input without block-open delimiters whole.
proof fn lemma_take_text_all(s: Seq<char>)
    requires
        !contains_open(s),
    ensures
        take_text(s) == (s, Seq::<char>::empty()),
    decreases s.len(),
{
    if s.len() == 0 {
        assert(s =~= Seq::<char>::empty());
    } else {
        assert(!at_open(s)) by {
            if at_open(s) {
                assert(contains_open(s));
            }
        }
        lemma_no_open_skip(s, 1);
        lemma_take_text_all(s.skip(1));
        assert(seq![s[0]] + s.skip(1) =~= s);
    }
}

/// Law: an input without a block-open delimiter parses, under any starting
/// configuration, to exactly one text part equal to the whole input — and to
/// no part at all when the input is empty.
pub proof fn lemma_no_delimiter_is_text(s: Seq<char>, info: TemplateInfo)
    requires
        !contains_open(s),
    ensures
        s.len() == 0 ==> transform_model(s, info) == Ok::<Seq<PartModel>, TemplateError>(
            Seq::<PartModel>::empty(),
        ),
        s.len() > 0 ==> transform_model(s, info) == Ok::<Seq<PartModel>, TemplateError>(
            seq![PartModel::Text(s)],
        ),
{
    if s.len() == 0 {
        assert(lex(s) == Ok::<Seq<PartModel>, TemplateError>(Seq::<PartModel>::empty()));
        assert(normalize_model(Seq::<PartModel>::empty(), info) == Seq::<PartModel>::empty());
        assert(optimize_model(Seq::<PartModel>::empty()) == Seq::<PartModel>::empty());
    } else {
        lemma_take_text_all(s);
        let segs = seq![PartModel::Text(s)];
        assert(lex(s) == Ok::<Seq<PartModel>, TemplateError>(segs));
        assert(normalize_model(segs, info) == segs);
        assert(optimize_model(segs) == segs) by {
            assert(segs.skip(1) =~= Seq::<PartModel>::empty());
            assert(optimize_model(segs.skip(1)) == Seq::<PartModel>::empty());
            assert(!(segs[0] is Directive));
            assert(content_of(segs[0]) == s);
            assert(seq![segs[0]] + Seq::<PartModel>::empty() =~= segs);
        }
    }
}

/// Law: the literal escape `<#<#` inside text contributes exactly one literal
/// `<#` to the enclosing text and never opens a block: scanning continues in
/// TEXT mode behind it.
pub proof fn lemma_open_escape_is_literal(a: Seq<char>, b: Seq<char>)
    requires
        !contains_open(a),
    ensures
        take_text(a + seq!['<', '#', '<', '#'] + b).0 == a + seq!['<', '#'] + take_text(b).0,
        take_text(a + seq!['<', '#', '<', '#'] + b).1 == take_text(b).1,
    decreases a.len(),
{
    let esc = seq!['<', '#', '<', '#'];
    let s = a + esc + b;
    if a.len() == 0 {
        assert(s[0] == '<' && s[1] == '#' && s[2] == '<' && s[3] == '#');
        assert(at_lit_open(s));
        assert(s.skip(4) =~= b);
        assert(a + seq!['<', '#'] + take_text(b).0 =~= seq!['<', '#'] + take_text(b).0);
    } else {
        assert(s[0] == a[0]);
        assert(!at_open(s)) by {
            if at_open(s) {
                if a.len() == 1 {
                    assert(s[1] == esc[0]);
                } else {
                    assert(s[1] == a[1]);
                    assert(contains_open(a));
                }
            }
        }
        lemma_no_open_skip(a, 1);
        assert(s.skip(1) =~= a.skip(1) + esc + b);
        lemma_open_escape_is_literal(a.skip(1), b);
        assert(take_text(s).0 == seq![s[0]] + take_text(s.skip(1)).0);
        assert(seq![a[0]] + (a.skip(1) + seq!['<', '#'] + take_text(b).0) =~= a + seq!['<', '#']
            + take_text(b).0);
    }
}

/// Law: the literal escape `#>#>` inside a block contributes exactly one
/// literal `#>` to the block's content and does not close it: scanning
/// continues in BLOCK mode behind it.
pub proof fn lemma_close_escape_is_literal(a: Seq<char>, b: Seq<char>)
    requires
        !contains_close(a),
    ensures
        take_block(a + seq!['#', '>', '#', '>'] + b) == match take_block(b) {
            Some((c, r)) => Some((a + seq!['#', '>'] + c, r)),
            None => None::<(Seq<char>, Seq<char>)>,
        },
    decreases a.len(),
{
    let esc = seq!['#', '>', '#', '>'];
    let s = a + esc + b;
    if a.len() == 0 {
        assert(s[0] == '#' && s[1] == '>' && s[2] == '#' && s[3] == '>');
        assert(at_lit_close(s));
        assert(s.skip(4) =~= b);
        match take_block(b) {
            Some((c, r)) => {
                assert(a + seq!['#', '>'] + c =~= seq!['#', '>'] + c);
            },
            None => {},
        }
    } else {
        assert(s[0] == a[0]);
        assert(!at_close(s)) by {
            if at_close(s) {
                if a.len() == 1 {
                    assert(s[1] == esc[0]);
                } else {
                    assert(s[1] == a[1]);
                    assert(contains_close(a));
                }
            }
        }
        lemma_no_close_skip(a, 1);
        assert(s.skip(1) =~= a.skip(1) + esc + b);
        lemma_close_escape_is_literal(a.skip(1), b);
        match take_block(b) {
            Some((c, r)) => {
                assert(take_block(s.skip(1)) == Some((a.skip(1) + seq!['#', '>'] + c, r)));
                assert(take_block(s) == Some((seq![s[0]] + (a.skip(1) + seq!['#', '>'] + c), r)));
                assert(seq![a[0]] + (a.skip(1) + seq!['#', '>'] + c) =~= a + seq!['#', '>'] + c);
            },
            None => {},
        }
    }
}

/// A block whose body holds no close delimiter ends exactly at the close
/// delimiter appended behind it, with the body as its content.
pub proof fn lemma_block_exact(body: Seq<char>)
    requires
        !contains_close(body),
    ensures
        take_block(body + seq!['#', '>']) == Some((body, Seq::<char>::empty())),
    decreases body.len(),
{
    let s = body + seq!['#', '>'];
    if body.len() == 0 {
        assert(s[0] == '#' && s[1] == '>');
        assert(at_close(s));
        assert(!at_lit_close(s));
        assert(s.skip(2) =~= Seq::<char>::empty());
        assert(body =~= Seq::<char>::empty());
    } else {
        assert(s[0] == body[0]);
        assert(!at_close(s)) by {
            if at_close(s) {
                if body.len() == 1 {
                    assert(s[1] == '#');
                } else {
                    assert(s[1] == body[1]);
                    assert(contains_close(body));
                }
            }
        }
        lemma_no_close_skip(body, 1);
        assert(s.skip(1) =~= body.skip(1) + seq!['#', '>']);
        lemma_block_exact(body.skip(1));
        assert(take_block(s) == Some((seq![body[0]] + body.skip(1), Seq::<char>::empty())));
        assert(seq![body[0]] + body.skip(1) =~= body);
    }
}

/// Law: `<#= body #>` with a nonempty body free of close delimiters parses,
/// under any starting configuration, to exactly one expression part holding
/// the raw body — never a code part; only an empty body would be dropped, by
/// the optimizer's non-emptiness rule.
pub proof fn lemma_expression_block(body: Seq<char>, info: TemplateInfo)
    requires
        !contains_close(body),
        body.len() > 0,
    ensures
        transform_model(seq!['<', '#', '='] + body + seq!['#', '>'], info) == Ok::<
            Seq<PartModel>,
            TemplateError,
        >(seq![PartModel::Expr(body)]),
{
    let s = seq!['<', '#', '='] + body + seq!['#', '>'];
    assert(s[0] == '<' && s[1] == '#' && s[2] == '=');
    assert(at_open(s));
    assert(!at_lit_open(s));
    assert(take_text(s) == (Seq::<char>::empty(), s));
    assert(open_kind(s) is Expr);
    assert(s.skip(3) =~= body + seq!['#', '>']);
    lemma_block_exact(body);
    assert(take_block(s.skip(open_len(open_kind(s)))) == Some((body, Seq::<char>::empty())));
    let segs = seq![PartModel::Text(Seq::<char>::empty()), PartModel::Expr(body)];
    assert(lex(s) == Ok::<Seq<PartModel>, TemplateError>(segs)) by {
        assert(lex(Seq::<char>::empty()) == Ok::<Seq<PartModel>, TemplateError>(
            Seq::<PartModel>::empty(),
        ));
        assert(seq![PartModel::Text(Seq::<char>::empty()), PartModel::Expr(body)]
            + Seq::<PartModel>::empty() =~= segs);
    }
    assert(normalize_model(segs, info) == segs);
    assert(optimize_model(segs) == seq![PartModel::Expr(body)]) by {
        let single = seq![PartModel::Expr(body)];
        assert(segs.skip(1) =~= single);
        assert(single.skip(1) =~= Seq::<PartModel>::empty());
        assert(optimize_model(Seq::<PartModel>::empty()) == Seq::<PartModel>::empty());
        assert(content_of(single[0]) == body);
        assert(optimize_model(single) =~= single) by {
            assert(seq![single[0]] + Seq::<PartModel>::empty() =~= single);
        }
        assert(content_of(segs[0]).len() == 0);
    }
}

} // verus!
