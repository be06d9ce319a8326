use vstd::prelude::*;

verus! {

use crate::parts::{TemplatePart, PartModel, TemplateInfo, TemplateError};
use crate::directive::{
    parse_directive_spec, directive_ok, apply_directive_spec, apply_directive_ok,
    lemma_apply_directive_ok, parse_directive, apply_directive,
};
use crate::strutil::{lemma_skip_succ, lemma_skip_add, push_char_at};

// ---------------------------------------------------------------------------
// Delimiters.
// ---------------------------------------------------------------------------

/// The sequence starts with the block-open delimiter `<#`.
pub open spec fn at_open(s: Seq<char>) -> bool {
    s.len() >= 2 && s[0] == '<' && s[1] == '#'
}

/// The sequence starts with the literal escape `<#<#`.
pub open spec fn at_lit_open(s: Seq<char>) -> bool {
    s.len() >= 4 && s[0] == '<' && s[1] == '#' && s[2] == '<' && s[3] == '#'
}

/// The sequence starts with the block-close delimiter `#>`.
pub open spec fn at_close(s: Seq<char>) -> bool {
    s.len() >= 2 && s[0] == '#' && s[1] == '>'
}

/// The sequence starts with the literal escape `#>#>`.
pub open spec fn at_lit_close(s: Seq<char>) -> bool {
    s.len() >= 4 && s[0] == '#' && s[1] == '>' && s[2] == '#' && s[3] == '>'
}

// ---------------------------------------------------------------------------
// The two scanning modes, specified over character sequences.
// ---------------------------------------------------------------------------

/// TEXT mode: the text up to the next block-open delimiter, with each `<#<#`
/// collapsed to a literal `<#`, and the rest of the input from that delimiter
/// (empty if the input ends first). Escapes are matched before the delimiter.
pub open spec fn take_text(s: Seq<char>) -> (Seq<char>, Seq<char>)
    decreases s.len(),
{
    if s.len() == 0 {
        (Seq::empty(), s)
    } else if at_lit_open(s) {
        let (c, r) = take_text(s.skip(4));
        (seq!['<', '#'] + c, r)
    } else if at_open(s) {
        (Seq::empty(), s)
    } else {
        let (c, r) = take_text(s.skip(1));
        (seq![s[0]] + c, r)
    }
}

/// BLOCK mode: the content up to the closing delimiter, with each `#>#>`
/// collapsed to a literal `#>`, and the rest after the close; `None` if the
/// input ends before the block is closed.
pub open spec fn take_block(s: Seq<char>) -> Option<(Seq<char>, Seq<char>)>
    decreases s.len(),
{
    if s.len() == 0 {
        None
    } else if at_lit_close(s) {
        match take_block(s.skip(4)) {
            Some((c, r)) => Some((seq!['#', '>'] + c, r)),
            None => None,
        }
    } else if at_close(s) {
        Some((Seq::empty(), s.skip(2)))
    } else {
        match take_block(s.skip(1)) {
            Some((c, r)) => Some((seq![s[0]] + c, r)),
            None => None,
        }
    }
}

pub proof fn lemma_take_text_rest(s: Seq<char>)
    ensures
        take_text(s).1.len() <= s.len(),
        take_text(s).1.len() != 0 ==> at_open(take_text(s).1) && !at_lit_open(take_text(s).1),
    decreases s.len(),
{
    if s.len() == 0 {
    } else if at_lit_open(s) {
        lemma_take_text_rest(s.skip(4));
    } else if at_open(s) {
    } else {
        lemma_take_text_rest(s.skip(1));
    }
}

pub proof fn lemma_take_block_rest(s: Seq<char>)
    ensures
        take_block(s) matches Some((c, r)) ==> r.len() + 2 <= s.len(),
    decreases s.len(),
{
    if s.len() == 0 {
    } else if at_lit_close(s) {
        lemma_take_block_rest(s.skip(4));
    } else if at_close(s) {
    } else {
        lemma_take_block_rest(s.skip(1));
    }
}

// ---------------------------------------------------------------------------
// Block kinds.
// ---------------------------------------------------------------------------

/// The sub-kind of the block a delimiter opens.
pub enum BlockKind {
    Code,
    Expr,
    Directive,
}

/// The kind opened at `s`, which starts with `<#`: `<#=` opens an expression,
/// `<#@` a directive, anything else a code block.
pub open spec fn open_kind(s: Seq<char>) -> BlockKind {
    if s.len() >= 3 && s[2] == '=' {
        BlockKind::Expr
    } else if s.len() >= 3 && s[2] == '@' {
        BlockKind::Directive
    } else {
        BlockKind::Code
    }
}

/// How many characters the opening delimiter of that kind takes.
pub open spec fn open_len(k: BlockKind) -> int {
    match k {
        BlockKind::Code => 2,
        BlockKind::Expr => 3,
        BlockKind::Directive => 3,
    }
}

// ---------------------------------------------------------------------------
// The lexer.
// ---------------------------------------------------------------------------

/// The whole segmentation automaton: text, then alternately one block and one
/// text, until the input is exhausted. Empty input yields no parts; input
/// ending in TEXT mode ends with a (possibly empty) text part; input ending
/// inside a block is an `UnterminatedBlock` error; a directive body that does
/// not parse is a `DirectiveSyntaxError`; a recognized directive parameter
/// with a non-boolean value is an `InvalidDirectiveValue`. All fatal.
pub open spec fn lex(s: Seq<char>) -> Result<Seq<PartModel>, TemplateError>
    decreases s.len(),
{
    if s.len() == 0 {
        Ok(Seq::empty())
    } else {
        let (txt, rest) = take_text(s);
        if rest.len() == 0 {
            Ok(seq![PartModel::Text(txt)])
        } else {
            let kind = open_kind(rest);
            let body = rest.skip(open_len(kind));
            match take_block(body) {
                None => Err(TemplateError::UnterminatedBlock),
                Some((content, rest2)) => {
                    let head = match kind {
                        BlockKind::Code => Ok(PartModel::Code(content)),
                        BlockKind::Expr => Ok(PartModel::Expr(content)),
                        BlockKind::Directive => match parse_directive_spec(content) {
                            None => Err(TemplateError::DirectiveSyntaxError),
                            Some(d) => if directive_ok(d) {
                                Ok(PartModel::Directive(d))
                            } else {
                                Err(TemplateError::InvalidDirectiveValue)
                            },
                        },
                    };
                    match head {
                        Err(e) => Err(e),
                        Ok(h) => {
                            proof {
                                lemma_take_text_rest(s);
                                lemma_take_block_rest(body);
                            }
                            match lex(rest2) {
                                Err(e) => Err(e),
                                Ok(tail) => Ok(seq![PartModel::Text(txt), h] + tail),
                            }
                        },
                    }
                },
            }
        }
    }
}

/// The configuration after applying, in order, every directive of a part
/// sequence (each of which is assumed to apply cleanly).
pub open spec fn apply_all(info: TemplateInfo, parts: Seq<PartModel>) -> TemplateInfo
    decreases parts.len(),
{
    if parts.len() == 0 {
        info
    } else {
        let i2 = match parts[0] {
            PartModel::Directive(d) => apply_directive_ok(info, d),
            _ => info,
        };
        apply_all(i2, parts.skip(1))
    }
}

pub proof fn lemma_apply_all_concat(info: TemplateInfo, a: Seq<PartModel>, b: Seq<PartModel>)
    ensures
        apply_all(info, a + b) == apply_all(apply_all(info, a), b),
    decreases a.len(),
{
    if a.len() == 0 {
        assert(a + b =~= b);
    } else {
        let i2 = match a[0] {
            PartModel::Directive(d) => apply_directive_ok(info, d),
            _ => info,
        };
        assert((a + b).skip(1) =~= a.skip(1) + b);
        assert((a + b)[0] == a[0]);
        lemma_apply_all_concat(i2, a.skip(1), b);
    }
}

/// Every directive part in the sequence applies cleanly.
pub open spec fn parts_wf(parts: Seq<PartModel>) -> bool {
    forall|i: int|
        0 <= i < parts.len() ==> match #[trigger] parts[i] {
            PartModel::Directive(d) => directive_ok(d),
            _ => true,
        }
}

/// Whatever the lexer accepts is well-formed: every directive it kept had
/// applied cleanly.
pub proof fn lemma_lex_wf(s: Seq<char>)
    ensures
        lex(s) matches Ok(ps) ==> parts_wf(ps),
    decreases s.len(),
{
    if s.len() == 0 {
        assert(parts_wf(Seq::<PartModel>::empty()));
    } else {
        let (txt, rest) = take_text(s);
        if rest.len() == 0 {
        } else {
            let kind = open_kind(rest);
            let body = rest.skip(open_len(kind));
            match take_block(body) {
                None => {},
                Some((content, rest2)) => {
                    lemma_take_text_rest(s);
                    lemma_take_block_rest(body);
                    lemma_lex_wf(rest2);
                },
            }
        }
    }
}

// ---------------------------------------------------------------------------
// Executable lexer.
// ---------------------------------------------------------------------------

/// Does `<#` stand at position `i`?
fn open_at(s: &str, n: usize, i: usize) -> (r: bool)
    requires
        n == s@.len(),
        i <= n,
    ensures
        r == at_open(s@.skip(i as int)),
{
    proof {
        if i < n {
            assert(s@.skip(i as int)[0] == s@[i as int]);
            if n - i >= 2 {
                assert(s@.skip(i as int)[1] == s@[i + 1]);
            }
        }
    }
    i < n && n - i >= 2 && s.get_char(i) == '<' && s.get_char(i + 1) == '#'
}

/// Does the literal escape `<#<#` stand at position `i`?
fn lit_open_at(s: &str, n: usize, i: usize) -> (r: bool)
    requires
        n == s@.len(),
        i <= n,
    ensures
        r == at_lit_open(s@.skip(i as int)),
{
    proof {
        if i < n && n - i >= 4 {
            assert(s@.skip(i as int)[0] == s@[i as int]);
            assert(s@.skip(i as int)[1] == s@[i + 1]);
            assert(s@.skip(i as int)[2] == s@[i + 2]);
            assert(s@.skip(i as int)[3] == s@[i + 3]);
        }
    }
    i < n && n - i >= 4 && s.get_char(i) == '<' && s.get_char(i + 1) == '#' && s.get_char(i + 2)
        == '<' && s.get_char(i + 3) == '#'
}

/// Does `#>` stand at position `i`?
fn close_at(s: &str, n: usize, i: usize) -> (r: bool)
    requires
        n == s@.len(),
        i <= n,
    ensures
        r == at_close(s@.skip(i as int)),
{
    proof {
        if i < n {
            assert(s@.skip(i as int)[0] == s@[i as int]);
            if n - i >= 2 {
                assert(s@.skip(i as int)[1] == s@[i + 1]);
            }
        }
    }
    i < n && n - i >= 2 && s.get_char(i) == '#' && s.get_char(i + 1) == '>'
}

/// Does the literal escape `#>#>` stand at position `i`?
fn lit_close_at(s: &str, n: usize, i: usize) -> (r: bool)
    requires
        n == s@.len(),
        i <= n,
    ensures
        r == at_lit_close(s@.skip(i as int)),
{
    proof {
        if i < n && n - i >= 4 {
            assert(s@.skip(i as int)[0] == s@[i as int]);
            assert(s@.skip(i as int)[1] == s@[i + 1]);
            assert(s@.skip(i as int)[2] == s@[i + 2]);
            assert(s@.skip(i as int)[3] == s@[i + 3]);
        }
    }
    i < n && n - i >= 4 && s.get_char(i) == '#' && s.get_char(i + 1) == '>' && s.get_char(i + 2)
        == '#' && s.get_char(i + 3) == '>'
}

/// Scan TEXT mode from position `from`: the collected text content and the
/// position of the next block-open delimiter (or the end of the input).
pub fn parse_text(input: &str, n: usize, from: usize) -> (r: (String, usize))
    requires
        n == input@.len(),
        from <= n,
    ensures
        ({
            let (c, rest) = take_text(input@.skip(from as int));
            &&& r.0@ == c
            &&& from <= r.1 <= n
            &&& input@.skip(r.1 as int) == rest
        }),
{
    let mut content = String::new();
    let mut i = from;
    loop
        invariant
            n == input@.len(),
            from <= i <= n,
            take_text(input@.skip(from as int)).0 == content@ + take_text(
                input@.skip(i as int),
            ).0,
            take_text(input@.skip(from as int)).1 == take_text(input@.skip(i as int)).1,
        decreases n - i,
    {
        let ghost ti = input@.skip(i as int);
        if i == n {
            proof {
                assert(ti.len() == 0);
                assert(content@ + Seq::<char>::empty() =~= content@);
            }
            return (content, i);
        }
        if lit_open_at(input, n, i) {
            let ghost pre = content@;
            content.append("<#");
            proof {
                reveal_strlit("<#");
                lemma_skip_add(input@, i as int, 4);
                let (c4, r4) = take_text(input@.skip(i + 4));
                assert(take_text(ti).0 == seq!['<', '#'] + c4);
                assert(pre + "<#"@ =~= pre + seq!['<', '#']);
                assert(pre + (seq!['<', '#'] + c4) =~= (pre + seq!['<', '#']) + c4);
            }
            i += 4;
        } else if open_at(input, n, i) {
            proof {
                assert(take_text(ti) == (Seq::<char>::empty(), ti));
                assert(content@ + Seq::<char>::empty() =~= content@);
            }
            return (content, i);
        } else {
            let ghost pre = content@;
            push_char_at(&mut content, input, i);
            proof {
                assert(ti[0] == input@[i as int]);
                lemma_skip_succ(input@, i as int);
                let (c1, r1) = take_text(input@.skip(i + 1));
                assert(take_text(ti).0 == seq![ti[0]] + c1);
                assert(pre + (seq![ti[0]] + c1) =~= content@ + c1);
            }
            i += 1;
        }
    }
}

/// Scan BLOCK mode from position `from` (just after the opening delimiter):
/// the collected block content and the position just after the closing
/// delimiter, or `None` if the input ends before the block is closed.
pub fn parse_code(input: &str, n: usize, from: usize) -> (r: Option<(String, usize)>)
    requires
        n == input@.len(),
        from <= n,
    ensures
        match r {
            Some(v) => {
                &&& from < v.1 <= n
                &&& take_block(input@.skip(from as int)) == Some((v.0@, input@.skip(v.1 as int)))
            },
            None => take_block(input@.skip(from as int)) is None,
        },
{
    let mut content = String::new();
    let mut i = from;
    loop
        invariant
            n == input@.len(),
            from <= i <= n,
            take_block(input@.skip(from as int)) == match take_block(input@.skip(i as int)) {
                Some((c, r)) => Some((content@ + c, r)),
                None => None::<(Seq<char>, Seq<char>)>,
            },
        decreases n - i,
    {
        let ghost ti = input@.skip(i as int);
        if i == n {
            proof {
                assert(ti.len() == 0);
            }
            return None;
        }
        if lit_close_at(input, n, i) {
            let ghost pre = content@;
            content.append("#>");
            proof {
                reveal_strlit("#>");
                lemma_skip_add(input@, i as int, 4);
                match take_block(input@.skip(i + 4)) {
                    Some((c4, r4)) => {
                        assert(take_block(ti) == Some((seq!['#', '>'] + c4, r4)));
                        assert(pre + "#>"@ =~= pre + seq!['#', '>']);
                        assert(pre + (seq!['#', '>'] + c4) =~= (pre + seq!['#', '>']) + c4);
                    },
                    None => {},
                }
            }
            i += 4;
        } else if close_at(input, n, i) {
            proof {
                lemma_skip_add(input@, i as int, 2);
                assert(take_block(ti) == Some((Seq::<char>::empty(), input@.skip(i + 2))));
                assert(content@ + Seq::<char>::empty() =~= content@);
            }
            return Some((content, i + 2));
        } else {
            let ghost pre = content@;
            push_char_at(&mut content, input, i);
            proof {
                assert(ti[0] == input@[i as int]);
                lemma_skip_succ(input@, i as int);
                match take_block(input@.skip(i + 1)) {
                    Some((c1, r1)) => {
                        assert(take_block(ti) == Some((seq![ti[0]] + c1, r1)));
                        assert(pre + (seq![ti[0]] + c1) =~= content@ + c1);
                    },
                    None => {},
                }
            }
            i += 1;
        }
    }
}

/// Transform template text into its part sequence, applying directives to the
/// configuration in source order. A fatal error aborts the parse: nothing is
/// returned and the configuration is handed back unchanged.
pub fn parse_all(info: &mut TemplateInfo, input: &str) -> (r: Result<
    Vec<TemplatePart>,
    TemplateError,
>)
    ensures
        match r {
            Ok(parts) => {
                &&& lex(input@) == Ok::<Seq<PartModel>, TemplateError>(parts.deep_view())
                &&& *final(info) == apply_all(*old(info), parts.deep_view())
            },
            Err(e) => {
                &&& lex(input@) == Err::<Seq<PartModel>, TemplateError>(e)
                &&& *final(info) == *old(info)
            },
        },
{
    let saved = *info;
    let n = input.unicode_len();
    let mut parts: Vec<TemplatePart> = Vec::new();
    let mut i: usize = 0;
    proof {
        assert(input@.skip(0) =~= input@);
        assert(parts.deep_view() =~= Seq::<PartModel>::empty());
    }
    while i < n
        invariant
            saved == *old(info),
            n == input@.len(),
            i <= n,
            lex(input@) == match lex(input@.skip(i as int)) {
                Ok(tail) => Ok::<Seq<PartModel>, TemplateError>(parts.deep_view() + tail),
                Err(e) => Err::<Seq<PartModel>, TemplateError>(e),
            },
            *info == apply_all(*old(info), parts.deep_view()),
        decreases n - i,
    {
        let ghost ti = input@.skip(i as int);
        let ghost pre_parts = parts.deep_view();
        let (txt, i2) = parse_text(input, n, i);
        let ghost txt_model = txt@;
        let ghost rest = input@.skip(i2 as int);
        proof {
            lemma_take_text_rest(ti);
        }
        parts.push(TemplatePart::Text(txt));
        proof {
            assert(parts.deep_view() =~= pre_parts.push(PartModel::Text(txt_model)));
            lemma_apply_all_concat(
                *old(info),
                pre_parts,
                seq![PartModel::Text(txt_model)],
            );
            assert(pre_parts + seq![PartModel::Text(txt_model)] =~= parts.deep_view());
            lemma_apply_all_singleton(
                apply_all(*old(info), pre_parts),
                PartModel::Text(txt_model),
            );
        }
        if i2 == n {
            proof {
                assert(rest.len() == 0);
                assert(lex(ti) == Ok::<Seq<PartModel>, TemplateError>(
                    seq![PartModel::Text(txt_model)],
                ));
                assert(lex(input@.skip(n as int)) == Ok::<Seq<PartModel>, TemplateError>(
                    Seq::<PartModel>::empty(),
                ));
                assert(pre_parts + seq![PartModel::Text(txt_model)] =~= parts.deep_view()
                    + Seq::<PartModel>::empty());
            }
            i = i2;
        } else {
            // rest starts with a block-open delimiter
            let ghost kind = open_kind(rest);
            let is_three = n - i2 >= 3;
            let c2 = if is_three {
                input.get_char(i2 + 2)
            } else {
                ' '
            };
            proof {
                if is_three {
                    assert(rest[2] == input@[i2 + 2]);
                }
            }
            let body_start: usize = if is_three && (c2 == '=' || c2 == '@') {
                i2 + 3
            } else {
                i2 + 2
            };
            proof {
                assert(body_start as int == i2 + open_len(kind));
                lemma_skip_add(input@, i2 as int, open_len(kind));
                assert(rest.skip(open_len(kind)) =~= input@.skip(body_start as int));
            }
            match parse_code(input, n, body_start) {
                None => {
                    proof {
                        assert(lex(ti) == Err::<Seq<PartModel>, TemplateError>(
                            TemplateError::UnterminatedBlock,
                        ));
                    }
                    *info = saved;
                    return Err(TemplateError::UnterminatedBlock);
                },
                Some((content, i3)) => {
                    let ghost content_model = content@;
                    let ghost rest2 = input@.skip(i3 as int);
                    let ghost pre2 = parts.deep_view();
                    if is_three && c2 == '=' {
                        parts.push(TemplatePart::Expr(content));
                        proof {
                            assert(parts.deep_view() =~= pre2 + seq![
                                PartModel::Expr(content_model),
                            ]);
                            lemma_step_no_directive(
                                *old(info),
                                pre_parts,
                                pre2,
                                parts.deep_view(),
                                txt_model,
                                PartModel::Expr(content_model),
                            );
                            assert(lex(ti) == match lex(rest2) {
                                Ok(tail) => Ok::<Seq<PartModel>, TemplateError>(
                                    seq![
                                        PartModel::Text(txt_model),
                                        PartModel::Expr(content_model),
                                    ] + tail,
                                ),
                                Err(e) => Err::<Seq<PartModel>, TemplateError>(e),
                            });
                            lemma_compose(
                                pre_parts,
                                txt_model,
                                PartModel::Expr(content_model),
                                lex(rest2),
                            );
                        }
                    } else if is_three && c2 == '@' {
                        match parse_directive(content.as_str()) {
                            None => {
                                proof {
                                    assert(lex(ti) == Err::<Seq<PartModel>, TemplateError>(
                                        TemplateError::DirectiveSyntaxError,
                                    ));
                                }
                                *info = saved;
                                return Err(TemplateError::DirectiveSyntaxError);
                            },
                            Some(d) => {
                                let ghost dm = d@;
                                let ghost prev_info = *info;
                                match apply_directive(info, &d) {
                                    Err(e) => {
                                        proof {
                                            lemma_apply_directive_ok(prev_info, dm);
                                            assert(lex(ti) == Err::<
                                                Seq<PartModel>,
                                                TemplateError,
                                            >(TemplateError::InvalidDirectiveValue));
                                        }
                                        *info = saved;
                                        return Err(e);
                                    },
                                    Ok(()) => {
                                        parts.push(TemplatePart::Directive(d));
                                        proof {
                                            lemma_apply_directive_ok(prev_info, dm);
                                            assert(parts.deep_view() =~= pre2 + seq![
                                                PartModel::Directive(dm),
                                            ]);
                                            lemma_step_with_directive(
                                                *old(info),
                                                pre_parts,
                                                pre2,
                                                parts.deep_view(),
                                                txt_model,
                                                dm,
                                            );
                                            assert(lex(ti) == match lex(rest2) {
                                                Ok(tail) => Ok::<Seq<PartModel>, TemplateError>(
                                                    seq![
                                                        PartModel::Text(txt_model),
                                                        PartModel::Directive(dm),
                                                    ] + tail,
                                                ),
                                                Err(e) => Err::<Seq<PartModel>, TemplateError>(e),
                                            });
                                            lemma_compose(
                                                pre_parts,
                                                txt_model,
                                                PartModel::Directive(dm),
                                                lex(rest2),
                                            );
                                        }
                                    },
                                }
                            },
                        }
                    } else {
                        parts.push(TemplatePart::Code(content));
                        proof {
                            assert(parts.deep_view() =~= pre2 + seq![
                                PartModel::Code(content_model),
                            ]);
                            lemma_step_no_directive(
                                *old(info),
                                pre_parts,
                                pre2,
                                parts.deep_view(),
                                txt_model,
                                PartModel::Code(content_model),
                            );
                            assert(lex(ti) == match lex(rest2) {
                                Ok(tail) => Ok::<Seq<PartModel>, TemplateError>(
                                    seq![
                                        PartModel::Text(txt_model),
                                        PartModel::Code(content_model),
                                    ] + tail,
                                ),
                                Err(e) => Err::<Seq<PartModel>, TemplateError>(e),
                            });
                            lemma_compose(
                                pre_parts,
                                txt_model,
                                PartModel::Code(content_model),
                                lex(rest2),
                            );
                        }
                    }
                    i = i3;
                },
            }
        }
    }
    proof {
        assert(input@.skip(i as int).len() == 0);
        assert(lex(input@.skip(i as int)) == Ok::<Seq<PartModel>, TemplateError>(
            Seq::<PartModel>::empty(),
        ));
        assert(parts.deep_view() + Seq::<PartModel>::empty() =~= parts.deep_view());
    }
    Ok(parts)
}

/// Applying a one-part sequence.
proof fn lemma_apply_all_singleton(info: TemplateInfo, h: PartModel)
    ensures
        apply_all(info, seq![h]) == match h {
            PartModel::Directive(d) => apply_directive_ok(info, d),
            _ => info,
        },
{
    assert(seq![h].skip(1) =~= Seq::<PartModel>::empty());
    assert(seq![h][0] == h);
    match h {
        PartModel::Directive(d) => {
            assert(apply_all(apply_directive_ok(info, d), Seq::<PartModel>::empty())
                == apply_directive_ok(info, d));
        },
        _ => {
            assert(apply_all(info, Seq::<PartModel>::empty()) == info);
        },
    }
}

/// Pushing a text part and a non-directive block part changes no
/// configuration.
proof fn lemma_step_no_directive(
    info0: TemplateInfo,
    pre: Seq<PartModel>,
    mid: Seq<PartModel>,
    post: Seq<PartModel>,
    txt: Seq<char>,
    h: PartModel,
)
    requires
        mid == pre + seq![PartModel::Text(txt)],
        post == mid + seq![h],
        !(h is Directive),
    ensures
        apply_all(info0, post) == apply_all(info0, mid),
        apply_all(info0, post) == apply_all(info0, pre),
{
    lemma_apply_all_concat(info0, mid, seq![h]);
    lemma_apply_all_singleton(apply_all(info0, mid), h);
    lemma_apply_all_concat(info0, pre, seq![PartModel::Text(txt)]);
    lemma_apply_all_singleton(apply_all(info0, pre), PartModel::Text(txt));
}

/// Pushing a text part and a directive part advances the configuration by
/// exactly that directive.
proof fn lemma_step_with_directive(
    info0: TemplateInfo,
    pre: Seq<PartModel>,
    mid: Seq<PartModel>,
    post: Seq<PartModel>,
    txt: Seq<char>,
    d: crate::parts::DirectiveModel,
)
    requires
        mid == pre + seq![PartModel::Text(txt)],
        post == mid + seq![PartModel::Directive(d)],
    ensures
        apply_all(info0, post) == apply_directive_ok(apply_all(info0, mid), d),
        apply_all(info0, mid) == apply_all(info0, pre),
{
    lemma_apply_all_concat(info0, mid, seq![PartModel::Directive(d)]);
    lemma_apply_all_singleton(apply_all(info0, mid), PartModel::Directive(d));
    lemma_apply_all_concat(info0, pre, seq![PartModel::Text(txt)]);
    lemma_apply_all_singleton(apply_all(info0, pre), PartModel::Text(txt));
}

/// Re-associate the two parts a lexer step contributes.
proof fn lemma_compose(
    pre: Seq<PartModel>,
    txt: Seq<char>,
    h: PartModel,
    tail_r: Result<Seq<PartModel>, TemplateError>,
)
    ensures
        tail_r matches Ok(tail) ==> (pre + seq![PartModel::Text(txt)] + seq![h]) + tail =~= pre
            + (seq![PartModel::Text(txt), h] + tail),
{
}

} // verus!
