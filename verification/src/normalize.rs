use vstd::prelude::*;

verus! {

use crate::parts::{TemplatePart, PartModel, TemplateInfo};
use crate::directive::{
    is_space, skip_spaces, apply_directive_spec, apply_directive_ok, directive_ok,
    lemma_apply_directive_ok, apply_directive, skip_spaces_exec, is_space_exec,
};
use crate::lexer::parts_wf;
use crate::strutil::{str_take, str_skip};

// ---------------------------------------------------------------------------
// The two trim patterns, specified over character sequences.
// ---------------------------------------------------------------------------

/// Length of the line terminator standing at the start of `t`
/// (`\r\n`, `\n\r`, `\n` or `\r`, longest first), 0 if none.
pub open spec fn term_len_at(t: Seq<char>) -> int {
    if t.len() >= 2 && ((t[0] == '\r' && t[1] == '\n') || (t[0] == '\n' && t[1] == '\r')) {
        2
    } else if t.len() >= 1 && (t[0] == '\n' || t[0] == '\r') {
        1
    } else {
        0
    }
}

/// Length of the line terminator ending exactly at the end of `t`, 0 if none.
pub open spec fn term_len_end(t: Seq<char>) -> int {
    if t.len() >= 2 && ((t[t.len() - 2] == '\r' && t[t.len() - 1] == '\n') || (t[t.len() - 2]
        == '\n' && t[t.len() - 1] == '\r')) {
        2
    } else if t.len() >= 1 && (t[t.len() - 1] == '\n' || t[t.len() - 1] == '\r') {
        1
    } else {
        0
    }
}

/// Count of horizontal whitespace characters at the end of `t`.
pub open spec fn count_trailing_spaces(t: Seq<char>) -> int
    decreases t.len(),
{
    if t.len() > 0 && is_space(t[t.len() - 1]) {
        1 + count_trailing_spaces(t.take(t.len() - 1))
    } else {
        0
    }
}

/// Leading-trim pattern: horizontal whitespace, then one line terminator, at
/// the start of `t`; `Some((spaces, terminator length))` on a match.
pub open spec fn lead_match(t: Seq<char>) -> Option<(int, int)> {
    let rest = skip_spaces(t);
    let m = term_len_at(rest);
    if m > 0 {
        Some((t.len() - rest.len(), m))
    } else {
        None
    }
}

/// Trailing-trim pattern, the mirror image: one line terminator, then
/// horizontal whitespace, ending at the end of `t`;
/// `Some((spaces, terminator length))` on a match.
pub open spec fn trail_match(t: Seq<char>) -> Option<(int, int)> {
    let k = count_trailing_spaces(t);
    let m = term_len_end(t.take(t.len() - k));
    if m > 0 {
        Some((k, m))
    } else {
        None
    }
}

// ---------------------------------------------------------------------------
// The sliding three-part window.
// ---------------------------------------------------------------------------

/// A qualifying window: text, any non-text block, text.
pub open spec fn win_shape(segs: Seq<PartModel>, i: int) -> bool {
    &&& segs[i] is Text
    &&& !(segs[i + 1] is Text)
    &&& segs[i + 2] is Text
}

/// One window step at index `i`. A directive standing in the middle of a
/// qualifying window is re-applied before the trim is evaluated, so that its
/// effect reaches exactly the windows at and after its own position. If the
/// configuration then has `clean_whitespace` off, the window is skipped.
/// Otherwise: the trailing trim removes the trailing horizontal whitespace of
/// the left text if a terminator precedes it (the terminator stays); the
/// leading trim removes leading whitespace plus one terminator of the right
/// text; either side failing to match leaves only that side untouched. The
/// trailing-trim match of the right text is computed against its content
/// before the leading trim and carried to the window two steps later, where
/// that text stands on the left: each text is scanned once, and the carried
/// match is deliberately reused against the freshly trimmed content.
pub open spec fn norm_at(
    segs: Seq<PartModel>,
    info: TemplateInfo,
    i: int,
    carry: Option<(int, (int, int))>,
) -> (Seq<PartModel>, TemplateInfo, Option<(int, (int, int))>) {
    if !win_shape(segs, i) {
        (segs, info, carry)
    } else {
        let info1 = match segs[i + 1] {
            PartModel::Directive(d) => apply_directive_ok(info, d),
            _ => info,
        };
        if !info1.clean_whitespace {
            (segs, info1, carry)
        } else {
            let ta = segs[i]->Text_0;
            let tb = segs[i + 2]->Text_0;
            let amatch = match carry {
                Some((j, m)) => if j == i {
                    Some(m)
                } else {
                    trail_match(ta)
                },
                None => trail_match(ta),
            };
            let ta2 = match amatch {
                Some(m) => if m.0 <= ta.len() {
                    ta.take(ta.len() - m.0)
                } else {
                    ta
                },
                None => ta,
            };
            let tb2 = match lead_match(tb) {
                Some(m) => tb.skip(m.0 + m.1),
                None => tb,
            };
            let carry2 = match trail_match(tb) {
                Some(m) => Some((i + 2, m)),
                None => None::<(int, (int, int))>,
            };
            (
                segs.update(i, PartModel::Text(ta2)).update(i + 2, PartModel::Text(tb2)),
                info1,
                carry2,
            )
        }
    }
}

pub proof fn lemma_norm_at_len(
    segs: Seq<PartModel>,
    info: TemplateInfo,
    i: int,
    carry: Option<(int, (int, int))>,
)
    requires
        0 <= i,
        i + 2 < segs.len(),
    ensures
        norm_at(segs, info, i, carry).0.len() == segs.len(),
{
}

/// All windows from index `i` on, stride 1, over a sequence whose length
/// never changes. Fewer than three parts: nothing to do.
pub open spec fn norm_from(
    segs: Seq<PartModel>,
    info: TemplateInfo,
    i: int,
    carry: Option<(int, (int, int))>,
) -> (Seq<PartModel>, TemplateInfo)
    decreases segs.len() - i,
        when 0 <= i
{
    if segs.len() < 3 || i > segs.len() - 3 {
        (segs, info)
    } else {
        let (s2, info2, c2) = norm_at(segs, info, i, carry);
        proof {
            lemma_norm_at_len(segs, info, i, carry);
        }
        norm_from(s2, info2, i + 1, c2)
    }
}

/// The whole normalization pass, from a given starting configuration.
pub open spec fn normalize_model(segs: Seq<PartModel>, info: TemplateInfo) -> Seq<PartModel> {
    norm_from(segs, info, 0, None).0
}

// ---------------------------------------------------------------------------
// Executable trim-pattern scans.
// ---------------------------------------------------------------------------

/// Match horizontal whitespace followed by one line terminator at the start
/// of `t`: the two lengths, or `None` when the line holds other content.
pub fn is_ws_till_newline(t: &str) -> (r: Option<(usize, usize)>)
    ensures
        match r {
            Some(m) => lead_match(t@) == Some((m.0 as int, m.1 as int)) && m.0 + m.1 <= t@.len(),
            None => lead_match(t@) is None,
        },
{
    let n = t.unicode_len();
    proof {
        assert(t@.skip(0) =~= t@);
    }
    let j = skip_spaces_exec(t, n, 0);
    let ghost rest = t@.skip(j as int);
    proof {
        if j < n {
            assert(rest[0] == t@[j as int]);
            if n - j >= 2 {
                assert(rest[1] == t@[j + 1]);
            }
        }
    }
    let m: usize = if n - j >= 2 && ((t.get_char(j) == '\r' && t.get_char(j + 1) == '\n') || (
    t.get_char(j) == '\n' && t.get_char(j + 1) == '\r')) {
        2
    } else if n - j >= 1 && (t.get_char(j) == '\n' || t.get_char(j) == '\r') {
        1
    } else {
        0
    };
    proof {
        assert(m as int == term_len_at(rest));
    }
    if m > 0 {
        Some((j, m))
    } else {
        None
    }
}

/// Match one line terminator followed by horizontal whitespace at the end of
/// `t`: the two lengths (whitespace first), or `None`.
pub fn trailing_ws_newline(t: &str) -> (r: Option<(usize, usize)>)
    ensures
        match r {
            Some(m) => trail_match(t@) == Some((m.0 as int, m.1 as int)) && m.0 + m.1 <= t@.len(),
            None => trail_match(t@) is None,
        },
{
    let n = t.unicode_len();
    let mut k: usize = 0;
    proof {
        assert(t@.take(n as int) =~= t@);
    }
    while k < n && is_space_exec(t.get_char(n - k - 1))
        invariant
            n == t@.len(),
            k <= n,
            count_trailing_spaces(t@) == k + count_trailing_spaces(t@.take((n - k) as int)),
        decreases n - k,
    {
        proof {
            let cur = t@.take((n - k) as int);
            assert(cur[cur.len() - 1] == t@[(n - k - 1) as int]);
            assert(cur.take(cur.len() - 1) =~= t@.take((n - k - 1) as int));
        }
        k += 1;
    }
    proof {
        let cur = t@.take((n - k) as int);
        if k < n {
            assert(cur[cur.len() - 1] == t@[(n - k - 1) as int]);
        }
        assert(count_trailing_spaces(cur) == 0);
        assert(count_trailing_spaces(t@) == k);
    }
    let ghost head = t@.take((n - k) as int);
    proof {
        if n - k >= 1 {
            assert(head[head.len() - 1] == t@[(n - k - 1) as int]);
        }
        if n - k >= 2 {
            assert(head[head.len() - 2] == t@[(n - k - 2) as int]);
        }
    }
    let m: usize = if n - k >= 2 && ((t.get_char(n - k - 2) == '\r' && t.get_char(n - k - 1)
        == '\n') || (t.get_char(n - k - 2) == '\n' && t.get_char(n - k - 1) == '\r')) {
        2
    } else if n - k >= 1 && (t.get_char(n - k - 1) == '\n' || t.get_char(n - k - 1) == '\r') {
        1
    } else {
        0
    };
    proof {
        assert(m as int == term_len_end(head));
    }
    if m > 0 {
        Some((k, m))
    } else {
        None
    }
}

// ---------------------------------------------------------------------------
// The executable normalization pass.
// ---------------------------------------------------------------------------

/// Model of the carried trailing-trim match.
pub open spec fn carry_model(c: Option<(usize, (usize, usize))>) -> Option<(int, (int, int))> {
    match c {
        Some((j, m)) => Some((j as int, (m.0 as int, m.1 as int))),
        None => None,
    }
}

/// Trim formatting whitespace around every non-text block while
/// `clean_whitespace` holds, re-applying directives in window order so that a
/// toggle affects exactly the windows from its own position on. Every
/// directive in the list must apply cleanly — the lexer only emits such
/// directives, having aborted the parse otherwise.
pub fn parse_postprocess(info: &mut TemplateInfo, data: &mut Vec<TemplatePart>)
    requires
        parts_wf(old(data).deep_view()),
    ensures
        final(data).deep_view() == normalize_model(old(data).deep_view(), *old(info)),
        *final(info) == norm_from(old(data).deep_view(), *old(info), 0, None).1,
{
    let len = data.len();
    if len < 3 {
        return ;
    }
    let mut i: usize = 0;
    let mut carry: Option<(usize, (usize, usize))> = None;
    while i <= len - 3
        invariant
            len == data.len(),
            3 <= len,
            i <= len - 2,
            parts_wf(data.deep_view()),
            norm_from(old(data).deep_view(), *old(info), 0, None) == norm_from(
                data.deep_view(),
                *info,
                i as int,
                carry_model(carry),
            ),
        decreases len - i,
    {
        let ghost segs0 = data.deep_view();
        let ghost info0 = *info;
        let ghost carry0 = carry_model(carry);
        let ghost step = norm_at(segs0, info0, i as int, carry0);
        let shape = data[i].is_text() && data[i + 1].is_code() && data[i + 2].is_text();
        proof {
            assert(segs0[i as int] == data@[i as int]@);
            assert(segs0[i + 1] == data@[i + 1]@);
            assert(segs0[i + 2] == data@[i + 2]@);
            assert(shape == win_shape(segs0, i as int));
        }
        if shape {
            if let TemplatePart::Directive(d) = &data[i + 1] {
                proof {
                    assert(match segs0[i + 1] {
                        PartModel::Directive(dd) => directive_ok(dd),
                        _ => true,
                    });
                    lemma_apply_directive_ok(*info, d@);
                }
                match apply_directive(info, d) {
                    Ok(()) => {},
                    Err(_) => {
                        proof {
                            assert(false);
                        }
                    },
                }
            }
            if info.clean_whitespace {
                // trailing trim on the left text
                let use_carry = match &carry {
                    Some((j, _)) => *j == i,
                    None => false,
                };
                let mut new_a: Option<TemplatePart> = None;
                if let TemplatePart::Text(s) = &data[i] {
                    let m = if use_carry {
                        match &carry {
                            Some((_, m)) => Some((m.0, m.1)),
                            None => None,
                        }
                    } else {
                        trailing_ws_newline(s.as_str())
                    };
                    if let Some((sp, _)) = m {
                        let sl = s.as_str().unicode_len();
                        if sp <= sl {
                            new_a = Some(TemplatePart::Text(str_take(s.as_str(), sl - sp)));
                        }
                    }
                }
                // leading trim and carry pre-scan on the right text
                let mut new_b: Option<TemplatePart> = None;
                let mut new_carry: Option<(usize, (usize, usize))> = None;
                if let TemplatePart::Text(s) = &data[i + 2] {
                    match trailing_ws_newline(s.as_str()) {
                        Some(m) => {
                            new_carry = Some((i + 2, m));
                        },
                        None => {},
                    }
                    if let Some((sp, tm)) = is_ws_till_newline(s.as_str()) {
                        let sl = s.as_str().unicode_len();
                        proof {
                            assert(sp + tm <= sl);
                        }
                        new_b = Some(TemplatePart::Text(str_skip(s.as_str(), sp + tm)));
                    }
                }
                let ghost mid0 = data.deep_view();
                if let Some(p) = new_a {
                    data.set(i, p);
                } else {
                    proof {
                        assert(data.deep_view() =~= mid0.update(i as int, mid0[i as int]));
                    }
                }
                let ghost mid1 = data.deep_view();
                if let Some(p) = new_b {
                    data.set(i + 2, p);
                } else {
                    proof {
                        assert(data.deep_view() =~= mid1.update(i + 2, mid1[i + 2]));
                    }
                }
                carry = new_carry;
                proof {
                    assert(data.deep_view() =~= step.0);
                    assert(*info == step.1);
                    assert(carry_model(carry) == step.2);
                }
            } else {
                proof {
                    assert(data.deep_view() == step.0);
                    assert(*info == step.1);
                    assert(carry_model(carry) == step.2);
                }
            }
        } else {
            proof {
                assert(data.deep_view() == step.0);
                assert(*info == step.1);
                assert(carry_model(carry) == step.2);
            }
        }
        proof {
            assert(parts_wf(data.deep_view()));
        }
        i += 1;
    }
}

} // verus!
