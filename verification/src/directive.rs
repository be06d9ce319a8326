use vstd::prelude::*;

verus! {

use crate::parts::{TemplateDirective, DirectiveModel, TemplateInfo, TemplateError};
use crate::strutil::{lemma_skip_succ, lemma_skip_add, str_eq, push_char_at};

// ---------------------------------------------------------------------------
// Directive grammar, specified over character sequences.
// ---------------------------------------------------------------------------

/// Horizontal whitespace: spaces and tabs, excluding line terminators.
pub open spec fn is_space(c: char) -> bool {
    c == ' ' || c == '\t'
}

/// ASCII letters and digits: what a directive name or parameter key is made of.
pub open spec fn is_alnum(c: char) -> bool {
    ('0' <= c && c <= '9') || ('a' <= c && c <= 'z') || ('A' <= c && c <= 'Z')
}

/// Drop leading horizontal whitespace.
pub open spec fn skip_spaces(s: Seq<char>) -> Seq<char>
    decreases s.len(),
{
    if s.len() > 0 && is_space(s[0]) {
        skip_spaces(s.skip(1))
    } else {
        s
    }
}

/// The longest alphanumeric prefix, and the rest.
pub open spec fn take_word(s: Seq<char>) -> (Seq<char>, Seq<char>)
    decreases s.len(),
{
    if s.len() > 0 && is_alnum(s[0]) {
        let (w, r) = take_word(s.skip(1));
        (seq![s[0]] + w, r)
    } else {
        (Seq::empty(), s)
    }
}

/// Decode a quoted value, starting after its opening quote. An ordinary
/// character is literal; `\\` and `\"` decode to one backslash or quote; any
/// other escape is an error, as is an unterminated quote. On success: the
/// decoded value and the rest after the closing quote.
pub open spec fn take_value(s: Seq<char>) -> Option<(Seq<char>, Seq<char>)>
    decreases s.len(),
{
    if s.len() == 0 {
        None
    } else if s[0] == '"' {
        Some((Seq::empty(), s.skip(1)))
    } else if s[0] == '\\' {
        if s.len() >= 2 && (s[1] == '\\' || s[1] == '"') {
            match take_value(s.skip(2)) {
                Some((v, r)) => Some((seq![s[1]] + v, r)),
                None => None,
            }
        } else {
            None
        }
    } else {
        match take_value(s.skip(1)) {
            Some((v, r)) => Some((seq![s[0]] + v, r)),
            None => None,
        }
    }
}

pub proof fn lemma_skip_spaces_len(s: Seq<char>)
    ensures
        skip_spaces(s).len() <= s.len(),
    decreases s.len(),
{
    if s.len() > 0 && is_space(s[0]) {
        lemma_skip_spaces_len(s.skip(1));
    }
}

pub proof fn lemma_take_word_len(s: Seq<char>)
    ensures
        take_word(s).1.len() + take_word(s).0.len() == s.len(),
    decreases s.len(),
{
    if s.len() > 0 && is_alnum(s[0]) {
        lemma_take_word_len(s.skip(1));
    }
}

pub proof fn lemma_take_value_len(s: Seq<char>)
    ensures
        take_value(s) matches Some((v, r)) ==> r.len() < s.len(),
    decreases s.len(),
{
    if s.len() == 0 {
    } else if s[0] == '"' {
    } else if s[0] == '\\' {
        if s.len() >= 2 && (s[1] == '\\' || s[1] == '"') {
            lemma_take_value_len(s.skip(2));
        }
    } else {
        lemma_take_value_len(s.skip(1));
    }
}

/// Parameters: whitespace-separated `key="value"` pairs, in source order,
/// filling the whole rest of the body. Duplicate keys are retained.
pub open spec fn parse_params_spec(s: Seq<char>) -> Option<Seq<(Seq<char>, Seq<char>)>>
    decreases s.len(),
{
    let s1 = skip_spaces(s);
    if s1.len() == 0 {
        Some(Seq::empty())
    } else {
        let (key, s2) = take_word(s1);
        if key.len() == 0 {
            None
        } else if !(skip_spaces(s2).len() > 0 && skip_spaces(s2)[0] == '=') {
            None
        } else {
            let s4 = skip_spaces(skip_spaces(s2).skip(1));
            if !(s4.len() > 0 && s4[0] == '"') {
                None
            } else {
                match take_value(s4.skip(1)) {
                    None => None,
                    Some((v, s5)) => {
                        proof {
                            lemma_skip_spaces_len(s);
                            lemma_take_word_len(s1);
                            lemma_skip_spaces_len(s2);
                            lemma_skip_spaces_len(skip_spaces(s2).skip(1));
                            lemma_take_value_len(s4.skip(1));
                        }
                        match parse_params_spec(s5) {
                            None => None,
                            Some(ps) => Some(seq![(key, v)] + ps),
                        }
                    },
                }
            }
        }
    }
}

/// The directive grammar: optional whitespace, an alphanumeric name, then
/// parameters to the end of the body.
pub open spec fn parse_directive_spec(s: Seq<char>) -> Option<DirectiveModel> {
    let s1 = skip_spaces(s);
    let (name, s2) = take_word(s1);
    if name.len() == 0 {
        None
    } else {
        match parse_params_spec(s2) {
            None => None,
            Some(ps) => Some(DirectiveModel { name: name, params: ps }),
        }
    }
}

// ---------------------------------------------------------------------------
// Directive application.
// ---------------------------------------------------------------------------

/// The two boolean literals a recognized parameter accepts.
pub open spec fn bool_value(v: Seq<char>) -> Option<bool> {
    if v == "true"@ {
        Some(true)
    } else if v == "false"@ {
        Some(false)
    } else {
        None
    }
}

/// Apply `template` parameters in source order: the last occurrence of a key
/// wins; a recognized key whose value is not a boolean literal is fatal;
/// unknown keys are diagnostics only and change nothing.
pub open spec fn apply_params_spec(info: TemplateInfo, params: Seq<(Seq<char>, Seq<char>)>) -> Result<
    TemplateInfo,
    TemplateError,
>
    decreases params.len(),
{
    if params.len() == 0 {
        Ok(info)
    } else {
        let (k, v) = params[0];
        if k == "debug"@ {
            match bool_value(v) {
                Some(b) => apply_params_spec(
                    TemplateInfo { debug_print: b, ..info },
                    params.skip(1),
                ),
                None => Err(TemplateError::InvalidDirectiveValue),
            }
        } else if k == "cleanws"@ {
            match bool_value(v) {
                Some(b) => apply_params_spec(
                    TemplateInfo { clean_whitespace: b, ..info },
                    params.skip(1),
                ),
                None => Err(TemplateError::InvalidDirectiveValue),
            }
        } else {
            apply_params_spec(info, params.skip(1))
        }
    }
}

/// Apply one directive: only the name `template` is recognized; any other
/// name is a diagnostic only and leaves the configuration unchanged.
pub open spec fn apply_directive_spec(info: TemplateInfo, d: DirectiveModel) -> Result<
    TemplateInfo,
    TemplateError,
> {
    if d.name == "template"@ {
        apply_params_spec(info, d.params)
    } else {
        Ok(info)
    }
}

/// Parameter list with no fatal value error.
pub open spec fn params_ok(params: Seq<(Seq<char>, Seq<char>)>) -> bool
    decreases params.len(),
{
    if params.len() == 0 {
        true
    } else {
        let (k, v) = params[0];
        ((k == "debug"@ || k == "cleanws"@) ==> bool_value(v) is Some) && params_ok(params.skip(1))
    }
}

/// A directive that applies without a fatal error, whatever the configuration.
pub open spec fn directive_ok(d: DirectiveModel) -> bool {
    d.name == "template"@ ==> params_ok(d.params)
}

/// Application fails exactly on directives that are not `directive_ok`, and
/// then always with `InvalidDirectiveValue`.
pub proof fn lemma_apply_params_ok(info: TemplateInfo, params: Seq<(Seq<char>, Seq<char>)>)
    ensures
        params_ok(params) <==> apply_params_spec(info, params) is Ok,
        !params_ok(params) ==> apply_params_spec(info, params) == Err::<TemplateInfo,
            TemplateError,
        >(TemplateError::InvalidDirectiveValue),
    decreases params.len(),
{
    if params.len() == 0 {
    } else {
        let (k, v) = params[0];
        if k == "debug"@ {
            match bool_value(v) {
                Some(b) => lemma_apply_params_ok(
                    TemplateInfo { debug_print: b, ..info },
                    params.skip(1),
                ),
                None => {},
            }
        } else if k == "cleanws"@ {
            match bool_value(v) {
                Some(b) => lemma_apply_params_ok(
                    TemplateInfo { clean_whitespace: b, ..info },
                    params.skip(1),
                ),
                None => {},
            }
        } else {
            lemma_apply_params_ok(info, params.skip(1));
        }
    }
}

pub proof fn lemma_apply_directive_ok(info: TemplateInfo, d: DirectiveModel)
    ensures
        directive_ok(d) <==> apply_directive_spec(info, d) is Ok,
        !directive_ok(d) ==> apply_directive_spec(info, d) == Err::<TemplateInfo,
            TemplateError,
        >(TemplateError::InvalidDirectiveValue),
{
    if d.name == "template"@ {
        lemma_apply_params_ok(info, d.params);
    }
}

/// The configuration after a directive that is known to apply cleanly.
pub open spec fn apply_directive_ok(info: TemplateInfo, d: DirectiveModel) -> TemplateInfo {
    match apply_directive_spec(info, d) {
        Ok(i2) => i2,
        Err(_) => info,
    }
}

// ---------------------------------------------------------------------------
// Executable directive parser.
// ---------------------------------------------------------------------------

pub(crate) fn is_space_exec(c: char) -> (r: bool)
    ensures
        r == is_space(c),
{
    c == ' ' || c == '\t'
}

fn is_alnum_exec(c: char) -> (r: bool)
    ensures
        r == is_alnum(c),
{
    ('0' <= c && c <= '9') || ('a' <= c && c <= 'z') || ('A' <= c && c <= 'Z')
}

/// Index just past the horizontal whitespace starting at `i`.
pub(crate) fn skip_spaces_exec(s: &str, n: usize, i: usize) -> (j: usize)
    requires
        n == s@.len(),
        i <= n,
    ensures
        i <= j <= n,
        skip_spaces(s@.skip(i as int)) == s@.skip(j as int),
{
    let mut j = i;
    while j < n && is_space_exec(s.get_char(j))
        invariant
            n == s@.len(),
            i <= j <= n,
            skip_spaces(s@.skip(i as int)) == skip_spaces(s@.skip(j as int)),
        decreases n - j,
    {
        proof {
            lemma_skip_succ(s@, j as int);
            assert(s@.skip(j as int)[0] == s@[j as int]);
        }
        j += 1;
    }
    proof {
        let rest = s@.skip(j as int);
        assert(!(rest.len() > 0 && is_space(rest[0])));
        assert(skip_spaces(rest) == rest);
    }
    j
}

/// The alphanumeric word starting at `i`, and the index just past it.
fn take_word_exec(s: &str, n: usize, i: usize) -> (r: (String, usize))
    requires
        n == s@.len(),
        i <= n,
    ensures
        ({
            let (w, rest) = take_word(s@.skip(i as int));
            &&& r.0@ == w
            &&& i <= r.1 <= n
            &&& s@.skip(r.1 as int) == rest
        }),
{
    let mut j = i;
    let mut word = String::new();
    while j < n && is_alnum_exec(s.get_char(j))
        invariant
            n == s@.len(),
            i <= j <= n,
            take_word(s@.skip(i as int)).0 == word@ + take_word(s@.skip(j as int)).0,
            take_word(s@.skip(i as int)).1 == take_word(s@.skip(j as int)).1,
        decreases n - j,
    {
        proof {
            lemma_skip_succ(s@, j as int);
            assert(s@.skip(j as int)[0] == s@[j as int]);
        }
        let ghost pre = word@;
        push_char_at(&mut word, s, j);
        proof {
            let tj = s@.skip(j as int);
            let (w1, r1) = take_word(s@.skip(j + 1));
            assert(take_word(tj).0 == seq![tj[0]] + w1);
            assert(pre + (seq![tj[0]] + w1) =~= word@ + w1);
        }
        j += 1;
    }
    proof {
        let rest = s@.skip(j as int);
        assert(!(rest.len() > 0 && is_alnum(rest[0])));
        assert(take_word(rest).0 == Seq::<char>::empty());
        assert(word@ + Seq::<char>::empty() =~= word@);
    }
    (word, j)
}

/// Decode a quoted value starting at `i` (just after the opening quote);
/// `None` on an unterminated quote or unknown escape.
fn take_value_exec(s: &str, n: usize, i: usize) -> (r: Option<(String, usize)>)
    requires
        n == s@.len(),
        i <= n,
    ensures
        match r {
            Some(v) => {
                &&& i < v.1 <= n
                &&& take_value(s@.skip(i as int)) == Some((v.0@, s@.skip(v.1 as int)))
            },
            None => take_value(s@.skip(i as int)) is None,
        },
{
    let mut j = i;
    let mut value = String::new();
    loop
        invariant
            n == s@.len(),
            i <= j <= n,
            take_value(s@.skip(i as int)) == match take_value(s@.skip(j as int)) {
                Some((v, r)) => Some((value@ + v, r)),
                None => None::<(Seq<char>, Seq<char>)>,
            },
        decreases n - j,
    {
        let ghost tj = s@.skip(j as int);
        if j == n {
            proof {
                assert(tj.len() == 0);
            }
            return None;
        }
        proof {
            assert(tj[0] == s@[j as int]);
        }
        let c = s.get_char(j);
        if c == '"' {
            proof {
                lemma_skip_succ(s@, j as int);
                assert(take_value(tj) == Some((Seq::<char>::empty(), s@.skip(j + 1))));
                assert(value@ + Seq::<char>::empty() =~= value@);
            }
            return Some((value, j + 1));
        } else if c == '\\' {
            if n - j >= 2 {
                proof {
                    assert(tj[1] == s@[j + 1]);
                }
                let c2 = s.get_char(j + 1);
                if c2 == '\\' || c2 == '"' {
                    let ghost pre = value@;
                    push_char_at(&mut value, s, j + 1);
                    proof {
                        lemma_skip_add(s@, j as int, 2);
                        match take_value(s@.skip(j + 2)) {
                            Some((v, r)) => {
                                assert(take_value(tj) == Some((seq![tj[1]] + v, r)));
                                assert(pre + (seq![tj[1]] + v) =~= value@ + v);
                            },
                            None => {},
                        }
                    }
                    j += 2;
                } else {
                    return None;
                }
            } else {
                return None;
            }
        } else {
            let ghost pre = value@;
            push_char_at(&mut value, s, j);
            proof {
                lemma_skip_succ(s@, j as int);
                match take_value(s@.skip(j + 1)) {
                    Some((v, r)) => {
                        assert(take_value(tj) == Some((seq![tj[0]] + v, r)));
                        assert(pre + (seq![tj[0]] + v) =~= value@ + v);
                    },
                    None => {},
                }
            }
            j += 1;
        }
    }
}

/// Parse one captured directive body into a name and its parameters in source
/// order. `None` exactly when the body does not follow the directive grammar.
pub fn parse_directive(s: &str) -> (r: Option<TemplateDirective>)
    ensures
        match r {
            Some(d) => parse_directive_spec(s@) == Some(d@),
            None => parse_directive_spec(s@) is None,
        },
{
    let n = s.unicode_len();
    proof {
        lemma_skip_add(s@, 0, 0);
        assert(s@.skip(0) =~= s@);
    }
    let i1 = skip_spaces_exec(s, n, 0);
    let (name, i2) = take_word_exec(s, n, i1);
    if name.as_str().is_empty() {
        return None;
    }
    let mut params: Vec<(String, String)> = Vec::new();
    let mut i = i2;
    loop
        invariant
            n == s@.len(),
            i <= n,
            name@ == take_word(skip_spaces(s@)).0,
            name@.len() > 0,
            take_word(skip_spaces(s@)).1 == s@.skip(i2 as int),
            i2 <= n,
            parse_params_spec(s@.skip(i2 as int)) == match parse_params_spec(s@.skip(i as int)) {
                Some(ps) => Some(params.deep_view() + ps),
                None => None::<Seq<(Seq<char>, Seq<char>)>>,
            },
        decreases n - i,
    {
        let j1 = skip_spaces_exec(s, n, i);
        if j1 == n {
            // end of body: the parameter list is complete
            proof {
                assert(s@.skip(n as int).len() == 0);
                assert(parse_params_spec(s@.skip(i as int)) == Some(Seq::<(Seq<char>, Seq<char>)>::empty()));
                assert(params.deep_view() + Seq::<(Seq<char>, Seq<char>)>::empty() =~= params.deep_view());
                assert(parse_directive_spec(s@) == Some(DirectiveModel { name: name@, params: params.deep_view() }));
            }
            let d = TemplateDirective { name, params };
            proof {
                assert(d@ == DirectiveModel { name: d.name@, params: d.params.deep_view() });
            }
            return Some(d);
        }
        let (key, j2) = take_word_exec(s, n, j1);
        if key.as_str().is_empty() {
            return None;
        }
        let j3 = skip_spaces_exec(s, n, j2);
        if j3 == n || s.get_char(j3) != '=' {
            proof {
                if j3 < n {
                    assert(s@.skip(j3 as int)[0] == s@[j3 as int]);
                }
            }
            return None;
        }
        proof {
            assert(s@.skip(j3 as int)[0] == s@[j3 as int]);
            lemma_skip_succ(s@, j3 as int);
        }
        let j4 = skip_spaces_exec(s, n, j3 + 1);
        if j4 == n || s.get_char(j4) != '"' {
            proof {
                if j4 < n {
                    assert(s@.skip(j4 as int)[0] == s@[j4 as int]);
                }
            }
            return None;
        }
        proof {
            assert(s@.skip(j4 as int)[0] == s@[j4 as int]);
            lemma_skip_succ(s@, j4 as int);
        }
        match take_value_exec(s, n, j4 + 1) {
            None => {
                return None;
            },
            Some((value, j5)) => {
                let ghost pre = params.deep_view();
                let ghost kv = (key@, value@);
                params.push((key, value));
                proof {
                    assert(params.deep_view() =~= pre.push(kv));
                    let tail = s@.skip(j5 as int);
                    match parse_params_spec(tail) {
                        Some(ps) => {
                            assert(parse_params_spec(s@.skip(i as int)) == Some(seq![kv] + ps));
                            assert(pre + (seq![kv] + ps) =~= pre.push(kv) + ps);
                        },
                        None => {},
                    }
                }
                i = j5;
            },
        }
    }
}

// ---------------------------------------------------------------------------
// Executable directive application.
// ---------------------------------------------------------------------------

/// Apply one directive to the configuration, in source order of its
/// parameters; on a fatal value error the configuration is left unchanged.
pub fn apply_directive(info: &mut TemplateInfo, directive: &TemplateDirective) -> (r: Result<
    (),
    TemplateError,
>)
    ensures
        match apply_directive_spec(*old(info), directive@) {
            Ok(i2) => r is Ok && *final(info) == i2,
            Err(e) => r == Err::<(), TemplateError>(e) && *final(info) == *old(info),
        },
{
    if !str_eq(directive.name.as_str(), "template") {
        return Ok(());
    }
    let ghost params_model = directive@.params;
    proof {
        assert(params_model.skip(0) =~= params_model);
    }
    let mut cur = *info;
    let mut k: usize = 0;
    while k < directive.params.len()
        invariant
            k <= directive.params.len(),
            params_model == directive@.params,
            directive.name@ == "template"@,
            apply_params_spec(*old(info), params_model) == apply_params_spec(
                cur,
                params_model.skip(k as int),
            ),
        decreases directive.params.len() - k,
    {
        proof {
            assert(params_model[k as int] == (directive.params@[k as int].0@, directive.params@[
                k as int
            ].1@));
            lemma_skip_succ_params(params_model, k as int);
            assert(params_model.skip(k as int)[0] == params_model[k as int]);
        }
        let key = &directive.params[k].0;
        let value = &directive.params[k].1;
        if str_eq(key.as_str(), "debug") {
            if str_eq(value.as_str(), "true") {
                cur.debug_print = true;
            } else if str_eq(value.as_str(), "false") {
                cur.debug_print = false;
            } else {
                return Err(TemplateError::InvalidDirectiveValue);
            }
        } else if str_eq(key.as_str(), "cleanws") {
            if str_eq(value.as_str(), "true") {
                cur.clean_whitespace = true;
            } else if str_eq(value.as_str(), "false") {
                cur.clean_whitespace = false;
            } else {
                return Err(TemplateError::InvalidDirectiveValue);
            }
        }
        k += 1;
    }
    proof {
        assert(params_model.skip(params_model.len() as int).len() == 0);
    }
    *info = cur;
    Ok(())
}

proof fn lemma_skip_succ_params(s: Seq<(Seq<char>, Seq<char>)>, i: int)
    requires
        0 <= i < s.len(),
    ensures
        s.skip(i).skip(1) =~= s.skip(i + 1),
{
}

} // verus!
