use vstd::prelude::*;

verus! {

use crate::parts::{TemplatePart, PartModel};

// ---------------------------------------------------------------------------
// Generated code, specified over character sequences.
// ---------------------------------------------------------------------------

/// Length of the run of `#` characters ending at position `i` (inclusive).
pub open spec fn sharp_run_ending_at(s: Seq<char>, i: int) -> int
    decreases i + 1,
{
    if i < 0 || i >= s.len() {
        0
    } else if s[i] != '#' {
        0
    } else {
        1 + sharp_run_ending_at(s, i - 1)
    }
}

/// The longest run of `#` characters within the first `n` positions.
pub open spec fn max_sharp_run_upto(s: Seq<char>, n: int) -> int
    decreases n,
{
    if n <= 0 {
        0
    } else {
        let prev = max_sharp_run_upto(s, n - 1);
        let cur = sharp_run_ending_at(s, n - 1);
        if cur > prev {
            cur
        } else {
            prev
        }
    }
}

/// The longest run of `#` characters in `s`.
pub open spec fn max_sharp_run(s: Seq<char>) -> int {
    max_sharp_run_upto(s, s.len() as int)
}

/// `n` sharps.
pub open spec fn sharps(n: int) -> Seq<char> {
    Seq::new(n as nat, |i: int| '#')
}

/// The writer line for one text part: the text inside a raw string whose
/// delimiter holds one more `#` than the longest `#` run in the text.
pub open spec fn save_str_print_model(s: Seq<char>) -> Seq<char> {
    "_fmt.write_str(r"@ + sharps(max_sharp_run(s) + 1) + "\""@ + s + "\""@ + sharps(
        max_sharp_run(s) + 1,
    ) + ")?;\n"@
}

/// The writer line for one expression part.
pub open spec fn expr_code_model(x: Seq<char>) -> Seq<char> {
    "write!(_fmt, \"{}\", "@ + x + ")?;\n"@
}

/// The code one part contributes: text becomes a guarded writer line, code is
/// spliced verbatim, an expression becomes a formatted write, a directive
/// contributes nothing.
pub open spec fn part_code_model(p: PartModel) -> Seq<char> {
    match p {
        PartModel::Text(x) => save_str_print_model(x),
        PartModel::Code(x) => x,
        PartModel::Expr(x) => expr_code_model(x),
        PartModel::Directive(_) => Seq::empty(),
    }
}

/// The generated code of a whole part sequence, in order.
pub open spec fn code_model(parts: Seq<PartModel>) -> Seq<char>
    decreases parts.len(),
{
    if parts.len() == 0 {
        Seq::empty()
    } else {
        part_code_model(parts[0]) + code_model(parts.skip(1))
    }
}

// ---------------------------------------------------------------------------
// Executable generation.
// ---------------------------------------------------------------------------

/// Wrap one text in a `write_str` of a raw string that is safe for it: the
/// raw-string delimiter uses one more `#` than any `#` run in the text.
pub fn generate_save_str_print(print_str: String) -> (r: String)
    ensures
        r@ == save_str_print_model(print_str@),
{
    let s = print_str.as_str();
    let n = s.unicode_len();
    let mut max_sharp_count: usize = 0;
    let mut cur_sharp_count: usize = 0;
    let mut i: usize = 0;
    while i < n
        invariant
            n == s@.len(),
            i <= n,
            cur_sharp_count <= i,
            max_sharp_count <= i,
            cur_sharp_count as int == sharp_run_ending_at(s@, i as int - 1),
            max_sharp_count as int == max_sharp_run_upto(s@, i as int),
        decreases n - i,
    {
        if s.get_char(i) == '#' {
            cur_sharp_count += 1;
            if cur_sharp_count > max_sharp_count {
                max_sharp_count = cur_sharp_count;
            }
        } else {
            cur_sharp_count = 0;
        }
        i += 1;
    }
    let ghost m = max_sharp_run(print_str@);
    proof {
        assert(max_sharp_count as int == m);
    }
    // one more sharp than the longest run
    let mut sharps_str = String::new();
    sharps_str.append("#");
    proof {
        reveal_strlit("#");
        assert(Seq::<char>::empty() + "#"@ =~= sharps(1));
    }
    let mut k: usize = 0;
    while k < max_sharp_count
        invariant
            k <= max_sharp_count,
            sharps_str@ == sharps(k + 1),
        decreases max_sharp_count - k,
    {
        sharps_str.append("#");
        proof {
            reveal_strlit("#");
            assert(sharps(k + 1) + "#"@ =~= sharps(k + 2));
        }
        k += 1;
    }
    let mut out = String::new();
    out.append("_fmt.write_str(r");
    out.append(sharps_str.as_str());
    out.append("\"");
    out.append(print_str.as_str());
    out.append("\"");
    out.append(sharps_str.as_str());
    out.append(")?;\n");
    proof {
        assert(out@ =~= save_str_print_model(print_str@));
    }
    out
}

/// Build the generated code of a part sequence: each part's contribution, in
/// order.
pub fn generate_code(parts: &Vec<TemplatePart>) -> (r: String)
    ensures
        r@ == code_model(parts.deep_view()),
{
    let ghost dv = parts.deep_view();
    let mut out = String::new();
    let mut i: usize = 0;
    proof {
        assert(dv.skip(0) =~= dv);
        assert(Seq::<char>::empty() + code_model(dv) =~= code_model(dv));
    }
    while i < parts.len()
        invariant
            dv == parts.deep_view(),
            i <= parts.len(),
            code_model(dv) == out@ + code_model(dv.skip(i as int)),
        decreases parts.len() - i,
    {
        let ghost pre = out@;
        proof {
            assert(dv.skip(i as int)[0] == dv[i as int]);
            assert(dv.skip(i as int).skip(1) =~= dv.skip(i as int + 1));
            assert(dv[i as int] == parts@[i as int]@);
        }
        match &parts[i] {
            TemplatePart::Text(x) => {
                let line = generate_save_str_print(x.clone());
                out.append(line.as_str());
            },
            TemplatePart::Code(x) => {
                out.append(x.as_str());
            },
            TemplatePart::Expr(x) => {
                out.append("write!(_fmt, \"{}\", ");
                out.append(x.as_str());
                out.append(")?;\n");
            },
            TemplatePart::Directive(_) => {
                proof {
                    assert(out@ + Seq::<char>::empty() =~= out@);
                }
            },
        }
        proof {
            assert(out@ =~= pre + part_code_model(dv[i as int]));
            assert(pre + (part_code_model(dv[i as int]) + code_model(dv.skip(i as int + 1)))
                =~= out@ + code_model(dv.skip(i as int + 1)));
        }
        i += 1;
    }
    proof {
        assert(code_model(dv.skip(parts.deep_view().len() as int)) == Seq::<char>::empty());
        assert(out@ + Seq::<char>::empty() =~= out@);
    }
    out
}

} // verus!
