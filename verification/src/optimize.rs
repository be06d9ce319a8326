use vstd::prelude::*;

verus! {

use crate::parts::{TemplatePart, PartModel};

// ---------------------------------------------------------------------------
// The optimizer, specified over part models.
// ---------------------------------------------------------------------------

/// Payload of a part; directives carry no output payload.
pub open spec fn content_of(p: PartModel) -> Seq<char> {
    match p {
        PartModel::Text(c) => c,
        PartModel::Code(c) => c,
        PartModel::Expr(c) => c,
        PartModel::Directive(_) => Seq::empty(),
    }
}

/// Two parts of one mergeable kind (directives never merge).
pub open spec fn same_kind(a: PartModel, b: PartModel) -> bool {
    (a is Text && b is Text) || (a is Code && b is Code) || (a is Expr && b is Expr)
}

/// Dropped by the optimizer: every directive (already applied, no output),
/// and every text, code or expression part with empty content.
pub open spec fn dropped(p: PartModel) -> bool {
    p is Directive || content_of(p).len() == 0
}

/// The merge of two parts of one kind: the kind, with the contents
/// concatenated in order.
pub open spec fn merged(a: PartModel, b: PartModel) -> PartModel {
    match a {
        PartModel::Text(c) => PartModel::Text(c + content_of(b)),
        PartModel::Code(c) => PartModel::Code(c + content_of(b)),
        PartModel::Expr(c) => PartModel::Expr(c + content_of(b)),
        PartModel::Directive(d) => PartModel::Directive(d),
    }
}

/// The optimizer: directives and empty parts are dropped, runs of adjacent
/// same-kind parts are concatenated into one part, order is kept.
pub open spec fn optimize_model(s: Seq<PartModel>) -> Seq<PartModel>
    decreases s.len(),
{
    if s.len() == 0 {
        Seq::empty()
    } else {
        let tail = optimize_model(s.skip(1));
        let h = s[0];
        if dropped(h) {
            tail
        } else if tail.len() > 0 && same_kind(h, tail[0]) {
            seq![merged(h, tail[0])] + tail.skip(1)
        } else {
            seq![h] + tail
        }
    }
}

/// What the optimizer guarantees of its output: no directives, no empty
/// parts, and no two adjacent parts of one kind.
pub open spec fn optimized_form(s: Seq<PartModel>) -> bool {
    &&& forall|i: int| 0 <= i < s.len() ==> !dropped(#[trigger] s[i])
    &&& forall|i: int| 0 <= i < s.len() - 1 ==> !(#[trigger] same_kind(s[i], s[i + 1]))
}

pub proof fn lemma_optimize_form(s: Seq<PartModel>)
    ensures
        optimized_form(optimize_model(s)),
    decreases s.len(),
{
    if s.len() == 0 {
    } else {
        lemma_optimize_form(s.skip(1));
        let tail = optimize_model(s.skip(1));
        let h = s[0];
        if dropped(h) {
        } else if tail.len() > 0 && same_kind(h, tail[0]) {
            let r = seq![merged(h, tail[0])] + tail.skip(1);
            assert(content_of(merged(h, tail[0])).len() > 0);
            assert forall|i: int| 0 <= i < r.len() implies !dropped(#[trigger] r[i]) by {
                if i > 0 {
                    assert(r[i] == tail[i]);
                }
            }
            assert forall|i: int| 0 <= i < r.len() - 1 implies !(#[trigger] same_kind(
                r[i],
                r[i + 1],
            )) by {
                if i == 0 {
                    assert(r[1] == tail[1]);
                    assert(!same_kind(tail[0], tail[1]));
                    assert(same_kind(merged(h, tail[0]), tail[1]) ==> same_kind(
                        tail[0],
                        tail[1],
                    ));
                } else {
                    assert(r[i] == tail[i]);
                    assert(r[i + 1] == tail[i + 1]);
                }
            }
        } else {
            let r = seq![h] + tail;
            assert forall|i: int| 0 <= i < r.len() implies !dropped(#[trigger] r[i]) by {
                if i > 0 {
                    assert(r[i] == tail[i - 1]);
                }
            }
            assert forall|i: int| 0 <= i < r.len() - 1 implies !(#[trigger] same_kind(
                r[i],
                r[i + 1],
            )) by {
                if i == 0 {
                    assert(r[0] == h);
                    if tail.len() > 0 {
                        assert(r[1] == tail[0]);
                    }
                } else {
                    assert(r[i] == tail[i - 1]);
                    assert(r[i + 1] == tail[i]);
                }
            }
        }
    }
}

pub proof fn lemma_optimize_fixed(s: Seq<PartModel>)
    requires
        optimized_form(s),
    ensures
        optimize_model(s) == s,
    decreases s.len(),
{
    if s.len() == 0 {
        assert(optimize_model(s) =~= s);
    } else {
        assert forall|i: int| 0 <= i < s.skip(1).len() implies !dropped(#[trigger] s.skip(1)[i]) by {
            assert(s.skip(1)[i] == s[i + 1]);
        }
        assert forall|i: int| 0 <= i < s.skip(1).len() - 1 implies !(#[trigger] same_kind(
            s.skip(1)[i],
            s.skip(1)[i + 1],
        )) by {
            assert(s.skip(1)[i] == s[i + 1]);
            assert(s.skip(1)[i + 1] == s[i + 2]);
        }
        lemma_optimize_fixed(s.skip(1));
        let tail = optimize_model(s.skip(1));
        let h = s[0];
        assert(!dropped(h));
        if tail.len() > 0 {
            assert(tail[0] == s[1]);
            assert(!same_kind(s[0], s[1]));
        }
        assert(seq![h] + tail =~= s);
    }
}

/// Running the optimizer on its own output changes nothing.
pub proof fn lemma_optimize_idempotent(s: Seq<PartModel>)
    ensures
        optimize_model(optimize_model(s)) == optimize_model(s),
{
    lemma_optimize_form(s);
    lemma_optimize_fixed(optimize_model(s));
}

// ---------------------------------------------------------------------------
// Executable optimizer.
// ---------------------------------------------------------------------------

/// Model of the pending (not yet emitted) run the scan carries.
pub open spec fn pending_model(p: Option<TemplatePart>) -> Option<PartModel> {
    match p {
        Some(q) => Some(q@),
        None => None,
    }
}

/// How a pending part combines with an already optimized tail.
pub open spec fn combine(p: Option<PartModel>, tail: Seq<PartModel>) -> Seq<PartModel> {
    match p {
        None => tail,
        Some(pp) => if tail.len() > 0 && same_kind(pp, tail[0]) {
            seq![merged(pp, tail[0])] + tail.skip(1)
        } else {
            seq![pp] + tail
        },
    }
}

/// A non-dropped head keeps its kind through `combine`.
proof fn lemma_combine_head(x: PartModel, t: Seq<PartModel>)
    requires
        !dropped(x),
    ensures
        combine(Some(x), t).len() > 0,
        same_kind(combine(Some(x), t)[0], x),
{
    if t.len() > 0 && same_kind(x, t[0]) {
        assert(combine(Some(x), t)[0] == merged(x, t[0]));
    } else {
        assert(combine(Some(x), t)[0] == x);
    }
}

/// Absorbing one more part into a pending run of the same kind.
proof fn lemma_combine_merge(p: PartModel, x: PartModel, t: Seq<PartModel>)
    requires
        !dropped(p),
        !dropped(x),
        same_kind(p, x),
    ensures
        combine(Some(p), combine(Some(x), t)) == combine(Some(merged(p, x)), t),
{
    if t.len() > 0 && same_kind(x, t[0]) {
        let inner = seq![merged(x, t[0])] + t.skip(1);
        assert(combine(Some(x), t) == inner);
        assert(inner[0] == merged(x, t[0]));
        assert(same_kind(p, inner[0]));
        assert(inner.skip(1) =~= t.skip(1));
        assert(merged(p, merged(x, t[0])) == merged(merged(p, x), t[0])) by {
            assert(content_of(p) + (content_of(x) + content_of(t[0])) =~= (content_of(p)
                + content_of(x)) + content_of(t[0]));
        }
        assert(same_kind(merged(p, x), t[0]));
        assert(combine(Some(p), inner) =~= combine(Some(merged(p, x)), t));
    } else {
        let inner = seq![x] + t;
        assert(combine(Some(x), t) == inner);
        assert(inner[0] == x);
        assert(inner.skip(1) =~= t);
        assert(merged(p, x) == merged(p, inner[0]));
        if t.len() > 0 {
            assert(!same_kind(merged(p, x), t[0]));
        }
        assert(combine(Some(p), inner) =~= combine(Some(merged(p, x)), t));
    }
}

/// Flushing a pending run whose kind the next part does not share.
proof fn lemma_combine_flush(p: PartModel, x: PartModel, t: Seq<PartModel>)
    requires
        !dropped(p),
        !dropped(x),
        !same_kind(p, x),
    ensures
        combine(Some(p), combine(Some(x), t)) == seq![p] + combine(Some(x), t),
{
    lemma_combine_head(x, t);
    assert(!same_kind(p, combine(Some(x), t)[0]));
}

/// Merge runs of adjacent same-kind parts into one part each, drop empty
/// parts and every directive, and keep the order: the final part sequence.
pub fn parse_optimize(data: Vec<TemplatePart>) -> (r: Vec<TemplatePart>)
    ensures
        r.deep_view() == optimize_model(data.deep_view()),
{
    let ghost orig = data.deep_view();
    let mut data = data;
    let mut out: Vec<TemplatePart> = Vec::new();
    let mut pending: Option<TemplatePart> = None;
    proof {
        assert(out.deep_view() =~= Seq::<PartModel>::empty());
        assert(Seq::<PartModel>::empty() + combine(pending_model(pending), optimize_model(orig))
            =~= combine(pending_model(pending), optimize_model(orig)));
    }
    while data.len() > 0
        invariant
            optimize_model(orig) == out.deep_view() + combine(
                pending_model(pending),
                optimize_model(data.deep_view()),
            ),
            pending matches Some(p) ==> !dropped(p@),
        decreases data.len(),
    {
        let ghost cur = data.deep_view();
        let item = data.remove(0);
        proof {
            assert(data.deep_view() =~= cur.skip(1));
            assert(cur[0] == item@);
        }
        let ghost t = optimize_model(data.deep_view());
        let drop_it = match &item {
            TemplatePart::Directive(_) => true,
            TemplatePart::Text(c) => c.as_str().is_empty(),
            TemplatePart::Code(c) => c.as_str().is_empty(),
            TemplatePart::Expr(c) => c.as_str().is_empty(),
        };
        if drop_it {
            proof {
                assert(dropped(item@));
                assert(optimize_model(cur) == t);
            }
        } else {
            proof {
                assert(!dropped(item@));
                assert(optimize_model(cur) == combine(Some(item@), t));
            }
            let ghost item_model = item@;
            let next_pending: Option<TemplatePart>;
            match (pending, item) {
                (Some(TemplatePart::Text(a)), TemplatePart::Text(b)) => {
                    proof {
                        lemma_combine_merge(PartModel::Text(a@), item_model, t);
                    }
                    let mut a = a;
                    a.append(b.as_str());
                    next_pending = Some(TemplatePart::Text(a));
                },
                (Some(TemplatePart::Code(a)), TemplatePart::Code(b)) => {
                    proof {
                        lemma_combine_merge(PartModel::Code(a@), item_model, t);
                    }
                    let mut a = a;
                    a.append(b.as_str());
                    next_pending = Some(TemplatePart::Code(a));
                },
                (Some(TemplatePart::Expr(a)), TemplatePart::Expr(b)) => {
                    proof {
                        lemma_combine_merge(PartModel::Expr(a@), item_model, t);
                    }
                    let mut a = a;
                    a.append(b.as_str());
                    next_pending = Some(TemplatePart::Expr(a));
                },
                (Some(p), it) => {
                    proof {
                        assert(!same_kind(p@, it@));
                        lemma_combine_flush(p@, it@, t);
                    }
                    let ghost pre_out = out.deep_view();
                    let ghost pm = p@;
                    out.push(p);
                    proof {
                        assert(out.deep_view() =~= pre_out + seq![pm]);
                        assert((pre_out + seq![pm]) + combine(Some(item_model), t) =~= pre_out
                            + (seq![pm] + combine(Some(item_model), t)));
                    }
                    next_pending = Some(it);
                },
                (None, it) => {
                    next_pending = Some(it);
                },
            }
            pending = next_pending;
        }
    }
    proof {
        assert(data.deep_view().len() == 0);
        assert(optimize_model(data.deep_view()) == Seq::<PartModel>::empty());
    }
    match pending {
        Some(p) => {
            let ghost pre_out = out.deep_view();
            let ghost pm = p@;
            proof {
                assert(combine(Some(pm), Seq::<PartModel>::empty()) =~= seq![pm]);
            }
            out.push(p);
            proof {
                assert(out.deep_view() =~= pre_out + seq![pm]);
            }
        },
        None => {
            proof {
                assert(out.deep_view() + Seq::<PartModel>::empty() =~= out.deep_view());
            }
        },
    }
    out
}

} // verus!
