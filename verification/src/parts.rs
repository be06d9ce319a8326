use vstd::prelude::*;

verus! {

/// Engine configuration, adjusted by `template` directives in source order.
#[derive(Clone, Copy, Debug, PartialEq, Eq, Structural)]
pub struct TemplateInfo {
    pub debug_print: bool,
    pub clean_whitespace: bool,
}

impl TemplateInfo {
    /// Both flags start disabled.
    pub fn new() -> (r: TemplateInfo)
        ensures
            r == (TemplateInfo { debug_print: false, clean_whitespace: false }),
    {
        TemplateInfo { debug_print: false, clean_whitespace: false }
    }
}

/// Why a parse was aborted. A fatal error yields no segment list at all.
#[derive(Clone, Copy, Debug, PartialEq, Eq, Structural)]
pub enum TemplateError {
    /// A block was opened and the input ended before its closing delimiter.
    UnterminatedBlock,
    /// A directive body does not follow the directive grammar.
    DirectiveSyntaxError,
    /// A recognized directive parameter has a value that is not a boolean literal.
    InvalidDirectiveValue,
}

/// A directive: a name and its parameters in source order.
/// Duplicate keys are kept here; resolution happens when the directive is applied.
#[derive(Debug)]
pub struct TemplateDirective {
    pub name: String,
    pub params: Vec<(String, String)>,
}

/// Mathematical model of a directive.
pub struct DirectiveModel {
    pub name: Seq<char>,
    pub params: Seq<(Seq<char>, Seq<char>)>,
}

impl View for TemplateDirective {
    type V = DirectiveModel;

    open spec fn view(&self) -> DirectiveModel {
        DirectiveModel { name: self.name@, params: self.params.deep_view() }
    }
}

impl DeepView for TemplateDirective {
    type V = DirectiveModel;

    open spec fn deep_view(&self) -> DirectiveModel {
        self.view()
    }
}

/// One classified unit of parsed template content.
#[derive(Debug)]
pub enum TemplatePart {
    Text(String),
    Code(String),
    Expr(String),
    Directive(TemplateDirective),
}

/// Mathematical model of a part: its kind and its payload.
pub enum PartModel {
    Text(Seq<char>),
    Code(Seq<char>),
    Expr(Seq<char>),
    Directive(DirectiveModel),
}

impl View for TemplatePart {
    type V = PartModel;

    open spec fn view(&self) -> PartModel {
        match self {
            TemplatePart::Text(s) => PartModel::Text(s@),
            TemplatePart::Code(s) => PartModel::Code(s@),
            TemplatePart::Expr(s) => PartModel::Expr(s@),
            TemplatePart::Directive(d) => PartModel::Directive(d@),
        }
    }
}

impl DeepView for TemplatePart {
    type V = PartModel;

    open spec fn deep_view(&self) -> PartModel {
        self.view()
    }
}

impl PartialEq for TemplateDirective {
    /// Equality of directives: same name, same parameters in the same order.
    fn eq(&self, other: &Self) -> (r: bool) {
        if !crate::strutil::str_eq(self.name.as_str(), other.name.as_str()) {
            return false;
        }
        if self.params.len() != other.params.len() {
            proof {
                assert(self@.params.len() != other@.params.len());
            }
            return false;
        }
        let n = self.params.len();
        let mut i: usize = 0;
        while i < n
            invariant
                n == self.params.len(),
                n == other.params.len(),
                i <= n,
                forall|j: int| 0 <= j < i ==> self@.params[j] == other@.params[j],
            decreases n - i,
        {
            proof {
                assert(self@.params[i as int] == (self.params@[i as int].0@, self.params@[
                    i as int
                ].1@));
                assert(other@.params[i as int] == (other.params@[i as int].0@, other.params@[
                    i as int
                ].1@));
            }
            if !crate::strutil::str_eq(self.params[i].0.as_str(), other.params[i].0.as_str()) {
                proof {
                    assert(self@.params[i as int] != other@.params[i as int]);
                }
                return false;
            }
            if !crate::strutil::str_eq(self.params[i].1.as_str(), other.params[i].1.as_str()) {
                proof {
                    assert(self@.params[i as int] != other@.params[i as int]);
                }
                return false;
            }
            i += 1;
        }
        proof {
            assert(self@.params =~= other@.params);
        }
        true
    }
}

impl vstd::std_specs::cmp::PartialEqSpecImpl for TemplateDirective {
    open spec fn obeys_eq_spec() -> bool {
        true
    }

    open spec fn eq_spec(&self, other: &Self) -> bool {
        self@ == other@
    }
}

impl PartialEq for TemplatePart {
    /// Equality of parts: same kind and equal payload.
    fn eq(&self, other: &Self) -> (r: bool) {
        match (self, other) {
            (TemplatePart::Text(a), TemplatePart::Text(b)) => crate::strutil::str_eq(
                a.as_str(),
                b.as_str(),
            ),
            (TemplatePart::Code(a), TemplatePart::Code(b)) => crate::strutil::str_eq(
                a.as_str(),
                b.as_str(),
            ),
            (TemplatePart::Expr(a), TemplatePart::Expr(b)) => crate::strutil::str_eq(
                a.as_str(),
                b.as_str(),
            ),
            (TemplatePart::Directive(a), TemplatePart::Directive(b)) => a.eq(b),
            _ => false,
        }
    }
}

impl vstd::std_specs::cmp::PartialEqSpecImpl for TemplatePart {
    open spec fn obeys_eq_spec() -> bool {
        true
    }

    open spec fn eq_spec(&self, other: &Self) -> bool {
        self@ == other@
    }
}

impl TemplatePart {
    /// True exactly for `Text` parts.
    pub fn is_text(&self) -> (r: bool)
        ensures
            r == (self@ is Text),
    {
        if let TemplatePart::Text(_) = self {
            true
        } else {
            false
        }
    }

    /// True for every part that is not `Text`: any delimited block.
    pub fn is_code(&self) -> (r: bool)
        ensures
            r == !(self@ is Text),
    {
        if let TemplatePart::Text(_) = self {
            false
        } else {
            true
        }
    }
}

} // verus!
