use t4rust::parts::{TemplateInfo, TemplatePart};
use t4rust::transform_template;

/// Evaluate the optimized parts the way the generated code would: text is
/// emitted verbatim, an expression is replaced by its evaluated value.
fn render(parts: &[TemplatePart], exprs: &[(&str, &str)]) -> String {
    let mut out = String::new();
    for part in parts {
        match part {
            TemplatePart::Text(x) => out.push_str(x),
            TemplatePart::Code(_) => {}
            TemplatePart::Expr(x) => {
                let value = exprs
                    .iter()
                    .find(|(key, _)| key == x)
                    .map(|(_, value)| *value)
                    .expect("unexpected expression");
                out.push_str(value);
            }
            TemplatePart::Directive(_) => panic!("directive in optimized output"),
        }
    }
    out
}

fn run_simple_template(text: &str) -> String {
    let template = "Text <#= self.text #> Other Text\n";
    let mut info = TemplateInfo {
        debug_print: false,
        clean_whitespace: false,
    };
    let parts = transform_template(template, &mut info).expect("parse failed");
    render(&parts, &[(" self.text ", text)])
}

#[test]
pub fn simple_template_text() {
    let f = run_simple_template("Inner");
    let f = f.trim_end_matches(|c| c == '\r' || c == '\n');
    assert_eq!(f, "Text Inner Other Text");
}

#[test]
pub fn simple_template_empty() {
    let f = run_simple_template("");
    let f = f.trim_end_matches(|c| c == '\r' || c == '\n');
    assert_eq!(f, "Text  Other Text");
}
