use t4rust::parts::{TemplateInfo, TemplatePart};
use t4rust::transform_template;

fn render(parts: &[TemplatePart]) -> String {
    let mut out = String::new();
    for part in parts {
        match part {
            TemplatePart::Text(x) => out.push_str(x),
            TemplatePart::Code(_) => {}
            TemplatePart::Expr(_) => {}
            TemplatePart::Directive(_) => panic!("directive in optimized output"),
        }
    }
    out
}

#[test]
pub fn text_only() {
    let template = "Hello only Text.\n";
    let mut info = TemplateInfo {
        debug_print: false,
        clean_whitespace: false,
    };
    let parts = transform_template(template, &mut info).expect("parse failed");
    let f = render(&parts);
    let f = f.trim_end_matches(|c| c == '\r' || c == '\n');
    assert!(f == "Hello only Text.");
}
