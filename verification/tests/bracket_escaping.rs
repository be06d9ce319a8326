use t4rust::codegen::generate_code;
use t4rust::parts::{TemplateInfo, TemplatePart};
use t4rust::transform_template;

fn render(parts: &[TemplatePart]) -> String {
    let mut out = String::new();
    for part in parts {
        match part {
            TemplatePart::Text(x) => out.push_str(x),
            TemplatePart::Code(_) => {}
            TemplatePart::Expr(_) => {}
            TemplatePart::Directive(_) => panic!("directive in optimized output"),
        }
    }
    out
}

#[test]
pub fn bracket_escapeing() {
    let template = "This should be safe {}, this { too } {{}} {{}{}}.\n";
    let mut info = TemplateInfo {
        debug_print: false,
        clean_whitespace: false,
    };
    let parts = transform_template(template, &mut info).expect("parse failed");
    // braces pass through a write_str of a raw string, never a format string
    let code = generate_code(&parts);
    assert!(code.starts_with("_fmt.write_str(r#\""));
    let f = render(&parts);
    let f = f.trim_end_matches(|c| c == '\r' || c == '\n');
    assert_eq!(f, "This should be safe {}, this { too } {{}} {{}{}}.");
}
