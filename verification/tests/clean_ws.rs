use t4rust::parts::{TemplateInfo, TemplatePart};
use t4rust::transform_template;

fn render(parts: &[TemplatePart]) -> String {
    let mut out = String::new();
    for part in parts {
        match part {
            TemplatePart::Text(x) => out.push_str(x),
            TemplatePart::Code(_) => {}
            TemplatePart::Expr(_) => {}
            TemplatePart::Directive(_) => panic!("directive in optimized output"),
        }
    }
    out
}

fn run(template: &str) -> String {
    let mut info = TemplateInfo {
        debug_print: false,
        clean_whitespace: false,
    };
    let parts = transform_template(template, &mut info).expect("parse failed");
    render(&parts)
}

#[test]
pub fn clean_ws() {
    let template = "<#@ template cleanws=\"true\" #>\ntext\n<# #>\ntext2\n<# #>\ntext3\n<#@ template cleanws=\"false\" #>\ntext\n\n<# #>\ntext2\n\n<#@ template cleanws=\"true\" #>\ntext3\n";
    let f = run(template);
    println!("{:?}", f);
    assert_eq!(f, "text\ntext2\ntext3\n\ntext\n\n\ntext2\n\ntext3\n");
}

#[test]
pub fn clean_ws2() {
    let template = "<#@ template cleanws=\"true\" #>\n\ntext\n<# #>\n\ntext2\n  <# #>  \n \ntext3\n<# #>\n\ntext0\n\n<# #>\n\ntext\n<# #>\n \ntext2\n<# #>\n\ntext3\n <# #>text4\n";
    let f = run(template);
    println!("{:?}", f);
    assert_eq!(
        f,
        "\ntext\n\ntext2\n \ntext3\n\ntext0\n\n\ntext\n \ntext2\n\ntext3\ntext4\n"
    );
}
