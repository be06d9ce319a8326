use t4rust::parts::{TemplateInfo, TemplatePart};
use t4rust::transform_template;

fn filter_bad_word(s: &str) -> String {
    s.replace("peck", "****")
}

/// Evaluate the optimized parts the way the generated code would: text is
/// emitted verbatim, an expression is replaced by its evaluated value.
fn render(parts: &[TemplatePart], exprs: &[(&str, &str)]) -> String {
    let mut out = String::new();
    for part in parts {
        match part {
            TemplatePart::Text(x) => out.push_str(x),
            TemplatePart::Code(_) => {}
            TemplatePart::Expr(x) => {
                let value = exprs
                    .iter()
                    .find(|(key, _)| key == x)
                    .map(|(_, value)| *value)
                    .expect("unexpected expression");
                out.push_str(value);
            }
            TemplatePart::Directive(_) => panic!("directive in optimized output"),
        }
    }
    out
}

#[test]
fn escape_function() {
    let template = "\nThis comment section is completely bad word free:\n - <#= filter_bad_word(&self.comment) #>\nThis comment is unfiltered:\n - <#= self.comment #>\n";
    let comment = "This comment does not contain the word peck, oh wait";
    let filtered = filter_bad_word(comment);
    let mut info = TemplateInfo {
        debug_print: false,
        clean_whitespace: false,
    };
    let parts = transform_template(template, &mut info).expect("parse failed");
    let f = render(
        &parts,
        &[
            (" filter_bad_word(&self.comment) ", filtered.as_str()),
            (" self.comment ", comment),
        ],
    );
    let f = f.trim_end_matches(|c| c == '\r' || c == '\n');

    assert_eq!(
        f,
        "\nThis comment section is completely bad word free:
 - This comment does not contain the word ****, oh wait
This comment is unfiltered:
 - This comment does not contain the word peck, oh wait"
    );
}
