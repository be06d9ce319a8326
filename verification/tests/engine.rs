use t4rust::codegen::{generate_code, generate_save_str_print};
use t4rust::directive::{apply_directive, parse_directive};
use t4rust::normalize::{is_ws_till_newline, parse_postprocess, trailing_ws_newline};
use t4rust::optimize::parse_optimize;
use t4rust::parts::{TemplateDirective, TemplateError, TemplateInfo, TemplatePart};
use t4rust::transform_template;

fn plain_info() -> TemplateInfo {
    TemplateInfo::new()
}

fn text(s: &str) -> TemplatePart {
    TemplatePart::Text(s.to_string())
}

fn code(s: &str) -> TemplatePart {
    TemplatePart::Code(s.to_string())
}

fn expr(s: &str) -> TemplatePart {
    TemplatePart::Expr(s.to_string())
}

fn render(parts: &[TemplatePart]) -> String {
    let mut out = String::new();
    for part in parts {
        if let TemplatePart::Text(x) = part {
            out.push_str(x);
        }
    }
    out
}

#[test]
fn empty_input_yields_no_parts() {
    let mut info = plain_info();
    let parts = transform_template("", &mut info).expect("parse failed");
    assert!(parts.is_empty());
}

#[test]
fn no_delimiters_yields_one_text_part() {
    let mut info = plain_info();
    let parts = transform_template("just some text, no blocks", &mut info).expect("parse failed");
    assert_eq!(parts, vec![text("just some text, no blocks")]);
}

#[test]
fn open_escape_is_literal_text() {
    let mut info = plain_info();
    let parts = transform_template("a<#<#b", &mut info).expect("parse failed");
    assert_eq!(parts, vec![text("a<#b")]);
}

#[test]
fn close_escape_stays_in_block() {
    let mut info = plain_info();
    let parts = transform_template("<#a#>#>b#>", &mut info).expect("parse failed");
    assert_eq!(parts, vec![code("a#>b")]);
}

#[test]
fn expression_block_is_expression_not_code() {
    let mut info = plain_info();
    let parts = transform_template("<#= expr #>", &mut info).expect("parse failed");
    assert_eq!(parts, vec![expr(" expr ")]);
}

#[test]
fn directive_record_and_application() {
    let d = parse_directive(" template debug=\"true\" cleanws=\"false\" ").expect("directive");
    assert_eq!(d.name, "template");
    assert_eq!(
        d.params,
        vec![
            ("debug".to_string(), "true".to_string()),
            ("cleanws".to_string(), "false".to_string()),
        ]
    );
    let mut info = TemplateInfo {
        debug_print: false,
        clean_whitespace: true,
    };
    apply_directive(&mut info, &d).expect("apply failed");
    assert!(info.debug_print);
    assert!(!info.clean_whitespace);
}

#[test]
fn directive_value_decodes_escapes() {
    let d = parse_directive("name key=\"a\\\\b\\\"c\"").expect("directive");
    assert_eq!(d.name, "name");
    assert_eq!(d.params, vec![("key".to_string(), "a\\b\"c".to_string())]);
}

#[test]
fn duplicate_key_last_wins() {
    let template = "<#@ template debug=\"true\" debug=\"false\" #>";
    let mut info = plain_info();
    let parts = transform_template(template, &mut info).expect("parse failed");
    // the record kept both occurrences; the directive itself leaves no output
    assert!(parts.is_empty());
    assert!(!info.debug_print);
}

#[test]
fn unknown_directive_and_parameter_are_ignored() {
    let mut info = plain_info();
    let parts = transform_template("<#@ custom opt=\"1\" #>x", &mut info).expect("parse failed");
    assert_eq!(parts, vec![text("x")]);
    assert_eq!(info, plain_info());

    let mut info = plain_info();
    let parts =
        transform_template("<#@ template color=\"red\" #>x", &mut info).expect("parse failed");
    assert_eq!(parts, vec![text("x")]);
    assert_eq!(info, plain_info());
}

#[test]
fn normalizer_trims_around_code_block() {
    // the window scenario: trailing spaces of the left text go, its line
    // terminator stays; leading spaces plus one terminator of the right go
    let mut info = TemplateInfo {
        debug_print: false,
        clean_whitespace: true,
    };
    let mut segs = vec![text("line1\n   "), code("x"), text("   \nline2\n")];
    parse_postprocess(&mut info, &mut segs);
    assert_eq!(segs, vec![text("line1\n"), code("x"), text("line2\n")]);
}

#[test]
fn unterminated_block_fails() {
    let mut info = plain_info();
    let r = transform_template("<# unterminated", &mut info);
    assert_eq!(r.unwrap_err(), TemplateError::UnterminatedBlock);
    assert_eq!(info, plain_info());
}

#[test]
fn directive_syntax_errors_are_fatal() {
    let mut info = plain_info();
    // no alphanumeric name
    let r = transform_template("<#@ ?bad #>", &mut info);
    assert_eq!(r.unwrap_err(), TemplateError::DirectiveSyntaxError);
    // unterminated quote
    let r = transform_template("<#@ template debug=\"true #>", &mut info);
    assert_eq!(r.unwrap_err(), TemplateError::DirectiveSyntaxError);
    // unknown escape in a value
    let r = transform_template("<#@ template debug=\"a\\x\" #>", &mut info);
    assert_eq!(r.unwrap_err(), TemplateError::DirectiveSyntaxError);
    // trailing content that is no parameter
    let r = transform_template("<#@ template x #>", &mut info);
    assert_eq!(r.unwrap_err(), TemplateError::DirectiveSyntaxError);
}

#[test]
fn invalid_directive_value_is_fatal() {
    let mut info = plain_info();
    let r = transform_template("<#@ template debug=\"yes\" #>", &mut info);
    assert_eq!(r.unwrap_err(), TemplateError::InvalidDirectiveValue);
    assert_eq!(info, plain_info());
}

#[test]
fn optimizer_keeps_alternating_parts() {
    let mut info = plain_info();
    let parts =
        transform_template("Hello<# if true { #>World<# } #>!", &mut info).expect("parse failed");
    assert_eq!(
        parts,
        vec![
            text("Hello"),
            code(" if true { "),
            text("World"),
            code(" } "),
            text("!"),
        ]
    );
}

#[test]
fn optimizer_is_idempotent_on_its_output() {
    fn sample() -> Vec<TemplatePart> {
        vec![
            text(""),
            text("a"),
            text("b"),
            code("c"),
            code(""),
            expr("d"),
            TemplatePart::Directive(TemplateDirective {
                name: "custom".to_string(),
                params: vec![],
            }),
            expr("e"),
        ]
    }
    let once = parse_optimize(sample());
    assert_eq!(once, vec![text("ab"), code("c"), expr("de")]);
    let twice = parse_optimize(parse_optimize(sample()));
    assert_eq!(once, twice);
}

#[test]
fn cleanws_applies_only_forward() {
    // the toggle stands after the first window: that window keeps its
    // whitespace, the text behind the directive is trimmed
    let template = "a \n<# #>\n b\n<#@ template cleanws=\"true\" #>\nc\n";
    let mut info = plain_info();
    let parts = transform_template(template, &mut info).expect("parse failed");
    assert!(info.clean_whitespace);
    assert_eq!(render(&parts), "a \n\n b\nc\n");
}

#[test]
fn trim_pattern_scans() {
    assert_eq!(is_ws_till_newline("  \nfoo"), Some((2, 1)));
    assert_eq!(is_ws_till_newline("\r\nfoo"), Some((0, 2)));
    assert_eq!(is_ws_till_newline("x  \nfoo"), None);
    assert_eq!(trailing_ws_newline("foo\n  "), Some((2, 1)));
    assert_eq!(trailing_ws_newline("foo\n"), Some((0, 1)));
    assert_eq!(trailing_ws_newline("foo  "), None);
}

#[test]
fn generated_code_for_each_kind() {
    assert_eq!(
        generate_save_str_print("a#b".to_string()),
        "_fmt.write_str(r##\"a#b\"##)?;\n"
    );
    let mut info = plain_info();
    let parts = transform_template("A<#= x #><# y(); #>", &mut info).expect("parse failed");
    let code = generate_code(&parts);
    assert_eq!(
        code,
        "_fmt.write_str(r#\"A\"#)?;\nwrite!(_fmt, \"{}\",  x )?;\n y(); "
    );
}
