use rust_writer::preserver::apply_preservers;
use rust_writer::preserver::restore_placeholders;
use rust_writer::preserver::Preserver;

#[test]
fn doc_marker_prefix_is_stripped() {
    let code = "///TEMP_DOC// comment\n///TEMP_DOCfn second() {\n";
    assert_eq!(restore_placeholders(code), "// comment\nfn second() {\n");
}

#[test]
fn indented_doc_marker_prefix_is_stripped() {
    let code = "    ///TEMP_DOC    // note\n";
    assert_eq!(restore_placeholders(code), "    // note\n");
}

#[test]
fn dummy_declarations_disappear() {
    let code = "foo\ntype temp_marker = ();\nbar\n    type temp_marker = ();\nbaz\n";
    assert_eq!(restore_placeholders(code), "foo\nbar\nbaz\n");
}

#[test]
fn dummy_declaration_tolerates_inner_spacing() {
    let code = "a\ntype  temp_marker=();  \nb\n";
    assert_eq!(restore_placeholders(code), "a\nb\n");
}

#[test]
fn attribute_form_marker_becomes_payload_line() {
    let code = "#[doc = \"TEMP_DOC// hi\"]";
    assert_eq!(restore_placeholders(code), "\n// hi\n");
}

#[test]
fn attribute_form_marker_skips_escape_characters() {
    // The renderer escapes a leading tab of the payload as a two-character
    // sequence inside the string literal; the matcher skips it.
    let code = "#[doc = \"TEMP_DOC\\t// x\"]";
    assert_eq!(restore_placeholders(code), "\n// x\n");
}

#[test]
fn attribute_form_marker_tolerates_line_breaks_between_tokens() {
    let code = "#\n[\n    doc =\n    \"TEMP_DOC    let a = 1;\"\n]";
    assert_eq!(restore_placeholders(code), "\n    let a = 1;\n");
}

#[test]
fn payload_may_contain_quotes_that_do_not_close() {
    let code = "#[doc = \"TEMP_DOCsay \\\"hi\\\" now\"]";
    // The escaped quotes of the rendered literal survive as content, and the
    // escape-skipping class also eats the payload's own leading 's'.
    assert_eq!(restore_placeholders(code), "\nay \\\"hi\\\" now\n");
}

#[test]
fn released_payload_is_still_subject_to_marker_removal() {
    // Pass one releases the payloads as bare lines; pass two then removes
    // the one that is the dummy declaration, with the line break before it.
    let code = "#[doc = \"TEMP_DOC// a\"]#[doc = \"TEMP_DOC type temp_marker = ();\"]";
    assert_eq!(restore_placeholders(code), "\n// a\n");
}

#[test]
fn escape_skipping_can_eat_a_released_payload_head() {
    // A payload that begins with one of the skipped escape characters loses
    // it to the matcher; the mangled line then no longer reads as a dummy
    // declaration and survives.
    let code = "#[doc = \"TEMP_DOCtype temp_marker = ();\"]";
    assert_eq!(restore_placeholders(code), "\nype temp_marker = ();\n");
}

#[test]
fn plain_text_is_untouched() {
    let code = "fn main() {\n    let a = 1;\n}\n";
    assert_eq!(restore_placeholders(code), code);
}

#[test]
fn restore_inverts_the_transform_on_flat_directives() {
    let code = "// note\n\nfn kept() {\n    let a = 1;\n  \n    // inner\n}\n";
    let p = Preserver::new("fn kept");

    let encoded = apply_preservers(code, &[&p]);
    let back = restore_placeholders(&encoded);

    // Every line returns as it was, except the whitespace-only line inside
    // the open block, whose marker carries no payload: it comes back empty.
    assert_eq!(back, "// note\n\nfn kept() {\n    let a = 1;\n\n    // inner\n}\n");
}
