use rust_writer::preserver::preserve_and_parse;
use rust_writer::preserver::resolve_preserved;
use rust_writer::preserver::Preserver;
use rust_writer::Error;

fn fn_names(tree: &syn::File) -> Vec<String> {
    let mut names: Vec<String> = Vec::new();
    for item in &tree.items {
        if let syn::Item::Fn(f) = item {
            names.push(f.sig.ident.to_string());
        }
    }
    names
}

#[test]
fn unmatched_top_level_function_is_only_a_placeholder() {
    let code = "fn first() {\n    let a = 1;\n}\n\nfn second() {\n    let b = 2;\n}\n";
    let p = Preserver::new("fn first");

    let tree = preserve_and_parse(code, &[&p]).expect("preservable");

    // The matched function survives as a real, searchable node...
    assert_eq!(fn_names(&tree), vec!["first".to_string()]);

    // ...while the unmatched one exists only inside inert placeholders.
    let mut placeholder_count = 0;
    for item in &tree.items {
        if let syn::Item::Type(t) = item {
            assert_eq!(t.ident.to_string(), "temp_marker");
            placeholder_count += 1;
        }
    }
    assert!(placeholder_count >= 1);
}

#[test]
fn nested_directive_keeps_only_inner_method_real() {
    let code = "struct A {\n    x: i32,\n}\n\nimpl Trait for A {\n    fn m() {\n        let y = 1;\n    }\n\n    fn other() {\n        let z = 2;\n    }\n\n}\n";
    let mut p = Preserver::new("impl Trait for A");
    p.add_inners(&["fn m"]);

    let tree = preserve_and_parse(code, &[&p]).expect("preservable");

    // The struct was not claimed, so it survives only as placeholders.
    for item in &tree.items {
        assert!(!matches!(item, syn::Item::Struct(_)));
    }

    // The impl block is real, only `m` among its methods is.
    let mut impl_blocks = 0;
    for item in &tree.items {
        if let syn::Item::Impl(block) = item {
            impl_blocks += 1;
            let mut method_names: Vec<String> = Vec::new();
            let mut placeholder_types = 0;
            for impl_item in &block.items {
                match impl_item {
                    syn::ImplItem::Fn(f) => method_names.push(f.sig.ident.to_string()),
                    syn::ImplItem::Type(t) => {
                        assert_eq!(t.ident.to_string(), "temp_marker");
                        placeholder_types += 1;
                    },
                    _ => {},
                }
            }
            assert_eq!(method_names, vec!["m".to_string()]);
            assert!(placeholder_types >= 1);
        }
    }
    assert_eq!(impl_blocks, 1);
}

#[test]
fn comment_in_preserved_field_list_is_not_preservable() {
    let code = "struct MyStruct {\n// Invalid comment\n   \nfield1: i32,\nfield2: String,\n}\n";
    let p = Preserver::new("struct MyStruct");

    // Preserving the struct turns the comment and the blank line into
    // documented dummy declarations between fields, which no parser accepts.
    assert!(matches!(preserve_and_parse(code, &[&p]), Err(Error::NonPreservableCode)));

    // The same source with the block not preserved goes through.
    assert!(preserve_and_parse(code, &[]).is_ok());
}

#[test]
fn untouched_tree_round_trips_to_an_equal_tree() {
    let code = "// A comment kept as a placeholder\n\nfn kept() {\n    let value = 41;\n    let other = value + 1;\n}\n\nfn dropped() {\n    let gone = 2;\n}\n";
    let p = Preserver::new("fn kept");

    let tree1 = preserve_and_parse(code, &[&p]).expect("preservable");
    let restored = resolve_preserved(&tree1);
    let tree2 = preserve_and_parse(&restored, &[&p]).expect("still preservable");

    assert_eq!(tree1, tree2);
}

#[test]
fn restoration_without_mutation_recovers_simple_sources() {
    let code = "fn kept() {\n    let value = 41;\n}\n";
    let p = Preserver::new("fn kept");

    let tree = preserve_and_parse(code, &[&p]).expect("preservable");
    let restored = resolve_preserved(&tree);

    assert_eq!(restored, code);
}

#[test]
fn comment_in_preserved_impl_items_is_accepted() {
    // Between the items of a preserved impl block, the documented dummy
    // declaration reads as an associated type, which the parser accepts.
    let code = "impl MyTrait for MyStruct {\n// raw comment\n   \nfn m(&self) {}\n}\n";
    let p = Preserver::new("impl MyTrait for MyStruct");

    assert!(preserve_and_parse(code, &[&p]).is_ok());
}

#[test]
fn macro_comment_round_trips_through_attribute_form() {
    // Inside a preserved macro invocation everything is a token, so the
    // dropped comment survives parsing as an attribute-form marker; the
    // restoration turns it back into the bare comment line.
    let code = "fn main() {\n    my_macro!(\n        // Nice comment\n        let a = 1;\n    );\n}\n";
    let p = Preserver::new("fn main");

    let tree = preserve_and_parse(code, &[&p]).expect("preservable");
    let restored = resolve_preserved(&tree);

    assert!(restored.contains("// Nice comment"));
    assert!(!restored.contains("TEMP_DOC"));
    assert!(!restored.contains("temp_marker"));
}

#[test]
fn verbatim_items_survive_rendering() {
    // A bodyless static parses into a verbatim node; the renderer must
    // print it rather than abort, and restoration keeps it.
    let code = "static X: u8;\n\nfn kept() {\n    let a = 1;\n}\n";
    let p1 = Preserver::new("static X");
    let p2 = Preserver::new("fn kept");

    let tree = preserve_and_parse(code, &[&p1, &p2]).expect("preservable");
    let restored = resolve_preserved(&tree);

    assert!(restored.contains("static X: u8;"));
    assert!(restored.contains("fn kept()"));
    assert!(!restored.contains("temp_marker"));
}
