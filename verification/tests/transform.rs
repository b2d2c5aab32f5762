use rust_writer::preserver::apply_preservers;
use rust_writer::preserver::Preserver;

#[test]
fn top_level_lines_become_doc_markers() {
    let code = "// comment\n\nstruct MyStruct {\n    field1: i32,\n}\n\nfn main() {\n    let a = 1;\n\n    // note\n}\n";
    let p1 = Preserver::new("struct MyStruct");
    let p2 = Preserver::new("fn main");

    let expected = "///TEMP_DOC// comment\n///TEMP_DOC\nstruct MyStruct {\n    field1: i32,\n}\n///TEMP_DOC\nfn main() {\n    let a = 1;\n///TEMP_DOC\ntype temp_marker = ();\n///TEMP_DOC    // note\ntype temp_marker = ();\n}\ntype temp_marker = ();\n";

    assert_eq!(apply_preservers(code, &[&p1, &p2]), expected);
}

#[test]
fn inner_preserver_keeps_only_inner_block() {
    let code = "impl MyTrait for MyStruct {\n    fn trait_method(&self) {\n        println!(\"hi\");\n    }\n\n    fn other_method(&self) {\n        println!(\"hi\");\n    }\n\n}\n";
    let mut p = Preserver::new("impl MyTrait for MyStruct");
    p.add_inners(&["fn trait_method"]);

    let expected = "impl MyTrait for MyStruct {\n    fn trait_method(&self) {\n        println!(\"hi\");\n    }\n///TEMP_DOC\n///TEMP_DOC    fn other_method(&self) {\n///TEMP_DOC        println!(\"hi\");\n///TEMP_DOC    }\n///TEMP_DOC\ntype temp_marker = ();\n}\ntype temp_marker = ();\n";

    assert_eq!(apply_preservers(code, &[&p]), expected);
}

#[test]
fn unclosed_preserved_block_is_cut_off() {
    let code = "impl X {\n    fn f() {}\n";
    let mut p = Preserver::new("impl X");
    p.add_inners(&["fn f"]);

    // The block never comes back to balance, so everything after the
    // directive line is silently dropped; only the terminator follows.
    assert_eq!(apply_preservers(code, &[&p]), "impl X {\ntype temp_marker = ();\n");
}

#[test]
fn empty_input_yields_terminator_only() {
    let p = Preserver::new("fn main");
    assert_eq!(apply_preservers("", &[&p]), "type temp_marker = ();\n");
}

#[test]
fn apply_preservers_full_sample() {
    let code = "// SPDX-License-Identifier: GPL-3.0\n\n#![global_attr]\n\n//! Some superusefuldocs\n//! This file is just for testing!!! :)))\n\n// A simple function\nfn my_function() {\n    println!(\"Hello from a function!\");\n}\n\n// A macro invocation (built-in macro)\nmacro_rules! my_macro {\n    ($stmt:stmt; $enum:item) => {\n        $stmt;\n        $enum\n    };\n}\n\n// A struct\nstruct MyStruct {\n    field1: i32,\n    field2: String,\n}\n\n// A trait\ntrait MyTrait {\n    fn trait_method(&self);\n}\n\n// Implementing the trait for the struct\nimpl MyTrait for MyStruct {\n    fn trait_method(&self) {\n        println!(\"Trait method called!\");\n    }\n\n    fn other_method(&self) {\n        println!(\"Trait method called!\");\n    }\n\n}\n\n// An impl block with an associated function\nimpl MyStruct {\n    fn new(val: i32, text: &str) -> Self {\n        Self {\n            field1: val,\n            field2: text.to_string(),\n        }\n    }\n}\n\nfn main() {\n    my_function();\n\n    my_macro!(\n        // Nice comment\n        let a = 1;\n        enum A {\n            B,\n            C,\n            D(u8, String)\n        }\n    );\n\n    let instance = MyStruct::new(42, \"Hello\");\n    instance.trait_method();\n}\n";

    let preserver1 = Preserver::new("struct MyStruct");
    let mut preserver2 = Preserver::new("impl MyTrait for MyStruct");
    preserver2.add_inners(&["fn trait_method"]);
    let preserver3 = Preserver::new("fn main");

    let expected = "///TEMP_DOC// SPDX-License-Identifier: GPL-3.0\n///TEMP_DOC\n///TEMP_DOC#![global_attr]\n///TEMP_DOC\n///TEMP_DOC//! Some superusefuldocs\n///TEMP_DOC//! This file is just for testing!!! :)))\n///TEMP_DOC\n///TEMP_DOC// A simple function\n///TEMP_DOCfn my_function() {\n///TEMP_DOC    println!(\"Hello from a function!\");\n///TEMP_DOC}\n///TEMP_DOC\n///TEMP_DOC// A macro invocation (built-in macro)\n///TEMP_DOCmacro_rules! my_macro {\n///TEMP_DOC    ($stmt:stmt; $enum:item) => {\n///TEMP_DOC        $stmt;\n///TEMP_DOC        $enum\n///TEMP_DOC    };\n///TEMP_DOC}\n///TEMP_DOC\n///TEMP_DOC// A struct\nstruct MyStruct {\n    field1: i32,\n    field2: String,\n}\n///TEMP_DOC\n///TEMP_DOC// A trait\n///TEMP_DOCtrait MyTrait {\n///TEMP_DOC    fn trait_method(&self);\n///TEMP_DOC}\n///TEMP_DOC\n///TEMP_DOC// Implementing the trait for the struct\nimpl MyTrait for MyStruct {\n    fn trait_method(&self) {\n        println!(\"Trait method called!\");\n    }\n///TEMP_DOC\n///TEMP_DOC    fn other_method(&self) {\n///TEMP_DOC        println!(\"Trait method called!\");\n///TEMP_DOC    }\n///TEMP_DOC\ntype temp_marker = ();\n}\n///TEMP_DOC\n///TEMP_DOC// An impl block with an associated function\n///TEMP_DOCimpl MyStruct {\n///TEMP_DOC    fn new(val: i32, text: &str) -> Self {\n///TEMP_DOC        Self {\n///TEMP_DOC            field1: val,\n///TEMP_DOC            field2: text.to_string(),\n///TEMP_DOC        }\n///TEMP_DOC    }\n///TEMP_DOC}\n///TEMP_DOC\nfn main() {\n    my_function();\n///TEMP_DOC\ntype temp_marker = ();\n    my_macro!(\n///TEMP_DOC        // Nice comment\ntype temp_marker = ();\n        let a = 1;\n        enum A {\n            B,\n            C,\n            D(u8, String)\n        }\n    );\n///TEMP_DOC\ntype temp_marker = ();\n    let instance = MyStruct::new(42, \"Hello\");\n    instance.trait_method();\n}\ntype temp_marker = ();\n";

    assert_eq!(apply_preservers(code, &[&preserver1, &preserver2, &preserver3]), expected);
}

#[test]
fn crlf_lines_lose_their_carriage_returns() {
    let code = "fn main() {\r\n    let a = 1;\r\n}\r\n";
    let p = Preserver::new("fn main");
    assert_eq!(
        apply_preservers(code, &[&p]),
        "fn main() {\n    let a = 1;\n}\ntype temp_marker = ();\n"
    );
}

#[test]
fn encoded_output_keeps_the_input_balance() {
    let code = "fn outer() {\n    inner(vec![1, 2]);\n}\n\nstruct S {\n    x: (u8, u8),\n}\n";
    let p = rust_writer::preserver::Preserver::new("fn outer");

    let out = apply_preservers(code, &[&p]);

    let mut before = rust_writer::preserver::DelimitersCount::new();
    before.count(code);
    assert!(before.is_complete());

    let mut after = rust_writer::preserver::DelimitersCount::new();
    after.count(&out);
    assert!(after.is_complete());
}
