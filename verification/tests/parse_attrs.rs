use rust_writer::parse_attrs::InnerAttr;

#[test]
fn inner_attr_parse_complete_test() {
    let inner_attr = InnerAttr::Nothing;

    assert_eq!(inner_attr.parse(), (false, false));

    let inner_attr = InnerAttr::AlreadyExpanded;

    assert_eq!(inner_attr.parse(), (true, false));

    let inner_attr = InnerAttr::ImplFrom;

    assert_eq!(inner_attr.parse(), (false, true));
}
