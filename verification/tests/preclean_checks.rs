use svgcleaner::{preclean_checks, AttrValue, Document, ElementKind, Error, NodeKind};

fn child(doc: &mut Document, parent: usize, kind: ElementKind) -> usize {
    let x = doc.create_node(NodeKind::Element(kind));
    doc.append_child(parent, x);
    x
}

fn text(value: &str) -> AttrValue {
    AttrValue::Text(value.to_string())
}

fn with_svg() -> (Document, usize) {
    let mut doc = Document::new();
    let svg = child(&mut doc, 0, ElementKind::Svg);
    (doc, svg)
}

#[test]
fn test_scripting_1() {
    let (mut doc, svg) = with_svg();
    child(&mut doc, svg, ElementKind::Script);
    assert_eq!(preclean_checks(&doc).err().unwrap(), Error::ScriptingIsNotSupported);
}

#[test]
fn test_scripting_2() {
    let (mut doc, svg) = with_svg();
    doc.set_attribute(svg, "onload".to_string(), text(""));
    assert_eq!(preclean_checks(&doc).err().unwrap(), Error::ScriptingIsNotSupported);
}

#[test]
fn test_scripting_by_each_sort_of_event() {
    for name in ["onclick", "onmouseover", "onunload", "onzoom", "onbegin", "onrepeat"] {
        let (mut doc, svg) = with_svg();
        let g = child(&mut doc, svg, ElementKind::Other);
        doc.set_attribute(g, name.to_string(), text("run()"));
        assert_eq!(preclean_checks(&doc).err().unwrap(), Error::ScriptingIsNotSupported);
    }
}

#[test]
fn test_no_event_in_ordinary_keys() {
    let (mut doc, svg) = with_svg();
    let g = child(&mut doc, svg, ElementKind::Other);
    doc.set_attribute(g, "fill".to_string(), AttrValue::Other("red".to_string()));
    doc.set_attribute(g, "onward".to_string(), text("x"));
    doc.set_attribute(g, "".to_string(), text("x"));
    assert_eq!(preclean_checks(&doc).is_ok(), true);
}

#[test]
fn test_animation_1() {
    let (mut doc, svg) = with_svg();
    child(&mut doc, svg, ElementKind::AnimateSet);
    assert_eq!(preclean_checks(&doc).err().unwrap(), Error::AnimationIsNotSupported);
}

#[test]
fn test_animation_each_kind() {
    for kind in [
        ElementKind::Animate,
        ElementKind::AnimateSet,
        ElementKind::AnimateMotion,
        ElementKind::AnimateColor,
        ElementKind::AnimateTransform,
    ] {
        let (mut doc, svg) = with_svg();
        let g = child(&mut doc, svg, ElementKind::Other);
        child(&mut doc, g, kind);
        assert_eq!(preclean_checks(&doc).err().unwrap(), Error::AnimationIsNotSupported);
    }
}

#[test]
fn test_conditions_1() {
    let (mut doc, svg) = with_svg();
    let switch = child(&mut doc, svg, ElementKind::Other);
    doc.set_attribute(switch, "requiredFeatures".to_string(), text("text"));
    assert_eq!(
        preclean_checks(&doc).err().unwrap(),
        Error::ConditionalProcessingIsNotSupported
    );
}

#[test]
fn test_conditions_2() {
    let (mut doc, svg) = with_svg();
    let switch = child(&mut doc, svg, ElementKind::Other);
    doc.set_attribute(switch, "systemLanguage".to_string(), text("en"));
    assert_eq!(
        preclean_checks(&doc).err().unwrap(),
        Error::ConditionalProcessingIsNotSupported
    );
}

#[test]
fn test_conditions_3() {
    let (mut doc, svg) = with_svg();
    let switch = child(&mut doc, svg, ElementKind::Other);
    doc.set_attribute(switch, "requiredFeatures".to_string(), text(""));
    assert_eq!(preclean_checks(&doc).is_ok(), true);
}

#[test]
fn test_conditions_4() {
    let (mut doc, svg) = with_svg();
    let switch = child(&mut doc, svg, ElementKind::Other);
    doc.set_attribute(switch, "systemLanguage".to_string(), text(""));
    assert_eq!(preclean_checks(&doc).is_ok(), true);
}

#[test]
fn test_scripting_before_condition() {
    let (mut doc, svg) = with_svg();
    let switch = child(&mut doc, svg, ElementKind::Other);
    doc.set_attribute(switch, "requiredFeatures".to_string(), text("text"));
    child(&mut doc, svg, ElementKind::Script);
    assert_eq!(preclean_checks(&doc).err().unwrap(), Error::ScriptingIsNotSupported);
}

#[test]
fn test_scripting_before_animation() {
    let (mut doc, svg) = with_svg();
    child(&mut doc, svg, ElementKind::Animate);
    child(&mut doc, svg, ElementKind::Script);
    assert_eq!(preclean_checks(&doc).err().unwrap(), Error::ScriptingIsNotSupported);
}

#[test]
fn test_animation_before_event() {
    let (mut doc, svg) = with_svg();
    doc.set_attribute(svg, "onclick".to_string(), text("go()"));
    child(&mut doc, svg, ElementKind::AnimateColor);
    assert_eq!(preclean_checks(&doc).err().unwrap(), Error::AnimationIsNotSupported);
}

#[test]
fn test_condition_before_outside_link() {
    let (mut doc, svg) = with_svg();
    let user = child(&mut doc, svg, ElementKind::Other);
    doc.set_attribute(user, "xlink:href".to_string(), text("other.svg#a"));
    let switch = child(&mut doc, svg, ElementKind::Other);
    doc.set_attribute(switch, "systemLanguage".to_string(), text("en"));
    assert_eq!(
        preclean_checks(&doc).err().unwrap(),
        Error::ConditionalProcessingIsNotSupported
    );
}

#[test]
fn test_outside_link() {
    let (mut doc, svg) = with_svg();
    let first = child(&mut doc, svg, ElementKind::Other);
    doc.set_attribute(first, "xlink:href".to_string(), AttrValue::Link("a".to_string()));
    let second = child(&mut doc, svg, ElementKind::LinearGradient);
    doc.set_attribute(second, "xlink:href".to_string(), text("other.svg#lg"));
    let third = child(&mut doc, svg, ElementKind::Other);
    doc.set_attribute(third, "xlink:href".to_string(), text("third.svg"));
    assert_eq!(
        preclean_checks(&doc).err().unwrap(),
        Error::ExternalHrefIsNotSupported("other.svg#lg".to_string())
    );
}

#[test]
fn test_outside_link_where_it_is_legitimate() {
    for kind in [ElementKind::A, ElementKind::Image, ElementKind::FontFaceUri, ElementKind::FeImage] {
        let (mut doc, svg) = with_svg();
        let x = child(&mut doc, svg, kind);
        doc.set_attribute(x, "xlink:href".to_string(), text("http://example.com/a.png"));
        assert_eq!(preclean_checks(&doc).is_ok(), true);
    }
}

#[test]
fn test_removed_nodes_are_not_checked() {
    let (mut doc, svg) = with_svg();
    let script = child(&mut doc, svg, ElementKind::Script);
    doc.detach(script);
    assert_eq!(preclean_checks(&doc).is_ok(), true);
}

#[test]
fn test_plain_document_passes() {
    let (mut doc, svg) = with_svg();
    let g = child(&mut doc, svg, ElementKind::Other);
    doc.set_attribute(g, "fill".to_string(), AttrValue::Other("red".to_string()));
    let comment = doc.create_node(NodeKind::Comment);
    doc.append_child(g, comment);
    assert_eq!(preclean_checks(&doc), Ok(()));
}
