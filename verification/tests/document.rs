use svgcleaner::{AttrValue, Attribute, Document, ElementKind, NodeKind};

fn element(doc: &mut Document, parent: usize, kind: ElementKind) -> usize {
    let x = doc.create_node(NodeKind::Element(kind));
    doc.append_child(parent, x);
    x
}

#[test]
fn new_document_holds_the_root() {
    let doc = Document::new();
    assert_eq!(doc.len(), 1);
    assert_eq!(doc.kind(0), NodeKind::Root);
    assert_eq!(doc.parent(0), None);
    assert!(doc.children(0).is_empty());
    assert!(doc.attributes(0).is_empty());
    assert_eq!(doc.id(0), "");
    assert_eq!(doc.descendants(), vec![0]);
    assert_eq!(doc.svg_element(), None);
}

#[test]
fn created_node_is_detached() {
    let mut doc = Document::new();
    let x = doc.create_node(NodeKind::Text);
    assert_eq!(x, 1);
    assert_eq!(doc.len(), 2);
    assert_eq!(doc.kind(x), NodeKind::Text);
    assert_eq!(doc.parent(x), None);
    assert_eq!(doc.descendants(), vec![0]);
}

#[test]
fn append_and_prepend() {
    let mut doc = Document::new();
    let svg = element(&mut doc, 0, ElementKind::Svg);
    let a = element(&mut doc, svg, ElementKind::Other);
    let b = element(&mut doc, svg, ElementKind::Other);
    let c = doc.create_node(NodeKind::Comment);
    doc.prepend_child(svg, c);
    assert_eq!(doc.children(svg), &vec![c, a, b]);
    assert_eq!(doc.parent(c), Some(svg));
    assert_eq!(doc.parent(a), Some(svg));
}

#[test]
fn document_order_is_preorder() {
    let mut doc = Document::new();
    let svg = element(&mut doc, 0, ElementKind::Svg);
    let a = element(&mut doc, svg, ElementKind::Other);
    let b = element(&mut doc, svg, ElementKind::Other);
    let a1 = element(&mut doc, a, ElementKind::Other);
    let b1 = element(&mut doc, b, ElementKind::Other);
    let a2 = element(&mut doc, a, ElementKind::Other);
    let a11 = element(&mut doc, a1, ElementKind::Other);
    assert_eq!(doc.descendants(), vec![0, svg, a, a1, a11, a2, b, b1]);
}

#[test]
fn detach_keeps_the_subtree() {
    let mut doc = Document::new();
    let svg = element(&mut doc, 0, ElementKind::Svg);
    let a = element(&mut doc, svg, ElementKind::Other);
    let a1 = element(&mut doc, a, ElementKind::Other);
    let b = element(&mut doc, svg, ElementKind::Other);
    doc.detach(a);
    assert_eq!(doc.children(svg), &vec![b]);
    assert_eq!(doc.parent(a), None);
    assert_eq!(doc.children(a), &vec![a1]);
    assert_eq!(doc.parent(a1), Some(a));
    assert_eq!(doc.descendants(), vec![0, svg, b]);
    doc.detach(a);
    assert_eq!(doc.parent(a), None);
    doc.detach(0);
    assert_eq!(doc.children(0), &vec![svg]);
}

#[test]
fn move_to_end_carries_the_subtree() {
    let mut doc = Document::new();
    let svg = element(&mut doc, 0, ElementKind::Svg);
    let defs = element(&mut doc, svg, ElementKind::Defs);
    let old = element(&mut doc, defs, ElementKind::Other);
    let g = element(&mut doc, svg, ElementKind::Other);
    let x = element(&mut doc, g, ElementKind::Other);
    let x1 = element(&mut doc, x, ElementKind::Other);
    doc.move_to_end(x, defs);
    assert_eq!(doc.children(defs), &vec![old, x]);
    assert!(doc.children(g).is_empty());
    assert_eq!(doc.parent(x), Some(defs));
    assert_eq!(doc.children(x), &vec![x1]);
    doc.move_to_end(old, defs);
    assert_eq!(doc.children(defs), &vec![x, old]);
    assert_eq!(doc.descendants(), vec![0, svg, defs, x, x1, old, g]);
}

#[test]
fn set_attribute_replaces_or_appends() {
    let mut doc = Document::new();
    let svg = element(&mut doc, 0, ElementKind::Svg);
    doc.set_attribute(svg, "fill".to_string(), AttrValue::Other("red".to_string()));
    doc.set_attribute(svg, "width".to_string(), AttrValue::Number("10".to_string()));
    doc.set_attribute(svg, "fill".to_string(), AttrValue::Other("blue".to_string()));
    let expected = vec![
        Attribute { name: "fill".to_string(), value: AttrValue::Other("blue".to_string()) },
        Attribute { name: "width".to_string(), value: AttrValue::Number("10".to_string()) },
    ];
    assert_eq!(doc.attributes(svg), &expected);
}

#[test]
fn replace_attributes_and_id() {
    let mut doc = Document::new();
    let svg = element(&mut doc, 0, ElementKind::Svg);
    doc.set_attribute(svg, "fill".to_string(), AttrValue::Other("red".to_string()));
    doc.set_id(svg, "top".to_string());
    assert_eq!(doc.id(svg), "top");
    let attrs = vec![Attribute { name: "x".to_string(), value: AttrValue::Text("1".to_string()) }];
    doc.replace_attributes(svg, attrs.clone());
    assert_eq!(doc.attributes(svg), &attrs);
    doc.set_id(svg, String::new());
    assert_eq!(doc.id(svg), "");
}

#[test]
fn values_compare_by_type_and_text() {
    let one = AttrValue::Number("1".to_string());
    assert!(one.same_as(&AttrValue::Number("1".to_string())));
    assert!(!one.same_as(&AttrValue::Number("1.0".to_string())));
    assert!(!one.same_as(&AttrValue::Text("1".to_string())));
    assert_ne!(AttrValue::Link("a".to_string()), AttrValue::FuncLink("a".to_string()));
    assert_eq!(AttrValue::Link("a".to_string()).link(), Some(&"a".to_string()));
    assert_eq!(AttrValue::FuncLink("b".to_string()).link(), Some(&"b".to_string()));
    assert_eq!(AttrValue::Other("a".to_string()).link(), None);
    assert_eq!(AttrValue::Other("a".to_string()).text(), "a");
}

#[test]
fn first_child_of_a_kind() {
    let mut doc = Document::new();
    let first = element(&mut doc, 0, ElementKind::Svg);
    element(&mut doc, 0, ElementKind::Svg);
    let g = element(&mut doc, first, ElementKind::Other);
    let deep = element(&mut doc, g, ElementKind::Defs);
    let d1 = element(&mut doc, first, ElementKind::Defs);
    element(&mut doc, first, ElementKind::Defs);
    assert_eq!(doc.svg_element(), Some(first));
    assert_eq!(doc.child_by_kind(first, ElementKind::Defs), Some(d1));
    assert_eq!(doc.child_by_kind(g, ElementKind::Defs), Some(deep));
    assert_eq!(doc.child_by_kind(g, ElementKind::Mask), None);
}

#[test]
fn ancestors_of_a_kind() {
    let mut doc = Document::new();
    let svg = element(&mut doc, 0, ElementKind::Svg);
    let mask = element(&mut doc, svg, ElementKind::Mask);
    let g = element(&mut doc, mask, ElementKind::Other);
    let x = element(&mut doc, g, ElementKind::Other);
    assert!(doc.has_ancestor_of_kind(x, ElementKind::Mask));
    assert!(doc.has_ancestor_of_kind(g, ElementKind::Mask));
    assert!(!doc.has_ancestor_of_kind(mask, ElementKind::Mask));
    assert!(doc.has_ancestor_of_kind(mask, ElementKind::Svg));
    assert!(!doc.has_ancestor_of_kind(0, ElementKind::Svg));
}

#[test]
fn inheritable_attributes_above() {
    let mut doc = Document::new();
    let svg = element(&mut doc, 0, ElementKind::Svg);
    doc.set_attribute(svg, "stroke".to_string(), AttrValue::Other("black".to_string()));
    doc.set_attribute(svg, "viewBox".to_string(), AttrValue::Other("0 0 1 1".to_string()));
    let g = element(&mut doc, svg, ElementKind::Other);
    doc.set_attribute(g, "transform".to_string(), AttrValue::Other("scale(2)".to_string()));
    doc.set_attribute(g, "fill".to_string(), AttrValue::Other("red".to_string()));
    doc.set_attribute(g, "stroke".to_string(), AttrValue::Other("white".to_string()));
    let x = element(&mut doc, g, ElementKind::Symbol);
    doc.set_attribute(x, "font-size".to_string(), AttrValue::Other("12".to_string()));
    let names: Vec<(String, String)> = doc
        .inheritable_above(x)
        .into_iter()
        .map(|a| (a.name, a.value.text().clone()))
        .collect();
    let expected: Vec<(String, String)> = [("fill", "red"), ("stroke", "white"), ("stroke", "black")]
        .iter()
        .map(|(n, v)| (n.to_string(), v.to_string()))
        .collect();
    assert_eq!(names, expected);
    let child = element(&mut doc, x, ElementKind::Other);
    doc.set_attribute(child, "fill".to_string(), AttrValue::Other("green".to_string()));
    doc.resolve_attrs(x);
    let got: Vec<(String, String)> = doc
        .attributes(child)
        .iter()
        .map(|a| (a.name.clone(), a.value.text().clone()))
        .collect();
    let wanted: Vec<(String, String)> = [("fill", "green"), ("stroke", "white")]
        .iter()
        .map(|(n, v)| (n.to_string(), v.to_string()))
        .collect();
    assert_eq!(got, wanted);
    doc.resolve_attrs(g);
    assert!(doc.attributes(x).len() == 1);
}

#[test]
fn link_targets_of_the_tree() {
    let mut doc = Document::new();
    let svg = element(&mut doc, 0, ElementKind::Svg);
    let a = element(&mut doc, svg, ElementKind::Other);
    doc.set_attribute(a, "fill".to_string(), AttrValue::FuncLink("p".to_string()));
    doc.set_attribute(a, "xlink:href".to_string(), AttrValue::Link("q".to_string()));
    doc.set_attribute(a, "class".to_string(), AttrValue::Text("r".to_string()));
    let b = element(&mut doc, svg, ElementKind::Other);
    doc.set_attribute(b, "mask".to_string(), AttrValue::FuncLink("s".to_string()));
    doc.detach(b);
    let mut targets = doc.link_targets();
    targets.sort();
    assert_eq!(targets, vec!["p".to_string(), "q".to_string()]);
}

#[test]
fn kinds() {
    assert!(ElementKind::Marker.is_inheritance_sensitive());
    assert!(ElementKind::Symbol.is_inheritance_sensitive());
    assert!(!ElementKind::LinearGradient.is_inheritance_sensitive());
    assert!(ElementKind::RadialGradient.is_gradient());
    assert!(!ElementKind::Pattern.is_gradient());
    assert!(ElementKind::AnimateSet.is_animation());
    assert!(!ElementKind::Script.is_animation());
    assert!(ElementKind::FeImage.may_link_outside());
    assert!(!ElementKind::Svg.may_link_outside());
    assert!(NodeKind::Element(ElementKind::Other).is_element());
    assert!(!NodeKind::Comment.is_element());
    assert!(NodeKind::Element(ElementKind::Defs).is(ElementKind::Defs));
    assert!(!NodeKind::Root.is(ElementKind::Svg));
}
