use svgcleaner::{remove_invalid_stops, AttrValue, Document, ElementKind, NodeKind};

fn node(doc: &mut Document, parent: usize, kind: ElementKind) -> usize {
    let x = doc.create_node(NodeKind::Element(kind));
    doc.append_child(parent, x);
    x
}

fn stop(doc: &mut Document, gradient: usize, attrs: &[(&str, &str)]) -> usize {
    let x = node(doc, gradient, ElementKind::Other);
    for (name, value) in attrs {
        let value = if *name == "stop-color" {
            AttrValue::Other(value.to_string())
        } else {
            AttrValue::Number(value.to_string())
        };
        doc.set_attribute(x, name.to_string(), value);
    }
    x
}

fn gradient() -> (Document, usize) {
    let mut doc = Document::new();
    let svg = node(&mut doc, 0, ElementKind::Svg);
    let lg = node(&mut doc, svg, ElementKind::LinearGradient);
    (doc, lg)
}

#[test]
fn rm_1() {
    let (mut doc, lg) = gradient();
    let a = stop(&mut doc, lg, &[("offset", "0")]);
    let b = stop(&mut doc, lg, &[("offset", "0")]);
    let c = stop(&mut doc, lg, &[("offset", "1")]);
    remove_invalid_stops(&mut doc);
    assert_eq!(doc.children(lg), &vec![a, c]);
    assert_eq!(doc.parent(b), None);
}

#[test]
fn rm_last_of_a_run() {
    let (mut doc, lg) = gradient();
    let a = stop(&mut doc, lg, &[("offset", "0")]);
    let b = stop(&mut doc, lg, &[("offset", "1")]);
    let c = stop(&mut doc, lg, &[("offset", "1")]);
    remove_invalid_stops(&mut doc);
    assert_eq!(doc.children(lg), &vec![a, b]);
    assert_eq!(doc.parent(c), None);
}

#[test]
fn rm_3() {
    let (mut doc, lg) = gradient();
    let a = stop(&mut doc, lg, &[("offset", "0")]);
    let b = stop(&mut doc, lg, &[("offset", "0.5"), ("stop-color", "#ff0000")]);
    let c = stop(&mut doc, lg, &[("offset", "0.5"), ("stop-color", "#ff0000")]);
    let d = stop(&mut doc, lg, &[("offset", "1")]);
    remove_invalid_stops(&mut doc);
    assert_eq!(doc.children(lg), &vec![a, b, d]);
    assert_eq!(doc.parent(c), None);
}

#[test]
fn rm_whole_run() {
    let (mut doc, lg) = gradient();
    let a = stop(&mut doc, lg, &[("offset", "0.5"), ("stop-opacity", "1")]);
    stop(&mut doc, lg, &[("stop-opacity", "1"), ("offset", "0.5")]);
    stop(&mut doc, lg, &[("offset", "0.5"), ("stop-opacity", "1")]);
    stop(&mut doc, lg, &[("offset", "0.5"), ("stop-opacity", "1")]);
    let e = stop(&mut doc, lg, &[("offset", "0.5")]);
    let f = stop(&mut doc, lg, &[("offset", "0.5"), ("stop-opacity", "1")]);
    remove_invalid_stops(&mut doc);
    assert_eq!(doc.children(lg), &vec![a, e, f]);
}

#[test]
fn rm_red_red_green() {
    let (mut doc, lg) = gradient();
    let a = stop(&mut doc, lg, &[("offset", "0.5"), ("stop-color", "red")]);
    stop(&mut doc, lg, &[("offset", "0.5"), ("stop-color", "red")]);
    let c = stop(&mut doc, lg, &[("offset", "0.5"), ("stop-color", "green")]);
    remove_invalid_stops(&mut doc);
    assert_eq!(doc.children(lg), &vec![a, c]);
}

#[test]
fn keep_1() {
    let (mut doc, lg) = gradient();
    let a = stop(&mut doc, lg, &[("offset", "0")]);
    let b = stop(&mut doc, lg, &[("offset", "0.5"), ("stop-color", "#ff0000")]);
    let c = stop(&mut doc, lg, &[("offset", "0.5"), ("stop-color", "#00ff00")]);
    let d = stop(&mut doc, lg, &[("offset", "1")]);
    remove_invalid_stops(&mut doc);
    assert_eq!(doc.children(lg), &vec![a, b, c, d]);
}

#[test]
fn keep_2() {
    let (mut doc, lg) = gradient();
    let a = stop(&mut doc, lg, &[("offset", "0")]);
    let b = stop(&mut doc, lg, &[("offset", "0.5"), ("stop-opacity", "0.6")]);
    let c = stop(&mut doc, lg, &[("offset", "0.5"), ("stop-opacity", "0.5")]);
    let d = stop(&mut doc, lg, &[("offset", "1")]);
    remove_invalid_stops(&mut doc);
    assert_eq!(doc.children(lg), &vec![a, b, c, d]);
}

#[test]
fn keep_3() {
    let (mut doc, lg) = gradient();
    let a = stop(&mut doc, lg, &[("offset", "0")]);
    let b = stop(&mut doc, lg, &[("offset", "1"), ("stop-color", "#ff0000")]);
    let c = stop(&mut doc, lg, &[("offset", "1"), ("stop-color", "#00ff00")]);
    remove_invalid_stops(&mut doc);
    assert_eq!(doc.children(lg), &vec![a, b, c]);
}

#[test]
fn keep_values_of_different_types() {
    let (mut doc, lg) = gradient();
    let a = node(&mut doc, lg, ElementKind::Other);
    doc.set_attribute(a, "offset".to_string(), AttrValue::Number("1".to_string()));
    let b = node(&mut doc, lg, ElementKind::Other);
    doc.set_attribute(b, "offset".to_string(), AttrValue::Text("1".to_string()));
    remove_invalid_stops(&mut doc);
    assert_eq!(doc.children(lg), &vec![a, b]);
}

#[test]
fn other_attributes_do_not_count() {
    let (mut doc, lg) = gradient();
    let a = stop(&mut doc, lg, &[("offset", "0")]);
    let b = stop(&mut doc, lg, &[("offset", "0")]);
    doc.set_id(b, "second".to_string());
    doc.set_attribute(b, "style".to_string(), AttrValue::Text("x".to_string()));
    remove_invalid_stops(&mut doc);
    assert_eq!(doc.children(lg), &vec![a]);
}

#[test]
fn only_gradients_lose_children() {
    let mut doc = Document::new();
    let svg = node(&mut doc, 0, ElementKind::Svg);
    let g = node(&mut doc, svg, ElementKind::Other);
    let a = stop(&mut doc, g, &[("offset", "0")]);
    let b = stop(&mut doc, g, &[("offset", "0")]);
    let rg = node(&mut doc, svg, ElementKind::RadialGradient);
    let c = stop(&mut doc, rg, &[]);
    stop(&mut doc, rg, &[]);
    let empty = node(&mut doc, svg, ElementKind::LinearGradient);
    remove_invalid_stops(&mut doc);
    assert_eq!(doc.children(g), &vec![a, b]);
    assert_eq!(doc.children(rg), &vec![c]);
    assert!(doc.children(empty).is_empty());
    assert_eq!(doc.children(svg), &vec![g, rg, empty]);
}
