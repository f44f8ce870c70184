use svgcleaner::{group_defs, AttrValue, Document, ElementKind, NodeKind};

fn add(doc: &mut Document, parent: usize, kind: ElementKind) -> usize {
    let x = doc.create_node(NodeKind::Element(kind));
    doc.append_child(parent, x);
    x
}

fn add_with_id(doc: &mut Document, parent: usize, kind: ElementKind, id: &str) -> usize {
    let x = add(doc, parent, kind);
    doc.set_id(x, id.to_string());
    x
}

fn link(doc: &mut Document, from: usize, name: &str, id: &str) {
    doc.set_attribute(from, name.to_string(), AttrValue::Link(id.to_string()));
}

fn other(text: &str) -> AttrValue {
    AttrValue::Other(text.to_string())
}

fn attr_of(doc: &Document, x: usize, name: &str) -> Option<AttrValue> {
    for a in doc.attributes(x).iter() {
        if a.name == name {
            return Some(a.value.clone());
        }
    }
    None
}

fn snapshot(doc: &Document) -> Vec<(NodeKind, String, Option<usize>, Vec<usize>, Vec<(String, AttrValue)>)> {
    let mut all = Vec::new();
    for x in 0..doc.len() {
        let attrs = doc.attributes(x).iter().map(|a| (a.name.clone(), a.value.clone())).collect();
        all.push((doc.kind(x), doc.id(x).clone(), doc.parent(x), doc.children(x).clone(), attrs));
    }
    all
}

#[test]
fn create_defs_1() {
    let mut doc = Document::new();
    let comment = doc.create_node(NodeKind::Comment);
    doc.append_child(0, comment);
    let svg = add(&mut doc, 0, ElementKind::Svg);
    group_defs(&mut doc);
    assert_eq!(doc.children(0), &vec![comment, svg]);
    assert_eq!(doc.children(svg).len(), 1);
    let defs = doc.children(svg)[0];
    assert_eq!(doc.kind(defs), NodeKind::Element(ElementKind::Defs));
    assert_eq!(doc.parent(defs), Some(svg));
    assert!(doc.children(defs).is_empty());
}

#[test]
fn created_defs_comes_first() {
    let mut doc = Document::new();
    let svg = add(&mut doc, 0, ElementKind::Svg);
    let rect = add(&mut doc, svg, ElementKind::Other);
    group_defs(&mut doc);
    let defs = doc.children(svg)[0];
    assert_eq!(doc.kind(defs), NodeKind::Element(ElementKind::Defs));
    assert_eq!(doc.children(svg), &vec![defs, rect]);
}

#[test]
fn existing_defs_stays_in_place() {
    let mut doc = Document::new();
    let svg = add(&mut doc, 0, ElementKind::Svg);
    let rect = add(&mut doc, svg, ElementKind::Other);
    let defs = add(&mut doc, svg, ElementKind::Defs);
    let len = doc.len();
    group_defs(&mut doc);
    assert_eq!(doc.len(), len);
    assert_eq!(doc.children(svg), &vec![rect, defs]);
}

#[test]
fn move_defs_1() {
    let mut doc = Document::new();
    let svg = add(&mut doc, 0, ElementKind::Svg);
    let clip = add_with_id(&mut doc, svg, ElementKind::ClipPath, "a");
    let filter = add_with_id(&mut doc, svg, ElementKind::Other, "b");
    let gradient = add_with_id(&mut doc, svg, ElementKind::LinearGradient, "c");
    let marker = add_with_id(&mut doc, svg, ElementKind::Marker, "d");
    let mask = add_with_id(&mut doc, svg, ElementKind::Mask, "e");
    let pattern = add_with_id(&mut doc, svg, ElementKind::Pattern, "f");
    let symbol = add_with_id(&mut doc, svg, ElementKind::Symbol, "g");
    let unused = add_with_id(&mut doc, svg, ElementKind::RadialGradient, "h");
    let rect = add(&mut doc, svg, ElementKind::Other);
    link(&mut doc, rect, "clip-path", "a");
    link(&mut doc, rect, "filter", "b");
    doc.set_attribute(rect, "fill".to_string(), AttrValue::FuncLink("c".to_string()));
    link(&mut doc, rect, "marker-start", "d");
    link(&mut doc, rect, "mask", "e");
    doc.set_attribute(rect, "stroke".to_string(), AttrValue::FuncLink("f".to_string()));
    link(&mut doc, rect, "xlink:href", "g");
    group_defs(&mut doc);
    let defs = doc.children(svg)[0];
    assert_eq!(doc.kind(defs), NodeKind::Element(ElementKind::Defs));
    assert_eq!(doc.children(svg), &vec![defs, unused, rect]);
    assert_eq!(doc.children(defs), &vec![clip, filter, gradient, marker, mask, pattern, symbol]);
    assert_eq!(doc.parent(clip), Some(defs));
    assert_eq!(doc.parent(unused), Some(svg));
}

#[test]
fn move_defs_2() {
    let mut doc = Document::new();
    let svg = add(&mut doc, 0, ElementKind::Svg);
    let a = add_with_id(&mut doc, svg, ElementKind::Defs, "a");
    let glyph = add(&mut doc, a, ElementKind::Other);
    let b = add_with_id(&mut doc, a, ElementKind::Defs, "b");
    let clip = add(&mut doc, b, ElementKind::ClipPath);
    let c = add_with_id(&mut doc, a, ElementKind::Defs, "c");
    let d = add_with_id(&mut doc, c, ElementKind::Defs, "d");
    let cursor = add(&mut doc, d, ElementKind::Other);
    let filter = add(&mut doc, d, ElementKind::Other);
    let second = add(&mut doc, svg, ElementKind::Defs);
    let radial = add(&mut doc, second, ElementKind::RadialGradient);
    let third = add(&mut doc, svg, ElementKind::Defs);
    group_defs(&mut doc);
    assert_eq!(doc.children(svg), &vec![a]);
    assert_eq!(doc.children(a), &vec![glyph, clip, cursor, filter, radial]);
    for gone in [b, c, d, second, third] {
        assert_eq!(doc.parent(gone), None);
        assert!(doc.children(gone).is_empty());
        assert!(!doc.descendants().contains(&gone));
    }
}

#[test]
fn move_defs_3() {
    let mut doc = Document::new();
    let svg = add(&mut doc, 0, ElementKind::Svg);
    let a = add_with_id(&mut doc, svg, ElementKind::Defs, "a");
    let glyph = add(&mut doc, a, ElementKind::Other);
    let b = add_with_id(&mut doc, a, ElementKind::Defs, "b");
    let rect = add(&mut doc, b, ElementKind::Other);
    group_defs(&mut doc);
    assert_eq!(doc.children(svg), &vec![a]);
    assert_eq!(doc.children(a), &vec![glyph, rect]);
    assert_eq!(doc.parent(b), None);
}

#[test]
fn move_defs_4() {
    let mut doc = Document::new();
    let svg = add(&mut doc, 0, ElementKind::Svg);
    let a = add_with_id(&mut doc, svg, ElementKind::Defs, "a");
    let b = add_with_id(&mut doc, a, ElementKind::Defs, "b");
    let clip = add_with_id(&mut doc, b, ElementKind::ClipPath, "cp");
    let rect = add(&mut doc, clip, ElementKind::Other);
    let line = add(&mut doc, a, ElementKind::Other);
    let animate = add(&mut doc, line, ElementKind::Animate);
    link(&mut doc, line, "clip-path", "cp");
    group_defs(&mut doc);
    assert_eq!(doc.children(svg), &vec![a]);
    assert_eq!(doc.children(a), &vec![line, clip]);
    assert_eq!(doc.children(line), &vec![animate]);
    assert_eq!(doc.children(clip), &vec![rect]);
    assert_eq!(doc.parent(b), None);
}

#[test]
fn move_mask_1() {
    let mut doc = Document::new();
    let svg = add(&mut doc, 0, ElementKind::Svg);
    let g = add(&mut doc, svg, ElementKind::Other);
    doc.set_attribute(g, "fill".to_string(), other("#ff0000"));
    let marker = add_with_id(&mut doc, g, ElementKind::Marker, "m");
    let path = add(&mut doc, marker, ElementKind::Other);
    let user = add(&mut doc, svg, ElementKind::Other);
    link(&mut doc, user, "marker-start", "m");
    group_defs(&mut doc);
    let defs = doc.children(svg)[0];
    assert_eq!(doc.children(svg), &vec![defs, g, user]);
    assert_eq!(doc.children(defs), &vec![marker]);
    assert!(doc.children(g).is_empty());
    assert_eq!(doc.children(marker), &vec![path]);
    assert_eq!(attr_of(&doc, path, "fill"), Some(other("#ff0000")));
    assert_eq!(attr_of(&doc, g, "fill"), Some(other("#ff0000")));
}

#[test]
fn move_attrs_1() {
    let mut doc = Document::new();
    let svg = add(&mut doc, 0, ElementKind::Svg);
    let g = add(&mut doc, svg, ElementKind::Other);
    doc.set_attribute(g, "fill".to_string(), other("#ff0000"));
    let marker = add_with_id(&mut doc, g, ElementKind::Marker, "m");
    let first = add(&mut doc, marker, ElementKind::Other);
    let second = add(&mut doc, marker, ElementKind::Other);
    doc.set_attribute(second, "fill".to_string(), other("#00ff00"));
    let user = add(&mut doc, svg, ElementKind::Other);
    link(&mut doc, user, "marker-end", "m");
    group_defs(&mut doc);
    assert_eq!(attr_of(&doc, first, "fill"), Some(other("#ff0000")));
    assert_eq!(attr_of(&doc, second, "fill"), Some(other("#00ff00")));
    assert_eq!(doc.attributes(second).len(), 1);
}

#[test]
fn move_attrs_2() {
    let mut doc = Document::new();
    let svg = add(&mut doc, 0, ElementKind::Svg);
    let gradient = add_with_id(&mut doc, svg, ElementKind::LinearGradient, "lg1");
    let g = add(&mut doc, svg, ElementKind::Other);
    doc.set_attribute(g, "fill".to_string(), AttrValue::FuncLink("lg1".to_string()));
    let marker = add_with_id(&mut doc, g, ElementKind::Marker, "m");
    let path = add(&mut doc, marker, ElementKind::Other);
    link(&mut doc, g, "marker-mid", "m");
    group_defs(&mut doc);
    let defs = doc.children(svg)[0];
    assert_eq!(doc.children(svg), &vec![defs, g]);
    assert_eq!(doc.children(defs), &vec![gradient, marker]);
    assert_eq!(attr_of(&doc, path, "fill"), Some(AttrValue::FuncLink("lg1".to_string())));
    assert_eq!(attr_of(&doc, path, "marker-mid"), Some(AttrValue::Link("m".to_string())));
}

#[test]
fn nearer_ancestor_wins_and_others_are_not_inherited() {
    let mut doc = Document::new();
    let svg = add(&mut doc, 0, ElementKind::Svg);
    doc.set_attribute(svg, "fill".to_string(), other("blue"));
    doc.set_attribute(svg, "stroke".to_string(), other("black"));
    doc.set_attribute(svg, "opacity".to_string(), AttrValue::Number("0.5".to_string()));
    doc.set_attribute(svg, "width".to_string(), other("10"));
    let g = add(&mut doc, svg, ElementKind::Other);
    doc.set_attribute(g, "fill".to_string(), other("red"));
    let pattern = add_with_id(&mut doc, g, ElementKind::Pattern, "p");
    doc.set_attribute(pattern, "fill".to_string(), other("green"));
    let child = add(&mut doc, pattern, ElementKind::Other);
    let user = add(&mut doc, svg, ElementKind::Other);
    doc.set_attribute(user, "fill".to_string(), AttrValue::FuncLink("p".to_string()));
    group_defs(&mut doc);
    assert_eq!(attr_of(&doc, child, "fill"), Some(other("red")));
    assert_eq!(attr_of(&doc, child, "stroke"), Some(other("black")));
    assert_eq!(attr_of(&doc, child, "opacity"), None);
    assert_eq!(attr_of(&doc, child, "width"), None);
    assert_eq!(doc.attributes(child).len(), 2);
    assert_eq!(doc.attributes(child)[0].name, "fill");
    assert_eq!(doc.attributes(child)[1].name, "stroke");
}

#[test]
fn element_of_other_kind_moves_without_resolving() {
    let mut doc = Document::new();
    let svg = add(&mut doc, 0, ElementKind::Svg);
    let g = add(&mut doc, svg, ElementKind::Other);
    doc.set_attribute(g, "fill".to_string(), other("red"));
    let gradient = add_with_id(&mut doc, g, ElementKind::LinearGradient, "lg");
    let stop = add(&mut doc, gradient, ElementKind::Other);
    let user = add(&mut doc, svg, ElementKind::Other);
    doc.set_attribute(user, "fill".to_string(), AttrValue::FuncLink("lg".to_string()));
    group_defs(&mut doc);
    let defs = doc.children(svg)[0];
    assert_eq!(doc.children(defs), &vec![gradient]);
    assert!(doc.attributes(stop).is_empty());
}

#[test]
fn rm_inside_mask_1() {
    let mut doc = Document::new();
    let svg = add(&mut doc, 0, ElementKind::Svg);
    let mask = add_with_id(&mut doc, svg, ElementKind::Mask, "m");
    let gradient = add_with_id(&mut doc, mask, ElementKind::LinearGradient, "lg");
    let rect = add(&mut doc, mask, ElementKind::Other);
    let user = add(&mut doc, svg, ElementKind::Other);
    link(&mut doc, user, "mask", "m");
    doc.set_attribute(user, "fill".to_string(), AttrValue::FuncLink("lg".to_string()));
    group_defs(&mut doc);
    let defs = doc.children(svg)[0];
    assert_eq!(doc.children(svg), &vec![defs, user]);
    assert_eq!(doc.children(defs), &vec![mask]);
    assert_eq!(doc.children(mask), &vec![rect]);
    assert_eq!(doc.parent(gradient), None);
    assert!(!doc.descendants().contains(&gradient));
}

#[test]
fn nested_containers_flatten_in_document_order() {
    let mut doc = Document::new();
    let svg = add(&mut doc, 0, ElementKind::Svg);
    let a = add(&mut doc, svg, ElementKind::Defs);
    let b = add(&mut doc, a, ElementKind::Defs);
    let c = add(&mut doc, b, ElementKind::Defs);
    let deep = add_with_id(&mut doc, c, ElementKind::ClipPath, "deep");
    let plain_deep = add(&mut doc, c, ElementKind::Other);
    let mid = add_with_id(&mut doc, b, ElementKind::Pattern, "mid");
    let plain = add(&mut doc, a, ElementKind::Other);
    link(&mut doc, plain, "clip-path", "deep");
    doc.set_attribute(plain, "fill".to_string(), AttrValue::FuncLink("mid".to_string()));
    group_defs(&mut doc);
    assert_eq!(doc.children(svg), &vec![a]);
    assert_eq!(doc.children(a), &vec![plain, deep, mid, plain_deep]);
    assert_eq!(doc.parent(b), None);
    assert_eq!(doc.parent(c), None);
    assert_eq!(doc.descendants(), vec![0, svg, a, plain, deep, mid, plain_deep]);
}

#[test]
fn second_run_changes_nothing() {
    let mut doc = Document::new();
    let svg = add(&mut doc, 0, ElementKind::Svg);
    let g = add(&mut doc, svg, ElementKind::Other);
    doc.set_attribute(g, "stroke".to_string(), other("black"));
    let symbol = add_with_id(&mut doc, g, ElementKind::Symbol, "s");
    let inner = add(&mut doc, symbol, ElementKind::Defs);
    let gradient = add_with_id(&mut doc, inner, ElementKind::RadialGradient, "rg");
    let mask = add(&mut doc, g, ElementKind::Mask);
    let hidden = add_with_id(&mut doc, mask, ElementKind::Pattern, "hidden");
    let user = add(&mut doc, svg, ElementKind::Other);
    link(&mut doc, user, "xlink:href", "s");
    doc.set_attribute(user, "fill".to_string(), AttrValue::FuncLink("rg".to_string()));
    doc.set_attribute(user, "stroke".to_string(), AttrValue::FuncLink("hidden".to_string()));
    group_defs(&mut doc);
    let defs = doc.children(svg)[0];
    assert_eq!(doc.children(defs), &vec![symbol, gradient]);
    assert_eq!(doc.parent(hidden), None);
    assert_eq!(doc.parent(inner), None);
    let once = snapshot(&doc);
    group_defs(&mut doc);
    assert_eq!(snapshot(&doc), once);
}

#[test]
fn one_container_after_the_pass() {
    let mut doc = Document::new();
    let svg = add(&mut doc, 0, ElementKind::Svg);
    let g = add(&mut doc, svg, ElementKind::Other);
    let stray = add(&mut doc, g, ElementKind::Defs);
    let kept = add(&mut doc, stray, ElementKind::Other);
    let main = add(&mut doc, svg, ElementKind::Defs);
    group_defs(&mut doc);
    let containers: Vec<usize> = doc
        .descendants()
        .into_iter()
        .filter(|&x| doc.kind(x) == NodeKind::Element(ElementKind::Defs))
        .collect();
    assert_eq!(containers, vec![main]);
    assert_eq!(doc.children(main), &vec![kept]);
    assert_eq!(doc.children(svg), &vec![g, main]);
}

#[test]
fn referenced_root_container_stays() {
    let mut doc = Document::new();
    let svg = add_with_id(&mut doc, 0, ElementKind::Svg, "root");
    let user = add(&mut doc, svg, ElementKind::Other);
    link(&mut doc, user, "xlink:href", "root");
    group_defs(&mut doc);
    let defs = doc.children(svg)[0];
    assert_eq!(doc.parent(svg), Some(0));
    assert_eq!(doc.children(svg), &vec![defs, user]);
    assert!(doc.children(defs).is_empty());
}

#[test]
fn reference_classifier() {
    let mut doc = Document::new();
    let svg = add(&mut doc, 0, ElementKind::Svg);
    let a = add_with_id(&mut doc, svg, ElementKind::Other, "a");
    let b = add_with_id(&mut doc, svg, ElementKind::Other, "b");
    let c = add(&mut doc, svg, ElementKind::Other);
    link(&mut doc, c, "xlink:href", "a");
    doc.set_attribute(c, "title".to_string(), AttrValue::Text("b".to_string()));
    assert!(doc.is_referenced(a));
    assert!(!doc.is_referenced(b));
    assert!(!doc.is_referenced(c));
    doc.detach(c);
    assert!(!doc.is_referenced(a));
}
