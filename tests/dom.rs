use response_body_injection::dom::{
    append, remove_from_parent, Attribute, Dom, ElementFlags, Handle, Node, NodeData, NodeOrText,
    QualName, QuirksMode,
};
use response_body_injection::inject::InjectError;

fn qname(local: &str) -> QualName {
    QualName {
        prefix: None,
        ns: "http://www.w3.org/1999/xhtml".to_string(),
        local: local.to_string(),
    }
}

fn attr(name: &str, value: &str) -> Attribute {
    Attribute { name: qname(name), value: value.to_string() }
}

fn plain() -> ElementFlags {
    ElementFlags { template: false, mathml_annotation_xml_integration_point: false }
}

fn element(dom: &mut Dom, parent: Handle, name: &str) -> Handle {
    let e = dom.create_element(qname(name), vec![], plain());
    dom.append(parent, NodeOrText::AppendNode(e));
    e
}

fn text(dom: &Dom, h: Handle) -> String {
    match &dom.nodes[h].data {
        NodeData::Text { contents } => contents.clone(),
        other => panic!("not a text node: {:?}", other),
    }
}

fn local(dom: &Dom, h: Handle) -> String {
    dom.elem_name(h).local.clone()
}

/// `<html><head></head><body></body></html>`, as a parser builds it.
fn page() -> (Dom, Handle, Handle, Handle) {
    let mut dom = Dom::new();
    let doc = dom.get_document();
    let html = element(&mut dom, doc, "html");
    let head = element(&mut dom, html, "head");
    let body = element(&mut dom, html, "body");
    (dom, html, head, body)
}

#[test]
fn new_node_is_detached() {
    let n = Node::new(NodeData::Comment { contents: "c".to_string() });
    assert!(n.parent.is_none());
    assert!(n.children.is_empty());
}

#[test]
fn default_dom_holds_only_the_document() {
    let dom = Dom::default();
    assert_eq!(dom.nodes.len(), 1);
    assert_eq!(dom.document, 0);
    assert!(matches!(dom.nodes[0].data, NodeData::Document));
    assert!(dom.errors.is_empty());
    assert_eq!(dom.quirks_mode, QuirksMode::NoQuirks);
}

#[test]
fn consecutive_text_is_coalesced() {
    let (mut dom, _, _, body) = page();
    dom.append(body, NodeOrText::AppendText("hello".to_string()));
    dom.append(body, NodeOrText::AppendText(" world".to_string()));
    assert_eq!(dom.nodes[body].children.len(), 1);
    let t = dom.nodes[body].children[0];
    assert_eq!(text(&dom, t), "hello world");
    assert_eq!(dom.nodes[t].parent, Some(body));
}

#[test]
fn text_after_an_element_makes_a_new_node() {
    let (mut dom, _, _, body) = page();
    dom.append(body, NodeOrText::AppendText("a".to_string()));
    let p = element(&mut dom, body, "p");
    dom.append(body, NodeOrText::AppendText("b".to_string()));
    let kids = dom.nodes[body].children.clone();
    assert_eq!(kids.len(), 3);
    assert_eq!(kids[1], p);
    assert_eq!(text(&dom, kids[0]), "a");
    assert_eq!(text(&dom, kids[2]), "b");
}

#[test]
fn free_append_and_remove_from_parent() {
    let (mut dom, _, _, body) = page();
    let c = dom.create_comment("x".to_string());
    let d = dom.create_comment("y".to_string());
    append(&mut dom, body, c);
    append(&mut dom, body, d);
    assert_eq!(dom.nodes[body].children, vec![c, d]);
    remove_from_parent(&mut dom, c);
    assert_eq!(dom.nodes[body].children, vec![d]);
    assert!(dom.nodes[c].parent.is_none());
    remove_from_parent(&mut dom, c);
    assert_eq!(dom.nodes[body].children, vec![d]);
}

#[test]
fn insert_before_sibling_coalesces_with_preceding_text() {
    let (mut dom, _, _, body) = page();
    dom.append(body, NodeOrText::AppendText("a".to_string()));
    let p = element(&mut dom, body, "p");
    dom.append_before_sibling(p, NodeOrText::AppendText("b".to_string()));
    let kids = dom.nodes[body].children.clone();
    assert_eq!(kids.len(), 2);
    assert_eq!(text(&dom, kids[0]), "ab");
    assert_eq!(kids[1], p);
}

#[test]
fn insert_before_first_child_makes_a_text_node() {
    let (mut dom, _, _, body) = page();
    let p = element(&mut dom, body, "p");
    dom.append_before_sibling(p, NodeOrText::AppendText("t".to_string()));
    let kids = dom.nodes[body].children.clone();
    assert_eq!(kids.len(), 2);
    assert_eq!(text(&dom, kids[0]), "t");
    assert_eq!(kids[1], p);
}

#[test]
fn insert_before_sibling_moves_an_attached_node() {
    let (mut dom, _, head, body) = page();
    let a = element(&mut dom, body, "a");
    let b = element(&mut dom, body, "b");
    let c = element(&mut dom, body, "c");
    dom.append_before_sibling(b, NodeOrText::AppendNode(c));
    assert_eq!(dom.nodes[body].children, vec![a, c, b]);
    dom.append_before_sibling(c, NodeOrText::AppendNode(a));
    assert_eq!(dom.nodes[body].children, vec![a, c, b]);
    let m = element(&mut dom, head, "meta");
    dom.append_before_sibling(a, NodeOrText::AppendNode(m));
    assert_eq!(dom.nodes[body].children, vec![m, a, c, b]);
    assert!(dom.nodes[head].children.is_empty());
    assert_eq!(dom.nodes[m].parent, Some(body));
}

#[test]
fn append_based_on_parent_node_picks_the_place() {
    let (mut dom, html, _, body) = page();
    let table = element(&mut dom, body, "table");
    dom.append_based_on_parent_node(table, html, NodeOrText::AppendText("x".to_string()));
    assert_eq!(dom.nodes[body].children.len(), 2);
    assert_eq!(text(&dom, dom.nodes[body].children[0]), "x");
    let loose = dom.create_element(qname("table"), vec![], plain());
    dom.append_based_on_parent_node(loose, body, NodeOrText::AppendText("y".to_string()));
    assert_eq!(dom.nodes[body].children.len(), 3);
    assert_eq!(text(&dom, dom.nodes[body].children[2]), "y");
}

#[test]
fn reparent_children_moves_all_in_order() {
    let (mut dom, _, head, body) = page();
    let x = element(&mut dom, head, "x");
    let a = element(&mut dom, body, "a");
    let b = element(&mut dom, body, "b");
    dom.reparent_children(body, head);
    assert!(dom.nodes[body].children.is_empty());
    assert_eq!(dom.nodes[head].children, vec![x, a, b]);
    assert_eq!(dom.nodes[a].parent, Some(head));
    assert_eq!(dom.nodes[b].parent, Some(head));
}

#[test]
fn add_attrs_if_missing_keeps_first_seen() {
    let mut dom = Dom::new();
    let e = dom.create_element(qname("div"), vec![attr("id", "one")], plain());
    dom.add_attrs_if_missing(e, vec![attr("id", "two"), attr("class", "c"), attr("lang", "en")]);
    match &dom.nodes[e].data {
        NodeData::Element { attrs, .. } => {
            let got: Vec<(String, String)> =
                attrs.iter().map(|a| (a.name.local.clone(), a.value.clone())).collect();
            assert_eq!(
                got,
                vec![
                    ("id".to_string(), "one".to_string()),
                    ("class".to_string(), "c".to_string()),
                    ("lang".to_string(), "en".to_string()),
                ]
            );
        },
        _ => panic!("not an element"),
    }
}

#[test]
fn template_element_owns_a_document() {
    let mut dom = Dom::new();
    let flags = ElementFlags { template: true, mathml_annotation_xml_integration_point: true };
    let t = dom.create_element(qname("template"), vec![], flags);
    let contents = dom.get_template_contents(t);
    assert!(matches!(dom.nodes[contents].data, NodeData::Document));
    assert!(dom.nodes[contents].parent.is_none());
    assert!(dom.is_mathml_annotation_xml_integration_point(t));
    assert_eq!(local(&dom, t), "template");
}

#[test]
fn doctype_pi_errors_and_quirks() {
    let mut dom = Dom::new();
    dom.append_doctype_to_document("html".to_string(), "".to_string(), "".to_string());
    let doc = dom.get_document();
    assert_eq!(dom.nodes[doc].children.len(), 1);
    let pi = dom.create_pi("xml".to_string(), "v".to_string());
    assert!(dom.nodes[pi].parent.is_none());
    dom.parse_error("bad".to_string());
    dom.set_quirks_mode(QuirksMode::Quirks);
    assert_eq!(dom.errors, vec!["bad".to_string()]);
    assert_eq!(dom.quirks_mode, QuirksMode::Quirks);
    assert!(dom.same_node(pi, pi));
    assert!(!dom.same_node(pi, doc));
}

#[test]
fn find_elements_goes_breadth_first() {
    let (mut dom, _, _, body) = page();
    let outer = element(&mut dom, body, "div");
    let inner = element(&mut dom, outer, "div");
    let second = element(&mut dom, body, "div");
    let found = dom.find_elements(&"div".to_string());
    assert_eq!(found, vec![outer, second, inner]);
    assert!(dom.find_elements(&"span".to_string()).is_empty());
}

#[test]
fn text_fragment_is_injected_into_body() {
    let (mut dom, _, _, body) = page();
    let root = dom.create_document();
    let container = element(&mut dom, root, "html");
    dom.append(container, NodeOrText::AppendText("hello world".to_string()));
    let fragment = dom.extract_fragment(root).unwrap();
    assert!(dom.nodes[container].children.is_empty());
    assert_eq!(dom.inject_fragment(&"body".to_string(), fragment), Ok(Some(body)));
    assert_eq!(dom.nodes[body].children, vec![fragment]);
    assert_eq!(text(&dom, fragment), "hello world");
}

#[test]
fn script_fragment_follows_existing_children() {
    let (mut dom, _, _, body) = page();
    let main = element(&mut dom, body, "main");
    dom.append(main, NodeOrText::AppendText("Hi there!".to_string()));
    let root = dom.create_document();
    let container = element(&mut dom, root, "html");
    let script = dom.create_element(
        qname("script"),
        vec![attr("async", ""), attr("src", "https://www.google-analytics.com/analytics.js")],
        plain(),
    );
    dom.append(container, NodeOrText::AppendNode(script));
    let fragment = dom.extract_fragment(root).unwrap();
    assert_eq!(fragment, script);
    assert_eq!(dom.inject_fragment(&"body".to_string(), fragment), Ok(Some(body)));
    assert_eq!(dom.nodes[body].children, vec![main, script]);
    assert_eq!(dom.nodes[script].parent, Some(body));
}

#[test]
fn missing_target_leaves_the_tree_alone() {
    let (mut dom, html, head, body) = page();
    let frag = dom.create_comment("c".to_string());
    assert_eq!(dom.inject_fragment(&"footer".to_string(), frag), Ok(None));
    assert_eq!(dom.nodes[html].children, vec![head, body]);
    assert!(dom.nodes[body].children.is_empty());
    assert!(dom.nodes[frag].parent.is_none());
}

#[test]
fn several_targets_are_refused() {
    let (mut dom, _, _, body) = page();
    let a = element(&mut dom, body, "section");
    let b = element(&mut dom, body, "section");
    let frag = dom.create_comment("c".to_string());
    assert_eq!(
        dom.inject_fragment(&"section".to_string(), frag),
        Err(InjectError::MultipleTargets)
    );
    assert!(dom.nodes[a].children.is_empty());
    assert!(dom.nodes[b].children.is_empty());
}

#[test]
fn attached_fragment_is_refused() {
    let (mut dom, _, head, _) = page();
    let frag = element(&mut dom, head, "meta");
    assert_eq!(
        dom.inject_fragment(&"body".to_string(), frag),
        Err(InjectError::FragmentAttached)
    );
    assert_eq!(dom.nodes[frag].parent, Some(head));
}

#[test]
fn detached_subtree_is_not_searched() {
    let (mut dom, _, _, body) = page();
    let loose = dom.create_element(qname("body"), vec![], plain());
    let frag = dom.create_comment("c".to_string());
    assert_eq!(dom.inject_fragment(&"body".to_string(), frag), Ok(Some(body)));
    assert!(dom.nodes[loose].children.is_empty());
}

#[test]
fn empty_fragment_is_refused() {
    let mut dom = Dom::new();
    let root = dom.create_document();
    assert_eq!(dom.extract_fragment(root), None);
    let html = element(&mut dom, root, "html");
    assert_eq!(dom.extract_fragment(root), None);
    assert!(dom.nodes[html].parent == Some(root));
}

#[test]
fn getters_report_structure() {
    let (mut dom, html, head, body) = page();
    assert_eq!(dom.children(html), &vec![head, body]);
    assert!(dom.has_parent(body));
    assert!(!dom.has_parent(dom.get_document()));
    let e = dom.create_element(qname("a"), vec![attr("href", "/x")], plain());
    assert!(!dom.has_parent(e));
    assert_eq!(dom.elem_attrs(e).len(), 1);
    assert_eq!(dom.elem_attrs(e)[0].value, "/x");
    assert!(!dom.is_mathml_annotation_xml_integration_point(e));
}

#[test]
fn add_attrs_if_missing_first_incoming_wins() {
    let mut dom = Dom::new();
    let e = dom.create_element(qname("div"), vec![attr("id", "one")], plain());
    dom.add_attrs_if_missing(e, vec![attr("class", "a"), attr("class", "b"), attr("id", "two")]);
    let got: Vec<(String, String)> = dom
        .elem_attrs(e)
        .iter()
        .map(|a| (a.name.local.clone(), a.value.clone()))
        .collect();
    assert_eq!(
        got,
        vec![("id".to_string(), "one".to_string()), ("class".to_string(), "a".to_string())]
    );
}

#[test]
fn appending_never_sets_text_side_by_side() {
    let (mut dom, _, _, body) = page();
    dom.append(body, NodeOrText::AppendText("a".to_string()));
    let c = dom.create_comment("c".to_string());
    dom.append(body, NodeOrText::AppendNode(c));
    dom.append(body, NodeOrText::AppendText("b".to_string()));
    dom.append(body, NodeOrText::AppendText("c".to_string()));
    let kids = dom.children(body).clone();
    assert_eq!(kids.len(), 3);
    assert_eq!(text(&dom, kids[0]), "a");
    assert_eq!(kids[1], c);
    assert_eq!(text(&dom, kids[2]), "bc");
}
