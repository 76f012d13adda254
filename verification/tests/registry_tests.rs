use boxlayout::driver::LayoutRequest;
use boxlayout::registry::Geometry;
use boxlayout::registry::Registry;
use boxlayout::style::Dimension;
use boxlayout::style::FlexDirection;
use boxlayout::style::FlexWrap;
use boxlayout::style::PropValue;
use boxlayout::style::GROW_DEFAULT;
use boxlayout::style::SHRINK_DEFAULT;

fn num(v: f32) -> PropValue {
    PropValue::Number(v.to_bits())
}

fn text(s: &str) -> PropValue {
    PropValue::Text(String::from(s))
}

fn bag(entries: Vec<(&str, PropValue)>) -> Vec<(String, PropValue)> {
    entries.into_iter().map(|(k, v)| (String::from(k), v)).collect()
}

/// A deterministic stand-in for the external box-layout solver: fixed
/// sizes are taken as given, automatic sizes are summed along the main
/// axis and maxed across it, children are stacked from the parent's
/// origin.  Nodes arrive children-first, so sizes are ready bottom-up.
fn solve(req: &LayoutRequest) -> Vec<Geometry> {
    let n = req.nodes.len();
    let mut w = vec![0f32; n];
    let mut h = vec![0f32; n];
    for i in 0..n {
        let node = &req.nodes[i];
        let column = node.style.direction == FlexDirection::Column;
        let mut sum_w = 0f32;
        let mut sum_h = 0f32;
        let mut max_w = 0f32;
        let mut max_h = 0f32;
        for &c in &node.children {
            sum_w += w[c];
            sum_h += h[c];
            max_w = max_w.max(w[c]);
            max_h = max_h.max(h[c]);
        }
        w[i] = match node.style.width {
            Dimension::Point(bits) => f32::from_bits(bits),
            Dimension::Auto => {
                if column {
                    max_w
                } else {
                    sum_w
                }
            }
        };
        h[i] = match node.style.height {
            Dimension::Point(bits) => f32::from_bits(bits),
            Dimension::Auto => {
                if column {
                    sum_h
                } else {
                    max_h
                }
            }
        };
    }
    let mut top = vec![0f32; n];
    let mut left = vec![0f32; n];
    for i in (0..n).rev() {
        let node = &req.nodes[i];
        let column = node.style.direction == FlexDirection::Column;
        let mut offset = 0f32;
        for &c in &node.children {
            if column {
                top[c] = offset;
                left[c] = 0f32;
                offset += h[c];
            } else {
                left[c] = offset;
                top[c] = 0f32;
                offset += w[c];
            }
        }
    }
    (0..n)
        .map(|i| Geometry {
            top: top[i].to_bits(),
            left: left[i].to_bits(),
            width: w[i].to_bits(),
            height: h[i].to_bits(),
        })
        .collect()
}

fn run_pass(reg: &mut Registry) {
    if let Some(req) = reg.layout_request() {
        let results = solve(&req);
        reg.apply_layout(&results);
    }
}

#[test]
fn handles_are_unique_and_sequential() {
    let mut reg = Registry::new();
    let h1 = reg.create(&vec![], &bag(vec![])).unwrap();
    let h2 = reg.create(&vec![], &bag(vec![])).unwrap();
    let h3 = reg.create(&vec![h1], &bag(vec![])).unwrap();
    assert_ne!(h1, h2);
    assert_ne!(h1, h3);
    assert_ne!(h2, h3);
    assert_eq!(h1, 0);
    assert_eq!(h2, 1);
    assert_eq!(h3, 2);
}

#[test]
fn empty_bag_resolves_to_defaults() {
    let mut reg = Registry::new();
    let h = reg.create(&vec![], &bag(vec![])).unwrap();
    let style = reg.boxes[h as usize].style;
    assert_eq!(style.direction, FlexDirection::Row);
    assert_eq!(style.wrap, FlexWrap::NoWrap);
    assert_eq!(style.grow, GROW_DEFAULT);
    assert_eq!(style.shrink, SHRINK_DEFAULT);
    assert_eq!(f32::from_bits(style.grow), 0.0);
    assert_eq!(f32::from_bits(style.shrink), 1.0);
    assert_eq!(style.width, Dimension::Auto);
    assert_eq!(style.height, Dimension::Auto);
}

#[test]
fn layout_is_empty_before_any_pass() {
    let mut reg = Registry::new();
    let h1 = reg.create(&vec![], &bag(vec![("width", num(100.0))])).unwrap();
    let h2 = reg.create(&vec![h1], &bag(vec![])).unwrap();
    assert!(reg.layout_of(h1).is_none());
    assert!(reg.layout_of(h2).is_none());
    assert!(reg.layout_of(123456).is_none());
}

#[test]
fn unknown_child_is_silently_skipped() {
    let mut reg = Registry::new();
    let h = reg.create(&vec![9999999], &bag(vec![])).unwrap();
    assert_eq!(reg.boxes[h as usize].children.len(), 0);
}

#[test]
fn duplicate_and_attached_children_are_skipped() {
    let mut reg = Registry::new();
    let h1 = reg.create(&vec![], &bag(vec![])).unwrap();
    let h2 = reg.create(&vec![h1, h1], &bag(vec![])).unwrap();
    assert_eq!(reg.boxes[h2 as usize].children, vec![h1]);
    let h3 = reg.create(&vec![h1], &bag(vec![])).unwrap();
    assert_eq!(reg.boxes[h3 as usize].children.len(), 0);
}

#[test]
fn last_created_box_becomes_root() {
    let mut reg = Registry::new();
    assert!(reg.current_root().is_err());
    let h1 = reg.create(&vec![], &bag(vec![])).unwrap();
    assert_eq!(reg.current_root().unwrap(), h1);
    let h2 = reg.create(&vec![h1], &bag(vec![])).unwrap();
    assert_eq!(reg.current_root().unwrap(), h2);
}

#[test]
fn style_type_mismatch_fails_create() {
    let mut reg = Registry::new();
    assert!(reg.create(&vec![], &bag(vec![("width", text("wide"))])).is_err());
    assert!(reg.create(&vec![], &bag(vec![("flexDirection", num(1.0))])).is_err());
    assert!(reg.create(&vec![], &bag(vec![("flexGrow", PropValue::Other)])).is_err());
    assert_eq!(reg.boxes.len(), 0);
    assert!(reg.current_root().is_err());
}

#[test]
fn unknown_keys_are_ignored_and_text_values_parsed() {
    let mut reg = Registry::new();
    let h = reg
        .create(
            &vec![],
            &bag(vec![
                ("flexDirection", text("column")),
                ("flexWrap", text("wrap")),
                ("somethingElse", num(7.0)),
                ("anotherUnknown", text("x")),
            ]),
        )
        .unwrap();
    let style = reg.boxes[h as usize].style;
    assert_eq!(style.direction, FlexDirection::Column);
    assert_eq!(style.wrap, FlexWrap::Wrap);
    let h2 = reg
        .create(&vec![], &bag(vec![("flexDirection", text("sideways"))]))
        .unwrap();
    assert_eq!(reg.boxes[h2 as usize].style.direction, FlexDirection::Row);
}

#[test]
fn single_box_pass_reports_its_own_size() {
    let mut reg = Registry::new();
    let h1 = reg
        .create(&vec![], &bag(vec![("width", num(100.0)), ("height", num(50.0))]))
        .unwrap();
    run_pass(&mut reg);
    let g = reg.layout_of(h1).unwrap();
    assert_eq!(f32::from_bits(g.top), 0.0);
    assert_eq!(f32::from_bits(g.left), 0.0);
    assert_eq!(f32::from_bits(g.width), 100.0);
    assert_eq!(f32::from_bits(g.height), 50.0);
}

#[test]
fn column_parent_grows_to_hold_its_child() {
    let mut reg = Registry::new();
    let h1 = reg
        .create(&vec![], &bag(vec![("width", num(100.0)), ("height", num(50.0))]))
        .unwrap();
    let h2 = reg
        .create(&vec![h1], &bag(vec![("flexDirection", text("column"))]))
        .unwrap();
    run_pass(&mut reg);
    let g = reg.layout_of(h2).unwrap();
    assert!(f32::from_bits(g.height) >= 50.0);
    let gc = reg.layout_of(h1).unwrap();
    assert_eq!(f32::from_bits(gc.width), 100.0);
}

#[test]
fn second_pass_with_unchanged_tree_reads_back_identically() {
    let mut reg = Registry::new();
    let h1 = reg
        .create(&vec![], &bag(vec![("width", num(100.0)), ("height", num(50.0))]))
        .unwrap();
    let h2 = reg.create(&vec![h1], &bag(vec![("flexDirection", text("column"))])).unwrap();
    let h3 = reg.create(&vec![], &bag(vec![])).unwrap();
    run_pass(&mut reg);
    let first: Vec<Option<Geometry>> =
        vec![reg.layout_of(h1), reg.layout_of(h2), reg.layout_of(h3)];
    run_pass(&mut reg);
    let second: Vec<Option<Geometry>> =
        vec![reg.layout_of(h1), reg.layout_of(h2), reg.layout_of(h3)];
    assert_eq!(first, second);
}

#[test]
fn boxes_outside_the_root_subtree_keep_their_geometry() {
    let mut reg = Registry::new();
    let h1 = reg
        .create(&vec![], &bag(vec![("width", num(100.0)), ("height", num(50.0))]))
        .unwrap();
    run_pass(&mut reg);
    let g1 = reg.layout_of(h1).unwrap();
    let h2 = reg
        .create(&vec![], &bag(vec![("width", num(10.0)), ("height", num(10.0))]))
        .unwrap();
    run_pass(&mut reg);
    assert_eq!(reg.layout_of(h1).unwrap(), g1);
    let g2 = reg.layout_of(h2).unwrap();
    assert_eq!(f32::from_bits(g2.width), 10.0);
}

#[test]
fn empty_registry_pass_is_a_no_op() {
    let mut reg = Registry::new();
    assert!(reg.layout_request().is_none());
    reg.apply_layout(&vec![]);
    assert_eq!(reg.boxes.len(), 0);
}

#[test]
fn mismatched_result_list_changes_nothing() {
    let mut reg = Registry::new();
    let h1 = reg
        .create(&vec![], &bag(vec![("width", num(100.0)), ("height", num(50.0))]))
        .unwrap();
    let bogus = vec![
        Geometry { top: 0, left: 0, width: 0, height: 0 },
        Geometry { top: 0, left: 0, width: 0, height: 0 },
    ];
    reg.apply_layout(&bogus);
    assert!(reg.layout_of(h1).is_none());
}

#[test]
fn request_flattens_children_before_parents() {
    let mut reg = Registry::new();
    let h1 = reg.create(&vec![], &bag(vec![("width", num(30.0))])).unwrap();
    let h2 = reg.create(&vec![], &bag(vec![("width", num(40.0))])).unwrap();
    let root = reg.create(&vec![h1, h2], &bag(vec![])).unwrap();
    assert_eq!(root, 2);
    let req = reg.layout_request().unwrap();
    assert_eq!(req.nodes.len(), 3);
    let root_node = req.nodes.last().unwrap();
    assert_eq!(root_node.children.len(), 2);
    let c0 = root_node.children[0];
    let c1 = root_node.children[1];
    assert_eq!(req.nodes[c0].style.width, Dimension::Point(30f32.to_bits()));
    assert_eq!(req.nodes[c1].style.width, Dimension::Point(40f32.to_bits()));
    assert_eq!(req.avail_width, Dimension::Auto);
}
