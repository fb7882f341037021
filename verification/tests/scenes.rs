use vehicle_toolkit::craft::components::{Color, Node, NodeType, Part, Point, RodType, Triangle};
use vehicle_toolkit::craft::editor::CraftManager;
use vehicle_toolkit::craft::Craft;
use vehicle_toolkit::scalar::Scalar;
use vehicle_toolkit::scenes::editor::{EditMode, Editor, Selected};
use vehicle_toolkit::scenes::menu::Menu;
use vehicle_toolkit::scenes::simulation::Phase;
use vehicle_toolkit::scenes::{AppMessage, Mode};

fn s(x: f32) -> Scalar {
    Scalar::from_bits(x.to_bits())
}

fn p(x: f32, y: f32) -> Point {
    Point::new(s(x), s(y))
}

fn xy(point: Point) -> (f32, f32) {
    (f32::from_bits(point.x.to_bits()), f32::from_bits(point.y.to_bits()))
}

fn midpoints(craft: &Craft) -> Vec<Point> {
    craft
        .rods
        .iter()
        .map(|rod| {
            let (ax, ay) = xy(craft.nodes[rod.node_a].pos);
            let (bx, by) = xy(craft.nodes[rod.node_b].pos);
            p((ax + bx) * 0.5, (ay + by) * 0.5)
        })
        .collect()
}

fn squared(a: Point, b: Point) -> Scalar {
    let (ax, ay) = xy(a);
    let (bx, by) = xy(b);
    s((ax - bx) * (ax - bx) + (ay - by) * (ay - by))
}

/// What a click at `at` picks, with a reach of 20.
fn pick(editor: &Editor, at: Point) -> Option<(Selected, Scalar)> {
    let mids = midpoints(&editor.manager.c);
    let nodes: Vec<Scalar> = editor.manager.c.nodes.iter().map(|node| squared(node.pos, at)).collect();
    let rods: Vec<Scalar> = mids.iter().map(|mid| squared(*mid, at)).collect();
    let picks: Vec<Scalar> = editor
        .selected_points
        .iter()
        .map(|selected| squared(editor.resolve_selected_point(selected, &mids), at))
        .collect();
    editor.selected(&nodes, &rods, &picks, s(400.0))
}

fn square() -> Editor {
    let mut m = CraftManager { c: Craft::new() };
    m.add_node(p(0.0, 0.0), NodeType::Fixed);
    m.add_node(p(100.0, 0.0), NodeType::Joint);
    m.add_node(p(100.0, 100.0), NodeType::Joint);
    m.add_node(p(0.0, 100.0), NodeType::Joint);
    m.add_rod(0, 1, s(100.0), RodType::SOLID);
    m.add_rod(1, 2, s(100.0), RodType::SOLID);
    m.add_rod(2, 3, s(100.0), RodType::ROPE);
    Editor::edit_craft(m.c)
}

#[test]
fn edit_mode_goes_round() {
    assert_eq!(EditMode::EditNodes.swap(), EditMode::EditRods);
    assert_eq!(EditMode::EditRods.swap(), EditMode::EditTriangles);
    assert_eq!(EditMode::EditTriangles.swap(), EditMode::EditNodes);
}

#[test]
fn plain_parts_hold_what_they_are_given() {
    let green = Color { r: s(0.0), g: s(0.89), b: s(0.19), a: s(1.0) };
    assert_eq!(Triangle::new(1, 2, 3, green), Triangle { node_a: 1, node_b: 2, node_c: 3, color: green });
    assert_eq!(Triangle::new(1, 2, 3, green).color.g, s(0.89));
    let wheel = Part::Wheel { pos: p(1.0, 2.0), prev_pos: p(1.0, 2.0), wheel_radius: s(3.0) };
    assert_ne!(wheel, Part::JetEngine { pos: p(1.0, 2.0), prev_pos: p(1.0, 2.0), angle: s(3.0) });
}

#[test]
fn thresholds_are_squares() {
    assert_eq!(vehicle_toolkit::scenes::editor::THRESHOLD_BITS, (20.0f32 * 20.0).to_bits());
    assert_eq!(vehicle_toolkit::craft::editor::THRESHOLD_BITS, (50.0f32 * 50.0).to_bits());
}

#[test]
fn menu_opens_the_editor_on_request() {
    let mut menu = Menu::new();
    assert!(matches!(menu.update(false), AppMessage::Nothing));
    assert!(matches!(menu.update(true), AppMessage::OpenEditor(None)));
}

#[test]
fn modes_give_way_to_one_another() {
    let mode = Mode::new();
    assert!(matches!(mode, Mode::Menu(_)));
    let mode = mode.switch(AppMessage::Nothing).unwrap();
    assert!(matches!(mode, Mode::Menu(_)));
    let mode = mode.switch(AppMessage::OpenEditor(None)).unwrap();
    let Mode::Editor(editor) = mode else { panic!("no editor") };
    assert_eq!(editor.manager.c.node_count(), 0);
    let mode = Mode::Editor(editor).switch(AppMessage::OpenEditor(Some(square().close()))).unwrap();
    let Mode::Editor(editor) = mode else { panic!("no editor") };
    assert_eq!(editor.manager.c.node_count(), 4);
    assert!(editor.selected_points.is_empty());
    let message = editor.switch_scene();
    let AppMessage::OpenSimulation(ref craft) = message else { panic!("no simulation") };
    assert_eq!(craft.nodes, editor.manager.c.nodes);
    let mode = Mode::Editor(editor).switch(message).unwrap();
    let Mode::Simulation(mut simulation) = mode else { panic!("no simulation") };
    assert_eq!(simulation.phase, Phase::Idle);
    assert_eq!(simulation.gravity, p(0.0, 500.0));
    assert_eq!(simulation.craft.rod_count(), 3);
    simulation.craft.nodes[1].pos = p(7.0, 7.0);
    let message = simulation.switch_scene();
    let AppMessage::OpenEditor(Some(ref craft)) = message else { panic!("no editor") };
    assert_eq!(craft.nodes[1].pos, p(100.0, 0.0));
    let mode = Mode::Simulation(simulation).switch(AppMessage::OpenMenu).unwrap();
    assert!(matches!(mode, Mode::Menu(_)));
    assert!(mode.switch(AppMessage::Quit).is_none());
}

#[test]
fn click_picks_the_nearest_thing_within_reach() {
    let mut editor = square();
    assert_eq!(pick(&editor, p(3.0, 4.0)), Some((Selected::Node(0), s(25.0))));
    assert_eq!(pick(&editor, p(50.0, 3.0)), Some((Selected::Rod(0), s(9.0))));
    assert_eq!(pick(&editor, p(50.0, 50.0)), None);
    // Equally near a node and the midpoint of a rod: the node.
    editor.manager.add_node(p(50.0, 10.0), NodeType::Joint);
    assert_eq!(pick(&editor, p(50.0, 5.0)), Some((Selected::Node(4), s(25.0))));
    assert_eq!(pick(&editor, p(50.0, 4.0)), Some((Selected::Rod(0), s(16.0))));
    // An earlier pick is found again.
    editor.press(p(300.0, 300.0), None);
    assert_eq!(editor.selected_points, vec![Selected::New(p(300.0, 300.0))]);
    assert_eq!(pick(&editor, p(301.0, 300.0)), Some((Selected::Selected(0), s(1.0))));
    assert_eq!(pick(&editor, p(320.0, 300.0)), None);
    editor.press(p(3.0, 4.0), Some(Selected::Node(0)));
    // The pick of node 0 is as near as node 0 itself: the node.
    assert_eq!(pick(&editor, p(0.0, 1.0)), Some((Selected::Node(0), s(1.0))));
}

#[test]
fn single_candidates() {
    let editor = square();
    let far = |xs: &[f32]| xs.iter().map(|x| s(*x)).collect::<Vec<Scalar>>();
    assert_eq!(editor.selected_node(&far(&[9.0, 4.0, 1.0, 4.0]), s(400.0)), Some((Selected::Node(2), s(1.0))));
    assert_eq!(editor.selected_node(&far(&[900.0, 400.0, 401.0, 400.0]), s(400.0)), None);
    assert_eq!(editor.selected_rod(&far(&[900.0, 399.0, 399.0]), s(400.0)), Some((Selected::Rod(1), s(399.0))));
    assert_eq!(editor.selected_rod(&far(&[900.0, 400.0, 500.0]), s(400.0)), None);
    assert_eq!(editor.selected_select(&[], s(400.0)), None);
    assert_eq!(editor.find_closest_node(&far(&[900.0, 399.0, 16.0, 16.0]), s(400.0)), Some(2));
    assert_eq!(editor.find_closest_node(&far(&[900.0, 400.0, 401.0, 500.0]), s(400.0)), None);
    assert_eq!(Editor::new().selected_node(&[], s(400.0)), None);
}

#[test]
fn picks_resolve_to_places() {
    let mut editor = square();
    let mids = midpoints(&editor.manager.c);
    editor.press(p(5.0, 5.0), None);
    editor.press(p(0.0, 0.0), Some(Selected::Rod(1)));
    editor.press(p(0.0, 0.0), Some(Selected::Selected(1)));
    editor.press(p(0.0, 0.0), Some(Selected::Selected(2)));
    editor.press(p(0.0, 0.0), Some(Selected::Node(3)));
    assert_eq!(editor.resolve_selected_point(&Selected::New(p(1.0, 2.0)), &mids), p(1.0, 2.0));
    assert_eq!(editor.resolve_selected_point(&Selected::Node(2), &mids), p(100.0, 100.0));
    assert_eq!(editor.resolve_selected_point(&Selected::Rod(2), &mids), p(50.0, 100.0));
    assert_eq!(editor.resolve_selected_point(&Selected::Selected(0), &mids), p(5.0, 5.0));
    assert_eq!(editor.resolve_selected_point(&Selected::Selected(3), &mids), p(100.0, 50.0));
    assert_eq!(editor.resolve_selected_point(&Selected::Selected(4), &mids), p(0.0, 100.0));
    assert_eq!(editor.resolve_selected_point(&Selected::Selected(9), &mids), p(0.0, 0.0));
    assert_eq!(editor.resolve_selected_point(&Selected::Node(9), &mids), p(0.0, 0.0));
    // A pick that points at itself, or forward, names nothing.
    editor.selected_points[2] = Selected::Selected(2);
    assert_eq!(editor.resolve_selected_point(&Selected::Selected(3), &mids), p(0.0, 0.0));
    editor.selected_points[2] = Selected::Selected(3);
    assert_eq!(editor.resolve_selected_point(&Selected::Selected(3), &mids), p(0.0, 0.0));
}

#[test]
fn drag_selects_what_is_in_the_box() {
    let mut editor = square();
    editor.drag(p(1.0, 1.0));
    assert_eq!(editor.drag_current, None);
    editor.press(p(110.0, 110.0), None);
    assert_eq!(editor.drag_start, Some(p(110.0, 110.0)));
    editor.drag(p(60.0, 60.0));
    editor.drag(p(40.0, -10.0));
    assert_eq!(editor.drag_start, Some(p(110.0, 110.0)));
    assert_eq!(editor.drag_current, Some(p(40.0, -10.0)));
    let mids = midpoints(&editor.manager.c);
    editor.release(&mids);
    assert_eq!(
        editor.selected_points,
        vec![
            Selected::New(p(110.0, 110.0)),
            Selected::Node(1),
            Selected::Node(2),
            Selected::Rod(0),
            Selected::Rod(1),
            Selected::Rod(2),
        ]
    );
    assert_eq!(editor.drag_start, None);
    assert_eq!(editor.drag_current, None);
    editor.release(&mids);
    assert_eq!(editor.selected_points.len(), 6);
    editor.clear_points();
    editor.select_within_box(p(0.0, 0.0), p(0.0, 100.0), &mids);
    assert_eq!(editor.selected_points, vec![Selected::Node(0), Selected::Node(3)]);
}

#[test]
fn place_nodes_places_one_per_pick() {
    let mut editor = square();
    let mids = midpoints(&editor.manager.c);
    editor.place_nodes(&mids);
    assert_eq!(editor.manager.c.node_count(), 4);
    editor.press(p(7.0, 8.0), None);
    editor.press(p(0.0, 0.0), Some(Selected::Node(2)));
    editor.press(p(0.0, 0.0), Some(Selected::Rod(0)));
    editor.press(p(0.0, 0.0), Some(Selected::Selected(0)));
    editor.press(p(0.0, 0.0), Some(Selected::Node(4)));
    editor.press(p(0.0, 0.0), Some(Selected::Node(40)));
    editor.place_nodes(&mids);
    let placed: Vec<Node> = editor.manager.c.nodes[4..].to_vec();
    assert_eq!(
        placed,
        vec![
            Node::new(p(7.0, 8.0), NodeType::Joint),
            Node::new(p(100.0, 100.0), NodeType::Joint),
            Node::new(p(50.0, 0.0), NodeType::Joint),
            Node::new(p(7.0, 8.0), NodeType::Joint),
        ]
    );
    assert!(editor.selected_points.is_empty());
    assert_eq!(editor.manager.c.rod_count(), 3);
}

#[test]
fn place_rods_links_the_picks_in_order() {
    let mut editor = square();
    let mids = midpoints(&editor.manager.c);
    editor.press(p(200.0, 0.0), None);
    assert!(editor.chain_nodes(&mids).is_empty());
    assert_eq!(editor.manager.c.node_count(), 4);
    editor.link_chain(&[], &[]);
    assert_eq!(editor.selected_points.len(), 1);

    editor.press(p(0.0, 0.0), Some(Selected::Node(1)));
    editor.press(p(0.0, 0.0), Some(Selected::Rod(2)));
    editor.press(p(0.0, 0.0), Some(Selected::Selected(0)));
    editor.press(p(0.0, 0.0), Some(Selected::Rod(7)));
    editor.press(p(0.0, 0.0), Some(Selected::Node(3)));
    let chain = editor.chain_nodes(&mids);
    assert_eq!(chain, vec![Some(4), Some(1), Some(5), Some(4), None, Some(3)]);
    assert_eq!(editor.manager.c.nodes[4], Node::new(p(200.0, 0.0), NodeType::Joint));
    assert_eq!(editor.manager.c.nodes[5], Node::new(p(50.0, 100.0), NodeType::Joint));
    assert_eq!(
        editor.selected_points,
        vec![
            Selected::Node(4),
            Selected::Node(1),
            Selected::Node(5),
            Selected::Selected(0),
            Selected::Rod(7),
            Selected::Node(3),
        ]
    );
    let lengths = vec![s(100.0), s(111.0), s(180.0), s(0.0), s(0.0)];
    editor.link_chain(&chain, &lengths);
    let added: Vec<(usize, usize, Scalar, RodType)> =
        editor.manager.c.rods[3..].iter().map(|rod| (rod.node_a, rod.node_b, rod.length, rod.rod_type)).collect();
    assert_eq!(
        added,
        vec![
            (4, 1, s(100.0), RodType::SOLID),
            (1, 5, s(111.0), RodType::SOLID),
            (5, 4, s(180.0), RodType::SOLID),
        ]
    );
    assert!(editor.selected_points.is_empty());
    assert!(editor.manager.c.is_consistent());
}

#[test]
fn delete_removes_what_is_picked() {
    let mut editor = square();
    editor.delete_selected();
    assert_eq!(editor.manager.c.node_count(), 4);
    editor.press(p(0.0, 0.0), Some(Selected::Rod(0)));
    editor.press(p(9.0, 9.0), None);
    editor.press(p(0.0, 0.0), Some(Selected::Node(2)));
    editor.press(p(0.0, 0.0), Some(Selected::Selected(0)));
    editor.delete_selected();
    // Rod 0 goes first: rod 2 takes its slot. Node 2 goes next, with the
    // rods at it, and node 3 takes its slot.
    assert_eq!(editor.manager.c.nodes.iter().map(|node| xy(node.pos)).collect::<Vec<_>>(), vec![
        (0.0, 0.0),
        (100.0, 0.0),
        (0.0, 100.0)
    ]);
    assert_eq!(editor.manager.c.rod_count(), 0);
    assert!(editor.selected_points.is_empty());
    assert!(editor.manager.c.is_consistent());

    let mut editor = square();
    editor.press(p(0.0, 0.0), Some(Selected::Node(0)));
    editor.delete_selected();
    let rods: Vec<(usize, usize)> = editor.manager.c.rods.iter().map(|rod| (rod.node_a, rod.node_b)).collect();
    assert_eq!(rods, vec![(1, 2), (2, 0)]);
}

#[test]
fn new_craft_keeps_the_picks() {
    let mut editor = square();
    editor.press(p(1.0, 1.0), Some(Selected::Node(3)));
    editor.new_craft();
    assert_eq!(editor.manager.c.node_count(), 0);
    assert_eq!(editor.manager.c.rod_count(), 0);
    assert_eq!(editor.selected_points, vec![Selected::Node(3)]);
    editor.place_nodes(&[]);
    assert_eq!(editor.manager.c.node_count(), 0);
    let craft = Editor::new().close();
    assert_eq!(craft.node_count(), 0);
}

#[test]
fn crafts_are_assembled_from_consistent_parts_only() {
    let square = square().close();
    let again = Craft::from_parts(square.nodes.clone(), square.rods.clone()).unwrap();
    assert_eq!(again.nodes, square.nodes);
    assert_eq!(again.rods, square.rods);
    assert!(Craft::from_parts(square.nodes[..2].to_vec(), square.rods.clone()).is_none());
    assert!(Craft::from_parts(Vec::new(), Vec::new()).is_some());
    let mut doubled = Craft::from_parts(square.nodes.clone(), [square.rods.clone(), square.rods.clone()].concat()).unwrap();
    doubled.clean_craft();
    assert_eq!(doubled.rods, square.rods);
}
