use vehicle_toolkit::settings::{Action, Key, KeyBinds};

#[test]
fn default_bindings() {
    let binds = KeyBinds::default();
    assert_eq!(binds.get_key(Action::ClearPoints), Some(Key::C));
    assert_eq!(binds.get_key(Action::PlaceNodes), Some(Key::N));
    assert_eq!(binds.get_key(Action::PlaceRods), Some(Key::R));
    assert_eq!(binds.get_key(Action::PlaceTriangles), Some(Key::T));
    assert_eq!(binds.get_key(Action::ZoomIn), Some(Key::Z));
    assert_eq!(binds.get_key(Action::ZoomOut), Some(Key::X));
    assert_eq!(binds.get_key(Action::Delete), Some(Key::Backspace));
    assert_eq!(binds.get_key(Action::SwitchScene), Some(Key::Space));
    assert_eq!(binds.get_key(Action::NewCraft), Some(Key::S));
    assert_eq!(binds.get_key(Action::MoveCamUp), Some(Key::Up));
    assert_eq!(binds.get_key(Action::MoveCameDown), Some(Key::Down));
    assert_eq!(binds.get_key(Action::MoveCamLeft), Some(Key::Left));
    assert_eq!(binds.get_key(Action::MoveCamRight), Some(Key::Right));
}

#[test]
fn new_bindings_bind_nothing() {
    let binds = KeyBinds::new();
    assert_eq!(binds.get_key(Action::SwitchScene), None);
    assert_eq!(binds.get_key(Action::Delete), None);
}

#[test]
fn later_binding_replaces_earlier() {
    let mut binds = KeyBinds::new();
    binds.bind(Action::Delete, Key::X);
    binds.bind(Action::ZoomIn, Key::Z);
    assert_eq!(binds.get_key(Action::Delete), Some(Key::X));
    binds.bind(Action::Delete, Key::Backspace);
    assert_eq!(binds.get_key(Action::Delete), Some(Key::Backspace));
    assert_eq!(binds.get_key(Action::ZoomIn), Some(Key::Z));
    assert_eq!(binds.get_key(Action::ZoomOut), None);
}

#[test]
fn any_key_can_be_bound() {
    let mut binds = KeyBinds::default();
    binds.bind(Action::ZoomIn, Key::KpAdd);
    binds.bind(Action::ZoomOut, Key::F12);
    assert_eq!(binds.get_key(Action::ZoomIn), Some(Key::KpAdd));
    assert_eq!(binds.get_key(Action::ZoomOut), Some(Key::F12));
    assert_eq!(binds.get_key(Action::Delete), Some(Key::Backspace));
    assert_eq!(binds.action_to_key.len(), 13);
}
