use serde_json::{Number, Value};
use vehicle_toolkit::craft::components::{Node, NodeType, Point, Rod, RodType};
use vehicle_toolkit::craft::editor::CraftManager;
use vehicle_toolkit::craft::Craft;
use vehicle_toolkit::scalar::Scalar;

fn s(x: f32) -> Scalar {
    Scalar::from_bits(x.to_bits())
}

fn p(x: f32, y: f32) -> Point {
    Point::new(s(x), s(y))
}

fn number(x: Scalar) -> Value {
    Value::Number(Number::from_f64(f32::from_bits(x.to_bits()) as f64).unwrap())
}

fn scalar(value: &Value) -> Option<Scalar> {
    Some(s(value.as_f64()? as f32))
}

fn point_record(point: Point) -> Value {
    let mut record = serde_json::Map::new();
    record.insert("x".to_string(), number(point.x));
    record.insert("y".to_string(), number(point.y));
    Value::Object(record)
}

fn point(value: &Value) -> Option<Point> {
    Some(Point::new(scalar(value.get("x")?)?, scalar(value.get("y")?)?))
}

fn node_record(node: &Node) -> Value {
    let mut record = serde_json::Map::new();
    record.insert("pos".to_string(), point_record(node.pos));
    record.insert("prev_pos".to_string(), point_record(node.prev_pos));
    let kind = match node.node_type {
        NodeType::Fixed => "Fixed",
        NodeType::Joint => "Joint",
    };
    record.insert("node_type".to_string(), Value::String(kind.to_string()));
    Value::Object(record)
}

fn node(value: &Value) -> Option<Node> {
    let node_type = match value.get("node_type")?.as_str()? {
        "Fixed" => NodeType::Fixed,
        "Joint" => NodeType::Joint,
        _ => return None,
    };
    Some(Node { pos: point(value.get("pos")?)?, prev_pos: point(value.get("prev_pos")?)?, node_type })
}

fn rod_record(rod: &Rod) -> Value {
    let mut record = serde_json::Map::new();
    record.insert("node_a".to_string(), Value::from(rod.node_a as u64));
    record.insert("node_b".to_string(), Value::from(rod.node_b as u64));
    record.insert("length".to_string(), number(rod.length));
    let kind = match rod.rod_type {
        RodType::SOLID => Value::String("SOLID".to_string()),
        RodType::ROPE => Value::String("ROPE".to_string()),
        RodType::SPRING => Value::String("SPRING".to_string()),
        RodType::PISTON { min_length, max_length } => {
            let mut bounds = serde_json::Map::new();
            bounds.insert("min_length".to_string(), number(min_length));
            bounds.insert("max_length".to_string(), number(max_length));
            let mut piston = serde_json::Map::new();
            piston.insert("PISTON".to_string(), Value::Object(bounds));
            Value::Object(piston)
        }
    };
    record.insert("rod_type".to_string(), kind);
    Value::Object(record)
}

fn rod(value: &Value) -> Option<Rod> {
    let kind = value.get("rod_type")?;
    let rod_type = match kind.as_str() {
        Some("SOLID") => RodType::SOLID,
        Some("ROPE") => RodType::ROPE,
        Some("SPRING") => RodType::SPRING,
        Some(_) => return None,
        None => {
            let bounds = kind.get("PISTON")?;
            RodType::PISTON {
                min_length: scalar(bounds.get("min_length")?)?,
                max_length: scalar(bounds.get("max_length")?)?,
            }
        }
    };
    Some(Rod::new(
        value.get("node_a")?.as_u64()? as usize,
        value.get("node_b")?.as_u64()? as usize,
        scalar(value.get("length")?)?,
        rod_type,
    ))
}

fn save(craft: &Craft) -> String {
    let mut record = serde_json::Map::new();
    record.insert("nodes".to_string(), Value::Array(craft.nodes.iter().map(node_record).collect()));
    record.insert("rods".to_string(), Value::Array(craft.rods.iter().map(rod_record).collect()));
    serde_json::to_string(&Value::Object(record)).unwrap()
}

fn load(text: &str) -> Option<Craft> {
    let value: Value = serde_json::from_str(text).ok()?;
    let nodes = value.get("nodes")?.as_array()?.iter().map(node).collect::<Option<Vec<Node>>>()?;
    let rods = value.get("rods")?.as_array()?.iter().map(rod).collect::<Option<Vec<Rod>>>()?;
    Craft::from_parts(nodes, rods)
}

fn sample() -> Craft {
    let mut m = CraftManager { c: Craft::new() };
    m.add_node(p(0.0, -0.0), NodeType::Fixed);
    m.add_node(p(0.1, 100.3), NodeType::Joint);
    m.add_node(p(1.0e-40, 3.4e38), NodeType::Joint);
    m.add_node(p(-17.25, 599.99994), NodeType::Fixed);
    m.c.nodes[1].prev_pos = p(0.099999994, 100.1);
    m.add_rod(0, 1, s(100.30005), RodType::SOLID);
    m.add_rod(1, 2, s(0.33333334), RodType::ROPE);
    m.add_rod(2, 3, s(5.0), RodType::SPRING);
    m.add_rod(3, 0, s(7.0), RodType::PISTON { min_length: s(2.7182817), max_length: s(31.415926) });
    m.add_rod(1, 0, s(1.0), RodType::SOLID);
    m.c
}

#[test]
fn saved_craft_loads_as_it_was() {
    let craft = sample();
    let loaded = load(&save(&craft)).unwrap();
    assert_eq!(loaded.nodes, craft.nodes);
    assert_eq!(loaded.rods, craft.rods);
    assert_eq!(loaded.node_count(), 4);
    assert_eq!(loaded.rod_count(), 5);
    assert_eq!(save(&loaded), save(&craft));
    let empty = load(&save(&Craft::new())).unwrap();
    assert_eq!(empty.node_count(), 0);
    assert_eq!(empty.rod_count(), 0);
}

#[test]
fn malformed_record_is_refused() {
    assert!(load("{").is_none());
    assert!(load("{\"nodes\": []}").is_none());
    assert!(load("{\"nodes\": [], \"rods\": [{\"node_a\": 0, \"node_b\": 0, \"length\": 1.0, \"rod_type\": \"SOLID\"}]}").is_none());
    let mut craft = sample();
    craft.rods[2].node_b = 4;
    assert!(load(&save(&craft)).is_none());
    assert!(load("{\"nodes\": [], \"rods\": []}").is_some());
}
