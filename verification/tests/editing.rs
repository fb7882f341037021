use vehicle_toolkit::craft::components::{Node, NodeType, Point, Rod, RodType};
use vehicle_toolkit::craft::editor::CraftManager;
use vehicle_toolkit::craft::Craft;
use vehicle_toolkit::scalar::Scalar;

fn s(x: f32) -> Scalar {
    Scalar::from_bits(x.to_bits())
}

fn p(x: f32, y: f32) -> Point {
    Point::new(s(x), s(y))
}

fn x_of(node: &Node) -> f32 {
    f32::from_bits(node.pos.x.to_bits())
}

/// A craft of `n` joints in a row, node `i` at `(i, 0)`.
fn row(n: usize) -> CraftManager {
    let mut m = CraftManager { c: Craft::new() };
    for i in 0..n {
        m.add_node(p(i as f32, 0.0), NodeType::Joint);
    }
    m
}

/// The rods as pairs of the first coordinates of their ends.
fn links(m: &CraftManager) -> Vec<(f32, f32)> {
    m.c.rods.iter().map(|rod| (x_of(&m.c.nodes[rod.node_a]), x_of(&m.c.nodes[rod.node_b]))).collect()
}

fn places(m: &CraftManager) -> Vec<f32> {
    m.c.nodes.iter().map(x_of).collect()
}

fn pairs(m: &CraftManager) -> Vec<(usize, usize)> {
    m.c.rods.iter().map(|rod| (rod.node_a, rod.node_b)).collect()
}

#[test]
fn add_node_returns_old_count() {
    let mut m = CraftManager { c: Craft::new() };
    assert_eq!(m.add_node(p(0.0, 0.0), NodeType::Fixed), 0);
    assert_eq!(m.add_node(p(1.0, 2.0), NodeType::Joint), 1);
    assert_eq!(m.c.node_count(), 2);
    assert_eq!(m.c.nodes[1], Node { pos: p(1.0, 2.0), prev_pos: p(1.0, 2.0), node_type: NodeType::Joint });
    assert_eq!(m.c.nodes[0].node_type, NodeType::Fixed);
}

#[test]
fn add_rod_refuses_missing_nodes() {
    let mut m = row(2);
    assert_eq!(m.add_rod(0, 1, s(5.0), RodType::SOLID), Some(0));
    assert_eq!(m.add_rod(0, 2, s(5.0), RodType::SOLID), None);
    assert_eq!(m.add_rod(2, 0, s(5.0), RodType::SOLID), None);
    assert_eq!(m.add_rod(1, 0, s(7.0), RodType::ROPE), Some(1));
    assert_eq!(m.c.rod_count(), 2);
    assert_eq!(m.c.rods[1], Rod { node_a: 1, node_b: 0, length: s(7.0), rod_type: RodType::ROPE });
    assert_eq!(Rod::new(1, 0, s(7.0), RodType::ROPE), m.c.rods[1]);
}

#[test]
fn defaults_are_joint_and_solid() {
    assert_eq!(NodeType::default(), NodeType::Joint);
    assert_eq!(RodType::default(), RodType::SOLID);
    assert_eq!(Node::new(p(3.0, 4.0), NodeType::Fixed).prev_pos, p(3.0, 4.0));
}

#[test]
fn consistency_is_told() {
    let mut m = row(2);
    m.add_rod(0, 1, s(1.0), RodType::SOLID);
    assert!(m.c.is_consistent());
    let broken = Craft {
        nodes: m.c.nodes.clone(),
        rods: vec![Rod { node_a: 0, node_b: 2, length: s(1.0), rod_type: RodType::SOLID }],
    };
    assert!(!broken.is_consistent());
    assert!(Craft::new().is_consistent());
    let copy = m.c.clone();
    assert_eq!(copy.nodes, m.c.nodes);
    assert_eq!(copy.rods, m.c.rods);
}

#[test]
fn remove_node_shifts_and_cascades() {
    let mut m = row(4);
    m.add_rod(0, 1, s(1.0), RodType::SOLID);
    m.add_rod(1, 2, s(1.0), RodType::SOLID);
    m.add_rod(2, 3, s(1.0), RodType::ROPE);
    m.add_rod(3, 0, s(3.0), RodType::SPRING);
    assert_eq!(m.remove_node(1), Some(()));
    assert_eq!(places(&m), vec![0.0, 2.0, 3.0]);
    assert_eq!(pairs(&m), vec![(1, 2), (2, 0)]);
    assert_eq!(links(&m), vec![(2.0, 3.0), (3.0, 0.0)]);
    assert_eq!(m.c.rods[0].rod_type, RodType::ROPE);
    assert!(m.c.is_consistent());
    assert_eq!(m.remove_node(3), None);
    assert_eq!(places(&m), vec![0.0, 2.0, 3.0]);
    assert_eq!(pairs(&m), vec![(1, 2), (2, 0)]);
}

#[test]
fn remove_rod_swaps_in_the_last() {
    let mut m = row(4);
    m.add_rod(0, 1, s(1.0), RodType::SOLID);
    m.add_rod(1, 2, s(1.0), RodType::SOLID);
    m.add_rod(2, 3, s(1.0), RodType::SOLID);
    m.add_rod(3, 0, s(1.0), RodType::SOLID);
    assert_eq!(m.remove_rod(1), Some(()));
    assert_eq!(pairs(&m), vec![(0, 1), (3, 0), (2, 3)]);
    assert_eq!(m.remove_rod(2), Some(()));
    assert_eq!(pairs(&m), vec![(0, 1), (3, 0)]);
    assert_eq!(m.remove_rod(2), None);
    assert_eq!(pairs(&m), vec![(0, 1), (3, 0)]);
    assert_eq!(m.c.node_count(), 4);
}

#[test]
fn remove_nodes_compacts_by_swapping() {
    let mut m = row(6);
    m.remove_nodes(&[1, 2, 5]);
    assert_eq!(places(&m), vec![0.0, 3.0, 4.0]);

    let mut m = row(6);
    m.remove_nodes(&[0]);
    assert_eq!(places(&m), vec![5.0, 1.0, 2.0, 3.0, 4.0]);

    let mut m = row(6);
    m.remove_nodes(&[0, 1, 4, 5]);
    assert_eq!(places(&m), vec![2.0, 3.0]);

    let mut m = row(6);
    m.remove_nodes(&[0, 3]);
    assert_eq!(places(&m), vec![5.0, 1.0, 2.0, 4.0]);

    let mut m = row(3);
    m.remove_nodes(&[0, 1, 2]);
    assert_eq!(m.c.node_count(), 0);

    let mut m = row(0);
    m.remove_nodes(&[0, 1]);
    assert_eq!(m.c.node_count(), 0);
}

#[test]
fn remove_nodes_passes_over_what_is_not_there() {
    let mut m = row(4);
    m.add_rod(0, 3, s(3.0), RodType::SOLID);
    m.remove_nodes(&[9, 4, 1, 1, 100]);
    assert_eq!(places(&m), vec![0.0, 3.0, 2.0]);
    assert_eq!(links(&m), vec![(0.0, 3.0)]);
    m.remove_nodes(&[]);
    assert_eq!(places(&m), vec![0.0, 3.0, 2.0]);
    assert_eq!(pairs(&m), vec![(0, 1)]);
}

#[test]
fn remove_nodes_cascades_and_keeps_links() {
    let mut m = row(6);
    m.add_rod(0, 1, s(1.0), RodType::SOLID);
    m.add_rod(4, 5, s(1.0), RodType::ROPE);
    m.add_rod(3, 5, s(2.0), RodType::SPRING);
    m.add_rod(2, 3, s(1.0), RodType::SOLID);
    m.add_rod(5, 0, s(5.0), RodType::SOLID);
    m.remove_nodes(&[0, 2]);
    assert_eq!(places(&m), vec![5.0, 1.0, 4.0, 3.0]);
    assert_eq!(links(&m), vec![(4.0, 5.0), (3.0, 5.0)]);
    assert_eq!(pairs(&m), vec![(2, 0), (3, 0)]);
    assert_eq!(m.c.rods[0].rod_type, RodType::ROPE);
    assert_eq!(m.c.rods[1].length, s(2.0));
    assert!(m.c.is_consistent());
}

fn permutations(items: &[usize]) -> Vec<Vec<usize>> {
    if items.len() <= 1 {
        return vec![items.to_vec()];
    }
    let mut all = Vec::new();
    for i in 0..items.len() {
        let mut rest = items.to_vec();
        let head = rest.remove(i);
        for mut tail in permutations(&rest) {
            tail.insert(0, head);
            all.push(tail);
        }
    }
    all
}

fn ring(n: usize) -> CraftManager {
    let mut m = row(n);
    for i in 0..n {
        m.add_rod(i, (i + 1) % n, s(1.0), RodType::SOLID);
        m.add_rod(i, (i + 2) % n, s(2.0), RodType::ROPE);
    }
    m
}

#[test]
fn remove_nodes_does_not_depend_on_the_order() {
    for batch in [vec![0, 6, 3], vec![6, 5, 4, 0], vec![1, 2], vec![0, 1, 2, 3, 4, 5, 6]] {
        let mut first = ring(7);
        first.remove_nodes(&batch);
        assert!(first.c.is_consistent());
        for order in permutations(&batch) {
            let mut other = ring(7);
            other.remove_nodes(&order);
            assert_eq!(other.c.nodes, first.c.nodes);
            assert_eq!(other.c.rods, first.c.rods);
        }
    }
}

#[test]
fn remove_nodes_leaves_exactly_the_rest() {
    for mask in 0u32..(1 << 6) {
        let batch: Vec<usize> = (0..6).filter(|i| mask & (1 << i) != 0).collect();
        let mut m = ring(6);
        let before = ring(6);
        m.remove_nodes(&batch);
        assert!(m.c.is_consistent());
        let mut left = places(&m);
        left.sort_by(|a, b| a.total_cmp(b));
        let expected: Vec<f32> = (0..6).filter(|i| !batch.contains(i)).map(|i| i as f32).collect();
        assert_eq!(left, expected);
        let expected_links: Vec<(f32, f32)> = links(&before)
            .into_iter()
            .filter(|(a, b)| !batch.contains(&(*a as usize)) && !batch.contains(&(*b as usize)))
            .collect();
        assert_eq!(links(&m), expected_links);
    }
}

#[test]
fn remove_rods_compacts_by_swapping() {
    let mut m = row(7);
    for i in 0..6 {
        m.add_rod(i, i + 1, s(1.0), RodType::SOLID);
    }
    m.remove_rods(&[1, 2, 5]);
    assert_eq!(pairs(&m), vec![(0, 1), (3, 4), (4, 5)]);
    assert_eq!(m.c.node_count(), 7);
    m.remove_rods(&[7, 0, 0]);
    assert_eq!(pairs(&m), vec![(4, 5), (3, 4)]);
    for order in permutations(&[0, 2, 3, 5]) {
        let mut other = row(7);
        for i in 0..6 {
            other.add_rod(i, i + 1, s(1.0), RodType::SOLID);
        }
        other.remove_rods(&order);
        assert_eq!(pairs(&other), vec![(4, 5), (1, 2)]);
    }
}

#[test]
fn every_edit_keeps_rods_on_live_nodes() {
    let mut m = ring(9);
    assert!(m.c.is_consistent());
    m.remove_node(4);
    assert!(m.c.is_consistent());
    m.add_node(p(20.0, 0.0), NodeType::Fixed);
    assert!(m.c.is_consistent());
    m.add_rod(8, 0, s(1.0), RodType::SOLID);
    assert!(m.c.is_consistent());
    m.remove_rods(&[3, 0, 9]);
    assert!(m.c.is_consistent());
    m.remove_nodes(&[8, 0, 2]);
    assert!(m.c.is_consistent());
    m.remove_rod(0);
    assert!(m.c.is_consistent());
    m.remove_duplicate_rods();
    assert!(m.c.is_consistent());
    m.remove_nodes(&[5, 4, 3, 2, 1, 0]);
    assert!(m.c.is_consistent());
    assert_eq!(m.c.node_count(), 0);
    assert_eq!(m.c.rod_count(), 0);
}

#[test]
fn duplicate_rods_keep_the_first() {
    let mut m = row(4);
    m.add_rod(0, 1, s(1.0), RodType::SOLID);
    m.add_rod(1, 0, s(2.0), RodType::ROPE);
    m.add_rod(1, 2, s(3.0), RodType::SOLID);
    m.add_rod(0, 1, s(4.0), RodType::SPRING);
    m.add_rod(2, 1, s(5.0), RodType::SOLID);
    m.add_rod(3, 3, s(6.0), RodType::SOLID);
    m.add_rod(0, 2, s(7.0), RodType::SOLID);
    m.remove_duplicate_rods();
    assert_eq!(pairs(&m), vec![(0, 1), (1, 2), (3, 3), (0, 2)]);
    assert_eq!(m.c.rods[0].length, s(1.0));
    assert_eq!(m.c.rods[1].length, s(3.0));
    assert_eq!(m.c.node_count(), 4);
}

#[test]
fn removing_duplicate_rods_twice_is_removing_them_once() {
    let mut m = ring(5);
    m.add_rod(1, 0, s(9.0), RodType::SOLID);
    m.add_rod(0, 2, s(9.0), RodType::SOLID);
    m.remove_duplicate_rods();
    let once = m.c.rods.clone();
    m.remove_duplicate_rods();
    assert_eq!(m.c.rods, once);
}

fn squared_distances(m: &CraftManager) -> Vec<Vec<Scalar>> {
    let at = |node: &Node| {
        (f32::from_bits(node.pos.x.to_bits()), f32::from_bits(node.pos.y.to_bits()))
    };
    m.c.nodes
        .iter()
        .map(|a| {
            m.c.nodes
                .iter()
                .map(|b| {
                    let (ax, ay) = at(a);
                    let (bx, by) = at(b);
                    s((ax - bx) * (ax - bx) + (ay - by) * (ay - by))
                })
                .collect()
        })
        .collect()
}

#[test]
fn duplicate_nodes_merge_into_the_first_seen() {
    let mut m = CraftManager { c: Craft::new() };
    for x in [0.0, 1.0, 10.0, 10.5, 0.5, 20.0, 11.4] {
        m.add_node(p(x, 0.0), NodeType::Joint);
    }
    m.add_rod(0, 2, s(10.0), RodType::SOLID);
    m.add_rod(1, 3, s(9.5), RodType::SOLID);
    m.add_rod(4, 5, s(19.5), RodType::ROPE);
    m.add_rod(0, 1, s(1.0), RodType::SOLID);
    m.add_rod(6, 5, s(8.6), RodType::SOLID);
    let distances = squared_distances(&m);
    // Nodes nearer than 1.5 to a kept node are merged: threshold 2.25 on squares.
    m.remove_duplicate_nodes(&distances, s(2.25));
    assert_eq!(places(&m), vec![0.0, 10.0, 20.0]);
    assert_eq!(pairs(&m), vec![(0, 1), (0, 1), (0, 2), (0, 0), (1, 2)]);
    assert_eq!(m.c.rods[2].rod_type, RodType::ROPE);
    assert_eq!(m.c.rods[4].length, s(8.6));
    assert!(m.c.is_consistent());
}

#[test]
fn duplicate_nodes_are_greedy_about_chains() {
    // 0 and 1 are close, 1 and 2 are close, 0 and 2 are not: 2 stays.
    let mut m = CraftManager { c: Craft::new() };
    for x in [0.0, 1.0, 2.0] {
        m.add_node(p(x, 0.0), NodeType::Joint);
    }
    m.add_rod(1, 2, s(1.0), RodType::SOLID);
    let distances = squared_distances(&m);
    m.remove_duplicate_nodes(&distances, s(1.5 * 1.5));
    assert_eq!(places(&m), vec![0.0, 2.0]);
    assert_eq!(pairs(&m), vec![(0, 1)]);

    let mut none = row(0);
    none.remove_duplicate_nodes(&Vec::new(), s(1.0));
    assert_eq!(none.c.node_count(), 0);
}

#[test]
fn nearest_node_is_the_first_least() {
    let m = row(5);
    let far = |xs: [f32; 5]| xs.iter().map(|x| s(*x)).collect::<Vec<Scalar>>();
    assert_eq!(m.select_nearest_node(&far([9.0, 4.0, 1.0, 4.0, 16.0])), Some(2));
    assert_eq!(m.select_nearest_node(&far([9.0, 1.0, 1.0, 1.0, 16.0])), Some(1));
    assert_eq!(m.select_nearest_node(&far([3.0, 3.0, 3.0, 3.0, 3.0])), Some(0));
    assert_eq!(m.select_nearest_node(&far([f32::NAN, 7.0, f32::INFINITY, 8.0, 7.5])), Some(1));
    assert_eq!(m.select_nearest_node(&far([5000.0, 7000.0, 6000.0, 8000.0, 7500.0])), Some(0));
    assert_eq!(row(0).select_nearest_node(&[]), None);
}

#[test]
fn nearest_rod_is_the_first_least_within_reach() {
    let mut m = row(5);
    for i in 0..4 {
        m.add_rod(i, i + 1, s(1.0), RodType::SOLID);
    }
    let far = |xs: [f32; 4]| xs.iter().map(|x| s(*x)).collect::<Vec<Scalar>>();
    assert_eq!(m.select_nearest_rod(&far([9.0, 4.0, 1.0, 4.0]), s(2500.0)), Some(2));
    assert_eq!(m.select_nearest_rod(&far([9.0, 4.0, 1.0, 4.0]), s(1.0)), None);
    assert_eq!(m.select_nearest_rod(&far([9.0, 4.0, 4.0, 4.5]), s(4.5)), Some(1));
    assert_eq!(m.select_nearest_rod(&far([9.0, 4.0, 1.0, 4.0]), s(f32::NAN)), None);
    assert_eq!(m.select_nearest_rod(&far([f32::NAN, 2600.0, 2499.0, 2500.0]), s(2500.0)), Some(2));
    assert_eq!(row(3).select_nearest_rod(&[], s(2500.0)), None);
}

/// Where swap-and-pop leaves the nodes `0..n` when the sorted batch is
/// worked off front to back, each later entry being redirected when its
/// node is moved.
fn swapped_and_popped(n: usize, batch: &[usize]) -> Vec<f32> {
    let mut nodes: Vec<usize> = (0..n).collect();
    let mut pending = batch.to_vec();
    pending.sort_unstable();
    let mut i = 0;
    while i < pending.len() {
        let id = pending[i];
        let last = nodes.len() - 1;
        if id != last {
            nodes.swap(id, last);
            if let Some(at) = pending.iter().skip(i + 1).position(|&x| x == last) {
                pending[i + 1 + at] = id;
            }
        }
        nodes.pop();
        i += 1;
    }
    nodes.into_iter().map(|x| x as f32).collect()
}

#[test]
fn remove_nodes_is_swap_and_pop() {
    for n in 0..8usize {
        for mask in 0u32..(1 << n) {
            let batch: Vec<usize> = (0..n).filter(|i| mask & (1 << i) != 0).collect();
            let mut m = row(n);
            m.remove_nodes(&batch);
            assert_eq!(places(&m), swapped_and_popped(n, &batch), "{n} nodes without {batch:?}");
            let mut rods = row(n + 1);
            for i in 0..n {
                rods.add_rod(i, i + 1, s(i as f32), RodType::SOLID);
            }
            rods.remove_rods(&batch);
            let left: Vec<f32> = rods.c.rods.iter().map(|rod| rod.node_a as f32).collect();
            assert_eq!(left, swapped_and_popped(n, &batch));
        }
    }
}

#[test]
fn remove_nodes_leaves_low_survivors_where_they_are() {
    let mut m = row(9);
    m.remove_nodes(&[7, 2, 4]);
    assert_eq!(m.c.node_count(), 6);
    let left = places(&m);
    for index in [0usize, 1, 3, 5] {
        assert_eq!(left[index], index as f32);
    }
}
