use factorio_solver::layout::lanes::pack_lanes;
use factorio_solver::layout::{drop_lane, BeltAssignment, GridPos, LaneSide};

fn pos(x: i32, y: i32) -> GridPos {
    GridPos { x, y }
}

fn lanes(items: &[(&str, u32)]) -> Vec<(String, u32)> {
    items.iter().map(|(n, l)| (n.to_string(), *l)).collect()
}

#[test]
fn an_inserter_drops_on_the_far_lane() {
    assert_eq!(drop_lane(pos(0, 0), pos(0, 1)), Some(LaneSide::South));
    assert_eq!(drop_lane(pos(0, 2), pos(0, 1)), Some(LaneSide::North));
    assert_eq!(drop_lane(pos(0, 1), pos(1, 1)), Some(LaneSide::East));
    assert_eq!(drop_lane(pos(1, 1), pos(0, 1)), Some(LaneSide::West));
}

#[test]
fn a_long_inserter_two_tiles_away_still_has_a_far_lane() {
    assert_eq!(drop_lane(pos(0, 1), pos(2, 1)), Some(LaneSide::East));
    assert_eq!(drop_lane(pos(2, 1), pos(0, 1)), Some(LaneSide::West));
    assert_eq!(drop_lane(pos(0, 0), pos(0, 2)), Some(LaneSide::South));
}

#[test]
fn non_adjacent_cells_have_no_drop_lane() {
    assert_eq!(drop_lane(pos(0, 0), pos(1, 1)), None, "diagonal");
    assert_eq!(drop_lane(pos(0, 0), pos(2, 3)), None, "distant and diagonal");
    assert_eq!(drop_lane(pos(0, 0), pos(3, 0)), None, "out of any inserter's reach");
    assert_eq!(drop_lane(pos(0, 0), pos(0, 0)), None, "the same cell");
}

#[test]
fn two_inserters_facing_each_other_claim_different_lanes() {
    let belt = pos(0, 1);
    assert_ne!(drop_lane(pos(0, 0), belt), drop_lane(pos(0, 2), belt));
    let belt = pos(1, 0);
    assert_ne!(drop_lane(pos(0, 0), belt), drop_lane(pos(2, 0), belt));
}

#[test]
fn drop_lane_works_at_the_edges_of_the_coordinate_range() {
    assert_eq!(drop_lane(pos(i32::MAX, 0), pos(i32::MAX - 1, 0)), Some(LaneSide::West));
    assert_eq!(drop_lane(pos(i32::MIN, 0), pos(i32::MAX, 0)), None);
}

#[test]
fn two_ingredients_share_one_belt() {
    // 45/s of plate and 135/s of cable on 22.5/s lanes: 2 and 6 lanes.
    let packed = pack_lanes(&lanes(&[("iron-plate", 2), ("copper-cable", 6)]));
    assert!(
        packed.iter().any(|b| b.left.is_some() && b.right.is_some() && b.left != b.right),
        "at least one belt carries two different items"
    );
}

#[test]
fn cable_demand_needs_six_lanes() {
    // 135/s of cable on 22.5/s lanes is six lanes: three belts of its own.
    let packed = pack_lanes(&lanes(&[("copper-cable", 6)]));
    let total: u32 = packed.iter().map(|b| b.lanes_for("copper-cable")).sum();
    assert_eq!(total, 6);
}

#[test]
fn sharing_costs_belts_that_dedicating_both_lanes_saves() {
    let shared = pack_lanes(&lanes(&[("iron-plate", 2), ("copper-cable", 6)]));
    assert_eq!(shared.len(), 6, "cable's 6 lanes set the count, plate rides along");
    let dedicated = pack_lanes(&lanes(&[("copper-cable", 6)]));
    assert_eq!(dedicated.len(), 3, "both lanes to cable halves the belts");
}

#[test]
fn every_shared_belt_carries_every_ingredient() {
    let packed = pack_lanes(&lanes(&[("iron-plate", 2), ("copper-cable", 6)]));
    for belt in &packed {
        let mut items = belt.items();
        items.sort_unstable();
        assert_eq!(items, vec!["copper-cable", "iron-plate"], "{belt:?}");
    }
}

#[test]
fn a_lone_item_with_an_odd_lane_count_leaves_the_last_lane_empty() {
    // 67.5/s on 22.5/s lanes: 3 lanes -> 2 belts, one full, one half.
    let packed = pack_lanes(&lanes(&[("iron-plate", 3)]));
    assert_eq!(packed.len(), 2);
    assert_eq!(packed[0].lanes_for("iron-plate"), 2);
    assert_eq!(packed[1].lanes_for("iron-plate"), 1);
    assert_eq!(packed[1].right, None);
}

#[test]
fn zero_rate_items_do_not_get_a_belt() {
    assert!(pack_lanes(&lanes(&[])).is_empty());
    assert!(pack_lanes(&lanes(&[("iron-plate", 0)])).is_empty());
    let packed = pack_lanes(&lanes(&[("ghost", 0), ("copper-cable", 6)]));
    assert_eq!(packed.len(), 3, "cable alone still gets both lanes");
    assert!(packed.iter().all(|b| !b.items().contains(&"ghost")));
}

#[test]
fn a_slower_belt_needs_more_of_them() {
    // 135/s on 7.5/s lanes is 18 lanes.
    let packed = pack_lanes(&lanes(&[("copper-cable", 18)]));
    assert_eq!(packed.len(), 9, "18 lanes at 7.5/s, both lanes per belt");
}

#[test]
fn every_item_gets_at_least_the_lanes_it_needs() {
    let needs = [("iron-plate", 3), ("copper-cable", 7), ("plastic-bar", 1), ("sulfur", 2)];
    for chunk in needs.chunks(2) {
        let packed = pack_lanes(&lanes(chunk));
        for (item, n) in chunk {
            let got: u32 = packed.iter().map(|b| b.lanes_for(item)).sum();
            assert!(got >= *n, "{item}: {got} < {n}");
        }
    }
}

#[test]
fn belt_assignment_reports_its_items_once_each() {
    let both = BeltAssignment { left: Some("iron-plate".into()), right: Some("iron-plate".into()) };
    assert_eq!(both.items(), vec!["iron-plate"]);
    assert_eq!(both.lanes_for("iron-plate"), 2);
    assert_eq!(both.lanes_for("copper-cable"), 0);
}
