use factorio_solver::layout::grid::PlacedEntity;
use factorio_solver::layout::GridPos;
use factorio_solver::prototype::{Direction, EntityCategory};
use factorio_solver::templates::{extract_template, IoRole};

fn entity(
    name: &str,
    category: EntityCategory,
    x: i32,
    y: i32,
    size: (u32, u32),
    direction: Direction,
    recipe: Option<&str>,
) -> PlacedEntity {
    PlacedEntity {
        name: name.to_string(),
        category,
        top_left: GridPos { x, y },
        size,
        direction,
        recipe: recipe.map(|r| r.to_string()),
        filters: vec![],
    }
}

#[test]
fn extract_template_remaps_positions_to_region_origin() {
    let grid = vec![(entity("transport-belt", EntityCategory::Belt, 5, 3, (1, 1), Direction::North, None), None)];
    let t = extract_template(&grid, 3, 1, 8, 5, "remap-test");
    assert_eq!(t.entities.len(), 1);
    assert_eq!(t.entities[0].relative_pos, GridPos { x: 2, y: 2 });
}

#[test]
fn extract_template_width_and_height_equal_region_extents() {
    let t = extract_template(&vec![], 2, 4, 8, 11, "dims-test");
    assert_eq!(t.width, 7);
    assert_eq!(t.height, 8);
}

#[test]
fn extract_template_copies_entity_fields() {
    let grid = vec![
        (
            entity("inserter", EntityCategory::Inserter, 1, 0, (1, 1), Direction::East, None),
            Some("inserter".to_string()),
        ),
        (
            entity(
                "assembling-machine-2",
                EntityCategory::Assembler,
                4,
                0,
                (3, 3),
                Direction::South,
                Some("iron-gear-wheel"),
            ),
            None,
        ),
    ];
    let t = extract_template(&grid, 0, 0, 9, 2, "fields-test");
    assert_eq!(t.entities.len(), 2);

    let inserter = t.entities.iter().find(|e| e.prototype_name == "inserter").expect("inserter not found");
    assert_eq!(inserter.direction, Direction::East);
    assert_eq!(inserter.size, (1, 1));
    assert!(inserter.recipe.is_none());
    assert_eq!(inserter.entity_type.as_deref(), Some("inserter"));
    assert_eq!(inserter.relative_pos, GridPos { x: 1, y: 0 });

    let assembler = t.entities.iter().find(|e| e.prototype_name == "assembling-machine-2").expect("assembler not found");
    assert_eq!(assembler.size, (3, 3));
    assert_eq!(assembler.direction, Direction::South);
    assert_eq!(assembler.recipe.as_deref(), Some("iron-gear-wheel"));
    assert!(assembler.entity_type.is_none());
    assert_eq!(assembler.relative_pos, GridPos { x: 4, y: 0 });
}

#[test]
fn extract_template_empty_region_produces_no_entities() {
    let t = extract_template(&vec![], 0, 0, 3, 3, "empty-region");
    assert!(t.entities.is_empty());
    assert!(t.io_points.is_empty());
    assert_eq!(t.name, "empty-region");
    assert_eq!(t.width, 4);
    assert_eq!(t.height, 4);
}

#[test]
fn an_entity_overlapping_the_region_edge_is_included_in_grid_order() {
    let grid = vec![
        (entity("assembling-machine-2", EntityCategory::Assembler, -2, -2, (3, 3), Direction::North, None), None),
        (entity("transport-belt", EntityCategory::Belt, 10, 0, (1, 1), Direction::North, None), None),
        (entity("transport-belt", EntityCategory::Belt, 3, 3, (1, 1), Direction::West, None), None),
        (entity("transport-belt", EntityCategory::Belt, -1, 0, (1, 1), Direction::North, None), None),
    ];
    let t = extract_template(&grid, 0, 0, 3, 3, "edges");
    let picked: Vec<(&str, GridPos)> =
        t.entities.iter().map(|e| (e.prototype_name.as_str(), e.relative_pos)).collect();
    assert_eq!(
        picked,
        vec![
            ("assembling-machine-2", GridPos { x: -2, y: -2 }),
            ("transport-belt", GridPos { x: 3, y: 3 }),
        ]
    );
}

#[test]
fn io_roles_compare_by_variant() {
    assert_eq!(IoRole::BeltInput, IoRole::BeltInput);
    assert_ne!(IoRole::BeltInput, IoRole::BeltOutput);
    assert_ne!(IoRole::FluidInput, IoRole::FluidOutput);
}
