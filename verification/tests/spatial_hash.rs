use latch::ecs::entity::Entity;
use latch::ecs::query::relation::{RelationBuffer, RelationDelta, RelationType};
use latch::ecs::query::spatial_hash::{SpatialHashConfig, SpatialHashGrid};

fn grid(cell: i32, radius: i32) -> SpatialHashGrid {
    SpatialHashGrid::new(SpatialHashConfig::new(0, cell, radius, RelationType::new(1)))
}

fn pairs(buffer: &RelationBuffer) -> Vec<(u32, u32)> {
    let mut out = Vec::new();
    let mut it = buffer.iter();
    while let Some(r) = it.next() {
        out.push((r.entity_a.index(), r.entity_b.index()));
    }
    out
}

#[test]
fn config_raises_cell_size_and_radius_to_one() {
    let c = SpatialHashConfig::new(3, 0, -5, RelationType::new(2));
    assert_eq!(c.cell_size, 1);
    assert_eq!(c.radius, 1);
    assert_eq!(c.component_id, 3);
    let d = SpatialHashConfig::new(3, 16, 4, RelationType::new(2));
    assert_eq!(d.cell_size, 16);
    assert_eq!(d.radius, 4);
}

#[test]
fn points_in_neighbouring_cells_are_related() {
    let mut g = grid(10, 5);
    let mut buffer = RelationBuffer::new(16, 16);
    let pts = [(Entity::new(0, 0), 9, 9), (Entity::new(1, 0), 11, 12)];
    g.rebuild_from_points(&pts, &mut buffer);
    assert_eq!(pairs(&buffer), vec![(0, 1)]);
    assert_eq!(buffer.relations_for(Entity::new(0, 0))[0].delta, Some(RelationDelta { dx: 2, dy: 3 }));
}

#[test]
fn points_beyond_the_radius_are_not_related() {
    let mut g = grid(10, 5);
    let mut buffer = RelationBuffer::new(16, 16);
    let pts = [(Entity::new(0, 0), 0, 0), (Entity::new(1, 0), 4, 4)];
    g.rebuild_from_points(&pts, &mut buffer);
    assert!(pairs(&buffer).is_empty());
}

#[test]
fn distance_exactly_radius_is_related() {
    let mut g = grid(4, 5);
    let mut buffer = RelationBuffer::new(16, 16);
    let pts = [(Entity::new(0, 0), 0, 0), (Entity::new(1, 0), 5, 0), (Entity::new(2, 0), -3, -4)];
    g.rebuild_from_points(&pts, &mut buffer);
    assert_eq!(pairs(&buffer), vec![(0, 1), (0, 2)]);
}

#[test]
fn points_two_cells_apart_are_never_compared() {
    // Within the radius, but the cells are two apart, so no pair is emitted.
    let mut g = grid(2, 10);
    let mut buffer = RelationBuffer::new(16, 16);
    let pts = [(Entity::new(0, 0), 0, 0), (Entity::new(1, 0), 5, 0)];
    g.rebuild_from_points(&pts, &mut buffer);
    assert!(pairs(&buffer).is_empty());
}

#[test]
fn pairs_follow_point_order_then_cell_order() {
    let mut g = grid(10, 100);
    let mut buffer = RelationBuffer::new(16, 16);
    let pts = [
        (Entity::new(0, 0), 15, 5),
        (Entity::new(1, 0), 5, 5),
        (Entity::new(2, 0), 6, 6),
    ];
    g.rebuild_from_points(&pts, &mut buffer);
    // Point 2 probes its own cell (holding 1) before the cell to its right
    // (holding 0).
    assert_eq!(pairs(&buffer), vec![(0, 1), (1, 2), (0, 2)]);
    assert_eq!(g.metrics().entities, 3);
    assert_eq!(g.metrics().relations, 3);
}

#[test]
fn negative_positions_use_floored_cells() {
    let mut g = grid(10, 3);
    let mut buffer = RelationBuffer::new(16, 16);
    // -1 lies in cell -1 and 1 in cell 0: neighbours, distance 2.
    let pts = [(Entity::new(0, 0), -1, 0), (Entity::new(1, 0), 1, 0)];
    g.rebuild_from_points(&pts, &mut buffer);
    assert_eq!(pairs(&buffer), vec![(0, 1)]);
}

#[test]
fn rebuild_starts_from_an_empty_grid() {
    let mut g = grid(10, 5);
    let mut buffer = RelationBuffer::new(16, 16);
    g.rebuild_from_points(&[(Entity::new(0, 0), 0, 0)], &mut buffer);
    g.rebuild_from_points(&[(Entity::new(1, 0), 1, 1)], &mut buffer);
    assert!(pairs(&buffer).is_empty());
    assert_eq!(g.metrics().total_calls, 2);
    assert_eq!(g.metrics().recycle_calls, 2);
    g.reset_metrics();
    assert_eq!(g.metrics().entities, 0);
    assert_eq!(g.relation_type(), RelationType::new(1));
}

#[test]
fn extreme_coordinates_do_not_overflow() {
    let mut g = grid(1, 5);
    let mut buffer = RelationBuffer::new(16, 16);
    let pts = [
        (Entity::new(0, 0), i32::MAX, i32::MAX),
        (Entity::new(1, 0), i32::MAX - 1, i32::MAX),
        (Entity::new(2, 0), i32::MIN, i32::MIN),
    ];
    g.rebuild_from_points(&pts, &mut buffer);
    assert_eq!(pairs(&buffer), vec![(0, 1)]);
}

#[test]
fn every_near_pair_is_emitted_exactly_once() {
    let mut g = grid(4, 100);
    let mut buffer = RelationBuffer::new(64, 16);
    let mut pts = Vec::new();
    let mut id: u32 = 0;
    for x in 0..3 {
        for y in 0..3 {
            pts.push((Entity::new(id, 0), x * 4 + 1, y * 4 + 1));
            id += 1;
        }
    }
    g.rebuild_from_points(&pts, &mut buffer);
    let mut got = pairs(&buffer);
    assert_eq!(got.len(), 20);
    got.sort();
    got.dedup();
    assert_eq!(got.len(), 20);
    for (a, b) in got {
        assert!(a < b);
    }
}
