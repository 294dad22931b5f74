//! Edge packings round-trip through both integer forms.

use holdem_blueprint::mccfr::edge::Edge;
use holdem_blueprint::mccfr::odds::grid;

fn all_edges() -> Vec<Edge> {
    let mut edges = vec![Edge::Draw, Edge::Fold, Edge::Check, Edge::Call, Edge::Shove];
    for k in 0..10u8 {
        edges.push(Edge::Raise(grid(k)));
    }
    edges
}

#[test]
fn bijective_usize() {
    assert!(all_edges().into_iter().all(|edge| edge == Edge::from_u8(edge.to_u8())));
}

#[test]
fn bijective_u64() {
    assert!(all_edges().into_iter().all(|edge| edge == Edge::from_u64(edge.to_u64())));
}

#[test]
fn edge_predicates() {
    assert!(Edge::Draw.is_chance());
    assert!(!Edge::Draw.is_choice());
    assert!(Edge::Shove.is_shove());
    assert!(Edge::Shove.is_aggro());
    assert!(Edge::Raise(grid(0)).is_raise());
    assert!(Edge::Raise(grid(0)).is_aggro());
    assert!(Edge::Fold.is_choice());
    assert!(!Edge::Call.is_aggro());
}
