use tg_space_game::models::{GalaxyObject, GalaxyObjectType, NewStarLink};
use tg_space_game::star_link::generate_links;
use tg_space_game::tools::exp_weights;

#[test]
fn generate_links_creates_required_links() {
    let item1 = GalaxyObject {
        id: 1,
        obj_type: GalaxyObjectType::Sector,
    };
    let item2 = GalaxyObject {
        id: 2,
        obj_type: GalaxyObjectType::Sector,
    };
    let mut elements: Vec<(GalaxyObject, u32)> = vec![(item1, 1), (item2, 1)];
    let result = generate_links(&mut elements, 0usize, false);
    assert_eq!(result.len(), 1);
    assert_eq!(result[0], NewStarLink::new(&item1, &item2));
}

#[test]
fn generate_links_creates_non_unique_links() {
    let item = GalaxyObject {
        id: 1,
        obj_type: GalaxyObjectType::System,
    };
    let mut elements: Vec<(GalaxyObject, u32)> = vec![(item, 1)];
    let result = generate_links(&mut elements, 10usize, false);
    assert_eq!(result.len(), 10);
}

#[test]
fn generate_links_unique_has_distinct_sides() {
    let mut elements: Vec<(GalaxyObject, u32)> = Vec::new();
    for id in 1..6 {
        elements.push((
            GalaxyObject {
                id,
                obj_type: GalaxyObjectType::System,
            },
            1,
        ));
    }
    let result = generate_links(&mut elements, 20usize, true);
    // five nodes allow at most ten distinct undirected edges
    assert!(result.len() >= 4);
    assert!(result.len() <= 10);
    for l in &result {
        assert_ne!(l.a_id, l.b_id);
        // endpoints stay inside the batch
        assert!(1 <= l.a_id && l.a_id <= 5);
        assert!(1 <= l.b_id && l.b_id <= 5);
    }
    // no edge repeats, in the orientation-independent sense
    for i in 0..result.len() {
        for j in 0..i {
            assert_ne!(result[i], result[j]);
        }
    }
}

#[test]
fn generate_links_connects_consecutive_pairs() {
    let mut elements: Vec<(GalaxyObject, u32)> = Vec::new();
    for id in 1..4 {
        elements.push((
            GalaxyObject {
                id,
                obj_type: GalaxyObjectType::SectorFuture,
            },
            1,
        ));
    }
    let result = generate_links(&mut elements, 0usize, false);
    // the connectivity pass alone: one edge per consecutive shuffled pair
    assert_eq!(result.len(), 2);
    assert_eq!(result[0], NewStarLink::new(&elements[0].0, &elements[1].0));
    assert_eq!(result[1], NewStarLink::new(&elements[1].0, &elements[2].0));
}

#[test]
fn new_star_link_equality_is_undirected() {
    let a = GalaxyObject {
        id: 7,
        obj_type: GalaxyObjectType::System,
    };
    let b = GalaxyObject {
        id: 9,
        obj_type: GalaxyObjectType::System,
    };
    let ab = NewStarLink::new(&a, &b);
    let ba = NewStarLink::new(&b, &a);
    assert_eq!(ab, ba);
    assert_eq!(ab.side_a().id, 7);
    assert_eq!(ab.side_b().id, 9);
    let c = GalaxyObject {
        id: 7,
        obj_type: GalaxyObjectType::Sector,
    };
    let cb = NewStarLink::new(&c, &b);
    assert_ne!(ab, cb);
}

#[test]
fn exp_weights_has_requested_length_and_bound() {
    let w = exp_weights(100);
    assert_eq!(w.len(), 100);
    for x in &w {
        assert!(*x <= 0x7fff_ffff);
    }
    let none = exp_weights(0);
    assert!(none.is_empty());
}
