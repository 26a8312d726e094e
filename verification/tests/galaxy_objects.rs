use tg_space_game::galaxy_objects::{
    create_star_sector_future, delete_sector, delete_sector_futures, delete_sector_systems,
    find_future, fulfill_star_sector_future, generate_star_sector, get_links_for_object_ids,
    get_links_for_objects, get_star_sector_children_futures,
};
use tg_space_game::models::{Error, GalaxyObject, GalaxyObjectType, StarSector, StarSectorFuture,
    StarSystem, ToGalaxyObject};
use tg_space_game::store::Galaxy;

fn generate_root(g: &mut Galaxy, stars: u64) -> StarSector {
    generate_star_sector(g, stars, 1000, None).expect("Error generating star sector")
}

fn generate_root_with_stars(g: &mut Galaxy) -> (StarSector, Vec<StarSystem>) {
    let sector = generate_root(g, 5000);
    let systems = g.star_systems_of_sector(sector.id);
    (sector, systems)
}

fn generate_root_with_futures(g: &mut Galaxy) -> (StarSector, Vec<StarSectorFuture>) {
    let sector = generate_root(g, 200_000);
    let futures = get_star_sector_children_futures(g, &sector)
        .expect("Error loading star sector futures");
    (sector, futures)
}

#[test]
fn generate_star_sector_finishes_without_errors() {
    let mut g = Galaxy::new();
    generate_star_sector(&mut g, 1000, 1000, None).unwrap();
}

#[test]
fn generate_star_sectors_creates_stars() {
    let mut g = Galaxy::new();
    let star_amount: usize = 5; // Less than 10 - threshold

    let (_, systems) = generate_root_with_stars(&mut g);

    assert_eq!(systems.len(), star_amount);
}

#[test]
fn generate_star_sectors_creates_futures() {
    let mut g = Galaxy::new();

    let (_, futures) = generate_root_with_futures(&mut g);

    assert_eq!(futures.len(), 10); // Constant sub_amount
}

#[test]
fn generate_star_sector_creates_futures_can_be_found() {
    let mut g = Galaxy::new();

    let future_id = generate_root_with_futures(&mut g).1[0].id;

    find_future(&g, future_id).expect("Error finding future by id");
}

#[test]
fn fulfill_star_sector_future_finishes_without_errors() {
    let mut g = Galaxy::new();

    let future = generate_root_with_futures(&mut g).1[0];

    fulfill_star_sector_future(&mut g, future.id).expect("Error fulfilling star sector future");
}

#[test]
fn fulfill_star_sector_future_saves_galaxy_object_id() {
    let mut g = Galaxy::new();

    let future = generate_root_with_futures(&mut g).1[0];
    let sector = fulfill_star_sector_future(&mut g, future.id)
        .expect("Error fulfilling star sector future");

    assert_eq!(future.id, sector.id);
}

#[test]
fn delete_sector_with_stars_finishes_without_errors() {
    let mut g = Galaxy::new();

    let (sector, _) = generate_root_with_stars(&mut g);

    delete_sector(&mut g, sector.id).expect("Error deleting sector");
}

#[test]
fn delete_sector_doesnt_delete_other_stars() {
    let mut g = Galaxy::new();

    let (sector_to_delete, _) = generate_root_with_stars(&mut g);
    let (sector_to_stay, systems_to_stay) = generate_root_with_stars(&mut g);

    delete_sector(&mut g, sector_to_delete.id).expect("Error deleting sector");

    let systems_stayed = g.star_systems_of_sector(sector_to_stay.id);

    assert_eq!(systems_to_stay.len(), systems_stayed.len());
}

#[test]
fn delete_sector_conserves_galaxy_object_count() {
    let mut g = Galaxy::new();

    let prior_count = g.galaxy_object_count();

    let (sector, _) = generate_root_with_stars(&mut g);
    delete_sector(&mut g, sector.id).expect("Error deleting sector");

    let posterior_count = g.galaxy_object_count();

    assert_eq!(prior_count, posterior_count);
}

#[test]
fn generate_sector_with_stars_creates_minimum_link_amount() {
    let mut g = Galaxy::new();
    let (_, _) = generate_root_with_stars(&mut g);

    let link_count = g.link_count();

    assert!(link_count >= 4);
}

#[test]
fn generate_sector_with_futures_creates_minimum_link_amount() {
    let mut g = Galaxy::new();
    let (_, _) = generate_root_with_futures(&mut g);

    let link_count = g.link_count();

    assert!(link_count >= 4);
}

#[test]
fn generate_delete_sector_conserves_link_count() {
    let mut g = Galaxy::new();
    let (_, _) = generate_root_with_stars(&mut g);

    let prior_count = g.link_count();

    let (sector, _) = generate_root_with_stars(&mut g);
    delete_sector(&mut g, sector.id).expect("Error deleting sector");

    let posterior_count = g.link_count();

    assert_eq!(prior_count, posterior_count);
}

#[test]
fn get_links_for_objects_returns_generated_links() {
    let mut g = Galaxy::new();
    let star = generate_root_with_stars(&mut g).1[0].clone();

    let _ = &get_links_for_object_ids(&g, vec![star.id])
        .expect("Error getting links for the star")[0];
}

#[test]
fn generated_links_have_their_star_as_destination() {
    let mut g = Galaxy::new();
    let stars = generate_root_with_stars(&mut g).1;

    for s in stars {
        let links = get_links_for_object_ids(&g, vec![s.id])
            .expect("Error getting links for the star");
        for l in links {
            assert!(l.a_id == s.id || l.b_id == s.id);
        }
    }
}

#[test]
fn fulfill_star_sector_future_delegates_links() {
    let mut g = Galaxy::new();

    let future_id = generate_root_with_futures(&mut g).1[0].id;

    fulfill_star_sector_future(&mut g, future_id).expect("Error fulfilling star sector future");

    let links_now = get_links_for_object_ids(&g, vec![future_id])
        .expect("Error getting links for the future");

    for l in links_now {
        assert!(l.a_id != future_id && l.b_id != future_id);
    }
}

#[test]
fn expansion_star_branch_creates_rounded_count_and_no_futures() {
    let mut g = Galaxy::new();
    // 99.4 stars: below the hundred-star cutoff, rounds to 99 systems
    let sector = generate_star_sector(&mut g, 99_400, 1000, None).unwrap();
    let systems = g.star_systems_of_sector(sector.id);
    assert_eq!(systems.len(), 99);
    for y in &systems {
        assert_eq!(y.name, "StarName");
    }
    assert_eq!(
        get_star_sector_children_futures(&g, &sector).unwrap().len(),
        0
    );
    // 1.5 stars round up to two systems
    let small = generate_star_sector(&mut g, 1500, 1000, None).unwrap();
    assert_eq!(g.star_systems_of_sector(small.id).len(), 2);
}

#[test]
fn expansion_future_branch_divides_stars_and_radius() {
    let mut g = Galaxy::new();
    let sector = generate_star_sector(&mut g, 200_000, 1000, None).unwrap();
    let futures = get_star_sector_children_futures(&g, &sector).unwrap();
    assert_eq!(futures.len(), 10);
    for f in &futures {
        assert_eq!(f.stars, 20_000);
        // 1.000 / cbrt(10) in fixed-point thousandths
        assert_eq!(f.radius, 464);
        assert_eq!(f.parent_id, sector.id);
    }
    assert_eq!(g.star_systems_of_sector(sector.id).len(), 0);
}

#[test]
fn expansion_links_stay_inside_batch_with_distinct_ends() {
    let mut g = Galaxy::new();
    let sector = generate_star_sector(&mut g, 5000, 1000, None).unwrap();
    let systems = g.star_systems_of_sector(sector.id);
    let objs: Vec<GalaxyObject> = systems
        .iter()
        .map(|s| GalaxyObject {
            id: s.id,
            obj_type: GalaxyObjectType::System,
        })
        .collect();
    let links = get_links_for_objects(&g, objs).unwrap();
    assert_eq!(links.len(), g.link_count());
    for l in &links {
        assert_ne!(l.a_id, l.b_id);
        assert!(systems.iter().any(|s| s.id == l.a_id));
        assert!(systems.iter().any(|s| s.id == l.b_id));
    }
}

#[test]
fn fulfill_twice_fails_not_found() {
    let mut g = Galaxy::new();
    let future_id = generate_root_with_futures(&mut g).1[0].id;
    fulfill_star_sector_future(&mut g, future_id).unwrap();
    let second = fulfill_star_sector_future(&mut g, future_id);
    assert!(matches!(second, Err(Error::NotFound)));
}

#[test]
fn fulfill_missing_future_fails_not_found() {
    let mut g = Galaxy::new();
    assert!(matches!(
        fulfill_star_sector_future(&mut g, 42),
        Err(Error::NotFound)
    ));
}

#[test]
fn delete_missing_sector_fails_not_found() {
    let mut g = Galaxy::new();
    assert_eq!(delete_sector(&mut g, 7), Err(Error::NotFound));
}

#[test]
fn generate_under_missing_parent_fails_constraint() {
    let mut g = Galaxy::new();
    let r = generate_star_sector(&mut g, 1000, 1000, Some(3));
    assert!(matches!(r, Err(Error::ConstraintViolation)));
    assert_eq!(g.galaxy_object_count(), 0);
}

#[test]
fn create_future_under_missing_parent_fails_constraint() {
    let mut g = Galaxy::new();
    let r = create_star_sector_future(&mut g, 11, 20_000, 1000);
    assert!(matches!(r, Err(Error::ConstraintViolation)));
}

#[test]
fn create_future_then_fulfill_expands_it() {
    let mut g = Galaxy::new();
    let root = generate_star_sector(&mut g, 1000, 1000, None).unwrap();
    let f = create_star_sector_future(&mut g, root.id, 5000, 1000).unwrap();
    assert_eq!(f.parent_id, root.id);
    let sector = fulfill_star_sector_future(&mut g, f.id).unwrap();
    assert_eq!(sector.id, f.id);
    assert_eq!(g.star_systems_of_sector(sector.id).len(), 5);
}

#[test]
fn delete_removes_whole_subtree() {
    let mut g = Galaxy::new();
    let root = generate_star_sector(&mut g, 200_000, 1000, None).unwrap();
    let futures = get_star_sector_children_futures(&g, &root).unwrap();
    // materialize one future so the subtree has a sub-sector with stars
    fulfill_star_sector_future(&mut g, futures[0].id).unwrap();
    delete_sector(&mut g, root.id).unwrap();
    assert_eq!(g.galaxy_object_count(), 0);
    assert_eq!(g.link_count(), 0);
    assert_eq!(g.root_sectors().len(), 0);
}

#[test]
fn delete_sector_futures_removes_only_direct_futures() {
    let mut g = Galaxy::new();
    let (sector, futures) = generate_root_with_futures(&mut g);
    let (other, other_futures) = generate_root_with_futures(&mut g);
    let objects_before = g.galaxy_object_count();

    let removed = delete_sector_futures(&mut g, sector.id).expect("Error deleting futures");

    assert_eq!(removed, futures.len());
    assert_eq!(g.galaxy_object_count(), objects_before - removed);
    assert_eq!(
        get_star_sector_children_futures(&g, &sector).unwrap().len(),
        0
    );
    assert_eq!(
        get_star_sector_children_futures(&g, &other).unwrap().len(),
        other_futures.len()
    );
    for f in &futures {
        let links = get_links_for_object_ids(&g, vec![f.id]).unwrap();
        assert!(links.is_empty());
    }
}

#[test]
fn to_galaxy_object_carries_id_and_kind() {
    let sector = StarSector {
        id: 3,
        parent_id: None,
    };
    let o = sector.to_galaxy_object();
    assert_eq!(o.id, 3);
    assert!(matches!(o.obj_type, GalaxyObjectType::Sector));
    let future = StarSectorFuture {
        id: 4,
        parent_id: 3,
        radius: 1000,
        stars: 5000,
    };
    assert!(matches!(
        future.to_galaxy_object().obj_type,
        GalaxyObjectType::SectorFuture
    ));
    let system = StarSystem {
        id: 5,
        name: "StarName".to_string(),
        sector_id: 3,
    };
    let so = system.to_galaxy_object();
    assert!(matches!(so.obj_type, GalaxyObjectType::System));
    assert_eq!(so.to_galaxy_object(), so);
}

#[test]
fn delete_sector_systems_removes_only_direct_systems() {
    let mut g = Galaxy::new();
    let (sector, systems) = generate_root_with_stars(&mut g);
    let (other, other_systems) = generate_root_with_stars(&mut g);
    let objects_before = g.galaxy_object_count();

    let removed = delete_sector_systems(&mut g, sector.id).expect("Error deleting systems");

    assert_eq!(removed, systems.len());
    assert_eq!(g.galaxy_object_count(), objects_before - removed);
    assert_eq!(g.star_systems_of_sector(sector.id).len(), 0);
    assert_eq!(
        g.star_systems_of_sector(other.id).len(),
        other_systems.len()
    );
    for y in &systems {
        let links = get_links_for_object_ids(&g, vec![y.id]).unwrap();
        assert!(links.is_empty());
    }
}
