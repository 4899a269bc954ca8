use voxelith::menu::{world_name, Field, Screen};
use voxelith::player::{collision_bound, GameMode};

#[test]
fn game_mode_labels() {
    assert_eq!(GameMode::Survival.label(), "survival");
    assert_eq!(GameMode::Creative.label(), "creative");
}

#[test]
fn world_name_is_trimmed() {
    assert_eq!(world_name("  Mon Monde \t"), "Mon Monde");
    assert_eq!(world_name("Alpha"), "Alpha");
}

#[test]
fn blank_world_name_gets_the_default() {
    assert_eq!(world_name(""), "Nouveau Monde");
    assert_eq!(world_name("   \n "), "Nouveau Monde");
}

#[test]
fn screens_and_fields_compare() {
    assert_eq!(Screen::Main, Screen::Main);
    assert_ne!(Screen::Pause, Screen::InGame);
    assert_ne!(Field::Name, Field::Seed);
    assert_eq!(Field::NoFocus, Field::NoFocus);
}

#[test]
fn no_solid_cell_no_bound() {
    let solid = vec![false; 12];
    assert_eq!(collision_bound((0, 0, 0), (1, 2, 1), 1, true, &solid), None);
}

#[test]
fn bound_is_the_nearest_face_in_the_direction_of_motion() {
    let mut solid = vec![false; 12];
    solid[5] = true;
    solid[10] = true;
    assert_eq!(collision_bound((0, 0, 0), (1, 2, 1), 1, true, &solid), Some(1));
    assert_eq!(collision_bound((0, 0, 0), (1, 2, 1), 1, false, &solid), Some(2));
    assert_eq!(collision_bound((0, 0, 0), (1, 2, 1), 0, true, &solid), Some(0));
    assert_eq!(collision_bound((0, 0, 0), (1, 2, 1), 0, false, &solid), Some(1));
    assert_eq!(collision_bound((0, 0, 0), (1, 2, 1), 2, false, &solid), Some(1));
    assert_eq!(collision_bound((0, 0, 0), (1, 2, 1), 2, true, &solid), Some(0));
}

#[test]
fn bound_in_world_coordinates() {
    let mut solid = vec![false; 2 * 3 * 2];
    solid[0] = true;
    assert_eq!(collision_bound((-5, 70, 9), (-4, 72, 10), 1, false, &solid), Some(70));
    assert_eq!(collision_bound((-5, 70, 9), (-4, 72, 10), 0, true, &solid), Some(-5));
    assert_eq!(collision_bound((-5, 70, 9), (-4, 72, 10), 2, true, &solid), Some(9));
}
