use hello_wasm::evade_duck::{
    apply_gravity, get_duck_co, get_duck_states, set_canvas_dimensions, set_user_input, DuckWorld,
    BOOST_FRAMES, BUFFER_WIDTH, DUCK_SPEED, GRAVITY,
};

fn world() -> DuckWorld {
    let mut w = DuckWorld::new();
    set_canvas_dimensions(&mut w, 800, 600);
    w
}

#[test]
fn the_world_starts_with_a_duck_in_the_air() {
    let w = DuckWorld::new();
    assert_eq!((w.duck_x, w.duck_y), (400, 200));
    assert_eq!((w.boost_frames, w.boost_dir), (0, -1));
    assert_eq!((w.screen_width, w.screen_height, w.input), (0, 0, 1));
    assert!(!w.flap && !w.standing);
    assert_eq!(get_duck_states(&w), 0);
    assert_eq!((DUCK_SPEED, GRAVITY, BUFFER_WIDTH, BOOST_FRAMES), (3, 2, 150, 40));
}

#[test]
fn canvas_dimensions_are_kept() {
    let w = world();
    assert_eq!((w.screen_width, w.screen_height), (800, 600));
    assert_eq!((w.duck_x, w.duck_y), (400, 200));
}

#[test]
fn the_duck_falls_and_glides() {
    let mut w = world();
    assert_eq!(get_duck_co(&mut w), (397 << 16) | 202);
    assert_eq!((w.duck_x, w.duck_y), (397, 202));
    assert!(!w.standing && !w.flap);
    assert_eq!(get_duck_co(&mut w), (394 << 16) | 204);
}

#[test]
fn a_flap_lifts_the_duck() {
    let mut w = world();
    set_user_input(&mut w, 2);
    assert_eq!((w.input, w.boost_frames, w.boost_dir, w.flap), (2, 40, 1, true));
    assert_eq!(get_duck_states(&w), 0b011);
    apply_gravity(&mut w);
    assert_eq!((w.duck_x, w.duck_y, w.boost_frames), (406, 196, 39));
    set_user_input(&mut w, 1);
    assert_eq!((w.input, w.boost_frames, w.boost_dir, w.flap), (1, 40, -1, true));
    assert_eq!(get_duck_states(&w), 0b010);
    apply_gravity(&mut w);
    assert_eq!((w.duck_x, w.duck_y, w.boost_frames), (400, 192, 39));
}

#[test]
fn the_flap_ends_after_forty_frames() {
    let mut w = world();
    set_user_input(&mut w, 2);
    for _ in 0..40 {
        assert!(w.flap);
        apply_gravity(&mut w);
    }
    assert_eq!(w.boost_frames, 0);
    assert!(w.flap);
    apply_gravity(&mut w);
    assert!(!w.flap);
    assert_eq!(get_duck_states(&w) & 0b010, 0);
}

#[test]
fn other_inputs_are_only_noted() {
    let mut w = world();
    set_user_input(&mut w, 3);
    assert_eq!((w.input, w.boost_frames, w.boost_dir, w.flap), (3, 0, -1, false));
    set_user_input(&mut w, 77);
    assert_eq!((w.input, w.boost_frames, w.boost_dir, w.flap), (1, 0, -1, false));
    set_user_input(&mut w, 0);
    assert_eq!(w.input, 1);
}

#[test]
fn the_duck_lands_on_the_ground_line() {
    let mut w = world();
    w.duck_y = 549;
    apply_gravity(&mut w);
    assert_eq!(w.duck_y, 551);
    assert!(!w.standing);
    let x = w.duck_x;
    apply_gravity(&mut w);
    assert_eq!(w.duck_y, 550);
    assert!(w.standing);
    assert_eq!(w.duck_x, x);
    assert_eq!(get_duck_states(&w), 0b100);
}

#[test]
fn the_duck_stays_between_buffer_and_edge() {
    let mut w = world();
    w.duck_x = 100;
    apply_gravity(&mut w);
    assert_eq!(w.duck_x, 150);
    w.duck_x = 900;
    apply_gravity(&mut w);
    assert_eq!(w.duck_x, 800);
    w.duck_x = 800;
    apply_gravity(&mut w);
    assert_eq!(w.duck_x, 800);
}

#[test]
fn on_a_screen_without_size_the_duck_is_pinned() {
    let mut w = DuckWorld::new();
    assert_eq!(get_duck_co(&mut w), 0);
    assert_eq!((w.duck_x, w.duck_y), (0, -50));
    assert!(w.standing);
    assert_eq!(get_duck_co(&mut w), 150 << 16);
    assert_eq!((w.duck_x, w.duck_y), (150, -50));
}

#[test]
fn screen_sizes_are_cut_to_sixteen_bits() {
    let mut w = DuckWorld::new();
    set_canvas_dimensions(&mut w, 65536 + 800, 65536 + 600);
    apply_gravity(&mut w);
    assert_eq!((w.duck_x, w.duck_y), (397, 202));
    set_canvas_dimensions(&mut w, 800, 40000);
    // 40000 is -25536 as a 16-bit number; 50 less is -25586.
    apply_gravity(&mut w);
    assert_eq!(w.duck_y, -25586);
    assert!(w.standing);
}

#[test]
fn coordinates_wrap_around() {
    let mut w = world();
    set_canvas_dimensions(&mut w, 800, 32767 + 50);
    w.duck_y = 32766;
    apply_gravity(&mut w);
    assert_eq!(w.duck_y, -32768);
    assert_eq!(get_duck_co(&mut w) & 0xFFFF, 0);
}
