use bot7685_ext::wplace::color_map::{color_distance, colors_map_vec, find_color_index, find_color_name};

#[test]
fn color_distance_is_squared_euclidean() {
    assert_eq!(color_distance((0, 0, 0), (0, 0, 0)), 0);
    assert_eq!(color_distance((1, 2, 3), (4, 6, 3)), 25);
    assert_eq!(color_distance((255, 255, 255), (0, 0, 0)), 195075);
    assert_eq!(color_distance((10, 0, 0), (0, 0, 0)), color_distance((0, 0, 0), (10, 0, 0)));
}

#[test]
fn palette_has_all_colors() {
    let pal = colors_map_vec();
    assert_eq!(pal.len(), 63);
    assert_eq!(pal[0], ("Black", (0, 0, 0)));
    assert_eq!(pal[30], ("Beige", (248, 178, 119)));
    assert_eq!(pal[31], ("Medium Gray", (170, 170, 170)));
    assert_eq!(pal[62], ("Light Stone", (205, 197, 158)));
}

#[test]
fn transparent_pixel_is_named_transparent() {
    assert_eq!(find_color_name((12, 34, 56, 0)), "Transparent");
    assert_eq!(find_color_name((0, 0, 0, 0)), "Transparent");
}

#[test]
fn exact_palette_colors_keep_their_names() {
    assert_eq!(find_color_name((0, 0, 0, 255)), "Black");
    assert_eq!(find_color_name((237, 28, 36, 1)), "Red");
    assert_eq!(find_color_name((205, 197, 158, 200)), "Light Stone");
    let pal = colors_map_vec();
    for (i, (name, rgb)) in pal.iter().enumerate() {
        assert_eq!(find_color_index(&pal, *rgb), i);
        assert_eq!(find_color_name((rgb.0, rgb.1, rgb.2, 255)), *name);
    }
}

#[test]
fn other_colors_take_the_nearest_name() {
    assert_eq!(find_color_name((1, 1, 1, 255)), "Black");
    assert_eq!(find_color_name((254, 254, 254, 255)), "White");
    assert_eq!(find_color_name((236, 30, 37, 255)), "Red");
}

#[test]
fn ties_go_to_the_first_palette_entry() {
    let pal = vec![("A", (10, 0, 0)), ("B", (0, 10, 0)), ("C", (0, 0, 10))];
    assert_eq!(find_color_index(&pal, (0, 0, 0)), 0);
    assert_eq!(find_color_index(&pal, (0, 10, 10)), 1);
}
