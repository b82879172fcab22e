use astrium::theme::{pick_roles, select_scheme, source_color, theme_roles, Argb};

fn gray(v: u8) -> Argb {
    Argb { alpha: 255, red: v, green: v, blue: v }
}

#[test]
fn roles_follow_scheme_slots() {
    let scheme: Vec<Argb> = (0..49).map(gray).collect();
    let roles = pick_roles(&scheme);
    let reds: Vec<u8> = roles.iter().map(|c| c.red).collect();
    assert_eq!(reds, vec![30, 2, 0, 9, 17, 1, 11, 39, 40, 4, 41, 19, 3, 12, 20, 38]);
}

#[test]
fn light_mode_picks_light_scheme() {
    let light = vec![gray(1)];
    let dark = vec![gray(2)];
    assert_eq!(select_scheme(light.clone(), dark.clone(), "light")[0].red, 1);
    assert_eq!(select_scheme(light.clone(), dark.clone(), "dark")[0].red, 2);
    assert_eq!(select_scheme(light, dark, "Light")[0].red, 2);
}

#[test]
fn theme_roles_come_from_material_scheme() {
    let source = Argb { alpha: 255, red: 0x42, green: 0x85, blue: 0xf4 };
    let dark = theme_roles(source, "dark");
    let light = theme_roles(source, "light");
    assert_eq!(dark.len(), 16);
    assert_eq!(light.len(), 16);
    // a dark surface is darker than a light one
    assert!(dark[0].red < light[0].red);
}

#[test]
fn grey_image_falls_back_to_google_blue() {
    let pixels = vec![gray(128); 400];
    let c = source_color(&pixels);
    assert_eq!((c.red, c.green, c.blue), (66, 133, 244));
    assert_eq!(source_color(&Vec::new()).blue, 244);
}

#[test]
fn vivid_image_gives_its_own_hue() {
    let mut pixels = vec![Argb { alpha: 255, red: 220, green: 20, blue: 30 }; 300];
    pixels.extend(vec![gray(10); 100]);
    let c = source_color(&pixels);
    assert!(c.red > 150 && c.green < 80 && c.blue < 80, "{:?}", c);
}
