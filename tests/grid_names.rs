use vdf_parser::types::{grid_cache_type, library_cache_type, GameStruct, GridInfo};
use vdf_parser::{get_id_from_grid_name, get_info_from_gridname};

fn pair(a: &str, b: &str) -> (String, String) {
    (a.to_string(), b.to_string())
}

#[test]
fn grid_name_with_type_suffix() {
    assert_eq!(get_id_from_grid_name("123_hero.png"), pair("123", "hero"));
    assert_eq!(get_id_from_grid_name("123_logo.png"), pair("123", "logo"));
}

#[test]
fn grid_name_of_a_capsule() {
    assert_eq!(get_id_from_grid_name("440p.jpg"), pair("440", "capsule"));
}

#[test]
fn grid_name_of_a_logo_position() {
    assert_eq!(get_id_from_grid_name("440.json"), pair("440", "logoposition"));
}

#[test]
fn grid_name_of_a_wide_capsule() {
    assert_eq!(get_id_from_grid_name("440.png"), pair("440", "widecapsule"));
}

#[test]
fn cache_grid_names() {
    assert_eq!(get_info_from_gridname("7_icon.ico".to_string()), pair("7", "icon"));
    assert_eq!(get_info_from_gridname("7p.png".to_string()), pair("7", "capsule"));
    assert_eq!(get_info_from_gridname("7.png".to_string()), pair("7", "wide_capsule"));
    assert_eq!(get_info_from_gridname("7.json".to_string()), pair("7", "wide_capsule"));
}

#[test]
fn cache_type_tables() {
    assert_eq!(grid_cache_type(&"wide_capsule".to_string()), Some("Wide Capsule".to_string()));
    assert_eq!(grid_cache_type(&"icon".to_string()), Some("Icon".to_string()));
    assert_eq!(grid_cache_type(&"library_hero".to_string()), None);
    assert_eq!(library_cache_type(&"header".to_string()), Some("Wide Capsule".to_string()));
    assert_eq!(library_cache_type(&"library_header".to_string()), Some("Wide Capsule".to_string()));
    assert_eq!(library_cache_type(&"library_600x900".to_string()), Some("Capsule".to_string()));
    assert_eq!(library_cache_type(&"capsule".to_string()), None);
}

#[test]
fn data_types_compare_by_fields() {
    let a = GameStruct { appid: 10, name: "A".to_string() };
    assert_eq!(a.clone(), a);
    let g = GridInfo {
        icon: String::new(),
        capsule: "c.png".to_string(),
        wideCapsule: String::new(),
        hero: String::new(),
        logo: String::new(),
    };
    assert_eq!(g.clone(), g);
}

use vdf_parser::grid_names::{
    adjust_path, construct_grid_export_name, deconstruct_grid_export_name, get_grid_filename,
    get_import_grid_name,
};

fn s(x: &str) -> String {
    x.to_string()
}

#[test]
fn export_name_splits_into_parts() {
    assert_eq!(
        deconstruct_grid_export_name("steam__440__hero.png"),
        (s("steam"), s("440"), s("hero"), s(".png"))
    );
    assert_eq!(
        deconstruct_grid_export_name("nonsteam__My Game__capsule.jpg"),
        (s("nonsteam"), s("My Game"), s("capsule"), s(".jpg"))
    );
}

#[test]
fn export_name_uses_shortcut_name_for_non_steam_apps() {
    let names = vec![(s("99"), s("My Game"))];
    assert_eq!(
        construct_grid_export_name("99_hero.png", &s("99"), &s("hero"), "nonsteam", &names),
        "nonsteam__My Game__hero.png"
    );
    assert_eq!(
        construct_grid_export_name("99_hero.png", &s("99"), &s("hero"), "steam", &names),
        "steam__99__hero.png"
    );
    assert_eq!(
        construct_grid_export_name("7p.png", &s("7"), &s("capsule"), "nonsteam", &names),
        "nonsteam__7__capsule.png"
    );
}

#[test]
fn import_name_of_an_export() {
    let ids = vec![(s("My Game"), s("99"))];
    assert_eq!(
        get_import_grid_name("nonsteam__My Game__capsule.jpg", &ids),
        Some((s("nonsteam"), s("99"), s("99p.jpg")))
    );
    assert_eq!(
        get_import_grid_name("steam__440__hero.png", &ids),
        Some((s("steam"), s("440"), s("440_hero.png")))
    );
    assert_eq!(
        get_import_grid_name("steam__440__widecapsule.png", &ids),
        Some((s("steam"), s("440"), s("440.png")))
    );
    assert_eq!(get_import_grid_name("steam__440__banner.png", &ids), None);
}

#[test]
fn import_name_of_a_plain_file() {
    assert_eq!(get_import_grid_name("440_hero.png", &vec![]), Some((s(""), s("440_hero"), s("440_hero.png"))));
}

#[test]
fn grid_filenames_by_type() {
    assert_eq!(get_grid_filename("5", "Capsule", ".png"), Some(s("5p.png")));
    assert_eq!(get_grid_filename("5", "Wide Capsule", ".png"), Some(s("5.png")));
    assert_eq!(get_grid_filename("5", "Hero", ".webp"), Some(s("5_hero.webp")));
    assert_eq!(get_grid_filename("5", "Logo", ".png"), Some(s("5_logo.png")));
    assert_eq!(get_grid_filename("5", "Icon", ".png"), Some(s("5_icon.jpg")));
    assert_eq!(get_grid_filename("5", "Banner", ".png"), None);
}

#[test]
fn adjusted_path_keeps_last_extension() {
    assert_eq!(adjust_path("5", "C:/x.y/img.tar.png", "Hero"), Some(s("5_hero.png")));
    assert_eq!(adjust_path("5", "a.jpg", "Capsule"), Some(s("5p.jpg")));
}

use vdf_parser::grid_names::grid_cache_entry;

#[test]
fn grid_cache_entries() {
    let shortcuts = vec![s("99")];
    assert_eq!(grid_cache_entry("440_hero.png", &shortcuts), Some((s("440"), s("Hero"))));
    assert_eq!(grid_cache_entry("440p.png", &shortcuts), Some((s("440"), s("Capsule"))));
    assert_eq!(grid_cache_entry("440.png", &shortcuts), Some((s("440"), s("Wide Capsule"))));
    assert_eq!(grid_cache_entry("440.json", &shortcuts), None);
    assert_eq!(grid_cache_entry("440_icon.png", &shortcuts), None);
    assert_eq!(grid_cache_entry("99_icon.png", &shortcuts), Some((s("99"), s("Icon"))));
    assert_eq!(grid_cache_entry("440_banner.png", &shortcuts), None);
    assert_eq!(grid_cache_entry("noextension", &shortcuts), None);
    assert_eq!(grid_cache_entry("a.b_c", &shortcuts), None);
}
