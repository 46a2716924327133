use teleology_core::editor_utils::{
    arrange_entries, arrange_keyed_entries, format_size, has_listed_extension, hex_brush_tiles, is_hidden, nation_color,
    province_color, FileKind, ResourceEntry,
};

#[test]
fn file_kind_from_extension() {
    assert_eq!(FileKind::from_path("assets/Tiles.PNG", false), FileKind::Image);
    assert_eq!(FileKind::from_path("music/theme.ogg", false), FileKind::Audio);
    assert_eq!(FileKind::from_path("fonts/a.ttf", false), FileKind::Font);
    assert_eq!(FileKind::from_path("scripts/main.lua", false), FileKind::Script);
    assert_eq!(FileKind::from_path("maps/europe.tmap", false), FileKind::GameMap);
    assert_eq!(FileKind::from_path("ui/hud_prefab.json", false), FileKind::Prefab);
    assert_eq!(FileKind::from_path("data/config.json", false), FileKind::Json);
    assert_eq!(FileKind::from_path("README", false), FileKind::Other);
    assert_eq!(FileKind::from_path("assets/images.png", true), FileKind::Folder);
    assert_eq!(FileKind::from_path(".hidden", false), FileKind::Other);
}

#[test]
fn file_kind_icon_and_color() {
    assert_eq!(FileKind::Folder.icon(), "\u{1F4C1}");
    assert_eq!(FileKind::Other.icon(), "\u{1F4C4}");
    assert_eq!(FileKind::Image.color(), [120, 200, 120, 255]);
    assert_eq!(FileKind::Json.color(), [180, 180, 180, 255]);
}

#[test]
fn format_size_matches_one_decimal_formatting() {
    assert_eq!(format_size(0), "0 B");
    assert_eq!(format_size(1023), "1023 B");
    assert_eq!(format_size(1024), "1.0 KB");
    assert_eq!(format_size(1536), "1.5 KB");
    assert_eq!(format_size(1024 * 1024), "1.0 MB");
    assert_eq!(format_size(5 * 1024 * 1024 * 1024), "5120.0 MB");
    for b in [1100u64, 2047, 10_000, 123_456, 999_999, 1_048_575, 7_340_032, 3_000_000_000, u64::MAX] {
        let expected = if b < 1024 {
            format!("{} B", b)
        } else if b < 1024 * 1024 {
            format!("{:.1} KB", b as f64 / 1024.0)
        } else {
            format!("{:.1} MB", b as f64 / (1024.0 * 1024.0))
        };
        assert_eq!(format_size(b), expected, "bytes = {}", b);
    }
}

#[test]
fn hex_brush_radius_zero_is_the_centre() {
    assert_eq!(hex_brush_tiles(3, 4, 0, (5, 5)), vec![(3, 4)]);
    assert_eq!(hex_brush_tiles(3, 4, 0, (1, 1)), vec![]);
    assert_eq!(hex_brush_tiles(0, 4, 0, (2, 4)), vec![]);
}

#[test]
fn hex_brush_clips_to_bounds() {
    let tiles = hex_brush_tiles(0, 0, 1, (2, 2));
    assert_eq!(tiles, vec![(0, 0), (1, 0), (0, 1), (1, 1)]);
    let all = hex_brush_tiles(5, 5, 1, (10, 10));
    assert_eq!(all.len(), 9);
}

#[test]
fn nation_colors_cycle() {
    assert_eq!(nation_color(0), [80, 80, 80, 255]);
    assert_eq!(nation_color(1), [0x8B, 0x45, 0x13, 255]);
    assert_eq!(nation_color(16), [0xFF, 0x69, 0xB4, 255]);
    assert_eq!(nation_color(17), nation_color(1));
}

#[test]
fn province_colors_from_hash() {
    assert_eq!(province_color(0), [0x30, 0x30, 0x30, 255]);
    for raw in [1u32, 2, 77, 65536, u32::MAX] {
        let h = raw.wrapping_mul(2654435761);
        let expected = [
            60 + ((h & 0xFF) as u8 % 180),
            60 + (((h >> 8) & 0xFF) as u8 % 180),
            60 + (((h >> 16) & 0xFF) as u8 % 180),
            255,
        ];
        assert_eq!(province_color(raw), expected);
    }
}

fn entry(name: &str, kind: FileKind) -> ResourceEntry {
    ResourceEntry { path: format!("res/{}", name), name: name.to_string(), kind, size: 0 }
}

#[test]
fn browser_lists_folders_first_then_names_case_insensitively() {
    let entries = vec![
        entry("zeta.png", FileKind::Image),
        entry("Maps", FileKind::Folder),
        entry(".git", FileKind::Folder),
        entry("alpha.json", FileKind::Json),
        entry("audio", FileKind::Folder),
        entry("Beta.ogg", FileKind::Audio),
        entry(".hidden.txt", FileKind::Other),
    ];
    let names: Vec<String> = arrange_entries(entries).into_iter().map(|e| e.name).collect();
    assert_eq!(names, vec!["audio", "Maps", "alpha.json", "Beta.ogg", "zeta.png"]);
}

#[test]
fn browser_keeps_given_order_of_equal_names() {
    let entries = vec![
        ResourceEntry { path: "a/README".to_string(), name: "README".to_string(), kind: FileKind::Other, size: 1 },
        ResourceEntry { path: "b/readme".to_string(), name: "readme".to_string(), kind: FileKind::Other, size: 2 },
        ResourceEntry { path: "c/Readme".to_string(), name: "Readme".to_string(), kind: FileKind::Other, size: 3 },
    ];
    let sizes: Vec<u64> = arrange_entries(entries).into_iter().map(|e| e.size).collect();
    assert_eq!(sizes, vec![1, 2, 3]);
    assert!(arrange_entries(Vec::new()).is_empty());
}

#[test]
fn hidden_names_start_with_a_dot() {
    assert!(is_hidden(".git"));
    assert!(!is_hidden("git"));
    assert!(!is_hidden(""));
}

#[test]
fn resource_extension_filter_ignores_ascii_case() {
    assert!(has_listed_extension("resources/fonts/Main.TTF", &["ttf", "otf"]));
    assert!(has_listed_extension("a/b.otf", &["ttf", "OTF"]));
    assert!(!has_listed_extension("a/b.woff", &["ttf", "otf"]));
    assert!(!has_listed_extension("a/README", &["ttf"]));
    assert!(!has_listed_extension("a/b.ttf", &[]));
}

#[test]
fn keyed_arrangement_orders_by_the_given_keys() {
    let entries = vec![
        entry("b", FileKind::Other),
        entry("a", FileKind::Other),
        entry("dir", FileKind::Folder),
        entry(".x", FileKind::Other),
    ];
    let keys = vec![b"1".to_vec(), b"2".to_vec(), b"9".to_vec(), b"0".to_vec()];
    let names: Vec<String> = arrange_keyed_entries(entries, keys).into_iter().map(|e| e.name).collect();
    assert_eq!(names, vec!["dir", "b", "a"]);
}

#[test]
fn file_kind_from_extension_and_stem() {
    assert_eq!(FileKind::from_parts(Some("PNG"), Some("tiles")), FileKind::Image);
    assert_eq!(FileKind::from_parts(Some("json"), Some("hud_prefab")), FileKind::Prefab);
    assert_eq!(FileKind::from_parts(Some("json"), None), FileKind::Json);
    assert_eq!(FileKind::from_parts(None, Some("README")), FileKind::Other);
    assert_eq!(FileKind::from_parts(Some("Tmap"), None), FileKind::GameMap);
}
