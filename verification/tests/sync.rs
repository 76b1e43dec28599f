use tungsten::lockfile::Lockfile;
use tungsten::sync::{
    add_sheet_entries, base_path, image_entry, is_png_file_name, packs, plan_asset,
    settle_upload, spritesheet_name, table_name, upload_key, AssetSource, CodegenOptions,
    PlacedSprite, Recovery, Settlement, SyncEvent, SyncTally, DRY_RUN_ASSET_ID,
};

#[test]
fn roblox_target_needs_key() {
    assert!(upload_key("roblox", None).is_err());
    assert_eq!(upload_key("roblox", Some("k".to_string())).ok(), Some(Some("k".to_string())));
    assert_eq!(upload_key("local", Some("k".to_string())).ok(), Some(None));
    assert_eq!(upload_key("dry", None).ok(), Some(None));
}

#[test]
fn codegen_defaults() {
    let o = CodegenOptions::resolve(None, None);
    assert_eq!(o.style, "flat");
    assert!(!o.strip_extension);
    let o = CodegenOptions::resolve(Some("nested".to_string()), Some(true));
    assert_eq!(o.style, "nested");
    assert!(o.strip_extension);
}

#[test]
fn base_path_of_patterns() {
    assert_eq!(base_path("assets/**/*.png"), "assets");
    assert_eq!(base_path("assets/icons/*.png"), "assets/icons");
    assert_eq!(base_path("*.png"), "");
    assert_eq!(base_path("assets//"), "assets");
    assert_eq!(base_path("img/a.png"), "img/a.png");
}

#[test]
fn png_file_names() {
    assert!(is_png_file_name(Some("a.png")));
    assert!(is_png_file_name(Some("a.b.png")));
    assert!(is_png_file_name(Some("..png")));
    assert!(!is_png_file_name(Some(".png")));
    assert!(!is_png_file_name(Some("a.PNG")));
    assert!(!is_png_file_name(Some("a.png.bak")));
    assert!(!is_png_file_name(Some("png")));
    assert!(!is_png_file_name(Some("a.jpg")));
    assert!(!is_png_file_name(None));
}

#[test]
fn spritesheet_names() {
    assert_eq!(spritesheet_name("icons", 0), "tungsten_icons_0");
    assert_eq!(spritesheet_name("ui", 12), "tungsten_ui_12");
    assert_eq!(spritesheet_name("x", 1000), "tungsten_x_1000");
}

#[test]
fn asset_planning() {
    let mut l = Lockfile::new();
    assert!(matches!(plan_asset(&l, false, "icons", "h"), AssetSource::DryRun));
    assert!(matches!(plan_asset(&l, true, "icons", "h"), AssetSource::Upload));
    l.set("icons", "h".to_string(), 77);
    assert!(matches!(plan_asset(&l, true, "icons", "h"), AssetSource::Cached(77)));
    assert!(matches!(plan_asset(&l, false, "icons", "h"), AssetSource::DryRun));
    assert!(matches!(plan_asset(&l, true, "ui", "h"), AssetSource::Upload));
    assert_eq!(DRY_RUN_ASSET_ID, 0);
}

#[test]
fn settled_upload_is_cached_next_time() {
    let mut l = Lockfile::new();
    let mut t = SyncTally::new();
    assert!(matches!(
        settle_upload(&mut l, &mut t, "icons", "h".to_string(), Some(9)),
        Settlement::SaveAndUse(9)
    ));
    assert!(t.is_clean());
    assert!(matches!(plan_asset(&l, true, "icons", "h"), AssetSource::Cached(9)));
    assert!(matches!(
        settle_upload(&mut l, &mut t, "icons", "g".to_string(), None),
        Settlement::Skip
    ));
    assert_eq!(t.errors(), 1);
    assert!(!t.is_clean());
    assert_eq!(l.get("icons", "g"), None);
}

#[test]
fn tally_counts_errors() {
    let mut t = SyncTally::new();
    assert_eq!(t.errors(), 0);
    t.note_error();
    t.note_error();
    assert_eq!(t.errors(), 2);
}

#[test]
fn codegen_entries() {
    let e = image_entry("a.png".to_string(), 5, 16, 32);
    assert_eq!(e.name, "a.png");
    assert_eq!(e.asset_id, 5);
    assert_eq!(e.rect_offset, (0, 0));
    assert_eq!(e.rect_size, (16, 32));

    let sprites = vec![
        PlacedSprite { name: "a".to_string(), x: 0, y: 0, width: 8, height: 8 },
        PlacedSprite { name: "b".to_string(), x: 8, y: 0, width: 4, height: 6 },
    ];
    let mut entries = vec![e];
    add_sheet_entries(&mut entries, &sprites, 42);
    assert_eq!(entries.len(), 3);
    assert_eq!(entries[0].name, "a.png");
    assert_eq!(entries[1].name, "a");
    assert_eq!(entries[2].name, "b");
    assert_eq!(entries[2].asset_id, 42);
    assert_eq!(entries[2].rect_offset, (8, 0));
    assert_eq!(entries[2].rect_size, (4, 6));
}

#[test]
fn events_and_recovery() {
    let mut t = SyncTally::new();
    assert!(matches!(t.on_event(SyncEvent::NoPngMatches), Recovery::SkipInput));
    assert_eq!(t.errors(), 0);
    assert!(matches!(t.on_event(SyncEvent::LoadFailed), Recovery::SkipInput));
    assert!(matches!(t.on_event(SyncEvent::PackFailed), Recovery::SkipInput));
    assert!(matches!(t.on_event(SyncEvent::EncodeFailed), Recovery::SkipImage));
    assert!(matches!(t.on_event(SyncEvent::UploadFailed), Recovery::SkipImage));
    assert!(matches!(t.on_event(SyncEvent::SaveFailed), Recovery::Carry));
    assert!(matches!(t.on_event(SyncEvent::CodegenFailed), Recovery::Carry));
    assert_eq!(t.errors(), 6);
}

#[test]
fn packing_is_opt_in() {
    assert!(packs(Some(true)));
    assert!(!packs(Some(false)));
    assert!(!packs(None));
}

#[test]
fn table_names_from_output_paths() {
    assert_eq!(table_name("src/shared/Icons.lua").ok(), Some("Icons".to_string()));
    assert_eq!(table_name("Icons.luau").ok(), Some("Icons".to_string()));
    assert_eq!(table_name("out/archive.tar.gz").ok(), Some("archive.tar".to_string()));
    assert_eq!(table_name("out/Icons").ok(), Some("Icons".to_string()));
    assert_eq!(table_name("out/.hidden").ok(), Some(".hidden".to_string()));
    assert_eq!(table_name("out/Icons.lua/").ok(), Some("Icons".to_string()));
    assert_eq!(table_name("out/Icons.lua/.").ok(), Some("Icons".to_string()));
    assert_eq!(table_name("a.").ok(), Some("a".to_string()));
    assert!(table_name("").is_err());
    assert!(table_name("/").is_err());
    assert!(table_name(".").is_err());
    assert!(table_name("out/..").is_err());
    assert!(table_name("./").is_err());
}

#[test]
fn table_name_agrees_with_std_path() {
    for p in [
        "src/Icons.lua", "a/b/c.d.e", "x/./", "..", "a/../b.c", "//a//", "./a.b", ".a.b", "a/.",
    ] {
        let std_stem = std::path::Path::new(p)
            .file_stem()
            .map(|s| s.to_string_lossy().to_string());
        assert_eq!(table_name(p).ok(), std_stem, "path {:?}", p);
    }
}
