use nomansmanager::bases::{count_types, filter_bases, summarize_bases};
use nomansmanager::export::{base_objects, export_backup_name, export_target, get_base, nmsbase_backup_name, nmsbase_frame};
use nomansmanager::hg::{compress_blocks, decompress_hg, u32le};
use nomansmanager::json::{find_key_path, get_at_exec, set_at, JsonNumber, JsonValue, Seg};
use nomansmanager::keymap::{cache_fresh, map_keys, mapping_list, reverse_map_keys, MappingEntry, MappingList};
use nomansmanager::names::{is_save_container, safe_name, size_display};
use nomansmanager::payload::{build_replacement, can_import, import_backup_name, import_base_at, import_base_now, import_text, normalize_import_value};
use nomansmanager::savefiles::{
    backup_listing, before_recompress_name, big_enough, delete_guard, given_dir, is_backup_source,
    is_save_file_name, managed_listing, manual_backup_name, pick_save_dir, pre_restore_name,
    save_listing, BackupEntry, ManagedEntry, SaveEntry,
};

fn conv(v: &serde_json::Value) -> JsonValue {
    match v {
        serde_json::Value::Null => JsonValue::Null,
        serde_json::Value::Bool(b) => JsonValue::Bool(*b),
        serde_json::Value::Number(n) => {
            if let Some(u) = n.as_u64() {
                JsonValue::Number(JsonNumber::PosInt(u))
            } else if let Some(i) = n.as_i64() {
                JsonValue::Number(JsonNumber::NegInt(i))
            } else {
                JsonValue::Number(JsonNumber::Float(n.as_f64().unwrap().to_bits()))
            }
        }
        serde_json::Value::String(s) => JsonValue::Str(s.clone()),
        serde_json::Value::Array(a) => JsonValue::Array(a.iter().map(conv).collect()),
        serde_json::Value::Object(m) => JsonValue::Object(m.iter().map(|(k, v)| (k.clone(), conv(v))).collect()),
    }
}

fn j(text: &str) -> JsonValue {
    conv(&serde_json::from_str::<serde_json::Value>(text).unwrap())
}

fn mapping(pairs: &[(&str, &str)]) -> Vec<MappingEntry> {
    pairs.iter().map(|(k, v)| MappingEntry { key: k.to_string(), value: v.to_string() }).collect()
}

const SAVE: &str = r#"{"Other":{"x":1},"PlayerStateData":{"PersistentPlayerBases":[
 {"Name":"Home","BaseType":{"PersistentBaseTypes":"HomePlanetBase"},"Objects":[{"ObjectID":"a"},{"ObjectID":"b"}],"Owner":{"UID":"42"}},
 {"Name":"","BaseType":{"PersistentBaseTypes":"FreighterBase"},"Objects":[]},
 {"Name":"Default","BaseType":{"PersistentBaseTypes":"PlayerShipBase"},"UserData":1,"Objects":[{"ObjectID":"c"}]},
 {"Name":"  ","BaseType":{"PersistentBaseTypes":"PlayerShipBase"},"Objects":[]},
 {"BaseType":{"PersistentBaseTypes":"ExternalPlanetBase"},"Objects":[{"ObjectID":"d"}]},
 {"Name":"Station","BaseType":{"PersistentBaseTypes":"PlayerSpaceBase"}}
],"ShipOwnership":[{"Name":"First"},{"Name":"  Skimmer  "}]}}"#;

#[test]
fn hg_roundtrip_small_and_multi_block() {
    let small = b"{\"a\":1}".to_vec();
    let (blob, n) = compress_blocks(&small);
    assert_eq!(n, 1);
    assert_eq!(u32le(&blob[0..4]), 0xFEEDA1E5);
    assert_eq!(u32le(&blob[8..12]) as usize, small.len());
    assert_eq!(decompress_hg(&blob).unwrap(), small);

    let big: Vec<u8> = (0..(0x80000 * 2 + 1234)).map(|i| (i % 251) as u8).collect();
    let (blob, n) = compress_blocks(&big);
    assert_eq!(n, 3);
    assert_eq!(decompress_hg(&blob).unwrap(), big);
}

#[test]
fn hg_empty_and_garbage_are_rejected() {
    let (blob, n) = compress_blocks(&[]);
    assert_eq!(n, 0);
    assert!(blob.is_empty());
    assert_eq!(decompress_hg(&blob).unwrap_err(), "failed to decompress \u{2014} not a valid save file?");
    assert_eq!(decompress_hg(b"hello world, nothing here").unwrap_err(), "failed to decompress \u{2014} not a valid save file?");
}

#[test]
fn hg_resyncs_past_junk_and_reports_bad_blocks() {
    let (blob, _) = compress_blocks(b"payload");
    let mut junk = b"junkjunk".to_vec();
    junk.extend_from_slice(&blob);
    assert_eq!(decompress_hg(&junk).unwrap(), b"payload".to_vec());

    let mut bad = Vec::new();
    bad.extend_from_slice(&0xFEEDA1E5u32.to_le_bytes());
    bad.extend_from_slice(&4u32.to_le_bytes());
    bad.extend_from_slice(&100u32.to_le_bytes());
    bad.extend_from_slice(&0u32.to_le_bytes());
    bad.extend_from_slice(&[0xff, 0xff, 0xff, 0xff]);
    let e = decompress_hg(&bad).unwrap_err();
    assert!(e.starts_with("lz4 block: "), "{}", e);
}

#[test]
fn u32le_reads_little_endian() {
    assert_eq!(u32le(&[1, 0, 0, 0]), 1);
    assert_eq!(u32le(&[0x78, 0x56, 0x34, 0x12, 0xff]), 0x12345678);
}

#[test]
fn size_display_matches_float_formatting() {
    for sz in [0u64, 1023, 1024, 5000, 1048576, 1048577, 1179648, 3276800, 1572864, 10_000_000, 123_456_789, u64::MAX / 3, u64::MAX] {
        let want = if sz > 1024 * 1024 {
            format!("{:.2} MB", sz as f64 / 1024.0 / 1024.0)
        } else {
            format!("{} KB", sz / 1024)
        };
        assert_eq!(size_display(sz), want, "size {}", sz);
    }
}

#[test]
fn safe_name_and_containers() {
    assert_eq!(safe_name("  My Base!  "), "My_Base");
    assert_eq!(safe_name("Ünïcode Höme"), "Ünïcode_Höme");
    assert_eq!(safe_name("???"), "unnamed_base");
    for raw in ["  My Base!  ", "???", "Ünïcode Höme", "a - b _ c", "\tx\u{3000}"] {
        let once = safe_name(raw);
        assert_eq!(safe_name(&once), once);
    }
    assert_eq!(safe_name("../etc/pass wd:1.x"), "etcpass_wd1x");
    for raw in ["a/b\\c", " . ", "C:\\x y", "ok-name_1"] {
        let n = safe_name(raw);
        assert!(!n.is_empty());
        assert!(n.chars().all(|c| c != ' ' && (!c.is_ascii() || c.is_ascii_alphanumeric() || c == '-' || c == '_')), "{}", n);
    }
    assert!(is_save_container("st_76561198000000000"));
    assert!(is_save_container("DefaultUser"));
    assert!(!is_save_container("defaultuser"));
}

#[test]
fn summaries_names_and_counts() {
    let save = j(SAVE);
    let bases = summarize_bases(&save).unwrap();
    assert_eq!(bases.len(), 6);
    let names: Vec<&str> = bases.iter().map(|b| b.display_name.as_str()).collect();
    assert_eq!(names, vec!["Home", "Freighter Base", "Skimmer", "Corvette #3 (0 objs)", "Unnamed 4", "Station"]);
    assert_eq!(bases[0].owner_uid, "42");
    assert_eq!(bases[0].objects, 2);
    assert_eq!(bases[1].name, "");
    assert_eq!(bases[5].objects, 0);
    assert_eq!(bases[4].base_type, "ExternalPlanetBase");
    let c = count_types(&bases);
    assert_eq!((c.ship, c.planet, c.freighter, c.space, c.total_objs), (2, 2, 1, 1, 4));

    let ships = filter_bases(summarize_bases(&save).unwrap(), Some("PlayerShipBase".into()));
    assert_eq!(ships.iter().map(|b| b.idx).collect::<Vec<_>>(), vec![2, 3]);
    let planets = filter_bases(summarize_bases(&save).unwrap(), Some("PLANETARY".into()));
    assert_eq!(planets.iter().map(|b| b.idx).collect::<Vec<_>>(), vec![0, 4]);
    assert_eq!(filter_bases(summarize_bases(&save).unwrap(), Some("other".into())).len(), 6);
    assert_eq!(filter_bases(summarize_bases(&save).unwrap(), None).len(), 6);
}

#[test]
fn summaries_errors() {
    assert_eq!(summarize_bases(&j(r#"{"a":[1,2]}"#)).unwrap_err(), "PersistentPlayerBases not found");
    assert_eq!(summarize_bases(&j(r#"{"PersistentPlayerBases":{"a":1}}"#)).unwrap_err(), "PersistentPlayerBases is not an array");
}

#[test]
fn corvette_falls_back_to_user_data() {
    let save = j(r#"{"PersistentPlayerBases":[{"Name":"Default","BaseType":{"PersistentBaseTypes":"PlayerShipBase"},"UserData":7,"Objects":[1,2,3]}]}"#);
    let bases = summarize_bases(&save).unwrap();
    assert_eq!(bases[0].display_name, "Corvette #7 (3 objs)");
}

#[test]
fn key_mapping_renames_and_reverses() {
    let m = mapping(&[("xA1", "Alpha"), ("xB2", "Beta"), ("xZ9", "Zed")]);
    let v = j(r#"{"xA1":{"xB2":[{"xZ9":1},{"keep":2}]},"other":3}"#);
    let mapped = map_keys(&v, &m);
    assert_eq!(mapped, j(r#"{"Alpha":{"Beta":[{"Zed":1},{"keep":2}]},"other":3}"#));
    let back = reverse_map_keys(&mapped, &m);
    assert_eq!(back, v);
}

#[test]
fn key_mapping_later_pair_wins_and_collisions_collapse() {
    let m = mapping(&[("k", "First"), ("k", "Second")]);
    assert_eq!(map_keys(&j(r#"{"k":1}"#), &m), j(r#"{"Second":1}"#));
    let m = mapping(&[("a", "Same"), ("b", "Same")]);
    assert_eq!(map_keys(&j(r#"{"a":1,"b":2}"#), &m), j(r#"{"Same":2}"#));
}

#[test]
fn mapping_file_forms() {
    let wrapped = j(r#"{"libMBIN_version":"x","Mapping":[{"Key":"a","Value":"b"}]}"#);
    assert!(matches!(mapping_list(&wrapped), Ok(MappingList::Wrapped(xs)) if xs.len() == 1));
    let bare = j(r#"[{"Key":"a","Value":"b"},{"Key":"c","Value":"d"}]"#);
    assert!(matches!(mapping_list(&bare), Ok(MappingList::Bare(xs)) if xs.len() == 2));
    assert_eq!(mapping_list(&j(r#"{"x":1}"#)).err().unwrap(), "unexpected mapping file format");
    assert!(cache_fresh(Some(0)));
    assert!(cache_fresh(Some(7 * 86400 - 1)));
    assert!(!cache_fresh(Some(7 * 86400)));
    assert!(!cache_fresh(None));
}

#[test]
fn import_text_strips_commas() {
    assert_eq!(import_text("  ,\n {\"a\":1}\n"), "{\"a\":1}");
    assert_eq!(import_text(",,, x"), "x");
    assert_eq!(import_text("   "), "");
    assert_eq!(import_text(", , ,"), "");
}

#[test]
fn normalize_payload_shapes() {
    assert_eq!(normalize_import_value(j("[]")).unwrap_err(), "JSON list is empty");
    assert_eq!(normalize_import_value(j(r#"[{"ObjectID":"a"},{"ObjectID":"b"}]"#)).unwrap(), j(r#"[{"ObjectID":"a"},{"ObjectID":"b"}]"#));
    assert_eq!(normalize_import_value(j(r#"[{"Objects":[]},{"x":1}]"#)).unwrap(), j(r#"{"Objects":[]}"#));
    assert_eq!(normalize_import_value(j(r#"{"ObjectID":"a"}"#)).unwrap(), j(r#"[{"ObjectID":"a"}]"#));
    assert_eq!(normalize_import_value(j(r#"{"Name":"x"}"#)).unwrap_err(), "base JSON missing 'Objects' key");
    assert_eq!(normalize_import_value(j(r#"{"Objects":[],"Name":"b"}"#)).unwrap(), j(r#"{"Objects":[],"Name":"b"}"#));
}

#[test]
fn replacement_of_objects_keeps_target_and_stamps_time() {
    let target = j(r#"{"Name":"Home","Objects":[{"ObjectID":"old"}],"X":1}"#);
    let nb = build_replacement(&target, j(r#"[{"ObjectID":"new"}]"#), 1700000000);
    assert_eq!(nb, j(r#"{"LastUpdateTimestamp":1700000000,"Name":"Home","Objects":[{"ObjectID":"new"}],"X":1}"#));
    let nb = build_replacement(&target, j(r#"{"Objects":[],"Name":""}"#), 5);
    assert_eq!(nb, j(r#"{"Name":"Home","Objects":[]}"#));
    let nb = build_replacement(&target, j(r#"{"Objects":[],"Name":"Mine"}"#), 5);
    assert_eq!(nb, j(r#"{"Name":"Mine","Objects":[]}"#));
}

#[test]
fn import_into_slot() {
    let save = j(SAVE);
    let data = normalize_import_value(j(r#"[{"ObjectID":"z"}]"#)).unwrap();
    assert!(can_import(&save, 1, &data));
    let r = import_base_at(save, 1, data, 9).unwrap();
    assert_eq!(r.objects, 1);
    assert_eq!(r.target, j(r#"{"Name":"","BaseType":{"PersistentBaseTypes":"FreighterBase"},"Objects":[]}"#));
    let bases = summarize_bases(&r.save).unwrap();
    assert_eq!(bases[1].objects, 1);
    assert_eq!(bases[0].objects, 2);
    assert_eq!(import_backup_name(&r.target, "20260101_000000"), "unnamed_base_backup_20260101_000000.json");

    let save = j(SAVE);
    assert_eq!(import_base_at(save, 99, JsonValue::Null, 0).err().unwrap(), "base index out of range");
    assert_eq!(import_base_at(j(r#"{"a":1}"#), 0, JsonValue::Null, 0).err().unwrap(), "bases not found");
    assert_eq!(import_base_at(j(r#"{"PersistentPlayerBases":3}"#), 0, JsonValue::Null, 0).err().unwrap(), "bases not an array");
    let r = import_base_now(j(SAVE), 0, j(r#"[{"ObjectID":"q"}]"#)).unwrap();
    assert_eq!(r.objects, 1);
}

#[test]
fn imported_base_is_read_back_and_other_slots_kept() {
    let save = j(SAVE);
    let before: Vec<JsonValue> = (0..6).map(|i| get_base(&save, i).unwrap().base).collect();
    let data = normalize_import_value(j(r#"{"Objects":[{"ObjectID":"n1"},{"ObjectID":"n2"}],"Name":"New"}"#)).unwrap();
    let r = import_base_at(save, 2, data.deep_clone(), 77).unwrap();
    let expect = build_replacement(&r.target, data, 77);
    assert_eq!(get_base(&r.save, 2).unwrap().base, expect);
    for i in [0usize, 1, 3, 4, 5] {
        assert_eq!(get_base(&r.save, i).unwrap().base, before[i]);
    }
}

#[test]
fn exported_base_imported_back_gives_save_back() {
    for idx in 0..5usize {
        let save = j(SAVE);
        let exported = get_base(&save, idx).unwrap().base;
        let text = serde_json::to_string(&back(&exported)).unwrap();
        let data = normalize_import_value(j(&import_text(&text))).unwrap();
        let r = import_base_at(j(SAVE), idx, data, 123).unwrap();
        assert_eq!(back(&r.save), back(&save), "slot {}", idx);
        assert_eq!(r.target, exported);
    }
}

#[test]
fn import_refuses_undefined_targets() {
    let save = j(r#"{"PersistentPlayerBases":[5]}"#);
    assert!(!can_import(&save, 0, &j("[1]")));
    assert!(can_import(&save, 0, &j(r#"{"Objects":[]}"#)));
}

#[test]
fn export_helpers() {
    let save = j(SAVE);
    let b = get_base(&save, 3).unwrap();
    assert_eq!(b.display, "Corvette #3 (0 objs)");
    assert_eq!(b.safe, "Corvette_3_0_objs");
    assert_eq!(get_base(&save, 10).err().unwrap(), "base index out of range");
    let objs = base_objects(&b.base);
    assert!(objs.is_empty());
    let objs = base_objects(&get_base(&save, 0).unwrap().base);
    assert_eq!(objs.len(), 2);

    assert_eq!(nmsbase_frame(&vec![]), "");
    assert_eq!(nmsbase_frame(&vec!["{a}".to_string()]), ",\n{a}");
    assert_eq!(nmsbase_frame(&vec!["{a}".to_string(), "{b}".to_string()]), ",\n{a},\n{b}");

    assert_eq!(export_target(None, None, "/out", "Home", "json"), "/out/Home.json");
    assert_eq!(export_target(Some("~/x/base"), Some("/home/u"), "/out", "Home", "json"), "/home/u/x/base.json");
    assert_eq!(export_target(Some("/tmp/b.txt"), None, "/out", "Home", "nmsbase"), "/tmp/b.txt");
    assert_eq!(export_target(Some("/tmp/dir/"), None, "/out", "Home", "json"), "/tmp/dir.json");
    assert_eq!(export_backup_name("Home", "T"), "Home_backup_T.json");
    assert_eq!(nmsbase_backup_name("Home", "/x/mine.nmsbase", "T"), "Home_mine_backup_T.nmsbase");
}

#[test]
fn save_file_names_and_dirs() {
    assert!(is_save_file_name("save.hg"));
    assert!(is_save_file_name("save2.hg"));
    assert!(!is_save_file_name("mf_save.hg"));
    assert!(!is_save_file_name("save.hg.bak"));
    assert_eq!(given_dir("/a/b/save.hg", false, true), Some("/a/b".to_string()));
    assert_eq!(given_dir("/a/b", true, false), Some("/a/b".to_string()));
    assert_eq!(given_dir("/a/b", false, false), None);
    let dirs = vec!["/x".to_string(), "/y".to_string(), "/z".to_string()];
    assert_eq!(pick_save_dir(&dirs, &vec![false, true, true]), Some("/y".to_string()));
    assert_eq!(pick_save_dir(&dirs, &vec![false, false, false]), Some("/x".to_string()));
    assert_eq!(pick_save_dir(&vec![], &vec![]), None);
}

#[test]
fn save_listing_newest_first() {
    let e = |n: &str, f: bool, ms: i64| SaveEntry { name: n.into(), is_file: f, size_bytes: 2048, mtime_ms: ms, modified: "m".into() };
    let out = save_listing(vec![e("save.hg", true, 10), e("notes.txt", true, 99), e("save2.hg", true, 30), e("save3.hg", false, 50), e("save4.hg", true, 10)]);
    let names: Vec<&str> = out.iter().map(|s| s.name.as_str()).collect();
    assert_eq!(names, vec!["save2.hg", "save.hg", "save4.hg"]);
    assert_eq!(out[0].size_display, "2 KB");
}

#[test]
fn backup_names_and_filters() {
    assert!(is_backup_source("save.hg"));
    assert!(is_backup_source("SAVE5.HG"));
    assert!(!is_backup_source("save_manual_backup_x.hg"));
    assert!(!is_backup_source("save_before_recompress_x.hg"));
    assert!(!is_backup_source("save_pre_restore_x.hg"));
    assert!(!big_enough(Some(17)));
    assert!(big_enough(Some(18)));
    assert!(!big_enough(None));
    assert_eq!(manual_backup_name("save", "T", None), "save_manual_backup_T.hg");
    assert_eq!(manual_backup_name("save", "T", Some(2)), "save_manual_backup_T_2.hg");
    assert_eq!(pre_restore_name("save3.hg", "T"), "save3_pre_restore_T.hg");
    assert_eq!(before_recompress_name("save.hg", "T"), "save_before_recompress_T.hg");
}

#[test]
fn backup_listing_newest_first_with_stem() {
    let e = |n: &str, s: u64, ok: bool| BackupEntry { name: n.into(), path: format!("/b/{}", n), meta_ok: ok, secs: s, size_bytes: 10, modified: "m".into() };
    let items = vec![e("save_a.hg", 5, true), e("save_b.hg", 9, true), e("x.json", 20, true), e("save_c.hg", 5, true), e("other_d.hg", 1, true), e("save_e.hg", 7, false)];
    let out = backup_listing(items, Some("save".into()));
    let names: Vec<&str> = out.iter().map(|b| b.name.as_str()).collect();
    assert_eq!(names, vec!["save_b.hg", "save_c.hg", "save_a.hg"]);
}

#[test]
fn list_all_backups_finds_both_kinds() {
    let file = |dir: &str, n: &str, is_file: bool| ManagedEntry {
        name: n.into(),
        path: format!("{}/{}", dir, n),
        is_file,
        meta_ok: true,
        size_bytes: 1,
        modified_ms: 0,
        modified: "?".into(),
    };
    let saves = vec![file("/b/save files", "save_backup_1.hg", true), file("/b/save files", "notes.txt", true), file("/b/save files", "sub.hg", false)];
    let bases = vec![file("/b/bases", "home_backup_1.json", true), file("/b/bases", "home_backup_2.NMSBASE", true), file("/b/bases", "x.hg", true)];
    let all = managed_listing(saves, bases);
    assert!(all.iter().all(|b| b.kind == "save" || b.kind == "base"));
    assert_eq!(all.iter().filter(|b| b.kind == "save").count(), 1);
    assert_eq!(all.iter().filter(|b| b.kind == "base").count(), 2);
}

#[test]
fn managed_listing_sorts_newest_first() {
    let e = |n: &str, ms: i64| ManagedEntry { name: n.into(), path: n.into(), is_file: true, meta_ok: true, size_bytes: 1, modified_ms: ms, modified: "m".into() };
    let all = managed_listing(vec![e("a.hg", 1), e("b.hg", 3)], vec![e("c.json", 2), e("d.nmsbase", 3)]);
    let names: Vec<&str> = all.iter().map(|b| b.name.as_str()).collect();
    assert_eq!(names, vec!["b.hg", "d.nmsbase", "c.json", "a.hg"]);
}

#[test]
fn delete_guard_rejects_escapes_and_deletes_own() {
    // The files on disk, by canonical path.
    let mut files = vec![
        "/tmp/nmm/backups/save files/save_backup_20260101.hg".to_string(),
        "/tmp/nmm/evil.hg".to_string(),
    ];
    let root = "/tmp/nmm/backups";
    let mut delete = |path: &str| -> Result<String, String> {
        let canon = if files.iter().any(|f| f == path) { Some(path.to_string()) } else { None };
        let is_file = canon.is_some();
        let name = delete_guard(root, canon.as_deref(), is_file)?;
        files.retain(|f| f != path);
        Ok(name)
    };
    assert!(delete("/tmp/nmm/evil.hg").is_err());
    assert!(delete("/tmp/nmm/backups/nope.hg").is_err());
    assert_eq!(delete("/tmp/nmm/backups/save files/save_backup_20260101.hg").unwrap(), "save_backup_20260101.hg");
    assert!(delete("/tmp/nmm/backups/save files/save_backup_20260101.hg").is_err());
    assert!(delete("/tmp/nmm/evil.hg").is_err());
}

#[test]
fn delete_guard_messages() {
    assert_eq!(delete_guard("/r", None, true).unwrap_err(), "backup not found");
    assert_eq!(delete_guard("/r", Some("/rx/a.hg"), true).unwrap_err(), "refusing to delete outside the backups folder");
    assert_eq!(delete_guard("/r", Some("/r/d"), false).unwrap_err(), "not a file");
    assert_eq!(delete_guard("/r", Some("/r/d/a.hg"), true).unwrap(), "a.hg");
}

#[test]
fn recompress_roundtrip_keeps_bases() {
    let m = mapping(&[("XpB", "PersistentPlayerBases"), ("XoB", "Objects"), ("XnM", "Name")]);
    let readable = j(SAVE);
    let obfuscated = reverse_map_keys(&readable, &m);
    let text = serde_json::to_string(&back(&obfuscated)).unwrap();
    let (blob, n) = compress_blocks(text.as_bytes());
    assert!(n > 0);
    let raw = decompress_hg(&blob).unwrap();
    let reparsed = j(&String::from_utf8(raw).unwrap());
    let again = map_keys(&reparsed, &m);
    let a = summarize_bases(&readable).unwrap();
    let b = summarize_bases(&again).unwrap();
    assert_eq!(a.len(), b.len());
    for (x, y) in a.iter().zip(b.iter()) {
        assert_eq!(x.objects, y.objects);
        assert_eq!(x.base_type, y.base_type);
        assert_eq!(x.display_name, y.display_name);
    }
}

fn back(v: &JsonValue) -> serde_json::Value {
    match v {
        JsonValue::Null => serde_json::Value::Null,
        JsonValue::Bool(b) => serde_json::Value::Bool(*b),
        JsonValue::Number(JsonNumber::PosInt(u)) => serde_json::Value::from(*u),
        JsonValue::Number(JsonNumber::NegInt(i)) => serde_json::Value::from(*i),
        JsonValue::Number(JsonNumber::Float(bits)) => serde_json::Value::from(f64::from_bits(*bits)),
        JsonValue::Str(s) => serde_json::Value::String(s.clone()),
        JsonValue::Array(a) => serde_json::Value::Array(a.iter().map(back).collect()),
        JsonValue::Object(es) => serde_json::Value::Object(es.iter().map(|(k, v)| (k.clone(), back(v))).collect()),
    }
}

#[test]
fn found_path_reads_back_what_is_written() {
    let save = j(SAVE);
    let path = find_key_path(&save, "ShipOwnership").expect("key present");
    assert!(matches!(path.last(), Some(Seg::Key(k)) if k == "ShipOwnership"));
    assert_eq!(path.len(), 2);
    assert!(get_at_exec(&save, &path).is_some());
    let written = set_at(save.deep_clone(), &path, JsonValue::Str("x".to_string()));
    assert_eq!(get_at_exec(&written, &path), Some(&JsonValue::Str("x".to_string())));
    assert!(find_key_path(&save, "NoSuchKey").is_none());
    let missing = vec![Seg::Key("NoSuchKey".to_string()), Seg::Idx(0)];
    let same = set_at(save.deep_clone(), &missing, JsonValue::Null);
    assert_eq!(back(&same), back(&save));
}

#[test]
fn backup_stamp_has_date_time_form() {
    let s: Vec<char> = nomansmanager::savefiles::backup_stamp().chars().collect();
    let n = s.len();
    assert!(n >= 15);
    assert_eq!(s[n - 7], '_');
    for (i, c) in s.iter().enumerate() {
        if i != n - 7 {
            assert!(c.is_ascii_digit() || (i == 0 && (*c == '+' || *c == '-')), "{:?}", s);
        }
    }
    let two = |i: usize| (s[i] as u32 - 48) * 10 + (s[i + 1] as u32 - 48);
    assert!((1..=12).contains(&two(n - 11)) && (1..=31).contains(&two(n - 9)));
    assert!(two(n - 6) <= 23 && two(n - 4) <= 59 && two(n - 2) <= 60);
}

#[test]
fn nmsbase_text_reads_back_as_its_objects() {
    let parts = vec!["{\n  \"ObjectID\": \"a\"\n}".to_string(), "{\n  \"ObjectID\": \"b\"\n}".to_string()];
    let text = nmsbase_frame(&parts);
    let read = import_text(&text);
    assert_eq!(read, parts.join(",\n"));
    let v: serde_json::Value = serde_json::from_str(&format!("[{}]", read)).unwrap();
    assert_eq!(v.as_array().unwrap().len(), 2);
}
