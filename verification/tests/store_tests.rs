use nomansmanager::locate::{pick_existing, windows_drive_candidates};
use nomansmanager::paths::is_managed_path;
use nomansmanager::deploy::{deploy_plan, deploy_prefix, should_clear, DeployResult, DeployStep};
use nomansmanager::intake::{
    add_target, duplicate_message, import_step, import_store_name, keep_entries, member_action,
    mods_dir_missing, single_pak_target, zip_layout, AddTarget, ImportResult, ImportStep,
    MemberAction, ZipEntry, ZipLayout,
};
use nomansmanager::json::JsonValue;
use nomansmanager::locate::{
    candidate_libraryfolders, dedupe_paths, has_nms, has_nms_probes, home_fallbacks,
    library_choice, manual_candidates, manual_choice, manual_probes, mount_candidate,
    parse_library_paths, pick_fallback,
};
use nomansmanager::migration::{
    mod_order_count, needs_repair, same_file, settings_valid, should_copy_entry,
    should_copy_settings, trees_identical, with_extension, EntryKind, TreeEntry,
};
use nomansmanager::names::safe_id;
use nomansmanager::paths::{
    backups_bases_dir, backups_save_dir, config_file, default_ext, file_name_of, get_mods_dir,
    join, log_dir, log_file, mapping_cache_path, name_ext, name_stem, output_bases_dir,
    output_dir, output_nmsbase_dir, parent_of, profiles_dir, saves_root, shellexpand, store_dir,
};
use nomansmanager::profile::{config_from_store, create_check, new_profile, profile_names, profile_path, rename_check, sync_profile, AppConfig};
use nomansmanager::savefiles::candidate_roots;
use nomansmanager::store::{
    eq_ignore_ascii_case, name_has_ext, not_in_store_message, remove_targets, rename_plan,
    store_mods, unique_store_path, Mod, RenamePlan, StoreEntry,
};
use std::path::Path;

fn folder(id: &str, path: &str) -> Mod {
    Mod { id: id.into(), display_name: id.into(), kind: "folder".into(), source_path: path.into(), size_bytes: 0, has_lua: false, has_pak: false }
}

fn pak(id: &str, path: &str) -> Mod {
    Mod { id: id.into(), display_name: format!("{}.pak", id), kind: "pak".into(), source_path: path.into(), size_bytes: 0, has_lua: false, has_pak: true }
}

fn entry(name: &str, is_file: bool, is_dir: bool) -> StoreEntry {
    StoreEntry { name: name.into(), path: format!("/s/{}", name), is_file, is_dir, size_bytes: 7, has_lua: false, has_pak: false }
}

#[test]
fn safe_id_sanitizes() {
    assert_eq!(safe_id("New Cool Mod"), "New_Cool_Mod");
    assert_eq!(safe_id("  wéird/na:me!  "), "wirdname");
    assert_eq!(safe_id("@@@"), "unnamed_mod");
    for raw in ["a/b\\c", "  ", "x y z", "..\\up"] {
        let id = safe_id(raw);
        assert!(!id.is_empty());
        assert!(id.chars().all(|c| c.is_ascii_alphanumeric() || c == '.' || c == '_' || c == '-'), "{}", id);
    }
    assert_eq!(safe_id("v1.2-beta_x"), "v1.2-beta_x");
}

#[test]
fn store_listing_sorted_and_typed() {
    let mods = store_mods(vec![
        entry("b_mod", false, true),
        entry("Alpha.PAK", true, false),
        entry(".hidden", false, true),
        entry("readme.txt", true, false),
        entry("alpha2", false, true),
        entry("Zeta.pak", true, false),
    ]);
    let ids: Vec<&str> = mods.iter().map(|m| m.id.as_str()).collect();
    assert_eq!(ids, vec!["Alpha", "alpha2", "b_mod", "Zeta"]);
    assert_eq!(mods[0].kind, "pak");
    assert_eq!(mods[0].display_name, "Alpha.PAK");
    assert!(mods[0].has_pak && !mods[0].has_lua);
    assert_eq!(mods[1].kind, "folder");
    assert_eq!(mods[1].source_path, "/s/alpha2");
    assert_eq!(mods[1].size_bytes, 7);
}

#[test]
fn ascii_case_helpers() {
    assert!(eq_ignore_ascii_case("PaK", "pak"));
    assert!(!eq_ignore_ascii_case("pák", "pak"));
    assert!(name_has_ext("x.LUA", "lua"));
    assert!(!name_has_ext(".lua", "lua"));
    assert!(!name_has_ext("lua", "lua"));
}

#[test]
fn deploy_prefixes() {
    assert_eq!(deploy_prefix(0, 5), "01_");
    assert_eq!(deploy_prefix(98, 99), "99_");
    assert_eq!(deploy_prefix(0, 100), "001_");
    assert_eq!(deploy_prefix(998, 999), "999_");
    assert_eq!(deploy_prefix(999, 1000), "1000_");
}

#[test]
fn cleanup_decisions() {
    assert!(should_clear("01_Mod", false));
    assert!(should_clear("123-Mod", false));
    assert!(!should_clear("1_Mod", false));
    assert!(!should_clear("1234_Mod", false));
    assert!(should_clear("Anything", true));
    assert!(!should_clear("DISABLEMODS.txt", true));
    assert!(!should_clear("Manual", false));
    assert!(!should_clear("01", false));
    assert!(!should_clear("a01_x", false));
    assert!(should_clear("٠١_Mod", false));
}

#[test]
fn deployed_names_are_cleared_next_time() {
    for count in [1usize, 5, 99, 100, 250, 999] {
        for idx in [0, count / 2, count - 1] {
            let name = format!("{}{}", deploy_prefix(idx, count), "Some Mod");
            assert!(should_clear(&name, false), "{}", name);
        }
    }
    assert!(!should_clear(&format!("{}x", deploy_prefix(999, 1000)), false));
}

#[test]
fn deployed_names_sort_in_list_order() {
    for count in [2usize, 12, 99, 100, 250, 999] {
        let mut names: Vec<String> = Vec::new();
        for idx in 0..count {
            let tail = if idx % 2 == 0 { "zz Last" } else { "AA First" };
            names.push(format!("{}{}", deploy_prefix(idx, count), tail));
        }
        for w in names.windows(2) {
            assert!(w[0] < w[1], "{} !< {}", w[0], w[1]);
        }
    }
    let a = format!("{}x", deploy_prefix(99, 1000));
    let b = format!("{}x", deploy_prefix(999, 1000));
    assert!(b < a);
}

#[test]
fn deploy_plan_names_and_missing() {
    let mods = vec![folder("FolderMod", "/s/FolderMod"), pak("Ship", "/s/Ship.pak"), folder("Dup", "/s/one"), folder("Dup", "/s/two")];
    let ids = vec!["Ship".to_string(), "Nope".to_string(), "FolderMod".to_string(), "Dup".to_string()];
    let plan = deploy_plan(&ids, &mods);
    assert_eq!(plan[0], DeployStep::Place { id: "Ship".into(), source: "/s/Ship.pak".into(), dest_name: "01_Ship.pak".into() });
    assert_eq!(plan[1], DeployStep::Missing { message: "Nope: not found in store".into() });
    assert_eq!(plan[2], DeployStep::Place { id: "FolderMod".into(), source: "/s/FolderMod".into(), dest_name: "03_FolderMod".into() });
    assert_eq!(plan[3], DeployStep::Place { id: "Dup".into(), source: "/s/two".into(), dest_name: "04_Dup".into() });

    let mut res = DeployResult::new();
    res.cleanup_failed("01_x", "busy");
    res.record(&plan[0], Ok(()));
    res.record(&plan[1], Ok(()));
    res.record(&plan[2], Err("denied".into()));
    assert_eq!(res.deployed, 1);
    assert_eq!(res.errors, vec!["cleanup 01_x: busy".to_string(), "Nope: not found in store".to_string(), "FolderMod: denied".to_string()]);
}

#[test]
fn import_names_and_steps() {
    assert_eq!(import_store_name("01_Cool"), "Cool");
    assert_eq!(import_store_name("007-Cool_2"), "Cool_2");
    assert_eq!(import_store_name("Cool"), "Cool");
    assert_eq!(import_store_name("Manual_01_x"), "Manual_01_x");
    assert_eq!(import_store_name(""), "");
    assert_eq!(import_store_name("01_"), "01_");
    assert_eq!(import_store_name("x01_Cool"), "x01_Cool");
    assert_eq!(import_step("DISABLEMODS.txt", false, false), ImportStep::Ignore);
    assert_eq!(import_step(".git", false, false), ImportStep::Ignore);
    assert_eq!(import_step("02_A", true, false), ImportStep::Skip { message: "02_A: already managed (symlink)".into() });
    assert_eq!(import_step("02_A", false, true), ImportStep::Skip { message: "02_A: store already has A (collision)".into() });
    assert_eq!(import_step("02_A", false, false), ImportStep::Place { store_name: "A".into() });
    assert_eq!(mods_dir_missing("/x"), "Mods dir not found: /x");
    let r = ImportResult::new();
    assert!(r.imported.is_empty() && r.skipped.is_empty());
}

#[test]
fn reimporting_deployed_folder_gives_back_id() {
    for (idx, count) in [(0usize, 3usize), (41, 99), (0, 100), (998, 999)] {
        let name = format!("{}{}", deploy_prefix(idx, count), "My_Mod");
        assert_eq!(import_store_name(&name), "My_Mod");
    }
}

#[test]
fn add_targets() {
    assert_eq!(add_target("~/x.zip", "/h/x.zip", "/s", false, false, false), AddTarget::Skip { message: "~/x.zip: not found".into() });
    assert_eq!(
        add_target("a", "/d/My Mod 1.2.ZIP", "/s", true, true, false),
        AddTarget::Zip { fname: "My Mod 1.2.ZIP".into(), dest: "/s/My_Mod_1.2".into(), alt_pak: "/s/My_Mod_1.2.pak".into(), final_id: Some("My_Mod_1.2".into()) }
    );
    assert_eq!(
        add_target("a", "/d/ship.pak", "/s", true, true, false),
        AddTarget::Pak { fname: "ship.pak".into(), dest: "/s/ship.pak".into(), id: Some("ship".into()) }
    );
    assert_eq!(
        add_target("a", "/d/notes.txt", "/s", true, true, false),
        AddTarget::Skip { message: "notes.txt: unsupported file type .txt (only .pak/.zip supported)".into() }
    );
    assert_eq!(
        add_target("a", "/d/Some Folder", "/s", true, false, true),
        AddTarget::Folder { fname: "Some Folder".into(), dest: "/s/Some_Folder".into(), final_id: Some("Some_Folder".into()) }
    );
    assert_eq!(add_target("a", "/d/fifo", "/s", true, false, false), AddTarget::Skip { message: "fifo: unknown type".into() });
    assert_eq!(duplicate_message("x.zip"), "x.zip: already exists in store (skipped duplicate)");
}

#[test]
fn zip_members_and_layouts() {
    assert_eq!(member_action("../evil"), MemberAction::Skip);
    assert_eq!(member_action("a/../../b"), MemberAction::Skip);
    assert_eq!(member_action("/etc/passwd"), MemberAction::Skip);
    assert_eq!(member_action("\\x"), MemberAction::Skip);
    assert_eq!(member_action("__MACOSX/._a"), MemberAction::Skip);
    assert_eq!(member_action("dir/"), MemberAction::Dir);
    assert_eq!(member_action("dir/file.pak"), MemberAction::File);
    let z = |n: &str, f: bool, d: bool| ZipEntry { name: n.into(), is_file: f, is_dir: d };
    let kept = keep_entries(vec![z("__MACOSX", false, true), z("a.pak", true, false)]);
    assert_eq!(kept, vec![z("a.pak", true, false)]);
    assert_eq!(zip_layout(&kept), ZipLayout::SinglePak);
    assert_eq!(zip_layout(&vec![]), ZipLayout::Empty);
    assert_eq!(zip_layout(&vec![z("d", false, true)]), ZipLayout::SingleDir);
    assert_eq!(zip_layout(&vec![z("a.txt", true, false)]), ZipLayout::Spread);
    assert_eq!(zip_layout(&vec![z("a.pak", true, false), z("b", false, true)]), ZipLayout::Spread);
    assert_eq!(single_pak_target("/s", "Cool Ship.PAK"), ("/s/Cool_Ship.pak".to_string(), Some("Cool_Ship".to_string())));
}

/// A store folder held in memory: entry names, each a file or a folder.
struct MemStore {
    root: String,
    entries: Vec<(String, bool)>,
}

impl MemStore {
    fn path(&self, name: &str) -> String {
        format!("{}/{}", self.root, name)
    }
    fn holds(&self, path: &str) -> bool {
        self.entries.iter().any(|(n, _)| self.path(n) == path)
    }
    fn scan(&self) -> Vec<Mod> {
        let entries = self
            .entries
            .iter()
            .map(|(n, is_dir)| StoreEntry { name: n.clone(), path: self.path(n), is_file: !is_dir, is_dir: *is_dir, size_bytes: 0, has_lua: false, has_pak: false })
            .collect();
        store_mods(entries)
    }
    fn rename(&mut self, id: &str, new_name: &str) -> Result<String, String> {
        let root = self.root.clone();
        match rename_plan(&self.scan(), id, new_name, &root)? {
            RenamePlan::Same { id } => Ok(id),
            RenamePlan::Move { source, dest, new_id } => {
                if self.holds(&dest) {
                    return Err("A mod with that name already exists".into());
                }
                let new_file = dest[root.len() + 1..].to_string();
                for e in self.entries.iter_mut() {
                    if format!("{}/{}", root, e.0) == source {
                        e.0 = new_file.clone();
                    }
                }
                Ok(new_id)
            }
        }
    }
}

#[test]
fn rename_folder_pak_collision_and_sanitize() {
    let mut store = MemStore {
        root: "/data/nomansmanager/mods".into(),
        entries: vec![("Old_Folder".into(), true), ("OldShip.pak".into(), false), ("Taken".into(), true), ("Other.pak".into(), false)],
    };

    let id = store.rename("Old_Folder", "New Cool Mod").unwrap();
    assert_eq!(id, "New_Cool_Mod");
    assert!(store.holds("/data/nomansmanager/mods/New_Cool_Mod"));
    assert!(!store.holds("/data/nomansmanager/mods/Old_Folder"));

    let id2 = store.rename("OldShip", "NewShip").unwrap();
    assert_eq!(id2, "NewShip");
    assert!(store.holds("/data/nomansmanager/mods/NewShip.pak"));

    assert!(store.rename("NewShip", "Other").is_err());
    assert!(store.holds("/data/nomansmanager/mods/NewShip.pak"));

    assert_eq!(store.rename("NewShip", "NewShip").unwrap(), "NewShip");
    assert_eq!(store.rename("Ghost", "x").unwrap_err(), "Mod Ghost not found in store");
}

#[test]
fn remove_targets_listed_and_fallback() {
    let mods = vec![pak("Ship", "/s/Ship.pak")];
    assert_eq!(remove_targets(&mods, "Ship", "/s"), (true, vec!["/s/Ship.pak".to_string()]));
    assert_eq!(remove_targets(&mods, "X", "/s"), (false, vec!["/s/X".to_string(), "/s/X.pak".to_string()]));
    assert_eq!(not_in_store_message("X"), "Mod X not found in store");
}

#[test]
fn unique_paths() {
    let taken = vec!["/s/mod.pak".to_string(), "/s/mod_1.pak".to_string()];
    assert_eq!(unique_store_path("/s/free.pak", &taken), "/s/free.pak");
    assert_eq!(unique_store_path("/s/mod.pak", &taken), "/s/mod_2.pak");
    assert_eq!(unique_store_path("/s/dir", &vec!["/s/dir".to_string()]), "/s/dir_1");
    let all: Vec<String> = std::iter::once("/s/x".to_string()).chain((1..100).map(|i| format!("/s/x_{}", i))).collect();
    assert_eq!(unique_store_path("/s/x", &all), "/s/x");
}

#[test]
fn profiles_new_and_sync() {
    let ids = vec!["beta".to_string(), "Alpha".to_string(), "gamma".to_string(), "alpha".to_string()];
    let p = new_profile("default", &ids);
    assert_eq!(p.name, "default");
    assert_eq!(p.mod_order, vec!["Alpha", "alpha", "beta", "gamma"]);
    assert_eq!(p.enabled.len(), 4);
    assert!(p.enabled.iter().all(|(_, on)| *on));

    let mut q = p;
    q.enabled[0].1 = false;
    let changed = sync_profile(&mut q, &vec!["beta".to_string(), "delta".to_string(), "delta".to_string()]);
    assert!(changed);
    assert_eq!(q.mod_order, vec!["Alpha", "alpha", "beta", "gamma", "delta"]);
    assert_eq!(q.enabled.len(), 5);
    assert!(!q.enabled[0].1);
    let again = sync_profile(&mut q, &vec!["beta".to_string(), "delta".to_string()]);
    assert!(!again);
}

#[test]
fn profile_files_and_checks() {
    assert_eq!(profile_path("/p", "default"), "/p/default.json");
    let names = profile_names(&vec!["b.json".into(), "a.json".into(), "x.tmp".into(), "c.json.bak".into(), "B.json".into()]);
    assert_eq!(names, vec!["B", "a", "b"]);
    assert_eq!(create_check("x", true).unwrap_err(), "Profile x already exists");
    assert!(create_check("x", false).is_ok());
    assert_eq!(rename_check("a", "a", false, false), Ok(false));
    assert_eq!(rename_check("a", "b", false, false), Err("source not found".into()));
    assert_eq!(rename_check("a", "b", true, true), Err("Profile b already exists".into()));
    assert_eq!(rename_check("a", "b", true, false), Ok(true));
}

#[test]
fn config_defaults_and_store() {
    let d = AppConfig::default();
    assert_eq!(d, AppConfig { game_path: None, deploy_mode: "auto".into(), active_profile: "default".into(), global_disable: false, theme: "default".into(), font: "inter".into(), auto_deploy: false });
    let (c, any) = config_from_store(&JsonValue::Object(vec![]));
    assert_eq!(c, d);
    assert!(!any);
    let store = JsonValue::Object(vec![
        ("global_disable".into(), JsonValue::Bool(true)),
        ("game_path".into(), JsonValue::Str("/g".into())),
        ("theme".into(), JsonValue::Bool(true)),
    ]);
    let (c, any) = config_from_store(&store);
    assert!(any);
    assert_eq!(c.game_path, Some("/g".to_string()));
    assert!(c.global_disable);
    assert_eq!(c.theme, "default");
    let (_, any) = config_from_store(&JsonValue::Object(vec![("global_disable".into(), JsonValue::Bool(true))]));
    assert!(!any);
}

#[test]
fn path_helpers_match_std() {
    for (a, b) in [("/a", "b"), ("/a/", "b"), ("", "b"), ("a", "/b"), ("a", "")] {
        assert_eq!(join(a, b), Path::new(a).join(b).to_string_lossy().to_string());
    }
    for p in ["/a/b", "/a/b/", "a", "/", "", "a/..", "/a/b.tar.gz", "x/.hidden"] {
        assert_eq!(file_name_of(p), Path::new(p).file_name().map(|s| s.to_string_lossy().to_string()), "{}", p);
    }
    for p in ["/a/b", "/a/b/", "a", "/", "", "/a"] {
        assert_eq!(parent_of(p), Path::new(p).parent().map(|s| s.to_string_lossy().to_string()), "{}", p);
    }
    for n in ["a.b", ".bashrc", "a.", "a.b.c", "noext", "..x"] {
        assert_eq!(name_stem(n), Path::new(n).file_stem().unwrap().to_string_lossy().to_string(), "{}", n);
        assert_eq!(name_ext(n), Path::new(n).extension().map(|s| s.to_string_lossy().to_string()), "{}", n);
    }
    for p in ["/a/b", "/a/b.txt", "/a/b/", "/a/.x"] {
        let mut pb = std::path::PathBuf::from(p);
        if pb.extension().is_none() {
            pb.set_extension("json");
        }
        assert_eq!(default_ext(p, "json"), pb.to_string_lossy().to_string(), "{}", p);
    }
    for (p, e) in [("/p/default.json", "json.bak"), ("/o/save.hg", "tmp"), ("/o/noext", "tmp"), ("/o/a.b", "")] {
        assert_eq!(with_extension(p, e), Path::new(p).with_extension(e).to_string_lossy().to_string());
    }
    assert_eq!(shellexpand("~/x", Some("/home/u")), "/home/u/x");
    assert_eq!(shellexpand("~/x", None), "~/x");
    assert_eq!(shellexpand("/x/~/y", Some("/h")), "/x/~/y");
}

#[test]
fn app_directories() {
    let d = "/data";
    assert_eq!(store_dir(d), "/data/nomansmanager/mods");
    assert_eq!(profiles_dir(d), "/data/nomansmanager/profiles");
    assert_eq!(config_file("/cfg"), "/cfg/nomansmanager/settings.json");
    assert_eq!(log_dir(d), "/data/nomansmanager/logs");
    assert_eq!(log_file(d), "/data/nomansmanager/logs/app.log");
    assert_eq!(saves_root(d), "/data/nomansmanager/saves");
    assert_eq!(mapping_cache_path(d), "/data/nomansmanager/saves/.nms_mapping_cache/mapping.json");
    assert_eq!(backups_save_dir(d), "/data/nomansmanager/saves/backups/save files");
    assert_eq!(backups_bases_dir(d), "/data/nomansmanager/saves/backups/bases");
    assert_eq!(output_dir(d), "/data/nomansmanager/saves/output");
    assert_eq!(output_bases_dir(d), "/data/nomansmanager/saves/output/bases");
    assert_eq!(output_nmsbase_dir(d), "/data/nomansmanager/saves/output/nmsbase");
    assert_eq!(get_mods_dir("/g"), "/g/GAMEDATA/MODS");
}

#[test]
fn finding_the_game() {
    let lib = "/lib";
    let probes = has_nms_probes(lib);
    assert_eq!(probes, vec!["/lib/steamapps/common/No Man's Sky", "/lib/steamapps/common/No Man's Sky/GAMEDATA/PCBANKS/NMSARC.globals.pak", "/lib/GAMEDATA/PCBANKS/NMSARC.globals.pak"]);
    let existing = vec![probes[0].clone(), probes[1].clone()];
    assert!(has_nms(lib, &existing));
    assert_eq!(library_choice(lib, &existing), Some("/lib/steamapps/common/No Man's Sky".to_string()));
    assert!(!has_nms(lib, &vec![probes[0].clone()]));
    let direct = vec!["/games/No Man's Sky/GAMEDATA/PCBANKS/NMSARC.globals.pak".to_string()];
    assert_eq!(library_choice("/games/No Man's Sky", &direct), Some("/games/No Man's Sky".to_string()));
    assert_eq!(library_choice("/nothing", &vec![]), None);

    let text = "\"libraryfolders\" {\n \"0\" {\n  \"path\"\t\t\"/home/u/.local/share/Steam\"\n }\n \"1\" { \"path\" \"/mnt/games\" }\n}";
    assert_eq!(parse_library_paths(text), vec!["/home/u/.local/share/Steam".to_string(), "/mnt/games".to_string()]);
    assert_eq!(candidate_libraryfolders("/h").len(), 5);
    assert_eq!(dedupe_paths(vec!["a".into(), "b".into(), "a".into(), "c".into(), "b".into()]), vec!["a", "b", "c"]);

    let p = "/g/No Man's Sky/GAMEDATA/PCBANKS";
    assert_eq!(manual_candidates(p), vec![p.to_string(), "/g/No Man's Sky/GAMEDATA".into(), "/g/No Man's Sky".into(), "/g".into()]);
    assert_eq!(manual_candidates("/x"), vec!["/x".to_string(), "/".into(), "/x".into(), "/x".into()]);
    assert_eq!(manual_candidates("/x/y"), vec!["/x/y".to_string(), "/x".into(), "/".into(), "/x/y".into()]);
    let probes = manual_probes(p);
    assert!(probes.contains(&"/g/No Man's Sky/GAMEDATA".to_string()));
    let existing = vec!["/g/No Man's Sky".to_string(), "/g/No Man's Sky/GAMEDATA".to_string()];
    assert_eq!(manual_choice(p, true, &existing), "/g/No Man's Sky");
    assert_eq!(manual_choice("/x/y", true, &vec![]), "/x/y");
    assert_eq!(manual_choice("/x/MODS", true, &vec!["/x/PCBANKS".to_string()]), "/");

    let fb = home_fallbacks("/h");
    assert_eq!(fb.len(), 3);
    assert_eq!(mount_candidate("/mnt/d"), "/mnt/d/SteamLibrary/steamapps/common/No Man's Sky");
    let ok = vec![fb[1].clone(), format!("{}/GAMEDATA/PCBANKS/NMSARC.globals.pak", fb[1])];
    assert_eq!(pick_fallback(&fb, &ok), Some(fb[1].clone()));
    assert_eq!(pick_fallback(&fb, &vec![fb[0].clone()]), None);
    let roots = candidate_roots(vec!["/native".into()], "/h");
    assert_eq!(roots.len(), 6);
    assert_eq!(roots[1], "/h/.local/share/Steam/steamapps/compatdata/275850/pfx/drive_c/users/steamuser/AppData/Roaming/HelloGames/NMS");
}

#[test]
fn migration_decisions() {
    assert!(should_copy_entry(false));
    assert!(!should_copy_entry(true));
    assert!(should_copy_settings(true, false));
    assert!(!should_copy_settings(true, true));
    assert!(!should_copy_settings(false, false));
    let prof = JsonValue::Object(vec![("mod_order".into(), JsonValue::Array(vec![JsonValue::Str("A".into()), JsonValue::Str("B".into())]))]);
    assert_eq!(mod_order_count(Some(&prof)), 2);
    assert_eq!(mod_order_count(None), 0);
    assert_eq!(mod_order_count(Some(&JsonValue::Object(vec![]))), 0);
    assert!(needs_repair(2, 0));
    assert!(!needs_repair(0, 0));
    assert!(!needs_repair(2, 1));
    assert!(same_file(Some(&vec![1, 2]), Some(&vec![1, 2])));
    assert!(!same_file(Some(&vec![1, 2]), Some(&vec![1, 3])));
    assert!(!same_file(None, Some(&vec![])));
    let te = |k: EntryKind, d: bool, a: Option<Vec<u8>>, b: Option<Vec<u8>>| TreeEntry { kind: k, counterpart_is_dir: d, old_bytes: a, new_bytes: b };
    assert!(trees_identical(&vec![te(EntryKind::Dir, true, None, None), te(EntryKind::File, false, Some(vec![1]), Some(vec![1]))]));
    assert!(!trees_identical(&vec![te(EntryKind::Dir, false, None, None)]));
    assert!(!trees_identical(&vec![te(EntryKind::File, false, Some(vec![1]), None)]));
    assert!(!trees_identical(&vec![te(EntryKind::Other, true, None, None)]));
    assert!(trees_identical(&vec![]));
    assert!(settings_valid(Some(&JsonValue::Object(vec![]))));
    assert!(!settings_valid(Some(&JsonValue::Array(vec![]))));
    assert!(!settings_valid(None));
}

#[test]
fn windows_drives_and_first_existing() {
    let c = windows_drive_candidates();
    assert_eq!(c.len(), 12);
    assert_eq!(c[0], "C:/Program Files (x86)/Steam/steamapps/common/No Man's Sky");
    assert_eq!(c[1], "C:/Steam/steamapps/common/No Man's Sky");
    assert_eq!(c[2], "C:/SteamLibrary/steamapps/common/No Man's Sky");
    assert_eq!(c[11], "F:/SteamLibrary/steamapps/common/No Man's Sky");
    assert_eq!(pick_existing(&c, &vec![c[7].clone(), c[4].clone()]), Some(c[4].clone()));
    assert_eq!(pick_existing(&c, &vec![]), None);
}

#[test]
fn managed_paths_lie_under_a_root() {
    let roots = vec!["/data/app".to_string(), "/saves/st_1".to_string()];
    assert!(is_managed_path("/data/app/backups/x.hg", &roots));
    assert!(is_managed_path("/saves/st_1", &roots));
    assert!(!is_managed_path("/data/apple/x", &roots));
    assert!(!is_managed_path("/etc/passwd", &roots));
    assert!(!is_managed_path("/x", &vec![]));
}

#[test]
fn renamed_mod_is_listed_under_new_id() {
    let mods = vec![pak("OldShip", "/s/OldShip.pak"), folder("Old_Folder", "/s/Old_Folder")];
    for (id, new_name, is_file) in [("OldShip", "New Ship", true), ("Old_Folder", "New Cool Mod", false)] {
        match rename_plan(&mods, id, new_name, "/s").unwrap() {
            RenamePlan::Move { dest, new_id, .. } => {
                let name = Path::new(&dest).file_name().unwrap().to_string_lossy().to_string();
                let listed = store_mods(vec![StoreEntry { name, path: dest.clone(), is_file, is_dir: !is_file, size_bytes: 1, has_lua: false, has_pak: false }]);
                assert_eq!(listed.len(), 1);
                assert_eq!(listed[0].id, new_id);
                assert_eq!(listed[0].source_path, dest);
            }
            other => panic!("{:?}", other),
        }
    }
}

#[test]
fn save_editor_folders_nest() {
    let root = saves_root("/d");
    assert_eq!(root, "/d/nomansmanager/saves");
    let backups = format!("{}/backups", root);
    for p in [mapping_cache_path("/d"), backups_save_dir("/d"), backups_bases_dir("/d"), output_dir("/d"), output_bases_dir("/d"), output_nmsbase_dir("/d")] {
        assert!(p.starts_with(&format!("{}/", root)), "{}", p);
    }
    assert!(backups_save_dir("/d").starts_with(&format!("{}/", backups)));
    assert!(backups_bases_dir("/d").starts_with(&format!("{}/", backups)));
    assert!(!output_dir("/d").starts_with(&backups));
}

#[test]
fn renamed_mod_is_listed_only_under_new_id() {
    let ship = || StoreEntry { name: "OldShip.pak".into(), path: "/s/OldShip.pak".into(), is_file: true, is_dir: false, size_bytes: 3, has_lua: false, has_pak: false };
    let other = || StoreEntry { name: "Other".into(), path: "/s/Other".into(), is_file: false, is_dir: true, size_bytes: 1, has_lua: false, has_pak: true };
    let mods = store_mods(vec![ship(), other()]);
    match rename_plan(&mods, "OldShip", "better flight mod", "/s").unwrap() {
        RenamePlan::Move { dest, new_id, .. } => {
            assert_eq!(new_id, "better_flight_mod");
            let moved = StoreEntry { name: "better_flight_mod.pak".into(), path: dest, is_file: true, is_dir: false, size_bytes: 3, has_lua: false, has_pak: false };
            let listed = store_mods(vec![moved, other()]);
            assert!(listed.iter().any(|m| m.id == new_id));
            assert!(!listed.iter().any(|m| m.id == "OldShip"));
        }
        other => panic!("{:?}", other),
    }
}
