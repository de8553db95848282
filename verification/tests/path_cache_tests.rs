use luminol_fs::project::RMVer;
use luminol_fs::list::FileSystem as ListFs;
use luminol_fs::list::{first_holding, layer_fits};
use luminol_fs::project::FileSystem as ProjectFs;
use luminol_fs::overlay::{File, Overlay};
use luminol_fs::FileSystem as Fs;
use luminol_fs::path_cache::{create_target_path, to_lowercase, with_trie_suffix, Cache, FileSystem};
use luminol_fs::{DirEntry, Error, Metadata, OpenFlags, CREATE, READ};

/// A filesystem held in memory: the paths of its files and of its directories.
#[derive(Debug, Default)]
struct MemoryFs {
    files: Vec<String>,
    dirs: Vec<String>,
    reads: usize,
}

fn parent_of(p: &str) -> &str {
    match p.rfind('/') {
        Some(i) => &p[..i],
        None => "",
    }
}

impl MemoryFs {
    fn new(files: &[&str], dirs: &[&str]) -> MemoryFs {
        MemoryFs {
            files: files.iter().map(|s| s.to_string()).collect(),
            dirs: dirs.iter().map(|s| s.to_string()).collect(),
            reads: 0,
        }
    }
}

impl luminol_fs::FileSystem for MemoryFs {
    type File = String;

    fn open_file(&mut self, path: &str, flags: OpenFlags) -> Result<String, Error> {
        if self.files.iter().any(|f| f == path) {
            Ok(path.to_string())
        } else if flags.contains(CREATE) {
            self.files.push(path.to_string());
            Ok(path.to_string())
        } else {
            Err(Error::NotExist)
        }
    }

    fn metadata(&mut self, path: &str) -> Result<Metadata, Error> {
        if self.files.iter().any(|f| f == path) {
            Ok(Metadata { is_file: true, size: 0 })
        } else if self.dirs.iter().any(|d| d == path) {
            Ok(Metadata { is_file: false, size: 0 })
        } else {
            Err(Error::NotExist)
        }
    }

    fn rename(&mut self, from: &str, to: &str) -> Result<(), Error> {
        for f in self.files.iter_mut() {
            if f == from {
                *f = to.to_string();
                return Ok(());
            }
        }
        Err(Error::NotExist)
    }

    fn path_exists(&mut self, path: &str) -> Result<bool, Error> {
        Ok(path.is_empty() || self.files.iter().any(|f| f == path) || self.dirs.iter().any(|d| d == path))
    }

    fn create_dir(&mut self, path: &str) -> Result<(), Error> {
        self.dirs.push(path.to_string());
        Ok(())
    }

    fn remove_dir(&mut self, path: &str) -> Result<(), Error> {
        let before = self.dirs.len();
        self.dirs.retain(|d| d != path);
        if self.dirs.len() == before {
            return Err(Error::NotExist);
        }
        let prefix = format!("{path}/");
        self.files.retain(|f| !f.starts_with(&prefix));
        self.dirs.retain(|d| !d.starts_with(&prefix));
        Ok(())
    }

    fn remove_file(&mut self, path: &str) -> Result<(), Error> {
        let before = self.files.len();
        self.files.retain(|f| f != path);
        if self.files.len() == before {
            Err(Error::NotExist)
        } else {
            Ok(())
        }
    }

    fn read_dir(&mut self, path: &str) -> Result<Vec<DirEntry>, Error> {
        if !path.is_empty() && !self.dirs.iter().any(|d| d == path) {
            return Err(Error::NotExist);
        }
        self.reads += 1;
        let mut out = Vec::new();
        for f in &self.files {
            if parent_of(f) == path {
                out.push(DirEntry::new(f.clone(), Metadata { is_file: true, size: 0 }));
            }
        }
        for d in &self.dirs {
            if parent_of(d) == path {
                out.push(DirEntry::new(d.clone(), Metadata { is_file: false, size: 0 }));
            }
        }
        Ok(out)
    }
}

fn project() -> FileSystem<MemoryFs> {
    let fs = MemoryFs::new(
        &["Data/MapInfos.rxdata", "Data/Map001.rxdata", "Graphics/Tilesets/Town.png", "Game.ini"],
        &["Data", "Graphics", "Graphics/Tilesets"],
    );
    match FileSystem::new(fs) {
        Ok(f) => f,
        Err(_) => unreachable!(),
    }
}

#[test]
fn lowercase_and_trie_keys() {
    assert_eq!(to_lowercase("Data/MapInfos.RXDATA"), "data/mapinfos.rxdata");
    assert_eq!(with_trie_suffix(""), "\0");
    assert_eq!(with_trie_suffix("data/map001"), "data/map001/\0");
    assert_eq!(create_target_path("", "data/new"), "data/new");
    assert_eq!(create_target_path("Data", "data/new/deeper"), "Data/new/deeper");
    assert_eq!(create_target_path("Data/Maps", "data/maps"), "Data/Maps");
}

#[test]
fn desensitize_finds_the_letter_case() {
    let mut fs = project();
    assert_eq!(fs.desensitize("data/mapinfos.rxdata"), Ok("Data/MapInfos.rxdata".to_string()));
    assert_eq!(fs.desensitize("DATA/MAP001.RXDATA"), Ok("Data/Map001.rxdata".to_string()));
    assert_eq!(fs.desensitize("graphics/tilesets/town.png"), Ok("Graphics/Tilesets/Town.png".to_string()));
    assert_eq!(fs.desensitize(""), Ok(String::new()));
}

#[test]
fn desensitize_finds_the_extension() {
    let mut fs = project();
    assert_eq!(fs.desensitize("data/mapinfos"), Ok("Data/MapInfos.rxdata".to_string()));
    assert_eq!(fs.desensitize("graphics/tilesets/town"), Ok("Graphics/Tilesets/Town.png".to_string()));
    assert_eq!(fs.desensitize("game"), Ok("Game.ini".to_string()));
}

#[test]
fn desensitize_reports_missing_paths() {
    let mut fs = project();
    assert_eq!(fs.desensitize("data/map002.rxdata"), Err(Error::NotExist));
    assert_eq!(fs.desensitize("nothing/here"), Err(Error::NotExist));
    assert_eq!(fs.path_exists("data/map002.rxdata"), Ok(false));
    assert_eq!(fs.path_exists("Data/mapinfos.RXDATA"), Ok(true));
}

#[test]
fn a_found_path_is_served_from_the_cache() {
    let mut fs = project();
    assert_eq!(fs.desensitize("data/map001.rxdata"), Ok("Data/Map001.rxdata".to_string()));
    let reads = fs.fs().reads;
    assert_eq!(fs.desensitize("Data/MAP001.rxdata"), Ok("Data/Map001.rxdata".to_string()));
    assert_eq!(fs.desensitize("data/mapinfos.rxdata"), Ok("Data/MapInfos.rxdata".to_string()));
    assert_eq!(fs.fs().reads, reads);
    fs.rebuild();
    assert_eq!(fs.desensitize("data/map001.rxdata"), Ok("Data/Map001.rxdata".to_string()));
    assert!(fs.fs().reads > reads);
}

#[test]
fn another_extension_of_a_known_file() {
    let mut fs = project();
    assert_eq!(fs.desensitize("data/map001.rxdata"), Ok("Data/Map001.rxdata".to_string()));
    fs.open_file("Data/Map001.json", OpenFlags::from_bits_truncate(CREATE)).unwrap();
    assert_eq!(fs.desensitize("data/map001.json"), Ok("Data/Map001.json".to_string()));
}

#[test]
fn files_are_opened_and_made_under_their_actual_names() {
    let mut fs = project();
    assert_eq!(fs.open_file("data/MAPINFOS.rxdata", OpenFlags::from_bits_truncate(READ)), Ok("Data/MapInfos.rxdata".to_string()));
    assert_eq!(fs.open_file("data/new.rxdata", OpenFlags::from_bits_truncate(READ)), Err(Error::NotExist));
    assert_eq!(
        fs.open_file("data/new.rxdata", OpenFlags::from_bits_truncate(READ | CREATE)),
        Ok("Data/new.rxdata".to_string())
    );
    assert_eq!(fs.desensitize("DATA/NEW.RXDATA"), Ok("Data/new.rxdata".to_string()));
    assert_eq!(
        fs.open_file("missing/new.rxdata", OpenFlags::from_bits_truncate(CREATE)),
        Err(Error::NotExist)
    );
}

#[test]
fn removed_files_are_forgotten() {
    let mut fs = project();
    assert_eq!(fs.path_exists("data/map001.rxdata"), Ok(true));
    assert_eq!(fs.remove_file("DATA/map001.RXDATA"), Ok(()));
    assert_eq!(fs.path_exists("data/map001.rxdata"), Ok(false));
    assert_eq!(fs.remove_file("data/map001.rxdata"), Err(Error::NotExist));
    assert_eq!(fs.path_exists("data/mapinfos.rxdata"), Ok(true));
}

#[test]
fn removed_directories_are_forgotten() {
    let mut fs = project();
    assert_eq!(fs.path_exists("graphics/tilesets/town.png"), Ok(true));
    assert_eq!(fs.remove_dir("GRAPHICS/tilesets"), Ok(()));
    assert_eq!(fs.path_exists("graphics/tilesets/town.png"), Ok(false));
    assert_eq!(fs.path_exists("graphics/tilesets"), Ok(false));
    assert_eq!(fs.path_exists("graphics"), Ok(true));
}

#[test]
fn directories_are_made_under_known_parents() {
    let mut fs = project();
    assert_eq!(fs.create_dir("graphics/pictures"), Ok(()));
    assert!(fs.fs().dirs.iter().any(|d| d == "Graphics/pictures"));
    assert_eq!(fs.metadata("GRAPHICS/PICTURES"), Ok(Metadata { is_file: false, size: 0 }));
    let entries = fs.read_dir("graphics").unwrap();
    assert_eq!(entries.len(), 2);
}

#[test]
fn renamed_files_are_found_under_their_new_name() {
    let mut fs = project();
    assert_eq!(fs.path_exists("game.ini"), Ok(true));
    assert_eq!(fs.rename("GAME.INI", "Game2.ini"), Ok(()));
    assert_eq!(fs.path_exists("game2.ini"), Ok(true));
}

#[test]
fn an_empty_cache_holds_nothing() {
    let c = Cache::new();
    assert_eq!(c.desensitize("data"), None);
    assert_eq!(c.desensitize(""), Some(String::new()));
    assert_eq!(c.get_path_from_cactus_index(3), "");
}

#[test]
fn overlay_prefers_the_primary_filesystem() {
    let primary = MemoryFs::new(&["Data/Map001.rxdata"], &["Data"]);
    let secondary = MemoryFs::new(&["Data/Map001.rxdata", "Graphics/Town.png"], &["Data", "Graphics"]);
    let mut o = Overlay::new(primary, secondary);
    assert!(matches!(o.open_file("Data/Map001.rxdata", OpenFlags::from_bits_truncate(READ)), Ok(File::Primary(_))));
    assert!(matches!(o.open_file("Graphics/Town.png", OpenFlags::from_bits_truncate(READ)), Ok(File::Secondary(_))));
    assert!(matches!(o.open_file("Graphics/New.png", OpenFlags::from_bits_truncate(CREATE)), Ok(File::Primary(_))));
    assert!(matches!(o.open_file("Nothing.png", OpenFlags::from_bits_truncate(READ)), Err(Error::NotExist)));
    assert_eq!(o.path_exists("Graphics/Town.png"), Ok(true));
    assert_eq!(o.path_exists("Nothing.png"), Ok(false));
    assert_eq!(o.metadata("Graphics"), Ok(Metadata { is_file: false, size: 0 }));
    let entries = o.read_dir("Data").unwrap();
    assert_eq!(entries.len(), 1);
    assert_eq!(entries[0].path, "Data/Map001.rxdata");
    let mut cached = FileSystem::new(o).unwrap();
    assert_eq!(cached.desensitize("graphics/town.png"), Ok("Graphics/Town.png".to_string()));
}

#[test]
fn provided_create_and_remove() {
    let mut m = MemoryFs::new(&["Data/A.rxdata"], &["Data", "Audio"]);
    assert_eq!(Fs::create_file(&mut m, "Data/B.rxdata"), Ok("Data/B.rxdata".to_string()));
    assert!(m.files.iter().any(|f| f == "Data/B.rxdata"));
    assert_eq!(Fs::remove(&mut m, "Data/A.rxdata"), Ok(()));
    assert!(!m.files.iter().any(|f| f == "Data/A.rxdata"));
    assert_eq!(Fs::remove(&mut m, "Audio"), Ok(()));
    assert!(!m.dirs.iter().any(|d| d == "Audio"));
    assert_eq!(Fs::remove(&mut m, "Nothing"), Err(Error::NotExist));
}

#[test]
fn project_filesystem_states() {
    let mut p: ProjectFs<MemoryFs, MemoryFs> = ProjectFs::new();
    assert!(!p.project_loaded());
    assert_eq!(p.project_path(), None);
    assert_eq!(p.path_exists("Game.ini"), Err(Error::NotLoaded));
    assert!(matches!(p.read_dir(""), Err(Error::NotLoaded)));
    p.load_host(MemoryFs::new(&["Game.ini"], &[]), "/games/town".to_string());
    assert!(p.project_loaded());
    assert_eq!(p.project_path(), Some("/games/town".to_string()));
    assert_eq!(p.path_exists("Game.ini"), Ok(true));
    assert_eq!(p.path_exists("game.ini"), Ok(false));
    let layer = match FileSystem::new(MemoryFs::new(&["Game.ini", "Data/Map001.rxdata"], &["Data"])) {
        Ok(l) => l,
        Err(_) => unreachable!(),
    };
    p.finish_loading(layer, MemoryFs::new(&["Game.ini"], &[]), "/games/town".to_string());
    assert_eq!(p.path_exists("game.ini"), Ok(true));
    assert_eq!(p.path_exists("DATA/map001.rxdata"), Ok(true));
    p.rebuild_path_cache();
    assert_eq!(p.path_exists("data/MAP001.rxdata"), Ok(true));
    assert!(p.host().is_some());
    p.unload_project();
    assert_eq!(p.metadata("Game.ini"), Err(Error::NotLoaded));
}

#[test]
fn list_asks_the_filesystems_in_order() {
    let mut l: ListFs<MemoryFs> = ListFs::new();
    assert_eq!(l.path_exists("Game.ini"), Ok(false));
    assert!(matches!(l.open_file("Game.ini", OpenFlags::from_bits_truncate(READ)), Err(Error::NotExist)));
    assert_eq!(l.create_dir("Data"), Err(Error::NoFilesystems));
    assert_eq!(l.read_dir(""), Ok(vec![]));
    l.push(MemoryFs::new(&["Game.ini"], &["Data"]));
    l.push(MemoryFs::new(&["Game.ini", "Data/Map001.rxdata", "Audio/BGM.ogg"], &["Data", "Audio"]));
    assert_eq!(l.path_exists("Audio/BGM.ogg"), Ok(true));
    assert_eq!(l.open_file("Data/Map001.rxdata", OpenFlags::from_bits_truncate(READ)), Ok("Data/Map001.rxdata".to_string()));
    assert_eq!(l.open_file("Data/New.rxdata", OpenFlags::from_bits_truncate(CREATE)), Ok("Data/New.rxdata".to_string()));
    assert_eq!(l.open_file("Audio/New.ogg", OpenFlags::from_bits_truncate(CREATE)), Ok("Audio/New.ogg".to_string()));
    assert_eq!(l.metadata("Audio"), Ok(Metadata { is_file: false, size: 0 }));
    assert_eq!(l.rename("Audio/BGM.ogg", "Audio/Theme.ogg"), Ok(()));
    assert_eq!(l.path_exists("Audio/Theme.ogg"), Ok(true));
    let root = l.read_dir("").unwrap();
    let names: Vec<&str> = root.iter().map(|e| e.path.as_str()).collect();
    assert_eq!(names, vec!["Game.ini", "Data", "Audio"]);
    assert_eq!(l.create_dir("Graphics"), Ok(()));
    assert_eq!(l.remove_file("Game.ini"), Ok(()));
    assert_eq!(l.path_exists("Game.ini"), Ok(true));
}

#[test]
fn a_listing_is_stored_under_lowercase_keys() {
    let mut c = Cache::new();
    let entries = vec![
        DirEntry::new("Data".to_string(), Metadata { is_file: false, size: 0 }),
        DirEntry::new("Game.INI".to_string(), Metadata { is_file: true, size: 3 }),
        DirEntry::new("..".to_string(), Metadata { is_file: false, size: 0 }),
    ];
    let found = c.store_listing("", None, 1, &entries, "data");
    assert!(matches!(found, Some((ref n, _)) if n == "Data"));
    assert_eq!(c.desensitize("DATA"), Some("Data".to_string()));
    assert_eq!(c.desensitize("game.ini"), Some("Game.INI".to_string()));
    assert_eq!(c.desensitize("game"), Some("Game.INI".to_string()));
    assert_eq!(c.store_listing("", None, 1, &entries, "audio"), None);
    let (_, data) = found.unwrap();
    let inner = vec![DirEntry::new("Data/Map001.rxdata".to_string(), Metadata { is_file: true, size: 0 })];
    let m = c.store_listing("data", Some(data), 2, &inner, "map001");
    assert!(matches!(m, Some((ref n, _)) if n == "Map001.rxdata"));
    assert_eq!(c.desensitize("data/map001.rxdata"), Some("Data/Map001.rxdata".to_string()));
    let (_, map) = m.unwrap();
    assert!(c.store_sibling("data/map001/\0", "json", map, "Data/Map001.json"));
    assert_eq!(c.desensitize("data/map001.json"), Some("Data/Map001.json".to_string()));
    assert!(!c.store_sibling("data/map001/\0", "json", 999, "Data/Map001.json"));
}

#[test]
fn project_version_is_detected_through_the_project_filesystem() {
    let mut p: ProjectFs<MemoryFs, MemoryFs> = ProjectFs::new();
    assert_eq!(p.detect_rm_ver(), None);
    p.load_host(MemoryFs::new(&["Data/Actors.rvdata2"], &["Data"]), "/games/ace".to_string());
    assert_eq!(p.detect_rm_ver(), Some(RMVer::Ace));
    p.load_host(MemoryFs::new(&["Game.rgssad"], &[]), "/games/xp".to_string());
    assert_eq!(p.detect_rm_ver(), Some(RMVer::XP));
    p.load_host(MemoryFs::new(&["Game.ini"], &[]), "/games/none".to_string());
    assert_eq!(p.detect_rm_ver(), None);
}

#[test]
fn overlay_changes_only_the_primary_filesystem() {
    let primary = MemoryFs::new(&["Data/Map001.rxdata"], &["Data"]);
    let secondary = MemoryFs::new(&["Data/Map001.rxdata", "Graphics/Town.png"], &["Data", "Graphics"]);
    let mut o = Overlay::new(primary, secondary);
    assert_eq!(o.create_dir("Audio"), Ok(()));
    assert_eq!(o.remove_file("Data/Map001.rxdata"), Ok(()));
    assert_eq!(o.remove_dir("Graphics"), Err(Error::NotExist));
    assert!(o.primary().dirs.iter().any(|d| d == "Audio"));
    assert!(!o.primary().files.iter().any(|f| f == "Data/Map001.rxdata"));
    assert_eq!(o.secondary().files, vec!["Data/Map001.rxdata".to_string(), "Graphics/Town.png".to_string()]);
    assert_eq!(o.secondary().dirs, vec!["Data".to_string(), "Graphics".to_string()]);
    let entries = o.read_dir("Data").unwrap();
    assert_eq!(entries.len(), 1);
}

#[test]
fn the_first_holding_filesystem_is_chosen() {
    assert_eq!(first_holding(&vec![]), None);
    assert_eq!(first_holding(&vec![false, false]), None);
    assert_eq!(first_holding(&vec![false, true, true]), Some(1));
    assert!(layer_fits(true, false, false));
    assert!(layer_fits(false, true, true));
    assert!(!layer_fits(false, false, true));
    assert!(!layer_fits(false, true, false));
}

#[test]
fn regen_reads_each_unknown_directory_once_going_down() {
    let mut fs = MemoryFs::new(
        &["Data/MapInfos.rxdata", "Graphics/Tilesets/Town.png"],
        &["Data", "Graphics", "Graphics/Tilesets"],
    );
    let mut c = Cache::new();
    assert_eq!(c.regen(&mut fs, "graphics/tilesets/town.png"), Ok(()));
    assert_eq!(fs.reads, 3);
    assert_eq!(c.desensitize("GRAPHICS/tilesets/TOWN.png"), Some("Graphics/Tilesets/Town.png".to_string()));
    assert_eq!(c.regen(&mut fs, "graphics/tilesets/town.png"), Ok(()));
    assert_eq!(fs.reads, 3);
    // A name that no entry matches ends the walk after its directory was read.
    assert_eq!(c.regen(&mut fs, "data/nothing/deeper.txt"), Ok(()));
    assert_eq!(fs.reads, 4);
    assert_eq!(c.desensitize("data/mapinfos.rxdata"), Some("Data/MapInfos.rxdata".to_string()));
}
