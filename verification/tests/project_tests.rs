use luminol_fs::list::{first_filesystem, unique_entries};
use luminol_fs::overlay::{lookup_side, open_side, Overlay, Side};
use luminol_fs::project::{archive_entry_index, archive_version, detect_rm_ver, rtp_candidates, rtp_outcome, update_recent_projects, LoadResult, RMVer};
use luminol_fs::{DirEntry, Error, Metadata};

fn entry(path: &str, is_file: bool) -> DirEntry {
    DirEntry::new(path.to_string(), Metadata { is_file, size: 0 })
}

#[test]
fn extensions() {
    assert_eq!(archive_version("Game.rgssad"), Some(RMVer::XP));
    assert_eq!(archive_version("dir/Game.tar.rgss3a"), Some(RMVer::Ace));
    assert_eq!(archive_version("Game.rgss2a"), Some(RMVer::VX));
    assert_eq!(archive_version(".rgssad"), None);
    assert_eq!(archive_version("rgssad"), None);
    assert_eq!(archive_version("a.rgssad/b"), None);
    assert_eq!(archive_version("Game.RGSSAD"), None);
}

#[test]
fn rm_version_detection() {
    assert_eq!(detect_rm_ver(Some(true), None, None, &None), Some(RMVer::XP));
    assert_eq!(detect_rm_ver(Some(false), Some(true), None, &None), Some(RMVer::VX));
    assert_eq!(detect_rm_ver(Some(false), Some(false), Some(true), &None), Some(RMVer::Ace));
    assert_eq!(detect_rm_ver(None, Some(true), Some(true), &None), None);
    let root = Some(vec![entry("Game.ini", true), entry("Game.rgss2a", true), entry("x.rgssad", true)]);
    assert_eq!(detect_rm_ver(Some(false), Some(false), Some(false), &root), Some(RMVer::VX));
    assert_eq!(detect_rm_ver(Some(false), Some(false), Some(false), &Some(vec![entry("Game.ini", true)])), None);
    let entries = vec![entry("Game.rgssad", false), entry("Game.ini", true), entry("Game.rgss3a", true)];
    assert_eq!(archive_entry_index(&entries), Some(2));
}

#[test]
fn rtps_and_recent_projects() {
    let values = vec![Some("Standard".to_string()), Some(String::new()), Some("Standard".to_string()), None, Some("Extra".to_string())];
    assert_eq!(rtp_candidates(&values), vec!["Standard".to_string(), "Extra".to_string()]);
    let (found, missing) = rtp_outcome(
        &vec!["Standard".to_string(), "Extra".to_string()],
        &vec![Some("/rtp/Standard".to_string()), None],
    );
    assert_eq!(found, vec!["/rtp/Standard".to_string()]);
    assert_eq!(missing, vec!["Extra".to_string()]);
    let result = LoadResult { missing_rtps: missing };
    assert_eq!(result.missing_rtps.len(), 1);
    let recent = vec!["/a".to_string(), "/b".to_string(), "/a".to_string(), "/c".to_string()];
    assert_eq!(update_recent_projects(&recent, "/a"), vec!["/a".to_string(), "/b".to_string(), "/c".to_string()]);
    assert_eq!(update_recent_projects(&vec![], "/z"), vec!["/z".to_string()]);
}

#[test]
fn overlay_and_list_routing() {
    let o = Overlay::new(1u8, "two");
    assert_eq!(*o.primary(), 1);
    assert_eq!(*o.secondary(), "two");
    let s = o.swap();
    assert_eq!(*s.primary(), "two");
    assert_eq!(*s.swap().primary(), 1);
    assert_eq!(open_side(false, true, true), Side::Primary);
    assert_eq!(open_side(false, false, true), Side::Secondary);
    assert_eq!(open_side(false, false, false), Side::Primary);
    assert_eq!(lookup_side(true), Side::Primary);
    assert!(matches!(first_filesystem(0), Err(Error::NoFilesystems)));
    assert_eq!(first_filesystem(3), Ok(0));
    let merged = unique_entries(&vec![entry("a", true), entry("b", false), entry("a", true), entry("a", false)]);
    let paths: Vec<(String, bool)> = merged.into_iter().map(|e| (e.path, e.metadata.is_file)).collect();
    assert_eq!(paths, vec![("a".to_string(), true), ("b".to_string(), false), ("a".to_string(), false)]);
}
