use bebasin::error::{decimal_string, ErrorKind};
use bebasin::hosts::is_installed;
use bebasin::os::{
    has_admin_access_for, hosts_backup_path, hosts_path, is_has_admin_access, owner_executable_mode,
};
use bebasin::text::{chars_of, contains_chars, contains_str};
use bebasin::updater::{
    md5_hex, to_hex_lower, Checksum, Latest, Platform, Release, ReleaseAsset, Updater,
    CURRENT_VERSION,
};

fn latest(version: u64, linux: &str) -> Latest {
    Latest::new(
        version,
        Checksum::new(linux.to_string(), "w".to_string(), "m".to_string()),
    )
}

#[test]
fn new_updater_knows_no_release() {
    assert!(Updater::new().latest.is_none());
}

#[test]
fn updatable_only_for_newer_versions() {
    let mut u = Updater::new();
    u.latest = Some(latest(CURRENT_VERSION + 1, ""));
    assert!(u.is_updatable());
    u.latest = Some(latest(CURRENT_VERSION, ""));
    assert!(!u.is_updatable());
    u.latest = Some(latest(20190101, ""));
    assert!(!u.is_updatable());
}

#[test]
fn get_latest_info_records_fetched_release() {
    let mut u = Updater::new();
    let r = u.get_latest_info(Ok(latest(20300101, "abc")));
    assert_eq!(r.unwrap().version, 20300101);
    assert_eq!(u.latest.as_ref().unwrap().checksum.linux, "abc");
    let e = u.get_latest_info(Err(ErrorKind::SerdeJSONError("bad json".to_string())));
    assert_eq!(e.err(), Some(ErrorKind::SerdeJSONError("bad json".to_string())));
    assert_eq!(u.latest.as_ref().unwrap().version, 20300101);
}

#[test]
fn md5_hex_known_values() {
    assert_eq!(md5_hex(b""), "d41d8cd98f00b204e9800998ecf8427e");
    assert_eq!(md5_hex(b"abc"), "900150983cd24fb0d6963f7d28e17f72");
    assert_eq!(
        md5_hex(b"abcdefghijklmnopqrstuvwxyz"),
        "c3fcd3d76192e4007dfb496cca67e13b"
    );
}

#[test]
fn hex_of_bytes() {
    assert_eq!(to_hex_lower(&vec![0x00, 0x0f, 0xa0, 0xff]), "000fa0ff");
    assert_eq!(to_hex_lower(&vec![]), "");
}

#[test]
fn verify_download_accepts_matching_checksum() {
    let mut u = Updater::new();
    u.latest = Some(latest(1, "900150983cd24fb0d6963f7d28e17f72"));
    assert_eq!(u.verify_download(Platform::Linux, b"abc"), Ok(()));
}

#[test]
fn verify_download_rejects_corrupt_data() {
    let mut u = Updater::new();
    u.latest = Some(latest(1, "900150983cd24fb0d6963f7d28e17f72"));
    assert_eq!(
        u.verify_download(Platform::Linux, b"abd"),
        Err(ErrorKind::String("Download corrupt".to_string()))
    );
    assert_eq!(
        u.verify_download(Platform::Windows, b"abc"),
        Err(ErrorKind::String("Download corrupt".to_string()))
    );
}

fn asset(name: &str) -> ReleaseAsset {
    ReleaseAsset { name: name.to_string(), size: 1, browser_download_url: format!("https://x/{}", name) }
}

#[test]
fn assets_for_platform() {
    let release = Release {
        assets: vec![
            asset("bebasin-windows.zip"),
            asset("bebasin-linux.zip"),
            asset("bebasin-macos.zip"),
            asset("bebasin-linux-debug.zip"),
        ],
    };
    assert_eq!(release.assets_for(Platform::Linux), vec![1, 3]);
    assert_eq!(release.assets_for(Platform::Windows), vec![0]);
    assert_eq!(release.assets_for(Platform::MacOs), vec![2]);
    assert_eq!(Release { assets: vec![] }.assets_for(Platform::Linux), Vec::<usize>::new());
}

#[test]
fn installed_marker() {
    assert!(is_installed("127.0.0.1 localhost\n# # Bebasin\n0.0.0.0 a.com\n"));
    assert!(!is_installed("127.0.0.1 localhost\n# Bebasin\n"));
    assert!(!is_installed(""));
}

#[test]
fn admin_access_is_reported_for_non_root() {
    assert!(!has_admin_access_for(0));
    assert!(has_admin_access_for(1000));
    let _ = is_has_admin_access();
}

#[test]
fn executable_mode_adds_owner_rwx() {
    assert_eq!(owner_executable_mode(0o100644), 0o744);
    assert_eq!(owner_executable_mode(0o4600), 0o4700);
    assert_eq!(owner_executable_mode(0), 0o700);
}

#[test]
fn substring_search() {
    assert!(contains_str("hello world", "o w"));
    assert!(contains_str("abc", ""));
    assert!(!contains_str("ab", "abc"));
    assert!(contains_chars(&chars_of("xyz"), &chars_of("xyz")));
    assert!(!contains_chars(&chars_of("xyz"), &chars_of("yx")));
}

fn archive_with(entries: &[(&str, &[u8])]) -> Vec<u8> {
    let mut w = zip::ZipWriter::new(std::io::Cursor::new(Vec::new()));
    let options = zip::write::SimpleFileOptions::default()
        .compression_method(zip::CompressionMethod::Stored);
    for (name, data) in entries {
        w.start_file(name.to_string(), options).unwrap();
        std::io::Write::write_all(&mut w, data).unwrap();
    }
    w.finish().unwrap().into_inner()
}

fn updater_for(linux: &str, windows: &str) -> Updater {
    let mut u = Updater::new();
    u.latest = Some(Latest::new(
        1,
        Checksum::new(linux.to_string(), windows.to_string(), "m".to_string()),
    ));
    u
}

#[test]
fn extract_update_takes_program_entry() {
    let archive = archive_with(&[("README", b"read me"), ("bebasin", b"\x7fELF program")]);
    let u = updater_for(&md5_hex(&archive), "");
    assert_eq!(u.extract_update(Platform::Linux, &archive), Ok(b"\x7fELF program".to_vec()));
}

#[test]
fn extract_update_windows_entry() {
    let archive = archive_with(&[("bebasin", b"unix"), ("bebasin.exe", b"MZ windows")]);
    let u = updater_for("", &md5_hex(&archive));
    assert_eq!(u.extract_update(Platform::Windows, &archive), Ok(b"MZ windows".to_vec()));
}

#[test]
fn extract_update_missing_entry() {
    let archive = archive_with(&[("other", b"x")]);
    let u = updater_for(&md5_hex(&archive), "");
    match u.extract_update(Platform::Linux, &archive) {
        Err(ErrorKind::ZipError(_)) => {}
        other => panic!("unexpected {:?}", other),
    }
}

#[test]
fn extract_update_not_an_archive() {
    let data = b"not a zip archive".to_vec();
    let u = updater_for(&md5_hex(&data), "");
    match u.extract_update(Platform::Linux, &data) {
        Err(ErrorKind::ZipError(_)) => {}
        other => panic!("unexpected {:?}", other),
    }
}

#[test]
fn extract_update_rejects_corrupt_download() {
    let archive = archive_with(&[("bebasin", b"program")]);
    let u = updater_for("00000000000000000000000000000000", "");
    assert_eq!(
        u.extract_update(Platform::Linux, &archive),
        Err(ErrorKind::String("Download corrupt".to_string()))
    );
}

#[test]
fn error_messages() {
    assert_eq!(ErrorKind::ParseError { line_index: 0 }.message(), "malformed hosts file: line 1");
    assert_eq!(ErrorKind::ParseError { line_index: 41 }.message(), "malformed hosts file: line 42");
    assert_eq!(ErrorKind::IOError("no such file".to_string()).message(), "no such file");
    assert_eq!(ErrorKind::String("Download corrupt".to_string()).message(), "Download corrupt");
    assert_eq!(decimal_string(0), "0");
    assert_eq!(decimal_string(1234567890), "1234567890");
}

#[test]
fn hosts_paths_by_platform() {
    assert_eq!(hosts_path(Platform::Linux), "/etc/hosts");
    assert_eq!(hosts_backup_path(Platform::Linux), "/etc/hosts-backup");
    assert_eq!(hosts_path(Platform::MacOs), "/private/etc/hosts");
    assert_eq!(hosts_path(Platform::Windows), "C:\\Windows\\System32\\drivers\\etc\\hosts");
    assert_eq!(
        hosts_backup_path(Platform::Windows),
        "C:\\Windows\\System32\\drivers\\etc\\hosts-backup"
    );
}
