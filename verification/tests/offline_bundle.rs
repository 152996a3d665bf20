use codex_patch::offline_bundle::{
    check_mac_package_length, mac_appcast_entry, mac_offline_source, mac_package_path, mac_paths,
    mac_update, normalize_macos_architecture, trim_trailing_slashes, validate_mac_metadata,
    windows_endpoints, windows_endpoints_from, windows_paths, MacOfflineMetadata, OfflineBundle,
};

#[test]
fn normalizes_supported_macos_architectures() {
    for (raw, expected) in [
        ("aarch64", "arm64"),
        ("arm64", "arm64"),
        ("x86_64", "x86_64"),
        ("x64", "x86_64"),
    ] {
        assert_eq!(normalize_macos_architecture(raw), Some(expected));
    }
    assert_eq!(normalize_macos_architecture("armv7"), None);
}

#[test]
fn offline_root_is_set_only_once() {
    let mut bundle = OfflineBundle::new();
    assert!(!bundle.is_initialized());
    assert_eq!(
        bundle.root().unwrap_err().message(),
        "内置离线资源尚未初始化"
    );
    let err = bundle.initialize("/missing".to_string(), false).unwrap_err();
    assert_eq!(err.message(), "内置离线资源目录不存在：/missing");
    assert!(!bundle.is_initialized());

    bundle.initialize("/opt/offline".to_string(), true).unwrap();
    assert!(bundle.is_initialized());
    assert_eq!(bundle.root().unwrap(), "/opt/offline");

    let err = bundle.initialize("/opt/other".to_string(), true).unwrap_err();
    assert_eq!(err.message(), "内置离线资源目录已初始化：/opt/other");
    assert_eq!(bundle.root().unwrap(), "/opt/offline");
}

#[test]
fn windows_endpoints_need_every_file() {
    let required = vec![
        "w/latest/manifest".to_string(),
        "w/latest/checksums".to_string(),
        "w/latest/win-x64".to_string(),
    ];
    let url = Some("file:///w/".to_string());
    assert_eq!(
        windows_endpoints_from("w", &required, &vec![true, false, false], url.clone())
            .unwrap_err()
            .message(),
        "Windows 内置离线资源不完整：w/latest/checksums"
    );
    assert_eq!(
        windows_endpoints_from("w", &required, &vec![true, true, true], url).unwrap(),
        "file:///w"
    );
    assert_eq!(
        windows_endpoints_from("w", &required, &vec![true, true, true], None)
            .unwrap_err()
            .message(),
        "无法生成离线目录 URL：w"
    );
}

#[test]
fn windows_endpoints_from_an_initialized_bundle() {
    let bundle = OfflineBundle::new();
    assert_eq!(
        windows_endpoints(&bundle, &vec![true, true, true]).unwrap_err().message(),
        "内置离线资源尚未初始化"
    );
    let mut bundle = OfflineBundle::new();
    bundle.initialize("/srv/offline".to_string(), true).unwrap();
    let (windows, required) = windows_paths(&bundle).unwrap();
    assert_eq!(windows, "/srv/offline/windows");
    assert_eq!(required[0], "/srv/offline/windows/latest/manifest");
    assert_eq!(
        windows_endpoints(&bundle, &vec![true, true, true]).unwrap(),
        "file:///srv/offline/windows"
    );
    assert_eq!(
        windows_endpoints(&bundle, &vec![false, true, true]).unwrap_err().message(),
        "Windows 内置离线资源不完整：/srv/offline/windows/latest/manifest"
    );
}

#[test]
fn trailing_slashes_are_trimmed() {
    assert_eq!(trim_trailing_slashes("file:///a///"), "file:///a");
    assert_eq!(trim_trailing_slashes("///"), "");
    assert_eq!(trim_trailing_slashes("abc"), "abc");
}

fn metadata(arch: &str, signature: &str, length: u64) -> MacOfflineMetadata {
    MacOfflineMetadata {
        architecture: arch.to_string(),
        build: 1,
        short_version: "1.0".to_string(),
        minimum_system_version: None,
        pub_date: None,
        package_file: "Codex.zip".to_string(),
        content_length: length,
        ed_signature: signature.to_string(),
    }
}

#[test]
fn mac_metadata_is_checked_against_the_architecture() {
    assert_eq!(
        validate_mac_metadata(&metadata("arm64", "sig", 10), "aarch64").unwrap(),
        "arm64"
    );
    assert_eq!(
        validate_mac_metadata(&metadata("arm64", "sig", 10), "ppc")
            .unwrap_err()
            .message(),
        "不支持的 macOS 离线架构：ppc"
    );
    assert_eq!(
        validate_mac_metadata(&metadata("arm64", "sig", 10), "x64")
            .unwrap_err()
            .message(),
        "macOS 内置离线包架构不匹配：需要 x86_64，实际 arm64"
    );
    assert_eq!(
        validate_mac_metadata(&metadata("x86_64", " \t\u{3000}", 10), "x86_64")
            .unwrap_err()
            .message(),
        "macOS 内置离线包缺少签名或长度"
    );
    assert_eq!(
        validate_mac_metadata(&metadata("x86_64", "sig", 0), "x86_64")
            .unwrap_err()
            .message(),
        "macOS 内置离线包缺少签名或长度"
    );
    check_mac_package_length(42, 42).unwrap();
    assert_eq!(
        check_mac_package_length(41, 42).unwrap_err().message(),
        "macOS 内置离线包长度不匹配：41 != 42"
    );
    assert_eq!(mac_offline_source("arm64"), "offline://embedded/macos/arm64");
}

#[test]
fn mac_update_copies_the_checked_metadata() {
    let (source, update) = mac_update(
        metadata("arm64", "sig", 10),
        "aarch64",
        10,
        "/srv/offline/macos/Codex.zip",
        Some("file:///srv/offline/macos/Codex.zip".to_string()),
    )
    .unwrap();
    assert_eq!(source, "offline://embedded/macos/arm64");
    assert_eq!(update.build, 1);
    assert_eq!(update.short_version, "1.0");
    assert_eq!(update.url, "file:///srv/offline/macos/Codex.zip");
    assert_eq!(update.length, 10);
    assert_eq!(update.ed_signature.as_deref(), Some("sig"));
    assert_eq!(
        mac_update(metadata("arm64", "sig", 10), "x64", 10, "p", Some("file:///p".to_string()))
            .unwrap_err()
            .message(),
        "macOS 内置离线包架构不匹配：需要 x86_64，实际 arm64"
    );
    assert_eq!(
        mac_update(metadata("arm64", "sig", 10), "arm64", 9, "p", Some("file:///p".to_string()))
            .unwrap_err()
            .message(),
        "macOS 内置离线包长度不匹配：9 != 10"
    );
    assert_eq!(
        mac_update(metadata("arm64", "sig", 10), "arm64", 10, "rel/p", None)
            .unwrap_err()
            .message(),
        "无法生成离线文件 URL：rel/p"
    );
}

#[test]
fn mac_package_paths_and_url_from_an_initialized_bundle() {
    let mut bundle = OfflineBundle::new();
    bundle.initialize("/srv/offline".to_string(), true).unwrap();
    let (macos, metadata_path) = mac_paths(&bundle).unwrap();
    assert_eq!(macos, "/srv/offline/macos");
    assert_eq!(metadata_path, "/srv/offline/macos/metadata.json");
    let package = mac_package_path(&macos, "Codex.zip");
    assert_eq!(package, "/srv/offline/macos/Codex.zip");
    let (_, update) = mac_appcast_entry(metadata("arm64", "sig", 10), "arm64", 10, &package).unwrap();
    assert_eq!(update.url, "file:///srv/offline/macos/Codex.zip");
    assert_eq!(
        mac_appcast_entry(metadata("arm64", "sig", 10), "arm64", 10, "relative/Codex.zip")
            .unwrap_err()
            .message(),
        "无法生成离线文件 URL：relative/Codex.zip"
    );
}

#[test]
fn file_urls_are_the_plain_paths() {
    let mut bundle = OfflineBundle::new();
    bundle.initialize("/srv/offline-1.0/res_x".to_string(), true).unwrap();
    assert_eq!(
        windows_endpoints(&bundle, &vec![true, true, true]).unwrap(),
        "file:///srv/offline-1.0/res_x/windows"
    );
    let (_, update) =
        mac_appcast_entry(metadata("arm64", "sig", 10), "arm64", 10, "/srv/a.b/Codex-1.zip").unwrap();
    assert_eq!(update.url, "file:///srv/a.b/Codex-1.zip");
}

#[test]
fn file_urls_escape_spaces_and_non_ascii_text() {
    let (_, update) =
        mac_appcast_entry(metadata("arm64", "sig", 10), "arm64", 10, "/srv/off line/Codex é.zip").unwrap();
    assert_eq!(update.url, "file:///srv/off%20line/Codex%20%C3%A9.zip");
    let mut bundle = OfflineBundle::new();
    bundle.initialize("/srv/离线 资源".to_string(), true).unwrap();
    assert_eq!(
        windows_endpoints(&bundle, &vec![true, true, true]).unwrap(),
        "file:///srv/%E7%A6%BB%E7%BA%BF%20%E8%B5%84%E6%BA%90/windows"
    );
}
