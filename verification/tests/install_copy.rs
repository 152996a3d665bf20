use codex_patch::digest::sha256;
use codex_patch::install::{
    already_patched_report, check_activation, check_activation_parent, copy_already_patched_report,
    copy_patched_report, marker_matches, new_marker, normalized_path_key, patched_chinese_install,
    patched_copy_name, patched_report, safe_version_component, source_app_root, CopyProbe,
    InstalledWindowsCodex, PatchedCopyMarker, PATCH_SCHEMA_VERSION,
};
use codex_patch::text::encode_hex;

fn msix() -> InstalledWindowsCodex {
    InstalledWindowsCodex {
        path: "/apps/WindowsApps/OpenAI.Codex_1.2.3.0_x64".to_string(),
        version: "1.2.3".to_string(),
        arch: Some("x64".to_string()),
        source: "msix".to_string(),
        package_family_name: Some("OpenAI.Codex_test".to_string()),
        installed_at: Some(7),
    }
}

#[test]
fn path_keys_ignore_separators_case_and_trailing_slashes() {
    assert_eq!(normalized_path_key("C:/Program Files/Codex/"), "c:\\program files\\codex");
    assert_eq!(normalized_path_key("C:\\Program Files\\Codex\\\\"), "c:\\program files\\codex");
    assert_eq!(normalized_path_key("ÄBC/"), "Äbc");
    let key = normalized_path_key("D:/X/Y//");
    assert_eq!(normalized_path_key(&key), key);
    assert_eq!(normalized_path_key("///"), "");
}

#[test]
fn version_components_are_safe_directory_names() {
    assert_eq!(safe_version_component("1.2.3-beta_4"), "1.2.3-beta_4");
    assert_eq!(safe_version_component("1.2 (3)/x"), "1.2__3__x");
    assert_eq!(safe_version_component(""), "unknown");
    assert_eq!(safe_version_component("版本"), "__");
}

#[test]
fn copy_name_is_version_and_digest_prefix() {
    let name = patched_copy_name("C:/Apps/Codex/", "1.2.3");
    let mut data = b"c:\\apps\\codex".to_vec();
    data.push(0);
    data.extend_from_slice(b"1.2.3");
    let digest = encode_hex(&sha256(&data));
    assert_eq!(name, format!("1.2.3-{}", &digest[..16]));
    assert_eq!(name, patched_copy_name("c:\\apps\\codex", "1.2.3"));
    assert_ne!(name, patched_copy_name("c:\\apps\\codex", "1.2.4"));
}

#[test]
fn sha256_of_known_input() {
    assert_eq!(
        encode_hex(&sha256(b"abc")),
        "ba7816bf8f01cfea414140de5dae2223b00361a396177a9cb410ff61f20015ad"
    );
    assert_eq!(encode_hex(&[0, 15, 16, 255]), "000f10ff");
}

#[test]
fn markers_match_only_this_version_and_application() {
    let installed = msix();
    let marker = new_marker(&installed, "C:/Apps/Codex");
    assert_eq!(marker.patch_schema, PATCH_SCHEMA_VERSION);
    assert!(marker_matches(&Some(marker), &installed, "c:\\apps\\codex\\"));
    let other_version = PatchedCopyMarker {
        patch_schema: 2,
        source_app: "C:/Apps/Codex".to_string(),
        source_version: "1.2.2".to_string(),
    };
    assert!(!marker_matches(&Some(other_version), &installed, "C:/Apps/Codex"));
    let old_schema = PatchedCopyMarker {
        patch_schema: 1,
        source_app: "C:/Apps/Codex".to_string(),
        source_version: "1.2.3".to_string(),
    };
    assert!(!marker_matches(&Some(old_schema), &installed, "C:/Apps/Codex"));
    assert!(!marker_matches(&None, &installed, "C:/Apps/Codex"));
}

#[test]
fn chinese_copy_replaces_a_registered_installation() {
    let installed = msix();
    let source_asar = "/apps/WindowsApps/OpenAI.Codex_1.2.3.0_x64/app/resources/app.asar";
    let source_app = source_app_root(source_asar).unwrap();
    assert_eq!(source_app, "/apps/WindowsApps/OpenAI.Codex_1.2.3.0_x64/app");
    let probe = CopyProbe {
        source_asar: Some(source_asar.to_string()),
        marker: Some(new_marker(&installed, &source_app)),
        copy_has_asar: true,
        copy_has_exe: true,
    };
    let copy = patched_chinese_install(&installed, "/data", &probe).unwrap();
    assert_eq!(copy.source, "portable");
    assert_eq!(copy.version, "1.2.3");
    assert_eq!(copy.arch.as_deref(), Some("x64"));
    assert_eq!(copy.package_family_name.as_deref(), Some("OpenAI.Codex_test"));
    assert_eq!(copy.installed_at, Some(7));
    assert_eq!(
        copy.path,
        format!("/data/chinese-patch/apps/{}/app", patched_copy_name(&source_app, "1.2.3"))
    );

    let missing_exe = CopyProbe { copy_has_exe: false, ..probe_clone(&probe) };
    assert!(patched_chinese_install(&installed, "/data", &missing_exe).is_none());
    let stale = CopyProbe {
        marker: Some(PatchedCopyMarker {
            patch_schema: 2,
            source_app: source_app.clone(),
            source_version: "0.9".to_string(),
        }),
        ..probe_clone(&probe)
    };
    assert!(patched_chinese_install(&installed, "/data", &stale).is_none());
    let portable = InstalledWindowsCodex { source: "portable".to_string(), ..msix() };
    assert!(patched_chinese_install(&portable, "/data", &probe).is_none());
}

fn probe_clone(p: &CopyProbe) -> CopyProbe {
    CopyProbe {
        source_asar: p.source_asar.clone(),
        marker: p.marker.as_ref().map(|m| PatchedCopyMarker {
            patch_schema: m.patch_schema,
            source_app: m.source_app.clone(),
            source_version: m.source_version.clone(),
        }),
        copy_has_asar: p.copy_has_asar,
        copy_has_exe: p.copy_has_exe,
    }
}

#[test]
fn activation_needs_a_prepared_copy_and_a_free_destination() {
    assert_eq!(
        check_activation("/w", "/c/active", true, false).unwrap(),
        "/c"
    );
    assert_eq!(
        check_activation("/w", "/c/active", false, false).unwrap_err().message(),
        "activate Chinese application copy: source directory is missing: /w"
    );
    let error = check_activation("/w", "/c/active", true, true).unwrap_err();
    assert!(error.message().contains("destination already exists"));
    assert_eq!(check_activation("/w", "active", true, false).unwrap(), "");
    assert_eq!(
        check_activation("/w", "", true, false).unwrap_err().message(),
        "activate Chinese application copy: destination has no parent: "
    );
    assert_eq!(
        check_activation("/w", "/", true, false).unwrap_err().message(),
        "activate Chinese application copy: destination has no parent: /"
    );
    check_activation_parent("/c", true).unwrap();
    assert_eq!(
        check_activation_parent("/c", false).unwrap_err().message(),
        "activate Chinese application copy: destination parent is missing: /c"
    );
}

#[test]
fn reports_say_what_happened() {
    let r = patched_report("/x/app.asar".to_string(), "/x/app.asar.bak".to_string());
    assert_eq!(r.status, "patched");
    assert_eq!(r.message, "Windows 中文化已写入，重新启动 ChatGPT 后生效。");
    assert_eq!(r.backup_path.as_deref(), Some("/x/app.asar.bak"));
    assert!(r.restart_required);
    let r = already_patched_report("/x/app.asar".to_string());
    assert_eq!(r.status, "already-patched");
    assert_eq!(r.backup_path, None);
    assert_eq!(copy_patched_report("/c".to_string()).message, "Windows 中文副本已创建并启用。");
    assert_eq!(copy_already_patched_report("/c".to_string()).message, "Windows 中文副本已经启用。");
    assert_eq!(
        source_app_root("app.asar").unwrap_err().message(),
        "resources/app.asar has no application root"
    );
}

#[test]
fn drive_paths_are_split_as_the_platform_reads_them() {
    let app = source_app_root("C:\\Codex\\resources\\app.asar");
    let copy = check_activation("/w", "C:\\data\\apps\\copy", true, false).unwrap();
    let windows = std::path::MAIN_SEPARATOR == '\\';
    if windows {
        assert_eq!(app.unwrap(), "C:\\Codex");
        assert_eq!(copy, "C:\\data\\apps");
    } else {
        assert!(app.is_err());
        assert_eq!(copy, "");
    }
}
