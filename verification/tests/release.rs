use xfingine::release::{
    bump_manifest, is_whitespace, release_changelog, workspace_version, BumpKind, ManifestError,
};

const MANIFEST: &str = "[workspace]\nmembers = [\"wasm\"]\n\n[workspace.package]\nversion = \"0.1.9\"\nedition = \"2021\"\n\n[package]\nversion = \"9.9.9\"\n";

#[test]
fn bump_kinds_read_from_their_names() {
    assert_eq!(BumpKind::parse("major"), Some(BumpKind::Major));
    assert_eq!(BumpKind::parse("minor"), Some(BumpKind::Minor));
    assert_eq!(BumpKind::parse("patch"), Some(BumpKind::Patch));
    assert_eq!(BumpKind::parse("Patch"), None);
    assert_eq!(BumpKind::parse(""), None);
}

#[test]
fn bumping_touches_only_the_workspace_version() {
    let bumped = bump_manifest(MANIFEST, BumpKind::Minor).unwrap();
    assert_eq!(bumped.version, "0.2.0");
    assert_eq!(bumped.changes.len(), 1);
    assert_eq!(bumped.changes[0].from, "0.1.9");
    assert_eq!(bumped.changes[0].to, "0.2.0");
    assert_eq!(bumped.content, MANIFEST.replace("0.1.9", "0.2.0"));

    assert_eq!(bump_manifest(MANIFEST, BumpKind::Major).unwrap().version, "1.0.0");
    assert_eq!(bump_manifest(MANIFEST, BumpKind::Patch).unwrap().version, "0.1.10");
}

#[test]
fn bumping_normalizes_line_endings_and_trims_the_header() {
    let manifest = "  [workspace.package]  \r\nversion = \"1.2.3\" # pinned\r\nname = \"x\"";
    let bumped = bump_manifest(manifest, BumpKind::Patch).unwrap();
    assert_eq!(bumped.version, "1.2.4");
    assert_eq!(
        bumped.content,
        "  [workspace.package]  \nversion = \"1.2.4\"\nname = \"x\"\n"
    );
}

#[test]
fn every_version_line_of_the_section_is_bumped() {
    let manifest = "[workspace.package]\nversion = \"1.0.0\"\nversion = \"2.5.1.7\"\n";
    let bumped = bump_manifest(manifest, BumpKind::Patch).unwrap();
    assert_eq!(bumped.changes.len(), 2);
    assert_eq!(bumped.version, "2.5.2");
    assert_eq!(bumped.content, "[workspace.package]\nversion = \"1.0.1\"\nversion = \"2.5.2\"\n");
}

#[test]
fn bumping_fails_without_a_readable_version() {
    assert_eq!(
        bump_manifest("[package]\nversion = \"1.0.0\"\n", BumpKind::Patch),
        Err(ManifestError::NoVersion)
    );
    assert_eq!(
        bump_manifest("[workspace.package]\nversion = \"1.0\"\n", BumpKind::Patch),
        Err(ManifestError::MalformedVersion)
    );
    assert_eq!(
        bump_manifest("[workspace.package]\nversion = \"\n", BumpKind::Patch),
        Err(ManifestError::MalformedVersion)
    );
    assert_eq!(
        bump_manifest("[workspace.package]\nversion = \"1.x.0\"\n", BumpKind::Patch),
        Err(ManifestError::MalformedVersion)
    );
    assert_eq!(
        bump_manifest("[workspace.package]\nversion = \"4294967295.0.0\"\n", BumpKind::Major),
        Err(ManifestError::MalformedVersion)
    );
}

#[test]
fn the_workspace_version_is_the_first_in_its_section() {
    assert_eq!(workspace_version(MANIFEST), Ok("0.1.9".to_string()));
    assert_eq!(
        workspace_version("[workspace.package]\nversion = \"3.0.0\"\nversion = \"4.0.0\"\n"),
        Ok("3.0.0".to_string())
    );
    assert_eq!(workspace_version("[package]\nversion = \"1.0.0\"\n"), Err(ManifestError::NoVersion));
    assert_eq!(
        workspace_version("[workspace.package]\nversion = \"\"\n"),
        Err(ManifestError::NoVersion)
    );
    assert_eq!(
        workspace_version("[workspace.package]\nversion = \"\n"),
        Err(ManifestError::MalformedVersion)
    );
}

#[test]
fn the_changelog_gets_a_release_section() {
    let changelog = "# Changelog\n\n## [Unreleased]\n\n### Added\n- things\n\n## [Unreleased]\n";
    let released = release_changelog(changelog, "0.2.0", "2026-09-01").unwrap();
    assert_eq!(
        released,
        "# Changelog\n\n## [Unreleased]\n\n## [0.2.0] - 2026-09-01\n\n### Added\n- things\n\n## [Unreleased]\n"
    );
    assert_eq!(release_changelog("# Changelog\n", "0.2.0", "2026-09-01"), None);
    assert_eq!(release_changelog("", "0.2.0", "2026-09-01"), None);
}

#[test]
fn whitespace_is_what_std_calls_whitespace() {
    for u in 0..=0x10FFFFu32 {
        if let Some(c) = char::from_u32(u) {
            assert_eq!(is_whitespace(c), c.is_whitespace(), "U+{u:04X}");
        }
    }
}
