use ml_runner::remote::{Asset, Release};
use ml_runner::update::{parse_version, self_update, update_error, Platform, Update, UpdateError};

fn release(tag: &str, names: &[&str]) -> Release {
    Release {
        tag_name: tag.to_string(),
        assets: names
            .iter()
            .map(|n| Asset { name: n.to_string(), browser_download_url: String::new() })
            .collect(),
    }
}

const ARCHIVES: [&str; 3] = [
    "ml-runner_2.0.0_darwin_arm64.pkg",
    "ml-runner_2.0.0_linux_amd64.tar.gz",
    "ml-runner_2.0.0_windows_amd64.zip",
];

#[test]
fn versions() {
    assert_eq!(parse_version("v1.2.3"), Some((1, 2, 3)));
    assert_eq!(parse_version("1.2"), Some((1, 2, 0)));
    assert_eq!(parse_version(" vv10.0.7\n"), Some((10, 0, 7)));
    assert_eq!(parse_version("1.2.3.4"), Some((1, 2, 3)));
    assert_eq!(parse_version("1.2.3-rc1"), Some((1, 2, 0)));
    assert_eq!(parse_version("+1.2"), Some((1, 2, 0)));
    assert_eq!(parse_version("4294967295.0"), Some((u32::MAX, 0, 0)));
}

#[test]
fn texts_that_are_no_versions() {
    for text in ["", "v", "1", "v1", "a.b", "1.", ".1", "1.x", "4294967296.0", "V1.2", "1 .2"] {
        assert_eq!(parse_version(text), None, "{text}");
    }
}

#[test]
fn newer_releases_replace_the_tool() {
    let latest = release("v2.0.0", &ARCHIVES);
    assert_eq!(
        self_update("1.9.9", &latest, Platform::Windows),
        Ok(Update::Replace { asset: 2, is_zip: true })
    );
    assert_eq!(
        self_update("1.9.9", &latest, Platform::Other),
        Ok(Update::Replace { asset: 1, is_zip: false })
    );
    assert_eq!(self_update("1.9.9", &latest, Platform::MacOs), Ok(Update::Notify));
}

#[test]
fn versions_compare_by_number() {
    let latest = release("v1.10.0", &ARCHIVES);
    assert!(matches!(self_update("1.9.0", &latest, Platform::Other), Ok(Update::Replace { .. })));
    assert!(matches!(self_update("0.99.99", &latest, Platform::Other), Ok(Update::Replace { .. })));
    let patched = release("v1.10.1", &ARCHIVES);
    assert!(matches!(self_update("1.10", &patched, Platform::Other), Ok(Update::Replace { .. })));
}

#[test]
fn older_and_equal_releases_change_nothing() {
    let latest = release("v2.0.0", &ARCHIVES);
    for current in ["2.0.0", "v2.0", "2.0.1", "2.1.0", "3.0.0"] {
        for platform in [Platform::Windows, Platform::MacOs, Platform::Other] {
            assert_eq!(self_update(current, &latest, platform), Ok(Update::UpToDate), "{current}");
        }
    }
}

#[test]
fn update_errors() {
    let latest = release("v2.0.0", &ARCHIVES);
    assert_eq!(self_update("dev", &latest, Platform::Other), Err(UpdateError::BadVersion));
    let nightly = release("nightly", &ARCHIVES);
    assert_eq!(self_update("1.0.0", &nightly, Platform::Other), Err(UpdateError::BadTag));
    let bare = release("v2.0.0", &["ml-runner-linux_amd64.tar.gz.sha256"]);
    assert_eq!(self_update("1.0.0", &bare, Platform::Other), Err(UpdateError::NoAsset));
    assert_eq!(self_update("1.0.0", &bare, Platform::MacOs), Ok(Update::Notify));
}

#[test]
fn messages_of_an_update() {
    assert_eq!(
        update_error(UpdateError::BadVersion, "v2", Platform::Other),
        "unparseable current version"
    );
    assert_eq!(
        update_error(UpdateError::BadTag, "nightly", Platform::Other),
        "unparseable release tag `nightly`"
    );
    assert_eq!(
        update_error(UpdateError::NoAsset, "v2", Platform::Windows),
        "release v2 has no `*windows_amd64.zip` asset"
    );
    assert_eq!(
        update_error(UpdateError::NoAsset, "v2", Platform::Other),
        "release v2 has no `*linux_amd64.tar.gz` asset"
    );
}
