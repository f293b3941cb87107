use ml_runner::remote::{
    api_json, cache_next, cache_root, ensure_model, find_model_asset, get, latest_release,
    model_folder, no_cached_model, no_model_in_release, token, Asset, CacheStep, ModelStep,
    Release,
};

fn some(text: &str) -> Option<String> {
    Some(text.to_string())
}

fn assets(names: &[&str]) -> Vec<Asset> {
    names
        .iter()
        .map(|n| Asset { name: n.to_string(), browser_download_url: format!("https://x/{n}") })
        .collect()
}

fn release(tag: &str, names: &[&str]) -> Option<Release> {
    Some(Release { tag_name: tag.to_string(), assets: assets(names) })
}

fn pair(name: &str, value: &str) -> (String, String) {
    (name.to_string(), value.to_string())
}

#[test]
fn the_first_variable_that_is_not_empty_is_the_token() {
    assert_eq!(token(some("a"), some("b")), some("a"));
    assert_eq!(token(None, some("b")), some("b"));
    assert_eq!(token(some(""), some("b")), some("b"));
    assert_eq!(token(some("a"), some("")), some("a"));
    assert_eq!(token(some(""), some("")), None);
    assert_eq!(token(None, some("")), None);
    assert_eq!(token(None, None), None);
}

#[test]
fn requests() {
    let plain = get("https://x/y", "1.2.3", &None);
    assert_eq!(plain.url, "https://x/y");
    assert_eq!(plain.headers, vec![pair("User-Agent", "ml-runner/1.2.3")]);
    let with_token = get("https://x/y", "1.2.3", &some("t"));
    assert_eq!(
        with_token.headers,
        vec![pair("User-Agent", "ml-runner/1.2.3"), pair("Authorization", "Bearer t")]
    );
    let json = api_json("https://x/y", "1", &None);
    assert_eq!(
        json.headers,
        vec![pair("User-Agent", "ml-runner/1"), pair("Accept", "application/vnd.github+json")]
    );
}

#[test]
fn request_for_the_latest_release() {
    let request = latest_release("theSearchLife/RunML", "1.0.0", &some("t"));
    assert_eq!(request.url, "https://api.github.com/repos/theSearchLife/RunML/releases/latest");
    assert_eq!(
        request.headers,
        vec![
            pair("User-Agent", "ml-runner/1.0.0"),
            pair("Authorization", "Bearer t"),
            pair("Accept", "application/vnd.github+json")
        ]
    );
}

#[test]
fn cache_folders() {
    let below = |names: &[&str]| names.iter().map(|n| n.to_string()).collect::<Vec<String>>();
    assert_eq!(cache_root(true, Some(1), Some(2), Some(3)), Ok((1, below(&["ml-runner"]))));
    assert_eq!(cache_root(false, Some(1), Some(2), Some(3)), Ok((2, below(&["ml-runner"]))));
    assert_eq!(
        cache_root(false, Some(1), None, Some(3)),
        Ok((3, below(&[".cache", "ml-runner"])))
    );
    let error = Err("could not determine a cache directory".to_string());
    assert_eq!(cache_root(true, None, Some(2), Some(3)), error);
    assert_eq!(cache_root(false, Some(1), None, None), error);
}

#[test]
fn repositories_have_their_own_folders() {
    assert_eq!(model_folder("theSearchLife/MantaWatch"), vec!["models", "theSearchLife__MantaWatch"]);
    assert_eq!(model_folder("a/b_c"), vec!["models", "a__b_c"]);
    assert_ne!(model_folder("a/b"), model_folder("a/_b"));
}

#[test]
fn the_asset_with_the_model() {
    assert_eq!(find_model_asset(&assets(&["a.onnx", "Model.ONNX", "model.onnx"])), Some(1));
    assert_eq!(find_model_asset(&assets(&["readme.md", "b.OnNx", "a.onnx"])), Some(1));
    assert_eq!(find_model_asset(&assets(&["model.onnx.zip", "onnx"])), None);
    assert_eq!(find_model_asset(&assets(&[".onnx"])), Some(0));
    assert_eq!(find_model_asset(&Vec::new()), None);
}

#[test]
fn a_model_is_downloaded_when_the_tag_changes() {
    let latest = release("v2", &["readme.md", "model.onnx"]);
    assert_eq!(ensure_model(&latest, true, &some("v2")), ModelStep::UseCached);
    assert_eq!(ensure_model(&latest, true, &some("v1")), ModelStep::Download { asset: 1 });
    assert_eq!(ensure_model(&latest, true, &some("v2\n")), ModelStep::Download { asset: 1 });
    assert_eq!(ensure_model(&latest, true, &None), ModelStep::Download { asset: 1 });
    assert_eq!(ensure_model(&latest, false, &some("v2")), ModelStep::Download { asset: 1 });
}

#[test]
fn the_cached_model_is_the_fallback() {
    assert_eq!(ensure_model(&None, true, &some("v1")), ModelStep::UseStale);
    assert_eq!(ensure_model(&None, false, &some("v1")), ModelStep::Unavailable);
    let empty = release("v2", &["readme.md"]);
    assert_eq!(ensure_model(&empty, true, &some("v1")), ModelStep::UseStale);
    assert_eq!(ensure_model(&empty, false, &None), ModelStep::NoAsset);
}

#[test]
fn steps_of_a_download() {
    let mut step = CacheStep::Fetch;
    let mut seen = Vec::new();
    while step != CacheStep::Ready {
        seen.push(step);
        step = cache_next(step, true, false);
    }
    assert_eq!(
        seen,
        vec![CacheStep::Fetch, CacheStep::MakeFolder, CacheStep::WriteModel, CacheStep::WriteTag]
    );
    assert_eq!(cache_next(CacheStep::Fetch, false, true), CacheStep::Stale);
    assert_eq!(cache_next(CacheStep::Fetch, false, false), CacheStep::Failed);
    assert_eq!(cache_next(CacheStep::MakeFolder, false, true), CacheStep::Stale);
    assert_eq!(cache_next(CacheStep::MakeFolder, false, false), CacheStep::Failed);
    assert_eq!(cache_next(CacheStep::WriteModel, false, true), CacheStep::Failed);
    assert_eq!(cache_next(CacheStep::WriteTag, false, true), CacheStep::Ready);
    assert_eq!(cache_next(CacheStep::Ready, false, true), CacheStep::Ready);
    assert_eq!(cache_next(CacheStep::Stale, true, true), CacheStep::Stale);
    assert_eq!(cache_next(CacheStep::Failed, true, true), CacheStep::Failed);
}

#[test]
fn messages_of_the_cache() {
    assert_eq!(no_model_in_release("a/b", "v2"), "release v2 of a/b has no .onnx asset");
    assert_eq!(no_cached_model("a/b"), "no cached model for a/b and the download failed");
}
