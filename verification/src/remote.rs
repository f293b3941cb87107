//! GitHub releases: the requests for them, and the cache of a model that comes from one.
use vstd::prelude::*;

#[allow(unused_imports)]
use crate::discovery::{is_owner_char, is_repository_char, is_slug, is_slug_at};
#[allow(unused_imports)]
use crate::text::{ascii_lowered, ends_with, lemma_spelling, spells, texts};
use crate::text::{chars_of, has_suffix, is_text, lower_ascii};

verus! {

/// A file attached to a release.
#[derive(Debug)]
pub struct Asset {
    pub name: String,
    pub browser_download_url: String,
}

/// A published release of a repository.
#[derive(Debug)]
pub struct Release {
    pub tag_name: String,
    pub assets: Vec<Asset>,
}

/// A request: where it goes and the headers it carries.
pub struct Request {
    pub url: String,
    pub headers: Vec<(String, String)>,
}

pub open spec fn header(name: Seq<char>, value: Seq<char>) -> (Seq<char>, Seq<char>) {
    (name, value)
}

pub open spec fn headers_of(request: Request) -> Seq<(Seq<char>, Seq<char>)> {
    request.headers@.map_values(|h: (String, String)| (h.0@, h.1@))
}

pub open spec fn is_set(variable: Option<String>) -> bool {
    variable matches Some(t) && t@.len() > 0
}

/// The token that requests carry, out of the two environment variables that may hold one: the
/// first that is there and not empty.
pub fn token(github_token: Option<String>, gh_token: Option<String>) -> (out: Option<String>)
    ensures
        out == (if is_set(github_token) {
            github_token
        } else if is_set(gh_token) {
            gh_token
        } else {
            None
        }),
{
    if let Some(t) = github_token {
        if chars_of(t.as_str()).len() > 0 {
            return Some(t);
        }
    }
    if let Some(t) = gh_token {
        if chars_of(t.as_str()).len() > 0 {
            return Some(t);
        }
    }
    None
}

/// The headers of every request: who asks, and the token if there is one.
pub open spec fn common_headers(version: Seq<char>, token: Option<Seq<char>>) -> Seq<
    (Seq<char>, Seq<char>),
> {
    let agent = header("User-Agent"@, "ml-runner/"@ + version);
    match token {
        Some(t) => seq![agent, header("Authorization"@, "Bearer "@ + t)],
        None => seq![agent],
    }
}

pub open spec fn text_of(s: Option<String>) -> Option<Seq<char>> {
    match s {
        Some(t) => Some(t@),
        None => None,
    }
}

fn push_header(request: &mut Request, name: &str, first: &str, second: &str)
    ensures
        final(request).url == old(request).url,
        headers_of(*final(request)) == headers_of(*old(request)).push(
            header(name@, first@ + second@),
        ),
{
    let mut value: String = first.to_owned();
    value.append(second);
    request.headers.push((name.to_owned(), value));
    assert(headers_of(*request) =~= headers_of(*old(request)).push(
        header(name@, first@ + second@),
    ));
}

/// Makes a request for `url`, by the tool of this version.
pub fn get(url: &str, version: &str, token: &Option<String>) -> (out: Request)
    ensures
        out.url@ == url@,
        headers_of(out) == common_headers(version@, text_of(*token)),
{
    let mut request: Request = Request { url: url.to_owned(), headers: Vec::new() };
    assert(headers_of(request) =~= Seq::empty());
    push_header(&mut request, "User-Agent", "ml-runner/", version);
    if let Some(t) = token {
        push_header(&mut request, "Authorization", "Bearer ", t.as_str());
    }
    assert(headers_of(request) =~= common_headers(version@, text_of(*token)));
    request
}

/// Makes a request for the JSON at `url`.
pub fn api_json(url: &str, version: &str, token: &Option<String>) -> (out: Request)
    ensures
        out.url@ == url@,
        headers_of(out) == common_headers(version@, text_of(*token)).push(
            header("Accept"@, "application/vnd.github+json"@),
        ),
{
    let mut request: Request = get(url, version, token);
    push_header(&mut request, "Accept", "application/vnd.github+json", "");
    proof {
        reveal_strlit("");
        assert("application/vnd.github+json"@ + ""@ =~= "application/vnd.github+json"@);
    }
    request
}

pub open spec fn release_url(repo: Seq<char>) -> Seq<char> {
    "https://api.github.com/repos/"@ + repo + "/releases/latest"@
}

/// Makes the request for the latest published release of a repository.
pub fn latest_release(repo: &str, version: &str, token: &Option<String>) -> (out: Request)
    ensures
        out.url@ == release_url(repo@),
        out.url@ == "https://api.github.com/repos/"@ + repo@ + "/releases/latest"@,
        headers_of(out) == common_headers(version@, text_of(*token)).push(
            header("Accept"@, "application/vnd.github+json"@),
        ),
{
    let mut url: String = "https://api.github.com/repos/".to_owned();
    url.append(repo);
    url.append("/releases/latest");
    api_json(url.as_str(), version, token)
}

/// Chooses the folder of the tool's cache: the folder out of the environment that it lies in, and
/// the names below that. On Windows it lies in the folder for local data; elsewhere in the cache
/// folder that is set, else in `.cache` below the home folder.
pub fn cache_root<T>(
    is_windows: bool,
    local_app_data: Option<T>,
    xdg_cache_home: Option<T>,
    home: Option<T>,
) -> (out: Result<(T, Vec<String>), String>)
    ensures
        match (is_windows, local_app_data, xdg_cache_home, home) {
            (true, Some(base), _, _) => out matches Ok((b, below)) && b == base && texts(below@)
                == seq!["ml-runner"@],
            (false, _, Some(base), _) => out matches Ok((b, below)) && b == base && texts(below@)
                == seq!["ml-runner"@],
            (false, _, None, Some(base)) => out matches Ok((b, below)) && b == base && texts(
                below@,
            ) == seq![".cache"@, "ml-runner"@],
            _ => out matches Err(e) && e@ == "could not determine a cache directory"@,
        },
{
    let mut below: Vec<String> = Vec::new();
    let base: Option<T> = if is_windows {
        local_app_data
    } else {
        match xdg_cache_home {
            Some(base) => Some(base),
            None => {
                below.push(".cache".to_owned());
                home
            },
        }
    };
    below.push("ml-runner".to_owned());
    match base {
        Some(base) => {
            assert(below@.len() == 1 ==> texts(below@) =~= seq!["ml-runner"@]);
            assert(below@.len() == 2 ==> texts(below@) =~= seq![".cache"@, "ml-runner"@]);
            Ok((base, below))
        },
        None => Err("could not determine a cache directory".to_owned()),
    }
}

/// A text with two underscores for each slash.
pub open spec fn without_slashes(s: Seq<char>) -> Seq<char>
    decreases s.len(),
{
    if s.len() == 0 {
        Seq::empty()
    } else {
        without_slashes(s.drop_last()) + (if s.last() == '/' {
            seq!['_', '_']
        } else {
            seq![s.last()]
        })
    }
}

/// The names below the cache folder that lead to the folder of a repository's model.
pub fn model_folder(repo: &str) -> (out: Vec<String>)
    ensures
        texts(out@) == seq!["models"@, without_slashes(repo@)],
{
    let chars: Vec<char> = chars_of(repo);
    let mut name: String = String::new();
    let mut i: usize = 0;
    while i < chars.len()
        invariant
            i <= chars@.len(),
            name@ == without_slashes(chars@.take(i as int)),
        decreases chars@.len() - i,
    {
        assert(chars@.take(i + 1).drop_last() =~= chars@.take(i as int));
        let ghost before = name@;
        if chars[i] == '/' {
            name.push('_');
            name.push('_');
            assert(name@ =~= before + seq!['_', '_']);
        } else {
            name.push(chars[i]);
            assert(name@ =~= before + seq![chars@[i as int]]);
        }
        i = i + 1;
    }
    assert(chars@.take(i as int) =~= chars@);
    let mut out: Vec<String> = Vec::new();
    out.push("models".to_owned());
    out.push(name);
    assert(texts(out@) =~= seq!["models"@, without_slashes(repo@)]);
    out
}

proof fn lemma_without_slashes(a: Seq<char>, b: Seq<char>)
    ensures
        without_slashes(a + b) == without_slashes(a) + without_slashes(b),
    decreases b.len(),
{
    if b.len() == 0 {
        assert(a + b =~= a);
        assert(without_slashes(a) + without_slashes(b) =~= without_slashes(a));
    } else {
        assert((a + b).drop_last() =~= a + b.drop_last());
        lemma_without_slashes(a, b.drop_last());
        assert(without_slashes(a + b) =~= without_slashes(a) + without_slashes(b));
    }
}

proof fn lemma_nothing_to_replace(s: Seq<char>)
    requires
        forall|j: int| 0 <= j < s.len() ==> #[trigger] s[j] != '/',
    ensures
        without_slashes(s) == s,
    decreases s.len(),
{
    if s.len() > 0 {
        lemma_nothing_to_replace(s.drop_last());
        assert(s.last() == s[s.len() - 1]);
        assert(s =~= s.drop_last() + seq![s.last()]);
    } else {
        assert(s =~= Seq::empty());
    }
}

proof fn lemma_slug_folder(s: Seq<char>, slash: int)
    requires
        is_slug_at(s, slash),
    ensures
        without_slashes(s) == s.take(slash) + seq!['_', '_'] + s.skip(slash + 1),
{
    let owner = s.take(slash);
    let name = s.skip(slash + 1);
    assert forall|j: int| 0 <= j < owner.len() implies #[trigger] owner[j] != '/' by {
        assert(is_owner_char(s[j]));
    }
    assert forall|j: int| 0 <= j < name.len() implies #[trigger] name[j] != '/' by {
        assert(is_repository_char(s[slash + 1 + j]));
    }
    assert(s =~= owner + (seq!['/'] + name));
    lemma_without_slashes(owner, seq!['/'] + name);
    lemma_without_slashes(seq!['/'], name);
    lemma_nothing_to_replace(owner);
    lemma_nothing_to_replace(name);
    assert(without_slashes(seq!['/'].drop_last()) =~= Seq::empty());
    assert(without_slashes(seq!['/']) =~= seq!['_', '_']);
    assert(without_slashes(s) =~= owner + seq!['_', '_'] + name);
}

/// No two repositories share a folder in the cache.
pub proof fn repositories_have_folders_of_their_own(a: Seq<char>, b: Seq<char>)
    requires
        is_slug(a),
        is_slug(b),
        a != b,
    ensures
        without_slashes(a) != without_slashes(b),
{
    let i = choose|i: int| is_slug_at(a, i);
    let j = choose|j: int| is_slug_at(b, j);
    lemma_slug_folder(a, i);
    lemma_slug_folder(b, j);
    if without_slashes(a) == without_slashes(b) {
        let folder = without_slashes(a);
        assert(folder[i] == '_' && folder[j] == '_');
        if i < j {
            assert(folder[i] == b[i]);
            assert(is_owner_char(b[i]));
        } else if j < i {
            assert(folder[j] == a[j]);
            assert(is_owner_char(a[j]));
        }
        assert(folder.len() == a.take(i).len() + 2 + a.skip(i + 1).len());
        assert(folder.len() == b.take(i).len() + 2 + b.skip(i + 1).len());
        assert forall|k: int| 0 <= k < a.len() implies a[k] == b[k] by {
            if k < i {
                assert(folder[k] == a[k] && folder[k] == b[k]);
            } else if k > i {
                assert(folder[k + 1] == a.skip(i + 1)[k - i - 1]);
                assert(folder[k + 1] == b.skip(i + 1)[k - i - 1]);
            }
        }
        assert(a =~= b);
    }
}

/// The first asset whose name is wanted.
pub open spec fn first_asset(assets: Seq<Asset>, wanted: spec_fn(Seq<char>) -> bool) -> Option<
    usize,
>
    decreases assets.len(),
{
    if assets.len() == 0 {
        None
    } else {
        match first_asset(assets.drop_last(), wanted) {
            Some(i) => Some(i),
            None => if wanted(assets.last().name@) {
                Some((assets.len() - 1) as usize)
            } else {
                None
            },
        }
    }
}

/// The asset that holds the model: the one named `model.onnx`, else the first with the extension
/// `.onnx`. Upper and lower case are the same.
pub open spec fn model_asset(assets: Seq<Asset>) -> Option<usize> {
    match first_asset(assets, |name: Seq<char>| ascii_lowered(name) == "model.onnx"@) {
        Some(i) => Some(i),
        None => first_asset(assets, |name: Seq<char>| ends_with(ascii_lowered(name), ".onnx"@)),
    }
}

fn lowered_name(asset: &Asset) -> (out: Vec<char>)
    ensures
        out@ == ascii_lowered(asset.name@),
{
    let chars: Vec<char> = chars_of(asset.name.as_str());
    let len: usize = chars.len();
    assert(chars@.subrange(0, len as int) =~= chars@);
    lower_ascii(&chars, 0, len)
}

/// Finds the asset that holds the model.
pub fn find_model_asset(assets: &Vec<Asset>) -> (out: Option<usize>)
    ensures
        out == model_asset(assets@),
{
    let ghost exact = |name: Seq<char>| ascii_lowered(name) == "model.onnx"@;
    let ghost other = |name: Seq<char>| ends_with(ascii_lowered(name), ".onnx"@);
    let mut fallback: Option<usize> = None;
    let mut i: usize = 0;
    while i < assets.len()
        invariant
            i <= assets@.len(),
            exact == (|name: Seq<char>| ascii_lowered(name) == "model.onnx"@),
            other == (|name: Seq<char>| ends_with(ascii_lowered(name), ".onnx"@)),
            first_asset(assets@.take(i as int), exact) is None,
            fallback == first_asset(assets@.take(i as int), other),
        decreases assets@.len() - i,
    {
        assert(assets@.take(i + 1).drop_last() =~= assets@.take(i as int));
        let name: Vec<char> = lowered_name(&assets[i]);
        if is_text(&name, "model.onnx") {
            proof {
                lemma_first_stays(assets@, exact, i + 1);
            }
            return Some(i);
        }
        if fallback.is_none() && has_suffix(&name, ".onnx") {
            fallback = Some(i);
        }
        i = i + 1;
    }
    assert(assets@.take(i as int) =~= assets@);
    fallback
}

proof fn lemma_first_stays(assets: Seq<Asset>, wanted: spec_fn(Seq<char>) -> bool, n: int)
    requires
        0 <= n <= assets.len(),
        first_asset(assets.take(n), wanted) is Some,
    ensures
        first_asset(assets, wanted) == first_asset(assets.take(n), wanted),
    decreases assets.len(),
{
    if n < assets.len() {
        assert(assets.drop_last().take(n) =~= assets.take(n));
        lemma_first_stays(assets.drop_last(), wanted, n);
    } else {
        assert(assets.take(n) =~= assets);
    }
}

/// What is done to have a repository's model at hand.
#[derive(Clone, Copy, Debug, PartialEq, Eq, Structural)]
pub enum ModelStep {
    /// The cached model is that of the latest release.
    UseCached,
    /// Download this asset of the latest release into the cache.
    Download { asset: usize },
    /// The latest release is not known or holds no model; use the cached model as it is.
    UseStale,
    /// The latest release holds no model, and none is cached.
    NoAsset,
    /// The latest release is not known, and no model is cached.
    Unavailable,
}

/// What is done, given the latest release, where it could be had, and the cache: whether it holds
/// a model, and the tag of the release that the model came from.
pub open spec fn model_step(
    release: Option<Release>,
    has_model: bool,
    cached_tag: Option<Seq<char>>,
) -> ModelStep {
    match release {
        Some(release) => if has_model && cached_tag == Some(release.tag_name@) {
            ModelStep::UseCached
        } else {
            match model_asset(release.assets@) {
                Some(asset) => ModelStep::Download { asset },
                None => if has_model {
                    ModelStep::UseStale
                } else {
                    ModelStep::NoAsset
                },
            }
        },
        None => if has_model {
            ModelStep::UseStale
        } else {
            ModelStep::Unavailable
        },
    }
}

/// Decides how to have a repository's model at hand.
pub fn ensure_model(
    release: &Option<Release>,
    has_model: bool,
    cached_tag: &Option<String>,
) -> (out: ModelStep)
    ensures
        out == model_step(*release, has_model, text_of(*cached_tag)),
{
    match release {
        Some(release) => {
            if has_model {
                if let Some(tag) = cached_tag {
                    if *tag == release.tag_name {
                        return ModelStep::UseCached;
                    }
                }
            }
            match find_model_asset(&release.assets) {
                Some(asset) => ModelStep::Download { asset },
                None => if has_model {
                    ModelStep::UseStale
                } else {
                    ModelStep::NoAsset
                },
            }
        },
        None => if has_model {
            ModelStep::UseStale
        } else {
            ModelStep::Unavailable
        },
    }
}

/// A step of filling the cache.
#[derive(Clone, Copy, Debug, PartialEq, Eq, Structural)]
pub enum CacheStep {
    Fetch,
    MakeFolder,
    WriteModel,
    WriteTag,
    /// The new model is in the cache.
    Ready,
    /// The new model could not be had; the old one is in the cache, untouched.
    Stale,
    Failed,
}

/// The step after `step`, which succeeded or not, where the cache held a model before or not. As
/// long as nothing has been written, the old model can be used. The new one is of use without its
/// tag, so that the tag could not be written is no failure.
pub open spec fn next_cache_step(step: CacheStep, succeeded: bool, has_model: bool) -> CacheStep {
    match step {
        CacheStep::Fetch => if succeeded {
            CacheStep::MakeFolder
        } else {
            without_new_model(has_model)
        },
        CacheStep::MakeFolder => if succeeded {
            CacheStep::WriteModel
        } else {
            without_new_model(has_model)
        },
        CacheStep::WriteModel => if succeeded {
            CacheStep::WriteTag
        } else {
            CacheStep::Failed
        },
        CacheStep::WriteTag => CacheStep::Ready,
        CacheStep::Ready => CacheStep::Ready,
        CacheStep::Stale => CacheStep::Stale,
        CacheStep::Failed => CacheStep::Failed,
    }
}

pub open spec fn without_new_model(has_model: bool) -> CacheStep {
    if has_model {
        CacheStep::Stale
    } else {
        CacheStep::Failed
    }
}

/// Chooses the step after one that succeeded or not.
pub fn cache_next(step: CacheStep, succeeded: bool, has_model: bool) -> (out: CacheStep)
    ensures
        out == next_cache_step(step, succeeded, has_model),
{
    match (step, succeeded) {
        (CacheStep::Fetch, true) => CacheStep::MakeFolder,
        (CacheStep::MakeFolder, true) => CacheStep::WriteModel,
        (CacheStep::WriteModel, true) => CacheStep::WriteTag,
        (CacheStep::Fetch, false) | (CacheStep::MakeFolder, false) => if has_model {
            CacheStep::Stale
        } else {
            CacheStep::Failed
        },
        (CacheStep::WriteModel, false) => CacheStep::Failed,
        (CacheStep::WriteTag, _) => CacheStep::Ready,
        (CacheStep::Ready, _) => CacheStep::Ready,
        (CacheStep::Stale, _) => CacheStep::Stale,
        (CacheStep::Failed, _) => CacheStep::Failed,
    }
}

/// With a model in the cache, whatever keeps the latest one from being had leaves the cached one
/// in use: no release, a release without a model, a download that fails.
pub proof fn cached_model_is_the_fallback(release: Option<Release>, cached_tag: Option<Seq<char>>)
    ensures
        ({
            let step = model_step(release, true, cached_tag);
            ||| step == ModelStep::UseCached
            ||| step == ModelStep::UseStale
            ||| step is Download
        }),
        release is None ==> model_step(release, true, cached_tag) == ModelStep::UseStale,
        next_cache_step(CacheStep::Fetch, false, true) == CacheStep::Stale,
        next_cache_step(CacheStep::MakeFolder, false, true) == CacheStep::Stale,
{
}

/// A model is downloaded again only when the tag of the latest release has changed: with the tag
/// of the latest release in the cache beside the model, the cached model is used, and with any
/// other tag a release that holds a model is downloaded.
pub proof fn only_a_new_tag_is_downloaded(
    release: Release,
    has_model: bool,
    cached_tag: Option<Seq<char>>,
)
    requires
        model_asset(release.assets@) is Some,
    ensures
        model_step(Some(release), has_model, cached_tag) is Download <==> !(has_model && cached_tag
            == Some(release.tag_name@)),
        model_step(Some(release), true, Some(release.tag_name@)) == ModelStep::UseCached,
{
}

/// The tag is written only after the model: a download that fails, or a model that cannot be
/// written, never leaves the tag of the new release in the cache.
pub proof fn tag_follows_the_model(step: CacheStep, succeeded: bool, has_model: bool)
    ensures
        next_cache_step(step, succeeded, has_model) == CacheStep::WriteTag ==> step
            == CacheStep::WriteModel && succeeded,
        next_cache_step(step, succeeded, has_model) == CacheStep::Ready ==> step
            == CacheStep::WriteTag || step == CacheStep::Ready,
        next_cache_step(step, succeeded, has_model) == CacheStep::Stale ==> has_model || step
            == CacheStep::Stale,
{
}

/// What the user is told of a release without a model.
pub fn no_model_in_release(repo: &str, tag: &str) -> (out: String)
    ensures
        out@ == "release "@ + tag@ + " of "@ + repo@ + " has no .onnx asset"@,
{
    let mut out: String = "release ".to_owned();
    out.append(tag);
    out.append(" of ");
    out.append(repo);
    out.append(" has no .onnx asset");
    out
}

/// What the user is told where neither a release nor a cached model can be had.
pub fn no_cached_model(repo: &str) -> (out: String)
    ensures
        out@ == "no cached model for "@ + repo@ + " and the download failed"@,
{
    let mut out: String = "no cached model for ".to_owned();
    out.append(repo);
    out.append(" and the download failed");
    out
}

/// The asset that is found is wanted, and none before it is; where none is found, none is wanted.
pub proof fn first_asset_is_the_first_that_is_wanted(
    assets: Seq<Asset>,
    wanted: spec_fn(Seq<char>) -> bool,
)
    requires
        assets.len() <= usize::MAX,
    ensures
        match first_asset(assets, wanted) {
            Some(i) => {
                &&& i < assets.len()
                &&& wanted(assets[i as int].name@)
                &&& forall|k: int| 0 <= k < i ==> !wanted((#[trigger] assets[k]).name@)
            },
            None => forall|k: int| 0 <= k < assets.len() ==> !wanted((#[trigger] assets[k]).name@),
        },
    decreases assets.len(),
{
    if assets.len() > 0 {
        let front = assets.drop_last();
        first_asset_is_the_first_that_is_wanted(front, wanted);
        match first_asset(front, wanted) {
            Some(i) => {
                assert(assets[i as int] == front[i as int]);
                assert forall|k: int| 0 <= k < i implies !wanted((#[trigger] assets[k]).name@) by {
                    assert(front[k] == assets[k]);
                }
            },
            None => {
                assert forall|k: int| 0 <= k < front.len() implies !wanted(
                    (#[trigger] assets[k]).name@,
                ) by {
                    assert(front[k] == assets[k]);
                }
            },
        }
    }
}

/// A variable holds a token where it is there and not empty.
pub proof fn empty_variables_hold_no_token(t: String)
    ensures
        is_set(Some(t)) == (t@ != Seq::<char>::empty()),
        !is_set(None),
{
    assert(t@.len() == 0 ==> t@ =~= Seq::empty());
}

/// Every request says who asks, and carries the token where there is one, and nothing else.
pub proof fn requests_carry_the_token(version: Seq<char>, token: Seq<char>)
    ensures
        common_headers(version, None) == seq![("User-Agent"@, "ml-runner/"@ + version)],
        common_headers(version, Some(token)) == seq![
            ("User-Agent"@, "ml-runner/"@ + version),
            ("Authorization"@, "Bearer "@ + token),
        ],
        header(version, token) == (version, token),
{
}

/// The headers of a request are the names and values that it lists, in the same order.
pub proof fn headers_are_those_listed(request: Request)
    ensures
        headers_of(request).len() == request.headers@.len(),
        forall|i: int|
            #![trigger headers_of(request)[i]]
            0 <= i < request.headers@.len() ==> headers_of(request)[i] == (
                request.headers@[i].0@,
                request.headers@[i].1@,
            ),
{
}

/// In the name of a folder each slash of a repository becomes two underscores, and every other
/// character stays as it is.
pub proof fn slashes_become_underscores(a: Seq<char>, b: Seq<char>)
    requires
        !a.contains('/'),
    ensures
        without_slashes(a) == a,
        without_slashes(a + seq!['/'] + b) == a + seq!['_', '_'] + without_slashes(b),
{
    assert forall|j: int| 0 <= j < a.len() implies #[trigger] a[j] != '/' by {
        assert(a.contains(a[j]));
    }
    lemma_nothing_to_replace(a);
    lemma_without_slashes(a + seq!['/'], b);
    lemma_without_slashes(a, seq!['/']);
    assert(without_slashes(seq!['/'].drop_last()) =~= Seq::empty());
    assert(without_slashes(seq!['/']) =~= seq!['_', '_']);
}

/// The model of a release is its first asset named `model.onnx`; where there is none, its first
/// asset whose name ends in `.onnx`. Upper and lower case are the same.
pub proof fn models_are_known_by_their_name(assets: Seq<Asset>)
    requires
        assets.len() <= usize::MAX,
    ensures
        match model_asset(assets) {
            Some(i) => {
                &&& i < assets.len()
                &&& spells(assets[i as int].name@, "model.onnx"@) || {
                    &&& forall|k: int|
                        0 <= k < assets.len() ==> !spells(
                            (#[trigger] assets[k]).name@,
                            "model.onnx"@,
                        )
                    &&& is_onnx_name(assets[i as int].name@)
                    &&& forall|k: int| 0 <= k < i ==> !is_onnx_name((#[trigger] assets[k]).name@)
                }
                &&& forall|k: int|
                    0 <= k < i ==> !spells((#[trigger] assets[k]).name@, "model.onnx"@)
            },
            None => forall|k: int|
                0 <= k < assets.len() ==> !is_onnx_name((#[trigger] assets[k]).name@),
        },
{
    let exact = |name: Seq<char>| ascii_lowered(name) == "model.onnx"@;
    let other = |name: Seq<char>| ends_with(ascii_lowered(name), ".onnx"@);
    first_asset_is_the_first_that_is_wanted(assets, exact);
    first_asset_is_the_first_that_is_wanted(assets, other);
    assert forall|name: Seq<char>| #[trigger] exact(name) == spells(name, "model.onnx"@) by {
        reveal_strlit("model.onnx");
        lemma_spelling(name, "model.onnx"@);
    }
    assert forall|name: Seq<char>| #[trigger] other(name) == is_onnx_name(name) by {
        reveal_strlit(".onnx");
        if name.len() >= 5 {
            let end = name.skip(name.len() - 5);
            lemma_spelling(end, ".onnx"@);
            assert(ascii_lowered(name).skip(name.len() - 5) =~= ascii_lowered(end));
        }
    }
}

/// Whether the last five characters of a name spell `.onnx`.
pub open spec fn is_onnx_name(name: Seq<char>) -> bool {
    name.len() >= 5 && spells(name.skip(name.len() - 5), ".onnx"@)
}

/// Which step is taken tells what is known: the latest release, the model in the cache, and whose
/// tag it has.
pub proof fn steps_follow_the_release_and_the_cache(
    release: Option<Release>,
    has_model: bool,
    cached_tag: Option<Seq<char>>,
)
    ensures
        ({
            let current = release is Some && has_model && cached_tag == Some(release->0.tag_name@);
            let asset = if release is Some {
                model_asset(release->0.assets@)
            } else {
                None
            };
            match model_step(release, has_model, cached_tag) {
                ModelStep::UseCached => current,
                ModelStep::Download { asset: i } => !current && asset == Some(i),
                ModelStep::UseStale => !current && asset is None && has_model,
                ModelStep::NoAsset => release is Some && asset is None && !has_model,
                ModelStep::Unavailable => release is None && !has_model,
            }
        }),
{
}

/// A new model is in the cache just where it was fetched, its folder made, and written. Where it
/// was not fetched or the folder not made, the old one is used, if there is one.
pub proof fn caching_takes_what_succeeds(
    fetched: bool,
    made: bool,
    written: bool,
    tagged: bool,
    has_model: bool,
)
    ensures
        ({
            let second = next_cache_step(CacheStep::Fetch, fetched, has_model);
            let third = next_cache_step(second, made, has_model);
            let fourth = next_cache_step(third, written, has_model);
            let fifth = next_cache_step(fourth, tagged, has_model);
            &&& fetched ==> second == CacheStep::MakeFolder
            &&& fetched && made ==> third == CacheStep::WriteModel
            &&& fetched && made && written ==> fourth == CacheStep::WriteTag
            &&& (fifth == CacheStep::Ready) == (fetched && made && written)
            &&& (fifth == CacheStep::Stale) == (!(fetched && made) && has_model)
            &&& fifth == CacheStep::Ready || fifth == CacheStep::Stale || fifth == CacheStep::Failed
        }),
{
}

/// The latest release of a repository is asked for at the address of that repository.
pub proof fn releases_are_asked_for_by_repository(repo: Seq<char>)
    ensures
        release_url(repo) == "https://api.github.com/repos/"@ + repo + "/releases/latest"@,
{
}

} // verus!
