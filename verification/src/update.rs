//! The update of the tool itself: versions, and what is done about a newer one.
use vstd::prelude::*;

use crate::remote::{Asset, Release};
#[allow(unused_imports)]
use crate::remote::first_asset;
use crate::text::{chars_of, copy_range, has_suffix, parse_unsigned, trim};
#[allow(unused_imports)]
use crate::text::{
    all_digits, decimal, decimal_spells_its_number, ends_with, is_digit, is_space,
    lemma_split_around, lemma_split_where_not_empty, lemma_split_whole, parsed_unsigned,
    split_where, trimmed,
};

verus! {

/// A text without the letters `v` that it starts with.
pub open spec fn without_v(s: Seq<char>) -> Seq<char>
    decreases s.len(),
{
    if s.len() > 0 && s[0] == 'v' {
        without_v(s.skip(1))
    } else {
        s
    }
}

/// The number in a part of a version.
pub open spec fn version_number(part: Seq<char>) -> Option<nat> {
    parsed_unsigned(part, u32::MAX as nat)
}

/// The parts of a version: what stands between the dots.
pub open spec fn version_parts(s: Seq<char>) -> Seq<Seq<char>> {
    split_where(without_v(trimmed(s)), |c: char| c == '.')
}

/// The version that a text such as `v1.2.3` or `1.2` names. Two numbers have to be there; a third
/// counts as zero where it is missing or is no number, and what follows it is not read.
pub open spec fn version_of(s: Seq<char>) -> Option<(nat, nat, nat)> {
    let parts = version_parts(s);
    if parts.len() < 2 {
        None
    } else {
        match (version_number(parts[0]), version_number(parts[1])) {
            (Some(major), Some(minor)) => Some(
                (
                    major,
                    minor,
                    if parts.len() > 2 {
                        version_number(parts[2]).unwrap_or(0)
                    } else {
                        0
                    },
                ),
            ),
            _ => None,
        }
    }
}

proof fn lemma_without_v(s: Seq<char>, n: int)
    requires
        0 <= n <= s.len(),
        forall|j: int| 0 <= j < n ==> #[trigger] s[j] == 'v',
    ensures
        without_v(s) == without_v(s.skip(n)),
    decreases n,
{
    if n > 0 {
        assert(s[0] == 'v');
        assert(s.skip(1).skip(n - 1) =~= s.skip(n));
        lemma_without_v(s.skip(1), n - 1);
    } else {
        assert(s.skip(0) =~= s);
    }
}

/// Cuts characters where there are dots.
fn split_at_dots(chars: &Vec<char>) -> (out: Vec<Vec<char>>)
    ensures
        out@.map_values(|part: Vec<char>| part@) == split_where(chars@, |c: char| c == '.'),
{
    let ghost is_dot = |c: char| c == '.';
    let mut out: Vec<Vec<char>> = Vec::new();
    let mut start: usize = 0;
    let mut i: usize = 0;
    assert(chars@.take(0) =~= Seq::empty());
    assert(split_where(Seq::empty(), is_dot) =~= Seq::empty().push(Seq::<char>::empty()));
    assert(chars@.subrange(0, 0) =~= Seq::empty());
    while i < chars.len()
        invariant
            start <= i <= chars@.len(),
            is_dot == (|c: char| c == '.'),
            split_where(chars@.take(i as int), is_dot).len() == out@.len() + 1,
            forall|k: int|
                0 <= k < out@.len() ==> (#[trigger] out@[k])@ == split_where(
                    chars@.take(i as int),
                    is_dot,
                )[k],
            split_where(chars@.take(i as int), is_dot).last() == chars@.subrange(
                start as int,
                i as int,
            ),
        decreases chars@.len() - i,
    {
        assert(chars@.take(i + 1).drop_last() =~= chars@.take(i as int));
        if chars[i] == '.' {
            out.push(copy_range(chars, start, i));
            start = i + 1;
            assert(chars@.subrange(start as int, i + 1) =~= Seq::empty());
        } else {
            assert(chars@.subrange(start as int, i + 1) =~= chars@.subrange(
                start as int,
                i as int,
            ).push(chars@[i as int]));
        }
        i = i + 1;
    }
    out.push(copy_range(chars, start, i));
    assert(chars@.take(i as int) =~= chars@);
    assert(out@.map_values(|part: Vec<char>| part@) =~= split_where(chars@, is_dot));
    out
}

pub open spec fn numbers(version: (u32, u32, u32)) -> (nat, nat, nat) {
    (version.0 as nat, version.1 as nat, version.2 as nat)
}

/// Reads the version that a text names.
pub fn parse_version(s: &str) -> (out: Option<(u32, u32, u32)>)
    ensures
        match out {
            Some(version) => version_of(s@) == Some(numbers(version)),
            None => version_of(s@) is None,
        },
{
    let chars: Vec<char> = trim(&chars_of(s));
    let len: usize = chars.len();
    let mut start: usize = 0;
    while start < len && chars[start] == 'v'
        invariant
            start <= len == chars@.len(),
            forall|j: int| 0 <= j < start ==> #[trigger] chars@[j] == 'v',
        decreases len - start,
    {
        start = start + 1;
    }
    proof {
        lemma_without_v(chars@, start as int);
        assert(chars@.subrange(start as int, len as int) =~= chars@.skip(start as int));
    }
    let parts: Vec<Vec<char>> = split_at_dots(&copy_range(&chars, start, len));
    let ghost all = version_parts(s@);
    assert(all.len() == parts@.len());
    assert(forall|k: int| 0 <= k < all.len() ==> #[trigger] all[k] == parts@[k]@);
    if parts.len() < 2 {
        return None;
    }
    match (parse_unsigned(&parts[0], u32::MAX as u64), parse_unsigned(&parts[1], u32::MAX as u64)) {
        (Some(major), Some(minor)) => {
            let patch: u64 = if parts.len() > 2 {
                match parse_unsigned(&parts[2], u32::MAX as u64) {
                    Some(patch) => patch,
                    None => 0,
                }
            } else {
                0
            };
            Some((major as u32, minor as u32, patch as u32))
        },
        _ => None,
    }
}

/// Whether the version `a` comes after the version `b`.
pub open spec fn is_newer(a: (nat, nat, nat), b: (nat, nat, nat)) -> bool {
    ||| a.0 > b.0
    ||| a.0 == b.0 && a.1 > b.1
    ||| a.0 == b.0 && a.1 == b.1 && a.2 > b.2
}

/// The system that the tool runs on.
#[derive(Clone, Copy, Debug, PartialEq, Eq, Structural)]
pub enum Platform {
    Windows,
    MacOs,
    Other,
}

/// What is done about the latest release of the tool.
#[derive(Clone, Copy, Debug, PartialEq, Eq, Structural)]
pub enum Update {
    /// The release is not newer than the tool that runs.
    UpToDate,
    /// Tell the user of the release, which is installed by other means.
    Notify,
    /// Replace the tool by the program in this asset, a zip archive or a compressed tar archive.
    Replace { asset: usize, is_zip: bool },
}

/// Why it is not known what to do about a release.
#[derive(Clone, Copy, Debug, PartialEq, Eq, Structural)]
pub enum UpdateError {
    /// The version of the tool that runs cannot be read.
    BadVersion,
    /// The tag of the release cannot be read.
    BadTag,
    /// The release has no program for this system.
    NoAsset,
}

/// What the name of the archive for a system ends with.
pub open spec fn archive_suffix(platform: Platform) -> Seq<char> {
    match platform {
        Platform::Windows => "windows_amd64.zip"@,
        _ => "linux_amd64.tar.gz"@,
    }
}

/// The archive for a system: the first asset with its suffix.
pub open spec fn archive_asset(assets: Seq<Asset>, platform: Platform) -> Option<usize> {
    first_asset(assets, |name: Seq<char>| ends_with(name, archive_suffix(platform)))
}

/// What is done about a release by the tool of version `current`.
pub open spec fn update_for(
    current: Seq<char>,
    release: Release,
    platform: Platform,
) -> Result<Update, UpdateError> {
    match (version_of(current), version_of(release.tag_name@)) {
        (None, _) => Err(UpdateError::BadVersion),
        (Some(_), None) => Err(UpdateError::BadTag),
        (Some(running), Some(latest)) => if !is_newer(latest, running) {
            Ok(Update::UpToDate)
        } else if platform == Platform::MacOs {
            Ok(Update::Notify)
        } else {
            match archive_asset(release.assets@, platform) {
                Some(asset) => Ok(Update::Replace { asset, is_zip: platform == Platform::Windows }),
                None => Err(UpdateError::NoAsset),
            }
        },
    }
}

fn suffix_of(platform: Platform) -> (out: &'static str)
    ensures
        out@ == archive_suffix(platform),
{
    match platform {
        Platform::Windows => "windows_amd64.zip",
        _ => "linux_amd64.tar.gz",
    }
}

fn find_archive(assets: &Vec<Asset>, platform: Platform) -> (out: Option<usize>)
    ensures
        out == archive_asset(assets@, platform),
{
    let ghost wanted = |name: Seq<char>| ends_with(name, archive_suffix(platform));
    let suffix: &'static str = suffix_of(platform);
    let mut found: Option<usize> = None;
    let mut i: usize = 0;
    while i < assets.len()
        invariant
            i <= assets@.len(),
            wanted == (|name: Seq<char>| ends_with(name, archive_suffix(platform))),
            suffix@ == archive_suffix(platform),
            found == first_asset(assets@.take(i as int), wanted),
        decreases assets@.len() - i,
    {
        assert(assets@.take(i + 1).drop_last() =~= assets@.take(i as int));
        if found.is_none() && has_suffix(&chars_of(assets[i].name.as_str()), suffix) {
            found = Some(i);
        }
        i = i + 1;
    }
    assert(assets@.take(i as int) =~= assets@);
    found
}

/// Decides what to do about the latest release of the tool.
pub fn self_update(current: &str, release: &Release, platform: Platform) -> (out: Result<
    Update,
    UpdateError,
>)
    ensures
        out == update_for(current@, *release, platform),
{
    match (parse_version(current), parse_version(release.tag_name.as_str())) {
        (None, _) => Err(UpdateError::BadVersion),
        (Some(_), None) => Err(UpdateError::BadTag),
        (Some(running), Some(latest)) => {
            let newer: bool = latest.0 > running.0 || (latest.0 == running.0 && (latest.1
                > running.1 || (latest.1 == running.1 && latest.2 > running.2)));
            if !newer {
                return Ok(Update::UpToDate);
            }
            match platform {
                Platform::MacOs => Ok(Update::Notify),
                _ => match find_archive(&release.assets, platform) {
                    Some(asset) => Ok(
                        Update::Replace { asset, is_zip: platform == Platform::Windows },
                    ),
                    None => Err(UpdateError::NoAsset),
                },
            }
        },
    }
}

/// What the user is told of an error.
pub fn update_error(error: UpdateError, tag: &str, platform: Platform) -> (out: String)
    ensures
        out@ == (match error {
            UpdateError::BadVersion => "unparseable current version"@,
            UpdateError::BadTag => "unparseable release tag `"@ + tag@ + "`"@,
            UpdateError::NoAsset => "release "@ + tag@ + " has no `*"@ + archive_suffix(platform)
                + "` asset"@,
        }),
{
    let mut out: String = String::new();
    match error {
        UpdateError::BadVersion => {
            out.append("unparseable current version");
            assert(out@ =~= "unparseable current version"@);
        },
        UpdateError::BadTag => {
            out.append("unparseable release tag `");
            out.append(tag);
            out.append("`");
            assert(out@ =~= "unparseable release tag `"@ + tag@ + "`"@);
        },
        UpdateError::NoAsset => {
            out.append("release ");
            out.append(tag);
            out.append(" has no `*");
            out.append(suffix_of(platform));
            out.append("` asset");
            assert(out@ =~= "release "@ + tag@ + " has no `*"@ + archive_suffix(platform)
                + "` asset"@);
        },
    }
    out
}

/// The tool is never replaced by an older version or by the same one.
pub proof fn updates_only_go_up(current: Seq<char>, release: Release, platform: Platform)
    requires
        version_of(current) matches Some(running) && version_of(release.tag_name@) matches Some(
            latest,
        ) && !is_newer(latest, running),
    ensures
        update_for(current, release, platform) == Ok::<Update, UpdateError>(Update::UpToDate),
{
}

/// An update is applied once: the tool of the release's own version is up to date.
pub proof fn an_update_is_applied_once(release: Release, platform: Platform)
    requires
        version_of(release.tag_name@) is Some,
    ensures
        update_for(release.tag_name@, release, platform) == Ok::<Update, UpdateError>(
            Update::UpToDate,
        ),
{
}

/// Of two different versions exactly one is newer, and what is newer than a newer version is
/// newer.
pub proof fn versions_are_ordered(
    a: (nat, nat, nat),
    b: (nat, nat, nat),
    c: (nat, nat, nat),
)
    ensures
        a != b ==> is_newer(a, b) != is_newer(b, a),
        !is_newer(a, a),
        is_newer(a, b) && is_newer(b, c) ==> is_newer(a, c),
{
}

/// The usual notation of a version without its patch.
pub open spec fn dotted(major: nat, minor: nat) -> Seq<char> {
    decimal(major) + seq!['.'] + decimal(minor)
}

proof fn lemma_parts_after_digits(s: Seq<char>, digits: Seq<char>)
    requires
        all_digits(digits),
    ensures
        ({
            let is_dot = |c: char| c == '.';
            split_where(s + digits, is_dot) == split_where(s, is_dot).drop_last().push(
                split_where(s, is_dot).last() + digits,
            )
        }),
    decreases digits.len(),
{
    let is_dot = |c: char| c == '.';
    let parts = split_where(s, is_dot);
    lemma_split_where_not_empty(s, is_dot);
    if digits.len() == 0 {
        assert(s + digits =~= s);
        assert(parts.last() + digits =~= parts.last());
        assert(parts.drop_last().push(parts.last()) =~= parts);
    } else {
        let fewer = digits.drop_last();
        assert forall|i: int| 0 <= i < fewer.len() implies is_digit(#[trigger] fewer[i]) by {
            assert(fewer[i] == digits[i]);
        }
        lemma_parts_after_digits(s, fewer);
        assert((s + digits).drop_last() =~= s + fewer);
        assert(is_digit(digits[digits.len() - 1]));
        assert(split_where(s + fewer, is_dot).drop_last() =~= parts.drop_last());
        assert((parts.last() + fewer).push(digits.last()) =~= parts.last() + digits);
    }
}

proof fn lemma_part_after_dot(s: Seq<char>)
    ensures
        ({
            let is_dot = |c: char| c == '.';
            split_where(s.push('.'), is_dot) == split_where(s, is_dot).push(Seq::empty())
        }),
{
    assert(s.push('.').drop_last() =~= s);
}

proof fn lemma_dotted_parts(major: nat, minor: nat, patch: nat)
    ensures
        ({
            let is_dot = |c: char| c == '.';
            &&& split_where(dotted(major, minor), is_dot) == seq![decimal(major), decimal(minor)]
            &&& split_where(dotted(major, minor) + seq!['.'] + decimal(patch), is_dot) == seq![
                decimal(major),
                decimal(minor),
                decimal(patch),
            ]
        }),
{
    let is_dot = |c: char| c == '.';
    let empty = Seq::<char>::empty();
    let none = Seq::<Seq<char>>::empty();
    decimal_spells_its_number(major);
    decimal_spells_its_number(minor);
    decimal_spells_its_number(patch);
    assert(split_where(empty, is_dot) =~= none.push(empty));
    lemma_parts_after_digits(empty, decimal(major));
    assert(empty + decimal(major) =~= decimal(major));
    assert(split_where(decimal(major), is_dot) =~= none.push(decimal(major)));
    lemma_part_after_dot(decimal(major));
    let one = decimal(major).push('.');
    assert(one =~= decimal(major) + seq!['.']);
    lemma_parts_after_digits(one, decimal(minor));
    assert(empty + decimal(minor) =~= decimal(minor));
    let two = one + decimal(minor);
    assert(split_where(two, is_dot) =~= none.push(decimal(major)).push(decimal(minor)));
    lemma_part_after_dot(two);
    assert(two.push('.') =~= two + seq!['.']);
    lemma_parts_after_digits(two.push('.'), decimal(patch));
    assert(empty + decimal(patch) =~= decimal(patch));
    assert(split_where(two.push('.') + decimal(patch), is_dot) =~= none.push(decimal(major)).push(
        decimal(minor),
    ).push(decimal(patch)));
}

proof fn lemma_number_is_read(n: nat)
    requires
        n <= u32::MAX,
    ensures
        version_number(decimal(n)) == Some(n),
{
    decimal_spells_its_number(n);
    assert(is_digit(decimal(n)[0]));
}

proof fn lemma_v_is_dropped(s: Seq<char>)
    requires
        s.len() > 0,
        is_digit(s[0]),
        is_digit(s.last()),
    ensures
        without_v(trimmed(s)) == s,
        without_v(trimmed(seq!['v'] + s)) == s,
{
    assert((seq!['v'] + s).last() == s.last());
    assert((seq!['v'] + s).skip(1) =~= s);
}

/// A version is read back from its notation, with or without a `v` before it. Where no patch is
/// noted, it is zero.
pub proof fn versions_are_read_back(major: nat, minor: nat, patch: nat)
    requires
        major <= u32::MAX,
        minor <= u32::MAX,
        patch <= u32::MAX,
    ensures
        version_of(dotted(major, minor)) == Some((major, minor, 0nat)),
        version_of(seq!['v'] + dotted(major, minor)) == Some((major, minor, 0nat)),
        version_of(dotted(major, minor) + seq!['.'] + decimal(patch)) == Some(
            (major, minor, patch),
        ),
        version_of(seq!['v'] + (dotted(major, minor) + seq!['.'] + decimal(patch))) == Some(
            (major, minor, patch),
        ),
{
    let short = dotted(major, minor);
    let long = short + seq!['.'] + decimal(patch);
    lemma_dotted_parts(major, minor, patch);
    lemma_number_is_read(major);
    lemma_number_is_read(minor);
    lemma_number_is_read(patch);
    decimal_spells_its_number(major);
    decimal_spells_its_number(minor);
    decimal_spells_its_number(patch);
    assert(short[0] == decimal(major)[0] && long[0] == decimal(major)[0]);
    assert(is_digit(decimal(major)[0]));
    assert(short.last() == decimal(minor)[decimal(minor).len() - 1]);
    assert(long.last() == decimal(patch)[decimal(patch).len() - 1]);
    lemma_v_is_dropped(short);
    lemma_v_is_dropped(long);
}

/// Versions are ordered by their major number; where that is the same, by the minor one, whatever
/// the patches; and only where both are the same, by the patch.
pub proof fn versions_are_ordered_by_their_first_difference(
    a: (nat, nat, nat),
    b: (nat, nat, nat),
)
    ensures
        a.0 > b.0 ==> is_newer(a, b) && !is_newer(b, a),
        a.0 == b.0 && a.1 > b.1 ==> is_newer(a, b) && !is_newer(b, a),
        a.0 == b.0 && a.1 == b.1 ==> is_newer(a, b) == (a.2 > b.2),
{
}

/// What is done about a release follows from the two versions, the system and the names of the
/// assets. An older release, or the same, changes nothing. About a newer one the user is told on
/// macOS; elsewhere the tool is replaced out of the first asset that is named for the system, and
/// where there is none, that is an error.
pub proof fn newer_releases_are_updates(
    current: Seq<char>,
    running: (nat, nat, nat),
    release: Release,
    latest: (nat, nat, nat),
    platform: Platform,
)
    requires
        version_of(current) == Some(running),
        version_of(release.tag_name@) == Some(latest),
    ensures
        ({
            let newer = latest.0 > running.0 || (latest.0 == running.0 && (latest.1 > running.1 || (
            latest.1 == running.1 && latest.2 > running.2)));
            let suffix = if platform == Platform::Windows {
                "windows_amd64.zip"@
            } else {
                "linux_amd64.tar.gz"@
            };
            let assets = release.assets@;
            match update_for(current, release, platform) {
                Ok(Update::UpToDate) => !newer,
                Ok(Update::Notify) => newer && platform == Platform::MacOs,
                Ok(Update::Replace { asset, is_zip }) => {
                    &&& newer && platform != Platform::MacOs
                    &&& is_zip == (platform == Platform::Windows)
                    &&& asset < assets.len()
                    &&& is_behind(suffix, assets[asset as int].name@)
                    &&& forall|k: int|
                        0 <= k < asset ==> !is_behind(suffix, (#[trigger] assets[k]).name@)
                },
                Err(UpdateError::NoAsset) => {
                    &&& newer && platform != Platform::MacOs
                    &&& forall|k: int|
                        0 <= k < assets.len() ==> !is_behind(suffix, (#[trigger] assets[k]).name@)
                },
                _ => false,
            }
        }),
{
    let wanted = |name: Seq<char>| ends_with(name, archive_suffix(platform));
    assert(release.assets.len() <= usize::MAX);
    crate::remote::first_asset_is_the_first_that_is_wanted(release.assets@, wanted);
    assert forall|name: Seq<char>| #[trigger] wanted(name) == is_behind(
        archive_suffix(platform),
        name,
    ) by {
        lemma_behind(archive_suffix(platform), name);
    }
}

proof fn lemma_behind(suffix: Seq<char>, name: Seq<char>)
    ensures
        ends_with(name, suffix) == is_behind(suffix, name),
{
    crate::text::tails_are_ends(name, name.take(name.len() - suffix.len()), suffix);
}

/// Whether `name` is some text and `suffix` behind it.
pub open spec fn is_behind(suffix: Seq<char>, name: Seq<char>) -> bool {
    name.len() >= suffix.len() && name == name.take(name.len() - suffix.len()) + suffix
}

/// A tool whose own version cannot be read, and a release whose tag cannot be read, are errors.
pub proof fn unreadable_versions_are_errors(
    current: Seq<char>,
    release: Release,
    platform: Platform,
)
    ensures
        version_of(current) is None ==> update_for(current, release, platform) == Err::<
            Update,
            UpdateError,
        >(UpdateError::BadVersion),
        version_of(current) is Some && version_of(release.tag_name@) is None ==> update_for(
            current,
            release,
            platform,
        ) == Err::<Update, UpdateError>(UpdateError::BadTag),
{
}

proof fn lemma_version_core(
    before: Seq<char>,
    vs: Seq<char>,
    core: Seq<char>,
    after: Seq<char>,
)
    requires
        forall|i: int| 0 <= i < before.len() ==> is_space(#[trigger] before[i]),
        forall|i: int| 0 <= i < after.len() ==> is_space(#[trigger] after[i]),
        forall|i: int| 0 <= i < vs.len() ==> #[trigger] vs[i] == 'v',
        core.len() > 0,
        core[0] != 'v',
        !is_space(core[0]),
        !is_space(core.last()),
    ensures
        without_v(trimmed(before + vs + core + after)) == core,
{
    let inner = vs + core;
    assert(inner.last() == core.last());
    assert(inner[0] == (if vs.len() > 0 {
        vs[0]
    } else {
        core[0]
    }));
    assert(before + inner + after =~= before + vs + core + after);
    crate::text::trimming_takes_the_ends(before, inner, after);
    assert forall|j: int| 0 <= j < vs.len() implies #[trigger] inner[j] == 'v' by {
        assert(inner[j] == vs[j]);
    }
    lemma_without_v(inner, vs.len() as int);
    assert(inner.skip(vs.len() as int) =~= core);
}

proof fn lemma_split_parts(core: Seq<char>, first: Seq<char>, rest: Seq<char>)
    requires
        core == first + seq!['.'] + rest,
        !first.contains('.'),
    ensures
        ({
            let is_dot = |c: char| c == '.';
            split_where(core, is_dot) == seq![first] + split_where(rest, is_dot)
        }),
{
    let is_dot = |c: char| c == '.';
    assert forall|i: int| 0 <= i < first.len() implies !is_dot(#[trigger] first[i]) by {
        assert(first.contains(first[i]));
    }
    lemma_split_whole(first, is_dot);
    lemma_split_around(first, '.', rest, is_dot);
}

proof fn lemma_decimal_without(n: nat)
    ensures
        decimal(n).len() > 0,
        !decimal(n).contains('.'),
        is_digit(decimal(n)[0]),
        is_digit(decimal(n).last()),
{
    decimal_spells_its_number(n);
    assert(decimal(n).last() == decimal(n)[decimal(n).len() - 1]);
    if decimal(n).contains('.') {
        let k = choose|k: int| 0 <= k < decimal(n).len() && decimal(n)[k] == '.';
        assert(is_digit(decimal(n)[k]));
    }
}

proof fn lemma_version_of_two(
    before: Seq<char>,
    vs: Seq<char>,
    major: nat,
    minor: nat,
    after: Seq<char>,
)
    requires
        major <= u32::MAX,
        minor <= u32::MAX,
        forall|i: int| 0 <= i < before.len() ==> is_space(#[trigger] before[i]),
        forall|i: int| 0 <= i < after.len() ==> is_space(#[trigger] after[i]),
        forall|i: int| 0 <= i < vs.len() ==> #[trigger] vs[i] == 'v',
    ensures
        version_of(before + vs + (decimal(major) + seq!['.'] + decimal(minor)) + after) == Some(
            (major, minor, 0nat),
        ),
{
    let is_dot = |c: char| c == '.';
    let two = decimal(major) + seq!['.'] + decimal(minor);
    lemma_decimal_without(major);
    lemma_decimal_without(minor);
    lemma_number_is_read(major);
    lemma_number_is_read(minor);
    assert(two[0] == decimal(major)[0]);
    assert(two.last() == decimal(minor).last());
    lemma_version_core(before, vs, two, after);
    assert forall|i: int| 0 <= i < decimal(minor).len() implies !is_dot(
        #[trigger] decimal(minor)[i],
    ) by {
        assert(decimal(minor).contains(decimal(minor)[i]));
    }
    lemma_split_parts(two, decimal(major), decimal(minor));
    lemma_split_whole(decimal(minor), is_dot);
    assert(split_where(two, is_dot) =~= seq![decimal(major), decimal(minor)]);
}

proof fn lemma_version_of_more(
    before: Seq<char>,
    vs: Seq<char>,
    major: nat,
    minor: nat,
    more: Seq<char>,
    after: Seq<char>,
)
    requires
        major <= u32::MAX,
        minor <= u32::MAX,
        forall|i: int| 0 <= i < before.len() ==> is_space(#[trigger] before[i]),
        forall|i: int| 0 <= i < after.len() ==> is_space(#[trigger] after[i]),
        forall|i: int| 0 <= i < vs.len() ==> #[trigger] vs[i] == 'v',
        more.len() > 0 ==> !is_space(more.last()),
    ensures
        ({
            let two = decimal(major) + seq!['.'] + decimal(minor);
            let pieces = split_where(more, |c: char| c == '.');
            pieces.len() > 0 ==> version_of(before + vs + (two + seq!['.'] + more) + after) == Some(
                (
                    major,
                    minor,
                    match parsed_unsigned(pieces[0], u32::MAX as nat) {
                        Some(n) => n,
                        None => 0nat,
                    },
                ),
            )
        }),
{
    let is_dot = |c: char| c == '.';
    let two = decimal(major) + seq!['.'] + decimal(minor);
    let whole = two + seq!['.'] + more;
    let tail = decimal(minor) + seq!['.'] + more;
    let pieces = split_where(more, is_dot);
    lemma_decimal_without(major);
    lemma_decimal_without(minor);
    lemma_number_is_read(major);
    lemma_number_is_read(minor);
    assert(whole[0] == decimal(major)[0]);
    assert(whole.last() == (if more.len() > 0 {
        more.last()
    } else {
        '.'
    }));
    lemma_version_core(before, vs, whole, after);
    assert(whole =~= decimal(major) + seq!['.'] + tail);
    lemma_split_parts(whole, decimal(major), tail);
    lemma_split_parts(tail, decimal(minor), more);
    let parts = split_where(whole, is_dot);
    assert(parts =~= seq![decimal(major), decimal(minor)] + pieces);
    if pieces.len() > 0 {
        assert(parts[2] == pieces[0]);
    }
}

/// A version is written as two or three numbers with dots between them. White space around it and
/// letters `v` before it do not matter, and nothing behind a third dot does. A third part that is
/// no number counts as zero.
pub proof fn versions_are_numbers_between_dots(
    before: Seq<char>,
    vs: Seq<char>,
    major: nat,
    minor: nat,
    third: Seq<char>,
    rest: Seq<char>,
    after: Seq<char>,
)
    requires
        major <= u32::MAX,
        minor <= u32::MAX,
        forall|i: int| 0 <= i < before.len() ==> is_space(#[trigger] before[i]),
        forall|i: int| 0 <= i < after.len() ==> is_space(#[trigger] after[i]),
        forall|i: int| 0 <= i < vs.len() ==> #[trigger] vs[i] == 'v',
        !third.contains('.'),
        third.len() > 0 ==> !is_space(third.last()),
        rest.len() > 0 ==> !is_space(rest.last()),
    ensures
        ({
            let two = decimal(major) + seq!['.'] + decimal(minor);
            let patch = match parsed_unsigned(third, u32::MAX as nat) {
                Some(n) => n,
                None => 0nat,
            };
            &&& version_of(before + vs + two + after) == Some((major, minor, 0nat))
            &&& version_of(before + vs + (two + seq!['.'] + third) + after) == Some(
                (major, minor, patch),
            )
            &&& version_of(before + vs + (two + seq!['.'] + third + seq!['.'] + rest) + after)
                == Some((major, minor, patch))
        }),
{
    let is_dot = |c: char| c == '.';
    let two = decimal(major) + seq!['.'] + decimal(minor);
    let inner = third + seq!['.'] + rest;
    lemma_version_of_two(before, vs, major, minor, after);
    assert forall|i: int| 0 <= i < third.len() implies !is_dot(#[trigger] third[i]) by {
        assert(third.contains(third[i]));
    }
    lemma_split_whole(third, is_dot);
    lemma_version_of_more(before, vs, major, minor, third, after);
    lemma_split_parts(inner, third, rest);
    assert(inner.last() == (if rest.len() > 0 {
        rest.last()
    } else {
        '.'
    }));
    lemma_version_of_more(before, vs, major, minor, inner, after);
    assert(two + seq!['.'] + inner =~= two + seq!['.'] + third + seq!['.'] + rest);
}

proof fn lemma_trimmed_holds(s: Seq<char>, c: char)
    requires
        !s.contains(c),
    ensures
        !trimmed(s).contains(c),
    decreases s.len(),
{
    if s.len() > 0 && is_space(s[0]) {
        assert(!s.skip(1).contains(c)) by {
            if s.skip(1).contains(c) {
                let k = choose|k: int| 0 <= k < s.skip(1).len() && s.skip(1)[k] == c;
                assert(s[k + 1] == c);
            }
        }
        lemma_trimmed_holds(s.skip(1), c);
    } else if s.len() > 0 && is_space(s.last()) {
        assert(!s.drop_last().contains(c)) by {
            if s.drop_last().contains(c) {
                let k = choose|k: int| 0 <= k < s.drop_last().len() && s.drop_last()[k] == c;
                assert(s[k] == c);
            }
        }
        lemma_trimmed_holds(s.drop_last(), c);
    }
}

proof fn lemma_without_v_holds(s: Seq<char>, c: char)
    requires
        !s.contains(c),
    ensures
        !without_v(s).contains(c),
    decreases s.len(),
{
    if s.len() > 0 && s[0] == 'v' {
        assert(!s.skip(1).contains(c)) by {
            if s.skip(1).contains(c) {
                let k = choose|k: int| 0 <= k < s.skip(1).len() && s.skip(1)[k] == c;
                assert(s[k + 1] == c);
            }
        }
        lemma_without_v_holds(s.skip(1), c);
    }
}

/// A text without a dot is no version.
pub proof fn a_version_has_a_dot(dotless: Seq<char>)
    requires
        !dotless.contains('.'),
    ensures
        version_of(dotless) is None,
{
    let is_dot = |c: char| c == '.';
    lemma_trimmed_holds(dotless, '.');
    lemma_without_v_holds(trimmed(dotless), '.');
    let core = without_v(trimmed(dotless));
    assert forall|i: int| 0 <= i < core.len() implies !is_dot(#[trigger] core[i]) by {
        assert(core.contains(core[i]));
    }
    lemma_split_whole(core, is_dot);
}

/// A text whose first or second part is no number is no version.
pub proof fn two_numbers_make_a_version(first: Seq<char>, second: Seq<char>)
    requires
        !first.contains('.'),
        !second.contains('.'),
        first.len() > 0,
        first[0] != 'v',
        !is_space(first[0]),
        second.len() > 0,
        !is_space(second.last()),
        parsed_unsigned(first, u32::MAX as nat) is None || parsed_unsigned(
            second,
            u32::MAX as nat,
        ) is None,
    ensures
        version_of(first + seq!['.'] + second) is None,
{
    let is_dot = |c: char| c == '.';
    let none = Seq::<char>::empty();
    let two = first + seq!['.'] + second;
    assert(two[0] == first[0] && two.last() == second.last());
    lemma_version_core(none, none, two, none);
    assert(none + none + two + none =~= two);
    lemma_split_parts(two, first, second);
    assert forall|i: int| 0 <= i < second.len() implies !is_dot(#[trigger] second[i]) by {
        assert(second.contains(second[i]));
    }
    lemma_split_whole(second, is_dot);
    assert(split_where(two, is_dot) =~= seq![first, second]);
}

/// The numbers of a version keep their places.
pub proof fn numbers_keep_their_places(major: u32, minor: u32, patch: u32)
    ensures
        numbers((major, minor, patch)).0 == major,
        numbers((major, minor, patch)).1 == minor,
        numbers((major, minor, patch)).2 == patch,
{
}

} // verus!
