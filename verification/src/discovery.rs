//! Where the images and the model come from.
use vstd::prelude::*;

use crate::file_names::find_extension_dot;
#[allow(unused_imports)]
use crate::file_names::{extension_of, names_no_file, names_split_at_the_last_dot};
#[allow(unused_imports)]
use crate::remote::is_onnx_name;
use crate::text::{chars_of, has_suffix, is_text, join, lower_ascii};
#[allow(unused_imports)]
use crate::text::{ascii_lowered, ends_with, joined, lemma_spelling, spells, texts};
#[allow(unused_imports)]
use crate::work_list::path_key;
use crate::work_list::{same_path, Part};

verus! {

/// Chooses the folder of images: the one given, else the one picked in a dialog, where there is
/// one.
pub fn resolve_input_dir<T>(arg: Option<T>, has_dialog: bool, picked: Option<T>) -> (out: Result<
    T,
    String,
>)
    ensures
        match (arg, has_dialog, picked) {
            (Some(given), _, _) => out == Ok::<T, String>(given),
            (None, true, Some(chosen)) => out == Ok::<T, String>(chosen),
            (None, true, None) => out matches Err(e) && e@ == "No directory selected"@,
            (None, false, _) => out matches Err(e) && e@
                == "No input folder given. On Linux, pass the image folder as an argument, e.g.:  localSort /path/to/images"@,
        },
{
    match (arg, has_dialog, picked) {
        (Some(given), _, _) => Ok(given),
        (None, true, Some(chosen)) => Ok(chosen),
        (None, true, None) => Err("No directory selected".to_owned()),
        (None, false, _) => Err(
            "No input folder given. On Linux, pass the image folder as an argument, e.g.:  localSort /path/to/images".to_owned(),
        ),
    }
}

/// A folder that may be searched for a model.
pub struct Candidate {
    pub path: Vec<Part>,
    pub is_dir: bool,
}

pub open spec fn is_dir_at(candidates: Seq<Option<Candidate>>, i: int) -> bool {
    candidates[i] matches Some(c) && c.is_dir
}

/// Whether candidate `i` is searched: it is a folder, and none of those before it is the same.
pub open spec fn is_searched(candidates: Seq<Option<Candidate>>, i: int) -> bool {
    &&& is_dir_at(candidates, i)
    &&& forall|j: int|
        0 <= j < i && #[trigger] is_dir_at(candidates, j) ==> path_key(candidates[j]->0.path@)
            != path_key(candidates[i]->0.path@)
}

/// The positions of the first `n` candidates that are searched, in order.
pub open spec fn searched(candidates: Seq<Option<Candidate>>, n: nat) -> Seq<usize>
    decreases n,
{
    if n == 0 {
        Seq::empty()
    } else if is_searched(candidates, n - 1) {
        searched(candidates, (n - 1) as nat).push((n - 1) as usize)
    } else {
        searched(candidates, (n - 1) as nat)
    }
}

proof fn lemma_searched(candidates: Seq<Option<Candidate>>, n: nat)
    requires
        n <= usize::MAX,
    ensures
        forall|k: int|
            0 <= k < searched(candidates, n).len() ==> (#[trigger] searched(candidates, n)[k]) < n
                && is_searched(candidates, searched(candidates, n)[k] as int),
        forall|i: int|
            0 <= i < n && #[trigger] is_searched(candidates, i) ==> searched(
                candidates,
                n,
            ).contains(i as usize),
    decreases n,
{
    if n > 0 {
        let shorter = searched(candidates, (n - 1) as nat);
        lemma_searched(candidates, (n - 1) as nat);
        assert forall|i: int|
            0 <= i < n && #[trigger] is_searched(candidates, i) implies searched(
            candidates,
            n,
        ).contains(i as usize) by {
            let all = searched(candidates, n);
            if i == n - 1 {
                assert(all[all.len() - 1] == i as usize);
            } else {
                let k = choose|k: int| 0 <= k < shorter.len() && shorter[k] == i as usize;
                assert(all[k] == i as usize);
            }
        }
    }
}

/// Every candidate that is a folder is searched, itself or as one before it with the same path.
pub proof fn every_folder_is_searched(candidates: Seq<Option<Candidate>>, i: int)
    requires
        0 <= i < candidates.len(),
        is_dir_at(candidates, i),
    ensures
        exists|j: int|
            0 <= j <= i && #[trigger] is_searched(candidates, j) && path_key(
                candidates[j]->0.path@,
            ) == path_key(candidates[i]->0.path@),
    decreases i,
{
    if !is_searched(candidates, i) {
        let j = choose|j: int|
            0 <= j < i && #[trigger] is_dir_at(candidates, j) && path_key(candidates[j]->0.path@)
                == path_key(candidates[i]->0.path@);
        every_folder_is_searched(candidates, j);
    }
}

/// Lists the candidates to search for a model: those that are folders, each folder once.
pub fn search_dirs(candidates: &Vec<Option<Candidate>>) -> (out: Vec<usize>)
    ensures
        out@ == searched(candidates@, candidates@.len()),
{
    let ghost all = candidates@;
    let mut out: Vec<usize> = Vec::new();
    let mut i: usize = 0;
    while i < candidates.len()
        invariant
            all == candidates@,
            i <= candidates@.len(),
            out@ == searched(all, i as nat),
        decreases candidates@.len() - i,
    {
        if let Some(candidate) = &candidates[i] {
            if candidate.is_dir {
                let mut known: bool = false;
                let mut k: usize = 0;
                proof {
                    lemma_searched(all, i as nat);
                }
                while k < out.len()
                    invariant
                        all == candidates@,
                        i < candidates@.len(),
                        out@ == searched(all, i as nat),
                        is_dir_at(all, i as int),
                        *candidate == all[i as int]->0,
                        forall|k: int|
                            0 <= k < out@.len() ==> (#[trigger] out@[k]) < i && is_searched(
                                all,
                                out@[k] as int,
                            ),
                        k <= out@.len(),
                        known ==> !is_searched(all, i as int),
                        !known ==> forall|j: int|
                            0 <= j < k ==> path_key(all[(#[trigger] out@[j]) as int]->0.path@)
                                != path_key(all[i as int]->0.path@),
                    decreases out@.len() - k,
                {
                    let ghost j = out@[k as int] as int;
                    assert(is_searched(all, j));
                    assert(is_dir_at(all, j));
                    if let Some(earlier) = &candidates[out[k]] {
                        if same_path(&earlier.path, &candidate.path) {
                            known = true;
                        }
                    }
                    k = k + 1;
                }
                if !known {
                    proof {
                        assert forall|j: int|
                            0 <= j < i && #[trigger] is_dir_at(all, j) implies path_key(
                            all[j]->0.path@,
                        ) != path_key(all[i as int]->0.path@) by {
                            every_folder_is_searched(all, j);
                            let m = choose|m: int|
                                0 <= m <= j && #[trigger] is_searched(all, m) && path_key(
                                    all[m]->0.path@,
                                ) == path_key(all[j]->0.path@);
                            assert(out@.contains(m as usize));
                        }
                    }
                    out.push(i);
                }
            }
        }
        i = i + 1;
    }
    out
}

/// Something found in a folder that is searched.
pub struct Found {
    /// The file name, with a replacement character for what is not text.
    pub name: String,
    pub is_file: bool,
}

/// A folder that is searched for a model.
pub struct Folder {
    /// The path as it is shown to the user.
    pub shown: String,
    /// Whether the folder holds a file `model.onnx`.
    pub has_model: bool,
    pub found: Vec<Found>,
}

/// Whether this is a file with the extension `onnx`, in upper or lower case.
pub open spec fn is_model_file(found: Found) -> bool {
    &&& found.is_file
    &&& extension_of(found.name@) matches Some(extension) && ascii_lowered(extension) == "onnx"@
}

/// The positions of the model files, in order.
pub open spec fn model_files(found: Seq<Found>) -> Seq<usize>
    decreases found.len(),
{
    if found.len() == 0 {
        Seq::empty()
    } else if is_model_file(found.last()) {
        model_files(found.drop_last()).push((found.len() - 1) as usize)
    } else {
        model_files(found.drop_last())
    }
}

pub open spec fn names_at(found: Seq<Found>, positions: Seq<usize>) -> Seq<Seq<char>> {
    positions.map_values(|i: usize| found[i as int].name@)
}

/// A model that was found.
#[derive(Clone, Copy, Debug, PartialEq, Eq, Structural)]
pub enum Discovered {
    /// The file `model.onnx` of a folder.
    Exact { folder: usize },
    /// The only model file of a folder.
    Only { folder: usize, file: usize },
}

/// Why no model was chosen.
#[derive(Debug)]
pub enum NotDiscovered {
    /// A folder holds more than one model file.
    Ambiguous { folder: usize, names: Vec<String> },
    Nothing,
}

pub open spec fn no_exact_model(folders: Seq<Folder>) -> bool {
    forall|k: int| 0 <= k < folders.len() ==> !(#[trigger] folders[k]).has_model
}

pub open spec fn model_count(folder: Folder) -> nat {
    model_files(folder.found@).len()
}

/// Whether `out` is what a search of the folders gives: `model.onnx` in the first folder that has
/// it; else the only model file of the first folder with just one; else the first folder with
/// more than one is reported.
pub open spec fn is_discovery(
    folders: Seq<Folder>,
    out: Result<Discovered, NotDiscovered>,
) -> bool {
    match out {
        Ok(Discovered::Exact { folder }) => {
            &&& folder < folders.len()
            &&& folders[folder as int].has_model
            &&& no_exact_model(folders.take(folder as int))
        },
        Ok(Discovered::Only { folder, file }) => {
            &&& no_exact_model(folders)
            &&& folder < folders.len()
            &&& model_files(folders[folder as int].found@) == seq![file]
            &&& forall|k: int| 0 <= k < folder ==> model_count(#[trigger] folders[k]) != 1
        },
        Err(NotDiscovered::Ambiguous { folder, names }) => {
            &&& no_exact_model(folders)
            &&& folder < folders.len()
            &&& model_count(folders[folder as int]) > 1
            &&& forall|k: int| 0 <= k < folder ==> model_count(#[trigger] folders[k]) == 0
            &&& forall|k: int| 0 <= k < folders.len() ==> model_count(#[trigger] folders[k]) != 1
            &&& texts(names@) == names_at(
                folders[folder as int].found@,
                model_files(folders[folder as int].found@),
            )
        },
        Err(NotDiscovered::Nothing) => {
            &&& no_exact_model(folders)
            &&& forall|k: int| 0 <= k < folders.len() ==> model_count(#[trigger] folders[k]) == 0
        },
    }
}

proof fn lemma_model_files(found: Seq<Found>)
    requires
        found.len() <= usize::MAX,
    ensures
        model_files(found).len() <= found.len(),
        forall|k: int|
            0 <= k < model_files(found).len() ==> (#[trigger] model_files(found)[k])
                < found.len() && is_model_file(found[model_files(found)[k] as int]),
    decreases found.len(),
{
    if found.len() > 0 {
        lemma_model_files(found.drop_last());
    }
}

fn find_model_files(found: &Vec<Found>) -> (out: Vec<usize>)
    ensures
        out@ == model_files(found@),
{
    let mut out: Vec<usize> = Vec::new();
    let mut i: usize = 0;
    while i < found.len()
        invariant
            i <= found@.len(),
            out@ == model_files(found@.take(i as int)),
        decreases found@.len() - i,
    {
        assert(found@.take(i + 1).drop_last() =~= found@.take(i as int));
        if found[i].is_file {
            let name: Vec<char> = chars_of(found[i].name.as_str());
            let len: usize = name.len();
            if let Some(dot) = find_extension_dot(&name) {
                let extension: Vec<char> = lower_ascii(&name, dot + 1, len);
                assert(name@.subrange(dot + 1, len as int) =~= name@.skip(dot + 1));
                if is_text(&extension, "onnx") {
                    out.push(i);
                }
            }
        }
        i = i + 1;
    }
    assert(found@.take(i as int) =~= found@);
    out
}

fn copy_names(found: &Vec<Found>, positions: &Vec<usize>) -> (out: Vec<String>)
    requires
        forall|k: int| 0 <= k < positions@.len() ==> (#[trigger] positions@[k]) < found@.len(),
    ensures
        texts(out@) == names_at(found@, positions@),
{
    let mut out: Vec<String> = Vec::new();
    let mut k: usize = 0;
    while k < positions.len()
        invariant
            k <= positions@.len(),
            forall|j: int| 0 <= j < positions@.len() ==> (#[trigger] positions@[j]) < found@.len(),
            out@.len() == k,
            forall|j: int|
                0 <= j < k ==> (#[trigger] out@[j])@ == found@[positions@[j] as int].name@,
        decreases positions@.len() - k,
    {
        out.push(found[positions[k]].name.clone());
        k = k + 1;
    }
    assert(texts(out@) =~= names_at(found@, positions@));
    out
}

/// Searches folders for a model.
pub fn discover_model(folders: &Vec<Folder>) -> (out: Result<Discovered, NotDiscovered>)
    ensures
        is_discovery(folders@, out),
{
    let mut k: usize = 0;
    while k < folders.len()
        invariant
            k <= folders@.len(),
            no_exact_model(folders@.take(k as int)),
        decreases folders@.len() - k,
    {
        if folders[k].has_model {
            return Ok(Discovered::Exact { folder: k });
        }
        k = k + 1;
        assert(folders@.take(k as int) =~= folders@.take(k - 1).push(folders@[k - 1]));
    }
    assert(folders@.take(k as int) =~= folders@);
    let mut ambiguous: Option<(usize, Vec<String>)> = None;
    k = 0;
    while k < folders.len()
        invariant
            k <= folders@.len(),
            no_exact_model(folders@),
            forall|j: int| 0 <= j < k ==> model_count(#[trigger] folders@[j]) != 1,
            match ambiguous {
                Some((folder, names)) => {
                    &&& folder < k
                    &&& model_count(folders@[folder as int]) > 1
                    &&& forall|j: int|
                        0 <= j < folder ==> model_count(#[trigger] folders@[j]) == 0
                    &&& texts(names@) == names_at(
                        folders@[folder as int].found@,
                        model_files(folders@[folder as int].found@),
                    )
                },
                None => forall|j: int| 0 <= j < k ==> model_count(#[trigger] folders@[j]) == 0,
            },
        decreases folders@.len() - k,
    {
        let files: Vec<usize> = find_model_files(&folders[k].found);
        proof {
            assert(folders[k as int].found.len() <= usize::MAX);
            lemma_model_files(folders@[k as int].found@);
        }
        if files.len() == 1 {
            let file: usize = files[0];
            assert(files@ =~= seq![file]);
            return Ok(Discovered::Only { folder: k, file });
        }
        if files.len() > 1 && ambiguous.is_none() {
            ambiguous = Some((k, copy_names(&folders[k].found, &files)));
        }
        k = k + 1;
    }
    match ambiguous {
        Some((folder, names)) => Err(NotDiscovered::Ambiguous { folder, names }),
        None => Err(NotDiscovered::Nothing),
    }
}

pub open spec fn shown_paths(folders: Seq<Folder>) -> Seq<Seq<char>> {
    folders.map_values(|folder: Folder| folder.shown@)
}

/// What the user is told where no model was chosen.
pub open spec fn discovery_message(folders: Seq<Folder>, error: NotDiscovered) -> Seq<char> {
    match error {
        NotDiscovered::Ambiguous { folder, names } => "Multiple .onnx models in "@
            + folders[folder as int].shown@ + ":\n  "@ + joined(texts(names@), "\n  "@)
            + "\nPick one with --model <file>."@,
        NotDiscovered::Nothing => "No ONNX model found in:\n  "@ + joined(
            shown_paths(folders),
            "\n  "@,
        )
            + "\nExport one with:  yolo export model=model.pt format=onnx\nthen place `model.onnx` next to the images or the executable (or pass --model <file>)."@,
    }
}

/// Writes what the user is told where no model was chosen.
pub fn discovery_error(folders: &Vec<Folder>, error: &NotDiscovered) -> (out: String)
    requires
        error matches NotDiscovered::Ambiguous { folder, names } ==> folder < folders@.len(),
    ensures
        out@ == discovery_message(folders@, *error),
{
    let mut out: String = String::new();
    match error {
        NotDiscovered::Ambiguous { folder, names } => {
            out.append("Multiple .onnx models in ");
            out.append(folders[*folder].shown.as_str());
            out.append(":\n  ");
            out.append(join(names, "\n  ").as_str());
            out.append("\nPick one with --model <file>.");
        },
        NotDiscovered::Nothing => {
            let mut shown: Vec<String> = Vec::new();
            let mut k: usize = 0;
            while k < folders.len()
                invariant
                    k <= folders@.len(),
                    shown@.len() == k,
                    forall|j: int| 0 <= j < k ==> (#[trigger] shown@[j])@ == folders@[j].shown@,
                decreases folders@.len() - k,
            {
                shown.push(folders[k].shown.clone());
                k = k + 1;
            }
            assert(texts(shown@) =~= shown_paths(folders@));
            out.append("No ONNX model found in:\n  ");
            out.append(join(&shown, "\n  ").as_str());
            out.append(
                "\nExport one with:  yolo export model=model.pt format=onnx\nthen place `model.onnx` next to the images or the executable (or pass --model <file>).",
            );
        },
    }
    assert(out@ =~= discovery_message(folders@, *error));
    out
}

/// A search has one result.
pub proof fn discovery_is_unique(
    folders: Seq<Folder>,
    a: Result<Discovered, NotDiscovered>,
    b: Result<Discovered, NotDiscovered>,
)
    requires
        is_discovery(folders, a),
        is_discovery(folders, b),
    ensures
        match (a, b) {
            (Ok(x), Ok(y)) => x == y,
            (
                Err(NotDiscovered::Ambiguous { folder: f, names: m }),
                Err(NotDiscovered::Ambiguous { folder: g, names: n }),
            ) => f == g && texts(m@) == texts(n@),
            (Err(NotDiscovered::Nothing), Err(NotDiscovered::Nothing)) => true,
            _ => false,
        },
{
    match (a, b) {
        (Ok(Discovered::Exact { folder: f }), Ok(Discovered::Exact { folder: g })) => {
            if f < g {
                assert(folders.take(g as int)[f as int].has_model);
            } else if g < f {
                assert(folders.take(f as int)[g as int].has_model);
            }
        },
        (
            Ok(Discovered::Only { folder: f, file: m }),
            Ok(Discovered::Only { folder: g, file: n }),
        ) => {
            assert(model_count(folders[f as int]) == 1);
            assert(model_count(folders[g as int]) == 1);
            assert(seq![m][0] == m && seq![n][0] == n);
        },
        (Ok(Discovered::Only { folder, .. }), _) => {
            assert(model_count(folders[folder as int]) == 1);
        },
        (_, Ok(Discovered::Only { folder, .. })) => {
            assert(model_count(folders[folder as int]) == 1);
        },
        _ => {},
    }
}

/// What the user passed as the model.
#[derive(Clone, Copy, Debug, PartialEq, Eq, Structural)]
pub enum ModelSource {
    /// Nothing: a model has to be found.
    Search,
    /// A file on disk.
    File,
    /// A repository whose latest release holds the model.
    Repository,
    /// Neither a file nor a repository.
    Missing,
}

/// The characters of the name of an owner of repositories.
pub open spec fn is_owner_char(c: char) -> bool {
    ||| 'a' <= c <= 'z'
    ||| 'A' <= c <= 'Z'
    ||| '0' <= c <= '9'
    ||| c == '-'
}

/// The characters of the name of a repository.
pub open spec fn is_repository_char(c: char) -> bool {
    is_owner_char(c) || c == '_' || c == '.'
}

/// Whether `s` is an owner's name, a slash, and a repository's name.
pub open spec fn is_slug_at(s: Seq<char>, slash: int) -> bool {
    &&& 0 < slash < s.len() - 1
    &&& s[slash] == '/'
    &&& forall|j: int| 0 <= j < slash ==> is_owner_char(#[trigger] s[j])
    &&& forall|j: int| slash < j < s.len() ==> is_repository_char(#[trigger] s[j])
    &&& !names_no_file(s.skip(slash + 1))
}

/// Whether `s` has the form `Org/Repo` and is not the path of a model file.
pub open spec fn is_slug(s: Seq<char>) -> bool {
    &&& exists|slash: int| is_slug_at(s, slash)
    &&& !ends_with(ascii_lowered(s), ".onnx"@)
}

fn owner_char(c: char) -> (out: bool)
    ensures
        out == is_owner_char(c),
{
    ('a' <= c && c <= 'z') || ('A' <= c && c <= 'Z') || ('0' <= c && c <= '9') || c == '-'
}

/// Finds the slash of a slug.
pub(crate) fn find_slash(chars: &Vec<char>) -> (out: Option<usize>)
    ensures
        match out {
            Some(slash) => is_slug_at(chars@, slash as int),
            None => !(exists|slash: int| is_slug_at(chars@, slash)),
        },
{
    let len: usize = chars.len();
    let mut slash: usize = 0;
    while slash < len && owner_char(chars[slash])
        invariant
            slash <= len == chars@.len(),
            forall|j: int| 0 <= j < slash ==> is_owner_char(#[trigger] chars@[j]),
        decreases len - slash,
    {
        slash = slash + 1;
    }
    assert(forall|other: int| is_slug_at(chars@, other) ==> other == slash) by {
        assert forall|other: int| is_slug_at(chars@, other) implies other == slash by {
            if other < slash {
                assert(is_owner_char(chars@[other]));
            } else if slash < other {
                assert(is_owner_char(chars@[slash as int]));
            }
        }
    }
    if slash == 0 || slash == len || slash == len - 1 || chars[slash] != '/' {
        return None;
    }
    let mut i: usize = slash + 1;
    while i < len
        invariant
            slash < i <= len == chars@.len(),
            forall|j: int| slash < j < i ==> is_repository_char(#[trigger] chars@[j]),
            forall|other: int| is_slug_at(chars@, other) ==> other == slash,
        decreases len - i,
    {
        let c: char = chars[i];
        if !(owner_char(c) || c == '_' || c == '.') {
            assert(!is_repository_char(chars@[i as int]));
            return None;
        }
        i = i + 1;
    }
    let ghost name = chars@.skip(slash + 1);
    let rest: usize = len - slash - 1;
    let dots: bool = chars[slash + 1] == '.' && (rest == 1 || (rest == 2 && chars[slash + 2]
        == '.'));
    if dots {
        assert(names_no_file(name));
        return None;
    }
    assert(name.len() == rest);
    assert(name[0] == chars@[slash + 1]);
    assert(name.len() == 2 ==> name[1] == chars@[slash + 2]);
    Some(slash)
}

/// Where the model is taken from: a file that exists, else a repository if the argument names
/// one. Without an argument it is searched for.
pub open spec fn model_source(arg: Option<Seq<char>>, is_file: bool) -> ModelSource {
    match arg {
        None => ModelSource::Search,
        Some(s) => if is_file {
            ModelSource::File
        } else if is_slug(s) {
            ModelSource::Repository
        } else {
            ModelSource::Missing
        },
    }
}

/// Chooses where the model is taken from; `is_file` tells whether the argument is the path of a
/// file.
pub fn resolve_model(arg: Option<&str>, is_file: bool) -> (out: ModelSource)
    ensures
        out == model_source(
            match arg {
                Some(s) => Some(s@),
                None => None,
            },
            is_file,
        ),
{
    match arg {
        None => ModelSource::Search,
        Some(s) => {
            if is_file {
                return ModelSource::File;
            }
            let chars: Vec<char> = chars_of(s);
            let len: usize = chars.len();
            let lowered: Vec<char> = lower_ascii(&chars, 0, len);
            assert(chars@.subrange(0, len as int) =~= chars@);
            if find_slash(&chars).is_some() && !has_suffix(&lowered, ".onnx") {
                ModelSource::Repository
            } else {
                ModelSource::Missing
            }
        },
    }
}

proof fn lemma_searched_in_order(candidates: Seq<Option<Candidate>>, n: nat)
    requires
        n <= usize::MAX,
    ensures
        forall|j: int, k: int|
            0 <= j < k < searched(candidates, n).len() ==> #[trigger] searched(candidates, n)[j]
                < #[trigger] searched(candidates, n)[k],
    decreases n,
{
    if n > 0 {
        let shorter = searched(candidates, (n - 1) as nat);
        let all = searched(candidates, n);
        lemma_searched_in_order(candidates, (n - 1) as nat);
        lemma_searched(candidates, (n - 1) as nat);
        assert forall|j: int, k: int| 0 <= j < k < all.len() implies #[trigger] all[j]
            < #[trigger] all[k] by {
            assert(all[j] == shorter[j]);
            if k < shorter.len() {
                assert(all[k] == shorter[k]);
            }
        }
    }
}

/// The folders that are searched stand in the order of the candidates. No two of them have the
/// same path, each is a folder, and no folder among the candidates is left out: one with its path
/// that stands no later is searched.
pub proof fn each_folder_is_searched_once(candidates: Seq<Option<Candidate>>)
    requires
        candidates.len() <= usize::MAX,
    ensures
        ({
            let out = searched(candidates, candidates.len());
            &&& forall|k: int|
                0 <= k < out.len() ==> (#[trigger] out[k]) < candidates.len() && (
                candidates[out[k] as int] matches Some(c) && c.is_dir)
            &&& forall|j: int, k: int|
                0 <= j < k < out.len() ==> #[trigger] out[j] < #[trigger] out[k] && path_key(
                    candidates[out[j] as int]->0.path@,
                ) != path_key(candidates[out[k] as int]->0.path@)
            &&& forall|i: int|
                0 <= i < candidates.len() && (#[trigger] candidates[i] matches Some(c) && c.is_dir)
                    ==> exists|k: int|
                    0 <= k < out.len() && (#[trigger] out[k]) <= i && path_key(
                        candidates[out[k] as int]->0.path@,
                    ) == path_key(candidates[i]->0.path@)
        }),
{
    let out = searched(candidates, candidates.len());
    lemma_searched(candidates, candidates.len());
    lemma_searched_in_order(candidates, candidates.len());
    assert forall|j: int, k: int| 0 <= j < k < out.len() implies #[trigger] out[j]
        < #[trigger] out[k] && path_key(candidates[out[j] as int]->0.path@) != path_key(
        candidates[out[k] as int]->0.path@,
    ) by {
        assert(is_searched(candidates, out[j] as int));
        assert(is_dir_at(candidates, out[j] as int));
        assert(is_searched(candidates, out[k] as int));
    }
    assert forall|i: int|
        0 <= i < candidates.len() && (#[trigger] candidates[i] matches Some(c)
            && c.is_dir) implies exists|k: int|
        0 <= k < out.len() && (#[trigger] out[k]) <= i && path_key(
            candidates[out[k] as int]->0.path@,
        ) == path_key(candidates[i]->0.path@) by {
        assert(is_dir_at(candidates, i));
        every_folder_is_searched(candidates, i);
        let j = choose|j: int|
            0 <= j <= i && #[trigger] is_searched(candidates, j) && path_key(
                candidates[j]->0.path@,
            ) == path_key(candidates[i]->0.path@);
        assert(out.contains(j as usize));
        let k = choose|k: int| 0 <= k < out.len() && out[k] == j as usize;
        assert(out[k] == j);
    }
}

/// A model file is a file whose extension spells `onnx`, in upper or lower case. A file without
/// an extension is none, nor is a folder.
pub proof fn models_are_known_by_their_extension(
    found: Found,
    stem: Seq<char>,
    extension: Seq<char>,
    plain: Seq<char>,
)
    requires
        stem.len() > 0,
        !extension.contains('.'),
        stem != seq!['.'] || extension.len() > 0,
        plain.len() > 0,
        !plain.contains('.'),
    ensures
        found.name@ == stem + seq!['.'] + extension ==> is_model_file(found) == (found.is_file
            && spells(extension, "onnx"@)),
        found.name@ == plain || found.name@ == seq!['.'] + plain ==> !is_model_file(found),
        is_model_file(found) ==> found.is_file,
{
    names_split_at_the_last_dot(stem, extension, plain);
    reveal_strlit("onnx");
    lemma_spelling(extension, "onnx"@);
}

/// The model files of a folder are listed in the order in which they were found, each once, with
/// their names.
pub proof fn every_model_file_is_listed(found: Seq<Found>)
    requires
        found.len() <= usize::MAX,
    ensures
        forall|j: int, k: int|
            0 <= j < k < model_files(found).len() ==> #[trigger] model_files(found)[j]
                < #[trigger] model_files(found)[k],
        forall|i: int|
            0 <= i < found.len() ==> is_model_file(#[trigger] found[i]) == model_files(
                found,
            ).contains(i as usize),
        forall|k: int|
            0 <= k < model_files(found).len() ==> (#[trigger] model_files(found)[k]) < found.len(),
        names_at(found, model_files(found)).len() == model_files(found).len(),
        forall|k: int|
            0 <= k < model_files(found).len() ==> #[trigger] names_at(
                found,
                model_files(found),
            )[k] == found[model_files(found)[k] as int].name@,
    decreases found.len(),
{
    lemma_model_files(found);
    if found.len() > 0 {
        let start = found.drop_last();
        let shorter = model_files(start);
        let all = model_files(found);
        every_model_file_is_listed(start);
        assert forall|i: int| 0 <= i < found.len() implies is_model_file(#[trigger] found[i])
            == all.contains(i as usize) by {
            if i < start.len() {
                assert(start[i] == found[i]);
                if shorter.contains(i as usize) {
                    let k = choose|k: int| 0 <= k < shorter.len() && shorter[k] == i as usize;
                    assert(all[k] == i as usize);
                }
                if all.contains(i as usize) {
                    let k = choose|k: int| 0 <= k < all.len() && all[k] == i as usize;
                    assert(k < shorter.len() && shorter[k] == i as usize);
                }
            } else {
                if is_model_file(found[i]) {
                    assert(all[all.len() - 1] == i as usize);
                }
                if all.contains(i as usize) {
                    let k = choose|k: int| 0 <= k < all.len() && all[k] == i as usize;
                    assert(is_model_file(found[all[k] as int]));
                }
            }
        }
    }
}

/// What a search gives. The file `model.onnx` of the first folder that has one is taken. Where no
/// folder has one, the first folder with a single model file gives it. Where none has just one,
/// the first with several is reported, with their names; and nothing is found where none has any.
pub proof fn searches_take_the_first_that_fits(
    folders: Seq<Folder>,
    out: Result<Discovered, NotDiscovered>,
    k: int,
)
    requires
        is_discovery(folders, out),
        0 <= k < folders.len(),
    ensures
        folders[k].has_model && (forall|j: int|
            0 <= j < k ==> !(#[trigger] folders[j]).has_model) ==> (out matches Ok(
            Discovered::Exact { folder },
        ) && folder == k),
        (forall|j: int| 0 <= j < folders.len() ==> !(#[trigger] folders[j]).has_model)
            && model_files(folders[k].found@).len() == 1 && (forall|j: int|
            0 <= j < k ==> model_files((#[trigger] folders[j]).found@).len() != 1) ==> (
        out matches Ok(Discovered::Only { folder, file }) && folder == k && file == model_files(
            folders[k].found@,
        )[0]),
        (forall|j: int| 0 <= j < folders.len() ==> !(#[trigger] folders[j]).has_model)
            && model_files(folders[k].found@).len() > 1 && (forall|j: int|
            0 <= j < k ==> model_files((#[trigger] folders[j]).found@).len() == 0) && (forall|
            j: int,
        |
            k < j < folders.len() ==> model_files((#[trigger] folders[j]).found@).len() != 1) ==> (
        out matches Err(NotDiscovered::Ambiguous { folder, names }) && folder == k && texts(names@)
            == names_at(folders[k].found@, model_files(folders[k].found@))),
        (forall|j: int| 0 <= j < folders.len() ==> !(#[trigger] folders[j]).has_model) && (forall|
            j: int,
        |
            0 <= j < folders.len() ==> model_files((#[trigger] folders[j]).found@).len() == 0)
            ==> out == Err::<Discovered, NotDiscovered>(NotDiscovered::Nothing),
{
    match out {
        Ok(Discovered::Exact { folder }) => {
            assert(folders[folder as int].has_model);
            if k < folder {
                assert(folders.take(folder as int)[k] == folders[k]);
            }
        },
        Ok(Discovered::Only { folder, file }) => {
            assert(model_count(folders[folder as int]) == 1);
            assert(seq![file][0] == file);
            assert(model_count(folders[k]) == model_files(folders[k].found@).len());
        },
        Err(NotDiscovered::Ambiguous { folder, names }) => {
            assert(model_count(folders[folder as int]) > 1);
            assert(model_count(folders[k]) == model_files(folders[k].found@).len());
        },
        Err(NotDiscovered::Nothing) => {
            assert(model_count(folders[k]) == 0);
        },
    }
}

/// Where several models were found, the user is told the folder and their names; where none was
/// found, every folder that was searched.
pub proof fn messages_tell_where_was_searched(
    folders: Seq<Folder>,
    folder: usize,
    names: Vec<String>,
    shown: Seq<Seq<char>>,
)
    requires
        folder < folders.len(),
        shown.len() == folders.len(),
        forall|k: int| 0 <= k < shown.len() ==> #[trigger] shown[k] == folders[k].shown@,
    ensures
        discovery_message(folders, NotDiscovered::Ambiguous { folder, names })
            == "Multiple .onnx models in "@ + folders[folder as int].shown@ + ":\n  "@ + joined(
            texts(names@),
            "\n  "@,
        ) + "\nPick one with --model <file>."@,
        discovery_message(folders, NotDiscovered::Nothing) == "No ONNX model found in:\n  "@
            + joined(shown, "\n  "@)
            + "\nExport one with:  yolo export model=model.pt format=onnx\nthen place `model.onnx` next to the images or the executable (or pass --model <file>)."@,
{
    assert(shown_paths(folders) =~= shown);
}

proof fn lemma_onnx_behind_slash(owner: Seq<char>, name: Seq<char>)
    ensures
        ends_with(ascii_lowered(owner + seq!['/'] + name), ".onnx"@) == is_onnx_name(name),
{
    let s = owner + seq!['/'] + name;
    let lowered = ascii_lowered(s);
    reveal_strlit(".onnx");
    assert(s[owner.len() as int] == '/');
    assert(lowered[owner.len() as int] == '/');
    if name.len() >= 5 {
        let end = name.skip(name.len() - 5);
        assert(s.skip(s.len() - 5) =~= end);
        lemma_spelling(end, ".onnx"@);
        assert(lowered.skip(s.len() - 5) =~= ascii_lowered(end));
    } else if s.len() >= 5 {
        let at = owner.len() - (s.len() - 5);
        assert(lowered.skip(s.len() - 5)[at] == '/');
    }
}

/// A repository is named by its owner and its name, with a slash between them. An owner has
/// letters, digits and hyphens; a name may have underscores and dots besides, but is not a single
/// dot or two, nor does it end in `.onnx`. Nothing without a slash names one, and no name has a
/// second slash.
pub proof fn repositories_are_an_owner_and_a_name(
    owner: Seq<char>,
    name: Seq<char>,
    plain: Seq<char>,
)
    requires
        !owner.contains('/'),
        !plain.contains('/'),
    ensures
        is_slug(owner + seq!['/'] + name) == {
            &&& owner.len() > 0
            &&& name.len() > 0
            &&& forall|j: int|
                0 <= j < owner.len() ==> {
                    let c = #[trigger] owner[j] as int;
                    48 <= c <= 57 || 65 <= c <= 90 || 97 <= c <= 122 || c == 45
                }
            &&& forall|j: int|
                0 <= j < name.len() ==> {
                    let c = #[trigger] name[j] as int;
                    48 <= c <= 57 || 65 <= c <= 90 || 97 <= c <= 122 || c == 45 || c == 46 || c
                        == 95
                }
            &&& name != seq!['.']
            &&& name != seq!['.', '.']
            &&& !is_onnx_name(name)
        },
        !is_slug(plain),
{
    let s = owner + seq!['/'] + name;
    let at = owner.len() as int;
    lemma_onnx_behind_slash(owner, name);
    assert(s[at] == '/');
    assert(s.skip(at + 1) =~= name);
    assert(forall|j: int| 0 <= j < owner.len() ==> #[trigger] s[j] == owner[j]);
    assert(forall|j: int| 0 <= j < name.len() ==> s[at + 1 + j] == #[trigger] name[j]);
    assert forall|slash: int| is_slug_at(s, slash) implies slash == at by {
        if slash < at {
            assert(owner.contains(owner[slash]));
        } else if slash > at {
            assert(is_owner_char(s[at]));
        }
    }
    if is_slug_at(s, at) {
        assert forall|j: int| 0 <= j < owner.len() implies is_owner_char(#[trigger] owner[j]) by {
            assert(is_owner_char(s[j]));
        }
        assert forall|j: int| 0 <= j < name.len() implies is_repository_char(
            #[trigger] name[j],
        ) by {
            assert(is_repository_char(s[at + 1 + j]));
        }
    } else if owner.len() > 0 && name.len() > 0 && !names_no_file(name) {
        if forall|j: int| 0 <= j < owner.len() ==> is_owner_char(#[trigger] owner[j]) {
            let j = choose|j: int| at < j < s.len() && !is_repository_char(#[trigger] s[j]);
            assert(!is_repository_char(name[j - at - 1]));
        }
    }
    assert(name == seq!['.'] || name == seq!['.', '.'] || name.len() == 0 <==> names_no_file(name)) by {
        assert(name.len() == 1 && name[0] == '.' ==> name =~= seq!['.']);
        assert(name.len() == 2 && name[0] == '.' && name[1] == '.' ==> name =~= seq!['.', '.']);
    }
    assert forall|slash: int| !is_slug_at(plain, slash) by {
        if is_slug_at(plain, slash) {
            assert(plain.contains(plain[slash]));
        }
    }
}

/// A model that is not named is searched for. One that is named is a file where there is such a
/// file, whatever its name; else a repository if it names one, and missing otherwise.
pub proof fn files_come_before_repositories(s: Seq<char>, is_file: bool)
    ensures
        model_source(None, is_file) == ModelSource::Search,
        model_source(Some(s), true) == ModelSource::File,
        is_slug(s) ==> model_source(Some(s), false) == ModelSource::Repository,
        !is_slug(s) ==> model_source(Some(s), false) == ModelSource::Missing,
{
}

} // verus!
