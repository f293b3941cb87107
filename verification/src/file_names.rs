//! File names: which are images, and which name a file gets in a folder.
use vstd::prelude::*;

use crate::text::{chars_of, is_text, lower_ascii, push_decimal, string_of};
#[allow(unused_imports)]
use crate::text::{
    ascii_lowered, decimal, decimal_is_injective, decimal_spells_its_number, lemma_spelling, spells,
    texts,
};

verus! {

/// The position of the last dot.
pub open spec fn last_dot(name: Seq<char>) -> Option<int>
    decreases name.len(),
{
    if name.len() == 0 {
        None
    } else if name.last() == '.' {
        Some(name.len() - 1)
    } else {
        last_dot(name.drop_last())
    }
}

/// Whether `name` is nothing, one dot or two dots, none of which names a file.
pub open spec fn names_no_file(name: Seq<char>) -> bool {
    ||| name.len() == 0
    ||| name.len() == 1 && name[0] == '.'
    ||| name.len() == 2 && name[0] == '.' && name[1] == '.'
}

/// Where the extension is split off: the last dot, unless the name starts with it.
pub open spec fn extension_dot(name: Seq<char>) -> Option<int> {
    if names_no_file(name) {
        None
    } else {
        match last_dot(name) {
            Some(i) => if i > 0 {
                Some(i)
            } else {
                None
            },
            None => None,
        }
    }
}

/// The part of a file name behind the last dot.
pub open spec fn extension_of(name: Seq<char>) -> Option<Seq<char>> {
    match extension_dot(name) {
        Some(i) => Some(name.skip(i + 1)),
        None => None,
    }
}

/// The part of a file name before the extension and its dot.
pub open spec fn stem_of(name: Seq<char>) -> Seq<char> {
    if names_no_file(name) {
        Seq::empty()
    } else {
        match extension_dot(name) {
            Some(i) => name.take(i),
            None => name,
        }
    }
}

/// The extensions of image files.
pub open spec fn image_extensions() -> Seq<Seq<char>> {
    seq!["jpg"@, "jpeg"@, "png"@, "bmp"@, "tiff"@, "tif"@, "webp"@]
}

/// Whether a file of this name is taken for an image. Upper and lower case are the same. Lowering
/// the ASCII letters is enough: a letter outside ASCII never lowers to a letter of these.
pub open spec fn is_image_name(name: Seq<char>) -> bool {
    match extension_of(name) {
        Some(extension) => image_extensions().contains(ascii_lowered(extension)),
        None => false,
    }
}

/// The name to try after `n` names have been found taken: the file name itself, and then with
/// ` (1)`, ` (2)` and so on before the extension.
pub open spec fn candidate_name(filename: Seq<char>, n: nat) -> Seq<char> {
    if n == 0 {
        filename
    } else {
        numbered_name(filename, n)
    }
}

pub open spec fn numbered_name(filename: Seq<char>, n: nat) -> Seq<char> {
    stem_of(filename) + " ("@ + decimal(n) + ")"@ + extension_suffix(filename)
}

/// The extension with its dot, or nothing.
pub open spec fn extension_suffix(filename: Seq<char>) -> Seq<char> {
    match extension_of(filename) {
        Some(extension) => "."@ + extension,
        None => Seq::empty(),
    }
}

proof fn lemma_last_dot(name: Seq<char>, i: int)
    requires
        0 <= i <= name.len(),
        forall|j: int| i <= j < name.len() ==> #[trigger] name[j] != '.',
    ensures
        last_dot(name) == last_dot(name.take(i)),
    decreases name.len(),
{
    if i < name.len() {
        assert(name.last() == name[name.len() - 1]);
        assert(name.drop_last().take(i) =~= name.take(i));
        lemma_last_dot(name.drop_last(), i);
    } else {
        assert(name.take(i) =~= name);
    }
}

/// Finds the dot of the extension.
pub(crate) fn find_extension_dot(name: &Vec<char>) -> (out: Option<usize>)
    ensures
        match out {
            Some(i) => extension_dot(name@) == Some(i as int) && i < name@.len(),
            None => extension_dot(name@) is None,
        },
{
    let n: usize = name.len();
    if n == 0 || (n == 1 && name[0] == '.') || (n == 2 && name[0] == '.' && name[1] == '.') {
        return None;
    }
    let mut i: usize = n;
    while i > 0
        invariant
            i <= n,
            n == name@.len(),
            !names_no_file(name@),
            forall|j: int| i <= j < n ==> #[trigger] name@[j] != '.',
        decreases i,
    {
        proof {
            lemma_last_dot(name@, i as int);
            assert(name@.take(i as int).last() == name@[i - 1]);
        }
        if name[i - 1] == '.' {
            return if i > 1 {
                Some(i - 1)
            } else {
                None
            };
        }
        i = i - 1;
    }
    proof {
        lemma_last_dot(name@, 0);
        assert(name@.take(0) =~= Seq::empty());
    }
    None
}

/// Tells whether a file of this name is taken for an image.
pub fn is_image(name: &str) -> (out: bool)
    ensures
        out == is_image_name(name@),
{
    let chars: Vec<char> = chars_of(name);
    let len: usize = chars.len();
    match find_extension_dot(&chars) {
        Some(dot) => {
            let extension: Vec<char> = lower_ascii(&chars, dot + 1, len);
            let ghost all = image_extensions();
            proof {
                assert(chars@.subrange(dot + 1, chars@.len() as int) =~= chars@.skip(dot + 1));
                assert(all.contains(extension@) <==> exists|k: int|
                    0 <= k < 7 && #[trigger] all[k] == extension@);
                assert(all[0] == "jpg"@);
                assert(all[1] == "jpeg"@);
                assert(all[2] == "png"@);
                assert(all[3] == "bmp"@);
                assert(all[4] == "tiff"@);
                assert(all[5] == "tif"@);
                assert(all[6] == "webp"@);
            }
            is_text(&extension, "jpg") || is_text(&extension, "jpeg") || is_text(&extension, "png")
                || is_text(&extension, "bmp") || is_text(&extension, "tiff") || is_text(
                &extension,
                "tif",
            ) || is_text(&extension, "webp")
        },
        None => false,
    }
}

/// Writes the name to try after `n` names have been found taken.
pub fn candidate(filename: &str, n: u64) -> (out: String)
    ensures
        out@ == candidate_name(filename@, n as nat),
{
    if n == 0 {
        return filename.to_owned();
    }
    let chars: Vec<char> = chars_of(filename);
    let len: usize = chars.len();
    let dot: Option<usize> = find_extension_dot(&chars);
    let nothing: bool = len == 0 || (len == 1 && chars[0] == '.') || (len == 2 && chars[0] == '.'
        && chars[1] == '.');
    let stem_end: usize = match dot {
        Some(i) => i,
        None => if nothing {
            0
        } else {
            len
        },
    };
    let mut out: String = string_of(&chars, 0, stem_end);
    assert(out@ =~= stem_of(filename@));
    out.append(" (");
    push_decimal(&mut out, n);
    out.append(")");
    match dot {
        Some(i) => {
            out.append(".");
            let extension: String = string_of(&chars, i + 1, len);
            assert(extension@ =~= filename@.skip(i + 1));
            out.append(extension.as_str());
            assert(out@ =~= numbered_name(filename@, n as nat));
        },
        None => {
            assert(out@ =~= numbered_name(filename@, n as nat));
        },
    }
    out
}

proof fn lemma_candidate_length(filename: Seq<char>, n: nat)
    requires
        n > 0,
    ensures
        numbered_name(filename, n).len() == stem_of(filename).len() + decimal(n).len() + 3
            + extension_suffix(filename).len(),
        numbered_name(filename, n).len() > filename.len(),
{
    reveal_strlit(" (");
    reveal_strlit(")");
    reveal_strlit(".");
    decimal_spells_its_number(n);
    lemma_last_dot_in_range(filename);
}

proof fn lemma_last_dot_in_range(name: Seq<char>)
    ensures
        match last_dot(name) {
            Some(i) => 0 <= i < name.len(),
            None => true,
        },
    decreases name.len(),
{
    if name.len() > 0 {
        lemma_last_dot_in_range(name.drop_last());
    }
}

/// No name is tried twice.
pub proof fn candidates_differ(filename: Seq<char>, m: nat, n: nat)
    requires
        m != n,
    ensures
        candidate_name(filename, m) != candidate_name(filename, n),
{
    if m == 0 {
        lemma_candidate_length(filename, n);
    } else if n == 0 {
        lemma_candidate_length(filename, m);
    } else {
        lemma_candidate_length(filename, m);
        lemma_candidate_length(filename, n);
        if candidate_name(filename, m) == candidate_name(filename, n) {
            reveal_strlit(" (");
            reveal_strlit(")");
            let a = numbered_name(filename, m);
            let b = numbered_name(filename, n);
            let start = stem_of(filename).len() + 2;
            assert(decimal(m).len() == decimal(n).len());
            assert(a.subrange(start as int, (start + decimal(m).len()) as int) =~= decimal(m));
            assert(b.subrange(start as int, (start + decimal(n).len()) as int) =~= decimal(n));
            decimal_is_injective(m, n);
        }
    }
}

/// However many names are taken, one of the first candidates is free: at most one candidate is
/// tried more than there are taken names.
pub proof fn a_free_name_is_found(filename: Seq<char>, taken: Set<Seq<char>>)
    requires
        taken.finite(),
    ensures
        exists|n: nat| n <= taken.len() && !taken.contains(#[trigger] candidate_name(filename, n)),
{
    if forall|n: nat| n <= taken.len() ==> taken.contains(#[trigger] candidate_name(filename, n)) {
        let tried = Seq::new(taken.len() + 1, |i: int| candidate_name(filename, i as nat));
        assert(tried.no_duplicates()) by {
            assert forall|i: int, j: int|
                0 <= i < tried.len() && 0 <= j < tried.len() && i != j implies tried[i]
                != tried[j] by {
                candidates_differ(filename, i as nat, j as nat);
            }
        }
        tried.unique_seq_to_set();
        assert(tried.to_set().subset_of(taken)) by {
            assert forall|name: Seq<char>| tried.to_set().contains(name) implies taken.contains(
                name,
            ) by {
                let i = choose|i: int| 0 <= i < tried.len() && tried[i] == name;
                assert(taken.contains(candidate_name(filename, i as nat)));
            }
        }
        vstd::set_lib::lemma_len_subset(tried.to_set(), taken);
        assert(false);
    }
}

/// Whether `name` is the first candidate for `filename` that is not among `taken`.
pub open spec fn is_first_free(
    name: Seq<char>,
    filename: Seq<char>,
    taken: Seq<Seq<char>>,
) -> bool {
    &&& !taken.contains(name)
    &&& exists|n: nat|
        {
            &&& n <= taken.len()
            &&& name == #[trigger] candidate_name(filename, n)
            &&& forall|m: nat| m < n ==> taken.contains(#[trigger] candidate_name(filename, m))
        }
}

/// There is one first free candidate.
pub proof fn first_free_is_unique(
    a: Seq<char>,
    b: Seq<char>,
    filename: Seq<char>,
    taken: Seq<Seq<char>>,
)
    requires
        is_first_free(a, filename, taken),
        is_first_free(b, filename, taken),
    ensures
        a == b,
{
    let m = choose|n: nat|
        {
            &&& n <= taken.len()
            &&& a == #[trigger] candidate_name(filename, n)
            &&& forall|m: nat| m < n ==> taken.contains(#[trigger] candidate_name(filename, m))
        };
    let n = choose|n: nat|
        {
            &&& n <= taken.len()
            &&& b == #[trigger] candidate_name(filename, n)
            &&& forall|m: nat| m < n ==> taken.contains(#[trigger] candidate_name(filename, m))
        };
    if m < n {
        assert(taken.contains(candidate_name(filename, m)));
    } else if n < m {
        assert(taken.contains(candidate_name(filename, n)));
    }
}

fn is_listed(name: &String, list: &Vec<String>) -> (out: bool)
    ensures
        out == texts(list@).contains(name@),
{
    let mut i: usize = 0;
    while i < list.len()
        invariant
            i <= list@.len(),
            forall|j: int| 0 <= j < i ==> (#[trigger] list@[j])@ != name@,
        decreases list@.len() - i,
    {
        if list[i] == *name {
            assert(texts(list@)[i as int] == name@);
            return true;
        }
        i = i + 1;
    }
    proof {
        if texts(list@).contains(name@) {
            let j = choose|j: int| 0 <= j < list@.len() && texts(list@)[j] == name@;
            assert(list@[j]@ == name@);
        }
    }
    false
}

/// Finds a name for a file in a folder where the names `taken` exist: the first candidate that
/// is not one of them.
pub fn unique_path(filename: &str, taken: &Vec<String>) -> (out: String)
    ensures
        is_first_free(out@, filename@, texts(taken@)),
{
    let ghost names = texts(taken@);
    let mut n: u64 = 0;
    loop
        invariant
            names == texts(taken@),
            n <= taken@.len(),
            forall|m: nat| m < n ==> names.contains(#[trigger] candidate_name(filename@, m)),
        decreases taken@.len() - n,
    {
        let name: String = candidate(filename, n);
        if !is_listed(&name, taken) {
            return name;
        }
        proof {
            assert(taken.len() <= usize::MAX);
            names.lemma_cardinality_of_set();
            a_free_name_is_found(filename@, names.to_set());
            let free = choose|k: nat|
                k <= names.to_set().len() && !names.to_set().contains(
                    #[trigger] candidate_name(filename@, k),
                );
            assert(!names.contains(candidate_name(filename@, free)));
            assert(n < free);
        }
        n = n + 1;
    }
}

/// A step of putting a file into a folder.
#[derive(Clone, Copy, Debug, PartialEq, Eq, Structural)]
pub enum PlaceStep {
    /// Copy the file and leave the old one where it is.
    Copy,
    /// Rename the file.
    Rename,
    /// Copy the file because it could not be renamed.
    CopyAcross,
    /// Remove the old file.
    RemoveSource,
    Done,
    Failed,
}

/// The first step: a copy if one is asked for, else a rename.
pub open spec fn first_step(copy: bool) -> PlaceStep {
    if copy {
        PlaceStep::Copy
    } else {
        PlaceStep::Rename
    }
}

/// The step after `step`, which succeeded or not.
pub open spec fn next_step(step: PlaceStep, succeeded: bool) -> PlaceStep {
    match step {
        PlaceStep::Copy => if succeeded {
            PlaceStep::Done
        } else {
            PlaceStep::Failed
        },
        PlaceStep::Rename => if succeeded {
            PlaceStep::Done
        } else {
            PlaceStep::CopyAcross
        },
        PlaceStep::CopyAcross => if succeeded {
            PlaceStep::RemoveSource
        } else {
            PlaceStep::Failed
        },
        PlaceStep::RemoveSource => if succeeded {
            PlaceStep::Done
        } else {
            PlaceStep::Failed
        },
        PlaceStep::Done => PlaceStep::Done,
        PlaceStep::Failed => PlaceStep::Failed,
    }
}

/// Chooses the first step of putting a file into a folder.
pub fn place_file(copy: bool) -> (out: PlaceStep)
    ensures
        out == first_step(copy),
{
    if copy {
        PlaceStep::Copy
    } else {
        PlaceStep::Rename
    }
}

/// Chooses the step after one that succeeded or not.
pub fn place_next(step: PlaceStep, succeeded: bool) -> (out: PlaceStep)
    ensures
        out == next_step(step, succeeded),
{
    match (step, succeeded) {
        (PlaceStep::Copy, true) => PlaceStep::Done,
        (PlaceStep::Copy, false) => PlaceStep::Failed,
        (PlaceStep::Rename, true) => PlaceStep::Done,
        (PlaceStep::Rename, false) => PlaceStep::CopyAcross,
        (PlaceStep::CopyAcross, true) => PlaceStep::RemoveSource,
        (PlaceStep::CopyAcross, false) => PlaceStep::Failed,
        (PlaceStep::RemoveSource, true) => PlaceStep::Done,
        (PlaceStep::RemoveSource, false) => PlaceStep::Failed,
        (PlaceStep::Done, _) => PlaceStep::Done,
        (PlaceStep::Failed, _) => PlaceStep::Failed,
    }
}

/// The old file is removed only after a copy of it has succeeded, and never when a copy was
/// asked for: then the copy is the only step.
pub proof fn removal_follows_a_copy(step: PlaceStep, succeeded: bool)
    ensures
        next_step(step, succeeded) == PlaceStep::RemoveSource ==> step == PlaceStep::CopyAcross
            && succeeded,
        first_step(true) == PlaceStep::Copy,
        next_step(PlaceStep::Copy, succeeded) == (if succeeded {
            PlaceStep::Done
        } else {
            PlaceStep::Failed
        }),
{
}

proof fn lemma_split_at_dot(stem: Seq<char>, extension: Seq<char>)
    requires
        stem.len() > 0,
        !extension.contains('.'),
        stem != seq!['.'] || extension.len() > 0,
    ensures
        extension_of(stem + seq!['.'] + extension) == Some(extension),
        stem_of(stem + seq!['.'] + extension) == stem,
        !names_no_file(stem + seq!['.'] + extension),
{
    let name = stem + seq!['.'] + extension;
    let dot = stem.len() as int;
    assert forall|j: int| dot + 1 <= j < name.len() implies #[trigger] name[j] != '.' by {
        assert(name[j] == extension[j - dot - 1]);
        assert(extension.contains(extension[j - dot - 1]));
    }
    lemma_last_dot(name, dot + 1);
    assert(name.take(dot + 1).last() == '.');
    assert(name.skip(dot + 1) =~= extension);
    assert(name.take(dot) =~= stem);
    if names_no_file(name) {
        assert(name[0] == stem[0]);
        assert(stem =~= seq!['.']);
    }
}

proof fn lemma_no_dot(name: Seq<char>)
    requires
        forall|j: int| 0 < j < name.len() ==> #[trigger] name[j] != '.',
        name != seq!['.'],
    ensures
        extension_of(name) is None,
        stem_of(name) == name,
{
    if name.len() > 0 {
        lemma_last_dot(name, 1);
        let first = name.take(1);
        assert(first.drop_last() =~= Seq::empty());
        assert(last_dot(first.drop_last()) is None);
        assert(name.len() == 1 ==> name =~= seq![name[0]]);
    } else {
        assert(name =~= Seq::empty());
    }
}

/// The extension of a file is what stands behind its last dot, unless the name starts with that
/// dot or has none; the stem is what stands before that dot.
pub proof fn names_split_at_the_last_dot(stem: Seq<char>, extension: Seq<char>, plain: Seq<char>)
    requires
        stem.len() > 0,
        !extension.contains('.'),
        stem != seq!['.'] || extension.len() > 0,
        !plain.contains('.'),
    ensures
        extension_of(stem + seq!['.'] + extension) == Some(extension),
        stem_of(stem + seq!['.'] + extension) == stem,
        extension_of(plain) is None,
        stem_of(plain) == plain,
        plain.len() > 0 ==> extension_of(seq!['.'] + plain) is None && stem_of(seq!['.'] + plain)
            == seq!['.'] + plain,
{
    lemma_split_at_dot(stem, extension);
    assert forall|j: int| 0 <= j < plain.len() implies #[trigger] plain[j] != '.' by {
        assert(plain.contains(plain[j]));
    }
    assert(plain == seq!['.'] ==> plain[0] == '.');
    lemma_no_dot(plain);
    let hidden = seq!['.'] + plain;
    assert forall|j: int| 0 < j < hidden.len() implies #[trigger] hidden[j] != '.' by {
        assert(hidden[j] == plain[j - 1]);
    }
    if plain.len() > 0 {
        assert(hidden.len() > 1);
        lemma_no_dot(hidden);
    }
}

/// A file is an image just where its extension is one of seven, in upper or lower case. A file
/// without an extension is none.
pub proof fn images_are_known_by_their_extension(
    stem: Seq<char>,
    extension: Seq<char>,
    plain: Seq<char>,
)
    requires
        stem.len() > 0,
        !extension.contains('.'),
        !plain.contains('.'),
    ensures
        is_image_name(stem + seq!['.'] + extension) == {
            ||| spells(extension, "jpg"@)
            ||| spells(extension, "jpeg"@)
            ||| spells(extension, "png"@)
            ||| spells(extension, "bmp"@)
            ||| spells(extension, "tiff"@)
            ||| spells(extension, "tif"@)
            ||| spells(extension, "webp"@)
        },
        !is_image_name(plain),
        !is_image_name(seq!['.'] + plain),
{
    reveal_strlit("jpg");
    reveal_strlit("jpeg");
    reveal_strlit("png");
    reveal_strlit("bmp");
    reveal_strlit("tiff");
    reveal_strlit("tif");
    reveal_strlit("webp");
    lemma_spelling(extension, "jpg"@);
    lemma_spelling(extension, "jpeg"@);
    lemma_spelling(extension, "png"@);
    lemma_spelling(extension, "bmp"@);
    lemma_spelling(extension, "tiff"@);
    lemma_spelling(extension, "tif"@);
    lemma_spelling(extension, "webp"@);
    let all = image_extensions();
    let lowered = ascii_lowered(extension);
    assert(all.len() == 7 && all[0] == "jpg"@ && all[1] == "jpeg"@ && all[2] == "png"@ && all[3]
        == "bmp"@ && all[4] == "tiff"@ && all[5] == "tif"@ && all[6] == "webp"@);
    if all.contains(lowered) {
        let k = choose|k: int| 0 <= k < all.len() && all[k] == lowered;
        assert(k == 0 || k == 1 || k == 2 || k == 3 || k == 4 || k == 5 || k == 6);
    }
    if stem == seq!['.'] && extension.len() == 0 {
        let name = stem + seq!['.'] + extension;
        assert(name[0] == '.' && name[1] == '.' && name.len() == 2);
    } else {
        lemma_split_at_dot(stem, extension);
    }
    if plain.len() > 0 {
        assert(seq!['a'][0] != seq!['.'][0]);
        names_split_at_the_last_dot(seq!['a'], Seq::empty(), plain);
    }
    assert(seq!['.'] + Seq::<char>::empty() =~= seq!['.']);
}

proof fn lemma_lowered_dots(s: Seq<char>)
    ensures
        last_dot(ascii_lowered(s)) == last_dot(s),
    decreases s.len(),
{
    if s.len() > 0 {
        assert(ascii_lowered(s).drop_last() =~= ascii_lowered(s.drop_last()));
        lemma_lowered_dots(s.drop_last());
    }
}

/// Whether a file is an image does not depend on the case of its name.
pub proof fn case_of_a_name_does_not_matter(s: Seq<char>)
    ensures
        is_image_name(ascii_lowered(s)) == is_image_name(s),
{
    lemma_lowered_dots(s);
    lemma_last_dot_in_range(s);
    let t = ascii_lowered(s);
    assert(names_no_file(t) == names_no_file(s));
    if let Some(i) = extension_dot(s) {
        assert(t.skip(i + 1) =~= ascii_lowered(s.skip(i + 1)));
        assert(ascii_lowered(ascii_lowered(s.skip(i + 1))) =~= ascii_lowered(s.skip(i + 1)));
    }
}

/// The number of a candidate stands behind the stem and before the extension, or at the end where
/// there is no extension.
pub proof fn numbers_stand_before_the_extension(
    stem: Seq<char>,
    extension: Seq<char>,
    plain: Seq<char>,
    n: nat,
)
    requires
        n > 0,
        stem.len() > 0,
        !extension.contains('.'),
        stem != seq!['.'] || extension.len() > 0,
        !plain.contains('.'),
    ensures
        candidate_name(stem + seq!['.'] + extension, n) == stem + seq![' ', '('] + decimal(n)
            + seq![')', '.'] + extension,
        candidate_name(plain, n) == plain + seq![' ', '('] + decimal(n) + seq![')'],
        candidate_name(plain, 0) == plain,
        candidate_name(stem + seq!['.'] + extension, 0) == stem + seq!['.'] + extension,
        plain.len() > 0 ==> candidate_name(seq!['.'] + plain, n) == seq!['.'] + plain + seq![
            ' ',
            '(',
        ] + decimal(n) + seq![')'],
{
    reveal_strlit(" (");
    reveal_strlit(")");
    reveal_strlit(".");
    names_split_at_the_last_dot(stem, extension, plain);
    assert(candidate_name(stem + seq!['.'] + extension, n) =~= stem + seq![' ', '('] + decimal(n)
        + seq![')', '.'] + extension);
    assert(candidate_name(plain, n) =~= plain + seq![' ', '('] + decimal(n) + seq![')']);
    if plain.len() > 0 {
        assert(candidate_name(seq!['.'] + plain, n) =~= seq!['.'] + plain + seq![' ', '(']
            + decimal(n) + seq![')']);
    }
}

proof fn lemma_no_dot_in_decimal(n: nat)
    ensures
        !decimal(n).contains('.'),
{
    decimal_spells_its_number(n);
    if decimal(n).contains('.') {
        let k = choose|k: int| 0 <= k < decimal(n).len() && decimal(n)[k] == '.';
        assert(crate::text::is_digit(decimal(n)[k]));
    }
}

/// A file that is given another name keeps its extension, and so stays the image that it was.
pub proof fn candidates_keep_the_extension(filename: Seq<char>, n: nat)
    ensures
        extension_of(candidate_name(filename, n)) == extension_of(filename),
        is_image_name(candidate_name(filename, n)) == is_image_name(filename),
{
    if n > 0 {
        reveal_strlit(" (");
        reveal_strlit(")");
        reveal_strlit(".");
        lemma_no_dot_in_decimal(n);
        lemma_last_dot_in_range(filename);
        let name = candidate_name(filename, n);
        let number = seq![' ', '('] + decimal(n) + seq![')'];
        assert forall|j: int| 0 <= j < number.len() implies #[trigger] number[j] != '.' by {
            if 2 <= j < number.len() - 1 {
                assert(decimal(n).contains(decimal(n)[j - 2]));
                assert(number[j] == decimal(n)[j - 2]);
            }
        }
        match extension_dot(filename) {
            Some(i) => {
                let extension = filename.skip(i + 1);
                lemma_nothing_behind_last_dot(filename);
                assert(!extension.contains('.')) by {
                    if extension.contains('.') {
                        let k = choose|k: int| 0 <= k < extension.len() && extension[k] == '.';
                        assert(filename[i + 1 + k] == '.');
                    }
                }
                assert(name =~= (filename.take(i) + number) + seq!['.'] + extension);
                lemma_split_at_dot(filename.take(i) + number, extension);
            },
            None => {
                let stem = stem_of(filename);
                assert(name =~= stem + number);
                lemma_nothing_behind_last_dot(filename);
                assert forall|j: int| 0 < j < name.len() implies #[trigger] name[j] != '.' by {
                    if j < stem.len() {
                        assert(name[j] == filename[j]);
                    } else {
                        assert(name[j] == number[j - stem.len()]);
                    }
                }
                assert(name.len() > 1);
                lemma_no_dot(name);
            },
        }
    }
}

proof fn lemma_nothing_behind_last_dot(name: Seq<char>)
    ensures
        forall|j: int|
            #![trigger name[j]]
            0 <= j < name.len() && name[j] == '.' ==> last_dot(name) is Some && j <= last_dot(
                name,
            )->0,
    decreases name.len(),
{
    if name.len() > 0 && name.last() != '.' {
        let front = name.drop_last();
        lemma_nothing_behind_last_dot(front);
        assert forall|j: int|
            #![trigger name[j]]
            0 <= j < name.len() && name[j] == '.' implies last_dot(name) is Some && j <= last_dot(
            name,
        )->0 by {
            assert(j < front.len());
            assert(front[j] == name[j]);
        }
    }
}

/// The name that a file is given is free; it is the file's own name where that is free, and else
/// the first numbered one that is.
pub proof fn given_names_are_free(name: Seq<char>, filename: Seq<char>, taken: Seq<Seq<char>>)
    requires
        is_first_free(name, filename, taken),
    ensures
        !taken.contains(name),
        !taken.contains(filename) ==> name == filename,
        exists|n: nat|
            #![trigger candidate_name(filename, n)]
            name == candidate_name(filename, n) && forall|m: nat|
                m < n ==> taken.contains(#[trigger] candidate_name(filename, m)),
{
    let n = choose|n: nat|
        {
            &&& n <= taken.len()
            &&& name == #[trigger] candidate_name(filename, n)
            &&& forall|m: nat| m < n ==> taken.contains(#[trigger] candidate_name(filename, m))
        };
    if n > 0 {
        assert(taken.contains(candidate_name(filename, 0)));
    }
}

/// A copy is placed just where copying succeeds. A move is placed just where renaming does, or
/// else copying and then removing the old file.
pub proof fn placing_takes_what_succeeds(renames: bool, copies: bool, removes: bool)
    ensures
        (next_step(first_step(true), copies) == PlaceStep::Done) == copies,
        (next_step(first_step(true), copies) == PlaceStep::Failed) == !copies,
        ({
            let second = next_step(first_step(false), renames);
            let third = next_step(second, copies);
            let fourth = next_step(third, removes);
            &&& first_step(false) == PlaceStep::Rename
            &&& !renames ==> second == PlaceStep::CopyAcross
            &&& (fourth == PlaceStep::Done) == (renames || (copies && removes))
            &&& (fourth == PlaceStep::Failed) == !(renames || (copies && removes))
        }),
{
}

} // verus!
