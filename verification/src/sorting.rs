//! One run over a folder: where each image goes, and what is counted.
use vstd::prelude::*;

use crate::metadata::ModelInfo;
use crate::scores::below;
use crate::tensor::{pixel_mode, PixelMode};
use crate::text::{join, push_decimal};
#[allow(unused_imports)]
use crate::scores::is_below;
#[allow(unused_imports)]
use crate::tensor::mode_for;
#[allow(unused_imports)]
use crate::text::{decimal, joined, texts};

verus! {

/// The folder of the images whose class is not sure enough.
pub open spec fn unsure_folder() -> Seq<char> {
    "unsure"@
}

/// The folder of an image of class `index`: `unsure` where the confidence is below the threshold,
/// else the name of the class, or a made-up name for a class that the model does not name.
pub open spec fn folder_of(
    classes: Seq<Seq<char>>,
    index: nat,
    confidence: u32,
    threshold: u32,
) -> Seq<char> {
    if is_below(confidence, threshold) {
        unsure_folder()
    } else if index < classes.len() {
        classes[index as int]
    } else {
        "class_"@ + decimal(index)
    }
}

/// Every folder that images are sorted into: one per class, and `unsure`.
pub open spec fn folders_of(classes: Seq<Seq<char>>) -> Seq<Seq<char>> {
    classes.push(unsure_folder())
}

/// Lists the folders that images are sorted into.
pub fn output_folders(class_names: &Vec<String>) -> (out: Vec<String>)
    ensures
        texts(out@) == folders_of(texts(class_names@)),
{
    let mut out: Vec<String> = Vec::new();
    let mut i: usize = 0;
    while i < class_names.len()
        invariant
            i <= class_names@.len(),
            out@.len() == i,
            forall|j: int| 0 <= j < i ==> (#[trigger] out@[j])@ == class_names@[j]@,
        decreases class_names@.len() - i,
    {
        out.push(class_names[i].clone());
        i = i + 1;
    }
    out.push("unsure".to_owned());
    assert(texts(out@) =~= folders_of(texts(class_names@)));
    out
}

/// Chooses the folder of an image.
pub fn folder_for(
    class_names: &Vec<String>,
    index: usize,
    confidence: u32,
    threshold: u32,
) -> (out: String)
    ensures
        out@ == folder_of(texts(class_names@), index as nat, confidence, threshold),
{
    if below(confidence, threshold) {
        "unsure".to_owned()
    } else if index < class_names.len() {
        class_names[index].clone()
    } else {
        let mut out: String = "class_".to_owned();
        push_decimal(&mut out, index as u64);
        out
    }
}

/// How many images have gone into each folder.
pub struct Tally {
    pub entries: Vec<(String, usize)>,
}

pub open spec fn count_in(entries: Seq<(String, usize)>, folder: Seq<char>) -> nat
    decreases entries.len(),
{
    if entries.len() == 0 {
        0
    } else if entries.last().0@ == folder {
        entries.last().1 as nat
    } else {
        count_in(entries.drop_last(), folder)
    }
}

pub open spec fn sum_of(entries: Seq<(String, usize)>) -> nat
    decreases entries.len(),
{
    if entries.len() == 0 {
        0
    } else {
        sum_of(entries.drop_last()) + entries.last().1 as nat
    }
}

proof fn lemma_no_entry(entries: Seq<(String, usize)>, folder: Seq<char>)
    requires
        forall|i: int| 0 <= i < entries.len() ==> (#[trigger] entries[i]).0@ != folder,
    ensures
        count_in(entries, folder) == 0,
    decreases entries.len(),
{
    if entries.len() > 0 {
        assert(entries.last() == entries[entries.len() - 1]);
        assert forall|i: int| 0 <= i < entries.drop_last().len() implies (
        #[trigger] entries.drop_last()[i]).0@ != folder by {
            assert(entries.drop_last()[i] == entries[i]);
        }
        lemma_no_entry(entries.drop_last(), folder);
    }
}

proof fn lemma_entry_found(entries: Seq<(String, usize)>, at: int)
    requires
        0 <= at < entries.len(),
        forall|i: int, j: int|
            0 <= i < j < entries.len() ==> (#[trigger] entries[i]).0@ != (#[trigger] entries[j]).0@,
    ensures
        count_in(entries, entries[at].0@) == entries[at].1,
        entries[at].1 <= sum_of(entries),
    decreases entries.len(),
{
    if at < entries.len() - 1 {
        assert(entries[at].0@ != entries[entries.len() - 1].0@);
        assert forall|i: int, j: int| 0 <= i < j < entries.drop_last().len() implies (
        #[trigger] entries.drop_last()[i]).0@ != (#[trigger] entries.drop_last()[j]).0@ by {
            assert(entries[i].0@ != entries[j].0@);
        }
        lemma_entry_found(entries.drop_last(), at);
    }
}

proof fn lemma_entry_changed(
    entries: Seq<(String, usize)>,
    at: int,
    entry: (String, usize),
    folder: Seq<char>,
)
    requires
        0 <= at < entries.len(),
        entry.0@ == entries[at].0@,
        forall|i: int, j: int|
            0 <= i < j < entries.len() ==> (#[trigger] entries[i]).0@ != (#[trigger] entries[j]).0@,
    ensures
        sum_of(entries.update(at, entry)) == sum_of(entries) - entries[at].1 + entry.1,
        count_in(entries.update(at, entry), folder) == (if folder == entry.0@ {
            entry.1 as nat
        } else {
            count_in(entries, folder)
        }),
    decreases entries.len(),
{
    let changed = entries.update(at, entry);
    if at == entries.len() - 1 {
        assert(changed.drop_last() =~= entries.drop_last());
    } else {
        assert(changed.drop_last() =~= entries.drop_last().update(at, entry));
        assert(changed.last() == entries.last());
        assert(entries[at].0@ != entries[entries.len() - 1].0@);
        assert forall|i: int, j: int| 0 <= i < j < entries.drop_last().len() implies (
        #[trigger] entries.drop_last()[i]).0@ != (#[trigger] entries.drop_last()[j]).0@ by {
            assert(entries[i].0@ != entries[j].0@);
        }
        lemma_entry_changed(entries.drop_last(), at, entry, folder);
    }
}

impl Tally {
    /// The number of images in `folder`.
    pub open spec fn count(&self, folder: Seq<char>) -> nat {
        count_in(self.entries@, folder)
    }

    /// The number of images in all folders.
    pub open spec fn total(&self) -> nat {
        sum_of(self.entries@)
    }

    /// No folder is listed twice.
    pub open spec fn is_well_formed(&self) -> bool {
        forall|i: int, j: int|
            0 <= i < j < self.entries@.len() ==> (#[trigger] self.entries@[i]).0@ != (
            #[trigger] self.entries@[j]).0@
    }

    /// A tally of nothing.
    pub fn new() -> (out: Tally)
        ensures
            out.is_well_formed(),
            out.total() == 0,
            forall|folder: Seq<char>| #[trigger] out.count(folder) == 0,
    {
        Tally { entries: Vec::new() }
    }

    /// The number of images in `folder`.
    pub fn get(&self, folder: &str) -> (out: usize)
        requires
            self.is_well_formed(),
        ensures
            out == self.count(folder@),
    {
        match self.find(folder) {
            Some(at) => {
                proof {
                    lemma_entry_found(self.entries@, at as int);
                }
                self.entries[at].1
            },
            None => {
                proof {
                    lemma_no_entry(self.entries@, folder@);
                }
                0
            },
        }
    }

    fn find(&self, folder: &str) -> (out: Option<usize>)
        ensures
            match out {
                Some(at) => at < self.entries@.len() && self.entries@[at as int].0@ == folder@,
                None => forall|i: int|
                    0 <= i < self.entries@.len() ==> (#[trigger] self.entries@[i]).0@ != folder@,
            },
    {
        let wanted: String = folder.to_owned();
        let mut i: usize = 0;
        while i < self.entries.len()
            invariant
                i <= self.entries@.len(),
                wanted@ == folder@,
                forall|j: int| 0 <= j < i ==> (#[trigger] self.entries@[j]).0@ != folder@,
            decreases self.entries@.len() - i,
        {
            if self.entries[i].0 == wanted {
                return Some(i);
            }
            i = i + 1;
        }
        None
    }

    /// Counts one more image in `folder`.
    pub fn record(&mut self, folder: &str)
        requires
            old(self).is_well_formed(),
            old(self).total() < usize::MAX,
        ensures
            final(self).is_well_formed(),
            final(self).total() == old(self).total() + 1,
            forall|other: Seq<char>| #[trigger]
                final(self).count(other) == old(self).count(other) + (if other == folder@ {
                    1nat
                } else {
                    0nat
                }),
    {
        match self.find(folder) {
            Some(at) => {
                let ghost before = self.entries@;
                proof {
                    lemma_entry_found(before, at as int);
                }
                let entry: (String, usize) = (
                    self.entries[at].0.clone(),
                    self.entries[at].1 + 1,
                );
                proof {
                    lemma_entry_changed(before, at as int, entry, folder@);
                    assert forall|other: Seq<char>| #[trigger]
                        count_in(before.update(at as int, entry), other) == count_in(before, other)
                            + (if other == folder@ {
                            1nat
                        } else {
                            0nat
                        }) by {
                        lemma_entry_changed(before, at as int, entry, other);
                    }
                }
                self.entries.set(at, entry);
                proof {
                    assert forall|i: int, j: int| 0 <= i < j < self.entries@.len() implies (
                    #[trigger] self.entries@[i]).0@ != (#[trigger] self.entries@[j]).0@ by {
                        assert(before[i].0@ != before[j].0@);
                    }
                }
            },
            None => {
                let ghost before = self.entries@;
                let entry: (String, usize) = (folder.to_owned(), 1);
                self.entries.push(entry);
                proof {
                    lemma_no_entry(before, folder@);
                    assert(self.entries@.drop_last() =~= before);
                }
            },
        }
    }
}

/// What the next step of a run is.
#[derive(Clone, Copy, Debug, PartialEq, Eq, Structural)]
pub enum Stage {
    /// Classify the next image.
    Classify,
    /// Make the folder of the current image.
    MakeFolder,
    /// Put the current image into its folder.
    Place,
}

/// A run over the images of a folder.
pub struct SortRun {
    pub class_names: Vec<String>,
    pub threshold: u32,
    pub dry_run: bool,
    pub stage: Stage,
    /// The folder of the image that was classified last.
    pub folder: String,
    pub tally: Tally,
    /// How many images could not be classified or placed.
    pub errors: usize,
    /// How many images are done with.
    pub finished: usize,
}

impl SortRun {
    /// Each image that is done with is counted once: in one folder or as an error. A dry run
    /// never gets to the steps that change files.
    pub open spec fn is_well_formed(&self) -> bool {
        &&& self.tally.is_well_formed()
        &&& self.tally.total() + self.errors == self.finished
        &&& self.dry_run ==> self.stage == Stage::Classify
    }

    /// The model, the threshold and the kind of run.
    pub open spec fn has_settings_of(&self, other: &SortRun) -> bool {
        &&& self.class_names == other.class_names
        &&& self.threshold == other.threshold
        &&& self.dry_run == other.dry_run
    }

    /// Nothing was counted since `before`.
    pub open spec fn counts_as(&self, before: &SortRun) -> bool {
        &&& self.tally == before.tally
        &&& self.errors == before.errors
        &&& self.finished == before.finished
    }

    /// One image failed since `before`.
    pub open spec fn counts_error_after(&self, before: &SortRun) -> bool {
        &&& self.stage == Stage::Classify
        &&& self.tally == before.tally
        &&& self.errors == before.errors + 1
        &&& self.finished == before.finished + 1
    }

    /// One image went into `folder` since `before`.
    pub open spec fn counts_image_after(&self, before: &SortRun, folder: Seq<char>) -> bool {
        &&& self.stage == Stage::Classify
        &&& forall|other: Seq<char>| #[trigger]
            self.tally.count(other) == before.tally.count(other) + (if other == folder {
                1nat
            } else {
                0nat
            })
        &&& self.errors == before.errors
        &&& self.finished == before.finished + 1
    }

    /// A run that has not started.
    pub fn new(class_names: Vec<String>, threshold: u32, dry_run: bool) -> (out: SortRun)
        ensures
            out.is_well_formed(),
            out.class_names == class_names,
            out.threshold == threshold,
            out.dry_run == dry_run,
            out.stage == Stage::Classify,
            out.errors == 0,
            out.finished == 0,
            forall|folder: Seq<char>| #[trigger] out.tally.count(folder) == 0,
    {
        SortRun {
            class_names,
            threshold,
            dry_run,
            stage: Stage::Classify,
            folder: String::new(),
            tally: Tally::new(),
            errors: 0,
            finished: 0,
        }
    }

    /// Takes the class and the confidence of the next image, or that it has none. In a dry run the
    /// image is done with; else its folder is made next.
    pub fn classified(&mut self, result: Option<(usize, u32)>)
        requires
            old(self).is_well_formed(),
            old(self).stage == Stage::Classify,
            old(self).finished < usize::MAX,
        ensures
            final(self).is_well_formed(),
            final(self).has_settings_of(old(self)),
            match result {
                Some((index, confidence)) => {
                    let folder = folder_of(
                        texts(old(self).class_names@),
                        index as nat,
                        confidence,
                        old(self).threshold,
                    );
                    &&& final(self).folder@ == folder
                    &&& old(self).dry_run ==> final(self).counts_image_after(old(self), folder)
                    &&& !old(self).dry_run ==> final(self).stage == Stage::MakeFolder
                    &&& !old(self).dry_run ==> final(self).counts_as(old(self))
                },
                None => {
                    &&& final(self).counts_error_after(old(self))
                    &&& final(self).folder == old(self).folder
                },
            },
    {
        match result {
            Some((index, confidence)) => {
                self.folder = folder_for(&self.class_names, index, confidence, self.threshold);
                if self.dry_run {
                    self.tally.record(self.folder.as_str());
                    self.finished = self.finished + 1;
                } else {
                    self.stage = Stage::MakeFolder;
                }
            },
            None => {
                self.errors = self.errors + 1;
                self.finished = self.finished + 1;
            },
        }
    }

    /// Takes whether the folder of the current image exists now.
    pub fn folder_made(&mut self, succeeded: bool)
        requires
            old(self).is_well_formed(),
            old(self).stage == Stage::MakeFolder,
            old(self).finished < usize::MAX,
        ensures
            final(self).is_well_formed(),
            final(self).has_settings_of(old(self)),
            final(self).folder == old(self).folder,
            succeeded ==> final(self).stage == Stage::Place && final(self).counts_as(old(self)),
            !succeeded ==> final(self).counts_error_after(old(self)),
    {
        if succeeded {
            self.stage = Stage::Place;
        } else {
            self.stage = Stage::Classify;
            self.errors = self.errors + 1;
            self.finished = self.finished + 1;
        }
    }

    /// Takes whether the current image is in its folder now.
    pub fn placed(&mut self, succeeded: bool)
        requires
            old(self).is_well_formed(),
            old(self).stage == Stage::Place,
            old(self).finished < usize::MAX,
        ensures
            final(self).is_well_formed(),
            final(self).has_settings_of(old(self)),
            final(self).folder == old(self).folder,
            succeeded ==> final(self).counts_image_after(old(self), old(self).folder@),
            !succeeded ==> final(self).counts_error_after(old(self)),
    {
        self.stage = Stage::Classify;
        self.finished = self.finished + 1;
        if succeeded {
            self.tally.record(self.folder.as_str());
        } else {
            self.errors = self.errors + 1;
        }
    }
}

/// An image of a class that the model names, sure or not, goes into one of the listed folders.
pub proof fn images_go_into_listed_folders(
    classes: Seq<Seq<char>>,
    index: nat,
    confidence: u32,
    threshold: u32,
)
    requires
        index < classes.len(),
    ensures
        folders_of(classes).contains(folder_of(classes, index, confidence, threshold)),
{
    let folders = folders_of(classes);
    assert(folders[index as int] == classes[index as int]);
    assert(folders[classes.len() as int] == unsure_folder());
}

/// An image goes into `unsure` wherever its confidence is below the threshold; a threshold of
/// zero sends no image of a probability there.
pub proof fn threshold_decides_unsure(
    classes: Seq<Seq<char>>,
    index: nat,
    confidence: u32,
    threshold: u32,
)
    ensures
        is_below(confidence, threshold) ==> folder_of(classes, index, confidence, threshold)
            == unsure_folder(),
        !is_below(confidence, threshold) && index < classes.len() ==> folder_of(
            classes,
            index,
            confidence,
            threshold,
        ) == classes[index as int],
        crate::scores::in_unit_range(confidence) && threshold == 0 ==> !is_below(
            confidence,
            threshold,
        ),
{
}

/// The title of a summary.
pub open spec fn summary_title(dry_run: bool, copy: bool) -> Seq<char> {
    if dry_run {
        "DRY RUN - no files changed"@
    } else if copy {
        "Summary (copied)"@
    } else {
        "Summary (moved)"@
    }
}

/// A line of a summary: a name and a number.
pub open spec fn count_line(name: Seq<char>, n: nat) -> Seq<char> {
    "  "@ + name + ": "@ + decimal(n)
}

/// The lines of a summary: the title, each class in the order of the model, `unsure`, and the
/// errors if there were any.
pub open spec fn summary_of(
    classes: Seq<Seq<char>>,
    tally: Tally,
    errors: nat,
    dry_run: bool,
    copy: bool,
) -> Seq<Seq<char>> {
    let counts = folders_of(classes).map_values(
        |folder: Seq<char>| count_line(folder, tally.count(folder)),
    );
    let lines = seq!["--- "@ + summary_title(dry_run, copy) + " ---"@] + counts;
    if errors > 0 {
        lines.push(count_line("errors"@, errors))
    } else {
        lines
    }
}

fn write_count(name: &str, n: usize) -> (out: String)
    ensures
        out@ == count_line(name@, n as nat),
{
    let mut out: String = "  ".to_owned();
    out.append(name);
    out.append(": ");
    push_decimal(&mut out, n as u64);
    out
}

/// Writes the lines of a summary.
pub fn summary_lines(
    class_names: &Vec<String>,
    tally: &Tally,
    errors: usize,
    dry_run: bool,
    copy: bool,
) -> (out: Vec<String>)
    requires
        tally.is_well_formed(),
    ensures
        texts(out@) == summary_of(texts(class_names@), *tally, errors as nat, dry_run, copy),
{
    let title: &str = if dry_run {
        "DRY RUN - no files changed"
    } else if copy {
        "Summary (copied)"
    } else {
        "Summary (moved)"
    };
    let mut first: String = "--- ".to_owned();
    first.append(title);
    first.append(" ---");
    let folders: Vec<String> = output_folders(class_names);
    let ghost names = folders_of(texts(class_names@));
    let ghost lines = summary_of(texts(class_names@), *tally, 0, dry_run, copy);
    let mut out: Vec<String> = Vec::new();
    out.push(first);
    let mut i: usize = 0;
    while i < folders.len()
        invariant
            tally.is_well_formed(),
            i <= folders@.len(),
            texts(folders@) == names,
            lines.len() == names.len() + 1,
            forall|j: int|
                0 <= j < names.len() ==> #[trigger] lines[j + 1] == count_line(
                    names[j],
                    tally.count(names[j]),
                ),
            out@.len() == i + 1,
            forall|j: int| 0 <= j < i + 1 ==> (#[trigger] out@[j])@ == lines[j],
        decreases folders@.len() - i,
    {
        let name: &str = folders[i].as_str();
        assert(name@ == names[i as int]);
        assert(lines[i as int + 1] == count_line(names[i as int], tally.count(names[i as int])));
        out.push(write_count(name, tally.get(name)));
        i = i + 1;
    }
    assert(names.len() == folders@.len());
    assert(texts(out@) =~= lines);
    if errors > 0 {
        let ghost before = out@;
        out.push(write_count("errors", errors));
        assert(texts(out@) =~= texts(before).push(count_line("errors"@, errors as nat)));
    }
    out
}

/// The lines that describe a model before a run.
pub open spec fn model_description(model: ModelInfo, force_gray: bool) -> Seq<Seq<char>> {
    let mode = match mode_for(model.channels as nat, force_gray) {
        PixelMode::Gray => "grayscale"@,
        PixelMode::Rgb => "RGB"@,
    };
    seq![
        "  classes: ["@ + joined(texts(model.class_names@), ", "@) + "]"@,
        "  input: "@ + model.input_name@ + "  size: "@ + decimal(model.width as nat) + "x"@
            + decimal(model.height as nat) + "  channels: "@ + decimal(model.channels as nat)
            + "  mode: "@ + mode,
    ]
}

/// Writes the lines that describe a model.
pub fn model_lines(model: &ModelInfo, force_gray: bool) -> (out: Vec<String>)
    ensures
        texts(out@) == model_description(*model, force_gray),
{
    let mut classes: String = "  classes: [".to_owned();
    classes.append(join(&model.class_names, ", ").as_str());
    classes.append("]");
    let mut input: String = "  input: ".to_owned();
    input.append(model.input_name.as_str());
    input.append("  size: ");
    push_decimal(&mut input, model.width as u64);
    input.append("x");
    push_decimal(&mut input, model.height as u64);
    input.append("  channels: ");
    push_decimal(&mut input, model.channels as u64);
    input.append("  mode: ");
    match pixel_mode(model.channels, force_gray) {
        PixelMode::Gray => input.append("grayscale"),
        PixelMode::Rgb => input.append("RGB"),
    }
    let mut out: Vec<String> = Vec::new();
    out.push(classes);
    out.push(input);
    assert(texts(out@) =~= model_description(*model, force_gray));
    out
}

/// An image goes into `unsure` where its confidence is below the threshold. Else it goes into the
/// folder of its class, or of its number where the model names no such class.
pub proof fn folders_follow_class_and_confidence(
    classes: Seq<Seq<char>>,
    index: nat,
    confidence: u32,
    threshold: u32,
)
    ensures
        folder_of(classes, index, confidence, threshold) == (if is_below(confidence, threshold) {
            "unsure"@
        } else if index < classes.len() {
            classes[index as int]
        } else {
            "class_"@ + decimal(index)
        }),
        confidence <= threshold <= 0x7f80_0000 && confidence != threshold ==> folder_of(
            classes,
            index,
            confidence,
            threshold,
        ) == "unsure"@,
        threshold <= confidence <= 0x7f80_0000 && index < classes.len() ==> folder_of(
            classes,
            index,
            confidence,
            threshold,
        ) == classes[index as int],
{
}

/// The folders are those of the classes, in their order, and `unsure` behind them.
pub proof fn there_is_a_folder_for_each_class(classes: Seq<Seq<char>>)
    ensures
        folders_of(classes).len() == classes.len() + 1,
        forall|i: int|
            #![trigger folders_of(classes)[i]]
            0 <= i < classes.len() ==> folders_of(classes)[i] == classes[i],
        folders_of(classes)[classes.len() as int] == "unsure"@,
{
}

/// What a run counts: an image that went into a folder counts there and nowhere else, and one that
/// failed counts as an error; either way one more image is done with, and the next one is
/// classified. The settings stay as they are.
pub proof fn runs_count_what_happened(before: SortRun, after: SortRun, folder: Seq<char>)
    ensures
        after.counts_image_after(&before, folder) ==> {
            &&& after.tally.count(folder) == before.tally.count(folder) + 1
            &&& forall|other: Seq<char>|
                other != folder ==> #[trigger] after.tally.count(other) == before.tally.count(other)
            &&& after.errors == before.errors
            &&& after.finished == before.finished + 1
            &&& after.stage == Stage::Classify
        },
        after.counts_error_after(&before) ==> {
            &&& after.tally == before.tally
            &&& after.errors == before.errors + 1
            &&& after.finished == before.finished + 1
            &&& after.stage == Stage::Classify
        },
        after.counts_as(&before) ==> {
            &&& after.tally == before.tally
            &&& after.errors == before.errors
            &&& after.finished == before.finished
        },
        after.has_settings_of(&before) ==> {
            &&& after.class_names == before.class_names
            &&& after.threshold == before.threshold
            &&& after.dry_run == before.dry_run
        },
        after.is_well_formed() ==> {
            &&& after.tally.total() + after.errors == after.finished
            &&& after.dry_run ==> after.stage == Stage::Classify
        },
{
}

/// A tally lists no folder twice, so that each entry holds the count of its folder.
pub proof fn folders_are_listed_once(tally: Tally, i: int, j: int)
    requires
        tally.is_well_formed(),
        0 <= i < tally.entries@.len(),
        0 <= j < tally.entries@.len(),
    ensures
        i != j ==> tally.entries@[i].0@ != tally.entries@[j].0@,
        tally.count(tally.entries@[i].0@) == tally.entries@[i].1,
        tally.entries@[i].1 <= tally.total(),
{
    lemma_entry_found(tally.entries@, i);
}

/// A folder's count is what its entry holds, and nothing where it has none; the total is the sum
/// over the entries.
pub proof fn tallies_hold_their_entries(
    entries: Seq<(String, usize)>,
    entry: (String, usize),
    folder: Seq<char>,
)
    ensures
        count_in(Seq::empty(), folder) == 0,
        count_in(entries.push(entry), folder) == (if entry.0@ == folder {
            entry.1 as nat
        } else {
            count_in(entries, folder)
        }),
        sum_of(Seq::empty()) == 0,
        sum_of(entries.push(entry)) == sum_of(entries) + entry.1,
{
    assert(entries.push(entry).drop_last() =~= entries);
}

/// A summary has a title, a line for each class with the images in its folder, one for `unsure`,
/// and one for the errors where there are any.
pub proof fn summaries_list_every_folder(
    classes: Seq<Seq<char>>,
    tally: Tally,
    errors: nat,
    dry_run: bool,
    copy: bool,
)
    ensures
        ({
            let lines = summary_of(classes, tally, errors, dry_run, copy);
            &&& lines.len() == classes.len() + 2 + (if errors > 0 {
                1nat
            } else {
                0nat
            })
            &&& lines[0] == "--- "@ + (if dry_run {
                "DRY RUN - no files changed"@
            } else if copy {
                "Summary (copied)"@
            } else {
                "Summary (moved)"@
            }) + " ---"@
            &&& forall|i: int|
                #![trigger classes[i]]
                0 <= i < classes.len() ==> lines[i + 1] == "  "@ + classes[i] + ": "@ + decimal(
                    tally.count(classes[i]),
                )
            &&& lines[classes.len() as int + 1] == "  "@ + "unsure"@ + ": "@ + decimal(
                tally.count("unsure"@),
            )
            &&& errors > 0 ==> lines[classes.len() as int + 2] == "  "@ + "errors"@ + ": "@ + decimal(
                errors,
            )
        }),
{
    let lines = summary_of(classes, tally, errors, dry_run, copy);
    let folders = folders_of(classes);
    assert forall|i: int|
        #![trigger classes[i]]
        0 <= i < classes.len() implies lines[i + 1] == "  "@ + classes[i] + ": "@ + decimal(
        tally.count(classes[i]),
    ) by {
        assert(folders[i] == classes[i]);
    }
    assert(folders[classes.len() as int] == "unsure"@);
}

/// A model is described by its classes, its input, its size, its channels and how pixels are read.
pub proof fn models_are_described_in_two_lines(model: ModelInfo, force_gray: bool)
    ensures
        model_description(model, force_gray) == seq![
            "  classes: ["@ + joined(texts(model.class_names@), ", "@) + "]"@,
            "  input: "@ + model.input_name@ + "  size: "@ + decimal(model.width as nat) + "x"@
                + decimal(model.height as nat) + "  channels: "@ + decimal(model.channels as nat)
                + "  mode: "@ + (if force_gray || model.channels == 1 {
                "grayscale"@
            } else {
                "RGB"@
            }),
        ],
{
}

} // verus!
