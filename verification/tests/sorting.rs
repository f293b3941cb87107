use ml_runner::metadata::read_model_info;
use ml_runner::sorting::{
    folder_for, model_lines, output_folders, summary_lines, SortRun, Stage, Tally,
};

fn classes() -> Vec<String> {
    vec!["manta".to_string(), "ray".to_string()]
}

fn bits(v: f32) -> u32 {
    v.to_bits()
}

#[test]
fn folders_of_the_classes_and_unsure() {
    assert_eq!(output_folders(&classes()), vec!["manta", "ray", "unsure"]);
    assert_eq!(output_folders(&Vec::new()), vec!["unsure"]);
}

#[test]
fn folder_by_confidence() {
    let names = classes();
    assert_eq!(folder_for(&names, 1, bits(0.9), bits(0.6)), "ray");
    assert_eq!(folder_for(&names, 1, bits(0.6), bits(0.6)), "ray");
    assert_eq!(folder_for(&names, 1, bits(0.59), bits(0.6)), "unsure");
    assert_eq!(folder_for(&names, 12, bits(0.9), bits(0.6)), "class_12");
    assert_eq!(folder_for(&names, 0, bits(f32::NAN), bits(0.6)), "manta");
}

#[test]
fn a_threshold_of_zero_sends_nothing_to_unsure() {
    assert_eq!(folder_for(&classes(), 0, bits(0.0), bits(0.0)), "manta");
}

#[test]
fn tallies() {
    let mut tally = Tally::new();
    assert_eq!(tally.get("manta"), 0);
    tally.record("manta");
    tally.record("ray");
    tally.record("manta");
    assert_eq!(tally.get("manta"), 2);
    assert_eq!(tally.get("ray"), 1);
    assert_eq!(tally.get("unsure"), 0);
}

#[test]
fn a_run_counts_each_image_once() {
    let mut run = SortRun::new(classes(), bits(0.6), false);
    run.classified(Some((0, bits(0.9))));
    assert_eq!(run.stage, Stage::MakeFolder);
    assert_eq!(run.folder, "manta");
    run.folder_made(true);
    assert_eq!(run.stage, Stage::Place);
    run.placed(true);
    assert_eq!(run.stage, Stage::Classify);

    run.classified(None);
    assert_eq!(run.stage, Stage::Classify);

    run.classified(Some((1, bits(0.2))));
    assert_eq!(run.folder, "unsure");
    run.folder_made(false);
    assert_eq!(run.stage, Stage::Classify);

    run.classified(Some((1, bits(0.8))));
    run.folder_made(true);
    run.placed(false);

    assert_eq!(run.errors, 3);
    assert_eq!(run.finished, 4);
    assert_eq!(run.tally.get("manta"), 1);
    assert_eq!(run.tally.get("ray"), 0);
    assert_eq!(run.tally.get("unsure"), 0);
}

#[test]
fn a_dry_run_only_counts() {
    let mut run = SortRun::new(classes(), bits(0.6), true);
    run.classified(Some((1, bits(0.7))));
    assert_eq!(run.stage, Stage::Classify);
    run.classified(Some((1, bits(0.1))));
    assert_eq!(run.finished, 2);
    assert_eq!(run.tally.get("ray"), 1);
    assert_eq!(run.tally.get("unsure"), 1);
}

#[test]
fn summaries() {
    let mut tally = Tally::new();
    tally.record("ray");
    tally.record("ray");
    tally.record("unsure");
    assert_eq!(
        summary_lines(&classes(), &tally, 0, false, false),
        vec!["--- Summary (moved) ---", "  manta: 0", "  ray: 2", "  unsure: 1"]
    );
    assert_eq!(
        summary_lines(&classes(), &tally, 3, false, true),
        vec![
            "--- Summary (copied) ---",
            "  manta: 0",
            "  ray: 2",
            "  unsure: 1",
            "  errors: 3"
        ]
    );
    assert_eq!(
        summary_lines(&Vec::new(), &tally, 0, true, true),
        vec!["--- DRY RUN - no files changed ---", "  unsure: 1"]
    );
}

#[test]
fn model_descriptions() {
    let model = read_model_info(Some("{0: 'a', 1: 'b'}"), Some("[320, 640]"), None, None);
    assert_eq!(
        model_lines(&model, false),
        vec!["  classes: [a, b]", "  input: images  size: 640x320  channels: 3  mode: RGB"]
    );
    assert_eq!(
        model_lines(&model, true)[1],
        "  input: images  size: 640x320  channels: 3  mode: grayscale"
    );
}
