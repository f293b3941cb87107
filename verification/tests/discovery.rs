use ml_runner::discovery::{
    discover_model, discovery_error, resolve_input_dir, resolve_model, search_dirs, Candidate,
    Discovered, Folder, Found, ModelSource, NotDiscovered,
};
use ml_runner::work_list::Part;

fn folder(shown: &str, has_model: bool, files: &[&str]) -> Folder {
    Folder {
        shown: shown.to_string(),
        has_model,
        found: files.iter().map(|f| Found { name: f.to_string(), is_file: true }).collect(),
    }
}

fn candidate(name: &str, is_dir: bool) -> Option<Candidate> {
    Some(Candidate { path: vec![Part::Root, Part::Name(name.as_bytes().to_vec())], is_dir })
}

#[test]
fn input_folder() {
    assert_eq!(resolve_input_dir(Some(1), false, None), Ok(1));
    assert_eq!(resolve_input_dir(Some(1), true, Some(2)), Ok(1));
    assert_eq!(resolve_input_dir(None, true, Some(2)), Ok(2));
    assert_eq!(
        resolve_input_dir::<u8>(None, true, None),
        Err("No directory selected".to_string())
    );
    assert_eq!(
        resolve_input_dir(None, false, Some(2)),
        Err("No input folder given. On Linux, pass the image folder as an argument, e.g.:  localSort /path/to/images".to_string())
    );
}

#[test]
fn folders_are_searched_once() {
    let all = vec![candidate("in", true), candidate("in", true), candidate("bin", true)];
    assert_eq!(search_dirs(&all), vec![0, 2]);
    let some = vec![candidate("in", false), None, candidate("in", true)];
    assert_eq!(search_dirs(&some), vec![2]);
    assert_eq!(search_dirs(&vec![None, None]), Vec::<usize>::new());
}

#[test]
fn the_usual_name_wins() {
    let folders =
        vec![folder("/in", false, &["a.onnx"]), folder("/cwd", true, &["model.onnx", "b.onnx"])];
    assert!(matches!(discover_model(&folders), Ok(Discovered::Exact { folder: 1 })));
}

#[test]
fn a_single_model_is_taken() {
    let folders = vec![
        folder("/in", false, &["a.onnx", "b.onnx"]),
        folder("/cwd", false, &["notes.txt", "Net.ONNX"]),
    ];
    assert!(matches!(discover_model(&folders), Ok(Discovered::Only { folder: 1, file: 1 })));
}

#[test]
fn only_files_with_the_extension_count() {
    let mut one = folder("/in", false, &["onnx", ".onnx", "a.onnx.txt", "dir.onnx", "b.onnx"]);
    one.found[3].is_file = false;
    assert!(matches!(discover_model(&vec![one]), Ok(Discovered::Only { folder: 0, file: 4 })));
}

#[test]
fn several_models_are_named() {
    let folders = vec![
        folder("/in", false, &[]),
        folder("/cwd", false, &["b.onnx", "x.txt", "a.onnx"]),
        folder("/bin", false, &["c.onnx", "d.onnx"]),
    ];
    let error = discover_model(&folders).unwrap_err();
    assert!(matches!(&error, NotDiscovered::Ambiguous { folder: 1, .. }));
    assert_eq!(
        discovery_error(&folders, &error),
        "Multiple .onnx models in /cwd:\n  b.onnx\n  a.onnx\nPick one with --model <file>."
    );
}

#[test]
fn no_model_anywhere() {
    let folders = vec![folder("/in", false, &["a.jpg"]), folder("/cwd", false, &[])];
    let error = discover_model(&folders).unwrap_err();
    assert!(matches!(&error, NotDiscovered::Nothing));
    assert_eq!(
        discovery_error(&folders, &error),
        "No ONNX model found in:\n  /in\n  /cwd\nExport one with:  yolo export model=model.pt format=onnx\nthen place `model.onnx` next to the images or the executable (or pass --model <file>)."
    );
}

#[test]
fn model_arguments() {
    assert_eq!(resolve_model(None, false), ModelSource::Search);
    assert_eq!(resolve_model(Some("best.onnx"), true), ModelSource::File);
    assert_eq!(resolve_model(Some("theSearchLife/MantaWatch"), true), ModelSource::File);
    assert_eq!(resolve_model(Some("theSearchLife/MantaWatch"), false), ModelSource::Repository);
    assert_eq!(resolve_model(Some("a-b/c_d.e"), false), ModelSource::Repository);
    for missing in [
        "", "best.onnx", "models/best.onnx", "models/best.ONNX", "/abs", "abs/", "a/b/c", "a b/c",
        "a_b/c", "a/..", "a/.", "../b", "./b", "a//b", "a\\b",
    ] {
        assert_eq!(resolve_model(Some(missing), false), ModelSource::Missing, "{missing}");
    }
}
