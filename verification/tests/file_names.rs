use ml_runner::file_names::{
    candidate, is_image, place_file, place_next, unique_path, PlaceStep,
};

fn owned(names: &[&str]) -> Vec<String> {
    names.iter().map(|n| n.to_string()).collect()
}

#[test]
fn image_names() {
    for name in [
        "a.jpg", "a.jpeg", "a.png", "a.bmp", "a.tiff", "a.tif", "a.webp", "A.JPG", "b.JpEg",
        "x.y.png", "..png", "a..png",
    ] {
        assert!(is_image(name), "{name}");
    }
}

#[test]
fn other_names() {
    for name in
        ["", ".", "..", "jpg", ".jpg", "a.gif", "a.jpg.txt", "a.", "a.jp", "a.jpgx", "a.\u{17f}pg"]
    {
        assert!(!is_image(name), "{name}");
    }
}

#[test]
fn extension_as_std_finds_it() {
    for name in ["a.jpg", ".jpg", "..jpg", "a..jpg", ".a.jpg", "jpg", "a.", "...", "a.b.PNG", ".."] {
        let by_std = std::path::Path::new(name)
            .extension()
            .and_then(|e| e.to_str())
            .map(|e| ["jpg", "png"].contains(&e.to_lowercase().as_str()))
            .unwrap_or(false);
        assert_eq!(is_image(name), by_std, "{name}");
    }
}

#[test]
fn candidates_in_turn() {
    assert_eq!(candidate("a.jpg", 0), "a.jpg");
    assert_eq!(candidate("a.jpg", 1), "a (1).jpg");
    assert_eq!(candidate("a.jpg", 10), "a (10).jpg");
    assert_eq!(candidate("a.b.jpg", 2), "a.b (2).jpg");
    assert_eq!(candidate("plain", 1), "plain (1)");
    assert_eq!(candidate(".jpg", 1), ".jpg (1)");
    assert_eq!(candidate("a.", 1), "a (1).");
    assert_eq!(candidate("", 1), " (1)");
    assert_eq!(candidate("..", 1), " (1)");
}

#[test]
fn a_free_name_is_kept() {
    assert_eq!(unique_path("a.jpg", &Vec::new()), "a.jpg");
    assert_eq!(unique_path("a.jpg", &owned(&["b.jpg", "a (1).jpg"])), "a.jpg");
}

#[test]
fn taken_names_are_passed_over() {
    assert_eq!(unique_path("a.jpg", &owned(&["a.jpg"])), "a (1).jpg");
    assert_eq!(unique_path("a.jpg", &owned(&["a (1).jpg", "a.jpg"])), "a (2).jpg");
    assert_eq!(unique_path("a.jpg", &owned(&["a.jpg", "a (2).jpg"])), "a (1).jpg");
}

#[test]
fn names_stay_distinct() {
    let mut taken: Vec<String> = Vec::new();
    for n in 0..30 {
        let name = unique_path("x.png", &taken);
        assert!(!taken.contains(&name));
        assert_eq!(name, candidate("x.png", n));
        taken.push(name);
    }
}

#[test]
fn a_copy_is_one_step() {
    assert_eq!(place_file(true), PlaceStep::Copy);
    assert_eq!(place_next(PlaceStep::Copy, true), PlaceStep::Done);
    assert_eq!(place_next(PlaceStep::Copy, false), PlaceStep::Failed);
}

#[test]
fn a_move_falls_back_to_copy_and_remove() {
    assert_eq!(place_file(false), PlaceStep::Rename);
    assert_eq!(place_next(PlaceStep::Rename, true), PlaceStep::Done);
    assert_eq!(place_next(PlaceStep::Rename, false), PlaceStep::CopyAcross);
    assert_eq!(place_next(PlaceStep::CopyAcross, true), PlaceStep::RemoveSource);
    assert_eq!(place_next(PlaceStep::CopyAcross, false), PlaceStep::Failed);
    assert_eq!(place_next(PlaceStep::RemoveSource, true), PlaceStep::Done);
    assert_eq!(place_next(PlaceStep::RemoveSource, false), PlaceStep::Failed);
    assert_eq!(place_next(PlaceStep::Done, false), PlaceStep::Done);
    assert_eq!(place_next(PlaceStep::Failed, true), PlaceStep::Failed);
}
