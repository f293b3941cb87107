use ml_runner::work_list::{same_path, work_list, Entry, Part};

fn path(text: &str) -> Vec<Part> {
    std::path::Path::new(text)
        .components()
        .map(|c| match c {
            std::path::Component::Prefix(p) => {
                Part::Prefix(p.as_os_str().as_encoded_bytes().to_vec())
            }
            std::path::Component::RootDir => Part::Root,
            std::path::Component::CurDir => Part::Current,
            std::path::Component::ParentDir => Part::Parent,
            std::path::Component::Normal(n) => Part::Name(n.as_encoded_bytes().to_vec()),
        })
        .collect()
}

fn file(text: &str) -> Entry {
    let name = std::path::Path::new(text).file_name().unwrap().to_string_lossy().into_owned();
    Entry { path: path(text), name, is_file: true }
}

fn listed(paths: &[&str], folders: &[&str]) -> Vec<String> {
    let entries: Vec<Entry> = paths.iter().map(|p| file(p)).collect();
    let folders: Vec<Vec<Part>> = folders.iter().map(|f| path(f)).collect();
    work_list(&entries, &folders).into_iter().map(|i| paths[i].to_string()).collect()
}

#[test]
fn whole_parts_make_a_folder() {
    assert!(listed(&["/in/manta/a.jpg"], &["/in/manta"]).is_empty());
    assert!(listed(&["/in/manta.jpg"], &["/in/manta.jpg"]).is_empty());
    assert!(listed(&["in/a.jpg"], &[""]).is_empty());
    for (path, folder) in [
        ("/in/manta2/a.jpg", "/in/manta"),
        ("/in.jpg", "/in.jpg/manta"),
        ("in/manta/a.jpg", "/in/manta"),
    ] {
        assert_eq!(listed(&[path], &[folder]), vec![path]);
    }
}

#[test]
fn paths_that_are_the_same() {
    assert!(same_path(&path("/in/x"), &path("/in//x/")));
    assert!(!same_path(&path("/in/x"), &path("/in/y")));
    assert!(!same_path(&path("../x"), &path("x")));
    assert!(!same_path(&path("./x"), &path("x")));
}

#[test]
fn only_image_files_are_listed() {
    let mut folder = file("/in/dir.jpg");
    folder.is_file = false;
    let entries = vec![file("/in/b.png"), folder, file("/in/notes.txt"), file("/in/a.JPG")];
    assert_eq!(work_list(&entries, &Vec::new()), vec![3, 0]);
}

#[test]
fn output_folders_are_skipped() {
    let paths =
        ["/in/manta/a.jpg", "/in/a.jpg", "/in/unsure/deep/b.jpg", "/in/mantas/c.jpg", "/in/x/manta/d.jpg"];
    assert_eq!(
        listed(&paths, &["/in/manta", "/in/unsure"]),
        vec!["/in/a.jpg", "/in/mantas/c.jpg", "/in/x/manta/d.jpg"]
    );
}

#[test]
fn order_is_that_of_std_paths() {
    let mut paths = vec![
        "/in/b.jpg", "/in/a/z.jpg", "/in/a.jpg", "/in/a b.jpg", "/in/B.jpg", "/in/a/b/c.jpg",
        "/in/10.jpg", "/in/9.jpg", "/in/\u{e9}.jpg", "/in/a-b/c.jpg", "/in/a!.jpg", "x.jpg",
        "../x.jpg", "./x.jpg",
    ];
    let out = listed(&paths, &[]);
    paths.sort_by(|a, b| std::path::Path::new(a).cmp(std::path::Path::new(b)));
    assert_eq!(out, paths);
}

#[test]
fn equal_paths_keep_their_order() {
    let entries = vec![file("/in/b.jpg"), file("/in/a.jpg"), file("/in/a.jpg"), file("/in/b.jpg")];
    assert_eq!(work_list(&entries, &Vec::new()), vec![1, 2, 0, 3]);
}

#[test]
fn an_empty_folder_gives_no_work() {
    assert_eq!(work_list(&Vec::new(), &vec![path("/in/unsure")]), Vec::<usize>::new());
}
