use ml_runner::metadata::{parse_imgsz, read_model_info, FALLBACK_IMGSZ};
use ml_runner::names::parse_names;

fn list(labels: &[&str]) -> Option<Vec<String>> {
    Some(labels.iter().map(|l| l.to_string()).collect())
}

#[test]
fn names_in_either_quote() {
    assert_eq!(parse_names("{0: 'manta', 1: 'non_manta'}"), list(&["manta", "non_manta"]));
    assert_eq!(parse_names("{0: \"manta\", 1: \"non_manta\"}"), list(&["manta", "non_manta"]));
    assert_eq!(parse_names("{0: \"ray's\"}"), list(&["ray's"]));
}

#[test]
fn names_with_other_spacing() {
    assert_eq!(parse_names("  { 0 :   'a',1:'b'  }"), list(&["a", "b"]));
    assert_eq!(parse_names("0'a'1::'b'"), list(&["a", "b"]));
}

#[test]
fn names_with_tabs_and_newlines() {
    assert_eq!(parse_names("{0:\t'manta',\n 1:\t'ray'}"), list(&["manta", "ray"]));
    assert_eq!(
        parse_names("{\r\n\t0\t:\r\n\t'manta',\r\n\t1\u{a0}:\u{3000}\"ray\"\r\n}"),
        list(&["manta", "ray"])
    );
}

#[test]
fn names_with_a_quote_for_each_label() {
    assert_eq!(
        parse_names("{0: 'manta', 1: \"ray's\", 2: 'a \"b\"'}"),
        list(&["manta", "ray's", "a \"b\""])
    );
}

#[test]
fn names_come_in_the_order_of_their_numbers() {
    assert_eq!(parse_names("{2: 'c', 0: 'a', 1: 'b'}"), list(&["a", "b", "c"]));
    assert_eq!(parse_names("{10: 'k', 9: 'j'}"), list(&["j", "k"]));
    assert_eq!(parse_names("{7: 'x'}"), list(&["x"]));
}

#[test]
fn names_of_one_number_keep_their_order() {
    assert_eq!(
        parse_names("{1: 'b1', 0: 'a', 1: 'b2', 1: 'b3'}"),
        list(&["a", "b1", "b2", "b3"])
    );
}

#[test]
fn names_with_digits_and_any_script() {
    assert_eq!(parse_names("{0: 'class 7', 1: '\u{e9}t\u{e9}'}"), list(&["class 7", "\u{e9}t\u{e9}"]));
    assert_eq!(parse_names("{0: '', 1: 'x'}"), list(&["", "x"]));
}

#[test]
fn names_without_a_closing_quote_run_to_the_end() {
    assert_eq!(parse_names("{0: 'a"), list(&["a"]));
    assert_eq!(parse_names("{0: 'a, 1: 'b'"), list(&["a, 1: "]));
}

#[test]
fn no_names() {
    assert_eq!(parse_names(""), None);
    assert_eq!(parse_names("{}"), None);
    assert_eq!(parse_names("['manta', 'ray']"), None);
    assert_eq!(parse_names("{0: manta}"), None);
}

#[test]
fn a_number_that_does_not_fit_spoils_the_names() {
    assert_eq!(parse_names("{0: 'a', 99999999999999999999999: 'b'}"), None);
}

#[test]
fn sizes_in_their_usual_forms() {
    assert_eq!(parse_imgsz("[640, 480]"), Some((640, 480)));
    assert_eq!(parse_imgsz("640"), Some((640, 640)));
    assert_eq!(parse_imgsz("(224,224,3)"), Some((224, 224)));
    assert_eq!(parse_imgsz("4294967295"), Some((u32::MAX, u32::MAX)));
}

#[test]
fn sizes_that_are_left_out() {
    assert_eq!(parse_imgsz(""), None);
    assert_eq!(parse_imgsz("square"), None);
    assert_eq!(parse_imgsz("4294967296"), None);
    assert_eq!(parse_imgsz("[4294967296, 64]"), Some((64, 64)));
    assert_eq!(parse_imgsz("-5"), Some((5, 5)));
}

#[test]
fn a_described_model() {
    let model = read_model_info(
        Some("{0: 'manta', 1: 'ray'}"),
        Some("[320, 640]"),
        Some(" 1\n"),
        Some("pixels"),
    );
    assert_eq!(Some(model.class_names), list(&["manta", "ray"]));
    assert_eq!((model.height, model.width), (320, 640));
    assert_eq!(model.channels, 1);
    assert_eq!(model.input_name, "pixels");
}

#[test]
fn a_model_that_says_nothing() {
    let model = read_model_info(None, None, None, None);
    assert_eq!(Some(model.class_names), list(&["manta", "non_fish", "other_fish"]));
    assert_eq!((model.height, model.width), (FALLBACK_IMGSZ, FALLBACK_IMGSZ));
    assert_eq!(FALLBACK_IMGSZ, 640);
    assert_eq!(model.channels, 3);
    assert_eq!(model.input_name, "images");
}

#[test]
fn a_model_whose_metadata_cannot_be_read() {
    let model = read_model_info(Some("{}"), Some("?"), Some("0"), Some(""));
    assert_eq!(Some(model.class_names), list(&["manta", "non_fish", "other_fish"]));
    assert_eq!((model.height, model.width), (640, 640));
    assert_eq!(model.channels, 3);
    assert_eq!(model.input_name, "");
    assert_eq!(read_model_info(None, None, Some("three"), None).channels, 3);
    assert_eq!(read_model_info(None, None, Some("+4"), None).channels, 4);
}
