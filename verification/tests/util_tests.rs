use subscrub::util::{clean_filename, unique_path};

fn strings(v: &[&str]) -> Vec<String> {
    v.iter().map(|s| s.to_string()).collect()
}

#[test]
fn clean_filename_strips_unsafe_characters() {
    assert_eq!(clean_filename("a/b\\c:d*e?f\"g<h>i|j"), "abcdefghij");
}

#[test]
fn clean_filename_falls_back_when_empty() {
    assert_eq!(clean_filename("???"), "untitled");
}

#[test]
fn clean_filename_trims_after_removing() {
    assert_eq!(clean_filename("  Title: Part 1 ? "), "Title Part 1");
    assert_eq!(clean_filename("   "), "untitled");
    assert_eq!(clean_filename(clean_filename("a<b>").as_str()), "ab");
}

#[test]
fn unique_path_keeps_free_names_untouched() {
    assert_eq!(unique_path("clip.srt", &Vec::new()), "clip.srt");
    assert_eq!(unique_path("clip.srt", &strings(&["other.srt"])), "clip.srt");
}

#[test]
fn unique_path_increments_on_collision() {
    let taken = strings(&["clip.srt", "clip (1).srt"]);
    assert_eq!(unique_path("clip.srt", &taken), "clip (2).srt");
}

#[test]
fn unique_path_without_extension() {
    let taken = strings(&["notes"]);
    assert_eq!(unique_path("notes", &taken), "notes (1)");
}

#[test]
fn unique_path_never_returns_a_taken_name() {
    let taken = strings(&["a.mkv", "a (1).mkv", "a (3).mkv"]);
    let r = unique_path("a.mkv", &taken);
    assert_eq!(r, "a (2).mkv");
    assert!(!taken.contains(&r));
}
