use memex::links::extract;

#[test]
fn extracts_valid_slug() {
    assert_eq!(extract("See [[foo]] for details."), vec!["foo"]);
}

#[test]
fn extracts_slug_with_digits_and_dashes() {
    assert_eq!(extract("[[hello-world-2]]"), vec!["hello-world-2"]);
}

#[test]
fn extracts_slug_with_prefix_slash() {
    assert_eq!(
        extract("See [[bp/vision]] and [[phoenix-liveview/context]]."),
        vec!["bp/vision", "phoenix-liveview/context"]
    );
}

#[test]
fn preserves_case_in_slugs() {
    assert_eq!(extract("[[TODOs]] and [[README]]"), vec!["TODOs", "README"]);
}

#[test]
fn dedupes_repeated_slugs_preserving_order() {
    assert_eq!(
        extract("[[alpha]] and [[beta]] then [[alpha]] again."),
        vec!["alpha", "beta"]
    );
}

#[test]
fn ignores_slugs_inside_fenced_code_blocks() {
    let content = "Real [[ref]].\n\n```\n[[ignored]]\n```\n\nMore [[ref]].";
    assert_eq!(extract(content), vec!["ref"]);
}

#[test]
fn ignores_slugs_inside_inline_code() {
    assert_eq!(extract("Try `[[nope]]` but [[yep]] works."), vec!["yep"]);
}

#[test]
fn rejects_invalid_slugs() {
    assert!(extract("[[has space]]").is_empty());
    assert!(extract("[[/leading-slash]]").is_empty());
    assert!(extract("[[trailing-slash/]]").is_empty());
    assert!(extract("[[double//slash]]").is_empty());
    assert!(extract("[[]]").is_empty());
}

#[test]
fn returns_empty_when_no_refs() {
    assert!(extract("Plain text with no refs.").is_empty());
}

#[test]
fn each_valid_reference_appears_once_in_first_order() {
    assert_eq!(
        extract("[[b]] [[a]] [[b]] [[c/d]] [[a]]"),
        vec!["b", "a", "c/d"]
    );
}

#[test]
fn reference_after_closed_fence_is_found() {
    let content = "```rust\nlet x = [[inside]];\n```\n[[outside]]";
    assert_eq!(extract(content), vec!["outside"]);
}

#[test]
fn text_without_brackets_has_no_references() {
    assert!(extract("no links here, only ] and [ apart").is_empty());
}

#[test]
fn code_spans_hide_references_and_text_around_them_stays() {
    assert_eq!(extract("[[a]] `[[b]]` [[c]]"), vec!["a".to_string(), "c".to_string()]);
    assert_eq!(extract("x `y [[z]]"), Vec::<String>::new());
    assert_eq!(extract("`one` [[two]] `three`"), vec!["two".to_string()]);
}
