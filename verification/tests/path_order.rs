use std::path::PathBuf;

use memex::path_order::sort_paths;

fn strings(xs: &[&str]) -> Vec<String> {
    xs.iter().map(|x| x.to_string()).collect()
}

#[test]
fn paths_sort_component_by_component() {
    let v = strings(&["/m/a.b", "/m/a/b", "/m/B.md", "/m/a", "/m/é.md", "/m/z.md"]);
    let sorted = sort_paths(&v);
    assert_eq!(sorted, strings(&["/m/B.md", "/m/a", "/m/a/b", "/m/a.b", "/m/z.md", "/m/é.md"]));
    let mut std_sorted: Vec<PathBuf> = v.iter().map(PathBuf::from).collect();
    std_sorted.sort();
    let std_sorted: Vec<String> = std_sorted.into_iter().map(|p| p.to_string_lossy().into_owned()).collect();
    assert_eq!(sorted, std_sorted);
}

#[test]
fn equal_paths_keep_their_order() {
    let v = strings(&["/m//x", "/m/x", "/m/./x"]);
    assert_eq!(sort_paths(&v), v);
    assert_eq!(sort_paths(&strings(&["../a", "/a", "./a", "a"])), strings(&["/a", "./a", "../a", "a"]));
}
