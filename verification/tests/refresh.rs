use std::collections::BTreeMap;

use memex::refresh::{plan_refresh, sha256_hex};

fn pairs(xs: &[(&str, &str)]) -> Vec<(String, String)> {
    xs.iter().map(|(a, b)| (a.to_string(), b.to_string())).collect()
}

#[test]
fn sha256_hex_of_known_inputs() {
    assert_eq!(
        sha256_hex(b""),
        "e3b0c44298fc1c149afbf4c8996fb92427ae41e4649b934ca495991b7852b855"
    );
    assert_eq!(
        sha256_hex(b"abc"),
        "ba7816bf8f01cfea414140de5dae2223b00361a396177a9cb410ff61f20015ad"
    );
}

#[test]
fn plan_deletes_gone_rows_and_embeds_new_or_changed_files() {
    let disk = pairs(&[("s/a", "h1"), ("s/b", "h2"), ("s/c", "h3")]);
    let indexed = pairs(&[("s/a", "h1"), ("s/b", "old"), ("s/gone", "h9")]);
    let plan = plan_refresh(&disk, &indexed);
    assert_eq!(plan.to_delete, vec!["s/gone"]);
    assert_eq!(plan.to_embed, vec![1, 2]);
}

#[test]
fn plan_of_current_index_is_empty() {
    let disk = pairs(&[("s/a", "h1"), ("s/b", "h2")]);
    let plan = plan_refresh(&disk, &disk.clone());
    assert!(plan.to_delete.is_empty());
    assert!(plan.to_embed.is_empty());
}

#[test]
fn later_file_with_same_id_wins() {
    let disk = pairs(&[("s/a", "h1"), ("s/a", "h2")]);
    let indexed = pairs(&[("s/a", "h1")]);
    let plan = plan_refresh(&disk, &indexed);
    assert_eq!(plan.to_embed, vec![1]);
}

#[test]
fn carrying_out_the_plan_makes_the_index_match_the_disk() {
    let pair = |a: &str, b: &str| (a.to_string(), b.to_string());
    let disk = vec![pair("a", "1"), pair("b", "2"), pair("c", "3"), pair("b", "9")];
    let indexed = vec![pair("a", "1"), pair("b", "2"), pair("gone", "7")];
    let plan = plan_refresh(&disk, &indexed);
    let mut index: BTreeMap<String, String> = indexed.iter().cloned().collect();
    for id in &plan.to_delete {
        index.remove(id);
    }
    for &p in &plan.to_embed {
        index.insert(disk[p].0.clone(), disk[p].1.clone());
    }
    let want: BTreeMap<String, String> = disk.iter().cloned().collect();
    assert_eq!(index, want);
    assert_eq!(plan.to_delete, vec!["gone".to_string()]);
    assert_eq!(plan.to_embed, vec![2, 3]);
}
