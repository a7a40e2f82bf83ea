use memex::file_order::{keys_in_file_order, order_by_position, source_order};

fn strings(xs: &[&str]) -> Vec<String> {
    xs.iter().map(|x| x.to_string()).collect()
}

#[test]
fn keys_come_in_the_order_the_file_writes_them() {
    let text = "project_name = \"p\"\n\n[zeta]\nmount = \"z\"\n\n[alpha]\n";
    assert_eq!(keys_in_file_order(text).unwrap(), strings(&["project_name", "zeta", "alpha"]));
    assert!(keys_in_file_order("[a\n").is_err());
}

#[test]
fn sources_follow_the_file_then_the_rest() {
    let names = strings(&["alpha", "mid", "zeta"]);
    let order = strings(&["project_name", "zeta", "alpha"]);
    assert_eq!(source_order(&names, &order), vec![2, 0, 1]);
    assert_eq!(source_order(&names, &vec![]), vec![0, 1, 2]);
}

#[test]
fn ordering_by_position_is_stable() {
    let v = vec![(5, 0), (1, 1), (5, 2), (0, 3)];
    assert_eq!(order_by_position(&v), vec![(0, 3), (1, 1), (5, 0), (5, 2)]);
}
