use mempool_select::selection::{select_transactions, MempoolTransaction};

fn tx(id: &str, fee: i32, weight: i32, parents: &[&str]) -> MempoolTransaction {
    MempoolTransaction::new(
        id.to_string(),
        fee,
        weight,
        parents.iter().map(|p| p.to_string()).collect(),
    )
}

fn ids(v: &[&str]) -> Vec<String> {
    v.iter().map(|s| s.to_string()).collect()
}

#[test]
fn new_keeps_fields() {
    let t = tx("a", 7, -3, &["p", "q"]);
    assert_eq!(t.txid, "a");
    assert_eq!(t.fee, 7);
    assert_eq!(t.weight, -3);
    assert_eq!(t.parents, ids(&["p", "q"]));
}

#[test]
fn descending_fee_no_deps() {
    let input = vec![tx("A", 10, 100, &[]), tx("B", 20, 100, &[])];
    assert_eq!(select_transactions(input, 1000), ids(&["B", "A"]));
}

#[test]
fn single_pass_skips_child_before_parent() {
    let input = vec![tx("A", 10, 100, &["B"]), tx("B", 5, 100, &[])];
    assert_eq!(select_transactions(input, 1000), ids(&["B"]));
}

#[test]
fn over_limit_admission_stays_and_stops() {
    let input = vec![tx("A", 10, 100, &[]), tx("B", 9, 100, &[])];
    assert_eq!(select_transactions(input, 150), ids(&["A", "B"]));
}

#[test]
fn dangling_dependency_excludes() {
    let input = vec![tx("A", 10, 10, &["Z"])];
    assert_eq!(select_transactions(input, 1000), Vec::<String>::new());
}

#[test]
fn dangling_dependency_excludes_transitively() {
    let input = vec![tx("A", 10, 10, &["Z"]), tx("B", 5, 10, &["A"])];
    assert_eq!(select_transactions(input, 1000), Vec::<String>::new());
}

#[test]
fn repeated_runs_agree() {
    let mk = || {
        vec![
            tx("A", 3, 10, &[]),
            tx("B", 3, 10, &["A"]),
            tx("C", 9, 10, &[]),
            tx("D", 3, 10, &["C"]),
        ]
    };
    let first = select_transactions(mk(), 100);
    let second = select_transactions(mk(), 100);
    assert_eq!(first, second);
    assert_eq!(first, ids(&["C", "A", "B", "D"]));
}

#[test]
fn equal_fees_keep_input_order() {
    let input = vec![tx("A", 5, 1, &[]), tx("B", 5, 1, &[]), tx("C", 5, 1, &[])];
    assert_eq!(select_transactions(input, 1000), ids(&["A", "B", "C"]));
}

#[test]
fn duplicate_id_admitted_once() {
    let input = vec![tx("X", 5, 1, &[]), tx("X", 10, 1, &[])];
    assert_eq!(select_transactions(input, 1000), ids(&["X"]));
}

#[test]
fn empty_input() {
    assert_eq!(
        select_transactions(Vec::new(), 1000),
        Vec::<String>::new()
    );
}

#[test]
fn capacity_zero_still_admits_first() {
    let input = vec![tx("A", 10, 100, &[]), tx("B", 9, 100, &[])];
    assert_eq!(select_transactions(input, 0), ids(&["A"]));
}

#[test]
fn parent_with_higher_fee_enables_chain() {
    let input = vec![
        tx("child", 5, 10, &["parent"]),
        tx("parent", 10, 10, &[]),
        tx("grandchild", 1, 10, &["child", "parent"]),
    ];
    assert_eq!(
        select_transactions(input, 1000),
        ids(&["parent", "child", "grandchild"])
    );
}

#[test]
fn pass_stops_before_later_candidates() {
    let input = vec![
        tx("A", 10, 100, &[]),
        tx("B", 9, 100, &[]),
        tx("C", 8, 1, &[]),
    ];
    assert_eq!(select_transactions(input, 150), ids(&["A", "B"]));
}

#[test]
fn negative_fee_ranks_last() {
    let input = vec![tx("A", -5, 1, &[]), tx("B", 0, 1, &[])];
    assert_eq!(select_transactions(input, 1000), ids(&["B", "A"]));
}

#[test]
fn negative_weight_frees_room() {
    let input = vec![
        tx("A", 10, 100, &[]),
        tx("B", 9, -60, &[]),
        tx("C", 8, 100, &[]),
    ];
    assert_eq!(select_transactions(input, 150), ids(&["A", "B", "C"]));
}

#[test]
fn stable_across_fee_groups() {
    let input = vec![
        tx("A", 5, 1, &[]),
        tx("B", 7, 1, &[]),
        tx("C", 5, 1, &[]),
        tx("D", 7, 1, &[]),
    ];
    assert_eq!(select_transactions(input, 1000), ids(&["B", "D", "A", "C"]));
}
