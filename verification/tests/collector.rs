use bf_gb::collector::{
    create_table_sql, features_json, insert_sql, parse_features_json, top_query_sql, CollectProgress, IdleStep,
};

#[test]
fn features_json_text() {
    assert_eq!(features_json(&vec![1, 2, 3]), "[1,2,3]");
    assert_eq!(features_json(&vec![]), "[]");
    assert_eq!(features_json(&vec![43]), "[43]");
}

#[test]
fn parse_features_json_values() {
    assert_eq!(parse_features_json("[4,5]"), vec![4, 5]);
    assert_eq!(parse_features_json(" [ 7 , 8 ] "), vec![7, 8]);
    assert_eq!(parse_features_json("not json"), Vec::<usize>::new());
    assert_eq!(parse_features_json(&features_json(&vec![9, 10, 11])), vec![9, 10, 11]);
}

#[test]
fn table_statements() {
    assert_eq!(
        create_table_sql("results"),
        "CREATE TABLE IF NOT EXISTS results (\n                    features VARCHAR,\n                    mean_f1_macro DOUBLE\n                )"
    );
    assert_eq!(insert_sql("results"), "INSERT INTO results VALUES (?, ?)");
    assert_eq!(
        top_query_sql("results", 10),
        "SELECT features, mean_f1_macro FROM results \n                 ORDER BY mean_f1_macro DESC LIMIT 10"
    );
}

#[test]
fn collect_progress_commits_every_tenth_batch() {
    let mut p = CollectProgress::new();
    let mut commits = Vec::new();
    for i in 1..=25 {
        if p.record_batch(3) {
            commits.push(i);
        }
    }
    assert_eq!(commits, vec![10, 20]);
    assert_eq!(p.total_count, 75);
    assert_eq!(p.batch_counter, 25);
}

#[test]
fn idle_step_decision() {
    assert_eq!(CollectProgress::on_empty_batch(0, 0), IdleStep::Finish);
    assert_eq!(CollectProgress::on_empty_batch(1, 0), IdleStep::Wait);
    assert_eq!(CollectProgress::on_empty_batch(0, 2), IdleStep::Wait);
}
