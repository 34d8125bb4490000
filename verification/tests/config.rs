use bf_gb::config::RedisConfig;
use bf_gb::redis_client::{processing_queue_name, push_progress_due, tasks_from_batch, train_progress_due};
use bf_gb::collector::top_query_sql;

#[test]
fn connection_string_without_password() {
    let c = RedisConfig { host: "127.0.0.1".to_string(), port: 6379, password: None };
    assert_eq!(c.connection_string(), "redis://127.0.0.1:6379/");
}

#[test]
fn connection_string_with_password() {
    let c = RedisConfig { host: "10.0.0.5".to_string(), port: 23999, password: Some("s3cret".to_string()) };
    assert_eq!(c.connection_string(), "redis://:s3cret@10.0.0.5:23999/");
}

#[test]
fn connection_string_port_zero() {
    let c = RedisConfig { host: "h".to_string(), port: 0, password: Some(String::new()) };
    assert_eq!(c.connection_string(), "redis://:@h:0/");
}

#[test]
fn decimal_notation_in_text() {
    let prefix = "SELECT features, mean_f1_macro FROM t \n                 ORDER BY mean_f1_macro DESC LIMIT ";
    for n in [0usize, 7, 10, 65535, usize::MAX] {
        assert_eq!(top_query_sql("t", n), format!("{}{}", prefix, n));
    }
    let c = RedisConfig { host: "h".to_string(), port: u16::MAX, password: None };
    assert_eq!(c.connection_string(), "redis://h:65535/");
}

#[test]
fn processing_queue_names() {
    assert_eq!(processing_queue_name("mylist"), "mylist:processing");
    assert_eq!(processing_queue_name(""), ":processing");
}

#[test]
fn tasks_follow_batch() {
    let tasks = tasks_from_batch(&vec![vec![1, 2], vec![3, 4]]);
    assert_eq!(tasks.len(), 2);
    assert_eq!(tasks[0].features, vec![1, 2]);
    assert_eq!(tasks[1].features, vec![3, 4]);
}

#[test]
fn progress_reports() {
    assert!(push_progress_due(1));
    assert!(!push_progress_due(2));
    assert!(push_progress_due(10));
    assert!(push_progress_due(30));
    assert!(!push_progress_due(31));
    assert!(train_progress_due(100));
    assert!(!train_progress_due(101));
}

#[test]
fn open_client_accepts_its_own_url() {
    let c = RedisConfig { host: "127.0.0.1".to_string(), port: 6379, password: Some("pw".to_string()) };
    let opened = c.open_client().unwrap();
    assert_eq!(opened.url_text(), "redis://:pw@127.0.0.1:6379/");
    assert_eq!(opened.url_text(), &c.connection_string());
    let info = opened.client().get_connection_info();
    assert_eq!(info.addr().to_string(), "127.0.0.1:6379");
    let bad = RedisConfig { host: "no such host".to_string(), port: 6379, password: None };
    assert!(bad.open_client().is_err());
}
