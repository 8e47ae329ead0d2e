use windexer_core::config::Config;
use windexer_core::metrics::PrometheusMetrics;

#[test]
fn counters_and_gauges() {
    let mut m = PrometheusMetrics::new();
    m.increment_processed_blocks();
    m.increment_processed_blocks();
    m.increment_processed_transactions();
    m.increment_processed_accounts();
    m.increment_processed_accounts();
    m.increment_processed_accounts();
    m.observe_block_processing_time(1500);
    m.observe_block_processing_time(500);
    m.observe_transaction_processing_time(42);
    m.observe_account_processing_time(7);
    m.set_last_processed_slot(12345);
    m.set_indexer_status("running");
    let text = String::from_utf8(m.gather()).unwrap();
    assert_eq!(
        text,
        "processed_blocks_total 2\n\
         processed_transactions_total 1\n\
         processed_accounts_total 3\n\
         block_processing_time_microseconds_count 2\n\
         block_processing_time_microseconds_sum 2000\n\
         transaction_processing_time_microseconds_count 1\n\
         transaction_processing_time_microseconds_sum 42\n\
         account_processing_time_microseconds_count 1\n\
         account_processing_time_microseconds_sum 7\n\
         last_processed_slot 12345\n\
         indexer_status 1\n"
    );
}

#[test]
fn duration_sums_saturate() {
    let mut m = PrometheusMetrics::new();
    m.observe_account_processing_time(u64::MAX - 1);
    m.observe_account_processing_time(u64::MAX - 1);
    let text = String::from_utf8(m.gather()).unwrap();
    assert!(text.contains("account_processing_time_microseconds_count 2\n"), "{}", text);
    assert!(
        text.contains(&format!("account_processing_time_microseconds_sum {}\n", u64::MAX)),
        "{}",
        text
    );
}

#[test]
fn status_codes() {
    let mut m = PrometheusMetrics::new();
    m.set_indexer_status("error");
    let text = String::from_utf8(m.gather()).unwrap();
    assert!(text.contains("indexer_status 2\n"), "{}", text);
    m.set_indexer_status("stopped");
    let text = String::from_utf8(m.gather()).unwrap();
    assert!(text.contains("indexer_status 0\n"), "{}", text);
}

#[test]
fn negative_gauge_renders() {
    let mut m = PrometheusMetrics::new();
    m.set_last_processed_slot(-7);
    let text = String::from_utf8(m.gather()).unwrap();
    assert!(text.contains("last_processed_slot -7\n"), "{}", text);
}

#[test]
fn config_port_validation() {
    let good = Config {
        database_url: String::from("postgres://localhost/db"),
        solana_rpc_url: String::from("http://localhost:8899"),
        api_port: 8080,
        metrics_port: 9090,
        log_level: String::from("info"),
        wasm_dir: String::from("wasm"),
    };
    assert!(good.validate_ports());
    let clash = Config { metrics_port: 8080, ..good };
    assert!(!clash.validate_ports());
}
