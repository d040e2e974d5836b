use std::collections::HashSet;

use kline_harvester::csv::has_header;
use kline_harvester::ledger::{extract_zip_name, ledger_line, Ledger};
use kline_harvester::listing::{bucket_url_from_page, encoded_url, parse_listing, Listing};
use kline_harvester::plan::{archive_urls, listing_root, partition_prefix, select_partitions, WorkQueue};
use kline_harvester::table::{normalize_frame, Cell, ColumnKind, Table};
use kline_harvester::wildcard::wildcard_match;

const LISTING_XML: &str = r#"
            <ListBucketResult>
              <CommonPrefixes><Prefix>data/spot/daily/klines/SYMBOL/1m/BTCUSDT/</Prefix></CommonPrefixes>
              <Contents><Key>data/spot/daily/klines/SYMBOL/1m/BTCUSDT/BTCUSDT-1m-2024-01-01.zip</Key></Contents>
              <IsTruncated>false</IsTruncated>
            </ListBucketResult>
        "#;

#[test]
fn detects_header() {
    let csv_with_header = "open_time,open,high\n1,2,3\n";
    let csv_without_header = "1,2,3\n4,5,6\n";
    assert!(has_header(csv_with_header));
    assert!(!has_header(csv_without_header));
}

#[test]
fn matches_wildcards() {
    assert!(wildcard_match("BTCUSDT", "*USDT"));
    assert!(wildcard_match("ETHBTC", "ETH*"));
    assert!(!wildcard_match("BNBUSDT", "BTC*"));
}

#[test]
fn parses_listing_entries() {
    let prefix = "data/spot/daily/klines/SYMBOL/1m/";
    let (entries, truncated, next_marker) = parse_listing(prefix, LISTING_XML).unwrap();
    assert!(!truncated);
    assert!(next_marker.is_none());
    assert_eq!(entries.len(), 2);
    assert_eq!(entries[0].0, "BTCUSDT");
    assert!(entries[0].1);
}

#[test]
fn encodes_url() {
    let url = encoded_url("data/spot/daily/klines/SYMBOL/1m/", "BTCUSDT-1m-2024-01-01.zip");
    assert!(url.contains("data/spot/daily/klines/SYMBOL/1m/BTCUSDT-1m-2024-01-01.zip"));
}

#[test]
fn normalizes_frames() {
    let columns = vec!["open_time".to_string(), "price".to_string()];
    let rows = vec![
        vec![Cell::Int(2), Cell::Int(10)],
        vec![Cell::Int(1), Cell::Int(20)],
        vec![Cell::Int(1), Cell::Int(20)],
    ];
    let df = Table::new(columns, vec![ColumnKind::Int, ColumnKind::Int], rows).unwrap();
    let normalized = normalize_frame(df).unwrap();
    let times: Vec<&Cell> = normalized.rows().iter().map(|r| &r[0]).collect();
    assert!(matches!(times[0], Cell::Int(1)));
    assert_eq!(times.len(), 2);
}

#[test]
fn loads_processed_urls_from_file() {
    let contents = "http://example.com/a file-a.zip\nnot-a-url\nhttp://example.com/b\n";
    let ledger = Ledger::load(contents);
    let urls: HashSet<String> = ledger.members().iter().cloned().collect();
    assert!(urls.contains("http://example.com/a"));
    assert!(urls.contains("file-a.zip"));
    assert!(urls.contains("http://example.com/b"));
    assert_eq!(urls.len(), 4);
}

#[test]
fn records_processed_url() {
    let mut contents = String::new();
    contents.push_str(&ledger_line("http://example.com/a.zip"));
    contents.push_str(&ledger_line("http://example.com/b"));
    assert!(contents.contains("http://example.com/a.zip"));
    assert!(contents.contains("a.zip"));
    assert!(contents.contains("http://example.com/b"));
}

#[test]
fn extracts_zip_name_from_url() {
    let name = extract_zip_name("http://example.com/path/data.zip?foo=bar").unwrap();
    assert_eq!(name, "data.zip");
}

#[test]
fn gets_bucket_url_from_listing_page() {
    let base_url = "http://127.0.0.1:8080";
    let page = format!("var BUCKET_URL = '{}/bucket';", base_url);
    let url = bucket_url_from_page(&page).unwrap();
    assert_eq!(url, format!("{}/bucket", base_url));
}

#[test]
fn lists_prefix_entries() {
    let prefix = "data/spot/daily/klines/SYMBOL/1m/";
    let mut listing = Listing::new(prefix);
    assert!(!listing.is_finished());
    listing.accept_page(parse_listing(prefix, LISTING_XML).unwrap());
    assert!(listing.is_finished());
    let entries = listing.into_entries();
    assert!(!entries.is_empty());
}

#[test]
fn builds_urls_from_listing() {
    let symbols_xml = r#"<ListBucketResult>
                <CommonPrefixes><Prefix>data/spot/daily/klines/SYMBOL/1m/BTCUSDT/</Prefix></CommonPrefixes>
                <IsTruncated>false</IsTruncated>
            </ListBucketResult>"#;
    let zips_xml = r#"<ListBucketResult>
                <Contents><Key>data/spot/daily/klines/SYMBOL/1m/BTCUSDT/BTCUSDT-1m-2024-01-01.zip</Key></Contents>
                <IsTruncated>false</IsTruncated>
            </ListBucketResult>"#;
    let pattern = "data/spot/daily/klines/SYMBOL/1m/";
    let root = listing_root(pattern);
    assert_eq!(root, "data/spot/daily/klines/");
    let (entries, _, _) = parse_listing(&root, symbols_xml).unwrap();
    let symbols = select_partitions(&entries, "*USDT");
    let mut queue = WorkQueue::new();
    for symbol in symbols {
        let path = partition_prefix(pattern, &symbol);
        let (files, _, _) = parse_listing(&path, zips_xml).unwrap();
        for url in archive_urls(&path, &files) {
            queue = queue.with_item(&symbol, url);
        }
    }
    assert!(queue
        .groups()
        .iter()
        .flat_map(|g| g.1.iter())
        .any(|url| url.contains("BTCUSDT-1m-2024-01-01.zip")));
}
