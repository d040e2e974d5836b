use std::io::Write;

use kline_harvester::csv::{batch_from_csv, extract_batch, has_header, ExtractionError};
use kline_harvester::ledger::{ledger_line, Ledger};
use kline_harvester::listing::{
    bucket_url_from_page, discovery_url, encoded_url, parse_listing, parse_listing_events, Listing,
    ListingError, XmlEvent,
};
use kline_harvester::plan::{
    archive_urls, listing_root, partition_prefix, plan_work, select_partitions, WorkQueue,
};
use kline_harvester::table::{merge_into, normalize_frame, Cell, ColumnKind, Table, TableError};
use kline_harvester::wildcard::{glob_to_regex, wildcard_match};

fn cell_text(c: &Cell) -> String {
    match c {
        Cell::Int(x) => x.to_string(),
        Cell::Text(s) => s.clone(),
    }
}

fn rows_text(t: &Table) -> Vec<Vec<String>> {
    t.rows().iter().map(|r| r.iter().map(cell_text).collect()).collect()
}

fn zip_of(name: &str, text: &str) -> Vec<u8> {
    let mut out = std::io::Cursor::new(Vec::new());
    {
        let mut w = zip::ZipWriter::new(&mut out);
        w.start_file(name, zip::write::FileOptions::default()).unwrap();
        w.write_all(text.as_bytes()).unwrap();
        w.finish().unwrap();
    }
    out.into_inner()
}

#[test]
fn star_matches_any_text() {
    for t in ["", "BTCUSDT", "a b\nc", "*?", "ÄÖ"] {
        assert!(wildcard_match(t, "*"));
    }
}

#[test]
fn literal_patterns_match_themselves() {
    for t in ["BTCUSDT", "a.b+c", "(x)[y]{z}^$|\\#&-~", ""] {
        assert!(wildcard_match(t, t));
    }
    assert!(!wildcard_match("aXb", "a.b"));
}

#[test]
fn question_mark_is_one_character() {
    assert!(wildcard_match("BTC1", "BTC?"));
    assert!(!wildcard_match("BTC", "BTC?"));
    assert!(!wildcard_match("BTC12", "BTC?"));
    assert!(wildcard_match("ETHUSDT", "?TH*T"));
}

#[test]
fn glob_regex_escapes_meta_characters() {
    assert_eq!(glob_to_regex("a*b?c.d"), "(?s)^a.*b.c\\.d$");
}

#[test]
fn header_detection_examples() {
    assert!(has_header("open_time,open,high\n1,2,3\n"));
    assert!(!has_header("1,2,3\n4,5,6\n"));
    assert!(!has_header("1.5e3,2\n"));
    assert!(!has_header("-inf,2\n"));
    assert!(!has_header("NaN\n"));
    assert!(has_header("1.2.3,4\n"));
    assert!(has_header("\n1,2\n"));
    assert!(!has_header("12\r\n"));
}

#[test]
fn batch_without_header_gets_named_columns_and_tags() {
    let t = batch_from_csv("2,10\n1,20\n", "tmpl/", "BTCUSDT").unwrap();
    assert_eq!(t.columns(), &vec!["column_1", "column_2", "pattern", "symbol"]);
    assert_eq!(
        rows_text(&t),
        vec![vec!["2", "10", "tmpl/", "BTCUSDT"], vec!["1", "20", "tmpl/", "BTCUSDT"]]
    );
    assert!(matches!(t.rows()[0][0], Cell::Int(2)));
}

#[test]
fn batch_with_header_uses_its_names() {
    let t = batch_from_csv("open_time,close\r\n5,1.25\r\n\r\n6,x\r\n", "p", "s").unwrap();
    assert_eq!(t.columns(), &vec!["open_time", "close", "pattern", "symbol"]);
    assert_eq!(rows_text(&t), vec![vec!["5", "1.25", "p", "s"], vec!["6", "x", "p", "s"]]);
    assert!(matches!(&t.rows()[0][1], Cell::Text(s) if s == "1.25"));
}

#[test]
fn batch_integer_cells_edges() {
    let t = batch_from_csv("-9223372036854775808,9223372036854775808,-0\n", "p", "s").unwrap();
    assert!(matches!(t.rows()[0][0], Cell::Int(i64::MIN)));
    assert!(matches!(&t.rows()[0][1], Cell::Text(s) if s == "9223372036854775808"));
    assert!(matches!(t.rows()[0][2], Cell::Int(0)));
}

#[test]
fn batch_errors() {
    assert!(matches!(batch_from_csv("", "p", "s"), Err(ExtractionError::NoRecords)));
    assert!(matches!(batch_from_csv("\n\r\n", "p", "s"), Err(ExtractionError::NoRecords)));
    assert!(matches!(
        batch_from_csv("1,2\n3\n", "p", "s"),
        Err(ExtractionError::RowWidth { row: 1 })
    ));
    assert!(matches!(
        extract_batch(b"not a zip", "p", "s"),
        Err(ExtractionError::Unreadable)
    ));
}

#[test]
fn extracts_batch_from_archive() {
    let bytes = zip_of("BTCUSDT-1m-2024-01-01.csv", "3,30\n1,10\n");
    let t = extract_batch(&bytes, "tmpl/", "BTCUSDT").unwrap();
    assert_eq!(rows_text(&t), vec![vec!["3", "30", "tmpl/", "BTCUSDT"], vec!["1", "10", "tmpl/", "BTCUSDT"]]);
}

#[test]
fn normalization_sorts_and_dedups() {
    let t = batch_from_csv("0,h\nb,1\n3,x\n1,y\n3,x\n2,z\na,0\n1,w\n", "p", "s").unwrap();
    let n = normalize_frame(t).unwrap();
    let firsts: Vec<String> = n.rows().iter().map(|r| cell_text(&r[0])).collect();
    assert_eq!(firsts, vec!["0", "1", "1", "2", "3", "a", "b"]);
    assert_eq!(cell_text(&n.rows()[1][1]), "y");
    assert_eq!(cell_text(&n.rows()[2][1]), "w");
}

#[test]
fn merging_a_batch_twice_changes_nothing() {
    let text = "5,a\n2,b\n5,a\n9,c\n";
    let once = merge_into(None, batch_from_csv(text, "p", "s").unwrap()).unwrap();
    let expected = rows_text(&once);
    let twice = merge_into(Some(once), batch_from_csv(text, "p", "s").unwrap()).unwrap();
    assert_eq!(rows_text(&twice), expected);
    assert_eq!(expected.len(), 3);
}

#[test]
fn merged_dataset_is_ordered_by_first_column() {
    let a = merge_into(None, batch_from_csv("7,a\n3,b\n", "p", "s").unwrap()).unwrap();
    let b = merge_into(Some(a), batch_from_csv("5,c\n1,d\n3,b\n", "p", "s").unwrap()).unwrap();
    let firsts: Vec<String> = b.rows().iter().map(|r| cell_text(&r[0])).collect();
    assert_eq!(firsts, vec!["1", "3", "5", "7"]);
}

#[test]
fn merge_refuses_other_columns() {
    let a = batch_from_csv("x,y\n1,2\n", "p", "s").unwrap();
    let b = batch_from_csv("x,z\n1,2\n", "p", "s").unwrap();
    assert!(matches!(merge_into(Some(a), b), Err(TableError::SchemaMismatch)));
}

#[test]
fn merge_refuses_other_column_kinds() {
    let stored = merge_into(None, batch_from_csv("1,a\n2,b\n", "p", "s").unwrap()).unwrap();
    assert_eq!(stored.column_kinds(), &vec![ColumnKind::Int, ColumnKind::Text, ColumnKind::Text, ColumnKind::Text]);
    let batch = batch_from_csv("1.5,c\n", "p", "s").unwrap();
    assert_eq!(batch.column_kinds()[0], ColumnKind::Text);
    assert!(matches!(merge_into(Some(stored), batch), Err(TableError::SchemaMismatch)));
}

#[test]
fn column_kind_follows_every_field() {
    let t = batch_from_csv("a,b\n5,1.25\n6,7\n", "p", "s").unwrap();
    assert_eq!(t.column_kinds(), &vec![ColumnKind::Int, ColumnKind::Text, ColumnKind::Text, ColumnKind::Text]);
    assert!(matches!(&t.rows()[1][1], Cell::Text(s) if s == "7"));
    let header_only = batch_from_csv("a,b\n", "p", "s").unwrap();
    assert_eq!(header_only.column_kinds()[0], ColumnKind::Text);
    assert!(header_only.rows().is_empty());
}

#[test]
fn normalizing_is_idempotent() {
    let n = normalize_frame(batch_from_csv("3,x\n1,y\n3,x\n", "p", "s").unwrap()).unwrap();
    let expected = rows_text(&n);
    let again = merge_into(None, batch_from_csv("3,x\n1,y\n3,x\n", "p", "s").unwrap()).unwrap();
    let again = normalize_frame(again).unwrap();
    assert_eq!(rows_text(&again), expected);
}

#[test]
fn unreadable_xml_fails_the_page() {
    assert!(matches!(
        parse_listing("p/", "<R><Contents><Key>p/a.zip</Key></Contents></Wrong>"),
        Err(ListingError::MalformedPage)
    ));
}

#[test]
fn table_shape_errors() {
    let a = || vec!["a".to_string()];
    assert!(matches!(Table::new(vec![], vec![], vec![]), Err(TableError::NoColumns)));
    assert!(matches!(Table::new(a(), vec![], vec![]), Err(TableError::KindCount)));
    assert!(matches!(
        Table::new(a(), vec![ColumnKind::Int], vec![vec![Cell::Int(1)], vec![]]),
        Err(TableError::RowWidth { row: 1 })
    ));
    assert!(matches!(
        Table::new(a(), vec![ColumnKind::Int], vec![vec![Cell::Int(1)], vec![Cell::Text("x".to_string())]]),
        Err(TableError::CellKind { row: 1, column: 0 })
    ));
}

#[test]
fn ledger_round_trip() {
    let url = "https://data.binance.vision/data/spot/daily/klines/BTCUSDT/1m/BTCUSDT-1m-2024-01-01.zip";
    let mut contents = String::from("https://example.com/old.zip old.zip\n");
    contents.push_str(&ledger_line(url));
    let ledger = Ledger::load(&contents);
    assert!(ledger.contains(url));
    assert!(ledger.contains("BTCUSDT-1m-2024-01-01.zip"));
    assert!(ledger.contains("old.zip"));
    assert!(!ledger.contains("BTCUSDT"));
}

#[test]
fn ledger_line_has_url_and_name() {
    assert_eq!(ledger_line("http://h/p/a.zip?x=1"), "http://h/p/a.zip?x=1 a.zip\n");
}

#[test]
fn processed_items_are_skipped() {
    let ledger = Ledger::load("http://h/a/one.zip\nelsewhere/two.zip two.zip\n");
    let queue = WorkQueue::new()
        .with_item("A", "http://h/a/one.zip".to_string())
        .with_item("B", "http://other/two.zip".to_string())
        .with_item("A", "http://h/a/three.zip".to_string())
        .with_item("C", "http://h/c/one.zip?v=2".to_string());
    assert_eq!(queue.groups().len(), 3);
    let (pending, skipped) = plan_work(&queue, &ledger);
    assert_eq!(skipped, vec!["http://h/a/one.zip", "http://other/two.zip"]);
    assert_eq!(pending.groups().len(), 2);
    assert_eq!(pending.groups()[0].0, "A");
    assert_eq!(pending.groups()[0].1, vec!["http://h/a/three.zip"]);
    assert_eq!(pending.groups()[1].0, "C");
}

#[test]
fn truncated_page_continues_from_last_key() {
    let prefix = "p/";
    let page = "<ListBucketResult><Contents><Key>p/a.zip</Key></Contents>\
                <Contents><Key>p/b.txt</Key></Contents><IsTruncated>TRUE</IsTruncated></ListBucketResult>";
    let parsed = parse_listing(prefix, page).unwrap();
    assert!(parsed.1);
    assert_eq!(parsed.2.as_deref(), Some("p/b.txt"));
    let mut listing = Listing::new(prefix);
    assert_eq!(listing.request_query(), "delimiter=/&prefix=p%2F");
    listing.accept_page(parsed);
    assert!(!listing.is_finished());
    assert_eq!(listing.request_query(), "delimiter=/&prefix=p%2F&marker=p%2Fb.txt");
    assert_eq!(listing.request_url("http://b"), "http://b?delimiter=/&prefix=p%2F&marker=p%2Fb.txt");
}

#[test]
fn explicit_next_marker_wins() {
    let page = "<R><Contents><Key>p/a.zip</Key></Contents><NextMarker>m1</NextMarker>\
                <IsTruncated>true</IsTruncated></R>";
    let (_, truncated, next) = parse_listing("p/", page).unwrap();
    assert!(truncated);
    assert_eq!(next.as_deref(), Some("m1"));
}

#[test]
fn single_page_listing_is_ordered() {
    let page = "<R><Contents><Key>p/z.zip</Key></Contents><Contents><Key>p/a.zip</Key></Contents>\
                <CommonPrefixes><Prefix>p/Y/</Prefix></CommonPrefixes>\
                <CommonPrefixes><Prefix>p/B/</Prefix></CommonPrefixes>\
                <CommonPrefixes><Prefix>p/</Prefix></CommonPrefixes>\
                <IsTruncated>false</IsTruncated></R>";
    let mut listing = Listing::new("p/");
    listing.accept_page(parse_listing("p/", page).unwrap());
    assert!(listing.is_finished());
    let names: Vec<(String, bool)> = listing.into_entries();
    assert_eq!(
        names,
        vec![
            ("B".to_string(), true),
            ("Y".to_string(), true),
            ("a.zip".to_string(), false),
            ("z.zip".to_string(), false)
        ]
    );
}

#[test]
fn malformed_text_fails_the_page() {
    assert!(matches!(
        parse_listing("p/", "<R><Key>&bogus;</Key></R>"),
        Err(ListingError::MalformedPage)
    ));
    assert!(matches!(
        parse_listing_events("p/", &vec![XmlEvent::Open("Key".to_string()), XmlEvent::Text(None)]),
        Err(ListingError::MalformedPage)
    ));
}

#[test]
fn bucket_url_missing() {
    assert!(matches!(bucket_url_from_page("<html></html>"), Err(ListingError::BucketUrlMissing)));
}

#[test]
fn urls_are_encoded() {
    assert_eq!(discovery_url("http://b", "data/spot/"), "http://b/?prefix=data%2Fspot%2F");
    assert_eq!(
        encoded_url("data/a b/", "x y.zip"),
        "https://data.binance.vision/data/a%20b/x%20y.zip"
    );
}

#[test]
fn template_prefixes() {
    assert_eq!(listing_root("data/spot/daily/klines/SYMBOL/1m/"), "data/spot/daily/klines/");
    assert_eq!(listing_root("no/placeholder/"), "no/placeholder/");
    assert_eq!(
        partition_prefix("data/spot/daily/klines/SYMBOL/1m/", "BTCUSDT"),
        "data/spot/daily/klines/BTCUSDT/1m/"
    );
}

fn run_once(pattern: &str, ledger_text: &mut String, dataset: Option<Table>) -> (Option<Table>, usize) {
    let root_page = "<R><CommonPrefixes><Prefix>data/k/BTCUSDT/</Prefix></CommonPrefixes>\
                     <CommonPrefixes><Prefix>data/k/ETHBTC/</Prefix></CommonPrefixes>\
                     <IsTruncated>false</IsTruncated></R>";
    let symbol_page = "<R><Contents><Key>data/k/BTCUSDT/1m/BTCUSDT-1m-2024-01-01.zip</Key></Contents>\
                       <IsTruncated>false</IsTruncated></R>";
    let root = listing_root(pattern);
    let mut listing = Listing::new(&root);
    listing.accept_page(parse_listing(&root, root_page).unwrap());
    let symbols = select_partitions(&listing.into_entries(), "*USDT");
    assert_eq!(symbols, vec!["BTCUSDT"]);
    let mut queue = WorkQueue::new();
    for symbol in &symbols {
        let path = partition_prefix(pattern, symbol);
        let mut listing = Listing::new(&path);
        listing.accept_page(parse_listing(&path, symbol_page).unwrap());
        for url in archive_urls(&path, &listing.into_entries()) {
            queue = queue.with_item(symbol, url);
        }
    }
    let ledger = Ledger::load(ledger_text);
    let (pending, _) = plan_work(&queue, &ledger);
    let mut fetched = 0;
    let mut dataset = dataset;
    for (symbol, urls) in pending.groups() {
        for url in urls {
            fetched += 1;
            let bytes = zip_of("BTCUSDT-1m-2024-01-01.csv", "2,20\n1,10\n");
            let batch = extract_batch(&bytes, pattern, symbol).unwrap();
            dataset = Some(merge_into(dataset, batch).unwrap());
            ledger_text.push_str(&ledger_line(url));
        }
    }
    (dataset, fetched)
}

#[test]
fn end_to_end_second_run_skips_everything() {
    let pattern = "data/k/SYMBOL/1m/";
    let mut ledger_text = String::new();
    let (first, fetched) = run_once(pattern, &mut ledger_text, None);
    assert_eq!(fetched, 1);
    let first = first.unwrap();
    assert_eq!(
        rows_text(&first),
        vec![vec!["1", "10", pattern, "BTCUSDT"], vec!["2", "20", pattern, "BTCUSDT"]]
    );
    assert!(ledger_text.contains("https://data.binance.vision/data/k/BTCUSDT/1m/BTCUSDT-1m-2024-01-01.zip"));
    let expected = rows_text(&first);
    let (second, fetched) = run_once(pattern, &mut ledger_text, Some(first));
    assert_eq!(fetched, 0);
    assert_eq!(rows_text(&second.unwrap()), expected);
}

#[test]
fn quoted_fields_keep_their_commas() {
    let t = batch_from_csv("1,\"a,b\",\"say \"\"hi\"\"\"\n2,c,\"\"\n", "p", "s").unwrap();
    assert_eq!(t.columns().len(), 5);
    assert_eq!(
        rows_text(&t),
        vec![vec!["1", "a,b", "say \"hi\"", "p", "s"], vec!["2", "c", "", "p", "s"]]
    );
}
