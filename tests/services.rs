use printer_proxy::config::{build_printers_map, Backend, Config, Printer};
use printer_proxy::dispatch::{
    admit_method, bit_order_override, build_payload, classify_payload, invert_override, json_job_bytes, lookup_printer,
    Admission, PayloadMode, RequestMethod,
};
use printer_proxy::bitmap::BitOrder;
use printer_proxy::errors::ProxyError;
use printer_proxy::escpos::{JsonJob, PrintOp};
use printer_proxy::health::{
    ensure_printer_online, overall_status, health_key, summarize, HealthCache, HealthCacheEntry, HealthCheck, PrinterStatus, HEALTH_TTL_MS,
};
use printer_proxy::pool::{
    pool_key, same_pool_key, ConnectionManager, PoolKey, PooledConnection, PrinterPool, MAX_AGE_MS, MAX_IDLE_MS, MAX_POOLED,
};

fn tcp(id: &str, host: &str, port: u16) -> Printer {
    Printer { name: format!("Printer {}", id), id: id.to_string(), backend: Backend::Tcp9100 { host: host.to_string(), port } }
}

#[test]
fn later_printer_replaces_same_id() {
    let cfg = Config { printers: vec![tcp("a", "10.0.0.1", 9100), tcp("b", "10.0.0.2", 9100), tcp("a", "10.0.0.3", 9100)] };
    let map = build_printers_map(cfg);
    assert_eq!(map.len(), 2);
    assert_eq!(map.get("a").unwrap().backend, Backend::Tcp9100 { host: "10.0.0.3".to_string(), port: 9100 });
    assert!(map.get("c").is_none());
    assert_eq!(map.printers().len(), 2);
}

#[test]
fn lookup_unknown_printer_is_not_found() {
    let map = build_printers_map(Config { printers: vec![tcp("kitchen", "k", 9100)] });
    assert_eq!(lookup_printer(&map, "kitchen").unwrap().id, "kitchen");
    assert_eq!(lookup_printer(&map, "bar").unwrap_err(), ProxyError::NotFound("bar".to_string()));
}

#[test]
fn pool_keys_follow_backend() {
    let usb = Backend::Usb { device: "/dev/ttyUSB0".to_string(), baud_rate: None };
    assert_eq!(pool_key(&usb), PoolKey::Usb { device: "/dev/ttyUSB0".to_string(), baud: 9600 });
    let usb2 = Backend::Usb { device: "/dev/ttyUSB0".to_string(), baud_rate: Some(9600) };
    assert!(same_pool_key(&pool_key(&usb), &pool_key(&usb2)));
    let t1 = Backend::Tcp9100 { host: "h".to_string(), port: 9100 };
    let t2 = Backend::Tcp9100 { host: "h".to_string(), port: 9101 };
    assert!(!same_pool_key(&pool_key(&t1), &pool_key(&t2)));
}

#[test]
fn pool_hands_out_newest_usable_connection() {
    let mut pool: PrinterPool<u32> = PrinterPool::new(MAX_POOLED);
    pool.return_connection(PooledConnection::new(1, 0), 0);
    pool.return_connection(PooledConnection::new(2, 0), 0);
    let c = pool.get_connection(1_000).unwrap();
    assert_eq!(c.connection, 2);
    assert_eq!(c.last_used, 1_000);
    assert_eq!(pool.connections.len(), 1);
}

#[test]
fn pool_skips_idle_and_old_connections() {
    let mut pool: PrinterPool<u32> = PrinterPool::new(MAX_POOLED);
    pool.return_connection(PooledConnection::new(1, 0), 100_000);
    pool.return_connection(PooledConnection::new(2, 200_000), 200_000);
    pool.return_connection(PooledConnection::new(3, 0), 0);
    // At 260 000: 3 is idle too long, 2 is fine, 1 is fine.
    assert_eq!(pool.get_connection(260_000).unwrap().connection, 2);
    assert_eq!(pool.connections.len(), 1);
    // At 301 000: 1 is older than the maximum age.
    assert!(pool.get_connection(MAX_AGE_MS + 1_000).is_none());
    assert!(pool.connections.is_empty());
}

#[test]
fn idle_limit_is_strict() {
    let mut pool: PrinterPool<u32> = PrinterPool::new(MAX_POOLED);
    pool.return_connection(PooledConnection::new(1, 0), 0);
    assert_eq!(pool.get_connection(MAX_IDLE_MS).unwrap().connection, 1);
    pool.return_connection(PooledConnection::new(1, 0), 0);
    assert!(pool.get_connection(MAX_IDLE_MS + 1).is_none());
}

#[test]
fn pool_never_exceeds_cap() {
    let mut pool: PrinterPool<u32> = PrinterPool::new(MAX_POOLED);
    for i in 0..8 {
        pool.return_connection(PooledConnection::new(i, 0), 0);
    }
    assert_eq!(pool.connections.len(), MAX_POOLED);
    assert_eq!(pool.connections.last().unwrap().connection, 4);
}

#[test]
fn pool_cleanup_keeps_usable_in_order() {
    let mut pool: PrinterPool<u32> = PrinterPool::new(MAX_POOLED);
    pool.return_connection(PooledConnection::new(1, 0), 0);
    pool.return_connection(PooledConnection::new(2, 0), 50_000);
    pool.return_connection(PooledConnection::new(3, 0), 10_000);
    pool.return_connection(PooledConnection::new(4, 0), 55_000);
    pool.cleanup_expired(100_000);
    let left: Vec<u32> = pool.connections.iter().map(|c| c.connection).collect();
    assert_eq!(left, vec![2, 4]);
}

#[test]
fn manager_keeps_one_pool_per_backend() {
    let mut m: ConnectionManager<&str> = ConnectionManager::new();
    let a = pool_key(&Backend::Tcp9100 { host: "a".to_string(), port: 9100 });
    let b = pool_key(&Backend::Usb { device: "/dev/usb".to_string(), baud_rate: Some(19200) });
    assert!(m.get_connection(&a, 0).is_none());
    m.return_connection(&a, PooledConnection::new("conn-a", 0), 0);
    m.return_connection(&b, PooledConnection::new("conn-b", 0), 0);
    assert_eq!(m.slots.len(), 2);
    assert_eq!(m.get_connection(&b, 10).unwrap().connection, "conn-b");
    assert!(m.get_connection(&b, 10).is_none());
    m.cleanup_all_pools(MAX_IDLE_MS + 1);
    assert!(m.get_connection(&a, MAX_IDLE_MS + 1).is_none());
}

#[test]
fn health_cache_serves_until_ttl() {
    let printer = tcp("p1", "10.0.0.9", 9100);
    let mut cache = HealthCache::new(HEALTH_TTL_MS);
    assert_eq!(cache.get_or_check(&printer, 0), HealthCheck::Probe);
    cache.record(&printer, PrinterStatus::Online, 1_000);
    assert_eq!(cache.get_or_check(&printer, 1_000), HealthCheck::Cached(PrinterStatus::Online));
    assert_eq!(cache.get_or_check(&printer, 1_000 + HEALTH_TTL_MS - 1), HealthCheck::Cached(PrinterStatus::Online));
    assert_eq!(cache.get_or_check(&printer, 1_000 + HEALTH_TTL_MS), HealthCheck::Probe);
    cache.record(&printer, PrinterStatus::Offline, 40_000);
    assert_eq!(cache.len(), 1);
    assert_eq!(cache.get_or_check(&printer, 40_001), HealthCheck::Cached(PrinterStatus::Offline));
}

#[test]
fn health_cache_is_per_logical_printer() {
    let p1 = tcp("p1", "shared", 9100);
    let p2 = tcp("p2", "shared", 9100);
    let mut cache = HealthCache::new(HEALTH_TTL_MS);
    cache.record(&p1, PrinterStatus::Online, 0);
    assert_eq!(cache.get_or_check(&p2, 0), HealthCheck::Probe);
    cache.record(&p2, PrinterStatus::Offline, 0);
    cache.invalidate(&p1);
    assert_eq!(cache.get_or_check(&p1, 0), HealthCheck::Probe);
    assert_eq!(cache.get_or_check(&p2, 0), HealthCheck::Cached(PrinterStatus::Offline));
    assert_eq!(health_key(&p1).id, "p1");
}

#[test]
fn health_cleanup_drops_stale_entries() {
    let mut cache = HealthCache::new(HEALTH_TTL_MS);
    cache.record(&tcp("old", "h", 1), PrinterStatus::Online, 0);
    cache.record(&tcp("new", "h", 1), PrinterStatus::Online, 20_000);
    cache.cleanup_expired(HEALTH_TTL_MS);
    assert_eq!(cache.len(), 1);
    assert_eq!(cache.slots[0].key.id, "new");
}

#[test]
fn cache_entry_expiry() {
    let e = HealthCacheEntry::new(PrinterStatus::Online, 100);
    assert!(!e.is_expired(100 + HEALTH_TTL_MS - 1, HEALTH_TTL_MS));
    assert!(e.is_expired(100 + HEALTH_TTL_MS, HEALTH_TTL_MS));
}

#[test]
fn offline_printer_is_rejected() {
    let p = tcp("p", "h", 9100);
    assert!(ensure_printer_online(&p, PrinterStatus::Online).is_ok());
    assert!(ensure_printer_online(&p, PrinterStatus::Unknown).is_ok());
    assert_eq!(ensure_printer_online(&p, PrinterStatus::Offline), Err(ProxyError::PrinterOffline("p".to_string())));
}

#[test]
fn bulk_counts_add_up() {
    let all = [PrinterStatus::Online, PrinterStatus::Offline, PrinterStatus::Online, PrinterStatus::Unknown];
    let s = summarize(&all);
    assert_eq!((s.total, s.online, s.offline), (4, 2, 1));
    let mut online = 0;
    let mut offline = 0;
    for st in all.iter() {
        let one = summarize(std::slice::from_ref(st));
        online += one.online;
        offline += one.offline;
    }
    assert_eq!((online, offline), (s.online, s.offline));
    assert_eq!(PrinterStatus::Offline.label(), "offline");
    assert_eq!(PrinterStatus::Online.message(), "\u{1F7E2} Online");
}

#[test]
fn method_gate() {
    assert_eq!(admit_method(RequestMethod::Options).unwrap(), Admission::Preflight);
    assert_eq!(admit_method(RequestMethod::Put).unwrap(), Admission::Proceed);
    assert!(matches!(admit_method(RequestMethod::Other), Err(ProxyError::BadPayload(_))));
}

#[test]
fn content_types_are_classified() {
    assert_eq!(classify_payload("Text/XML; charset=utf-8", None), PayloadMode::Epos);
    assert_eq!(classify_payload("text/plain", Some("raw")), PayloadMode::Epos);
    assert_eq!(classify_payload("application/octet-stream", None), PayloadMode::Raw);
    assert_eq!(classify_payload("image/png", Some("RAW")), PayloadMode::Raw);
    assert_eq!(classify_payload("application/json", None), PayloadMode::Json);
    assert_eq!(classify_payload("", None), PayloadMode::Unsupported);
}

#[test]
fn overrides_prefer_query() {
    assert_eq!(invert_override(Some("1"), Some("false")), Some(true));
    assert_eq!(invert_override(None, Some("false")), Some(false));
    assert_eq!(invert_override(None, None), None);
    assert_eq!(bit_order_override(None, Some("lsb")), Some(BitOrder::LsbFirst));
    assert_eq!(bit_order_override(Some("msb"), Some("lsb")), Some(BitOrder::MsbFirst));
}

#[test]
fn raw_payload_goes_verbatim() {
    assert_eq!(build_payload(PayloadMode::Raw, &[1, 2, 3], None, None, None).unwrap(), vec![1, 2, 3]);
    assert!(matches!(build_payload(PayloadMode::Raw, &[], None, None, None), Err(ProxyError::BadPayload(_))));
    assert!(matches!(build_payload(PayloadMode::Unsupported, &[1], None, None, None), Err(ProxyError::BadPayload(_))));
}

#[test]
fn json_jobs_become_bytes() {
    let raw = JsonJob::RawBase64 { base64: "G0AK".to_string() };
    assert_eq!(json_job_bytes(&raw).unwrap(), vec![0x1B, 0x40, 0x0A]);
    let bad = JsonJob::RawBase64 { base64: "%%%".to_string() };
    assert!(matches!(json_job_bytes(&bad), Err(ProxyError::BadPayload(_))));
    let empty = JsonJob::RawBase64 { base64: String::new() };
    assert!(matches!(json_job_bytes(&empty), Err(ProxyError::BadPayload(_))));
    let ops = JsonJob::Ops { ops: vec![PrintOp::Feed { lines: 1 }] };
    assert_eq!(build_payload(PayloadMode::Json, &[], Some(ops), None, None).unwrap(), vec![0x1B, 0x64, 1]);
    let none = JsonJob::Ops { ops: vec![] };
    assert!(matches!(json_job_bytes(&none), Err(ProxyError::BadPayload(_))));
    assert!(matches!(build_payload(PayloadMode::Json, b"{", None, None, None), Err(ProxyError::BadPayload(_))));
}

#[test]
fn epos_payload_is_parsed_and_encoded() {
    let body = b"<epos-print><image width=\"8\" height=\"1\">gA==</image><cut type=\"partial\"/></epos-print>";
    let out = build_payload(PayloadMode::Epos, body, None, None, Some(BitOrder::LsbFirst)).unwrap();
    assert_eq!(out, vec![0x1B, 0x40, 0x1B, 0x61, 0, 0x1D, 0x76, 0x30, 0, 1, 0, 1, 0, 0x01, 0x1B, 0x61, 0, 0x1D, 0x56, 1]);
}

#[test]
fn unsupported_content_type_message_names_accepted_types() {
    match build_payload(PayloadMode::Unsupported, b"x", None, None, None) {
        Err(ProxyError::BadPayload(m)) => {
            for t in ["text/plain", "text/xml", "application/xml", "application/octet-stream", "application/json"] {
                assert!(m.contains(t), "{}", m);
            }
        }
        other => panic!("unexpected {:?}", other),
    }
}

#[test]
fn failed_send_leaves_pools_alone() {
    let mut m: ConnectionManager<u8> = ConnectionManager::new();
    let k = pool_key(&Backend::Tcp9100 { host: "a".to_string(), port: 9100 });
    m.complete_send(&k, PooledConnection::new(1, 0), false, 0);
    assert!(m.slots.is_empty());
    m.complete_send(&k, PooledConnection::new(2, 0), true, 5);
    let c = m.get_connection(&k, 10).unwrap();
    assert_eq!((c.connection, c.created_at, c.last_used), (2, 0, 10));
}

#[test]
fn manager_pool_keeps_entries_below_handout() {
    let mut m: ConnectionManager<u8> = ConnectionManager::new();
    let k = pool_key(&Backend::Tcp9100 { host: "a".to_string(), port: 9100 });
    m.return_connection(&k, PooledConnection::new(1, 0), 0);
    m.return_connection(&k, PooledConnection::new(2, 0), 0);
    m.return_connection(&k, PooledConnection::new(3, 0), 0);
    assert_eq!(m.get_connection(&k, 1).unwrap().connection, 3);
    let left: Vec<u8> = m.slots[0].pool.connections.iter().map(|c| c.connection).collect();
    assert_eq!(left, vec![1, 2]);
}

#[test]
fn bulk_counts_ignore_completion_order() {
    let a = [PrinterStatus::Online, PrinterStatus::Offline, PrinterStatus::Unknown, PrinterStatus::Online];
    let b = [PrinterStatus::Unknown, PrinterStatus::Online, PrinterStatus::Online, PrinterStatus::Offline];
    assert_eq!(summarize(&a), summarize(&b));
    assert_eq!(overall_status(&summarize(&a)), "degraded");
    assert_eq!(overall_status(&summarize(&[PrinterStatus::Online, PrinterStatus::Unknown])), "healthy");
}
