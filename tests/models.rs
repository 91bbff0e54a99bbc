use fin_catch_sync::requests::{
    decimal_string, DataRequest, DataType, ExchangeRateRequest, GoldPremiumRequest, GoldPriceRequest, Resolution,
    StockHistoryRequest,
};
use fin_catch_sync::session::{constant_time_eq, create_session_manager, SessionManager};
use fin_catch_sync::status::{
    create_auth_status_holder, create_sync_status_holder, SharedAuthStatus, SharedSyncStatus,
};

#[test]
fn session_token_is_hex_of_the_bytes() {
    let mut m = SessionManager::new();
    assert!(!m.has_active_session());
    let t = m.install_token(&vec![0x01, 0xab, 0xff, 0x10]);
    assert_eq!(t, "01abff10");
    assert!(m.validate_token("01abff10"));
    assert!(!m.validate_token("01abff11"));
    assert!(!m.validate_token("01ab"));
    m.clear_token();
    assert!(!m.has_active_session());
    assert!(!m.validate_token("01abff10"));
}

#[test]
fn generated_token_has_64_hex_digits() {
    let mut m = create_session_manager();
    let t = m.generate_token();
    assert_eq!(t.len(), 64);
    assert!(t.chars().all(|c| c.is_ascii_hexdigit() && !c.is_ascii_uppercase()));
    assert!(m.validate_token(&t));
    let u = m.generate_token();
    assert_ne!(t, u);
    assert!(!m.validate_token(&t));
}

#[test]
fn constant_time_comparison() {
    assert!(constant_time_eq(b"abc", b"abc"));
    assert!(!constant_time_eq(b"abc", b"abd"));
    assert!(!constant_time_eq(b"abc", b"ab"));
    assert!(constant_time_eq(b"", b""));
}

#[test]
fn status_holders_keep_latest() {
    let mut h = create_sync_status_holder();
    assert!(!h.get().configured);
    h.update(SharedSyncStatus {
        configured: true,
        authenticated: true,
        server_url: Some("https://sync.example".to_string()),
        last_sync_at: Some(42),
        pending_changes: 3,
    });
    let s = h.get();
    assert_eq!(s.pending_changes, 3);
    assert_eq!(s.server_url, Some("https://sync.example".to_string()));

    let mut a = create_auth_status_holder();
    assert!(!a.get().is_authenticated);
    let mut st = SharedAuthStatus::signed_out();
    st.is_authenticated = true;
    st.apps = Some(vec!["fin".to_string()]);
    a.update(st);
    assert_eq!(a.get().apps, Some(vec!["fin".to_string()]));
    a.clear();
    assert!(!a.get().is_authenticated);
    assert_eq!(a.get().apps, None);
}

#[test]
fn resolution_codes() {
    assert_eq!(Resolution::OneDay.as_str(), "1D");
    assert_eq!(Resolution::OneHour.as_str(), "60");
    assert_eq!(Resolution::OneMonth.as_str(), "1M");
    assert_eq!(DataType::Gold.as_str(), "gold");
}

#[test]
fn stock_request_validation() {
    let ok = StockHistoryRequest::new("VND".to_string(), Resolution::OneDay, 100, 200);
    assert_eq!(ok.validate(), Ok(()));
    let r = StockHistoryRequest::new(String::new(), Resolution::OneDay, 100, 200);
    assert_eq!(r.validate(), Err("Symbol cannot be empty".to_string()));
    let r = StockHistoryRequest::new("VND".to_string(), Resolution::OneDay, 200, 200);
    assert_eq!(r.validate(), Err("'from' timestamp must be less than 'to' timestamp".to_string()));
    let r = StockHistoryRequest::new("VND".to_string(), Resolution::OneDay, -5, 200);
    assert_eq!(r.validate(), Err("Timestamps must be positive".to_string()));
    let r = ok.with_source("vndirect".to_string());
    assert_eq!(r.source, Some("vndirect".to_string()));
}

#[test]
fn gold_request_validation() {
    assert_eq!(GoldPriceRequest::new("1".to_string(), 0, 10).validate(), Ok(()));
    assert_eq!(
        GoldPriceRequest::new(String::new(), 0, 10).validate(),
        Err("Gold price ID cannot be empty".to_string())
    );
}

#[test]
fn exchange_rate_range_limit() {
    let day = 86400;
    assert_eq!(ExchangeRateRequest::new("USD".to_string(), 0, 180 * day).validate(), Ok(()));
    assert_eq!(
        ExchangeRateRequest::new("USD".to_string(), 0, 181 * day).validate(),
        Err("Date range exceeds maximum limit of 180 days. Requested: 181 days".to_string())
    );
    assert_eq!(
        ExchangeRateRequest::new(String::new(), 0, day).validate(),
        Err("Currency code cannot be empty".to_string())
    );
    assert_eq!(decimal_string(0), "0");
    assert_eq!(decimal_string(1234567), "1234567");
}

#[test]
fn gold_premium_request_defaults_and_validation() {
    let r = GoldPremiumRequest::new(10, 10);
    assert_eq!(r.gold_price_id, Some("1".to_string()));
    assert_eq!(r.currency_code, Some("USD".to_string()));
    assert_eq!(r.validate(), Ok(()));
    let r = GoldPremiumRequest::new(20, 10).with_gold_source("sjc".to_string());
    let e = r.validate().unwrap_err();
    assert!(e.contains("from"));
    assert_eq!(r.gold_source, Some("sjc".to_string()));
    let r = GoldPremiumRequest::new(-1, 10)
        .with_currency_code("EUR".to_string())
        .with_exchange_rate_source("vietcombank".to_string())
        .with_stock_source("yahoo_finance".to_string())
        .with_gold_price_id("2".to_string());
    assert_eq!(r.validate(), Err("Timestamps must be positive".to_string()));
    assert_eq!(r.currency_code, Some("EUR".to_string()));
}

#[test]
fn data_request_dispatch() {
    let mut d = DataRequest::Gold(GoldPriceRequest::new("1".to_string(), 0, 10));
    assert_eq!(d.data_type(), DataType::Gold);
    assert_eq!(d.source(), None);
    d.set_source("sjc".to_string());
    assert_eq!(d.source(), Some("sjc"));
    assert_eq!(d.validate(), Ok(()));
    let s = DataRequest::Stock(StockHistoryRequest::new(String::new(), Resolution::OneWeek, 0, 10));
    assert_eq!(s.data_type(), DataType::Stock);
    assert!(s.validate().is_err());
}
