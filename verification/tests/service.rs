use orchard::keys::{FullViewingKey, SpendingKey};
use qrcode::render::svg;
use qrcode::QrCode;
use zkas_payment_gateway::checkout::checkout_page;
use zkas_payment_gateway::service::{
    create_invoice_from_api, key_lookup_reached, observation_of, reconcile, HistoryRow,
};
use zkas_payment_gateway::{AddressPrefix, Gateway, GatewaySnapshot, InvoiceStatus};

fn viewing_key() -> [u8; 96] {
    let sk = SpendingKey::from_bytes([7; 32]).unwrap();
    FullViewingKey::from(&sk).to_bytes()
}

fn gateway() -> Gateway {
    Gateway::new(&viewing_key(), AddressPrefix::Mainnet, "https://pay.zkas.info").unwrap()
}

fn row(kind: Option<&str>, recipient: Option<&str>, txid: Option<&str>) -> HistoryRow {
    HistoryRow {
        kind: kind.map(str::to_owned),
        recipient: recipient.map(str::to_owned),
        txid: txid.map(str::to_owned),
        amount_sompi_exact: Some("100".to_string()),
        amount_sompi: None,
        daa_score: Some(5),
    }
}

#[test]
fn api_request_defaults_and_amount_text() {
    let mut gateway = gateway();
    let invoice = create_invoice_from_api(
        &mut gateway,
        "order-1".to_string(),
        "150000000",
        None,
        None,
        Some("https://shop/done".to_string()),
        vec![("sku".to_string(), "42".to_string())],
        None,
        1_000,
    )
    .ok()
    .unwrap();
    assert_eq!(invoice.amount_sompi, 150_000_000);
    assert_eq!(invoice.expires_at, 1_900);
    assert_eq!(invoice.required_blue_score, 10);
    assert_eq!(invoice.redirect_url.as_deref(), Some("https://shop/done"));
    assert_eq!(invoice.metadata, vec![("sku".to_string(), "42".to_string())]);
    assert_eq!(invoice.status, InvoiceStatus::New);

    let explicit =
        create_invoice_from_api(&mut gateway, "order-2".to_string(), "+7", Some(60), Some(3), None, Vec::new(), None, 10)
            .ok()
            .unwrap();
    assert_eq!(explicit.amount_sompi, 7);
    assert_eq!(explicit.expires_at, 70);
    assert_eq!(explicit.required_blue_score, 3);
}

#[test]
fn api_request_refusals() {
    let mut gateway = gateway();
    for bad in ["", "-1", "1.5", "18446744073709551616", " 1"] {
        let error = create_invoice_from_api(&mut gateway, "o".to_string(), bad, None, None, None, Vec::new(), None, 1)
            .err()
            .unwrap();
        assert_eq!(error.status, 400);
        assert_eq!(error.message, "amountSompi must be an unsigned decimal u64 string");
    }
    let error = create_invoice_from_api(&mut gateway, "o".to_string(), "0", None, None, None, Vec::new(), None, 1)
        .err()
        .unwrap();
    assert_eq!(error.status, 400);
    assert_eq!(error.message, "InvalidAmount");
    let error = create_invoice_from_api(&mut gateway, "o".to_string(), "5", Some(0), None, None, Vec::new(), None, 1)
        .err()
        .unwrap();
    assert_eq!(error.message, "InvalidExpiry");
}

#[test]
fn api_retry_with_idempotency_key_returns_first_invoice() {
    let mut gateway = gateway();
    let first = create_invoice_from_api(
        &mut gateway,
        "o".to_string(),
        "5",
        None,
        None,
        None,
        Vec::new(),
        Some("k".to_string()),
        1,
    )
    .ok()
    .unwrap();
    let again = create_invoice_from_api(
        &mut gateway,
        "o".to_string(),
        "5",
        None,
        None,
        None,
        Vec::new(),
        Some("k".to_string()),
        1,
    )
    .ok()
    .unwrap();
    assert_eq!(first.id, again.id);
    assert_eq!(first.address, again.address);
}

#[test]
fn checkout_page_shows_amount_address_and_qr() {
    let mut gateway = gateway();
    let invoice = create_invoice_from_api(&mut gateway, "o".to_string(), "150000000", None, None, None, Vec::new(), None, 1)
        .ok()
        .unwrap();
    let page = checkout_page(&invoice);
    let uri = format!("{}?amount=1.5", invoice.address);
    let qr = QrCode::new(uri.as_bytes()).unwrap().render::<svg::Color>().min_dimensions(220, 220).build();
    assert!(page.starts_with("<!doctype html>"));
    assert!(page.contains(&format!("<div>{qr}</div>")));
    assert!(page.contains("Send exactly <strong>1.5 ZKAS</strong>"));
    assert!(page.contains(&format!("<code id=\"address\">{}</code>", invoice.address)));
    assert!(page.contains(&format!("const id={:?};", invoice.id)));
    assert!(page.ends_with("</script></body></html>"));
}

#[test]
fn history_rows_that_are_not_received_notes_are_skipped() {
    let txid = "11".repeat(32);
    assert!(observation_of(&row(Some("sent"), Some("kaspa:x"), Some(&txid))).is_none());
    assert!(observation_of(&row(None, Some("kaspa:x"), Some(&txid))).is_none());
    assert!(observation_of(&row(Some("received"), None, Some(&txid))).is_none());
    assert!(observation_of(&row(Some("received"), Some("not an address"), Some(&txid))).is_none());
    assert!(observation_of(&row(Some("received"), Some("kaspa:x"), None)).is_none());
}

#[test]
fn reconcile_expires_unpaid_invoices_after_the_rows() {
    let mut gateway = gateway();
    let invoice =
        create_invoice_from_api(&mut gateway, "o".to_string(), "5", Some(1), None, None, Vec::new(), None, 1).ok().unwrap();
    let rows = vec![row(Some("sent"), None, None), row(Some("received"), Some("bogus"), Some("zz"))];
    let events = reconcile(&mut gateway, &rows, 100);
    assert_eq!(events.len(), 1);
    assert_eq!(events[0].event_type, "invoice.updated");
    assert_eq!(events[0].invoice.id, invoice.id);
    assert_eq!(events[0].invoice.status, InvoiceStatus::Expired);
    assert_eq!(gateway.invoice(&invoice.id).unwrap().status, InvoiceStatus::Expired);
    assert!(reconcile(&mut gateway, &rows, 100).is_empty());
}

#[test]
fn key_lookup_is_reached_only_by_acceptable_requests() {
    assert!(key_lookup_reached("5", None));
    assert!(key_lookup_reached("+5", Some(1)));
    assert!(!key_lookup_reached("0", None));
    assert!(!key_lookup_reached("x", None));
    assert!(!key_lookup_reached("5", Some(0)));
}

#[test]
fn bad_amount_is_refused_before_a_dangling_key_matters() {
    let dangling = GatewaySnapshot {
        version: 1,
        next_diversifier: 1,
        invoices: Vec::new(),
        idempotency: vec![("lost".to_string(), "inv_missing".to_string())],
    };
    let mut gateway = Gateway::restore(&viewing_key(), AddressPrefix::Mainnet, "https://pay.zkas.info", dangling).unwrap();
    let error = create_invoice_from_api(
        &mut gateway,
        "o".to_string(),
        "abc",
        None,
        None,
        None,
        Vec::new(),
        Some("lost".to_string()),
        1,
    )
    .err()
    .unwrap();
    assert_eq!(error.status, 400);
    assert_eq!(error.message, "amountSompi must be an unsigned decimal u64 string");
}
