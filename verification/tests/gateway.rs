use orchard::keys::{FullViewingKey, Scope, SpendingKey};
use zkas_payment_gateway::{
    AddressPrefix, CreateInvoice, Gateway, GatewayError, InvoiceStatus, GatewaySnapshot,
};

fn viewing_key() -> [u8; 96] {
    let sk = SpendingKey::from_bytes([7; 32]).unwrap();
    FullViewingKey::from(&sk).to_bytes()
}

fn raw_address(index: u32) -> [u8; 43] {
    FullViewingKey::from_bytes(&viewing_key()).unwrap().address_at(index, Scope::External).to_raw_address_bytes()
}

fn gateway() -> Gateway {
    Gateway::new(&viewing_key(), AddressPrefix::Mainnet, "https://pay.zkas.info").unwrap()
}

fn request(key: Option<&str>) -> CreateInvoice {
    CreateInvoice {
        order_id: "order-42".into(),
        amount_sompi: 100,
        now: 1_000,
        expires_in: 900,
        required_blue_score: 10,
        redirect_url: None,
        metadata: Vec::new(),
        idempotency_key: key.map(str::to_owned),
    }
}

#[test]
fn idempotency_reuses_invoice_but_new_orders_get_unique_addresses() {
    let mut gateway = gateway();
    let first = gateway.create_invoice(request(Some("checkout-42"))).unwrap();
    let retry = gateway.create_invoice(request(Some("checkout-42"))).unwrap();
    let next = gateway.create_invoice(request(Some("checkout-43"))).unwrap();
    assert_eq!(first.id, retry.id);
    assert_ne!(first.address, next.address);
}

#[test]
fn partial_paid_confirmed_and_duplicate_states_are_deterministic() {
    let mut gateway = gateway();
    let invoice = gateway.create_invoice(request(None)).unwrap();
    let raw = raw_address(invoice.diversifier_index);
    let tx1 = [1; 32];
    gateway.observe_payment(raw, tx1, 40, 100, 100, 100, 1_100).unwrap();
    assert_eq!(gateway.invoice(&invoice.id).unwrap().status, InvoiceStatus::Partial);
    assert!(gateway.observe_payment(raw, tx1, 40, 100, 100, 100, 1_100).unwrap().is_none());
    gateway.observe_payment(raw, [2; 32], 60, 105, 105, 105, 1_100).unwrap();
    assert_eq!(gateway.invoice(&invoice.id).unwrap().status, InvoiceStatus::Paid);
    gateway.advance(1_100, 115);
    assert_eq!(gateway.invoice(&invoice.id).unwrap().status, InvoiceStatus::Confirmed);
}

#[test]
fn new_gateway_trims_public_url_and_rejects_bad_keys() {
    let mut gateway = Gateway::new(&viewing_key(), AddressPrefix::Mainnet, "https://pay.zkas.info//").unwrap();
    let invoice = gateway.create_invoice(request(None)).unwrap();
    assert_eq!(invoice.checkout_url, format!("https://pay.zkas.info/checkout/{}", invoice.id));
    assert!(invoice.id.starts_with("inv_"));
    assert_eq!(invoice.id.len(), 4 + 32);
    assert_eq!(invoice.diversifier_index, 1);
    assert_eq!(invoice.expires_at, 1_900);
    assert_eq!(invoice.status, InvoiceStatus::New);
    assert!(matches!(Gateway::new(&[0xff; 96], AddressPrefix::Mainnet, "x"), Err(GatewayError::InvalidViewingKey)));
}

#[test]
fn invalid_requests_are_refused() {
    let mut gateway = gateway();
    let mut zero = request(None);
    zero.amount_sompi = 0;
    assert_eq!(gateway.create_invoice(zero).err(), Some(GatewayError::InvalidAmount));
    let mut no_life = request(None);
    no_life.expires_in = 0;
    assert_eq!(gateway.create_invoice(no_life).err(), Some(GatewayError::InvalidExpiry));
    let mut overflow = request(None);
    overflow.now = u64::MAX;
    assert_eq!(gateway.create_invoice(overflow).err(), Some(GatewayError::InvalidExpiry));
    // The overflowing request still consumed a diversifier index.
    let invoice = gateway.create_invoice(request(None)).unwrap();
    assert_eq!(invoice.diversifier_index, 2);
}

#[test]
fn unknown_address_is_a_mismatch() {
    let mut gateway = gateway();
    gateway.create_invoice(request(None)).unwrap();
    assert_eq!(gateway.observe_payment([9; 43], [1; 32], 1, 1, 1, 1, 1).err(), Some(GatewayError::AddressMismatch));
}

#[test]
fn overpayment_and_late_payment() {
    let mut gateway = gateway();
    let invoice = gateway.create_invoice(request(None)).unwrap();
    let raw = raw_address(invoice.diversifier_index);
    let event = gateway.observe_payment(raw, [3; 32], 150, 10, 10, 10, 1_100).unwrap().unwrap();
    assert_eq!(event.event_type, "invoice.updated");
    assert_eq!(event.created_at, 1_000);
    assert!(event.id.starts_with("evt_"));
    assert_eq!(event.invoice.status, InvoiceStatus::Overpaid);
    assert_eq!(event.invoice.paid_sompi, 150);

    let late = gateway.create_invoice(request(None)).unwrap();
    let raw_late = raw_address(late.diversifier_index);
    let event = gateway.observe_payment(raw_late, [4; 32], 100, 10, 10, 10, 1_900).unwrap().unwrap();
    assert_eq!(event.invoice.status, InvoiceStatus::PaidLate);
}

#[test]
fn advance_expires_only_unpaid_invoices() {
    let mut gateway = gateway();
    let unpaid = gateway.create_invoice(request(Some("a"))).unwrap();
    let partial = gateway.create_invoice(request(Some("b"))).unwrap();
    gateway.observe_payment(raw_address(partial.diversifier_index), [5; 32], 10, 1, 1, 1, 1_000).unwrap();
    assert!(gateway.advance(1_899, 0).is_empty());
    let events = gateway.advance(1_900, 0);
    assert_eq!(events.len(), 1);
    assert_eq!(events[0].invoice.id, unpaid.id);
    assert_eq!(events[0].created_at, 1_900);
    assert_eq!(gateway.invoice(&unpaid.id).unwrap().status, InvoiceStatus::Expired);
    assert_eq!(gateway.invoice(&partial.id).unwrap().status, InvoiceStatus::Partial);
    assert!(gateway.advance(2_000, 0).is_empty());
}

#[test]
fn overflowing_payment_is_refused_but_recorded() {
    let mut gateway = gateway();
    let invoice = gateway.create_invoice(request(None)).unwrap();
    let raw = raw_address(invoice.diversifier_index);
    gateway.observe_payment(raw, [1; 32], 10, 1, 1, 1, 1_000).unwrap();
    assert_eq!(gateway.observe_payment(raw, [2; 32], u64::MAX, 1, 1, 1, 1_000).err(), Some(GatewayError::AmountOverflow));
    assert!(gateway.observe_payment(raw, [2; 32], 1, 1, 1, 1, 1_000).unwrap().is_none());
    assert_eq!(gateway.invoice(&invoice.id).unwrap().paid_sompi, 10);
}

#[test]
fn snapshot_keeps_invoices_and_keys() {
    let mut gateway = gateway();
    let invoice = gateway.create_invoice(request(Some("stable-key"))).unwrap();
    let snapshot = gateway.snapshot();
    assert_eq!(snapshot.version, 1);
    assert_eq!(snapshot.next_diversifier, 2);
    assert_eq!(snapshot.invoices.len(), 1);
    assert_eq!(snapshot.invoices[0].id, invoice.id);
    assert_eq!(snapshot.idempotency, vec![("stable-key".to_string(), invoice.id.clone())]);
}

#[test]
fn restore_rejects_addresses_that_do_not_parse() {
    let mut gateway = gateway();
    let mut invoice = gateway.create_invoice(request(None)).unwrap();
    invoice.address = "kaspa:not-an-address".to_string();
    let snapshot = GatewaySnapshot { version: 1, next_diversifier: 2, invoices: vec![invoice], idempotency: Vec::new() };
    assert!(matches!(
        Gateway::restore(&viewing_key(), AddressPrefix::Mainnet, "https://pay.zkas.info", snapshot),
        Err(GatewayError::AddressMismatch)
    ));
    let empty = GatewaySnapshot { version: 1, next_diversifier: 7, invoices: Vec::new(), idempotency: Vec::new() };
    let mut restored = Gateway::restore(&viewing_key(), AddressPrefix::Mainnet, "https://pay.zkas.info", empty).unwrap();
    assert_eq!(restored.create_invoice(request(None)).unwrap().diversifier_index, 7);
}

#[test]
fn error_messages_name_the_error() {
    assert_eq!(GatewayError::AddressMismatch.message(), "AddressMismatch");
    assert_eq!(GatewayError::InvalidViewingKey.message(), "InvalidViewingKey");
}

#[test]
fn restored_keys_that_lead_nowhere_are_reported() {
    let mut gateway = gateway();
    gateway.create_invoice(request(Some("kept"))).unwrap();
    assert!(gateway.key_resolves(&Some("kept".to_string())));
    assert!(gateway.key_resolves(&Some("unknown".to_string())));
    assert!(gateway.key_resolves(&None));
    let dangling = GatewaySnapshot {
        version: 1,
        next_diversifier: 3,
        invoices: Vec::new(),
        idempotency: vec![("lost".to_string(), "inv_missing".to_string())],
    };
    let restored = Gateway::restore(&viewing_key(), AddressPrefix::Mainnet, "https://pay.zkas.info", dangling).unwrap();
    assert!(!restored.key_resolves(&Some("lost".to_string())));
    assert!(restored.key_resolves(&Some("other".to_string())));
}

#[test]
fn every_invoice_gets_its_own_index_and_address() {
    let mut gateway = gateway();
    let invoices: Vec<_> = (0..4).map(|_| gateway.create_invoice(request(None)).unwrap()).collect();
    for (n, invoice) in invoices.iter().enumerate() {
        assert_eq!(invoice.diversifier_index, n as u32 + 1);
        for other in &invoices[n + 1..] {
            assert_ne!(invoice.address, other.address);
            assert_ne!(invoice.id, other.id);
        }
    }
}

#[test]
fn a_payment_seen_at_the_tip_is_not_confirmed() {
    let mut gateway = gateway();
    let invoice = gateway.create_invoice(request(None)).unwrap();
    let event = gateway.observe_payment(raw_address(invoice.diversifier_index), [8; 32], 100, 50, 50, 59, 1_000).unwrap().unwrap();
    assert_eq!(event.invoice.status, InvoiceStatus::Paid);
    let events = gateway.advance(1_000, 60);
    assert_eq!(events.len(), 1);
    assert_eq!(events[0].invoice.status, InvoiceStatus::Confirmed);
}

#[test]
fn invoice_address_is_the_kaspa_text_of_its_orchard_address() {
    let mut gateway = gateway();
    let invoice = gateway.create_invoice(request(None)).unwrap();
    let raw = raw_address(invoice.diversifier_index);
    let expected = kaspa_addresses::Address {
        prefix: kaspa_addresses::Prefix::Mainnet,
        version: kaspa_addresses::Version::PubKey,
        payload: raw.as_slice().into(),
    };
    assert_eq!(invoice.address, String::from(&expected));
}

#[test]
fn paid_late_invoices_stay_paid_late() {
    let mut gateway = gateway();
    let invoice = gateway.create_invoice(request(None)).unwrap();
    let raw = raw_address(invoice.diversifier_index);
    let event = gateway.observe_payment(raw, [6; 32], 100, 10, 10, 10, 1_900).unwrap().unwrap();
    assert_eq!(event.invoice.status, InvoiceStatus::PaidLate);
    assert!(gateway.advance(2_000, 1_000).is_empty());
    assert_eq!(gateway.invoice(&invoice.id).unwrap().status, InvoiceStatus::PaidLate);
}

#[test]
fn refusals_come_before_the_idempotency_lookup() {
    let dangling = GatewaySnapshot {
        version: 1,
        next_diversifier: 3,
        invoices: Vec::new(),
        idempotency: vec![("lost".to_string(), "inv_missing".to_string())],
    };
    let mut restored =
        Gateway::restore(&viewing_key(), AddressPrefix::Mainnet, "https://pay.zkas.info", dangling).unwrap();
    let mut zero = request(Some("lost"));
    zero.amount_sompi = 0;
    assert_eq!(restored.create_invoice(zero).err(), Some(GatewayError::InvalidAmount));
    let mut no_life = request(Some("lost"));
    no_life.expires_in = 0;
    assert_eq!(restored.create_invoice(no_life).err(), Some(GatewayError::InvalidExpiry));
    assert_eq!(restored.snapshot().next_diversifier, 3);
}
