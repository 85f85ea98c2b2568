//! The gateway: invoice creation, payment reconciliation, expiry and
//! confirmation, and snapshots that survive a restart.

use crate::address::{
    decode_address, diversified_address, encode_address, kaspa_address_payload, kaspa_address_text,
    orchard_raw_address, orchard_viewing_key_valid, viewing_key_is_valid, AddressPrefix,
};
use crate::invoice::{
    clone_metadata, event, metadata_view, opt_view,
    payment_status, reports, status_of_payments, CreateInvoice, CreateInvoiceView, Invoice,
    InvoiceStatus, InvoiceView, Payment, WebhookEvent,
};
use crate::keyed::{
    distinct_keys, keyed_map, lemma_distinct_push, lemma_distinct_update, lemma_keyed_distinct_value,
    lemma_keyed_dom, lemma_keyed_map_values, lemma_keyed_push, lemma_keyed_update,
};
use crate::text::{trim_end_char, trim_trailing};
use crate::webhook::is_random_id;
use vstd::prelude::*;

verus! {

/// Why a gateway operation was refused.
#[derive(Clone, Copy, Debug, PartialEq, Eq, Structural)]
pub enum GatewayError {
    InvalidViewingKey,
    InvalidAmount,
    InvalidExpiry,
    DiversifierExhausted,
    UnknownInvoice,
    AddressMismatch,
    AmountOverflow,
}

impl GatewayError {
    /// The error's name, which is how it is displayed.
    pub open spec fn name(self) -> Seq<char> {
        match self {
            GatewayError::InvalidViewingKey => "InvalidViewingKey"@,
            GatewayError::InvalidAmount => "InvalidAmount"@,
            GatewayError::InvalidExpiry => "InvalidExpiry"@,
            GatewayError::DiversifierExhausted => "DiversifierExhausted"@,
            GatewayError::UnknownInvoice => "UnknownInvoice"@,
            GatewayError::AddressMismatch => "AddressMismatch"@,
            GatewayError::AmountOverflow => "AmountOverflow"@,
        }
    }

    /// The text the error displays as.
    pub fn message(&self) -> (r: String)
        ensures
            r@ == self.name(),
    {
        match self {
            GatewayError::InvalidViewingKey => String::from_str("InvalidViewingKey"),
            GatewayError::InvalidAmount => String::from_str("InvalidAmount"),
            GatewayError::InvalidExpiry => String::from_str("InvalidExpiry"),
            GatewayError::DiversifierExhausted => String::from_str("DiversifierExhausted"),
            GatewayError::UnknownInvoice => String::from_str("UnknownInvoice"),
            GatewayError::AddressMismatch => String::from_str("AddressMismatch"),
            GatewayError::AmountOverflow => String::from_str("AmountOverflow"),
        }
    }
}

/// The persisted state of a gateway.
pub struct GatewaySnapshot {
    pub version: u16,
    pub next_diversifier: u32,
    pub invoices: Vec<Invoice>,
    pub idempotency: Vec<(String, String)>,
}

/// The mathematical value of a [`GatewaySnapshot`].
pub struct GatewaySnapshotView {
    pub version: u16,
    pub next_diversifier: u32,
    pub invoices: Seq<InvoiceView>,
    pub idempotency: Seq<(Seq<char>, Seq<char>)>,
}

impl View for GatewaySnapshot {
    type V = GatewaySnapshotView;

    open spec fn view(&self) -> GatewaySnapshotView {
        GatewaySnapshotView {
            version: self.version,
            next_diversifier: self.next_diversifier,
            invoices: self.invoices@.map_values(|inv: Invoice| inv@),
            idempotency: metadata_view(self.idempotency@),
        }
    }
}

/// The pairs (id, invoice) of a sequence of invoice values.
pub open spec fn id_entries(invoices: Seq<InvoiceView>) -> Seq<(Seq<char>, InvoiceView)> {
    invoices.map_values(|inv: InvoiceView| (inv.id, inv))
}

/// The pairs (raw address, id) that parsing each invoice's address gives.
pub open spec fn parsed_address_entries(invoices: Seq<InvoiceView>) -> Seq<(Seq<u8>, Seq<char>)> {
    invoices.map_values(|inv: InvoiceView| (kaspa_address_payload(inv.address)->0, inv.id))
}

/// The (transaction, invoice) pairs of the payments recorded in `inv`.
pub open spec fn payment_pairs(inv: InvoiceView) -> Seq<(Seq<u8>, Seq<char>)> {
    inv.payments.map_values(|p: Payment| (p.transaction_id@, inv.id))
}

/// The (transaction, invoice) pairs of all payments of `invoices`, in order.
pub open spec fn all_payment_pairs(invoices: Seq<InvoiceView>) -> Seq<(Seq<u8>, Seq<char>)>
    decreases invoices.len(),
{
    if invoices.len() == 0 {
        Seq::empty()
    } else {
        all_payment_pairs(invoices.drop_last()) + payment_pairs(invoices.last())
    }
}

/// Whether the address of `inv` parses to a 43-byte payload.
pub open spec fn address_parses(inv: InvoiceView) -> bool {
    kaspa_address_payload(inv.address) matches Some(p) && p.len() == 43
}

/// What restoring from a snapshot gives: refused for an invalid viewing key,
/// or when some invoice address does not parse to a 43-byte payload;
/// otherwise the snapshot's invoices (a later one replacing an earlier one
/// with the same id), its idempotency keys and diversifier counter, an
/// address index rebuilt from the parsed addresses, and every recorded
/// payment counted as seen.
pub open spec fn restore_outcome(
    viewing_key: Seq<u8>,
    prefix: AddressPrefix,
    public_url: Seq<char>,
    s: GatewaySnapshotView,
) -> Result<GatewayView, GatewayError> {
    if !orchard_viewing_key_valid(viewing_key) {
        Err(GatewayError::InvalidViewingKey)
    } else if exists|i: int| 0 <= i < s.invoices.len() && !address_parses(#[trigger] s.invoices[i]) {
        Err(GatewayError::AddressMismatch)
    } else {
        Ok(
            GatewayView {
                viewing_key,
                prefix,
                public_url: trim_trailing(public_url, '/'),
                next_diversifier: s.next_diversifier,
                invoices: keyed_map(id_entries(s.invoices)),
                by_address: keyed_map(parsed_address_entries(s.invoices)),
                idempotency: keyed_map(s.idempotency),
                seen: all_payment_pairs(s.invoices).to_set(),
            },
        )
    }
}

/// The pairs (id, invoice) of a list of invoices.
pub open spec fn invoice_entries(s: Seq<Invoice>) -> Seq<(Seq<char>, InvoiceView)> {
    s.map_values(|inv: Invoice| (inv@.id, inv@))
}

/// The pairs (raw address, invoice id) of the address index.
pub open spec fn address_entries(s: Seq<([u8; 43], String)>) -> Seq<(Seq<u8>, Seq<char>)> {
    s.map_values(|p: ([u8; 43], String)| (p.0@, p.1@))
}

/// The pairs (transaction id, invoice id) of the payments already counted.
pub open spec fn seen_entries(s: Seq<([u8; 32], String)>) -> Seq<(Seq<u8>, Seq<char>)> {
    s.map_values(|p: ([u8; 32], String)| (p.0@, p.1@))
}

/// The state of a gateway.
pub struct GatewayView {
    /// The merchant's full viewing key.
    pub viewing_key: Seq<u8>,
    /// The network addresses are written for.
    pub prefix: AddressPrefix,
    /// The base of checkout links, without trailing slashes.
    pub public_url: Seq<char>,
    /// The diversifier index the next new invoice receives.
    pub next_diversifier: u32,
    /// Invoices by id.
    pub invoices: Map<Seq<char>, InvoiceView>,
    /// Invoice ids by raw payment address.
    pub by_address: Map<Seq<u8>, Seq<char>>,
    /// Invoice ids by idempotency key.
    pub idempotency: Map<Seq<char>, Seq<char>>,
    /// The (transaction, invoice) pairs already counted.
    pub seen: Set<(Seq<u8>, Seq<char>)>,
}

impl GatewayView {
    /// Every address index entry points at an existing invoice.
    pub open spec fn consistent(self) -> bool {
        forall|a: Seq<u8>| #[trigger]
            self.by_address.contains_key(a) ==> self.invoices.contains_key(self.by_address[a])
    }

    /// Whether `key`, when the gateway knows it, leads to an existing
    /// invoice. A restored snapshot may hold keys that lead nowhere.
    pub open spec fn key_resolves(self, key: Option<Seq<char>>) -> bool {
        match key {
            Some(k) => self.idempotency.contains_key(k) ==> self.invoices.contains_key(
                self.idempotency[k],
            ),
            None => true,
        }
    }
}

/// A merchant payment gateway.
pub struct Gateway {
    viewing_key: [u8; 96],
    prefix: AddressPrefix,
    public_url: String,
    next_diversifier: u32,
    invoices: Vec<Invoice>,
    by_address: Vec<([u8; 43], String)>,
    idempotency: Vec<(String, String)>,
    seen_transactions: Vec<([u8; 32], String)>,
}

impl View for Gateway {
    type V = GatewayView;

    closed spec fn view(&self) -> GatewayView {
        GatewayView {
            viewing_key: self.viewing_key@,
            prefix: self.prefix,
            public_url: self.public_url@,
            next_diversifier: self.next_diversifier,
            invoices: keyed_map(invoice_entries(self.invoices@)),
            by_address: keyed_map(address_entries(self.by_address@)),
            idempotency: keyed_map(metadata_view(self.idempotency@)),
            seen: seen_entries(self.seen_transactions@).to_set(),
        }
    }
}

/// Whether two byte strings are equal.
fn same_bytes(a: &[u8], b: &[u8]) -> (r: bool)
    ensures
        r == (a@ == b@),
{
    if a.len() != b.len() {
        return false;
    }
    let mut i: usize = 0;
    while i < a.len()
        invariant
            a@.len() == b@.len(),
            i <= a@.len(),
            forall|j: int| 0 <= j < i ==> a@[j] == b@[j],
        decreases a@.len() - i,
    {
        if a[i] != b[i] {
            return false;
        }
        i = i + 1;
    }
    assert(a@ =~= b@);
    true
}

fn find_invoice(invoices: &Vec<Invoice>, id: &String) -> (r: Option<usize>)
    ensures
        match r {
            Some(i) => i < invoices@.len() && invoices@[i as int]@.id == id@,
            None => forall|i: int| 0 <= i < invoices@.len() ==> invoices@[i]@.id != id@,
        },
{
    let mut i: usize = 0;
    while i < invoices.len()
        invariant
            i <= invoices@.len(),
            forall|j: int| 0 <= j < i ==> invoices@[j]@.id != id@,
        decreases invoices@.len() - i,
    {
        if invoices[i].id == *id {
            return Some(i);
        }
        i = i + 1;
    }
    None
}

fn find_text(entries: &Vec<(String, String)>, key: &String) -> (r: Option<usize>)
    ensures
        match r {
            Some(i) => i < entries@.len() && entries@[i as int].0@ == key@,
            None => forall|i: int| 0 <= i < entries@.len() ==> entries@[i].0@ != key@,
        },
{
    let mut i: usize = 0;
    while i < entries.len()
        invariant
            i <= entries@.len(),
            forall|j: int| 0 <= j < i ==> entries@[j].0@ != key@,
        decreases entries@.len() - i,
    {
        if entries[i].0 == *key {
            return Some(i);
        }
        i = i + 1;
    }
    None
}

fn find_address(entries: &Vec<([u8; 43], String)>, raw: &[u8; 43]) -> (r: Option<usize>)
    ensures
        match r {
            Some(i) => i < entries@.len() && entries@[i as int].0@ == raw@,
            None => forall|i: int| 0 <= i < entries@.len() ==> entries@[i].0@ != raw@,
        },
{
    let mut i: usize = 0;
    while i < entries.len()
        invariant
            i <= entries@.len(),
            forall|j: int| 0 <= j < i ==> entries@[j].0@ != raw@,
        decreases entries@.len() - i,
    {
        if same_bytes(entries[i].0.as_slice(), raw.as_slice()) {
            return Some(i);
        }
        i = i + 1;
    }
    None
}

fn contains_seen(entries: &Vec<([u8; 32], String)>, tx: &[u8; 32], id: &String) -> (r: bool)
    ensures
        r == seen_entries(entries@).to_set().contains((tx@, id@)),
{
    let ghost target = (tx@, id@);
    let mut i: usize = 0;
    while i < entries.len()
        invariant
            i <= entries@.len(),
            target == (tx@, id@),
            forall|j: int| 0 <= j < i ==> seen_entries(entries@)[j] != target,
        decreases entries@.len() - i,
    {
        if same_bytes(entries[i].0.as_slice(), tx.as_slice()) && entries[i].1 == *id {
            assert(seen_entries(entries@)[i as int] == target);
            return true;
        }
        i = i + 1;
    }
    assert(!seen_entries(entries@).contains(target));
    false
}

fn upsert_address(v: &mut Vec<([u8; 43], String)>, raw: [u8; 43], id: String)
    requires
        distinct_keys(address_entries(old(v)@)),
    ensures
        distinct_keys(address_entries(final(v)@)),
        keyed_map(address_entries(final(v)@)) == keyed_map(address_entries(old(v)@)).insert(
            raw@,
            id@,
        ),
{
    let ghost old_entries = address_entries(v@);
    match find_address(v, &raw) {
        Some(i) => {
            proof {
                lemma_keyed_update(old_entries, i as int, id@);
                lemma_distinct_update(old_entries, i as int, id@);
            }
            v[i] = (raw, id);
            assert(address_entries(v@) =~= old_entries.update(i as int, (old_entries[i as int].0, id@)));
        },
        None => {
            proof {
                lemma_keyed_push(old_entries, raw@, id@);
                lemma_distinct_push(old_entries, raw@, id@);
            }
            v.push((raw, id));
            assert(address_entries(v@) =~= old_entries.push((raw@, id@)));
        },
    }
}

fn upsert_text(v: &mut Vec<(String, String)>, key: String, value: String)
    requires
        distinct_keys(metadata_view(old(v)@)),
    ensures
        distinct_keys(metadata_view(final(v)@)),
        keyed_map(metadata_view(final(v)@)) == keyed_map(metadata_view(old(v)@)).insert(
            key@,
            value@,
        ),
{
    let ghost old_entries = metadata_view(v@);
    match find_text(v, &key) {
        Some(i) => {
            proof {
                lemma_keyed_update(old_entries, i as int, value@);
                lemma_distinct_update(old_entries, i as int, value@);
            }
            v[i] = (key, value);
            assert(metadata_view(v@) =~= old_entries.update(i as int, (old_entries[i as int].0, value@)));
        },
        None => {
            proof {
                lemma_keyed_push(old_entries, key@, value@);
                lemma_distinct_push(old_entries, key@, value@);
            }
            v.push((key, value));
            assert(metadata_view(v@) =~= old_entries.push((key@, value@)));
        },
    }
}

fn upsert_invoice(v: &mut Vec<Invoice>, invoice: Invoice)
    requires
        distinct_keys(invoice_entries(old(v)@)),
    ensures
        distinct_keys(invoice_entries(final(v)@)),
        keyed_map(invoice_entries(final(v)@)) == keyed_map(invoice_entries(old(v)@)).insert(
            invoice@.id,
            invoice@,
        ),
{
    let ghost old_entries = invoice_entries(v@);
    let ghost inv = invoice@;
    match find_invoice(v, &invoice.id) {
        Some(i) => {
            proof {
                lemma_keyed_update(old_entries, i as int, inv);
                lemma_distinct_update(old_entries, i as int, inv);
            }
            v[i] = invoice;
            assert(invoice_entries(v@) =~= old_entries.update(i as int, (old_entries[i as int].0, inv)));
        },
        None => {
            proof {
                lemma_keyed_push(old_entries, inv.id, inv);
                lemma_distinct_push(old_entries, inv.id, inv);
            }
            v.push(invoice);
            assert(invoice_entries(v@) =~= old_entries.push((inv.id, inv)));
        },
    }
}

/// The checkout link of invoice `id`.
pub open spec fn checkout_link(public_url: Seq<char>, id: Seq<char>) -> Seq<char> {
    public_url + "/checkout/"@ + id
}

/// A result carrying an invoice, by its view.
pub open spec fn invoice_result(r: Result<Invoice, GatewayError>) -> Result<InvoiceView, GatewayError> {
    match r {
        Ok(inv) => Ok(inv@),
        Err(e) => Err(e),
    }
}

/// The invoice that a new request creates under id `id`, at the gateway's
/// next diversifier index.
pub open spec fn new_invoice(g: GatewayView, request: CreateInvoiceView, id: Seq<char>) -> InvoiceView {
    let raw = orchard_raw_address(g.viewing_key, g.next_diversifier);
    InvoiceView {
        id: id,
        order_id: request.order_id,
        address: kaspa_address_text(g.prefix, raw),
        diversifier_index: g.next_diversifier,
        amount_sompi: request.amount_sompi,
        paid_sompi: 0,
        status: InvoiceStatus::New,
        created_at: request.now,
        expires_at: (request.now + request.expires_in) as u64,
        required_blue_score: request.required_blue_score,
        checkout_url: checkout_link(g.public_url, id),
        redirect_url: request.redirect_url,
        metadata: request.metadata,
        payments: Seq::empty(),
    }
}

/// What creating an invoice does, given the id it would receive: a zero
/// amount or a zero lifetime is refused; a known idempotency key gives back
/// the invoice created under it and changes nothing; otherwise the next
/// diversifier index is taken (refused when none is left), the expiry is
/// computed (refused on overflow, after the index was taken), and the new
/// invoice is recorded under its id, its raw address and its idempotency key.
pub open spec fn create_outcome(g: GatewayView, request: CreateInvoiceView, id: Seq<char>) -> (
    GatewayView,
    Result<InvoiceView, GatewayError>,
) {
    if request.amount_sompi == 0 {
        (g, Err(GatewayError::InvalidAmount))
    } else if request.expires_in == 0 {
        (g, Err(GatewayError::InvalidExpiry))
    } else if request.idempotency_key matches Some(key) && g.idempotency.contains_key(key) {
        (g, Ok(g.invoices[g.idempotency[request.idempotency_key->0]]))
    } else if g.next_diversifier == u32::MAX {
        (g, Err(GatewayError::DiversifierExhausted))
    } else {
        let taken = GatewayView { next_diversifier: (g.next_diversifier + 1) as u32, ..g };
        if request.now + request.expires_in > u64::MAX {
            (taken, Err(GatewayError::InvalidExpiry))
        } else {
            let invoice = new_invoice(g, request, id);
            let raw = orchard_raw_address(g.viewing_key, g.next_diversifier);
            let idempotency = match request.idempotency_key {
                Some(key) => g.idempotency.insert(key, id),
                None => g.idempotency,
            };
            (
                GatewayView {
                    invoices: g.invoices.insert(id, invoice),
                    by_address: g.by_address.insert(raw, id),
                    idempotency: idempotency,
                    ..taken
                },
                Ok(invoice),
            )
        }
    }
}

/// The invoice after crediting a payment of `amount_sompi` in transaction
/// `transaction_id`: the amount is added and the payment recorded; the status
/// becomes paid-late when the invoice had expired or the payment was seen at
/// or after the expiry, and otherwise follows the amounts and confirmations.
pub open spec fn credited_invoice(
    inv: InvoiceView,
    transaction_id: [u8; 32],
    amount_sompi: u64,
    blue_score: u64,
    daa_score: u64,
    sink_blue_score: u64,
    observed_at: u64,
) -> InvoiceView {
    let credited = InvoiceView {
        paid_sompi: (inv.paid_sompi + amount_sompi) as u64,
        payments: inv.payments.push(
            Payment { transaction_id, amount_sompi, blue_score, daa_score },
        ),
        ..inv
    };
    InvoiceView {
        status: if inv.status == InvoiceStatus::Expired || observed_at >= inv.expires_at {
            InvoiceStatus::PaidLate
        } else {
            status_of_payments(credited, sink_blue_score)
        },
        ..credited
    }
}

/// What observing a received note does: an unknown recipient address is
/// refused; a (transaction, invoice) pair seen before is ignored; otherwise
/// the pair is recorded, the amount credited to the invoice (refused on
/// overflow, after the pair was recorded), and the updated invoice is
/// reported when its status changed.
pub open spec fn observe_outcome(
    g: GatewayView,
    recipient: [u8; 43],
    transaction_id: [u8; 32],
    amount_sompi: u64,
    blue_score: u64,
    daa_score: u64,
    sink_blue_score: u64,
    observed_at: u64,
) -> (GatewayView, Result<Option<InvoiceView>, GatewayError>) {
    if !g.by_address.contains_key(recipient@) {
        (g, Err(GatewayError::AddressMismatch))
    } else {
        let id = g.by_address[recipient@];
        if g.seen.contains((transaction_id@, id)) {
            (g, Ok(None))
        } else {
            let recorded = GatewayView { seen: g.seen.insert((transaction_id@, id)), ..g };
            if !g.invoices.contains_key(id) {
                (recorded, Err(GatewayError::UnknownInvoice))
            } else if g.invoices[id].paid_sompi + amount_sompi > u64::MAX {
                (recorded, Err(GatewayError::AmountOverflow))
            } else {
                let updated = credited_invoice(
                    g.invoices[id],
                    transaction_id,
                    amount_sompi,
                    blue_score,
                    daa_score,
                    sink_blue_score,
                    observed_at,
                );
                (
                    GatewayView { invoices: g.invoices.insert(id, updated), ..recorded },
                    Ok(
                        if updated.status != g.invoices[id].status {
                            Some(updated)
                        } else {
                            None
                        },
                    ),
                )
            }
        }
    }
}

/// Whether an operation's result matches the expected one, an event standing
/// for the invoice it reports (stamped with the invoice's creation time).
pub open spec fn event_result_matches(
    r: Result<Option<WebhookEvent>, GatewayError>,
    expected: Result<Option<InvoiceView>, GatewayError>,
) -> bool {
    match (r, expected) {
        (Ok(None), Ok(None)) => true,
        (Ok(Some(e)), Ok(Some(inv))) => reports(e, inv, inv.created_at),
        (Err(a), Err(b)) => a == b,
        _ => false,
    }
}

/// The invoice after a periodic check at time `now` with tip
/// `sink_blue_score`: a paid-late invoice stays paid late (its payment
/// arrived after expiry, whatever its depth); otherwise an unpaid invoice
/// past its expiry expires, an invoice paid at least in full takes the
/// status its amounts and confirmations give, and any other invoice is left
/// as it is.
pub open spec fn advanced_invoice(inv: InvoiceView, now: u64, sink_blue_score: u64) -> InvoiceView {
    if inv.status == InvoiceStatus::PaidLate {
        inv
    } else if inv.paid_sompi == 0 && now >= inv.expires_at {
        InvoiceView { status: InvoiceStatus::Expired, ..inv }
    } else if inv.paid_sompi >= inv.amount_sompi {
        InvoiceView { status: status_of_payments(inv, sink_blue_score), ..inv }
    } else {
        inv
    }
}

/// Whether the periodic check changes the status of `inv`.
pub open spec fn advance_changes(inv: InvoiceView, now: u64, sink_blue_score: u64) -> bool {
    advanced_invoice(inv, now, sink_blue_score).status != inv.status
}

/// The gateway after a periodic check: every invoice advanced, nothing else changed.
pub open spec fn advance_outcome(g: GatewayView, now: u64, sink_blue_score: u64) -> GatewayView {
    GatewayView {
        invoices: g.invoices.map_values(|inv: InvoiceView| advanced_invoice(inv, now, sink_blue_score)),
        ..g
    }
}

/// Whether `events` reports, once each and stamped `now`, exactly the
/// invoices of `g` whose status the periodic check changes.
pub open spec fn advance_events(g: GatewayView, now: u64, sink_blue_score: u64, events: Seq<WebhookEvent>) -> bool {
    &&& forall|i: int|
        #![trigger events[i]]
        0 <= i < events.len() ==> {
            let id = events[i].invoice@.id;
            &&& g.invoices.contains_key(id)
            &&& advance_changes(g.invoices[id], now, sink_blue_score)
            &&& reports(events[i], advanced_invoice(g.invoices[id], now, sink_blue_score), now)
        }
    &&& forall|id: Seq<char>|
        g.invoices.contains_key(id) && advance_changes(#[trigger] g.invoices[id], now, sink_blue_score)
            ==> exists|i: int| 0 <= i < events.len() && (#[trigger] events[i]).invoice@.id == id
    &&& forall|i: int, j: int|
        0 <= i < events.len() && 0 <= j < events.len() && i != j ==> (#[trigger] events[i]).invoice@.id
            != (#[trigger] events[j]).invoice@.id
}

/// Whether every invoice of `g` has a diversifier index below the next one
/// to be issued, no two invoices share an index, and each invoice's address
/// is the Kaspa text of the Orchard address of its own index.
pub open spec fn indices_apart(g: GatewayView) -> bool {
    &&& forall|id: Seq<char>| #[trigger]
        g.invoices.contains_key(id) ==> g.invoices[id].diversifier_index < g.next_diversifier
            && g.invoices[id].address == kaspa_address_text(
            g.prefix,
            orchard_raw_address(g.viewing_key, g.invoices[id].diversifier_index),
        )
    &&& forall|a: Seq<char>, b: Seq<char>|
        g.invoices.contains_key(a) && g.invoices.contains_key(b) && a != b ==> (#[trigger] g.invoices[a]).diversifier_index
            != (#[trigger] g.invoices[b]).diversifier_index
}

/// Whether every invoice of `g` sits on a diversifier index of its own with
/// the address that index derives (see [`indices_apart`]), and no two
/// invoices carry the same address (see [`addresses_apart`]).
#[verifier::opaque]
pub open spec fn invoices_apart(g: GatewayView) -> bool {
    indices_apart(g) && addresses_apart(g)
}

/// Whether no two invoices of `g` carry the same address.
pub open spec fn addresses_apart(g: GatewayView) -> bool {
    forall|a: Seq<char>, b: Seq<char>|
        g.invoices.contains_key(a) && g.invoices.contains_key(b) && a != b ==> (#[trigger] g.invoices[a]).address
            != (#[trigger] g.invoices[b]).address
}

/// Observing a note keeps invoices apart (see [`invoices_apart`]).
proof fn lemma_observation_keeps_apart(
    g: GatewayView,
    recipient: [u8; 43],
    transaction_id: [u8; 32],
    amount_sompi: u64,
    blue_score: u64,
    daa_score: u64,
    sink_blue_score: u64,
    observed_at: u64,
)
    ensures
        invoices_apart(g) ==> invoices_apart(
            observe_outcome(
                g,
                recipient,
                transaction_id,
                amount_sompi,
                blue_score,
                daa_score,
                sink_blue_score,
                observed_at,
            ).0,
        ),
{
    reveal(invoices_apart);
    if invoices_apart(g) {
        crate::laws::lemma_invoices_keep_their_own_indices(
            g,
            vstd::pervasive::arbitrary::<CreateInvoiceView>(),
            vstd::pervasive::arbitrary::<Seq<char>>(),
            recipient,
            transaction_id,
            amount_sompi,
            blue_score,
            daa_score,
            sink_blue_score,
            observed_at,
            0,
        );
        crate::laws::lemma_addresses_stay_apart(
            g,
            recipient,
            transaction_id,
            amount_sompi,
            blue_score,
            daa_score,
            sink_blue_score,
            observed_at,
            0,
        );
    }
}

/// The periodic check keeps invoices apart (see [`invoices_apart`]).
proof fn lemma_check_keeps_apart(g: GatewayView, now: u64, sink_blue_score: u64)
    ensures
        invoices_apart(g) ==> invoices_apart(advance_outcome(g, now, sink_blue_score)),
{
    reveal(invoices_apart);
    if invoices_apart(g) {
        crate::laws::lemma_invoices_keep_their_own_indices(
            g,
            vstd::pervasive::arbitrary::<CreateInvoiceView>(),
            vstd::pervasive::arbitrary::<Seq<char>>(),
            vstd::pervasive::arbitrary::<[u8; 43]>(),
            vstd::pervasive::arbitrary::<[u8; 32]>(),
            0,
            0,
            0,
            sink_blue_score,
            0,
            now,
        );
        crate::laws::lemma_addresses_stay_apart(
            g,
            vstd::pervasive::arbitrary::<[u8; 43]>(),
            vstd::pervasive::arbitrary::<[u8; 32]>(),
            0,
            0,
            0,
            sink_blue_score,
            0,
            now,
        );
    }
}

/// The facts that the check's loop establishes about the events it emits.
#[verifier::opaque]
pub open spec fn events_from_sources(
    old_entries: Seq<(Seq<char>, InvoiceView)>,
    events: Seq<WebhookEvent>,
    sources: Seq<int>,
    now: u64,
    sink_blue_score: u64,
) -> bool {
    &&& distinct_keys(old_entries)
    &&& forall|k: int| 0 <= k < old_entries.len() ==> #[trigger] old_entries[k].0 == old_entries[k].1.id
    &&& events.len() == sources.len()
    &&& forall|e: int|
        #![trigger sources[e]]
        0 <= e < sources.len() ==> {
            &&& 0 <= sources[e] < old_entries.len()
            &&& advance_changes(old_entries[sources[e]].1, now, sink_blue_score)
            &&& reports(events[e], advanced_invoice(old_entries[sources[e]].1, now, sink_blue_score), now)
        }
    &&& forall|e1: int, e2: int|
        0 <= e1 < e2 < sources.len() ==> #[trigger] sources[e1] < #[trigger] sources[e2]
    &&& forall|j: int|
        0 <= j < old_entries.len() && advance_changes(#[trigger] old_entries[j].1, now, sink_blue_score)
            ==> exists|e: int| 0 <= e < sources.len() && sources[e] == j
}

/// Each event reports an invoice that the check changes, as changed.
proof fn lemma_advance_events_reported(
    old_entries: Seq<(Seq<char>, InvoiceView)>,
    events: Seq<WebhookEvent>,
    sources: Seq<int>,
    now: u64,
    sink_blue_score: u64,
    e: int,
)
    requires
        events_from_sources(old_entries, events, sources, now, sink_blue_score),
        0 <= e < events.len(),
    ensures
        ({
            let m = keyed_map(old_entries);
            let id = events[e].invoice@.id;
            &&& m.contains_key(id)
            &&& advance_changes(m[id], now, sink_blue_score)
            &&& reports(events[e], advanced_invoice(m[id], now, sink_blue_score), now)
        }),
{
    reveal(events_from_sources);
    let k = sources[e];
    assert(0 <= k < old_entries.len());
    assert(old_entries[k].0 == old_entries[k].1.id);
    lemma_keyed_distinct_value(old_entries, k);
}

/// Every invoice that the check changes is reported by some event.
proof fn lemma_advance_events_complete(
    old_entries: Seq<(Seq<char>, InvoiceView)>,
    events: Seq<WebhookEvent>,
    sources: Seq<int>,
    now: u64,
    sink_blue_score: u64,
    id: Seq<char>,
)
    requires
        events_from_sources(old_entries, events, sources, now, sink_blue_score),
        keyed_map(old_entries).contains_key(id),
        advance_changes(keyed_map(old_entries)[id], now, sink_blue_score),
    ensures
        exists|e: int| 0 <= e < events.len() && (#[trigger] events[e]).invoice@.id == id,
{
    reveal(events_from_sources);
    lemma_keyed_dom(old_entries, id);
    let j = choose|j: int| 0 <= j < old_entries.len() && old_entries[j].0 == id;
    lemma_keyed_distinct_value(old_entries, j);
    assert(advance_changes(old_entries[j].1, now, sink_blue_score));
    let e = choose|e: int| 0 <= e < sources.len() && sources[e] == j;
    assert(0 <= sources[e] < old_entries.len());
    assert(old_entries[j].0 == old_entries[j].1.id);
    assert(events[e].invoice@.id == id);
}

/// No two events report the same invoice.
proof fn lemma_advance_events_distinct(
    old_entries: Seq<(Seq<char>, InvoiceView)>,
    events: Seq<WebhookEvent>,
    sources: Seq<int>,
    now: u64,
    sink_blue_score: u64,
    e1: int,
    e2: int,
)
    requires
        events_from_sources(old_entries, events, sources, now, sink_blue_score),
        0 <= e1 < events.len(),
        0 <= e2 < events.len(),
        e1 != e2,
    ensures
        events[e1].invoice@.id != events[e2].invoice@.id,
{
    reveal(events_from_sources);
    let k1 = sources[e1];
    let k2 = sources[e2];
    assert(0 <= k1 < old_entries.len());
    assert(0 <= k2 < old_entries.len());
    assert(old_entries[k1].0 == old_entries[k1].1.id);
    assert(old_entries[k2].0 == old_entries[k2].1.id);
    if e1 < e2 {
        assert(k1 < k2);
    } else {
        assert(k2 < k1);
    }
}

/// The facts the check's loop gathers give its contract.
#[verifier::rlimit(60)]
proof fn lemma_advance_events(
    g: GatewayView,
    old_entries: Seq<(Seq<char>, InvoiceView)>,
    events: Seq<WebhookEvent>,
    sources: Seq<int>,
    now: u64,
    sink_blue_score: u64,
)
    requires
        events_from_sources(old_entries, events, sources, now, sink_blue_score),
        g.invoices == keyed_map(old_entries),
    ensures
        advance_events(g, now, sink_blue_score, events),
{
    assert forall|e: int| #![trigger events[e]] 0 <= e < events.len() implies {
        let id = events[e].invoice@.id;
        &&& g.invoices.contains_key(id)
        &&& advance_changes(g.invoices[id], now, sink_blue_score)
        &&& reports(events[e], advanced_invoice(g.invoices[id], now, sink_blue_score), now)
    } by {
        lemma_advance_events_reported(old_entries, events, sources, now, sink_blue_score, e);
    }
    assert forall|id: Seq<char>|
        g.invoices.contains_key(id) && advance_changes(#[trigger] g.invoices[id], now, sink_blue_score)
        implies exists|e: int| 0 <= e < events.len() && (#[trigger] events[e]).invoice@.id == id by {
        lemma_advance_events_complete(old_entries, events, sources, now, sink_blue_score, id);
    }
    assert forall|e1: int, e2: int|
        0 <= e1 < events.len() && 0 <= e2 < events.len() && e1 != e2 implies (
        #[trigger] events[e1]).invoice@.id != (#[trigger] events[e2]).invoice@.id by {
        lemma_advance_events_distinct(old_entries, events, sources, now, sink_blue_score, e1, e2);
    }
}

/// Records the (transaction, invoice) pair of every payment of `invoice`.
fn record_payments(seen: &mut Vec<([u8; 32], String)>, invoice: &Invoice)
    ensures
        seen_entries(final(seen)@) == seen_entries(old(seen)@) + payment_pairs(invoice@),
{
    let ghost start = seen_entries(seen@);
    let mut j: usize = 0;
    while j < invoice.payments.len()
        invariant
            j <= invoice.payments@.len(),
            seen_entries(seen@) == start + payment_pairs(invoice@).take(j as int),
        decreases invoice.payments@.len() - j,
    {
        let tx = invoice.payments[j].transaction_id;
        let ghost before = seen_entries(seen@);
        seen.push((tx, invoice.id.clone()));
        proof {
            assert(seen_entries(seen@) =~= before.push((tx@, invoice@.id)));
            assert(payment_pairs(invoice@)[j as int] == (tx@, invoice@.id));
            assert(payment_pairs(invoice@).take(j + 1) =~= payment_pairs(invoice@).take(j as int).push(
                (tx@, invoice@.id),
            ));
        }
        j = j + 1;
    }
    assert(payment_pairs(invoice@).take(invoice@.payments.len() as int) =~= payment_pairs(invoice@));
}

/// Every address of an index rebuilt from invoices points at one of them.
proof fn lemma_address_index_consistent(invs: Seq<InvoiceView>)
    ensures
        forall|a: Seq<u8>| #[trigger]
            keyed_map(parsed_address_entries(invs)).contains_key(a) ==> keyed_map(id_entries(invs)).contains_key(
                keyed_map(parsed_address_entries(invs))[a],
            ),
    decreases invs.len(),
{
    if invs.len() > 0 {
        let pre = invs.drop_last();
        let last = invs.last();
        lemma_address_index_consistent(pre);
        assert(parsed_address_entries(invs).drop_last() =~= parsed_address_entries(pre));
        assert(id_entries(invs).drop_last() =~= id_entries(pre));
        let addrs = keyed_map(parsed_address_entries(invs));
        let ids = keyed_map(id_entries(invs));
        assert(addrs == keyed_map(parsed_address_entries(pre)).insert(
            kaspa_address_payload(last.address)->0,
            last.id,
        ));
        assert(ids == keyed_map(id_entries(pre)).insert(last.id, last));
        assert forall|a: Seq<u8>| #[trigger] addrs.contains_key(a) implies ids.contains_key(addrs[a]) by {
            if a != kaspa_address_payload(last.address)->0 {
                assert(keyed_map(parsed_address_entries(pre)).contains_key(a));
            }
        }
    }
}

impl Gateway {
    /// The gateway's internal invariant: a valid viewing key, no key
    /// repeated in an index, and address index entries that point at
    /// invoices.
    pub closed spec fn wf(&self) -> bool {
        &&& orchard_viewing_key_valid(self.viewing_key@)
        &&& distinct_keys(invoice_entries(self.invoices@))
        &&& distinct_keys(address_entries(self.by_address@))
        &&& distinct_keys(metadata_view(self.idempotency@))
        &&& self@.consistent()
    }

    /// A gateway for the merchant whose full viewing key is `fvk`, writing
    /// addresses for `prefix` and checkout links under `public_url` (trailing
    /// slashes removed). Refused when the key is not a valid Orchard full
    /// viewing key.
    pub fn new(fvk: &[u8; 96], prefix: AddressPrefix, public_url: &str) -> (r: Result<Gateway, GatewayError>)
        ensures
            match r {
                Ok(g) => {
                    &&& orchard_viewing_key_valid(fvk@)
                    &&& g.wf()
                    &&& g@.viewing_key == fvk@
                    &&& g@.prefix == prefix
                    &&& g@.public_url == trim_trailing(public_url@, '/')
                    &&& g@.next_diversifier == 1
                    &&& g@.invoices == Map::<Seq<char>, InvoiceView>::empty()
                    &&& g@.by_address == Map::<Seq<u8>, Seq<char>>::empty()
                    &&& g@.idempotency == Map::<Seq<char>, Seq<char>>::empty()
                    &&& g@.seen == Set::<(Seq<u8>, Seq<char>)>::empty()
                    &&& invoices_apart(g@)
                },
                Err(e) => e == GatewayError::InvalidViewingKey && !orchard_viewing_key_valid(fvk@),
            },
    {
        if !viewing_key_is_valid(fvk) {
            return Err(GatewayError::InvalidViewingKey);
        }
        let g = Gateway::empty(fvk, prefix, public_url);
        assert(g@.invoices =~= Map::<Seq<char>, InvoiceView>::empty());
        assert(g@.by_address =~= Map::<Seq<u8>, Seq<char>>::empty());
        assert(g@.idempotency =~= Map::<Seq<char>, Seq<char>>::empty());
        assert(g@.seen =~= Set::<(Seq<u8>, Seq<char>)>::empty());
        proof {
            reveal(invoices_apart);
        }
        Ok(g)
    }

    /// Creates an invoice for `request` under the id `id` (see [`create_outcome`]).
    /// In a gateway whose invoices sit on indices of their own with the
    /// addresses those indices derive, with no address shared (see
    /// [`invoices_apart`]), the new invoice's address differs from every
    /// other invoice's, and the gateway stays so.
    /// When the amount and lifetime pass their checks, a known idempotency key
    /// must lead to an existing invoice (see [`Gateway::key_resolves`]):
    /// there is no invoice to give back otherwise.
    pub fn create_invoice_with_id(&mut self, request: CreateInvoice, id: String) -> (r: Result<
        Invoice,
        GatewayError,
    >)
        requires
            old(self).wf(),
            request@.amount_sompi != 0 && request@.expires_in != 0 ==> old(self)@.key_resolves(
                request@.idempotency_key,
            ),
        ensures
            final(self).wf(),
            (final(self)@, invoice_result(r)) == create_outcome(old(self)@, request@, id@),
            invoices_apart(old(self)@) ==> invoices_apart(final(self)@),
    {
        let ghost g = self@;
        let r = self.insert_invoice(request, id);
        proof {
            reveal(invoices_apart);
            if indices_apart(g) {
                crate::laws::lemma_invoices_keep_their_own_indices(
                    g,
                    request@,
                    id@,
                    vstd::pervasive::arbitrary::<[u8; 43]>(),
                    vstd::pervasive::arbitrary::<[u8; 32]>(),
                    0,
                    0,
                    0,
                    0,
                    0,
                    0,
                );
            }
        }
        r
    }

    fn insert_invoice(&mut self, request: CreateInvoice, id: String) -> (r: Result<
        Invoice,
        GatewayError,
    >)
        requires
            old(self).wf(),
            request@.amount_sompi != 0 && request@.expires_in != 0 ==> old(self)@.key_resolves(
                request@.idempotency_key,
            ),
        ensures
            final(self).wf(),
            (final(self)@, invoice_result(r)) == create_outcome(old(self)@, request@, id@),
            indices_apart(old(self)@) && addresses_apart(old(self)@) ==> addresses_apart(final(self)@),
    {
        if request.amount_sompi == 0 {
            return Err(GatewayError::InvalidAmount);
        }
        if request.expires_in == 0 {
            return Err(GatewayError::InvalidExpiry);
        }
        if let Some(key) = &request.idempotency_key {
            if let Some(i) = find_text(&self.idempotency, key) {
                proof {
                    lemma_keyed_distinct_value(metadata_view(self.idempotency@), i as int);
                }
                let existing = &self.idempotency[i].1;
                match find_invoice(&self.invoices, existing) {
                    Some(j) => {
                        proof {
                            lemma_keyed_distinct_value(invoice_entries(self.invoices@), j as int);
                        }
                        return Ok(self.invoices[j].clone());
                    },
                    None => {
                        proof {
                            lemma_keyed_dom(invoice_entries(self.invoices@), existing@);
                            assert(self@.idempotency.contains_key(key@));
                        }
                        return Err(GatewayError::UnknownInvoice);
                    },
                }
            } else {
                proof {
                    lemma_keyed_dom(metadata_view(self.idempotency@), key@);
                }
            }
        }
        let index = self.next_diversifier;
        if index == u32::MAX {
            return Err(GatewayError::DiversifierExhausted);
        }
        let ghost g = self@;
        self.next_diversifier = index + 1;
        let raw = diversified_address(&self.viewing_key, index);
        let address = encode_address(self.prefix, &raw);
        let ghost text = address@;
        let expires_at = match request.now.checked_add(request.expires_in) {
            Some(t) => t,
            None => {
                return Err(GatewayError::InvalidExpiry);
            },
        };
        let mut checkout_url = self.public_url.clone();
        checkout_url.append("/checkout/");
        checkout_url.append(id.as_str());
        let invoice = Invoice {
            id: id.clone(),
            order_id: request.order_id,
            address,
            diversifier_index: index,
            amount_sompi: request.amount_sompi,
            paid_sompi: 0,
            status: InvoiceStatus::New,
            created_at: request.now,
            expires_at,
            required_blue_score: request.required_blue_score,
            checkout_url,
            redirect_url: request.redirect_url,
            metadata: request.metadata,
            payments: Vec::new(),
        };
        assert(invoice@ =~= new_invoice(g, request@, id@));
        upsert_address(&mut self.by_address, raw, id.clone());
        if let Some(key) = request.idempotency_key {
            upsert_text(&mut self.idempotency, key, id.clone());
        }
        let stored = invoice.clone();
        upsert_invoice(&mut self.invoices, stored);
        assert(self@.consistent());
        proof {
            if indices_apart(g) && addresses_apart(g) {
                let fin = self@;
                assert(fin.invoices == g.invoices.insert(id@, invoice@));
                assert forall|a: Seq<char>, b: Seq<char>|
                    fin.invoices.contains_key(a) && fin.invoices.contains_key(b) && a != b implies (
                    #[trigger] fin.invoices[a]).address != (#[trigger] fin.invoices[b]).address by {
                    if a != id@ && b != id@ {
                        assert(g.invoices.contains_key(a) && g.invoices.contains_key(b));
                        assert(g.invoices[a].address != g.invoices[b].address);
                    } else {
                        let other = if a == id@ {
                            b
                        } else {
                            a
                        };
                        assert(g.invoices.contains_key(other));
                        let k = g.invoices[other].diversifier_index;
                        assert(k < g.next_diversifier);
                        assert(orchard_raw_address(g.viewing_key, k) != raw@);
                        assert(kaspa_address_text(g.prefix, orchard_raw_address(g.viewing_key, k)) != text);
                        assert(fin.invoices[other].address != fin.invoices[id@].address);
                    }
                }
            }
        }
        Ok(invoice)
    }

    /// Creates an invoice for `request` under a fresh random `inv_` id (see
    /// [`create_outcome`]).
    /// When the amount and lifetime pass their checks, a known idempotency key
    /// must lead to an existing invoice.
    pub fn create_invoice(&mut self, request: CreateInvoice) -> (r: Result<Invoice, GatewayError>)
        requires
            old(self).wf(),
            request@.amount_sompi != 0 && request@.expires_in != 0 ==> old(self)@.key_resolves(
                request@.idempotency_key,
            ),
        ensures
            final(self).wf(),
            exists|id: Seq<char>|
                is_random_id("inv"@, id) && (final(self)@, invoice_result(r)) == #[trigger] create_outcome(
                    old(self)@,
                    request@,
                    id,
                ),
            invoices_apart(old(self)@) ==> invoices_apart(final(self)@),
    {
        let id = crate::webhook::random_id("inv");
        let ghost chosen = id@;
        let r = self.create_invoice_with_id(request, id);
        assert(is_random_id("inv"@, chosen));
        r
    }

    fn credit_note(
        &mut self,
        recipient: [u8; 43],
        transaction_id: [u8; 32],
        amount_sompi: u64,
        blue_score: u64,
        daa_score: u64,
        sink_blue_score: u64,
        observed_at: u64,
    ) -> (r: Result<Option<WebhookEvent>, GatewayError>)
        requires
            old(self).wf(),
        ensures
            final(self).wf(),
            final(self)@ == observe_outcome(
                old(self)@,
                recipient,
                transaction_id,
                amount_sompi,
                blue_score,
                daa_score,
                sink_blue_score,
                observed_at,
            ).0,
            event_result_matches(
                r,
                observe_outcome(
                    old(self)@,
                    recipient,
                    transaction_id,
                    amount_sompi,
                    blue_score,
                    daa_score,
                    sink_blue_score,
                    observed_at,
                ).1,
            ),
    {
        let ghost g = self@;
        let id = match find_address(&self.by_address, &recipient) {
            Some(i) => {
                proof {
                    lemma_keyed_distinct_value(address_entries(self.by_address@), i as int);
                }
                self.by_address[i].1.clone()
            },
            None => {
                proof {
                    lemma_keyed_dom(address_entries(self.by_address@), recipient@);
                }
                return Err(GatewayError::AddressMismatch);
            },
        };
        if contains_seen(&self.seen_transactions, &transaction_id, &id) {
            return Ok(None);
        }
        let ghost seen_before = seen_entries(self.seen_transactions@);
        self.seen_transactions.push((transaction_id, id.clone()));
        proof {
            assert(seen_entries(self.seen_transactions@) =~= seen_before.push((transaction_id@, id@)));
            seen_before.lemma_push_to_set_commute((transaction_id@, id@));
            assert(seen_entries(self.seen_transactions@).to_set() =~= seen_before.to_set().insert(
                (transaction_id@, id@),
            ));
        }
        let j = match find_invoice(&self.invoices, &id) {
            Some(j) => j,
            None => {
                proof {
                    lemma_keyed_dom(invoice_entries(self.invoices@), id@);
                }
                return Err(GatewayError::UnknownInvoice);
            },
        };
        proof {
            lemma_keyed_distinct_value(invoice_entries(self.invoices@), j as int);
        }
        let mut invoice = self.invoices[j].clone();
        let paid = match invoice.paid_sompi.checked_add(amount_sompi) {
            Some(p) => p,
            None => {
                return Err(GatewayError::AmountOverflow);
            },
        };
        let before = invoice.status;
        invoice.paid_sompi = paid;
        invoice.payments.push(Payment { transaction_id, amount_sompi, blue_score, daa_score });
        let status = if before == InvoiceStatus::Expired || observed_at >= invoice.expires_at {
            InvoiceStatus::PaidLate
        } else {
            payment_status(&invoice, sink_blue_score)
        };
        invoice.status = status;
        let ghost updated = invoice@;
        assert(updated =~= credited_invoice(
            g.invoices[id@],
            transaction_id,
            amount_sompi,
            blue_score,
            daa_score,
            sink_blue_score,
            observed_at,
        ));
        let reported = invoice.clone();
        let created_at = invoice.created_at;
        upsert_invoice(&mut self.invoices, invoice);
        assert(self@.consistent());
        if status != before {
            Ok(Some(event("invoice.updated", reported, created_at)))
        } else {
            Ok(None)
        }
    }

    #[verifier::rlimit(60)]
    fn check_invoices(&mut self, now: u64, sink_blue_score: u64) -> (events: Vec<WebhookEvent>)
        requires
            old(self).wf(),
        ensures
            final(self).wf(),
            final(self)@ == advance_outcome(old(self)@, now, sink_blue_score),
            advance_events(old(self)@, now, sink_blue_score, events@),
    {
        let ghost g = self@;
        let ghost old_entries = invoice_entries(self.invoices@);
        let ghost f = |inv: InvoiceView| advanced_invoice(inv, now, sink_blue_score);
        let n = self.invoices.len();
        let mut events: Vec<WebhookEvent> = Vec::new();
        let ghost mut sources: Seq<int> = Seq::empty();
        let mut i: usize = 0;
        while i < n
            invariant
                n == self.invoices@.len(),
                n == old_entries.len(),
                old_entries == invoice_entries(old(self).invoices@),
                distinct_keys(old_entries),
                f == (|inv: InvoiceView| advanced_invoice(inv, now, sink_blue_score)),
                self.viewing_key == old(self).viewing_key,
                self.prefix == old(self).prefix,
                self.public_url == old(self).public_url,
                self.next_diversifier == old(self).next_diversifier,
                self.by_address == old(self).by_address,
                self.idempotency == old(self).idempotency,
                self.seen_transactions == old(self).seen_transactions,
                i <= n,
                forall|j: int|
                    0 <= j < i ==> #[trigger] invoice_entries(self.invoices@)[j] == (
                        old_entries[j].0,
                        f(old_entries[j].1),
                    ),
                forall|j: int| i <= j < n ==> #[trigger] invoice_entries(self.invoices@)[j] == old_entries[j],
                events@.len() == sources.len(),
                forall|e: int|
                    #![trigger sources[e]]
                    0 <= e < sources.len() ==> {
                        &&& 0 <= sources[e] < i
                        &&& advance_changes(old_entries[sources[e]].1, now, sink_blue_score)
                        &&& reports(events@[e], f(old_entries[sources[e]].1), now)
                    },
                forall|e1: int, e2: int|
                    0 <= e1 < e2 < sources.len() ==> #[trigger] sources[e1] < #[trigger] sources[e2],
                forall|j: int|
                    0 <= j < i && advance_changes(#[trigger] old_entries[j].1, now, sink_blue_score)
                        ==> exists|e: int| 0 <= e < sources.len() && sources[e] == j,
            decreases n - i,
        {
            let before = self.invoices[i].status;
            let paid = self.invoices[i].paid_sompi;
            let status = if before == InvoiceStatus::PaidLate {
                before
            } else if paid == 0 && now >= self.invoices[i].expires_at {
                InvoiceStatus::Expired
            } else if paid >= self.invoices[i].amount_sompi {
                payment_status(&self.invoices[i], sink_blue_score)
            } else {
                before
            };
            let ghost entries_before = invoice_entries(self.invoices@);
            assert(entries_before[i as int] == old_entries[i as int]);
            if status != before {
                let mut inv = self.invoices[i].clone();
                inv.status = status;
                let reported = inv.clone();
                assert(inv@ =~= f(old_entries[i as int].1));
                self.invoices[i] = inv;
                assert(invoice_entries(self.invoices@) =~= entries_before.update(
                    i as int,
                    (old_entries[i as int].0, f(old_entries[i as int].1)),
                ));
                let ev = event("invoice.updated", reported, now);
                events.push(ev);
                proof {
                    let prev = sources;
                    sources = sources.push(i as int);
                    assert(sources[sources.len() - 1] == i);
                    assert forall|j: int|
                        0 <= j < i + 1 && advance_changes(
                            #[trigger] old_entries[j].1,
                            now,
                            sink_blue_score,
                        ) implies exists|e: int| 0 <= e < sources.len() && sources[e] == j by {
                        if j < i {
                            let e = choose|e: int| 0 <= e < prev.len() && prev[e] == j;
                            assert(sources[e] == j);
                        } else {
                            assert(sources[sources.len() - 1] == j);
                        }
                    }
                }
            } else {
                assert(f(old_entries[i as int].1) =~= old_entries[i as int].1);
            }
            i = i + 1;
        }
        proof {
            lemma_keyed_map_values(old_entries, invoice_entries(self.invoices@), f);
            assert(distinct_keys(invoice_entries(self.invoices@)));
            assert(self@.invoices =~= g.invoices.map_values(
                |inv: InvoiceView| advanced_invoice(inv, now, sink_blue_score),
            ));
            assert forall|k: int| 0 <= k < old_entries.len() implies #[trigger] old_entries[k].0
                == old_entries[k].1.id by {}
            assert(events_from_sources(old_entries, events@, sources, now, sink_blue_score)) by {
                reveal(events_from_sources);
            }
            lemma_advance_events(g, old_entries, events@, sources, now, sink_blue_score);
        }
        events
    }

    /// Reconciles a decrypted received note (see [`observe_outcome`]).
    /// Duplicate (transaction, invoice) pairs are ignored, so scanner retries
    /// are safe. Invoices keep their indices and addresses apart.
    pub fn observe_payment(
        &mut self,
        recipient: [u8; 43],
        transaction_id: [u8; 32],
        amount_sompi: u64,
        blue_score: u64,
        daa_score: u64,
        sink_blue_score: u64,
        observed_at: u64,
    ) -> (r: Result<Option<WebhookEvent>, GatewayError>)
        requires
            old(self).wf(),
        ensures
            final(self).wf(),
            final(self)@ == observe_outcome(
                old(self)@,
                recipient,
                transaction_id,
                amount_sompi,
                blue_score,
                daa_score,
                sink_blue_score,
                observed_at,
            ).0,
            event_result_matches(
                r,
                observe_outcome(
                    old(self)@,
                    recipient,
                    transaction_id,
                    amount_sompi,
                    blue_score,
                    daa_score,
                    sink_blue_score,
                    observed_at,
                ).1,
            ),
            invoices_apart(old(self)@) ==> invoices_apart(final(self)@),
    {
        let ghost g = self@;
        let r = self.credit_note(
            recipient,
            transaction_id,
            amount_sompi,
            blue_score,
            daa_score,
            sink_blue_score,
            observed_at,
        );
        proof {
            lemma_observation_keeps_apart(
                g,
                recipient,
                transaction_id,
                amount_sompi,
                blue_score,
                daa_score,
                sink_blue_score,
                observed_at,
            );
        }
        r
    }

    /// Re-evaluates every invoice at time `now` against the tip
    /// `sink_blue_score`, so that paid invoices confirm as depth accrues and
    /// unpaid ones expire (paid-late invoices stay paid late); returns one
    /// event per invoice whose status changed. Invoices keep their indices
    /// and addresses apart.
    pub fn advance(&mut self, now: u64, sink_blue_score: u64) -> (events: Vec<WebhookEvent>)
        requires
            old(self).wf(),
        ensures
            final(self).wf(),
            final(self)@ == advance_outcome(old(self)@, now, sink_blue_score),
            advance_events(old(self)@, now, sink_blue_score, events@),
            invoices_apart(old(self)@) ==> invoices_apart(final(self)@),
    {
        let ghost g = self@;
        let events = self.check_invoices(now, sink_blue_score);
        proof {
            lemma_check_keeps_apart(g, now, sink_blue_score);
        }
        events
    }

    /// The persisted state: every invoice, the idempotency keys and the
    /// diversifier counter.
    pub fn snapshot(&self) -> (r: GatewaySnapshot)
        requires
            self.wf(),
        ensures
            r@.version == 1,
            r@.next_diversifier == self@.next_diversifier,
            distinct_keys(id_entries(r@.invoices)),
            keyed_map(id_entries(r@.invoices)) == self@.invoices,
            distinct_keys(r@.idempotency),
            keyed_map(r@.idempotency) == self@.idempotency,
    {
        let mut invoices: Vec<Invoice> = Vec::new();
        let mut i: usize = 0;
        while i < self.invoices.len()
            invariant
                i <= self.invoices@.len(),
                invoices@.len() == i,
                forall|j: int| 0 <= j < i ==> #[trigger] invoices@[j]@ == self.invoices@[j]@,
            decreases self.invoices@.len() - i,
        {
            invoices.push(self.invoices[i].clone());
            i = i + 1;
        }
        let r = GatewaySnapshot {
            version: 1,
            next_diversifier: self.next_diversifier,
            invoices,
            idempotency: clone_metadata(&self.idempotency),
        };
        assert(id_entries(r@.invoices) =~= invoice_entries(self.invoices@));
        r
    }

    /// Rebuilds a gateway from a snapshot (see [`restore_outcome`]).
    pub fn restore(fvk: &[u8; 96], prefix: AddressPrefix, public_url: &str, snapshot: GatewaySnapshot) -> (r:
        Result<Gateway, GatewayError>)
        ensures
            match (r, restore_outcome(fvk@, prefix, public_url@, snapshot@)) {
                (Ok(g), Ok(v)) => g.wf() && g@ == v,
                (Err(a), Err(b)) => a == b,
                _ => false,
            },
    {
        if !viewing_key_is_valid(fvk) {
            return Err(GatewayError::InvalidViewingKey);
        }
        let mut gateway = Gateway::empty(fvk, prefix, public_url);
        gateway.next_diversifier = snapshot.next_diversifier;
        let ghost snap = snapshot@;
        assert(metadata_view(gateway.idempotency@) =~= snap.idempotency.take(0));
        let mut k: usize = 0;
        while k < snapshot.idempotency.len()
            invariant
                k <= snapshot.idempotency@.len(),
                snap == snapshot@,
                distinct_keys(metadata_view(gateway.idempotency@)),
                keyed_map(metadata_view(gateway.idempotency@)) == keyed_map(snap.idempotency.take(k as int)),
                orchard_viewing_key_valid(gateway.viewing_key@),
                gateway.viewing_key@ == fvk@,
                gateway.prefix == prefix,
                gateway.public_url@ == trim_trailing(public_url@, '/'),
                gateway.next_diversifier == snap.next_diversifier,
                gateway.invoices@.len() == 0,
                gateway.by_address@.len() == 0,
                gateway.seen_transactions@.len() == 0,
            decreases snapshot.idempotency@.len() - k,
        {
            let key = snapshot.idempotency[k].0.clone();
            let value = snapshot.idempotency[k].1.clone();
            upsert_text(&mut gateway.idempotency, key, value);
            proof {
                assert(snap.idempotency.take(k + 1) =~= snap.idempotency.take(k as int).push(
                    snap.idempotency[k as int],
                ));
                lemma_keyed_push(snap.idempotency.take(k as int), key@, value@);
            }
            k = k + 1;
        }
        assert(snap.idempotency.take(snap.idempotency.len() as int) =~= snap.idempotency);
        let ghost invs = snap.invoices;
        assert(invoice_entries(gateway.invoices@) =~= id_entries(invs.take(0)));
        assert(address_entries(gateway.by_address@) =~= parsed_address_entries(invs.take(0)));
        assert(seen_entries(gateway.seen_transactions@) =~= all_payment_pairs(invs.take(0)));
        let mut i: usize = 0;
        while i < snapshot.invoices.len()
            invariant
                i <= snapshot.invoices@.len(),
                snap == snapshot@,
                invs == snap.invoices,
                invs.len() == snapshot.invoices@.len(),
                orchard_viewing_key_valid(gateway.viewing_key@),
                gateway.viewing_key@ == fvk@,
                gateway.prefix == prefix,
                gateway.public_url@ == trim_trailing(public_url@, '/'),
                gateway.next_diversifier == snap.next_diversifier,
                distinct_keys(metadata_view(gateway.idempotency@)),
                keyed_map(metadata_view(gateway.idempotency@)) == keyed_map(snap.idempotency),
                distinct_keys(invoice_entries(gateway.invoices@)),
                distinct_keys(address_entries(gateway.by_address@)),
                keyed_map(invoice_entries(gateway.invoices@)) == keyed_map(id_entries(invs.take(i as int))),
                keyed_map(address_entries(gateway.by_address@)) == keyed_map(
                    parsed_address_entries(invs.take(i as int)),
                ),
                seen_entries(gateway.seen_transactions@) == all_payment_pairs(invs.take(i as int)),
                forall|j: int| 0 <= j < i ==> address_parses(#[trigger] invs[j]),
            decreases snapshot.invoices@.len() - i,
        {
            let invoice = &snapshot.invoices[i];
            assert(invoice@ == invs[i as int]);
            let raw = match decode_address(invoice.address.as_str()) {
                Some(raw) => raw,
                None => {
                    assert(!address_parses(invs[i as int]));
                    return Err(GatewayError::AddressMismatch);
                },
            };
            record_payments(&mut gateway.seen_transactions, invoice);
            upsert_address(&mut gateway.by_address, raw, invoice.id.clone());
            upsert_invoice(&mut gateway.invoices, invoice.clone());
            proof {
                let pre = invs.take(i as int);
                let post = invs.take(i + 1);
                assert(post =~= pre.push(invs[i as int]));
                assert(post.drop_last() =~= pre);
                assert(id_entries(post) =~= id_entries(pre).push((invoice@.id, invoice@)));
                lemma_keyed_push(id_entries(pre), invoice@.id, invoice@);
                assert(parsed_address_entries(post) =~= parsed_address_entries(pre).push(
                    (raw@, invoice@.id),
                ));
                lemma_keyed_push(parsed_address_entries(pre), raw@, invoice@.id);
            }
            i = i + 1;
        }
        proof {
            assert(invs.take(invs.len() as int) =~= invs);
            assert(!exists|j: int| 0 <= j < invs.len() && !address_parses(#[trigger] invs[j]));
            lemma_address_index_consistent(invs);
            assert(gateway@.consistent());
        }
        Ok(gateway)
    }

    fn empty(fvk: &[u8; 96], prefix: AddressPrefix, public_url: &str) -> (g: Gateway)
        ensures
            g.viewing_key@ == fvk@,
            g.prefix == prefix,
            g.public_url@ == trim_trailing(public_url@, '/'),
            g.next_diversifier == 1,
            g.invoices@.len() == 0,
            g.by_address@.len() == 0,
            g.idempotency@.len() == 0,
            g.seen_transactions@.len() == 0,
    {
        Gateway {
            viewing_key: *fvk,
            prefix,
            public_url: trim_end_char(public_url, '/'),
            next_diversifier: 1,
            invoices: Vec::new(),
            by_address: Vec::new(),
            idempotency: Vec::new(),
            seen_transactions: Vec::new(),
        }
    }

    /// Every gateway that the library builds keeps its address index
    /// consistent: each indexed address leads to an invoice.
    pub proof fn lemma_wf_consistent(&self)
        requires
            self.wf(),
        ensures
            self@.consistent(),
    {
    }

    /// Whether `key`, when the gateway knows it, leads to an existing invoice
    /// (see [`GatewayView::key_resolves`]); only then can a request carrying
    /// it be handed to [`Gateway::create_invoice`].
    pub fn key_resolves(&self, key: &Option<String>) -> (r: bool)
        requires
            self.wf(),
        ensures
            r == self@.key_resolves(opt_view(*key)),
    {
        match key {
            None => true,
            Some(k) => match find_text(&self.idempotency, k) {
                None => {
                    proof {
                        lemma_keyed_dom(metadata_view(self.idempotency@), k@);
                    }
                    true
                },
                Some(i) => {
                    proof {
                        lemma_keyed_distinct_value(metadata_view(self.idempotency@), i as int);
                    }
                    let target = &self.idempotency[i].1;
                    match find_invoice(&self.invoices, target) {
                        Some(j) => {
                            proof {
                                assert(invoice_entries(self.invoices@)[j as int].0 == target@);
                                lemma_keyed_dom(invoice_entries(self.invoices@), target@);
                            }
                            true
                        },
                        None => {
                            proof {
                                lemma_keyed_dom(invoice_entries(self.invoices@), target@);
                            }
                            false
                        },
                    }
                },
            },
        }
    }

    /// The invoice with id `id`, if there is one.
    pub fn invoice(&self, id: &str) -> (r: Option<&Invoice>)
        requires
            self.wf(),
        ensures
            match r {
                Some(inv) => self@.invoices.contains_key(id@) && inv@ == self@.invoices[id@],
                None => !self@.invoices.contains_key(id@),
            },
    {
        let key = String::from_str(id);
        match find_invoice(&self.invoices, &key) {
            Some(i) => {
                proof {
                    lemma_keyed_distinct_value(invoice_entries(self.invoices@), i as int);
                }
                Some(&self.invoices[i])
            },
            None => {
                proof {
                    lemma_keyed_dom(invoice_entries(self.invoices@), id@);
                }
                None
            },
        }
    }
}

} // verus!
