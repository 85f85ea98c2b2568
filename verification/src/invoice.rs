//! Invoices, payments, webhook events and the confirmation policy.

use vstd::prelude::*;

verus! {

/// Where an invoice stands in its lifecycle.
#[derive(Clone, Copy, Debug, PartialEq, Eq, Structural)]
pub enum InvoiceStatus {
    New,
    Partial,
    Paid,
    Confirmed,
    Overpaid,
    PaidLate,
    Expired,
}

impl InvoiceStatus {
    /// The statuses after which a merchant acts (or gives up) on the order.
    pub open spec fn is_terminal(self) -> bool {
        self is Confirmed || self is Overpaid || self is PaidLate || self is Expired
    }

    /// Whether the status is terminal.
    pub fn terminal(self) -> (r: bool)
        ensures
            r == self.is_terminal(),
    {
        match self {
            InvoiceStatus::Confirmed | InvoiceStatus::Overpaid | InvoiceStatus::PaidLate
            | InvoiceStatus::Expired => true,
            _ => false,
        }
    }
}

/// One payment received for an invoice.
#[derive(Clone, Copy, Debug, PartialEq, Eq)]
pub struct Payment {
    pub transaction_id: [u8; 32],
    pub amount_sompi: u64,
    pub blue_score: u64,
    pub daa_score: u64,
}

/// Free-form key/value pairs a merchant attaches to an invoice.
pub type Metadata = Vec<(String, String)>;

/// The view of metadata: each pair of strings by its characters.
pub open spec fn metadata_view(m: Seq<(String, String)>) -> Seq<(Seq<char>, Seq<char>)> {
    m.map_values(|p: (String, String)| (p.0@, p.1@))
}

/// The view of an optional string.
pub open spec fn opt_view(s: Option<String>) -> Option<Seq<char>> {
    match s {
        Some(t) => Some(t@),
        None => None,
    }
}

/// A merchant invoice.
pub struct Invoice {
    pub id: String,
    pub order_id: String,
    pub address: String,
    pub diversifier_index: u32,
    pub amount_sompi: u64,
    pub paid_sompi: u64,
    pub status: InvoiceStatus,
    pub created_at: u64,
    pub expires_at: u64,
    pub required_blue_score: u64,
    pub checkout_url: String,
    pub redirect_url: Option<String>,
    pub metadata: Metadata,
    pub payments: Vec<Payment>,
}

/// The mathematical value of an [`Invoice`].
pub struct InvoiceView {
    pub id: Seq<char>,
    pub order_id: Seq<char>,
    pub address: Seq<char>,
    pub diversifier_index: u32,
    pub amount_sompi: u64,
    pub paid_sompi: u64,
    pub status: InvoiceStatus,
    pub created_at: u64,
    pub expires_at: u64,
    pub required_blue_score: u64,
    pub checkout_url: Seq<char>,
    pub redirect_url: Option<Seq<char>>,
    pub metadata: Seq<(Seq<char>, Seq<char>)>,
    pub payments: Seq<Payment>,
}

impl View for Invoice {
    type V = InvoiceView;

    open spec fn view(&self) -> InvoiceView {
        InvoiceView {
            id: self.id@,
            order_id: self.order_id@,
            address: self.address@,
            diversifier_index: self.diversifier_index,
            amount_sompi: self.amount_sompi,
            paid_sompi: self.paid_sompi,
            status: self.status,
            created_at: self.created_at,
            expires_at: self.expires_at,
            required_blue_score: self.required_blue_score,
            checkout_url: self.checkout_url@,
            redirect_url: opt_view(self.redirect_url),
            metadata: metadata_view(self.metadata@),
            payments: self.payments@,
        }
    }
}

/// Copies an optional string.
pub fn clone_opt_string(s: &Option<String>) -> (r: Option<String>)
    ensures
        opt_view(r) == opt_view(*s),
{
    match s {
        Some(t) => Some(t.clone()),
        None => None,
    }
}

/// Copies metadata pair by pair.
pub fn clone_metadata(m: &Metadata) -> (r: Metadata)
    ensures
        metadata_view(r@) == metadata_view(m@),
{
    let mut out: Metadata = Vec::new();
    let mut i: usize = 0;
    while i < m.len()
        invariant
            i <= m@.len(),
            metadata_view(out@) =~= metadata_view(m@.take(i as int)),
        decreases m@.len() - i,
    {
        let k = m[i].0.clone();
        let v = m[i].1.clone();
        let ghost before = out@;
        out.push((k, v));
        proof {
            assert(m@.take(i + 1) =~= m@.take(i as int).push(m@[i as int]));
            assert(metadata_view(out@) =~= metadata_view(before).push((k@, v@)));
            assert(metadata_view(m@.take(i + 1)) =~= metadata_view(m@.take(i as int)).push(
                (m@[i as int].0@, m@[i as int].1@),
            ));
        }
        i = i + 1;
    }
    assert(m@.take(m@.len() as int) =~= m@);
    out
}

/// Copies a list of payments.
pub fn clone_payments(p: &Vec<Payment>) -> (r: Vec<Payment>)
    ensures
        r@ == p@,
{
    let mut out: Vec<Payment> = Vec::new();
    let mut i: usize = 0;
    while i < p.len()
        invariant
            i <= p@.len(),
            out@ =~= p@.take(i as int),
        decreases p@.len() - i,
    {
        out.push(p[i]);
        assert(p@.take(i + 1) =~= p@.take(i as int).push(p@[i as int]));
        i = i + 1;
    }
    assert(p@.take(p@.len() as int) =~= p@);
    out
}

impl Clone for Invoice {
    fn clone(&self) -> (r: Self)
        ensures
            r@ == self@,
    {
        Invoice {
            id: self.id.clone(),
            order_id: self.order_id.clone(),
            address: self.address.clone(),
            diversifier_index: self.diversifier_index,
            amount_sompi: self.amount_sompi,
            paid_sompi: self.paid_sompi,
            status: self.status,
            created_at: self.created_at,
            expires_at: self.expires_at,
            required_blue_score: self.required_blue_score,
            checkout_url: self.checkout_url.clone(),
            redirect_url: clone_opt_string(&self.redirect_url),
            metadata: clone_metadata(&self.metadata),
            payments: clone_payments(&self.payments),
        }
    }
}

/// Whether every payment of `inv` lies at least `required_blue_score`
/// behind the tip `sink_blue_score` (distance saturating at zero).
pub open spec fn all_payments_confirmed(inv: InvoiceView, sink_blue_score: u64) -> bool {
    forall|i: int|
        0 <= i < inv.payments.len() ==> (if sink_blue_score >= (#[trigger] inv.payments[i]).blue_score {
            sink_blue_score - inv.payments[i].blue_score
        } else {
            0
        }) >= inv.required_blue_score
}

/// The status that the amounts received and the confirmation depth give:
/// less than asked is partial, more is overpaid, exactly the amount is
/// confirmed once every payment is deep enough and paid before that.
pub open spec fn status_of_payments(inv: InvoiceView, sink_blue_score: u64) -> InvoiceStatus {
    if inv.paid_sompi < inv.amount_sompi {
        InvoiceStatus::Partial
    } else if inv.paid_sompi > inv.amount_sompi {
        InvoiceStatus::Overpaid
    } else if all_payments_confirmed(inv, sink_blue_score) {
        InvoiceStatus::Confirmed
    } else {
        InvoiceStatus::Paid
    }
}

/// The status an invoice has from its payments, given the current tip.
pub fn payment_status(invoice: &Invoice, sink_blue_score: u64) -> (r: InvoiceStatus)
    ensures
        r == status_of_payments(invoice@, sink_blue_score),
{
    if invoice.paid_sompi < invoice.amount_sompi {
        return InvoiceStatus::Partial;
    }
    if invoice.paid_sompi > invoice.amount_sompi {
        return InvoiceStatus::Overpaid;
    }
    let mut i: usize = 0;
    while i < invoice.payments.len()
        invariant
            i <= invoice.payments@.len(),
            invoice.paid_sompi == invoice.amount_sompi,
            forall|j: int|
                0 <= j < i ==> (if sink_blue_score >= (#[trigger] invoice.payments@[j]).blue_score {
                    sink_blue_score - invoice.payments@[j].blue_score
                } else {
                    0
                }) >= invoice.required_blue_score,
        decreases invoice.payments@.len() - i,
    {
        let depth = sink_blue_score.saturating_sub(invoice.payments[i].blue_score);
        if depth < invoice.required_blue_score {
            assert(invoice@.payments[i as int] == invoice.payments@[i as int]);
            return InvoiceStatus::Paid;
        }
        i = i + 1;
    }
    InvoiceStatus::Confirmed
}


/// What a merchant asks for when creating an invoice.
pub struct CreateInvoice {
    pub order_id: String,
    pub amount_sompi: u64,
    pub now: u64,
    pub expires_in: u64,
    pub required_blue_score: u64,
    pub redirect_url: Option<String>,
    pub metadata: Metadata,
    pub idempotency_key: Option<String>,
}

/// The mathematical value of a [`CreateInvoice`].
pub struct CreateInvoiceView {
    pub order_id: Seq<char>,
    pub amount_sompi: u64,
    pub now: u64,
    pub expires_in: u64,
    pub required_blue_score: u64,
    pub redirect_url: Option<Seq<char>>,
    pub metadata: Seq<(Seq<char>, Seq<char>)>,
    pub idempotency_key: Option<Seq<char>>,
}

impl View for CreateInvoice {
    type V = CreateInvoiceView;

    open spec fn view(&self) -> CreateInvoiceView {
        CreateInvoiceView {
            order_id: self.order_id@,
            amount_sompi: self.amount_sompi,
            now: self.now,
            expires_in: self.expires_in,
            required_blue_score: self.required_blue_score,
            redirect_url: opt_view(self.redirect_url),
            metadata: metadata_view(self.metadata@),
            idempotency_key: opt_view(self.idempotency_key),
        }
    }
}

/// A notification that an invoice changed.
pub struct WebhookEvent {
    pub id: String,
    pub event_type: String,
    pub created_at: u64,
    pub invoice: Invoice,
}

/// The type of every event the gateway emits.
pub open spec fn invoice_updated() -> Seq<char> {
    "invoice.updated"@
}

/// Whether `event` reports `invoice` at time `created_at`, as an
/// `invoice.updated` event under a fresh `evt_` identifier.
pub open spec fn reports(event: WebhookEvent, invoice: InvoiceView, created_at: u64) -> bool {
    &&& event.invoice@ == invoice
    &&& event.event_type@ == invoice_updated()
    &&& event.created_at == created_at
    &&& crate::webhook::is_random_id("evt"@, event.id@)
}

/// An event of type `kind` about `invoice`, stamped `now`, with a fresh
/// `evt_` identifier.
pub fn event(kind: &str, invoice: Invoice, now: u64) -> (r: WebhookEvent)
    ensures
        r.event_type@ == kind@,
        r.invoice@ == invoice@,
        r.created_at == now,
        crate::webhook::is_random_id("evt"@, r.id@),
{
    let id = crate::webhook::random_id("evt");
    WebhookEvent { id, event_type: String::from_str(kind), created_at: now, invoice }
}

} // verus!
