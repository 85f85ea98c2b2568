//! The decisions of the HTTP service: authorization, request parsing,
//! configuration values and wallet-history reconciliation.

use crate::address::{decode_address, kaspa_address_payload};
use crate::gateway::{
    advance_events, advance_outcome, create_outcome, invoices_apart, observe_outcome, Gateway,
    GatewayView,
};
use crate::invoice::{
    metadata_view, opt_view, reports, CreateInvoice, CreateInvoiceView, Invoice, InvoiceView,
    Metadata, WebhookEvent,
};
use crate::text::{chars_of, hex_decode, hex_decode_chars, parse_decimal_u64, parse_u64};
use crate::webhook::is_random_id;
use vstd::prelude::*;

verus! {

/// The current Unix time in seconds (zero if the clock is before 1970);
/// nothing is claimed of the value.
#[verifier::external_body]
pub fn now() -> (r: u64) {
    std::time::SystemTime::now().duration_since(std::time::UNIX_EPOCH).unwrap_or_default().as_secs()
}

/// Whether an `Authorization` header value is `Bearer <api_key>`.
pub open spec fn bearer_matches(authorization: Option<Seq<char>>, api_key: Seq<char>) -> bool {
    match authorization {
        Some(v) => v.len() >= 7 && v.take(7) == "Bearer "@ && v.skip(7) == api_key,
        None => false,
    }
}

/// Whether a request carrying the `Authorization` header value
/// `authorization` (absent, or not visible ASCII, as `None`) is authorized
/// for `api_key`.
pub fn authorized(authorization: Option<&str>, api_key: &str) -> (r: bool)
    ensures
        r == bearer_matches(
            match authorization {
                Some(v) => Some(v@),
                None => None,
            },
            api_key@,
        ),
{
    let value = match authorization {
        Some(v) => v,
        None => {
            return false;
        },
    };
    let cs = chars_of(value);
    let key = chars_of(api_key);
    let prefix = chars_of("Bearer ");
    proof {
        reveal_strlit("Bearer ");
    }
    if cs.len() < 7 {
        return false;
    }
    let head = &cs.as_slice()[0..7];
    let rest = &cs.as_slice()[7..cs.len()];
    assert(head@ =~= cs@.take(7));
    assert(rest@ =~= cs@.skip(7));
    same_chars(head, prefix.as_slice()) && same_chars(rest, key.as_slice())
}

/// Whether two character sequences are equal.
fn same_chars(a: &[char], b: &[char]) -> (r: bool)
    ensures
        r == (a@ == b@),
{
    if a.len() != b.len() {
        return false;
    }
    let mut i: usize = 0;
    while i < a.len()
        invariant
            a@.len() == b@.len(),
            i <= a@.len(),
            forall|j: int| 0 <= j < i ==> a@[j] == b@[j],
        decreases a@.len() - i,
    {
        if a[i] != b[i] {
            return false;
        }
        i = i + 1;
    }
    assert(a@ =~= b@);
    true
}

/// The message of a request whose amount is not an unsigned decimal `u64`.
pub open spec fn bad_amount_message() -> Seq<char> {
    "amountSompi must be an unsigned decimal u64 string"@
}

/// A refused API request: an HTTP status code and a message.
pub struct ApiError {
    pub status: u16,
    pub message: String,
}

/// Invoice lifetime in seconds when a request names none.
pub const DEFAULT_EXPIRES_IN: u64 = 900;

/// Confirmation distance when a request names none.
pub const DEFAULT_REQUIRED_BLUE_SCORE: u64 = 10;

/// The invoice request that an API call describes, its amount read from
/// decimal text and absent values defaulted.
pub open spec fn api_request(
    order_id: Seq<char>,
    amount_sompi: u64,
    expires_in: Option<u64>,
    required_blue_score: Option<u64>,
    redirect_url: Option<Seq<char>>,
    metadata: Seq<(Seq<char>, Seq<char>)>,
    idempotency_key: Option<Seq<char>>,
    now: u64,
) -> CreateInvoiceView {
    CreateInvoiceView {
        order_id,
        amount_sompi,
        now,
        expires_in: match expires_in {
            Some(v) => v,
            None => DEFAULT_EXPIRES_IN,
        },
        required_blue_score: match required_blue_score {
            Some(v) => v,
            None => DEFAULT_REQUIRED_BLUE_SCORE,
        },
        redirect_url,
        metadata,
        idempotency_key,
    }
}

/// Whether an API request with this amount text and lifetime gets as far as
/// looking up its idempotency key: the amount reads as a nonzero `u64` and
/// the lifetime (defaulted) is nonzero.
pub open spec fn reaches_key_lookup(amount_sompi: Seq<char>, expires_in: Option<u64>) -> bool {
    &&& parse_u64(amount_sompi) matches Some(a) && a != 0
    &&& match expires_in {
        Some(v) => v != 0,
        None => DEFAULT_EXPIRES_IN != 0,
    }
}

/// Whether [`create_invoice_from_api`] would look up the idempotency key of
/// a request with this amount text and lifetime (see [`reaches_key_lookup`]);
/// only then must the key resolve.
pub fn key_lookup_reached(amount_sompi: &str, expires_in: Option<u64>) -> (r: bool)
    ensures
        r == reaches_key_lookup(amount_sompi@, expires_in),
{
    let lifetime = match expires_in {
        Some(v) => v,
        None => DEFAULT_EXPIRES_IN,
    };
    match parse_decimal_u64(amount_sompi) {
        Some(a) => a != 0 && lifetime != 0,
        None => false,
    }
}

/// Handles `POST /api/v1/invoices` once the caller is authorized: reads the
/// amount (refused with 400 when it is not an unsigned decimal `u64`), fills
/// in the default lifetime and confirmation distance, and creates the
/// invoice (a refusal by the gateway is a 400 carrying the error's name).
/// When the request reaches the key lookup (see [`reaches_key_lookup`]), a
/// known idempotency key must lead to an existing invoice (see
/// [`Gateway::key_resolves`]).
pub fn create_invoice_from_api(
    gateway: &mut Gateway,
    order_id: String,
    amount_sompi: &str,
    expires_in: Option<u64>,
    required_blue_score: Option<u64>,
    redirect_url: Option<String>,
    metadata: Metadata,
    idempotency_key: Option<String>,
    now: u64,
) -> (r: Result<Invoice, ApiError>)
    requires
        old(gateway).wf(),
        reaches_key_lookup(amount_sompi@, expires_in) ==> old(gateway)@.key_resolves(
            opt_view(idempotency_key),
        ),
    ensures
        final(gateway).wf(),
        invoices_apart(old(gateway)@) ==> invoices_apart(final(gateway)@),
        match parse_u64(amount_sompi@) {
            None => final(gateway)@ == old(gateway)@ && (r matches Err(e) && e.status == 400
                && e.message@ == bad_amount_message()),
            Some(amount) => exists|id: Seq<char>|
                {
                    let outcome = #[trigger] create_outcome(
                        old(gateway)@,
                        api_request(
                            order_id@,
                            amount,
                            expires_in,
                            required_blue_score,
                            opt_view(redirect_url),
                            metadata_view(metadata@),
                            opt_view(idempotency_key),
                            now,
                        ),
                        id,
                    );
                    &&& is_random_id("inv"@, id)
                    &&& final(gateway)@ == outcome.0
                    &&& match (r, outcome.1) {
                        (Ok(inv), Ok(expected)) => inv@ == expected,
                        (Err(e), Err(g)) => e.status == 400 && e.message@ == g.name(),
                        _ => false,
                    }
                },
        },
{
    let amount = match parse_decimal_u64(amount_sompi) {
        Some(a) => a,
        None => {
            return Err(
                ApiError {
                    status: 400,
                    message: String::from_str("amountSompi must be an unsigned decimal u64 string"),
                },
            );
        },
    };
    let request = CreateInvoice {
        order_id,
        amount_sompi: amount,
        now,
        expires_in: match expires_in {
            Some(v) => v,
            None => DEFAULT_EXPIRES_IN,
        },
        required_blue_score: match required_blue_score {
            Some(v) => v,
            None => DEFAULT_REQUIRED_BLUE_SCORE,
        },
        redirect_url,
        metadata,
        idempotency_key,
    };
    match gateway.create_invoice(request) {
        Ok(inv) => Ok(inv),
        Err(e) => Err(ApiError { status: 400, message: e.message() }),
    }
}

/// The message when the configured viewing key is not hexadecimal.
pub open spec fn key_not_hex_message() -> Seq<char> {
    "ZKAS_GATEWAY_FVK is not hex"@
}

/// The message when the configured viewing key is not 96 bytes long.
pub open spec fn key_length_message() -> Seq<char> {
    "ZKAS_GATEWAY_FVK must be 96 bytes"@
}

/// Reads the merchant's full viewing key from its hexadecimal configuration value.
pub fn viewing_key_from_hex(text: &str) -> (r: Result<[u8; 96], String>)
    ensures
        match hex_decode(text@) {
            None => r matches Err(m) && m@ == key_not_hex_message(),
            Some(bytes) => if bytes.len() == 96 {
                r matches Ok(key) && key@ == bytes
            } else {
                r matches Err(m) && m@ == key_length_message()
            },
        },
{
    let cs = chars_of(text);
    let bytes = match hex_decode_chars(cs.as_slice()) {
        Some(b) => b,
        None => {
            return Err(String::from_str("ZKAS_GATEWAY_FVK is not hex"));
        },
    };
    if bytes.len() != 96 {
        return Err(String::from_str("ZKAS_GATEWAY_FVK must be 96 bytes"));
    }
    let mut key = [0u8; 96];
    let mut i: usize = 0;
    while i < 96
        invariant
            bytes@.len() == 96,
            i <= 96,
            forall|j: int| 0 <= j < i ==> key@[j] == bytes@[j],
        decreases 96 - i,
    {
        key[i] = bytes[i];
        i = i + 1;
    }
    assert(key@ =~= bytes@);
    Ok(key)
}


/// One row of the wallet's transaction history, as the wallet reported it.
pub struct HistoryRow {
    pub kind: Option<String>,
    pub recipient: Option<String>,
    pub txid: Option<String>,
    pub amount_sompi_exact: Option<String>,
    pub amount_sompi: Option<u64>,
    pub daa_score: Option<u64>,
}

/// The mathematical value of a [`HistoryRow`].
pub struct HistoryRowView {
    pub kind: Option<Seq<char>>,
    pub recipient: Option<Seq<char>>,
    pub txid: Option<Seq<char>>,
    pub amount_sompi_exact: Option<Seq<char>>,
    pub amount_sompi: Option<u64>,
    pub daa_score: Option<u64>,
}

impl View for HistoryRow {
    type V = HistoryRowView;

    open spec fn view(&self) -> HistoryRowView {
        HistoryRowView {
            kind: opt_view(self.kind),
            recipient: opt_view(self.recipient),
            txid: opt_view(self.txid),
            amount_sompi_exact: opt_view(self.amount_sompi_exact),
            amount_sompi: self.amount_sompi,
            daa_score: self.daa_score,
        }
    }
}

/// A received note, ready to be observed.
#[derive(Clone, Copy, Debug, PartialEq, Eq)]
pub struct Observation {
    pub recipient: [u8; 43],
    pub transaction_id: [u8; 32],
    pub amount_sompi: u64,
    pub daa_score: u64,
}

/// The amount of a row: the exact decimal amount when it parses, else the
/// numeric amount, else zero.
pub open spec fn row_amount(row: HistoryRowView) -> u64 {
    match row.amount_sompi_exact {
        Some(text) => match parse_u64(text) {
            Some(v) => v,
            None => match row.amount_sompi {
                Some(v) => v,
                None => 0,
            },
        },
        None => match row.amount_sompi {
            Some(v) => v,
            None => 0,
        },
    }
}

/// Whether a row reports a received note to an address with a 43-byte
/// payload and a transaction id of 32 hexadecimal-encoded bytes.
pub open spec fn row_is_observable(row: HistoryRowView) -> bool {
    &&& row.kind == Some("received"@)
    &&& row.recipient matches Some(r) && (kaspa_address_payload(r) matches Some(p) && p.len() == 43)
    &&& row.txid matches Some(t) && (hex_decode(t) matches Some(b) && b.len() == 32)
}

/// The note a history row reports, if it is an observable received note.
pub open spec fn observation_of_row(row: HistoryRowView) -> Option<Observation> {
    if row_is_observable(row) {
        Some(
            Observation {
                recipient: choose|a: [u8; 43]| a@ == kaspa_address_payload(row.recipient->0)->0,
                transaction_id: choose|a: [u8; 32]| a@ == hex_decode(row.txid->0)->0,
                amount_sompi: row_amount(row),
                daa_score: match row.daa_score {
                    Some(d) => d,
                    None => 0,
                },
            },
        )
    } else {
        None
    }
}

fn bytes32(v: &Vec<u8>) -> (r: [u8; 32])
    requires
        v@.len() == 32,
    ensures
        r@ == v@,
{
    let mut a = [0u8; 32];
    let mut i: usize = 0;
    while i < 32
        invariant
            v@.len() == 32,
            i <= 32,
            forall|j: int| 0 <= j < i ==> a@[j] == v@[j],
        decreases 32 - i,
    {
        a[i] = v[i];
        i = i + 1;
    }
    assert(a@ =~= v@);
    a
}

fn is_received(kind: &Option<String>) -> (r: bool)
    ensures
        r == (opt_view(*kind) == Some("received"@)),
{
    match kind {
        Some(k) => {
            let cs = chars_of(k.as_str());
            let expected = chars_of("received");
            same_chars(cs.as_slice(), expected.as_slice())
        },
        None => false,
    }
}

/// The note a history row reports, if any (see [`observation_of_row`]).
pub fn observation_of(row: &HistoryRow) -> (r: Option<Observation>)
    ensures
        r == observation_of_row(row@),
{
    broadcast use vstd::array::axiom_array_ext_equal;

    if !is_received(&row.kind) {
        return None;
    }
    let recipient = match &row.recipient {
        Some(r) => match decode_address(r.as_str()) {
            Some(raw) => raw,
            None => {
                return None;
            },
        },
        None => {
            return None;
        },
    };
    let tx = match &row.txid {
        Some(t) => {
            let cs = chars_of(t.as_str());
            match hex_decode_chars(cs.as_slice()) {
                Some(bytes) => {
                    if bytes.len() != 32 {
                        return None;
                    }
                    bytes32(&bytes)
                },
                None => {
                    return None;
                },
            }
        },
        None => {
            return None;
        },
    };
    let amount = match &row.amount_sompi_exact {
        Some(text) => match parse_decimal_u64(text.as_str()) {
            Some(v) => v,
            None => match row.amount_sompi {
                Some(v) => v,
                None => 0,
            },
        },
        None => match row.amount_sompi {
            Some(v) => v,
            None => 0,
        },
    };
    let daa = match row.daa_score {
        Some(d) => d,
        None => 0,
    };
    let r = Observation { recipient, transaction_id: tx, amount_sompi: amount, daa_score: daa };
    proof {
        broadcast use vstd::array::lemma_array_index;

        assert(row_is_observable(row@));
        let spec_r = observation_of_row(row@)->0;
        assert(recipient@ == kaspa_address_payload(row@.recipient->0)->0);
        assert(tx@ == hex_decode(row@.txid->0)->0);
        assert(spec_r.recipient@ == recipient@);
        assert(spec_r.transaction_id@ == tx@);
        assert forall|j: int| 0 <= j < 43 implies spec_r.recipient[j] == recipient[j] by {
            assert(spec_r.recipient@[j] == recipient@[j]);
        }
        assert forall|j: int| 0 <= j < 32 implies spec_r.transaction_id[j] == tx[j] by {
            assert(spec_r.transaction_id@[j] == tx@[j]);
        }
        assert(spec_r.recipient =~= recipient);
        assert(spec_r.transaction_id =~= tx);
    }
    Some(r)
}

/// Observes the note that one history row reports, if any, at time
/// `time`; returns the state reached and the invoice reported as changed.
pub open spec fn observe_row(g: GatewayView, row: HistoryRowView, time: u64, sink_blue_score: u64) -> (
    GatewayView,
    Option<InvoiceView>,
) {
    match observation_of_row(row) {
        None => (g, None),
        Some(o) => {
            let out = observe_outcome(
                g,
                o.recipient,
                o.transaction_id,
                o.amount_sompi,
                o.daa_score,
                o.daa_score,
                sink_blue_score,
                time,
            );
            (
                out.0,
                match out.1 {
                    Ok(Some(inv)) => Some(inv),
                    _ => None,
                },
            )
        },
    }
}

/// Observes, in order, the notes that history rows report, each at the time
/// given for its row, with tip `sink_blue_score`; returns the state reached
/// and the invoices reported as changed, in order.
pub open spec fn observe_rows(
    g: GatewayView,
    rows: Seq<HistoryRowView>,
    times: Seq<u64>,
    sink_blue_score: u64,
) -> (GatewayView, Seq<InvoiceView>)
    decreases rows.len(),
{
    if rows.len() == 0 {
        (g, Seq::empty())
    } else {
        let before = observe_rows(g, rows.drop_last(), times.drop_last(), sink_blue_score);
        let step = observe_row(before.0, rows.last(), times.last(), sink_blue_score);
        (
            step.0,
            match step.1 {
                Some(inv) => before.1.push(inv),
                None => before.1,
            },
        )
    }
}

/// Observes the note of one row at the current time.
fn reconcile_row(gateway: &mut Gateway, row: &HistoryRow, tip_daa: u64) -> (r: Option<WebhookEvent>)
    requires
        old(gateway).wf(),
    ensures
        final(gateway).wf(),
        invoices_apart(old(gateway)@) ==> invoices_apart(final(gateway)@),
        exists|t: u64|
            {
                let step = #[trigger] observe_row(old(gateway)@, row@, t, tip_daa);
                &&& final(gateway)@ == step.0
                &&& match (r, step.1) {
                    (Some(e), Some(inv)) => reports(e, inv, inv.created_at),
                    (None, None) => true,
                    _ => false,
                }
            },
{
    match observation_of(row) {
        Some(o) => {
            let t = now();
            let result = gateway.observe_payment(
                o.recipient,
                o.transaction_id,
                o.amount_sompi,
                o.daa_score,
                o.daa_score,
                tip_daa,
                t,
            );
            assert(observe_row(old(gateway)@, row@, t, tip_daa).0 == gateway@);
            match result {
                Ok(Some(ev)) => Some(ev),
                _ => None,
            }
        },
        None => {
            assert(observe_row(old(gateway)@, row@, 0, tip_daa).0 == gateway@);
            None
        },
    }
}

/// The views of a list of history rows.
pub open spec fn rows_view(rows: Seq<HistoryRow>) -> Seq<HistoryRowView> {
    rows.map_values(|r: HistoryRow| r@)
}

/// Reconciles the wallet's history against the gateway at the node tip
/// `tip_daa`: every received note is observed (at the time of its
/// observation), then every invoice is re-evaluated; returns the events
/// of the observations that changed an invoice, then those of the check.
#[verifier::rlimit(100)]
pub fn reconcile(gateway: &mut Gateway, rows: &Vec<HistoryRow>, tip_daa: u64) -> (events: Vec<WebhookEvent>)
    requires
        old(gateway).wf(),
    ensures
        final(gateway).wf(),
        invoices_apart(old(gateway)@) ==> invoices_apart(final(gateway)@),
        exists|times: Seq<u64>|
            {
                let observed = #[trigger] observe_rows(old(gateway)@, rows_view(rows@), times, tip_daa);
                &&& times.len() == rows@.len()
                &&& events@.len() >= observed.1.len()
                &&& forall|j: int|
                    0 <= j < observed.1.len() ==> reports(
                        #[trigger] events@[j],
                        observed.1[j],
                        observed.1[j].created_at,
                    )
                &&& exists|checked_at: u64|
                    {
                        &&& final(gateway)@ == #[trigger] advance_outcome(observed.0, checked_at, tip_daa)
                        &&& advance_events(
                            observed.0,
                            checked_at,
                            tip_daa,
                            events@.skip(observed.1.len() as int),
                        )
                    }
            },
{
    let ghost start = gateway@;
    let ghost views = rows_view(rows@);
    let ghost mut times: Seq<u64> = Seq::empty();
    let ghost mut reported: Seq<InvoiceView> = Seq::empty();
    let mut events: Vec<WebhookEvent> = Vec::new();
    let mut i: usize = 0;
    while i < rows.len()
        invariant
            i <= rows@.len(),
            views == rows_view(rows@),
            times.len() == i,
            gateway.wf(),
            invoices_apart(start) ==> invoices_apart(gateway@),
            (gateway@, reported) == observe_rows(start, views.take(i as int), times, tip_daa),
            events@.len() == reported.len(),
            forall|j: int|
                0 <= j < reported.len() ==> reports(#[trigger] events@[j], reported[j], reported[j].created_at),
        decreases rows@.len() - i,
    {
        let ghost prefix = views.take(i as int);
        let ghost before = gateway@;
        let ghost prior = reported;
        let ghost prior_events = events@;
        let r = reconcile_row(gateway, &rows[i], tip_daa);
        proof {
            let t = choose|t: u64| {
                let step = #[trigger] observe_row(before, rows@[i as int]@, t, tip_daa);
                &&& gateway@ == step.0
                &&& match (r, step.1) {
                    (Some(e), Some(inv)) => reports(e, inv, inv.created_at),
                    (None, None) => true,
                    _ => false,
                }
            };
            let new_times = times.push(t);
            assert(new_times.drop_last() =~= times);
            assert(views.take(i + 1).drop_last() =~= prefix);
            assert(views.take(i + 1).last() == rows@[i as int]@);
            times = new_times;
            let step = observe_row(before, rows@[i as int]@, t, tip_daa);
            if step.1 is Some {
                reported = reported.push(step.1->0);
            }
        }
        match r {
            Some(ev) => {
                events.push(ev);
            },
            None => {},
        }
        proof {
            assert forall|j: int| 0 <= j < reported.len() implies reports(
                #[trigger] events@[j],
                reported[j],
                reported[j].created_at,
            ) by {
                if j < prior.len() {
                    assert(events@[j] == prior_events[j]);
                }
            }
        }
        i = i + 1;
    }
    assert(views.take(rows@.len() as int) =~= views);
    let ghost observed_state = gateway@;
    let checked_at = now();
    let mut more = gateway.advance(checked_at, tip_daa);
    let ghost first = events@;
    let ghost rest = more@;
    events.append(&mut more);
    proof {
        assert(events@.skip(first.len() as int) =~= rest);
        assert(forall|j: int| 0 <= j < first.len() ==> #[trigger] events@[j] == first[j]);
        let observed = observe_rows(start, rows_view(rows@), times, tip_daa);
        assert(observed == (observed_state, reported));
        assert(first.len() == reported.len());
        assert(gateway@ == advance_outcome(observed.0, checked_at, tip_daa));
        assert(advance_events(observed.0, checked_at, tip_daa, events@.skip(observed.1.len() as int)));
        assert forall|j: int| 0 <= j < observed.1.len() implies reports(
            #[trigger] events@[j],
            observed.1[j],
            observed.1[j].created_at,
        ) by {
            assert(events@[j] == first[j]);
        }
    }
    events
}

} // verus!
