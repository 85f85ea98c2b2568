//! Properties of the gateway that span several operations.

use crate::address::{kaspa_address_text, orchard_raw_address, orchard_viewing_key_valid};
use crate::gateway::{
    address_parses, addresses_apart, parsed_address_entries, indices_apart, advance_changes, advance_outcome, advanced_invoice, all_payment_pairs, create_outcome,
    credited_invoice, id_entries, observe_outcome, payment_pairs, restore_outcome, GatewayError,
    GatewaySnapshotView, GatewayView,
};
use crate::invoice::{
    all_payments_confirmed, status_of_payments, CreateInvoiceView, InvoiceStatus, InvoiceView,
    Payment,
};
use crate::text::{decimal, trim_trailing};
use crate::webhook::webhook_message;
use crate::service::{observation_of_row, HistoryRowView};
use crate::text::{hex_decode, parse_u64};
use crate::address::kaspa_address_payload;
use crate::keyed::{distinct_keys, keyed_map, lemma_keyed_distinct_value, lemma_keyed_dom, lemma_keyed_value};
use vstd::prelude::*;

verus! {

/// Whether `request` carries no idempotency key that `g` already knows.
pub open spec fn fresh_request(g: GatewayView, request: CreateInvoiceView) -> bool {
    !(request.idempotency_key matches Some(key) && g.idempotency.contains_key(key))
}

/// Creating an invoice again with the idempotency key of a successful
/// creation gives back the same invoice and changes nothing, whatever id the
/// second attempt would have received (provided its amount and lifetime are
/// not zero, which are checked first).
pub proof fn lemma_idempotent_creation(
    g: GatewayView,
    first: CreateInvoiceView,
    id: Seq<char>,
    again: CreateInvoiceView,
    other_id: Seq<char>,
)
    requires
        first.idempotency_key is Some,
        again.idempotency_key == first.idempotency_key,
        again.amount_sompi != 0,
        again.expires_in != 0,
        create_outcome(g, first, id).1 is Ok,
    ensures
        create_outcome(create_outcome(g, first, id).0, again, other_id) == create_outcome(g, first, id),
{
}

/// An invoice created afresh takes the gateway's next diversifier index and
/// the address of that index; two invoices created afresh one after the
/// other receive different indices.
pub proof fn lemma_fresh_invoices_take_new_indices(
    g: GatewayView,
    r1: CreateInvoiceView,
    id1: Seq<char>,
    r2: CreateInvoiceView,
    id2: Seq<char>,
)
    requires
        fresh_request(g, r1),
        create_outcome(g, r1, id1).1 is Ok,
        fresh_request(create_outcome(g, r1, id1).0, r2),
        create_outcome(create_outcome(g, r1, id1).0, r2, id2).1 is Ok,
    ensures
        ({
            let g1 = create_outcome(g, r1, id1).0;
            let inv1 = create_outcome(g, r1, id1).1->Ok_0;
            let inv2 = create_outcome(g1, r2, id2).1->Ok_0;
            &&& inv1.diversifier_index == g.next_diversifier
            &&& inv2.diversifier_index == g1.next_diversifier
            &&& g1.next_diversifier == g.next_diversifier + 1
            &&& inv1.diversifier_index != inv2.diversifier_index
            &&& inv1.address == kaspa_address_text(
                g.prefix,
                orchard_raw_address(g.viewing_key, inv1.diversifier_index),
            )
            &&& inv2.address == kaspa_address_text(
                g.prefix,
                orchard_raw_address(g.viewing_key, inv2.diversifier_index),
            )
        }),
{
}

/// Observing the same note a second time changes nothing and reports
/// nothing new: scanner retries are safe.
pub proof fn lemma_observation_retry_is_noop(
    g: GatewayView,
    recipient: [u8; 43],
    transaction_id: [u8; 32],
    amount_sompi: u64,
    blue_score: u64,
    daa_score: u64,
    sink_blue_score: u64,
    observed_at: u64,
    amount_again: u64,
    blue_again: u64,
    daa_again: u64,
    sink_again: u64,
    observed_again: u64,
)
    ensures
        ({
            let first = observe_outcome(
                g,
                recipient,
                transaction_id,
                amount_sompi,
                blue_score,
                daa_score,
                sink_blue_score,
                observed_at,
            );
            let second = observe_outcome(
                first.0,
                recipient,
                transaction_id,
                amount_again,
                blue_again,
                daa_again,
                sink_again,
                observed_again,
            );
            &&& second.0 == first.0
            &&& second.1 == (if first.1 == Err::<Option<InvoiceView>, GatewayError>(
                GatewayError::AddressMismatch,
            ) {
                Err(GatewayError::AddressMismatch)
            } else {
                Ok(None::<InvoiceView>)
            })
        }),
{
}

/// In a consistent gateway an observed address always leads to an invoice.
pub proof fn lemma_no_unknown_invoice(
    g: GatewayView,
    recipient: [u8; 43],
    transaction_id: [u8; 32],
    amount_sompi: u64,
    blue_score: u64,
    daa_score: u64,
    sink_blue_score: u64,
    observed_at: u64,
)
    requires
        g.consistent(),
    ensures
        observe_outcome(
            g,
            recipient,
            transaction_id,
            amount_sompi,
            blue_score,
            daa_score,
            sink_blue_score,
            observed_at,
        ).1 != Err::<Option<InvoiceView>, GatewayError>(GatewayError::UnknownInvoice),
{
}

/// What each status means: confirmed is exactly the amount with every
/// payment deep enough; paid is exactly the amount not yet deep enough;
/// overpaid and partial are more and less than the amount.
pub proof fn lemma_status_meaning(inv: InvoiceView, sink_blue_score: u64)
    ensures
        status_of_payments(inv, sink_blue_score) == InvoiceStatus::Confirmed <==> (inv.paid_sompi
            == inv.amount_sompi && all_payments_confirmed(inv, sink_blue_score)),
        status_of_payments(inv, sink_blue_score) == InvoiceStatus::Paid <==> (inv.paid_sompi
            == inv.amount_sompi && !all_payments_confirmed(inv, sink_blue_score)),
        status_of_payments(inv, sink_blue_score) == InvoiceStatus::Overpaid <==> inv.paid_sompi
            > inv.amount_sompi,
        status_of_payments(inv, sink_blue_score) == InvoiceStatus::Partial <==> inv.paid_sompi
            < inv.amount_sompi,
{
}

/// The periodic check expires an invoice only when nothing was paid and its
/// expiry has passed, never marks an invoice paid late, and never moves a
/// paid-late invoice anywhere else.
pub proof fn lemma_expiry_only_when_unpaid(inv: InvoiceView, now: u64, sink_blue_score: u64)
    ensures
        advanced_invoice(inv, now, sink_blue_score).status == InvoiceStatus::Expired && inv.status
            != InvoiceStatus::Expired ==> inv.paid_sompi == 0 && now >= inv.expires_at,
        advanced_invoice(inv, now, sink_blue_score).status == InvoiceStatus::PaidLate <==> inv.status
            == InvoiceStatus::PaidLate,
{
}

/// A payment credited to an expired invoice, or seen at or after the
/// expiry, marks the invoice paid late; one seen earlier for an invoice that
/// had not expired never does.
pub proof fn lemma_late_payment(
    inv: InvoiceView,
    transaction_id: [u8; 32],
    amount_sompi: u64,
    blue_score: u64,
    daa_score: u64,
    sink_blue_score: u64,
    observed_at: u64,
)
    ensures
        (credited_invoice(
            inv,
            transaction_id,
            amount_sompi,
            blue_score,
            daa_score,
            sink_blue_score,
            observed_at,
        ).status == InvoiceStatus::PaidLate) <==> (inv.status == InvoiceStatus::Expired || observed_at
            >= inv.expires_at),
{
}

proof fn lemma_payment_pair_listed(invs: Seq<InvoiceView>, i: int, j: int)
    requires
        0 <= i < invs.len(),
        0 <= j < invs[i].payments.len(),
    ensures
        all_payment_pairs(invs).contains((invs[i].payments[j].transaction_id@, invs[i].id)),
    decreases invs.len(),
{
    let pre = invs.drop_last();
    if i < invs.len() - 1 {
        lemma_payment_pair_listed(pre, i, j);
        let k = choose|k: int|
            0 <= k < all_payment_pairs(pre).len() && all_payment_pairs(pre)[k] == (
                invs[i].payments[j].transaction_id@,
                invs[i].id,
            );
        assert(all_payment_pairs(invs)[k] == all_payment_pairs(pre)[k]);
    } else {
        let base = all_payment_pairs(pre).len();
        assert(payment_pairs(invs.last())[j] == (invs[i].payments[j].transaction_id@, invs[i].id));
        assert(all_payment_pairs(invs)[base + j] == payment_pairs(invs.last())[j]);
    }
}

/// Restoring from a snapshot of a gateway gives back its invoices,
/// idempotency keys and diversifier counter, and counts every payment that
/// any invoice recorded as already seen, so repeated creations and repeated
/// notes are recognised after a restart. This needs every invoice address to
/// parse back to a 43-byte payload.
pub proof fn lemma_restore_preserves_state(g: GatewayView, s: GatewaySnapshotView, public_url: Seq<char>)
    requires
        orchard_viewing_key_valid(g.viewing_key),
        distinct_keys(id_entries(s.invoices)),
        keyed_map(id_entries(s.invoices)) == g.invoices,
        keyed_map(s.idempotency) == g.idempotency,
        s.next_diversifier == g.next_diversifier,
        forall|i: int| 0 <= i < s.invoices.len() ==> address_parses(#[trigger] s.invoices[i]),
    ensures
        restore_outcome(g.viewing_key, g.prefix, public_url, s) is Ok,
        ({
            let h = restore_outcome(g.viewing_key, g.prefix, public_url, s)->Ok_0;
            &&& h.invoices == g.invoices
            &&& h.idempotency == g.idempotency
            &&& h.next_diversifier == g.next_diversifier
            &&& forall|id: Seq<char>, j: int|
                g.invoices.contains_key(id) && 0 <= j < g.invoices[id].payments.len() ==> h.seen.contains(
                    (#[trigger] g.invoices[id].payments[j].transaction_id@, id),
                )
        }),
{
    let h = restore_outcome(g.viewing_key, g.prefix, public_url, s)->Ok_0;
    assert forall|id: Seq<char>, j: int|
        g.invoices.contains_key(id) && 0 <= j < g.invoices[id].payments.len() implies h.seen.contains(
        (#[trigger] g.invoices[id].payments[j].transaction_id@, id),
    ) by {
        lemma_keyed_dom(id_entries(s.invoices), id);
        let i = choose|i: int| 0 <= i < id_entries(s.invoices).len() && id_entries(s.invoices)[i].0 == id;
        lemma_keyed_distinct_value(id_entries(s.invoices), i);
        lemma_payment_pair_listed(s.invoices, i, j);
    }
}

/// Creating invoices, observing notes and the periodic check keep every
/// invoice on a diversifier index of its own, below the next one to be
/// issued, with the address that its own index derives: invoices never
/// share a derivation index (a fresh gateway has no invoices).
pub proof fn lemma_invoices_keep_their_own_indices(
    g: GatewayView,
    request: CreateInvoiceView,
    id: Seq<char>,
    recipient: [u8; 43],
    transaction_id: [u8; 32],
    amount_sompi: u64,
    blue_score: u64,
    daa_score: u64,
    sink_blue_score: u64,
    observed_at: u64,
    now: u64,
)
    requires
        indices_apart(g),
    ensures
        indices_apart(create_outcome(g, request, id).0),
        indices_apart(
            observe_outcome(
                g,
                recipient,
                transaction_id,
                amount_sompi,
                blue_score,
                daa_score,
                sink_blue_score,
                observed_at,
            ).0,
        ),
        indices_apart(advance_outcome(g, now, sink_blue_score)),
{
    let c = create_outcome(g, request, id).0;
    assert(indices_apart(c)) by {
        assert forall|a: Seq<char>| #[trigger] c.invoices.contains_key(a) implies c.invoices[a].diversifier_index
            < c.next_diversifier by {
            if a != id {
                assert(g.invoices.contains_key(a));
            }
        }
        assert forall|a: Seq<char>, b: Seq<char>|
            c.invoices.contains_key(a) && c.invoices.contains_key(b) && a != b implies (
            #[trigger] c.invoices[a]).diversifier_index != (#[trigger] c.invoices[b]).diversifier_index by {
            if a != id {
                assert(g.invoices.contains_key(a));
            }
            if b != id {
                assert(g.invoices.contains_key(b));
            }
        }
    }
    let o = observe_outcome(
        g,
        recipient,
        transaction_id,
        amount_sompi,
        blue_score,
        daa_score,
        sink_blue_score,
        observed_at,
    ).0;
    assert(indices_apart(o)) by {
        assert forall|a: Seq<char>| #[trigger] o.invoices.contains_key(a) implies o.invoices[a].diversifier_index
            < o.next_diversifier by {
            assert(g.invoices.contains_key(a));
        }
        assert forall|a: Seq<char>, b: Seq<char>|
            o.invoices.contains_key(a) && o.invoices.contains_key(b) && a != b implies (
            #[trigger] o.invoices[a]).diversifier_index != (#[trigger] o.invoices[b]).diversifier_index by {
            assert(g.invoices.contains_key(a));
            assert(g.invoices.contains_key(b));
            assert(g.invoices[a].diversifier_index != g.invoices[b].diversifier_index);
        }
    }
    let v = advance_outcome(g, now, sink_blue_score);
    assert(indices_apart(v)) by {
        assert forall|a: Seq<char>| #[trigger] v.invoices.contains_key(a) implies v.invoices[a].diversifier_index
            < v.next_diversifier by {
            assert(g.invoices.contains_key(a));
        }
        assert forall|a: Seq<char>, b: Seq<char>|
            v.invoices.contains_key(a) && v.invoices.contains_key(b) && a != b implies (
            #[trigger] v.invoices[a]).diversifier_index != (#[trigger] v.invoices[b]).diversifier_index by {
            assert(g.invoices.contains_key(a));
            assert(g.invoices.contains_key(b));
            assert(g.invoices[a].diversifier_index != g.invoices[b].diversifier_index);
        }
    }
}

/// A payment is never confirmed on first sight: when the invoice asks for a
/// confirmation distance and the tip is less than that distance beyond the
/// new payment, crediting it leaves the invoice short of confirmed.
pub proof fn lemma_no_instant_confirmation(
    inv: InvoiceView,
    transaction_id: [u8; 32],
    amount_sompi: u64,
    blue_score: u64,
    daa_score: u64,
    sink_blue_score: u64,
    observed_at: u64,
)
    requires
        inv.required_blue_score > 0,
        sink_blue_score < blue_score + inv.required_blue_score,
    ensures
        credited_invoice(
            inv,
            transaction_id,
            amount_sompi,
            blue_score,
            daa_score,
            sink_blue_score,
            observed_at,
        ).status != InvoiceStatus::Confirmed,
{
    let u = credited_invoice(
        inv,
        transaction_id,
        amount_sompi,
        blue_score,
        daa_score,
        sink_blue_score,
        observed_at,
    );
    let credited = InvoiceView {
        paid_sompi: (inv.paid_sompi + amount_sompi) as u64,
        payments: inv.payments.push(
            crate::invoice::Payment { transaction_id, amount_sompi, blue_score, daa_score },
        ),
        ..inv
    };
    assert(credited.payments[inv.payments.len() as int].blue_score == blue_score);
    assert(!all_payments_confirmed(credited, sink_blue_score));
}

/// Repeating the periodic check with the same time and tip changes nothing
/// and finds nothing to report: polling again is safe.
pub proof fn lemma_repeated_check_is_noop(g: GatewayView, now: u64, sink_blue_score: u64)
    ensures
        advance_outcome(advance_outcome(g, now, sink_blue_score), now, sink_blue_score)
            == advance_outcome(g, now, sink_blue_score),
        forall|id: Seq<char>| #[trigger]
            advance_outcome(g, now, sink_blue_score).invoices.contains_key(id) ==> !advance_changes(
                advance_outcome(g, now, sink_blue_score).invoices[id],
                now,
                sink_blue_score,
            ),
{
    let once = advance_outcome(g, now, sink_blue_score);
    let twice = advance_outcome(once, now, sink_blue_score);
    assert forall|id: Seq<char>| #[trigger] once.invoices.contains_key(id) implies advanced_invoice(
        once.invoices[id],
        now,
        sink_blue_score,
    ) == once.invoices[id] by {
        let inv = g.invoices[id];
        let a = advanced_invoice(inv, now, sink_blue_score);
        assert(once.invoices[id] == a);
        if inv.paid_sompi >= inv.amount_sompi && !(inv.paid_sompi == 0 && now >= inv.expires_at) {
            assert(a.payments == inv.payments);
            assert(status_of_payments(a, sink_blue_score) == status_of_payments(inv, sink_blue_score));
        }
    }
    assert(twice.invoices =~= once.invoices);
}

/// A refused creation records no invoice, address, idempotency key or
/// payment; only an expiry that overflows has already used up a diversifier
/// index.
pub proof fn lemma_refused_creation_records_nothing(g: GatewayView, request: CreateInvoiceView, id: Seq<char>)
    requires
        create_outcome(g, request, id).1 is Err,
    ensures
        ({
            let after = create_outcome(g, request, id).0;
            &&& after.invoices == g.invoices
            &&& after.by_address == g.by_address
            &&& after.idempotency == g.idempotency
            &&& after.seen == g.seen
            &&& after.next_diversifier == g.next_diversifier || (create_outcome(g, request, id).1
                == Err::<InvoiceView, GatewayError>(GatewayError::InvalidExpiry)
                && after.next_diversifier == g.next_diversifier + 1)
        }),
{
}

/// A refused observation changes no invoice, address or idempotency key; a
/// note that passed the address check stays counted as seen, so a retry
/// of it is ignored.
pub proof fn lemma_refused_observation_changes_no_invoice(
    g: GatewayView,
    recipient: [u8; 43],
    transaction_id: [u8; 32],
    amount_sompi: u64,
    blue_score: u64,
    daa_score: u64,
    sink_blue_score: u64,
    observed_at: u64,
)
    requires
        observe_outcome(
            g,
            recipient,
            transaction_id,
            amount_sompi,
            blue_score,
            daa_score,
            sink_blue_score,
            observed_at,
        ).1 is Err,
    ensures
        ({
            let after = observe_outcome(
                g,
                recipient,
                transaction_id,
                amount_sompi,
                blue_score,
                daa_score,
                sink_blue_score,
                observed_at,
            ).0;
            &&& after.invoices == g.invoices
            &&& after.by_address == g.by_address
            &&& after.idempotency == g.idempotency
            &&& after.next_diversifier == g.next_diversifier
            &&& g.by_address.contains_key(recipient@) ==> after.seen == g.seen.insert(
                (transaction_id@, g.by_address[recipient@]),
            )
        }),
{
}

/// Observing notes and the periodic check never change an invoice's
/// address, so invoices whose addresses all differ keep them apart. With
/// [`lemma_invoices_keep_their_own_indices`] and the contract of
/// [`crate::gateway::Gateway::create_invoice`] (a new invoice's address
/// differs from every other's), each invoice of a gateway started with
/// [`crate::gateway::Gateway::new`] has an address of its own.
pub proof fn lemma_addresses_stay_apart(
    g: GatewayView,
    recipient: [u8; 43],
    transaction_id: [u8; 32],
    amount_sompi: u64,
    blue_score: u64,
    daa_score: u64,
    sink_blue_score: u64,
    observed_at: u64,
    now: u64,
)
    requires
        addresses_apart(g),
    ensures
        addresses_apart(
            observe_outcome(
                g,
                recipient,
                transaction_id,
                amount_sompi,
                blue_score,
                daa_score,
                sink_blue_score,
                observed_at,
            ).0,
        ),
        addresses_apart(advance_outcome(g, now, sink_blue_score)),
{
    let o = observe_outcome(
        g,
        recipient,
        transaction_id,
        amount_sompi,
        blue_score,
        daa_score,
        sink_blue_score,
        observed_at,
    ).0;
    assert forall|a: Seq<char>, b: Seq<char>|
        o.invoices.contains_key(a) && o.invoices.contains_key(b) && a != b implies (
        #[trigger] o.invoices[a]).address != (#[trigger] o.invoices[b]).address by {
        assert(g.invoices.contains_key(a) && g.invoices.contains_key(b));
        assert(g.invoices[a].address != g.invoices[b].address);
    }
    let v = advance_outcome(g, now, sink_blue_score);
    assert forall|a: Seq<char>, b: Seq<char>|
        v.invoices.contains_key(a) && v.invoices.contains_key(b) && a != b implies (
        #[trigger] v.invoices[a]).address != (#[trigger] v.invoices[b]).address by {
        assert(g.invoices.contains_key(a) && g.invoices.contains_key(b));
        assert(g.invoices[a].address != g.invoices[b].address);
    }
}

/// One operation on a gateway's state: a creation (with the id it would
/// draw), an observed note, or a periodic check.
pub enum GatewayStep {
    Create { request: CreateInvoiceView, id: Seq<char> },
    Observe {
        recipient: [u8; 43],
        transaction_id: [u8; 32],
        amount_sompi: u64,
        blue_score: u64,
        daa_score: u64,
        sink_blue_score: u64,
        observed_at: u64,
    },
    Check { now: u64, sink_blue_score: u64 },
}

/// The state after one step.
pub open spec fn apply_step(g: GatewayView, step: GatewayStep) -> GatewayView {
    match step {
        GatewayStep::Create { request, id } => create_outcome(g, request, id).0,
        GatewayStep::Observe {
            recipient,
            transaction_id,
            amount_sompi,
            blue_score,
            daa_score,
            sink_blue_score,
            observed_at,
        } => observe_outcome(
            g,
            recipient,
            transaction_id,
            amount_sompi,
            blue_score,
            daa_score,
            sink_blue_score,
            observed_at,
        ).0,
        GatewayStep::Check { now, sink_blue_score } => advance_outcome(g, now, sink_blue_score),
    }
}

/// The state after a sequence of steps, in order.
pub open spec fn apply_steps(g: GatewayView, steps: Seq<GatewayStep>) -> GatewayView
    decreases steps.len(),
{
    if steps.len() == 0 {
        g
    } else {
        apply_step(apply_steps(g, steps.drop_last()), steps.last())
    }
}

/// Whether step `k` of `steps` is a creation that makes a new invoice
/// (no idempotency hit, and it succeeds).
pub open spec fn creates_fresh(g: GatewayView, steps: Seq<GatewayStep>, k: int) -> bool {
    let before = apply_steps(g, steps.take(k));
    &&& 0 <= k < steps.len()
    &&& steps[k] matches GatewayStep::Create { request, id } && fresh_request(before, request)
        && create_outcome(before, request, id).1 is Ok
}

/// The invoice that step `k` creates, when it is a creation.
pub open spec fn created_invoice(g: GatewayView, steps: Seq<GatewayStep>, k: int) -> InvoiceView {
    match steps[k] {
        GatewayStep::Create { request, id } => create_outcome(apply_steps(g, steps.take(k)), request, id).1->Ok_0,
        _ => arbitrary(),
    }
}

/// No step ever lowers the next diversifier index.
pub proof fn lemma_steps_never_lower_next_index(g: GatewayView, steps: Seq<GatewayStep>, i: int, j: int)
    requires
        0 <= i <= j <= steps.len(),
    ensures
        apply_steps(g, steps.take(i)).next_diversifier <= apply_steps(g, steps.take(j)).next_diversifier,
    decreases j - i,
{
    if i < j {
        lemma_steps_never_lower_next_index(g, steps, i, j - 1);
        assert(steps.take(j).drop_last() =~= steps.take(j - 1));
        assert(steps.take(j).last() == steps[j - 1]);
    }
}

/// Over any sequence of operations, invoices that sat on indices of their
/// own, with the addresses those indices derive, still do.
pub proof fn lemma_steps_keep_own_indices(g: GatewayView, steps: Seq<GatewayStep>)
    requires
        indices_apart(g),
    ensures
        indices_apart(apply_steps(g, steps)),
    decreases steps.len(),
{
    if steps.len() > 0 {
        let before = apply_steps(g, steps.drop_last());
        lemma_steps_keep_own_indices(g, steps.drop_last());
        match steps.last() {
            GatewayStep::Create { request, id } => {
                lemma_invoices_keep_their_own_indices(
                    before,
                    request,
                    id,
                    arbitrary(),
                    arbitrary(),
                    0,
                    0,
                    0,
                    0,
                    0,
                    0,
                );
            },
            GatewayStep::Observe {
                recipient,
                transaction_id,
                amount_sompi,
                blue_score,
                daa_score,
                sink_blue_score,
                observed_at,
            } => {
                lemma_invoices_keep_their_own_indices(
                    before,
                    arbitrary(),
                    arbitrary(),
                    recipient,
                    transaction_id,
                    amount_sompi,
                    blue_score,
                    daa_score,
                    sink_blue_score,
                    observed_at,
                    0,
                );
            },
            GatewayStep::Check { now, sink_blue_score } => {
                lemma_invoices_keep_their_own_indices(
                    before,
                    arbitrary(),
                    arbitrary(),
                    arbitrary(),
                    arbitrary(),
                    0,
                    0,
                    0,
                    sink_blue_score,
                    0,
                    now,
                );
            },
        }
    }
}

/// Over any sequence of operations, each invoice created afresh takes a
/// higher diversifier index than every one created afresh before it, and
/// carries the address its own index derives.
pub proof fn lemma_later_invoices_take_higher_indices(
    g: GatewayView,
    steps: Seq<GatewayStep>,
    i: int,
    j: int,
)
    requires
        i < j,
        creates_fresh(g, steps, i),
        creates_fresh(g, steps, j),
    ensures
        created_invoice(g, steps, i).diversifier_index < created_invoice(g, steps, j).diversifier_index,
        created_invoice(g, steps, j).address == kaspa_address_text(
            g.prefix,
            orchard_raw_address(g.viewing_key, created_invoice(g, steps, j).diversifier_index),
        ),
{
    let before_i = apply_steps(g, steps.take(i));
    let before_j = apply_steps(g, steps.take(j));
    assert(steps.take(i + 1).drop_last() =~= steps.take(i));
    assert(steps.take(i + 1).last() == steps[i]);
    lemma_steps_never_lower_next_index(g, steps, i + 1, j);
    lemma_steps_keep_key_and_prefix(g, steps.take(j));
}

/// No step changes the viewing key or the address prefix.
proof fn lemma_steps_keep_key_and_prefix(g: GatewayView, steps: Seq<GatewayStep>)
    ensures
        apply_steps(g, steps).viewing_key == g.viewing_key,
        apply_steps(g, steps).prefix == g.prefix,
    decreases steps.len(),
{
    if steps.len() > 0 {
        lemma_steps_keep_key_and_prefix(g, steps.drop_last());
    }
}

/// How far the tip `sink_blue_score` lies beyond `blue_score` (zero when it
/// does not).
pub open spec fn depth_behind(sink_blue_score: u64, blue_score: u64) -> nat {
    if sink_blue_score >= blue_score {
        (sink_blue_score - blue_score) as nat
    } else {
        0
    }
}

/// An invoice paid exactly in full is confirmed only when every one of its
/// payments, not just some, lies the required distance behind the tip: one
/// shallower payment keeps it paid.
pub proof fn lemma_one_shallow_payment_keeps_paid(inv: InvoiceView, sink_blue_score: u64, i: int)
    requires
        inv.paid_sompi == inv.amount_sompi,
        0 <= i < inv.payments.len(),
        depth_behind(sink_blue_score, inv.payments[i].blue_score) < inv.required_blue_score,
    ensures
        status_of_payments(inv, sink_blue_score) == InvoiceStatus::Paid,
{
    assert(!all_payments_confirmed(inv, sink_blue_score));
}

/// An invoice paid exactly in full whose every payment lies the required
/// distance behind the tip is confirmed.
pub proof fn lemma_all_deep_payments_confirm(inv: InvoiceView, sink_blue_score: u64)
    requires
        inv.paid_sompi == inv.amount_sompi,
        forall|i: int|
            0 <= i < inv.payments.len() ==> depth_behind(sink_blue_score, #[trigger] inv.payments[i].blue_score)
                >= inv.required_blue_score,
    ensures
        status_of_payments(inv, sink_blue_score) == InvoiceStatus::Confirmed,
{
    assert forall|i: int| 0 <= i < inv.payments.len() implies (if sink_blue_score >= (
    #[trigger] inv.payments[i]).blue_score {
        sink_blue_score - inv.payments[i].blue_score
    } else {
        0
    }) >= inv.required_blue_score by {
        assert(depth_behind(sink_blue_score, inv.payments[i].blue_score) >= inv.required_blue_score);
    }
}

/// Observing a note sent to an invoice's address, in a transaction not yet
/// counted for that invoice, credits that invoice and only it, whatever other
/// invoices the same transaction was counted for: the amount is added, the
/// payment is recorded after the earlier ones, the pair is remembered, every
/// other field stays; the status becomes paid-late when the invoice had
/// expired or the note came at or after the expiry, and otherwise partial,
/// overpaid, or (for exactly the amount) confirmed when every payment is deep
/// enough and paid when not; the updated invoice is reported exactly when
/// its status changed.
pub proof fn lemma_observation_credits_its_invoice(
    g: GatewayView,
    recipient: [u8; 43],
    transaction_id: [u8; 32],
    amount_sompi: u64,
    blue_score: u64,
    daa_score: u64,
    sink_blue_score: u64,
    observed_at: u64,
)
    requires
        g.by_address.contains_key(recipient@),
        g.invoices.contains_key(g.by_address[recipient@]),
        !g.seen.contains((transaction_id@, g.by_address[recipient@])),
        g.invoices[g.by_address[recipient@]].paid_sompi + amount_sompi <= u64::MAX,
    ensures
        ({
            let id = g.by_address[recipient@];
            let before = g.invoices[id];
            let out = observe_outcome(
                g,
                recipient,
                transaction_id,
                amount_sompi,
                blue_score,
                daa_score,
                sink_blue_score,
                observed_at,
            );
            let after = out.0.invoices[id];
            &&& out.0.invoices == g.invoices.insert(id, after)
            &&& after.paid_sompi == before.paid_sompi + amount_sompi
            &&& after.payments == before.payments.push(
                Payment { transaction_id, amount_sompi, blue_score, daa_score },
            )
            &&& after == InvoiceView { paid_sompi: after.paid_sompi, payments: after.payments, status: after.status, ..before }
            &&& out.0.seen == g.seen.insert((transaction_id@, id))
            &&& out.0.by_address == g.by_address
            &&& out.0.idempotency == g.idempotency
            &&& out.0.next_diversifier == g.next_diversifier
            &&& (before.status == InvoiceStatus::Expired || observed_at >= before.expires_at) ==> after.status
                == InvoiceStatus::PaidLate
            &&& !(before.status == InvoiceStatus::Expired || observed_at >= before.expires_at) ==> {
                &&& after.paid_sompi < after.amount_sompi ==> after.status == InvoiceStatus::Partial
                &&& after.paid_sompi > after.amount_sompi ==> after.status == InvoiceStatus::Overpaid
                &&& after.paid_sompi == after.amount_sompi ==> (after.status == InvoiceStatus::Confirmed
                    <==> forall|i: int|
                    0 <= i < after.payments.len() ==> depth_behind(
                        sink_blue_score,
                        #[trigger] after.payments[i].blue_score,
                    ) >= after.required_blue_score)
                &&& after.paid_sompi == after.amount_sompi ==> (after.status == InvoiceStatus::Confirmed
                    || after.status == InvoiceStatus::Paid)
            }
            &&& out.1 == (if after.status != before.status {
                Ok::<Option<InvoiceView>, GatewayError>(Some(after))
            } else {
                Ok(None)
            })
        }),
{
    let id = g.by_address[recipient@];
    let before = g.invoices[id];
    let out = observe_outcome(
        g,
        recipient,
        transaction_id,
        amount_sompi,
        blue_score,
        daa_score,
        sink_blue_score,
        observed_at,
    );
    let after = out.0.invoices[id];
    assert(out.0.invoices == g.invoices.insert(id, after));
    if !(before.status == InvoiceStatus::Expired || observed_at >= before.expires_at)
        && after.paid_sompi == after.amount_sompi {
        let credited = InvoiceView { status: before.status, ..after };
        assert(after.status == status_of_payments(credited, sink_blue_score));
        if forall|i: int|
            0 <= i < after.payments.len() ==> depth_behind(
                sink_blue_score,
                #[trigger] after.payments[i].blue_score,
            ) >= after.required_blue_score {
            lemma_all_deep_payments_confirm(credited, sink_blue_score);
        } else {
            let i = choose|i: int|
                0 <= i < after.payments.len() && !(depth_behind(
                    sink_blue_score,
                    #[trigger] after.payments[i].blue_score,
                ) >= after.required_blue_score);
            lemma_one_shallow_payment_keeps_paid(credited, sink_blue_score, i);
        }
    }
}

/// A creation with no known idempotency key succeeds exactly when the
/// amount and lifetime are not zero, an index is left and the expiry fits;
/// the invoice it returns, and stores under its id, is the request's: its
/// order id, amount, creation time, expiry (creation time plus lifetime),
/// confirmation distance, redirect link and metadata, with nothing paid, no
/// payment, status new, the gateway's next diversifier index, the address
/// that index derives, and a checkout link under the gateway's public URL;
/// the index counter moves on by one, the address and the key (if any) lead
/// to the new invoice, and nothing is counted as seen.
pub proof fn lemma_fresh_creation_keeps_the_request(g: GatewayView, request: CreateInvoiceView, id: Seq<char>)
    requires
        fresh_request(g, request),
    ensures
        (create_outcome(g, request, id).1 is Ok) <==> (request.amount_sompi != 0 && request.expires_in != 0
            && g.next_diversifier != u32::MAX && request.now + request.expires_in <= u64::MAX),
        request.amount_sompi == 0 ==> create_outcome(g, request, id) == (
            g,
            Err::<InvoiceView, GatewayError>(GatewayError::InvalidAmount),
        ),
        request.amount_sompi != 0 && request.expires_in == 0 ==> create_outcome(g, request, id) == (
            g,
            Err::<InvoiceView, GatewayError>(GatewayError::InvalidExpiry),
        ),
        create_outcome(g, request, id).1 is Ok ==> ({
            let inv = create_outcome(g, request, id).1->Ok_0;
            let h = create_outcome(g, request, id).0;
            let raw = orchard_raw_address(g.viewing_key, g.next_diversifier);
            &&& inv.id == id
            &&& inv.order_id == request.order_id
            &&& inv.amount_sompi == request.amount_sompi
            &&& inv.paid_sompi == 0
            &&& inv.status == InvoiceStatus::New
            &&& inv.created_at == request.now
            &&& inv.expires_at == request.now + request.expires_in
            &&& inv.required_blue_score == request.required_blue_score
            &&& inv.redirect_url == request.redirect_url
            &&& inv.metadata == request.metadata
            &&& inv.payments.len() == 0
            &&& inv.diversifier_index == g.next_diversifier
            &&& inv.address == kaspa_address_text(g.prefix, raw)
            &&& inv.checkout_url == g.public_url + "/checkout/"@ + id
            &&& h.invoices == g.invoices.insert(id, inv)
            &&& h.next_diversifier == g.next_diversifier + 1
            &&& h.by_address == g.by_address.insert(raw, id)
            &&& h.idempotency == (match request.idempotency_key {
                Some(k) => g.idempotency.insert(k, id),
                None => g.idempotency,
            })
            &&& h.seen == g.seen
            &&& h.viewing_key == g.viewing_key && h.prefix == g.prefix && h.public_url == g.public_url
        }),
{
}

/// Restoring succeeds exactly when the viewing key is valid and every
/// invoice address parses to a 43-byte payload; the restored gateway keeps
/// the key, the prefix, the public URL without trailing slashes (as
/// `Gateway::new` does), the snapshot's diversifier counter and its keys,
/// so that every invoice created after a restart links to
/// `<public URL>/checkout/<id>`.
pub proof fn lemma_restore_keeps_settings(
    viewing_key: Seq<u8>,
    prefix: crate::address::AddressPrefix,
    public_url: Seq<char>,
    s: GatewaySnapshotView,
    request: CreateInvoiceView,
    id: Seq<char>,
)
    ensures
        (restore_outcome(viewing_key, prefix, public_url, s) is Ok) <==> (orchard_viewing_key_valid(viewing_key)
            && forall|i: int| 0 <= i < s.invoices.len() ==> address_parses(#[trigger] s.invoices[i])),
        restore_outcome(viewing_key, prefix, public_url, s) is Ok ==> ({
            let h = restore_outcome(viewing_key, prefix, public_url, s)->Ok_0;
            &&& h.viewing_key == viewing_key
            &&& h.prefix == prefix
            &&& h.public_url == trim_trailing(public_url, '/')
            &&& h.next_diversifier == s.next_diversifier
            &&& h.idempotency == keyed_map(s.idempotency)
            &&& h.invoices == keyed_map(id_entries(s.invoices))
            &&& (fresh_request(h, request) && create_outcome(h, request, id).1 is Ok) ==> create_outcome(
                h,
                request,
                id,
            ).1->Ok_0.checkout_url == trim_trailing(public_url, '/') + "/checkout/"@ + id
        }),
{
}

/// The signed message is exactly the decimal timestamp in ASCII, a dot,
/// and the whole body, whatever its length.
pub proof fn lemma_webhook_message_layout(timestamp: u64, body: Seq<u8>)
    ensures
        ({
            let m = webhook_message(timestamp, body);
            let d = decimal(timestamp as nat);
            &&& m.len() == d.len() + 1 + body.len()
            &&& forall|i: int| 0 <= i < d.len() ==> m[i] == (#[trigger] d[i]) as u8
            &&& m[d.len() as int] == 46u8
            &&& m.skip(d.len() + 1int) == body
        }),
{
    let m = webhook_message(timestamp, body);
    let d = decimal(timestamp as nat);
    assert(m.skip(d.len() + 1int) =~= body);
}

/// What the periodic check does to each invoice: it keeps every invoice and
/// every field but the status; a paid-late invoice stays paid late; an
/// invoice with nothing paid whose expiry has come expires; one paid at
/// least in full becomes overpaid for more than the amount, and for exactly
/// the amount confirmed when every payment is deep enough and paid when
/// not; any other keeps its status. Nothing but the invoices changes.
pub proof fn lemma_check_rules(g: GatewayView, now: u64, sink_blue_score: u64, id: Seq<char>)
    requires
        g.invoices.contains_key(id),
    ensures
        ({
            let h = advance_outcome(g, now, sink_blue_score);
            let before = g.invoices[id];
            let after = h.invoices[id];
            &&& h.invoices.dom() == g.invoices.dom()
            &&& after == InvoiceView { status: after.status, ..before }
            &&& before.status == InvoiceStatus::PaidLate ==> after.status == InvoiceStatus::PaidLate
            &&& before.status != InvoiceStatus::PaidLate && before.paid_sompi == 0 && now >= before.expires_at
                ==> after.status == InvoiceStatus::Expired
            &&& before.status != InvoiceStatus::PaidLate && !(before.paid_sompi == 0 && now >= before.expires_at)
                ==> {
                &&& before.paid_sompi > before.amount_sompi ==> after.status == InvoiceStatus::Overpaid
                &&& before.paid_sompi == before.amount_sompi ==> (after.status == InvoiceStatus::Confirmed
                    <==> forall|i: int|
                    0 <= i < before.payments.len() ==> depth_behind(
                        sink_blue_score,
                        #[trigger] before.payments[i].blue_score,
                    ) >= before.required_blue_score)
                &&& before.paid_sompi == before.amount_sompi ==> (after.status == InvoiceStatus::Confirmed
                    || after.status == InvoiceStatus::Paid)
                &&& before.paid_sompi < before.amount_sompi ==> after.status == before.status
            }
            &&& h.by_address == g.by_address && h.idempotency == g.idempotency && h.seen == g.seen
            &&& h.next_diversifier == g.next_diversifier && h.public_url == g.public_url
        }),
{
    let h = advance_outcome(g, now, sink_blue_score);
    let before = g.invoices[id];
    assert(h.invoices.dom() =~= g.invoices.dom());
    if before.status != InvoiceStatus::PaidLate && !(before.paid_sompi == 0 && now >= before.expires_at)
        && before.paid_sompi == before.amount_sompi {
        if forall|i: int|
            0 <= i < before.payments.len() ==> depth_behind(
                sink_blue_score,
                #[trigger] before.payments[i].blue_score,
            ) >= before.required_blue_score {
            lemma_all_deep_payments_confirm(before, sink_blue_score);
        } else {
            let i = choose|i: int|
                0 <= i < before.payments.len() && !(depth_behind(
                    sink_blue_score,
                    #[trigger] before.payments[i].blue_score,
                ) >= before.required_blue_score);
            lemma_one_shallow_payment_keeps_paid(before, sink_blue_score, i);
        }
    }
}

/// How an observation is refused or ignored: a recipient no invoice owns is
/// refused with `AddressMismatch` and changes nothing; a (transaction,
/// invoice) pair already counted is ignored and changes nothing; a pair not
/// yet counted whose invoice is missing is refused with `UnknownInvoice`, and
/// one whose amount would overflow with `AmountOverflow`, both leaving the
/// invoices as they were.
pub proof fn lemma_observation_refusals(
    g: GatewayView,
    recipient: [u8; 43],
    transaction_id: [u8; 32],
    amount_sompi: u64,
    blue_score: u64,
    daa_score: u64,
    sink_blue_score: u64,
    observed_at: u64,
)
    ensures
        ({
            let out = observe_outcome(
                g,
                recipient,
                transaction_id,
                amount_sompi,
                blue_score,
                daa_score,
                sink_blue_score,
                observed_at,
            );
            let id = g.by_address[recipient@];
            &&& !g.by_address.contains_key(recipient@) ==> out == (
                g,
                Err::<Option<InvoiceView>, GatewayError>(GatewayError::AddressMismatch),
            )
            &&& g.by_address.contains_key(recipient@) && g.seen.contains((transaction_id@, id)) ==> out == (
                g,
                Ok::<Option<InvoiceView>, GatewayError>(None),
            )
            &&& g.by_address.contains_key(recipient@) && !g.seen.contains((transaction_id@, id))
                && !g.invoices.contains_key(id) ==> out.1 == Err::<Option<InvoiceView>, GatewayError>(
                GatewayError::UnknownInvoice,
            ) && out.0.invoices == g.invoices
            &&& g.by_address.contains_key(recipient@) && !g.seen.contains((transaction_id@, id))
                && g.invoices.contains_key(id) && g.invoices[id].paid_sompi + amount_sompi > u64::MAX
                ==> out.1 == Err::<Option<InvoiceView>, GatewayError>(GatewayError::AmountOverflow)
                && out.0.invoices == g.invoices
        }),
{
}

/// A creation whose idempotency key the gateway knows gives back the invoice
/// stored under that key and changes nothing, once the amount and lifetime
/// pass their checks.
pub proof fn lemma_known_key_returns_its_invoice(g: GatewayView, request: CreateInvoiceView, id: Seq<char>)
    requires
        request.amount_sompi != 0,
        request.expires_in != 0,
        request.idempotency_key matches Some(k) && g.idempotency.contains_key(k),
    ensures
        create_outcome(g, request, id) == (
            g,
            Ok::<InvoiceView, GatewayError>(g.invoices[g.idempotency[request.idempotency_key->0]]),
        ),
{
}

/// A creation with no known key, a nonzero amount and lifetime, is refused
/// with `DiversifierExhausted` (changing nothing) when no index is left, and
/// with `InvalidExpiry` when the expiry overflows, after the index was used
/// up.
pub proof fn lemma_fresh_creation_refusals(g: GatewayView, request: CreateInvoiceView, id: Seq<char>)
    requires
        fresh_request(g, request),
        request.amount_sompi != 0,
        request.expires_in != 0,
    ensures
        g.next_diversifier == u32::MAX ==> create_outcome(g, request, id) == (
            g,
            Err::<InvoiceView, GatewayError>(GatewayError::DiversifierExhausted),
        ),
        g.next_diversifier != u32::MAX && request.now + request.expires_in > u64::MAX ==> create_outcome(
            g,
            request,
            id,
        ) == (
            GatewayView { next_diversifier: (g.next_diversifier + 1) as u32, ..g },
            Err::<InvoiceView, GatewayError>(GatewayError::InvalidExpiry),
        ),
{
}

/// A wallet-history row yields a note exactly when it is a `received` row
/// whose recipient parses to a 43-byte payload and whose transaction id is
/// the hex of 32 bytes; the note carries that payload and those bytes, the
/// exact amount when its text parses (else the numeric amount, else zero)
/// and the row's DAA score (else zero).
pub proof fn lemma_history_row_note(row: HistoryRowView)
    ensures
        (observation_of_row(row) is Some) <==> ({
            &&& row.kind == Some("received"@)
            &&& row.recipient is Some
            &&& kaspa_address_payload(row.recipient->0) is Some
            &&& kaspa_address_payload(row.recipient->0)->0.len() == 43
            &&& row.txid is Some
            &&& hex_decode(row.txid->0) is Some
            &&& hex_decode(row.txid->0)->0.len() == 32
        }),
        observation_of_row(row) matches Some(o) ==> ({
            &&& o.recipient@ == kaspa_address_payload(row.recipient->0)->0
            &&& o.transaction_id@ == hex_decode(row.txid->0)->0
            &&& (row.amount_sompi_exact matches Some(t) && parse_u64(t) is Some) ==> o.amount_sompi == parse_u64(
                row.amount_sompi_exact->0,
            )->0
            &&& !(row.amount_sompi_exact matches Some(t) && parse_u64(t) is Some) ==> o.amount_sompi == (
            match row.amount_sompi {
                Some(v) => v,
                None => 0,
            })
            &&& o.daa_score == (match row.daa_score {
                Some(d) => d,
                None => 0,
            })
        }),
{
    if observation_of_row(row) is Some {
        let p = kaspa_address_payload(row.recipient->0)->0;
        let t = hex_decode(row.txid->0)->0;
        let a = lemma_array_of::<43>(p, 43);
        assert(a@ =~= p);
        let b = lemma_array_of::<32>(t, 32);
        assert(b@ =~= t);
    }
}

/// An array whose first `k` bytes are those of `p`.
proof fn lemma_array_of<const N: usize>(p: Seq<u8>, k: nat) -> (a: [u8; N])
    requires
        k <= N,
        p.len() == N,
    ensures
        a@.len() == N,
        forall|i: int| 0 <= i < k ==> a@[i] == p[i],
    decreases k,
{
    broadcast use vstd::array::group_array_axioms;

    if k == 0 {
        let a = vstd::array::spec_array_fill_for_copy_type::<u8, N>(0u8);
        vstd::array::array_len_matches_n(&a);
        a
    } else {
        let prev = lemma_array_of::<N>(p, (k - 1) as nat);
        let a = vstd::array::spec_array_update(prev, k - 1, p[k - 1]);
        vstd::array::array_len_matches_n(&a);
        a
    }
}

/// A restored gateway sends each invoice's parsed address to that invoice:
/// to the last invoice of the snapshot whose address parses to the same
/// payload, and so, with payloads that do not repeat, to each invoice's own
/// id; and every indexed address leads to a restored invoice.
pub proof fn lemma_restore_indexes_addresses(
    viewing_key: Seq<u8>,
    prefix: crate::address::AddressPrefix,
    public_url: Seq<char>,
    s: GatewaySnapshotView,
    i: int,
)
    requires
        restore_outcome(viewing_key, prefix, public_url, s) is Ok,
        0 <= i < s.invoices.len(),
        forall|j: int|
            i < j < s.invoices.len() ==> kaspa_address_payload((#[trigger] s.invoices[j]).address)->0
                != kaspa_address_payload(s.invoices[i].address)->0,
    ensures
        ({
            let h = restore_outcome(viewing_key, prefix, public_url, s)->Ok_0;
            let p = kaspa_address_payload(s.invoices[i].address)->0;
            &&& h.by_address.contains_key(p)
            &&& h.by_address[p] == s.invoices[i].id
            &&& h.invoices.contains_key(h.by_address[p])
        }),
{
    let e = parsed_address_entries(s.invoices);
    assert(e[i] == (kaspa_address_payload(s.invoices[i].address)->0, s.invoices[i].id));
    assert forall|j: int| i < j < e.len() implies e[j].0 != e[i].0 by {
        assert(e[j].0 == kaspa_address_payload(s.invoices[j].address)->0);
    }
    lemma_keyed_value(e, i);
    let ids = id_entries(s.invoices);
    assert(ids[i].0 == s.invoices[i].id);
    lemma_keyed_dom(ids, s.invoices[i].id);
}

} // verus!
