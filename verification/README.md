# ZKas payment gateway

A merchant payment gateway for shielded ZKas payments: each invoice gets its
own Orchard diversified address derived from the merchant's full viewing key,
received notes are reconciled against invoices, invoices move through
`new → partial → paid → confirmed` (or `overpaid`, `expired`, `paid_late`),
and status changes are delivered as HMAC-signed webhooks.

The library in `src/` is verified with Verus:

- `invoice.rs` — invoices, payments, the confirmation policy, events.
- `gateway.rs` — the gateway state machine (creation with idempotency keys,
  payment observation with duplicate protection, the periodic check,
  snapshots and restore), with its mathematical model `GatewayView`.
- `laws.rs` — properties that span several operations.
- `webhook.rs` — webhook signatures and random identifiers.
- `service.rs` — the decisions of the HTTP service: authorization, request
  defaults, configuration values and wallet-history reconciliation.
- `checkout.rs` — the hosted checkout page.
- `address.rs` — Orchard address derivation and Kaspa address text.
- `text.rs`, `keyed.rs` — decimal/hex text and association lists.

Calls into `orchard`, `kaspa-addresses`, `hmac`/`sha2`, `rand` and `qrcode`
sit behind small trusted wrappers whose contracts name what those crates
compute.

## Known limitation: address version

Invoice addresses need a Kaspa address version for shielded Orchard payloads
(43 bytes). The `kaspa-addresses` release available from crates.io (2.1.0)
has no such version: it only knows `PubKey`, `PubKeyECDSA` and `ScriptHash`
and parses only 32- or 33-byte payloads. This crate therefore writes the
43-byte payload under `Version::PubKey`, which is not a valid Kaspa address
for wallets, and it cannot parse such an address back. As a consequence,
with this release:

- the address text of every invoice differs from the shielded address a
  ZKas wallet expects;
- `Gateway::restore` refuses the snapshot of any gateway that has created an
  invoice (`AddressMismatch`), so the service cannot restart from a state
  file holding invoices;
- `service::reconcile` never matches a wallet-history row, so no payment is
  detected by the running service.

The verified logic is stated over the named address functions and holds for
an address crate with the shielded version; building against one restores
these paths.

`app/` is the runnable service (axum, tokio, reqwest, serde): HTTP routes,
the state file, the wallet poller and webhook delivery.
