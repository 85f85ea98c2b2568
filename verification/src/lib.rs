//! Merchant invoice state machine for shielded payments.
//!
//! Each invoice receives a unique Orchard diversified address derived from
//! the merchant's full viewing key. The gateway detects and reconciles
//! payments but cannot spend merchant funds. Confirmation uses blue-score
//! distance, not block height.

pub mod address;
pub mod checkout;
pub mod gateway;
pub mod invoice;
pub mod keyed;
pub mod laws;
pub mod service;
pub mod text;
pub mod webhook;

pub use address::AddressPrefix;
pub use gateway::{Gateway, GatewayError, GatewaySnapshot};
pub use invoice::{CreateInvoice, Invoice, InvoiceStatus, Metadata, Payment, WebhookEvent};
pub use text::format_units;
pub use webhook::{sign_webhook, verify_webhook};
