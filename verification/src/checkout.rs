//! The hosted checkout page: a QR code of the payment link, the exact
//! amount in coins, the address, and a status poller.

use crate::invoice::Invoice;
use crate::text::{format_units, units_text};
use qrcode::render::svg;
use qrcode::QrCode;
use vstd::prelude::*;

verus! {

/// Part 1 of the checkout page template.
pub const PAGE_1: &'static str = r#"<!doctype html><html><head><meta charset="utf-8"><meta name="viewport" content="width=device-width"><title>Pay with ZKAS</title><style>body{font:16px system-ui;background:#0b1020;color:#eef;display:grid;place-items:center;min-height:100vh}main{max-width:560px;padding:32px;background:#151c31;border-radius:18px;text-align:center}svg{background:white;padding:10px;border-radius:12px}code{word-break:break-all;background:#080c17;padding:12px;display:block;border-radius:8px;text-align:left}button{padding:12px;margin-top:10px}.status{font-size:1.2rem}</style></head><body><main><h1>Pay with ZKAS</h1><div>"#;

/// Part 2 of the checkout page template.
pub const PAGE_2: &'static str = r#"</div><p>Send exactly <strong>"#;

/// Part 3 of the checkout page template.
pub const PAGE_3: &'static str = r#" ZKAS</strong></p><code id="address">"#;

/// Part 4 of the checkout page template.
pub const PAGE_4: &'static str = r#"</code><button onclick="navigator.clipboard.writeText(document.getElementById('address').textContent)">Copy address</button><p class="status" id="status">Waiting for payment…</p></main><script>const id="#;

/// Part 5 of the checkout page template.
pub const PAGE_5: &'static str = r#";setInterval(async()=>{const r=await fetch('/api/v1/invoices/'+id);const i=await r.json();document.getElementById('status').textContent=i.status;if((i.status==='confirmed'||i.status==='overpaid')&&i.redirectUrl)setTimeout(()=>location.href=i.redirectUrl,1200)},3000)</script></body></html>"#;

/// Smallest width and height of the QR code image, in pixels.
pub const QR_MIN_SIZE: u32 = 220;

/// The SVG image that `qrcode` renders for `text` (at least `min_size`
/// pixels wide and high), or empty text when the data does not fit a QR code.
pub uninterp spec fn qr_code_svg(text: Seq<char>, min_size: u32) -> Seq<char>;

/// How `{:?}` writes a string: quoted, with escapes.
pub uninterp spec fn debug_text(text: Seq<char>) -> Seq<char>;

/// Renders `text` as a QR code in SVG with `qrcode` (`QrCode::new` on its
/// bytes, `render::<svg::Color>`, `min_dimensions`, `build`), giving empty
/// text when encoding fails; the contract names the image as a function of
/// the text and the size. `min_dimensions` adds up to 184 modules to the
/// size in `u32` arithmetic, so the size is kept far below that overflow.
#[verifier::external_body]
fn qr_svg(text: &str, min_size: u32) -> (r: String)
    requires
        min_size <= 65_536,
    ensures
        r@ == qr_code_svg(text@, min_size),
{
    match QrCode::new(text.as_bytes()) {
        Ok(code) => code.render::<svg::Color>().min_dimensions(min_size, min_size).build(),
        Err(_) => String::new(),
    }
}

/// Writes `text` with `{:?}` (std's `Debug` for `str`); the contract names
/// the result as a function of the text.
#[verifier::external_body]
fn debug_quoted(text: &str) -> (r: String)
    ensures
        r@ == debug_text(text@),
{
    format!("{:?}", text)
}

/// The payment link a wallet reads: the address, then `?amount=` and the
/// amount as a decimal coin value (not sompi).
pub open spec fn payment_link(invoice_address: Seq<char>, amount_sompi: u64) -> Seq<char> {
    invoice_address + "?amount="@ + units_text(amount_sompi as nat)
}

/// The checkout page of an invoice.
pub open spec fn checkout_html(invoice_address: Seq<char>, amount_sompi: u64, id: Seq<char>) -> Seq<char> {
    PAGE_1@ + qr_code_svg(payment_link(invoice_address, amount_sompi), QR_MIN_SIZE) + PAGE_2@
        + units_text(amount_sompi as nat) + PAGE_3@ + invoice_address + PAGE_4@ + debug_text(id)
        + PAGE_5@
}

/// The hosted checkout page for `invoice`.
pub fn checkout_page(invoice: &Invoice) -> (r: String)
    ensures
        r@ == checkout_html(invoice.address@, invoice.amount_sompi, invoice.id@),
{
    let amount = format_units(invoice.amount_sompi);
    let mut link = invoice.address.clone();
    link.append("?amount=");
    link.append(amount.as_str());
    let qr = qr_svg(link.as_str(), QR_MIN_SIZE);
    let id = debug_quoted(invoice.id.as_str());
    let mut page = String::from_str(PAGE_1);
    page.append(qr.as_str());
    page.append(PAGE_2);
    page.append(amount.as_str());
    page.append(PAGE_3);
    page.append(invoice.address.as_str());
    page.append(PAGE_4);
    page.append(id.as_str());
    page.append(PAGE_5);
    assert(page@ =~= checkout_html(invoice.address@, invoice.amount_sompi, invoice.id@));
    page
}

} // verus!
