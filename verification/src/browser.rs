//! Backing logic for the `nomad://` URI scheme: turning fetched content into
//! a response, and reading a node's identity hash from its hex form.
//! URL shape: `nomad://<identity-hash-hex>/page/<name>` or `/file/<name>`.

use vstd::prelude::*;
use vstd::string::*;
use crate::fetch::{hex_byte, FetchedContent};
use crate::micron::{micron_html, micron_to_html};

verus! {

/// A response to a `nomad://` request.
pub struct NomadResponse {
    pub content_type: &'static str,
    pub body: Vec<u8>,
    pub attachment_name: Option<String>,
}

/// Page background for Micron output. Forced, not a fallback: Micron pages
/// always render dark regardless of what the source asked for.
pub const MICRON_PAGE_BG: &'static str = "#18171a";

/// Default text colour, chosen to read on `MICRON_PAGE_BG`. Only a default:
/// a page's own inline colour runs win.
pub const MICRON_PAGE_FG: &'static str = "#f2eeea";

/// Native form controls restyled to match the dark grid rather than left at
/// the platform's light widget chrome.
pub const MICRON_FORM_CSS: &'static str = ".mu-field,.mu-submit{\
     font-family:inherit;font-size:inherit;line-height:1;\
     background:#232227;color:inherit;border:1px solid #4a4850;border-radius:3px;\
     padding:1px 4px}\
     .mu-submit{cursor:pointer}\
     .mu-submit:hover{background:#2d2c33}\
     .mu-field-label{cursor:pointer}\
     .mu-field-label input{margin-right:4px}";

/// Micron is a terminal format: every line is one row of a fixed character
/// grid, so text is monospace with a line height of one.
pub const MICRON_GRID_CSS: &'static str = "font-family:ui-monospace,\"DejaVu Sans Mono\",\"Liberation Mono\",Menlo,Consolas,monospace;\
     line-height:1";

/// Applied to the elements that hold a row's text, never to `body`.
pub const MICRON_ROW_CSS: &'static str = "white-space:pre-wrap";

pub const CONTENT_TYPE_HTML: &'static str = "text/html; charset=utf-8";

pub const CONTENT_TYPE_BINARY: &'static str = "application/octet-stream";

/// The document that a Micron fragment is wrapped in: a forced dark page
/// background, a default text colour and the character-grid styles.
pub open spec fn page_html(fragment: Seq<char>) -> Seq<char> {
    "<!DOCTYPE html><html><head><meta charset=\"utf-8\"><meta name=\"color-scheme\" content=\"dark\"><style>html,body{background:"@
        + MICRON_PAGE_BG@ + "!important;margin:0;padding:12px}body{color:"@ + MICRON_PAGE_FG@
        + ";"@ + MICRON_GRID_CSS@
        + "}p,h1,h2,h3,h4,h5,h6,pre,.mu-divider{margin:0;font-size:inherit;"@ + MICRON_ROW_CSS@
        + "}"@ + MICRON_FORM_CSS@ + "</style></head><body>"@ + fragment + "</body></html>"@
}

/// Wraps rendered Micron in a document with the forced dark page background.
pub fn wrap_html(fragment: &str) -> (r: Vec<u8>)
    ensures
        r@ == vstd::utf8::encode_utf8(page_html(fragment@)),
{
    let mut out = String::from_str(
        "<!DOCTYPE html><html><head><meta charset=\"utf-8\"><meta name=\"color-scheme\" content=\"dark\"><style>html,body{background:",
    );
    out.append(MICRON_PAGE_BG);
    out.append("!important;margin:0;padding:12px}body{color:");
    out.append(MICRON_PAGE_FG);
    out.append(";");
    out.append(MICRON_GRID_CSS);
    out.append("}p,h1,h2,h3,h4,h5,h6,pre,.mu-divider{margin:0;font-size:inherit;");
    out.append(MICRON_ROW_CSS);
    out.append("}");
    out.append(MICRON_FORM_CSS);
    out.append("</style></head><body>");
    out.append(fragment);
    out.append("</body></html>");
    assert(out@ =~= page_html(fragment@));
    out.as_str().as_bytes_vec()
}

/// The response for fetched content: HTML as is, Micron rendered and
/// wrapped, anything else as an attachment under its name.
pub fn to_response(content: FetchedContent) -> (r: NomadResponse)
    ensures
        match content {
            FetchedContent::Html(bytes) => r.content_type@ == CONTENT_TYPE_HTML@ && r.body == bytes
                && r.attachment_name is None,
            FetchedContent::Micron(bytes) => r.content_type@ == CONTENT_TYPE_HTML@ && r.body@
                == vstd::utf8::encode_utf8(page_html(micron_html(bytes@)))
                && r.attachment_name is None,
            FetchedContent::File { name, bytes } => r.content_type@ == CONTENT_TYPE_BINARY@
                && r.body == bytes && r.attachment_name == Some(name),
        },
{
    match content {
        FetchedContent::Html(bytes) => NomadResponse {
            content_type: CONTENT_TYPE_HTML,
            body: bytes,
            attachment_name: None,
        },
        FetchedContent::Micron(bytes) => {
            let html = micron_to_html(bytes.as_slice());
            NomadResponse {
                content_type: CONTENT_TYPE_HTML,
                body: wrap_html(html.as_str()),
                attachment_name: None,
            }
        },
        FetchedContent::File { name, bytes } => NomadResponse {
            content_type: CONTENT_TYPE_BINARY,
            body: bytes,
            attachment_name: Some(name),
        },
    }
}

#[verifier::external_type_specification]
#[verifier::external_body]
pub struct ExFromHexError(hex::FromHexError);

/// An even number of ASCII hex digits.
pub open spec fn hex_decodable(b: Seq<u8>) -> bool {
    b.len() % 2 == 0 && forall|i: int| 0 <= i < b.len() ==> (#[trigger] hex_byte(b[i])) is Some
}

/// The bytes that pairs of hex digits stand for.
pub open spec fn hex_decoded(b: Seq<u8>) -> Seq<u8> {
    Seq::new(
        b.len() / 2,
        |i: int| (16 * hex_byte(b[2 * i])->0 + hex_byte(b[2 * i + 1])->0) as u8,
    )
}

/// `hex::decode` on a string's bytes: `Ok` exactly for an even number of
/// hex digits (either case), each pair giving one byte, high digit first.
#[verifier::external_body]
fn hex_decode(s: &str) -> (r: Result<Vec<u8>, hex::FromHexError>)
    ensures
        r is Ok <==> hex_decodable(s.spec_bytes()),
        r matches Ok(v) ==> v@ == hex_decoded(s.spec_bytes()),
{
    hex::decode(s)
}

/// Reads a node's identity hash: 32 hex digits.
#[verifier::spinoff_prover]
#[verifier::rlimit(40)]
pub fn parse_identity_hash(hex_str: &str) -> (r: Result<[u8; 16], String>)
    ensures
        !hex_decodable(hex_str.spec_bytes()) ==> (r matches Err(e) && e@
            == "invalid identity hash"@),
        hex_decodable(hex_str.spec_bytes()) && hex_decoded(hex_str.spec_bytes()).len() != 16 ==> (
        r matches Err(e) && e@ == "identity hash must be 16 bytes"@),
        hex_decodable(hex_str.spec_bytes()) && hex_decoded(hex_str.spec_bytes()).len() == 16 ==> (
        r matches Ok(a) && a@ == hex_decoded(hex_str.spec_bytes())),
{
    let bytes = match hex_decode(hex_str) {
        Ok(v) => v,
        Err(_) => {
            return Err(String::from_str("invalid identity hash"));
        },
    };
    if bytes.len() != 16 {
        return Err(String::from_str("identity hash must be 16 bytes"));
    }
    let a: [u8; 16] = [
        bytes[0],
        bytes[1],
        bytes[2],
        bytes[3],
        bytes[4],
        bytes[5],
        bytes[6],
        bytes[7],
        bytes[8],
        bytes[9],
        bytes[10],
        bytes[11],
        bytes[12],
        bytes[13],
        bytes[14],
        bytes[15],
    ];
    assert(a@ =~= bytes@);
    Ok(a)
}

} // verus!
