//! QR symbol decoding with rxing: every QR code found in a grey-scale frame.
use crate::protocol::byte_views;
use crate::protocol::copy_range;
use rxing::helpers::detect_multiple_in_luma_with_hints;
use rxing::BarcodeFormat;
use rxing::DecodeHints;
use std::collections::HashSet;
use vstd::prelude::*;

verus! {

/// What rxing's multi-code QR detection (QR format only, "try harder")
/// finds in a `width × height` luma image: the raw bytes of each code, or
/// `None` when detection fails.
pub uninterp spec fn qr_detect(luma: Seq<u8>, width: u32, height: u32) -> Option<Seq<Seq<u8>>>;

/// `rxing::helpers::detect_multiple_in_luma_with_hints` restricted to QR
/// codes with `TryHarder`, mapped to each result's raw bytes (binary-safe,
/// unlike the text); an error becomes `None`. What it finds is only named.
/// That rxing returns on every frame of the required size (rather than
/// panicking inside one of its detectors) is taken from its interface, which
/// reports failures as `Err`; it is not derived from its source.
#[verifier::external_body]
fn detect_qr_codes(luma: &[u8], width: u32, height: u32) -> (r: Option<Vec<Vec<u8>>>)
    requires
        width > 0,
        height > 0,
        luma@.len() >= width as int * height as int,
    ensures
        match r {
            Some(v) => qr_detect(luma@, width, height) == Some(byte_views(v@)),
            None => qr_detect(luma@, width, height) is None,
        },
{
    let mut hints = DecodeHints::default();
    hints.PossibleFormats = Some(HashSet::from([BarcodeFormat::QR_CODE]));
    hints.TryHarder = Some(true);
    match detect_multiple_in_luma_with_hints(luma.to_vec(), width, height, &mut hints) {
        Ok(results) => Some(results.into_iter().map(|r| r.getRawBytes().to_vec()).collect()),
        Err(_) => None,
    }
}

/// The payloads kept from a detection result: the non-empty ones, in order.
pub open spec fn kept_payloads(found: Option<Seq<Seq<u8>>>) -> Seq<Seq<u8>> {
    match found {
        Some(codes) => codes.filter(|b: Seq<u8>| b.len() > 0),
        None => Seq::empty(),
    }
}

/// Keeps the non-empty payloads of a detection result.
pub fn collect_payloads(found: Option<Vec<Vec<u8>>>) -> (r: Vec<Vec<u8>>)
    ensures
        byte_views(r@) == kept_payloads(
            match found {
                Some(v) => Some(byte_views(v@)),
                None => None,
            },
        ),
{
    match found {
        None => Vec::new(),
        Some(codes) => {
            let mut out: Vec<Vec<u8>> = Vec::new();
            let mut i: usize = 0;
            while i < codes.len()
                invariant
                    i <= codes@.len(),
                    byte_views(out@) == byte_views(codes@.take(i as int)).filter(
                        |b: Seq<u8>| b.len() > 0,
                    ),
                decreases codes@.len() - i,
            {
                let ghost prev = byte_views(codes@.take(i as int));
                let ghost prev_out = byte_views(out@);
                let code = &codes[i];
                if code.len() > 0 {
                    let c = copy_range(code.as_slice(), 0, code.len());
                    assert(c@ =~= code@);
                    out.push(c);
                    assert(byte_views(out@) =~= prev_out.push(code@));
                }
                proof {
                    let next = byte_views(codes@.take(i + 1));
                    assert(next =~= prev.push(code@));
                    assert(next.drop_last() =~= prev);
                    assert(next.last() == code@);
                    reveal_with_fuel(Seq::filter, 1);
                }
                i = i + 1;
            }
            assert(codes@.take(codes@.len() as int) =~= codes@);
            out
        },
    }
}

/// Decode every QR code in a luma image; returns their raw payload bytes
/// (binary-safe), dropping empty ones.
pub fn scan_qrs(luma: &[u8], width: u32, height: u32) -> (r: Vec<Vec<u8>>)
    requires
        luma@.len() >= width as int * height as int,
    ensures
        byte_views(r@) == if width == 0 || height == 0 {
            Seq::empty()
        } else {
            kept_payloads(qr_detect(luma@, width, height))
        },
{
    if width == 0 || height == 0 {
        return Vec::new();
    }
    let found = detect_qr_codes(luma, width, height);
    collect_payloads(found)
}

} // verus!
