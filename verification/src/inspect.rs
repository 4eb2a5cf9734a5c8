//! What an inspection of an artifact reports: its segment's settings, its
//! roots and payload size when it decodes, and a summary of each receipt
//! slot that holds a receipt.
use crate::bootstrap::{spec_decode_bootstrap, BootstrapSegment, FLAG_COMPRESSED, FLAG_ENCRYPTED};
use crate::decoder::{decode, spec_decode, DecodedView};
use crate::error::{error_text, same_error, CbcError, Result};
use crate::footer::vec_views;
use crate::text::{
    hash_suite_name, hash_suite_prefix, hex_string, sig_alg_name, signature_name, spec_hex, suite_name, suite_prefix,
    transform_name, transform_type_name,
};
use crate::transform::receipt::{spec_decode_receipt, Receipt, ReceiptView};
use vstd::prelude::*;
use vstd::slice::slice_subrange;
use vstd::string::*;

verus! {

/// A summary of one receipt carried by an artifact.
pub struct ReceiptSummary {
    pub index: usize,
    pub source_root: String,
    pub derived_root: String,
    pub transform: String,
    pub timestamp: u64,
    pub sig_alg: String,
}

/// A receipt summary as plain values.
pub struct ReceiptSummaryView {
    pub index: usize,
    pub source_root: Seq<char>,
    pub derived_root: Seq<char>,
    pub transform: Seq<char>,
    pub timestamp: u64,
    pub sig_alg: Seq<char>,
}

impl View for ReceiptSummary {
    type V = ReceiptSummaryView;

    open spec fn view(&self) -> ReceiptSummaryView {
        ReceiptSummaryView {
            index: self.index,
            source_root: self.source_root@,
            derived_root: self.derived_root@,
            transform: self.transform@,
            timestamp: self.timestamp,
            sig_alg: self.sig_alg@,
        }
    }
}

/// What an inspection of an artifact found.
pub struct InspectionReport {
    pub file_size: u64,
    pub hash_suite: String,
    pub commitment_mode: String,
    pub block_payload_size: u32,
    pub block_count: u32,
    pub nonce: String,
    pub flags: Vec<String>,
    pub chain_root: Option<String>,
    pub merkle_root: Option<String>,
    pub payload_size: Option<usize>,
    pub receipts: Vec<ReceiptSummary>,
    pub validation: String,
}

/// An inspection report as plain values.
pub struct InspectionReportView {
    pub file_size: u64,
    pub hash_suite: Seq<char>,
    pub commitment_mode: Seq<char>,
    pub block_payload_size: u32,
    pub block_count: u32,
    pub nonce: Seq<char>,
    pub flags: Seq<Seq<char>>,
    pub chain_root: Option<Seq<char>>,
    pub merkle_root: Option<Seq<char>>,
    pub payload_size: Option<usize>,
    pub receipts: Seq<ReceiptSummaryView>,
    pub validation: Seq<char>,
}

/// The text of an optional string.
pub open spec fn opt_text(s: Option<String>) -> Option<Seq<char>> {
    match s {
        Some(t) => Some(t@),
        None => None,
    }
}

impl View for InspectionReport {
    type V = InspectionReportView;

    open spec fn view(&self) -> InspectionReportView {
        InspectionReportView {
            file_size: self.file_size,
            hash_suite: self.hash_suite@,
            commitment_mode: self.commitment_mode@,
            block_payload_size: self.block_payload_size,
            block_count: self.block_count,
            nonce: self.nonce@,
            flags: self.flags@.map_values(|s: String| s@),
            chain_root: opt_text(self.chain_root),
            merkle_root: opt_text(self.merkle_root),
            payload_size: self.payload_size,
            receipts: self.receipts@.map_values(|r: ReceiptSummary| r@),
            validation: self.validation@,
        }
    }
}

/// The summary of the receipt in slot `i`.
pub open spec fn spec_summary(i: int, r: ReceiptView) -> ReceiptSummaryView {
    ReceiptSummaryView {
        index: i as usize,
        source_root: spec_hex(r.source_root@),
        derived_root: spec_hex(r.derived_root@),
        transform: transform_type_name(r.transform_type),
        timestamp: r.timestamp,
        sig_alg: sig_alg_name(r.sig_alg),
    }
}

/// The summaries of the slots that hold a receipt, in slot order.
pub open spec fn spec_summaries(slots: Seq<Seq<u8>>) -> Seq<ReceiptSummaryView>
    decreases slots.len(),
{
    if slots.len() == 0 {
        Seq::empty()
    } else {
        let prev = spec_summaries(slots.drop_last());
        match spec_decode_receipt(slots.last()) {
            Ok(r) => prev.push(spec_summary(slots.len() - 1, r)),
            Err(_) => prev,
        }
    }
}

/// A tick for a family that is on, a cross for one that is off.
pub open spec fn mark(on: bool) -> Seq<char> {
    if on {
        "✓"@
    } else {
        "✗"@
    }
}

/// A tick for a family that is on, a cross for one that is off.
fn mark_str(on: bool) -> (r: &'static str)
    ensures
        r@ == mark(on),
{
    if on {
        "✓"
    } else {
        "✗"
    }
}

/// The commitment mode in hex, with the families it turns on.
pub open spec fn spec_mode_text(m: u8) -> Seq<char> {
    "0x"@ + spec_hex(seq![m]) + " (A:"@ + mark(m & 0x01 != 0) + " B:"@ + mark(m & 0x02 != 0) + " C:"@ + mark(
        m & 0x04 != 0,
    ) + ")"@
}

/// The names of the flags that are set.
pub open spec fn spec_flag_names(f: u32) -> Seq<Seq<char>> {
    (if f & 0x01 != 0 { seq!["compressed"@] } else { Seq::empty() }) + (if f & 0x02 != 0 {
        seq!["encrypted"@]
    } else {
        Seq::empty()
    })
}

/// What the segment alone tells.
pub open spec fn spec_segment_report(file_size: int, bs: BootstrapSegment) -> InspectionReportView {
    InspectionReportView {
        file_size: file_size as u64,
        hash_suite: suite_name(bs.hash_suite),
        commitment_mode: spec_mode_text(bs.commitment_mode),
        block_payload_size: bs.block_payload_size,
        block_count: bs.block_count,
        nonce: spec_hex(bs.bootstrap_nonce@),
        flags: spec_flag_names(bs.flags),
        chain_root: None,
        merkle_root: None,
        payload_size: None,
        receipts: Seq::empty(),
        validation: "Unknown"@,
    }
}

/// The report on `data`, whose segment is `bs`, when it decodes: its
/// roots, payload size and receipt summaries, and "PASS".
pub open spec fn spec_inspection(data: Seq<u8>, bs: BootstrapSegment, d: DecodedView) -> InspectionReportView {
    InspectionReportView {
        chain_root: Some(suite_prefix(bs.hash_suite) + ":"@ + spec_hex(d.chain_root@)),
        merkle_root: match d.merkle_root {
            Some(m) => Some(spec_hex(m@)),
            None => None,
        },
        payload_size: Some(d.payload.len() as usize),
        receipts: spec_summaries(d.receipt_slots),
        validation: "PASS"@,
        ..spec_segment_report(data.len() as int, bs)
    }
}

/// The report on `data`, whose segment is `bs`, when decoding it stopped
/// with `e`: what the segment tells, and the failure in words.
pub open spec fn spec_failed_inspection(data: Seq<u8>, bs: BootstrapSegment, e: CbcError) -> InspectionReportView {
    InspectionReportView { validation: "FAIL ("@ + error_text(e) + ")"@, ..spec_segment_report(data.len() as int, bs) }
}

/// Summarise a decoded receipt.
fn summarise(i: usize, r: &Receipt) -> (s: ReceiptSummary)
    ensures
        s@ == spec_summary(i as int, r@),
{
    ReceiptSummary {
        index: i,
        source_root: hex_string(&r.source_root),
        derived_root: hex_string(&r.derived_root),
        transform: transform_name(r.transform_type),
        timestamp: r.timestamp,
        sig_alg: signature_name(r.sig_alg),
    }
}

/// The summaries of the receipt slots that hold a receipt.
fn summaries(slots: &Vec<Vec<u8>>) -> (r: Vec<ReceiptSummary>)
    ensures
        r@.map_values(|s: ReceiptSummary| s@) == spec_summaries(vec_views(slots@)),
{
    let mut out: Vec<ReceiptSummary> = Vec::new();
    let ghost all = vec_views(slots@);
    let mut i: usize = 0;
    while i < slots.len()
        invariant
            i <= slots@.len(),
            all == vec_views(slots@),
            out@.map_values(|s: ReceiptSummary| s@) == spec_summaries(all.take(i as int)),
        decreases slots@.len() - i,
    {
        let ghost before = out@;
        proof {
            assert(all.take(i + 1).drop_last() =~= all.take(i as int));
            assert(all.take(i + 1).last() == slots@[i as int]@);
        }
        match Receipt::decode(slots[i].as_slice()) {
            Ok(receipt) => {
                let s = summarise(i, &receipt);
                out.push(s);
                proof {
                    assert(out@.map_values(|s: ReceiptSummary| s@) =~= before.map_values(|s: ReceiptSummary| s@).push(
                        spec_summary(i as int, receipt@),
                    ));
                }
            },
            Err(_) => {},
        }
        i = i + 1;
    }
    proof {
        assert(all.take(i as int) =~= all);
    }
    out
}

/// The names of the flags that are set.
fn flag_names(f: u32) -> (r: Vec<String>)
    ensures
        r@.map_values(|s: String| s@) == spec_flag_names(f),
{
    let mut names: Vec<String> = Vec::new();
    if f & FLAG_COMPRESSED != 0 {
        names.push(String::from_str("compressed"));
    }
    let ghost mid = names@;
    if f & FLAG_ENCRYPTED != 0 {
        names.push(String::from_str("encrypted"));
    }
    proof {
        assert(names@.map_values(|s: String| s@) =~= spec_flag_names(f));
    }
    names
}

/// The commitment mode in hex, with the families it turns on.
fn mode_text(bs: &BootstrapSegment) -> (r: String)
    ensures
        r@ == spec_mode_text(bs.commitment_mode),
{
    let m = vec![bs.commitment_mode];
    proof {
        assert(m@ =~= seq![bs.commitment_mode]);
    }
    let mut t = String::from_str("0x");
    let h = hex_string(m.as_slice());
    t.append(h.as_str());
    t.append(" (A:");
    t.append(mark_str(bs.family_a()));
    t.append(" B:");
    t.append(mark_str(bs.family_b()));
    t.append(" C:");
    t.append(mark_str(bs.family_c()));
    t.append(")");
    t
}

/// Inspect an artifact: what its segment tells and, when it decodes, its
/// roots, payload size and receipts; when it does not, why. An error when
/// its first 64 bytes are no valid bootstrap segment.
pub fn inspect(data: &[u8]) -> (r: Result<InspectionReport>)
    requires
        data@.len() >= 64,
    ensures
        match (r, spec_decode_bootstrap(data@.take(64))) {
            (Ok(report), Ok(bs)) => match spec_decode(data@, None) {
                Ok(d) => report@ == spec_inspection(data@, bs, d),
                Err(x) => exists|e: CbcError| same_error(e, x) && report@ == #[trigger] spec_failed_inspection(data@, bs, e),
            },
            (Err(e), Err(d)) => e == d,
            _ => false,
        },
{
    let mut head = [0u8; 64];
    crate::bytes::fill_array(&mut head, slice_subrange(data, 0, 64));
    proof {
        assert(head@ =~= data@.take(64));
    }
    let bs = match BootstrapSegment::decode(&head) {
        Ok(bs) => bs,
        Err(e) => {
            return Err(e);
        },
    };
    let mut report = InspectionReport {
        file_size: data.len() as u64,
        hash_suite: hash_suite_name(bs.hash_suite),
        commitment_mode: mode_text(&bs),
        block_payload_size: bs.block_payload_size,
        block_count: bs.block_count,
        nonce: hex_string(&bs.bootstrap_nonce),
        flags: flag_names(bs.flags),
        chain_root: None,
        merkle_root: None,
        payload_size: None,
        receipts: Vec::new(),
        validation: String::from_str("Unknown"),
    };
    proof {
        assert(report.receipts@.map_values(|s: ReceiptSummary| s@) =~= Seq::<ReceiptSummaryView>::empty());
        assert(report@ == spec_segment_report(data@.len() as int, bs));
    }
    match decode(data, None) {
        Ok(decoded) => {
            let mut root = hash_suite_prefix(bs.hash_suite);
            root.append(":");
            let h = hex_string(&decoded.chain_root);
            root.append(h.as_str());
            report.chain_root = Some(root);
            report.merkle_root = match decoded.merkle_root {
                Some(m) => Some(hex_string(&m)),
                None => None,
            };
            report.payload_size = Some(decoded.payload.len());
            report.receipts = summaries(&decoded.receipt_slots);
            report.validation = String::from_str("PASS");
            Ok(report)
        },
        Err(e) => {
            report.validation = String::from_str("FAIL (").concat(e.to_string().as_str()).concat(")");
            proof {
                assert(report@ == spec_failed_inspection(data@, bs, e));
            }
            Ok(report)
        },
    }
}

} // verus!
