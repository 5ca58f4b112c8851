//! The vocabulary in which the auditors report what they observe: a grade, an
//! analytical lens, a note and named pieces of evidence per anomaly.
use vstd::prelude::*;
use vstd::utf8::*;
use vstd::string::StringSliceAdditionalSpecFns;

use crate::strings::{all_ascii, ascii_to_string, lemma_ascii_valid_utf8};
use crate::text::{decimal, decimal_exec, lemma_decimal_ascii, signed_decimal, signed_decimal_exec};

verus! {

/// The name under which this analyzer stamps its findings.
pub const ANALYZER: &'static str = "git-forensic";

/// Severity of a finding (`Info` < `Low` < `Medium` < `High` < `Critical`).
#[derive(Debug, Clone, Copy, PartialEq, Eq, Structural)]
pub enum Severity {
    /// Informational — context, not suspicious on its own.
    Info,
    /// Low — minor irregularity with a common benign explanation.
    Low,
    /// Medium — notable irregularity worth examiner attention.
    Medium,
    /// High — strong indicator of tampering or concealment.
    High,
    /// Critical — structural contradiction.
    Critical,
}

/// The forensic lens a finding belongs to — the analytical category, not a
/// severity.
#[derive(Debug, Clone, Copy, PartialEq, Eq, Structural)]
pub enum Category {
    /// Integrity / authenticity.
    Integrity,
    /// Structural contradiction.
    Structure,
    /// Residue / recoverability.
    Residue,
    /// Provenance / attribution.
    Provenance,
    /// History — the store's biography.
    History,
    /// Concealment / anti-forensics.
    Concealment,
    /// Threat — malicious code or behavior.
    Threat,
}

/// One piece of evidence backing a finding: a named field and its observed
/// value, rendered as text.
#[derive(Debug, Clone)]
pub struct Evidence {
    /// Field / observation name.
    pub field: String,
    /// Observed value, rendered as text.
    pub value: String,
}

impl Evidence {
    /// The field and value as UTF-8 bytes.
    pub open spec fn model(&self) -> (Seq<u8>, Seq<u8>) {
        (encode_utf8(self.field@), encode_utf8(self.value@))
    }
}

pub open spec fn evidence_model(v: Seq<Evidence>) -> Seq<(Seq<u8>, Seq<u8>)> {
    v.map_values(|e: Evidence| e.model())
}


/// The decimal text of `i` is ASCII.
pub proof fn lemma_signed_decimal_ascii(i: int)
    ensures
        all_ascii(signed_decimal(i)),
        valid_utf8(signed_decimal(i)),
{
    if i < 0 {
        lemma_decimal_ascii((-i) as nat);
        assert(forall|k: int| 0 <= k < signed_decimal(i).len() ==> #[trigger] signed_decimal(i)[k] < 0x80) by {
            assert forall|k: int| 0 <= k < signed_decimal(i).len() implies #[trigger] signed_decimal(i)[k] < 0x80 by {
                if k > 0 {
                    assert(signed_decimal(i)[k] == decimal((-i) as nat)[k - 1]);
                }
            }
        }
    } else {
        lemma_decimal_ascii(i as nat);
    }
    lemma_ascii_valid_utf8(signed_decimal(i));
}

/// `i.to_string()`: the decimal text of a signed integer.
pub fn int_text(i: i64) -> (r: String)
    ensures
        encode_utf8(r@) == signed_decimal(i as int),
{
    let v = signed_decimal_exec(i);
    proof {
        lemma_signed_decimal_ascii(i as int);
    }
    ascii_to_string(v)
}

/// `n.to_string()`: the decimal text of a count.
pub fn count_text(n: usize) -> (r: String)
    ensures
        encode_utf8(r@) == decimal(n as nat),
{
    let v = decimal_exec(n as u64);
    proof {
        lemma_decimal_ascii(n as nat);
    }
    ascii_to_string(v)
}

/// A piece of evidence.
pub fn evidence(field: &str, value: String) -> (r: Evidence)
    ensures
        r.model() == (field.spec_bytes(), encode_utf8(value@)),
{
    Evidence { field: field.to_owned(), value }
}

} // verus!
