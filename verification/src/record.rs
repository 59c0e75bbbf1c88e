//! Input records: one observation of flight activity per record, together
//! with the ghost-level model of a record that the contracts of the graph
//! builder and the forecaster are stated over.

use vstd::prelude::*;
use vstd::string::*;

verus! {

/// The kind of activity a record reports. Records whose activity kind is
/// not recognized are classified as `Unknown`; the graph builder skips
/// them, while the monthly aggregation deliberately keeps them (a
/// documented divergence between the two consumers).
#[derive(Clone, Copy, Debug, PartialEq, Eq, Structural)]
pub enum ActivityType {
    Enplaned,
    Deplaned,
    ThruTransit,
    Unknown,
}

/// One flight-activity observation: a geographic region, the kind of
/// activity, a passenger count, and the calendar period (`YYYYMM` form)
/// the observation belongs to.
#[derive(Clone, Debug)]
pub struct ActivityRecord {
    pub geo_region: String,
    pub activity_type: ActivityType,
    pub passenger_count: u32,
    pub activity_period: String,
}

/// The mathematical model of a record: its region and period as character
/// sequences, its kind, and its count.
pub ghost struct RecordModel {
    pub region: Seq<char>,
    pub kind: ActivityType,
    pub count: u32,
    pub period: Seq<char>,
}

impl View for ActivityRecord {
    type V = RecordModel;

    open spec fn view(&self) -> RecordModel {
        RecordModel {
            region: self.geo_region@,
            kind: self.activity_type,
            count: self.passenger_count,
            period: self.activity_period@,
        }
    }
}

/// The models of a sequence of records, in order.
pub open spec fn models(rs: Seq<ActivityRecord>) -> Seq<RecordModel> {
    rs.map_values(|r: ActivityRecord| r@)
}

/// The activity kind that a textual activity label denotes.
pub open spec fn label_kind(l: Seq<char>) -> ActivityType {
    if l == "Enplaned"@ {
        ActivityType::Enplaned
    } else if l == "Deplaned"@ {
        ActivityType::Deplaned
    } else if l == "Thru/Transit"@ {
        ActivityType::ThruTransit
    } else {
        ActivityType::Unknown
    }
}

/// Character-by-character equality of two string slices.
pub fn str_eq(a: &str, b: &str) -> (r: bool)
    ensures
        r == (a@ == b@),
{
    let na: usize = a.unicode_len();
    let nb: usize = b.unicode_len();
    if na != nb {
        return false;
    }
    let mut i: usize = 0;
    while i < na
        invariant
            na == a@.len(),
            na == b@.len(),
            0 <= i <= na,
            forall|j: int| 0 <= j < i ==> a@[j] == b@[j],
        decreases na - i,
    {
        if a.get_char(i) != b.get_char(i) {
            return false;
        }
        i = i + 1;
    }
    proof {
        assert(a@ =~= b@);
    }
    true
}

/// Classifies a textual activity label into its `ActivityType`; any label
/// other than the three recognized ones is `Unknown`.
pub fn activity_type_from_label(label: &str) -> (t: ActivityType)
    ensures
        t == label_kind(label@),
{
    if str_eq(label, "Enplaned") {
        ActivityType::Enplaned
    } else if str_eq(label, "Deplaned") {
        ActivityType::Deplaned
    } else if str_eq(label, "Thru/Transit") {
        ActivityType::ThruTransit
    } else {
        ActivityType::Unknown
    }
}

} // verus!
