//! Luminance and chroma: the primaries that a header states.

use crate::attrs::{find_entry, index_of_kind};
use crate::header::ValueKind;
use crate::types::{
    entry_views, Attribute, AttributeValue, AttributeView, Chromaticities, EntryView,
};
use vstd::prelude::*;

verus! {

/// The first `chromaticities` attribute that holds primaries.
pub open spec fn find_primaries(es: Seq<EntryView>) -> Option<Chromaticities> {
    match find_entry(es, "chromaticities"@, ValueKind::Chromaticities) {
        Some(AttributeView::Chromaticities(c)) => Some(c),
        _ => None,
    }
}

/// The primaries that a header states, if it does.
pub fn chromaticities_of(attrs: &[Attribute]) -> (r: Option<Chromaticities>)
    ensures
        r == find_primaries(entry_views(attrs@)),
{
    match index_of_kind(attrs, "chromaticities", ValueKind::Chromaticities) {
        Some(i) => match &attrs[i].value {
            AttributeValue::Chromaticities(c) => Some(*c),
            _ => None,
        },
        None => None,
    }
}

} // verus!
