//! Looking up attributes in a header.

use crate::header::{value_kind, ValueKind};
use crate::text::str_eq;
use crate::types::{
    channel_views, entry_views, Attribute, AttributeValue, AttributeView, Box2i, Channel,
    ChannelView, Compression, EntryView, LineOrder,
};
use vstd::prelude::*;

verus! {

/// The position of the first attribute from `i` on that has the given name
/// and a value of the given kind.
pub open spec fn entry_index(es: Seq<EntryView>, name: Seq<char>, kind: ValueKind, i: int) -> Option<int>
    decreases es.len() - i,
{
    if i >= es.len() {
        None
    } else if es[i].name == name && value_kind(es[i].value) == kind {
        Some(i)
    } else {
        entry_index(es, name, kind, i + 1)
    }
}

/// The value of the first attribute with the given name and kind.
pub open spec fn find_entry(es: Seq<EntryView>, name: Seq<char>, kind: ValueKind) -> Option<AttributeView> {
    match entry_index(es, name, kind, 0) {
        Some(i) => Some(es[i].value),
        None => None,
    }
}

/// The position of the first attribute from `i` on that has the given name.
pub open spec fn named_index(es: Seq<EntryView>, name: Seq<char>, i: int) -> Option<int>
    decreases es.len() - i,
{
    if i >= es.len() {
        None
    } else if es[i].name == name {
        Some(i)
    } else {
        named_index(es, name, i + 1)
    }
}

/// The value of the first attribute with the given name.
pub open spec fn find_named(es: Seq<EntryView>, name: Seq<char>) -> Option<AttributeView> {
    match named_index(es, name, 0) {
        Some(i) => Some(es[i].value),
        None => None,
    }
}

/// The first attribute of the name whose value is an integer.
pub open spec fn find_int(es: Seq<EntryView>, name: Seq<char>) -> Option<i32> {
    match find_entry(es, name, ValueKind::Int) {
        Some(AttributeView::Int(v)) => Some(v),
        _ => None,
    }
}

/// The first attribute of the name whose value is a text.
pub open spec fn find_text(es: Seq<EntryView>, name: Seq<char>) -> Option<Seq<char>> {
    match find_entry(es, name, ValueKind::Text) {
        Some(AttributeView::Text(v)) => Some(v),
        _ => None,
    }
}

/// The first attribute of the name whose value is a box.
pub open spec fn find_box(es: Seq<EntryView>, name: Seq<char>) -> Option<Box2i> {
    match find_entry(es, name, ValueKind::Box2i) {
        Some(AttributeView::Box2i(v)) => Some(v),
        _ => None,
    }
}

/// The first `lineOrder` attribute whose value is a line order.
pub open spec fn find_order(es: Seq<EntryView>) -> Option<LineOrder> {
    match find_entry(es, "lineOrder"@, ValueKind::LineOrder) {
        Some(AttributeView::LineOrder(v)) => Some(v),
        _ => None,
    }
}

/// The first `compression` attribute whose value is a compression.
pub open spec fn find_method(es: Seq<EntryView>) -> Option<Compression> {
    match find_entry(es, "compression"@, ValueKind::Compression) {
        Some(AttributeView::Compression(v)) => Some(v),
        _ => None,
    }
}

/// The first `channels` attribute whose value is a channel list.
pub open spec fn find_list(es: Seq<EntryView>) -> Option<Seq<ChannelView>> {
    match find_entry(es, "channels"@, ValueKind::Channels) {
        Some(AttributeView::Channels(v)) => Some(v),
        _ => None,
    }
}

/// The kind of an attribute's value.
pub fn kind_of_value(v: &AttributeValue) -> (r: ValueKind)
    ensures
        r == value_kind(v@),
{
    match v {
        AttributeValue::Channels(_) => ValueKind::Channels,
        AttributeValue::Compression(_) => ValueKind::Compression,
        AttributeValue::Box2i(_) => ValueKind::Box2i,
        AttributeValue::Box2f(_) => ValueKind::Box2f,
        AttributeValue::LineOrder(_) => ValueKind::LineOrder,
        AttributeValue::Float(_) => ValueKind::Float,
        AttributeValue::V2f(_, _) => ValueKind::V2f,
        AttributeValue::Int(_) => ValueKind::Int,
        AttributeValue::Double(_) => ValueKind::Double,
        AttributeValue::String(_) => ValueKind::Text,
        AttributeValue::V2i(_, _) => ValueKind::V2i,
        AttributeValue::V3i(_, _, _) => ValueKind::V3i,
        AttributeValue::V3f(_, _, _) => ValueKind::V3f,
        AttributeValue::M33f(_) => ValueKind::M33f,
        AttributeValue::M44f(_) => ValueKind::M44f,
        AttributeValue::Chromaticities(_) => ValueKind::Chromaticities,
        AttributeValue::TileDesc(_) => ValueKind::TileDesc,
        AttributeValue::StringVector(_) => ValueKind::Texts,
        AttributeValue::Other { type_label, data } => ValueKind::Other,
    }
}

pub fn index_of_kind(attrs: &[Attribute], name: &str, kind: ValueKind) -> (r: Option<usize>)
    ensures
        r matches Some(i) ==> i < attrs@.len() && entry_index(entry_views(attrs@), name@, kind, 0)
            == Some(i as int) && value_kind(attrs@[i as int].value@) == kind,
        r is None ==> entry_index(entry_views(attrs@), name@, kind, 0) is None,
{
    let mut i: usize = 0;
    let ghost es = entry_views(attrs@);
    while i < attrs.len()
        invariant
            i <= attrs@.len(),
            es == entry_views(attrs@),
            entry_index(es, name@, kind, 0) == entry_index(es, name@, kind, i as int),
        decreases attrs@.len() - i,
    {
        assert(es[i as int] == attrs@[i as int]@);
        if str_eq(attrs[i].name.as_str(), name) && kind_of_value(&attrs[i].value) == kind {
            return Some(i);
        }
        i = i + 1;
    }
    None
}

/// Locate the first attribute with the given name.
pub fn find_attribute<'a>(attrs: &'a [Attribute], name: &str) -> (r: Option<&'a AttributeValue>)
    ensures
        r matches Some(v) ==> find_named(entry_views(attrs@), name@) == Some(v@),
        r is None ==> find_named(entry_views(attrs@), name@) is None,
{
    let mut i: usize = 0;
    let ghost es = entry_views(attrs@);
    while i < attrs.len()
        invariant
            i <= attrs@.len(),
            es == entry_views(attrs@),
            named_index(es, name@, 0) == named_index(es, name@, i as int),
        decreases attrs@.len() - i,
    {
        assert(es[i as int] == attrs@[i as int]@);
        if str_eq(attrs[i].name.as_str(), name) {
            return Some(&attrs[i].value);
        }
        i = i + 1;
    }
    None
}

pub fn find_int_attr(attrs: &[Attribute], name: &str) -> (r: Option<i32>)
    ensures
        r == find_int(entry_views(attrs@), name@),
{
    match index_of_kind(attrs, name, ValueKind::Int) {
        Some(i) => match &attrs[i].value {
            AttributeValue::Int(v) => Some(*v),
            _ => None,
        },
        None => None,
    }
}

pub fn find_string_attr(attrs: &[Attribute], name: &str) -> (r: Option<String>)
    ensures
        r matches Some(t) ==> find_text(entry_views(attrs@), name@) == Some(t@),
        r is None ==> find_text(entry_views(attrs@), name@) is None,
{
    match index_of_kind(attrs, name, ValueKind::Text) {
        Some(i) => match &attrs[i].value {
            AttributeValue::String(v) => Some(v.clone()),
            _ => None,
        },
        None => None,
    }
}

pub fn find_box2i(attrs: &[Attribute], name: &str) -> (r: Option<Box2i>)
    ensures
        r == find_box(entry_views(attrs@), name@),
{
    match index_of_kind(attrs, name, ValueKind::Box2i) {
        Some(i) => match &attrs[i].value {
            AttributeValue::Box2i(v) => Some(*v),
            _ => None,
        },
        None => None,
    }
}

pub fn find_line_order(attrs: &[Attribute]) -> (r: Option<LineOrder>)
    ensures
        r == find_order(entry_views(attrs@)),
{
    match index_of_kind(attrs, "lineOrder", ValueKind::LineOrder) {
        Some(i) => match &attrs[i].value {
            AttributeValue::LineOrder(v) => Some(*v),
            _ => None,
        },
        None => None,
    }
}

pub fn find_compression(attrs: &[Attribute]) -> (r: Option<Compression>)
    ensures
        r == find_method(entry_views(attrs@)),
{
    match index_of_kind(attrs, "compression", ValueKind::Compression) {
        Some(i) => match &attrs[i].value {
            AttributeValue::Compression(v) => Some(*v),
            _ => None,
        },
        None => None,
    }
}

/// A copy of a channel list.
pub fn copy_channels(channels: &[Channel]) -> (r: Vec<Channel>)
    ensures
        channel_views(r@) == channel_views(channels@),
{
    let mut r: Vec<Channel> = Vec::new();
    let mut i: usize = 0;
    while i < channels.len()
        invariant
            i <= channels@.len(),
            r@.len() == i,
            forall|j: int| 0 <= j < i ==> (#[trigger] r@[j])@ == channels@[j]@,
        decreases channels@.len() - i,
    {
        r.push(channels[i].clone());
        i = i + 1;
    }
    assert(channel_views(r@) =~= channel_views(channels@));
    r
}

pub fn find_channels(attrs: &[Attribute]) -> (r: Option<Vec<Channel>>)
    ensures
        r matches Some(c) ==> find_list(entry_views(attrs@)) == Some(channel_views(c@)),
        r is None ==> find_list(entry_views(attrs@)) is None,
{
    match index_of_kind(attrs, "channels", ValueKind::Channels) {
        Some(i) => match &attrs[i].value {
            AttributeValue::Channels(v) => Some(copy_channels(v.as_slice())),
            _ => None,
        },
        None => None,
    }
}

/// The first attribute of a name and kind is the one at `k`, where none of
/// those before it has both.
pub proof fn lemma_entry_index(es: Seq<EntryView>, name: Seq<char>, kind: ValueKind, i: int, k: int)
    requires
        0 <= i <= k < es.len(),
        es[k].name == name,
        value_kind(es[k].value) == kind,
        forall|j: int|
            i <= j < k ==> (#[trigger] es[j]).name != name || value_kind(es[j].value) != kind,
    ensures
        entry_index(es, name, kind, i) == Some(k),
    decreases k - i,
{
    if i < k {
        assert(es[i].name != name || value_kind(es[i].value) != kind);
        lemma_entry_index(es, name, kind, i + 1, k);
    }
}

/// The first attribute of a name is the one at `k`, where none of those
/// before it has that name.
pub proof fn lemma_named_index(es: Seq<EntryView>, name: Seq<char>, i: int, k: int)
    requires
        0 <= i <= k < es.len(),
        es[k].name == name,
        forall|j: int| i <= j < k ==> (#[trigger] es[j]).name != name,
    ensures
        named_index(es, name, i) == Some(k),
    decreases k - i,
{
    if i < k {
        assert(es[i].name != name);
        lemma_named_index(es, name, i + 1, k);
    }
}

/// The first `chunkCount` attribute from `i` on that is a number of chunks.
pub open spec fn count_from(es: Seq<EntryView>, i: int) -> Option<i32>
    decreases es.len() - i,
{
    if i >= es.len() {
        None
    } else {
        match es[i].value {
            AttributeView::Int(v) => if es[i].name == "chunkCount"@ && v >= 0 {
                Some(v)
            } else {
                count_from(es, i + 1)
            },
            _ => count_from(es, i + 1),
        }
    }
}

/// The number of chunks that a part states.
pub fn find_chunk_count(attrs: &[Attribute]) -> (r: Option<i32>)
    ensures
        r == count_from(entry_views(attrs@), 0),
        r matches Some(n) ==> n >= 0,
{
    let ghost es = entry_views(attrs@);
    let mut i: usize = 0;
    while i < attrs.len()
        invariant
            i <= attrs@.len(),
            es == entry_views(attrs@),
            count_from(es, 0) == count_from(es, i as int),
        decreases attrs@.len() - i,
    {
        assert(es[i as int] == attrs@[i as int]@);
        if let AttributeValue::Int(v) = &attrs[i].value {
            if *v >= 0 && str_eq(attrs[i].name.as_str(), "chunkCount") {
                return Some(*v);
            }
        }
        i = i + 1;
    }
    None
}

/// A header that states a number of chunks states it as a count.
pub proof fn lemma_count_stated(es: Seq<EntryView>, i: int)
    requires
        0 <= i,
        entry_index(es, "chunkCount"@, ValueKind::Int, i) is Some,
        es[entry_index(es, "chunkCount"@, ValueKind::Int, i)->Some_0].value matches AttributeView::Int(
            v,
        ) && v >= 0,
    ensures
        count_from(es, i) == Some(
            es[entry_index(es, "chunkCount"@, ValueKind::Int, i)->Some_0].value->Int_0,
        ),
    decreases es.len() - i,
{
    if !(es[i].name == "chunkCount"@ && value_kind(es[i].value) == ValueKind::Int) {
        lemma_count_stated(es, i + 1);
    }
}

} // verus!
