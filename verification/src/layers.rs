//! Layers: channels whose names have a common part in front of the last dot.

use crate::header::{entries_storable, header_bytes, header_of, law_header_round_trip, version_of};
use crate::text::str_eq;
use crate::types::{
    channel_views, entry_views, Attribute, AttributeValue, AttributeView, Channel, ChannelView,
    EntryView,
};
use vstd::prelude::*;
use vstd::string::*;

verus! {

// ----------------------------------------------------------------------
// Names
// ----------------------------------------------------------------------
/// The position of the last dot in the first `n` characters.
pub open spec fn last_dot(name: Seq<char>, n: int) -> Option<int>
    decreases n,
{
    if n <= 0 {
        None
    } else if name[n - 1] == '.' {
        Some(n - 1)
    } else {
        last_dot(name, n - 1)
    }
}

/// The layer that a channel belongs to: what stands in front of the last dot.
pub open spec fn layer_of(name: Seq<char>) -> Seq<char> {
    match last_dot(name, name.len() as int) {
        Some(i) => name.take(i),
        None => Seq::empty(),
    }
}

/// The name of a channel inside its layer: what stands behind the last dot.
pub open spec fn base_of(name: Seq<char>) -> Seq<char> {
    match last_dot(name, name.len() as int) {
        Some(i) => name.skip(i + 1),
        None => name,
    }
}

proof fn lemma_last_dot(name: Seq<char>, n: int)
    requires
        0 <= n <= name.len(),
    ensures
        last_dot(name, n) matches Some(i) ==> 0 <= i < n && name[i] == '.' && forall|j: int|
            i < j < n ==> name[j] != '.',
        last_dot(name, n) is None ==> forall|j: int| 0 <= j < n ==> name[j] != '.',
    decreases n,
{
    if n > 0 && name[n - 1] != '.' {
        lemma_last_dot(name, n - 1);
    }
}

/// Cut a name at its last dot. A name without a dot has no layer.
pub fn split_channel_name<'a>(name: &'a str) -> (r: (&'a str, &'a str))
    ensures
        r.0@ == layer_of(name@),
        r.1@ == base_of(name@),
{
    let n: usize = name.unicode_len();
    let mut i: usize = n;
    while i > 0
        invariant
            i <= n,
            n == name@.len(),
            last_dot(name@, n as int) == last_dot(name@, i as int),
        decreases i,
    {
        if name.get_char(i - 1) == '.' {
            let layer: &'a str = name.substring_char(0, i - 1);
            let base: &'a str = name.substring_char(i, n);
            assert(layer@ =~= name@.take(i - 1));
            assert(base@ =~= name@.skip(i as int));
            return (layer, base);
        }
        i = i - 1;
    }
    let empty: &'a str = name.substring_char(0, 0);
    assert(empty@ =~= Seq::<char>::empty());
    (empty, name)
}

/// The name of a channel inside a layer.
pub open spec fn joined(layer: Seq<char>, base: Seq<char>) -> Seq<char> {
    if layer.len() == 0 {
        base
    } else {
        layer + "."@ + base
    }
}

/// A name is put together again from its layer and its base, unless it begins
/// with its only dot.
pub proof fn law_split_joins(name: Seq<char>)
    requires
        last_dot(name, name.len() as int) != Some(0int),
    ensures
        joined(layer_of(name), base_of(name)) == name,
{
    reveal_strlit(".");
    lemma_last_dot(name, name.len() as int);
    match last_dot(name, name.len() as int) {
        Some(i) => {
            assert(name.take(i) + "."@ + name.skip(i + 1) =~= name);
        },
        None => {},
    }
}

/// A base without a dot, put behind a layer, is cut off again.
pub proof fn law_join_splits(layer: Seq<char>, base: Seq<char>)
    requires
        forall|j: int| 0 <= j < base.len() ==> base[j] != '.',
    ensures
        layer_of(joined(layer, base)) == layer,
        base_of(joined(layer, base)) == base,
{
    reveal_strlit(".");
    let name = joined(layer, base);
    lemma_last_dot(name, name.len() as int);
    if layer.len() > 0 {
        let at = layer.len() as int;
        assert(name[at] == '.');
        match last_dot(name, name.len() as int) {
            Some(i) => {
                assert(i >= at);
                if i > at {
                    assert(name[i] == base[i - at - 1]);
                }
                assert(name.take(at) =~= layer);
                assert(name.skip(at + 1) =~= base);
            },
            None => {},
        }
    } else {
        assert(layer =~= Seq::<char>::empty());
        match last_dot(name, name.len() as int) {
            Some(i) => {
                assert(base[i] == '.');
            },
            None => {},
        }
    }
}

// ----------------------------------------------------------------------
// Views
// ----------------------------------------------------------------------
pub open spec fn string_views(v: Seq<String>) -> Seq<Seq<char>> {
    Seq::new(v.len(), |i: int| v[i]@)
}

/// The first `multiView` attribute from `i` on that is a list of texts.
pub open spec fn views_from(es: Seq<EntryView>, i: int) -> Option<Seq<Seq<char>>>
    decreases es.len() - i,
{
    if i >= es.len() {
        None
    } else {
        match es[i].value {
            AttributeView::Texts(v) => if es[i].name == "multiView"@ {
                Some(v)
            } else {
                views_from(es, i + 1)
            },
            _ => views_from(es, i + 1),
        }
    }
}

/// The names of the views, the default view first, where the header lists
/// them.
pub fn multi_view(attrs: &[Attribute]) -> (r: Option<&[String]>)
    ensures
        r is None <==> views_from(entry_views(attrs@), 0) is None,
        r matches Some(v) ==> views_from(entry_views(attrs@), 0) == Some(string_views(v@)),
{
    let ghost es = entry_views(attrs@);
    let mut i: usize = 0;
    while i < attrs.len()
        invariant
            i <= attrs@.len(),
            es == entry_views(attrs@),
            views_from(es, 0) == views_from(es, i as int),
        decreases attrs@.len() - i,
    {
        assert(es[i as int] == attrs@[i as int]@);
        if let AttributeValue::StringVector(v) = &attrs[i].value {
            if str_eq(attrs[i].name.as_str(), "multiView") {
                assert(string_views(v@) =~= Seq::new(v@.len(), |i: int| v@[i]@));
                return Some(v.as_slice());
            }
        }
        i = i + 1;
    }
    None
}

/// The views that a header lists are found in the header when it is read back.
pub proof fn law_views_read_back(raw: u32, es: Seq<EntryView>)
    requires
        !version_of(raw).multipart,
        !version_of(raw).non_image,
        entries_storable(es, version_of(raw).name_limit()),
    ensures
        header_of(header_bytes(raw, es)) matches Ok(h) && views_from(h.entries, 0) == views_from(
            es,
            0,
        ),
{
    law_header_round_trip(raw, es);
}

/// The position of the first dot from `i` on, or the end.
pub open spec fn first_dot(name: Seq<char>, i: int) -> int
    decreases name.len() - i,
{
    if i >= name.len() || name[i] == '.' {
        i
    } else {
        first_dot(name, i + 1)
    }
}

/// The first component of a dotted name from `from` on that is a view.
pub open spec fn view_in(name: Seq<char>, views: Seq<Seq<char>>, from: int) -> Option<Seq<char>>
    decreases name.len() - from,
    when 0 <= from <= name.len()
    via view_in_decreases
{
    let to = first_dot(name, from);
    if views.contains(name.subrange(from, to)) {
        Some(name.subrange(from, to))
    } else if to < name.len() {
        view_in(name, views, to + 1)
    } else {
        None
    }
}

#[via_fn]
proof fn view_in_decreases(name: Seq<char>, views: Seq<Seq<char>>, from: int) {
    lemma_first_dot(name, from);
}

proof fn lemma_first_dot(name: Seq<char>, i: int)
    requires
        0 <= i <= name.len(),
    ensures
        i <= first_dot(name, i) <= name.len(),
    decreases name.len() - i,
{
    if i < name.len() && name[i] != '.' {
        lemma_first_dot(name, i + 1);
    }
}

/// The view that a layer belongs to. The base layer is the default view.
pub open spec fn view_of(name: Seq<char>, views: Option<Seq<Seq<char>>>) -> Option<Seq<char>> {
    match views {
        None => None,
        Some(vs) => if name.len() > 0 {
            view_in(name, vs, 0)
        } else if vs.len() > 0 {
            Some(vs[0])
        } else {
            None
        },
    }
}

fn is_view(views: &[String], s: &str) -> (r: bool)
    ensures
        r == string_views(views@).contains(s@),
{
    let ghost vs = string_views(views@);
    let mut i: usize = 0;
    while i < views.len()
        invariant
            i <= views@.len(),
            vs == string_views(views@),
            forall|j: int| 0 <= j < i ==> (#[trigger] vs[j]) != s@,
        decreases views@.len() - i,
    {
        assert(vs[i as int] == views@[i as int]@);
        if str_eq(views[i].as_str(), s) {
            return true;
        }
        i = i + 1;
    }
    false
}

pub open spec fn string_option(v: Option<String>) -> Option<Seq<char>> {
    match v {
        Some(s) => Some(s@),
        None => None,
    }
}

fn find_view(name: &str, views: &[String]) -> (r: Option<String>)
    ensures
        string_option(r) == view_in(name@, string_views(views@), 0),
{
    let ghost vs = string_views(views@);
    let n: usize = name.unicode_len();
    let mut from: usize = 0;
    loop
        invariant
            from <= n,
            n == name@.len(),
            vs == string_views(views@),
            view_in(name@, vs, 0) == view_in(name@, vs, from as int),
        decreases n - from,
    {
        let mut to: usize = from;
        while to < n && name.get_char(to) != '.'
            invariant
                from <= to <= n,
                n == name@.len(),
                first_dot(name@, from as int) == first_dot(name@, to as int),
            decreases n - to,
        {
            to = to + 1;
        }
        let part: &str = name.substring_char(from, to);
        if is_view(views, part) {
            return Some(part.to_owned());
        }
        if to >= n {
            return None;
        }
        from = to + 1;
    }
}

fn layer_view(name: &str, views: Option<&[String]>) -> (r: Option<String>)
    ensures
        string_option(r) == view_of(
            name@,
            match views {
                Some(v) => Some(string_views(v@)),
                None => None,
            },
        ),
{
    match views {
        None => None,
        Some(v) => {
            if !name.is_empty() {
                return find_view(name, v);
            }
            if v.len() > 0 {
                assert(string_views(v@)[0] == v@[0]@);
                Some(v[0].clone())
            } else {
                None
            }
        },
    }
}

// ----------------------------------------------------------------------
// Kinds
// ----------------------------------------------------------------------
/// What the channels of a layer are.
#[derive(Debug, Clone, Copy, PartialEq, Eq, Structural)]
pub enum LayerKind {
    /// Red, green, blue and alpha.
    Rgba,
    /// Red, green and blue.
    Rgb,
    /// Luminance, chroma and alpha.
    LumaChromaAlpha,
    /// Luminance and chroma.
    LumaChroma,
    /// Luminance and alpha.
    GrayAlpha,
    /// Luminance.
    Gray,
    /// Depth without any colour.
    Depth,
    /// Anything else.
    Other,
}

impl LayerKind {
    pub open spec fn is_picture(self) -> bool {
        self != LayerKind::Depth && self != LayerKind::Other
    }

    /// A layer of this kind can be shown as a frame.
    pub fn has_frame_mapping(self) -> (r: bool)
        ensures
            r == self.is_picture(),
    {
        self != LayerKind::Depth && self != LayerKind::Other
    }
}

/// A layer has a channel with the given name.
pub open spec fn bears(cs: Seq<ChannelView>, layer: Seq<char>, base: Seq<char>) -> bool {
    exists|i: int|
        0 <= i < cs.len() && layer_of((#[trigger] cs[i]).name) == layer && base_of(cs[i].name) == base
}

/// What the channels of a layer are.
pub open spec fn kind_of_layer(cs: Seq<ChannelView>, layer: Seq<char>) -> LayerKind {
    let (r, g, b) = (bears(cs, layer, "R"@), bears(cs, layer, "G"@), bears(cs, layer, "B"@));
    let alpha = bears(cs, layer, "A"@);
    let chroma = bears(cs, layer, "RY"@) && bears(cs, layer, "BY"@);
    if r && g && b {
        if alpha {
            LayerKind::Rgba
        } else {
            LayerKind::Rgb
        }
    } else if bears(cs, layer, "Y"@) {
        if chroma && alpha {
            LayerKind::LumaChromaAlpha
        } else if chroma {
            LayerKind::LumaChroma
        } else if alpha {
            LayerKind::GrayAlpha
        } else {
            LayerKind::Gray
        }
    } else if bears(cs, layer, "Z"@) && !r && !g && !b {
        LayerKind::Depth
    } else {
        LayerKind::Other
    }
}

fn has_base(channels: &[Channel], layer: &str, base: &str) -> (r: bool)
    ensures
        r == bears(channel_views(channels@), layer@, base@),
{
    let ghost cs = channel_views(channels@);
    let mut i: usize = 0;
    while i < channels.len()
        invariant
            i <= channels@.len(),
            cs == channel_views(channels@),
            forall|j: int|
                0 <= j < i ==> layer_of((#[trigger] cs[j]).name) != layer@ || base_of(cs[j].name)
                    != base@,
        decreases channels@.len() - i,
    {
        assert(cs[i as int] == channels@[i as int]@);
        let (l, b): (&str, &str) = split_channel_name(channels[i].name.as_str());
        if str_eq(l, layer) && str_eq(b, base) {
            assert(layer_of(cs[i as int].name) == layer@);
            return true;
        }
        i = i + 1;
    }
    false
}

fn classify(channels: &[Channel], layer: &str) -> (r: LayerKind)
    ensures
        r == kind_of_layer(channel_views(channels@), layer@),
{
    let red: bool = has_base(channels, layer, "R");
    let green: bool = has_base(channels, layer, "G");
    let blue: bool = has_base(channels, layer, "B");
    let alpha: bool = has_base(channels, layer, "A");
    let chroma: bool = has_base(channels, layer, "RY") && has_base(channels, layer, "BY");
    if red && green && blue {
        if alpha {
            LayerKind::Rgba
        } else {
            LayerKind::Rgb
        }
    } else if has_base(channels, layer, "Y") {
        if chroma && alpha {
            LayerKind::LumaChromaAlpha
        } else if chroma {
            LayerKind::LumaChroma
        } else if alpha {
            LayerKind::GrayAlpha
        } else {
            LayerKind::Gray
        }
    } else if has_base(channels, layer, "Z") && !red && !green && !blue {
        LayerKind::Depth
    } else {
        LayerKind::Other
    }
}

// ----------------------------------------------------------------------
// Layers
// ----------------------------------------------------------------------
/// A layer of a list of channels.
#[derive(Debug, Clone, PartialEq, Eq)]
pub struct ExrLayer {
    /// Empty for the base layer.
    pub name: String,
    /// The positions of the channels in the list.
    pub channels: Vec<usize>,
    pub kind: LayerKind,
    /// The view that the layer belongs to.
    pub view: Option<String>,
}

/// What an [`ExrLayer`] stands for.
#[verifier::ext_equal]
pub struct LayerView {
    pub name: Seq<char>,
    pub channels: Seq<int>,
    pub kind: LayerKind,
    pub view: Option<Seq<char>>,
}

impl View for ExrLayer {
    type V = LayerView;

    open spec fn view(&self) -> LayerView {
        LayerView {
            name: self.name@,
            channels: Seq::new(self.channels@.len(), |i: int| self.channels@[i] as int),
            kind: self.kind,
            view: string_option(self.view),
        }
    }
}

pub open spec fn layer_views(v: Seq<ExrLayer>) -> Seq<LayerView> {
    Seq::new(v.len(), |i: int| v[i]@)
}

impl ExrLayer {
    /// The full name of the channel that has the name `base` in this layer.
    pub fn channel_name(&self, base: &str) -> (r: String)
        ensures
            r@ == joined(self@.name, base@),
    {
        if self.name.as_str().is_empty() {
            base.to_owned()
        } else {
            let mut r: String = self.name.clone();
            r.append(".");
            r.append(base);
            r
        }
    }
}

/// The layers of the first `k` channels, in the order in which they come up.
pub open spec fn names_upto(cs: Seq<ChannelView>, k: int) -> Seq<Seq<char>>
    decreases k,
{
    if k <= 0 {
        Seq::empty()
    } else {
        let names = names_upto(cs, k - 1);
        let layer = layer_of(cs[k - 1].name);
        if names.contains(layer) {
            names
        } else {
            names.push(layer)
        }
    }
}

/// The position of the first empty name from `i` on, or the end.
pub open spec fn empty_at(names: Seq<Seq<char>>, i: int) -> int
    decreases names.len() - i,
{
    if i >= names.len() || names[i].len() == 0 {
        i
    } else {
        empty_at(names, i + 1)
    }
}

/// The names with the empty one in front, where there is one.
pub open spec fn base_first(names: Seq<Seq<char>>) -> Seq<Seq<char>> {
    let i = empty_at(names, 0);
    if i < names.len() {
        seq![names[i]] + names.remove(i)
    } else {
        names
    }
}

/// The positions of the channels of a layer among the first `k`.
pub open spec fn members_upto(cs: Seq<ChannelView>, layer: Seq<char>, k: int) -> Seq<int>
    decreases k,
{
    if k <= 0 {
        Seq::empty()
    } else {
        let members = members_upto(cs, layer, k - 1);
        if layer_of(cs[k - 1].name) == layer {
            members.push(k - 1)
        } else {
            members
        }
    }
}

/// The layers of a list of channels. The base layer stands in front; the
/// others stand in the order in which they come up.
pub open spec fn layers_of(cs: Seq<ChannelView>, es: Seq<EntryView>) -> Seq<LayerView> {
    let names = base_first(names_upto(cs, cs.len() as int));
    Seq::new(
        names.len(),
        |i: int|
            LayerView {
                name: names[i],
                channels: members_upto(cs, names[i], cs.len() as int),
                kind: kind_of_layer(cs, names[i]),
                view: view_of(names[i], views_from(es, 0)),
            },
    )
}

fn has_name(names: &[String], s: &str) -> (r: bool)
    ensures
        r == string_views(names@).contains(s@),
{
    is_view(names, s)
}

fn list_names(channels: &[Channel]) -> (r: Vec<String>)
    ensures
        string_views(r@) == names_upto(channel_views(channels@), channels@.len() as int),
{
    let ghost cs = channel_views(channels@);
    let mut names: Vec<String> = Vec::new();
    let mut k: usize = 0;
    assert(string_views(names@) =~= Seq::<Seq<char>>::empty());
    while k < channels.len()
        invariant
            k <= channels@.len(),
            cs == channel_views(channels@),
            string_views(names@) == names_upto(cs, k as int),
        decreases channels@.len() - k,
    {
        assert(cs[k as int] == channels@[k as int]@);
        let (layer, _base): (&str, &str) = split_channel_name(channels[k].name.as_str());
        if !has_name(names.as_slice(), layer) {
            let ghost before = names@;
            names.push(layer.to_owned());
            assert(string_views(names@) =~= string_views(before).push(layer@));
        }
        k = k + 1;
    }
    names
}

fn put_base_first(names: Vec<String>) -> (r: Vec<String>)
    ensures
        string_views(r@) == base_first(string_views(names@)),
{
    let ghost ns = string_views(names@);
    let mut names: Vec<String> = names;
    let mut i: usize = 0;
    while i < names.len() && !names[i].as_str().is_empty()
        invariant
            i <= names@.len(),
            ns == string_views(names@),
            empty_at(ns, 0) == empty_at(ns, i as int),
        decreases names@.len() - i,
    {
        assert(ns[i as int] == names@[i as int]@);
        i = i + 1;
    }
    if i < names.len() {
        let ghost before = names@;
        assert(ns[i as int] == before[i as int]@);
        let base: String = names.remove(i);
        names.insert(0, base);
        assert(string_views(names@) =~= base_first(ns));
    }
    names
}

fn list_members(channels: &[Channel], layer: &str) -> (r: Vec<usize>)
    ensures
        Seq::new(r@.len(), |i: int| r@[i] as int) == members_upto(
            channel_views(channels@),
            layer@,
            channels@.len() as int,
        ),
{
    let ghost cs = channel_views(channels@);
    let mut r: Vec<usize> = Vec::new();
    let mut k: usize = 0;
    assert(Seq::new(r@.len(), |i: int| r@[i] as int) =~= Seq::<int>::empty());
    while k < channels.len()
        invariant
            k <= channels@.len(),
            cs == channel_views(channels@),
            Seq::new(r@.len(), |i: int| r@[i] as int) == members_upto(cs, layer@, k as int),
        decreases channels@.len() - k,
    {
        assert(cs[k as int] == channels@[k as int]@);
        let (own, _base): (&str, &str) = split_channel_name(channels[k].name.as_str());
        if str_eq(own, layer) {
            let ghost before = r@;
            r.push(k);
            assert(Seq::new(r@.len(), |i: int| r@[i] as int) =~= Seq::new(
                before.len(),
                |i: int| before[i] as int,
            ).push(k as int));
        }
        k = k + 1;
    }
    r
}

/// List the layers of some channels. The attributes may name views.
pub fn enumerate_layers(channels: &[Channel], attributes: &[Attribute]) -> (r: Vec<ExrLayer>)
    ensures
        layer_views(r@) == layers_of(channel_views(channels@), entry_views(attributes@)),
{
    let ghost want = layers_of(channel_views(channels@), entry_views(attributes@));
    let views: Option<&[String]> = multi_view(attributes);
    let names: Vec<String> = put_base_first(list_names(channels));
    let ghost ns = string_views(names@);
    let mut layers: Vec<ExrLayer> = Vec::new();
    let mut i: usize = 0;
    while i < names.len()
        invariant
            i <= names@.len(),
            ns == string_views(names@),
            want == layers_of(channel_views(channels@), entry_views(attributes@)),
            ns == base_first(names_upto(channel_views(channels@), channels@.len() as int)),
            views is None <==> views_from(entry_views(attributes@), 0) is None,
            views matches Some(v) ==> views_from(entry_views(attributes@), 0) == Some(
                string_views(v@),
            ),
            layers@.len() == i,
            forall|j: int| 0 <= j < i ==> (#[trigger] layers@[j])@ == want[j],
        decreases names@.len() - i,
    {
        assert(ns[i as int] == names@[i as int]@);
        let name: &str = names[i].as_str();
        let layer: ExrLayer = ExrLayer {
            name: names[i].clone(),
            channels: list_members(channels, name),
            kind: classify(channels, name),
            view: layer_view(name, views),
        };
        assert(layer@ =~= want[i as int]);
        layers.push(layer);
        i = i + 1;
    }
    assert(layer_views(layers@) =~= want);
    layers
}

/// The position of the first layer from `i` on that has the given name.
pub open spec fn layer_named(layers: Seq<LayerView>, name: Seq<char>, i: int) -> Option<int>
    decreases layers.len() - i,
{
    if i >= layers.len() {
        None
    } else if layers[i].name == name {
        Some(i)
    } else {
        layer_named(layers, name, i + 1)
    }
}

/// The layer of the given name; else the base layer, where the name is that of
/// the default view.
pub open spec fn layer_for(layers: Seq<LayerView>, name: Seq<char>) -> Option<int> {
    match layer_named(layers, name, 0) {
        Some(i) => Some(i),
        None => if layers.len() > 0 && layers[0].name.len() == 0 && layers[0].view == Some(name) {
            Some(0)
        } else {
            None
        },
    }
}

/// Find the layer of the given name; else the base layer, where the name is
/// that of the default view.
pub fn find_layer<'a>(layers: &'a [ExrLayer], name: &str) -> (r: Option<&'a ExrLayer>)
    ensures
        r is None <==> layer_for(layer_views(layers@), name@) is None,
        r matches Some(l) ==> layer_for(layer_views(layers@), name@) matches Some(i) && 0 <= i
            < layers@.len() && *l == layers@[i],
{
    let ghost lv = layer_views(layers@);
    let mut i: usize = 0;
    while i < layers.len()
        invariant
            i <= layers@.len(),
            lv == layer_views(layers@),
            layer_named(lv, name@, 0) == layer_named(lv, name@, i as int),
        decreases layers@.len() - i,
    {
        assert(lv[i as int] == layers@[i as int]@);
        if str_eq(layers[i].name.as_str(), name) {
            return Some(&layers[i]);
        }
        i = i + 1;
    }
    if layers.len() > 0 {
        assert(lv[0] == layers@[0]@);
        if layers[0].name.as_str().is_empty() {
            if let Some(v) = &layers[0].view {
                if str_eq(v.as_str(), name) {
                    return Some(&layers[0]);
                }
            }
        }
    }
    None
}

// ----------------------------------------------------------------------
// Laws
// ----------------------------------------------------------------------
pub proof fn lemma_members(cs: Seq<ChannelView>, layer: Seq<char>, k: int, c: int)
    requires
        0 <= k <= cs.len(),
    ensures
        members_upto(cs, layer, k).contains(c) <==> 0 <= c < k && layer_of(cs[c].name) == layer,
    decreases k,
{
    if k > 0 {
        lemma_members(cs, layer, k - 1, c);
        let before = members_upto(cs, layer, k - 1);
        if layer_of(cs[k - 1].name) == layer {
            let after = before.push(k - 1);
            assert(after[before.len() as int] == k - 1);
            assert forall|j: int| 0 <= j < before.len() implies after[j] == before[j] by {}
            if before.contains(c) {
                let j = choose|j: int| 0 <= j < before.len() && before[j] == c;
                assert(after[j] == c);
            }
        }
    }
}

/// The names of the layers are the layers of the channels, each once.
pub proof fn lemma_names_upto(cs: Seq<ChannelView>, k: int)
    requires
        0 <= k <= cs.len(),
    ensures
        names_upto(cs, k).no_duplicates(),
        forall|c: int| 0 <= c < k ==> names_upto(cs, k).contains(layer_of((#[trigger] cs[c]).name)),
    decreases k,
{
    if k > 0 {
        lemma_names_upto(cs, k - 1);
        let before = names_upto(cs, k - 1);
        let layer = layer_of(cs[k - 1].name);
        let after = names_upto(cs, k);
        assert forall|c: int| 0 <= c < k implies after.contains(
            layer_of((#[trigger] cs[c]).name),
        ) by {
            let own = layer_of(cs[c].name);
            if !before.contains(layer) {
                assert(after[before.len() as int] == layer);
                if c < k - 1 {
                    let j = choose|j: int| 0 <= j < before.len() && before[j] == own;
                    assert(after[j] == own);
                }
            }
        }
    }
}

pub proof fn lemma_empty_at(names: Seq<Seq<char>>, i: int)
    requires
        0 <= i <= names.len(),
    ensures
        i <= empty_at(names, i) <= names.len(),
        empty_at(names, i) < names.len() ==> names[empty_at(names, i)].len() == 0,
    decreases names.len() - i,
{
    if i < names.len() && names[i].len() != 0 {
        lemma_empty_at(names, i + 1);
    }
}

/// Moving the base layer to the front keeps every name, once.
proof fn lemma_base_first(names: Seq<Seq<char>>)
    requires
        names.no_duplicates(),
    ensures
        base_first(names).no_duplicates(),
        base_first(names).len() == names.len(),
        forall|n: Seq<char>| names.contains(n) ==> #[trigger] base_first(names).contains(n),
{
    let i = empty_at(names, 0);
    lemma_empty_at(names, 0);
    if i < names.len() {
        let after = base_first(names);
        assert forall|j: int| 0 <= j < after.len() implies after[j] == names[if j == 0 {
            i
        } else if j <= i {
            j - 1
        } else {
            j
        }] by {}
        assert forall|n: Seq<char>| names.contains(n) implies #[trigger] after.contains(n) by {
            let j = choose|j: int| 0 <= j < names.len() && names[j] == n;
            let k = if j == i {
                0
            } else if j < i {
                j + 1
            } else {
                j
            };
            assert(after[k] == n);
        }
    }
}

/// Every channel belongs to exactly one layer: the one that its name names.
pub proof fn law_layers_partition(cs: Seq<ChannelView>, es: Seq<EntryView>, c: int)
    requires
        0 <= c < cs.len(),
    ensures
        exists|i: int|
            0 <= i < layers_of(cs, es).len() && (#[trigger] layers_of(cs, es)[i]).channels.contains(c),
        forall|i: int, j: int|
            0 <= i < layers_of(cs, es).len() && 0 <= j < layers_of(cs, es).len()
                && (#[trigger] layers_of(cs, es)[i]).channels.contains(c) && (
            #[trigger] layers_of(cs, es)[j]).channels.contains(c) ==> i == j,
{
    let all = names_upto(cs, cs.len() as int);
    let names = base_first(all);
    let ls = layers_of(cs, es);
    let own = layer_of(cs[c].name);
    lemma_names_upto(cs, cs.len() as int);
    lemma_base_first(all);
    assert(all.contains(own));
    assert(names.contains(own));
    let i = choose|i: int| 0 <= i < names.len() && names[i] == own;
    lemma_members(cs, own, cs.len() as int, c);
    assert(ls[i].channels.contains(c));
    assert forall|a: int, b: int|
        0 <= a < ls.len() && 0 <= b < ls.len() && (#[trigger] ls[a]).channels.contains(c) && (
        #[trigger] ls[b]).channels.contains(c) implies a == b by {
        lemma_members(cs, names[a], cs.len() as int, c);
        lemma_members(cs, names[b], cs.len() as int, c);
        assert(names[a] == names[b]);
    }
}

/// The base layer, where there is one, stands in front.
pub proof fn law_base_layer_first(cs: Seq<ChannelView>, es: Seq<EntryView>, c: int)
    requires
        0 <= c < cs.len(),
        layer_of(cs[c].name).len() == 0,
    ensures
        layers_of(cs, es).len() > 0,
        layers_of(cs, es)[0].name.len() == 0,
{
    let all = names_upto(cs, cs.len() as int);
    lemma_names_upto(cs, cs.len() as int);
    lemma_empty_at(all, 0);
    assert(all.contains(layer_of(cs[c].name)));
    let j = choose|j: int| 0 <= j < all.len() && all[j] == layer_of(cs[c].name);
    lemma_empty_before(all, 0, j);
}

proof fn lemma_empty_before(names: Seq<Seq<char>>, i: int, j: int)
    requires
        0 <= i <= j < names.len(),
        names[j].len() == 0,
    ensures
        empty_at(names, i) <= j,
    decreases j - i,
{
    if i < j && names[i].len() != 0 {
        lemma_empty_before(names, i + 1, j);
    }
}

} // verus!
