//! How names are ordered, and how channels make up layers and views.

use crate::layers::{
    base_first, base_of, bears, empty_at, first_dot, joined, kind_of_layer, layer_for, layer_named,
    layer_of, layers_of, members_upto, names_upto, view_in, view_of, views_from, LayerKind,
    LayerView,
};
use crate::text::{bytes_lt_from, name_lt};
use crate::types::{AttributeView, ChannelView, EntryView};
use vstd::prelude::*;
use vstd::utf8::encode_utf8;

verus! {

// ----------------------------------------------------------------------
// Names
// ----------------------------------------------------------------------
/// Two sequences of bytes agree in the first `k`, and then the first one ends or has the
/// smaller byte.
pub open spec fn is_below_at(a: Seq<u8>, b: Seq<u8>, k: int) -> bool {
    &&& 0 <= k < b.len()
    &&& k <= a.len()
    &&& forall|i: int| 0 <= i < k ==> #[trigger] a[i] == b[i]
    &&& k < a.len() ==> a[k] < b[k]
}

proof fn lemma_below(a: Seq<u8>, b: Seq<u8>, i: int, k: int)
    requires
        is_below_at(a, b, k),
        0 <= i <= k,
    ensures
        bytes_lt_from(a, b, i),
    decreases k - i,
{
    if i < k {
        assert(a[i] == b[i]);
        lemma_below(a, b, i + 1, k);
    }
}

proof fn lemma_place_below(a: Seq<u8>, b: Seq<u8>, i: int) -> (k: int)
    requires
        0 <= i <= a.len(),
        bytes_lt_from(a, b, i),
        forall|j: int| 0 <= j < i ==> #[trigger] a[j] == b[j],
        i <= b.len(),
    ensures
        is_below_at(a, b, k),
    decreases a.len() - i,
{
    if i < a.len() && a[i] == b[i] {
        lemma_place_below(a, b, i + 1)
    } else {
        i
    }
}

/// Names are ordered by their bytes, from the first on; a name comes after every name that
/// it begins with.
pub proof fn law_name_order(a: Seq<char>, b: Seq<char>)
    ensures
        name_lt(a, b) <==> exists|k: int| #[trigger]
            is_below_at(encode_utf8(a), encode_utf8(b), k),
{
    let (x, y) = (encode_utf8(a), encode_utf8(b));
    if name_lt(a, b) {
        let k = lemma_place_below(x, y, 0);
        assert(is_below_at(x, y, k));
    }
    if exists|k: int| #[trigger] is_below_at(x, y, k) {
        let k = choose|k: int| #[trigger] is_below_at(x, y, k);
        lemma_below(x, y, 0, k);
    }
}

// ----------------------------------------------------------------------
// Layers
// ----------------------------------------------------------------------
/// A channel of a layer is named by the layer, a dot, and what the channel is called in it.
pub proof fn law_joined_name(layer: Seq<char>, base: Seq<char>)
    ensures
        layer.len() == 0 ==> joined(layer, base) == base,
        layer.len() > 0 ==> {
            let name = joined(layer, base);
            &&& name.len() == layer.len() + 1 + base.len()
            &&& name.take(layer.len() as int) == layer
            &&& name[layer.len() as int] == '.'
            &&& name.skip(layer.len() as int + 1) == base
        },
{
    reveal_strlit(".");
    if layer.len() > 0 {
        let name = joined(layer, base);
        assert(name.take(layer.len() as int) =~= layer);
        assert(name.skip(layer.len() as int + 1) =~= base);
    }
}

/// The layer of a name ends in front of its last dot.
pub proof fn law_last_dot(name: Seq<char>)
    ensures
        forall|i: int| 0 <= i < base_of(name).len() ==> #[trigger] base_of(name)[i] != '.',
        (exists|i: int| 0 <= i < name.len() && #[trigger] name[i] == '.') ==> name == layer_of(name)
            + seq!['.'] + base_of(name),
        !(exists|i: int| 0 <= i < name.len() && #[trigger] name[i] == '.') ==> name == base_of(name)
            && layer_of(name).len() == 0,
{
    lemma_dot(name, name.len() as int);
    if let Some(i) = crate::layers::last_dot(name, name.len() as int) {
        assert(name =~= layer_of(name) + seq!['.'] + base_of(name));
        assert(name[i] == '.');
    }
}

proof fn lemma_dot(name: Seq<char>, n: int)
    requires
        0 <= n <= name.len(),
    ensures
        match crate::layers::last_dot(name, n) {
            Some(i) => 0 <= i < n && name[i] == '.' && forall|j: int|
                i < j < n ==> #[trigger] name[j] != '.',
            None => forall|j: int| 0 <= j < n ==> #[trigger] name[j] != '.',
        },
    decreases n,
{
    if n > 0 {
        lemma_dot(name, n - 1);
    }
}

proof fn lemma_member_order(cs: Seq<ChannelView>, layer: Seq<char>, k: int)
    requires
        0 <= k <= cs.len(),
    ensures
        ({
            let m = members_upto(cs, layer, k);
            &&& forall|i: int, j: int|
                #![trigger m[i], m[j]]
                0 <= i < j < m.len() ==> m[i] < m[j]
            &&& forall|i: int|
                0 <= i < m.len() ==> 0 <= #[trigger] m[i] < k && layer_of(cs[m[i]].name) == layer
            &&& forall|c: int|
                0 <= c < k && layer_of((#[trigger] cs[c]).name) == layer ==> m.len() > 0 && m[0] <= c
        }),
    decreases k,
{
    if k > 0 {
        lemma_member_order(cs, layer, k - 1);
    }
}

/// The channels of a layer are those whose names begin with it, in their order.
pub proof fn law_layer_members(cs: Seq<ChannelView>, es: Seq<EntryView>, l: int)
    requires
        0 <= l < layers_of(cs, es).len(),
    ensures
        ({
            let m = layers_of(cs, es)[l].channels;
            let name = layers_of(cs, es)[l].name;
            &&& forall|i: int, j: int|
                #![trigger m[i], m[j]]
                0 <= i < j < m.len() ==> m[i] < m[j]
            &&& forall|i: int|
                0 <= i < m.len() ==> 0 <= #[trigger] m[i] < cs.len() && layer_of(cs[m[i]].name) == name
            &&& forall|c: int|
                0 <= c < cs.len() && layer_of((#[trigger] cs[c]).name) == name ==> m.contains(c)
        }),
{
    let name = layers_of(cs, es)[l].name;
    let m = layers_of(cs, es)[l].channels;
    lemma_member_order(cs, name, cs.len() as int);
    assert forall|c: int| 0 <= c < cs.len() && layer_of((#[trigger] cs[c]).name) == name implies m.contains(
        c,
    ) by {
        crate::layers::lemma_members(cs, name, cs.len() as int, c);
    }
}

/// The first of the channels of a layer.
pub open spec fn first_channel(cs: Seq<ChannelView>, layer: Seq<char>, c: int) -> bool {
    &&& 0 <= c < cs.len()
    &&& layer_of(cs[c].name) == layer
    &&& forall|i: int| 0 <= i < c ==> layer_of((#[trigger] cs[i]).name) != layer
}

proof fn lemma_names_order(cs: Seq<ChannelView>, k: int, i: int, j: int, a: int, b: int)
    requires
        0 <= k <= cs.len(),
        0 <= i < names_upto(cs, k).len(),
        0 <= j < names_upto(cs, k).len(),
        first_channel(cs, names_upto(cs, k)[i], a),
        first_channel(cs, names_upto(cs, k)[j], b),
        i < j,
    ensures
        a < b,
        b < k,
    decreases k,
{
    if k > 0 {
        let before = names_upto(cs, k - 1);
        let names = names_upto(cs, k);
        let layer = layer_of(cs[k - 1].name);
        crate::layers::lemma_names_upto(cs, k - 1);
        if j < before.len() {
            lemma_names_order(cs, k - 1, i, j, a, b);
        } else {
            assert(names[j] == layer);
            assert(names[i] == before[i]);
            lemma_named_early(cs, k - 1, i, a);
            assert(!before.contains(layer));
            if b < k - 1 {
                assert(before.contains(layer_of(cs[b].name)));
            }
            if b > k - 1 {
                assert(layer_of(cs[k - 1].name) != names[j]);
            }
        }
    }
}

proof fn lemma_named_early(cs: Seq<ChannelView>, k: int, i: int, a: int)
    requires
        0 <= k <= cs.len(),
        0 <= i < names_upto(cs, k).len(),
        first_channel(cs, names_upto(cs, k)[i], a),
    ensures
        a < k,
    decreases k,
{
    if k > 0 {
        let before = names_upto(cs, k - 1);
        if i < before.len() {
            lemma_named_early(cs, k - 1, i, a);
        } else if a > k - 1 {
            assert(layer_of(cs[k - 1].name) != names_upto(cs, k)[i]);
        }
    }
}

/// Layers but the base layer stand in the order of their first channels.
pub proof fn law_layer_order(
    cs: Seq<ChannelView>,
    es: Seq<EntryView>,
    i: int,
    j: int,
    a: int,
    b: int,
)
    requires
        0 <= i < j < layers_of(cs, es).len(),
        layers_of(cs, es)[i].name.len() > 0,
        layers_of(cs, es)[j].name.len() > 0,
        first_channel(cs, layers_of(cs, es)[i].name, a),
        first_channel(cs, layers_of(cs, es)[j].name, b),
    ensures
        a < b,
{
    let all = names_upto(cs, cs.len() as int);
    let names = base_first(all);
    let e = empty_at(all, 0);
    crate::layers::lemma_empty_at(all, 0);
    let old = |q: int|
        if e >= all.len() {
            q
        } else if q - 1 < e {
            q - 1
        } else {
            q
        };
    if e < all.len() {
        assert(names[0] == all[e]);
        assert(i >= 1);
        assert(names[i] == all.remove(e)[i - 1]);
        assert(names[j] == all.remove(e)[j - 1]);
    }
    assert(names[i] == all[old(i)] && names[j] == all[old(j)]);
    lemma_names_order(cs, cs.len() as int, old(i), old(j), a, b);
}

/// What a layer is follows from the names of its channels.
pub proof fn law_layer_kinds(cs: Seq<ChannelView>, layer: Seq<char>)
    ensures
        ({
            let named = |base: Seq<char>| bears(cs, layer, base);
            let k = kind_of_layer(cs, layer);
            let colour = named("R"@) && named("G"@) && named("B"@);
            let chroma = named("RY"@) && named("BY"@);
            &&& k == LayerKind::Rgba <==> colour && named("A"@)
            &&& k == LayerKind::Rgb <==> colour && !named("A"@)
            &&& k == LayerKind::LumaChromaAlpha <==> !colour && named("Y"@) && chroma && named("A"@)
            &&& k == LayerKind::LumaChroma <==> !colour && named("Y"@) && chroma && !named("A"@)
            &&& k == LayerKind::GrayAlpha <==> !colour && named("Y"@) && !chroma && named("A"@)
            &&& k == LayerKind::Gray <==> !colour && named("Y"@) && !chroma && !named("A"@)
            &&& k == LayerKind::Depth <==> named("Z"@) && !named("Y"@) && !named("R"@) && !named("G"@) && !named(
                "B"@,
            )
            &&& k.is_picture() <==> k != LayerKind::Depth && k != LayerKind::Other
        }),
{
}

/// A layer has a channel of a name if one of the channels is called so in it.
pub proof fn law_bears(cs: Seq<ChannelView>, layer: Seq<char>, base: Seq<char>, c: int)
    requires
        0 <= c < cs.len(),
        cs[c].name == joined(layer, base),
        forall|i: int| 0 <= i < base.len() ==> #[trigger] base[i] != '.',
    ensures
        bears(cs, layer, base),
{
    assert forall|j: int| 0 <= j < base.len() implies base[j] != '.' by {}
    crate::layers::law_join_splits(layer, base);
    assert(layer_of(cs[c].name) == layer);
}

// ----------------------------------------------------------------------
// Views
// ----------------------------------------------------------------------
/// The views are those of the first attribute of that name that holds texts.
pub proof fn law_views(es: Seq<EntryView>, i: int, v: Seq<Seq<char>>)
    requires
        0 <= i < es.len(),
        es[i].name == "multiView"@,
        es[i].value == AttributeView::Texts(v),
        forall|j: int|
            0 <= j < i ==> (#[trigger] es[j]).name != "multiView"@ || !(es[j].value is Texts),
    ensures
        views_from(es, 0) == Some(v),
{
    lemma_views(es, 0, i, v);
}

proof fn lemma_views(es: Seq<EntryView>, k: int, i: int, v: Seq<Seq<char>>)
    requires
        0 <= k <= i < es.len(),
        es[i].name == "multiView"@,
        es[i].value == AttributeView::Texts(v),
        forall|j: int|
            0 <= j < i ==> (#[trigger] es[j]).name != "multiView"@ || !(es[j].value is Texts),
    ensures
        views_from(es, k) == Some(v),
    decreases i - k,
{
    if k < i {
        assert(es[k].name != "multiView"@ || !(es[k].value is Texts));
        lemma_views(es, k + 1, i, v);
    }
}

/// A layer belongs to the first of the pieces of its name between dots that is a view; the
/// base layer belongs to the first view.
pub proof fn law_view_of_layer(part: Seq<char>, rest: Seq<char>, views: Seq<Seq<char>>)
    requires
        forall|i: int| 0 <= i < part.len() ==> #[trigger] part[i] != '.',
    ensures
        part.len() > 0 ==> view_of(part, Some(views)) == if views.contains(part) {
            Some(part)
        } else {
            None
        },
        views.contains(part) ==> view_of(part + seq!['.'] + rest, Some(views)) == Some(part),
        !views.contains(part) && rest.len() > 0 ==> view_of(part + seq!['.'] + rest, Some(views))
            == view_of(rest, Some(views)),
        view_of(Seq::empty(), Some(views)) == if views.len() > 0 {
            Some(views[0])
        } else {
            None
        },
        view_of(part, None) is None,
{
    let n = part.len() as int;
    lemma_first_dot(part, 0, n);
    assert(part.subrange(0, n) =~= part);
    let name = part + seq!['.'] + rest;
    assert(name[n] == '.');
    assert forall|i: int| 0 <= i < n implies #[trigger] name[i] != '.' by {
        assert(part[i] != '.');
    }
    lemma_first_dot(name, 0, n);
    assert(name.subrange(0, n) =~= part);
    if rest.len() > 0 && !views.contains(part) {
        assert(name.skip(n + 1) =~= rest);
        lemma_view_behind(name, rest, views, n + 1, 0);
    }
}

proof fn lemma_first_dot(name: Seq<char>, from: int, to: int)
    requires
        0 <= from <= to <= name.len(),
        forall|i: int| from <= i < to ==> #[trigger] name[i] != '.',
        to == name.len() || name[to] == '.',
    ensures
        first_dot(name, from) == to,
    decreases to - from,
{
    if from < to {
        assert(name[from] != '.');
        lemma_first_dot(name, from + 1, to);
    }
}

proof fn lemma_dot_behind(name: Seq<char>, rest: Seq<char>, at: int, from: int)
    requires
        0 <= at <= name.len(),
        rest == name.skip(at),
        0 <= from <= rest.len(),
    ensures
        first_dot(name, at + from) == at + first_dot(rest, from),
        from <= first_dot(rest, from) <= rest.len(),
    decreases rest.len() - from,
{
    if from < rest.len() && rest[from] != '.' {
        lemma_dot_behind(name, rest, at, from + 1);
    }
}

proof fn lemma_view_behind(
    name: Seq<char>,
    rest: Seq<char>,
    views: Seq<Seq<char>>,
    at: int,
    from: int,
)
    requires
        0 <= at <= name.len(),
        rest == name.skip(at),
        0 <= from <= rest.len(),
    ensures
        view_in(name, views, at + from) == view_in(rest, views, from),
    decreases rest.len() - from,
{
    lemma_dot_behind(name, rest, at, from);
    let to = first_dot(rest, from);
    assert(name.subrange(at + from, at + to) =~= rest.subrange(from, to));
    if to < rest.len() {
        lemma_view_behind(name, rest, views, at, to + 1);
    }
}

/// A layer is found by its name, the first of that name; the base layer is also found by the
/// view that it belongs to, if no layer has that name.
pub proof fn law_layer_found(layers: Seq<LayerView>, name: Seq<char>, i: int)
    ensures
        0 <= i < layers.len() && layers[i].name == name && (forall|j: int|
            0 <= j < i ==> (#[trigger] layers[j]).name != name) ==> layer_for(layers, name) == Some(i),
        (forall|j: int| 0 <= j < layers.len() ==> (#[trigger] layers[j]).name != name) ==> layer_for(
            layers,
            name,
        ) == if layers.len() > 0 && layers[0].name.len() == 0 && layers[0].view == Some(name) {
            Some(0int)
        } else {
            None
        },
{
    lemma_layer_named(layers, name, 0);
    if let Some(k) = layer_named(layers, name, 0) {
        if 0 <= i < layers.len() && layers[i].name == name && (forall|j: int|
            0 <= j < i ==> (#[trigger] layers[j]).name != name) {
            assert(layers[k].name == name);
            assert(layers[i].name == name);
        }
    }
}

proof fn lemma_layer_named(layers: Seq<LayerView>, name: Seq<char>, from: int)
    requires
        0 <= from <= layers.len(),
    ensures
        match layer_named(layers, name, from) {
            Some(k) => from <= k < layers.len() && layers[k].name == name && forall|j: int|
                from <= j < k ==> (#[trigger] layers[j]).name != name,
            None => forall|j: int| from <= j < layers.len() ==> (#[trigger] layers[j]).name != name,
        },
    decreases layers.len() - from,
{
    if from < layers.len() {
        lemma_layer_named(layers, name, from + 1);
    }
}

} // verus!
