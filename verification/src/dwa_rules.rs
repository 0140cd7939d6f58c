//! How the DCT compressions treat a channel: rules by the last part of its
//! name and by its type.

use crate::bytes::{
    lemma_stands_split, lemma_u16_reads_back, put_bytes, put_u16, read_u16, slice_range, stands_at,
    u16_at, u16_le,
};
use crate::error::{ExrError, Fault};
use crate::header::{lemma_zero_found, zero_from};
use crate::layers::{base_of, last_dot, split_channel_name};
use crate::text::{alike, mended_text, str_alike, str_eq, utf8_lossy};
use crate::types::{channel_views, Channel, ChannelView, PixelType};
use vstd::prelude::*;
use vstd::string::*;
use vstd::utf8::*;

verus! {

broadcast use crate::bytes::group_le_len;

/// How a channel is stored.
#[derive(Debug, Clone, Copy, PartialEq, Eq, Structural)]
pub enum DwaScheme {
    /// As it is.
    Verbatim,
    /// As quantised coefficients of squares of samples.
    LossyDct,
    /// In runs of equal bytes.
    Rle,
}

/// The place of a channel that belongs to no triple of colours.
pub const NO_SLOT: i8 = -1;

/// A rule: channels whose name ends with `suffix` and that have the given
/// type are stored by `scheme`.
#[derive(Debug, Clone, PartialEq, Eq)]
pub struct WireRule {
    pub suffix: String,
    pub pixel_type: PixelType,
    pub scheme: DwaScheme,
    /// The place in a triple of colours, or [`NO_SLOT`].
    pub csc_slot: i8,
    pub case_insensitive: bool,
}

/// What a [`WireRule`] stands for.
#[verifier::ext_equal]
pub struct RuleView {
    pub suffix: Seq<char>,
    pub pixel_type: PixelType,
    pub scheme: DwaScheme,
    pub csc_slot: i8,
    pub case_insensitive: bool,
}

impl View for WireRule {
    type V = RuleView;

    open spec fn view(&self) -> RuleView {
        RuleView {
            suffix: self.suffix@,
            pixel_type: self.pixel_type,
            scheme: self.scheme,
            csc_slot: self.csc_slot,
            case_insensitive: self.case_insensitive,
        }
    }
}

pub open spec fn rule_views(v: Seq<WireRule>) -> Seq<RuleView> {
    Seq::new(v.len(), |i: int| v[i]@)
}

/// A rule for channels with the given suffix and type.
pub open spec fn rule(
    suffix: Seq<char>,
    pixel_type: PixelType,
    scheme: DwaScheme,
    csc_slot: i8,
    case_insensitive: bool,
) -> RuleView {
    RuleView { suffix, pixel_type, scheme, csc_slot, case_insensitive }
}

/// The same rule for HALF and for FLOAT channels.
pub open spec fn lossy_pair(suffix: Seq<char>, slot: i8, any_case: bool) -> Seq<RuleView> {
    seq![
        rule(suffix, PixelType::Half, DwaScheme::LossyDct, slot, any_case),
        rule(suffix, PixelType::Float, DwaScheme::LossyDct, slot, any_case),
    ]
}

/// The rules for a channel that is stored in runs.
pub open spec fn run_rules(suffix: Seq<char>, any_case: bool) -> Seq<RuleView> {
    seq![
        rule(suffix, PixelType::Uint, DwaScheme::Rle, NO_SLOT, any_case),
        rule(suffix, PixelType::Half, DwaScheme::Rle, NO_SLOT, any_case),
        rule(suffix, PixelType::Float, DwaScheme::Rle, NO_SLOT, any_case),
    ]
}

/// The rules that are written into a chunk.
pub open spec fn default_rule_set() -> Seq<RuleView> {
    lossy_pair("R"@, 0, false) + lossy_pair("G"@, 1, false) + lossy_pair("B"@, 2, false)
        + lossy_pair("Y"@, NO_SLOT, false) + lossy_pair("BY"@, NO_SLOT, false) + lossy_pair("RY"@, NO_SLOT, false)
        + run_rules("A"@, false)
}

/// The rules for chunks that hold none.
pub open spec fn legacy_rule_set() -> Seq<RuleView> {
    lossy_pair("r"@, 0, true) + lossy_pair("red"@, 0, true) + lossy_pair("g"@, 1, true)
        + lossy_pair("grn"@, 1, true) + lossy_pair("green"@, 1, true) + lossy_pair("b"@, 2, true)
        + lossy_pair("blu"@, 2, true) + lossy_pair("blue"@, 2, true) + lossy_pair("y"@, NO_SLOT, true)
        + lossy_pair("by"@, NO_SLOT, true) + lossy_pair("ry"@, NO_SLOT, true) + run_rules("a"@, true)
}

fn push_rule(
    out: &mut Vec<WireRule>,
    suffix: &str,
    pixel_type: PixelType,
    scheme: DwaScheme,
    csc_slot: i8,
    case_insensitive: bool,
)
    ensures
        rule_views(final(out)@) == rule_views(old(out)@).push(
            rule(suffix@, pixel_type, scheme, csc_slot, case_insensitive),
        ),
{
    out.push(
        WireRule { suffix: suffix.to_owned(), pixel_type, scheme, csc_slot, case_insensitive },
    );
    assert(rule_views(out@) =~= rule_views(old(out)@).push(
        rule(suffix@, pixel_type, scheme, csc_slot, case_insensitive),
    ));
}

fn push_lossy_pair(out: &mut Vec<WireRule>, suffix: &str, slot: i8, any_case: bool)
    ensures
        rule_views(final(out)@) == rule_views(old(out)@) + lossy_pair(suffix@, slot, any_case),
{
    push_rule(out, suffix, PixelType::Half, DwaScheme::LossyDct, slot, any_case);
    push_rule(out, suffix, PixelType::Float, DwaScheme::LossyDct, slot, any_case);
    assert(rule_views(out@) =~= rule_views(old(out)@) + lossy_pair(suffix@, slot, any_case));
}

fn push_run_rules(out: &mut Vec<WireRule>, suffix: &str, any_case: bool)
    ensures
        rule_views(final(out)@) == rule_views(old(out)@) + run_rules(suffix@, any_case),
{
    push_rule(out, suffix, PixelType::Uint, DwaScheme::Rle, NO_SLOT, any_case);
    push_rule(out, suffix, PixelType::Half, DwaScheme::Rle, NO_SLOT, any_case);
    push_rule(out, suffix, PixelType::Float, DwaScheme::Rle, NO_SLOT, any_case);
    assert(rule_views(out@) =~= rule_views(old(out)@) + run_rules(suffix@, any_case));
}

/// The rules that are written into a chunk.
pub fn default_rules() -> (r: Vec<WireRule>)
    ensures
        rule_views(r@) == default_rule_set(),
{
    let mut r: Vec<WireRule> = Vec::new();
    assert(rule_views(r@) =~= Seq::<RuleView>::empty());
    push_lossy_pair(&mut r, "R", 0, false);
    push_lossy_pair(&mut r, "G", 1, false);
    push_lossy_pair(&mut r, "B", 2, false);
    push_lossy_pair(&mut r, "Y", NO_SLOT, false);
    push_lossy_pair(&mut r, "BY", NO_SLOT, false);
    push_lossy_pair(&mut r, "RY", NO_SLOT, false);
    push_run_rules(&mut r, "A", false);
    assert(rule_views(r@) =~= default_rule_set());
    r
}

/// The rules for chunks that hold none.
pub fn legacy_rules() -> (r: Vec<WireRule>)
    ensures
        rule_views(r@) == legacy_rule_set(),
{
    let mut r: Vec<WireRule> = Vec::new();
    assert(rule_views(r@) =~= Seq::<RuleView>::empty());
    push_lossy_pair(&mut r, "r", 0, true);
    push_lossy_pair(&mut r, "red", 0, true);
    push_lossy_pair(&mut r, "g", 1, true);
    push_lossy_pair(&mut r, "grn", 1, true);
    push_lossy_pair(&mut r, "green", 1, true);
    push_lossy_pair(&mut r, "b", 2, true);
    push_lossy_pair(&mut r, "blu", 2, true);
    push_lossy_pair(&mut r, "blue", 2, true);
    push_lossy_pair(&mut r, "y", NO_SLOT, true);
    push_lossy_pair(&mut r, "by", NO_SLOT, true);
    push_lossy_pair(&mut r, "ry", NO_SLOT, true);
    push_run_rules(&mut r, "a", true);
    assert(rule_views(r@) =~= legacy_rule_set());
    r
}

// ----------------------------------------------------------------------
// Classes
// ----------------------------------------------------------------------
/// What stands in front of the last part of a name, with the dot.
pub open spec fn prefix_of(name: Seq<char>) -> Seq<char> {
    match last_dot(name, name.len() as int) {
        Some(i) => name.take(i + 1),
        None => Seq::empty(),
    }
}

/// The last part of a name.
pub fn channel_suffix<'a>(name: &'a str) -> (r: &'a str)
    ensures
        r@ == base_of(name@),
{
    let (_layer, base): (&'a str, &'a str) = split_channel_name(name);
    base
}

/// What stands in front of the last part of a name, with the dot.
pub fn channel_prefix<'a>(name: &'a str) -> (r: &'a str)
    ensures
        r@ == prefix_of(name@),
{
    let n: usize = name.unicode_len();
    let mut i: usize = n;
    while i > 0
        invariant
            i <= n,
            n == name@.len(),
            last_dot(name@, n as int) == last_dot(name@, i as int),
        decreases i,
    {
        if name.get_char(i - 1) == '.' {
            let r: &'a str = name.substring_char(0, i);
            assert(r@ =~= name@.take(i as int));
            return r;
        }
        i = i - 1;
    }
    let r: &'a str = name.substring_char(0, 0);
    assert(r@ =~= Seq::<char>::empty());
    r
}

/// A rule is about a channel.
pub open spec fn rule_fits(r: RuleView, c: ChannelView) -> bool {
    r.pixel_type == c.pixel_type && if r.case_insensitive {
        alike(r.suffix, base_of(c.name))
    } else {
        r.suffix == base_of(c.name)
    }
}

/// How a channel is stored by the rules from `i` on, and its place in a triple
/// of colours. A channel without a rule is stored as it is.
pub open spec fn class_from(c: ChannelView, rules: Seq<RuleView>, i: int) -> (DwaScheme, i8)
    decreases rules.len() - i,
{
    if i >= rules.len() {
        (DwaScheme::Verbatim, NO_SLOT)
    } else if rule_fits(rules[i], c) {
        (rules[i].scheme, rules[i].csc_slot)
    } else {
        class_from(c, rules, i + 1)
    }
}

fn fits(r: &WireRule, c: &Channel) -> (b: bool)
    ensures
        b == rule_fits(r@, c@),
{
    if r.pixel_type != c.pixel_type {
        return false;
    }
    let suffix: &str = channel_suffix(c.name.as_str());
    if r.case_insensitive {
        str_alike(r.suffix.as_str(), suffix)
    } else {
        str_eq(r.suffix.as_str(), suffix)
    }
}

/// How a channel is stored, and its place in a triple of colours.
pub fn classify_wire(c: &Channel, rules: &[WireRule]) -> (r: (DwaScheme, i8))
    ensures
        r == class_from(c@, rule_views(rules@), 0),
{
    let ghost rs = rule_views(rules@);
    let mut i: usize = 0;
    while i < rules.len()
        invariant
            i <= rules@.len(),
            rs == rule_views(rules@),
            class_from(c@, rs, 0) == class_from(c@, rs, i as int),
        decreases rules@.len() - i,
    {
        assert(rs[i as int] == rules@[i as int]@);
        if fits(&rules[i], c) {
            return (rules[i].scheme, rules[i].csc_slot);
        }
        i = i + 1;
    }
    (DwaScheme::Verbatim, NO_SLOT)
}

/// How every channel is stored.
pub open spec fn classes_of(cs: Seq<ChannelView>, rules: Seq<RuleView>) -> Seq<(DwaScheme, i8)> {
    Seq::new(cs.len(), |i: int| class_from(cs[i], rules, 0))
}

/// How every channel is stored.
pub fn classify_all(channels: &[Channel], rules: &[WireRule]) -> (r: Vec<(DwaScheme, i8)>)
    ensures
        r@ == classes_of(channel_views(channels@), rule_views(rules@)),
{
    let ghost cs = channel_views(channels@);
    let mut r: Vec<(DwaScheme, i8)> = Vec::new();
    let mut i: usize = 0;
    while i < channels.len()
        invariant
            i <= channels@.len(),
            cs == channel_views(channels@),
            r@.len() == i,
            forall|j: int|
                0 <= j < i ==> #[trigger] r@[j] == class_from(cs[j], rule_views(rules@), 0),
        decreases channels@.len() - i,
    {
        assert(cs[i as int] == channels@[i as int]@);
        r.push(classify_wire(&channels[i], rules));
        i = i + 1;
    }
    assert(r@ =~= classes_of(cs, rule_views(rules@)));
    r
}

// ----------------------------------------------------------------------
// Sets
// ----------------------------------------------------------------------
/// Channels that are transformed together.
#[derive(Debug, Clone, Copy, PartialEq, Eq, Structural)]
pub enum LossySet {
    /// The positions of red, green and blue.
    Triple(usize, usize, usize),
    /// The position of one channel.
    Single(usize),
}

impl LossySet {
    pub open spec fn members(self) -> Seq<int> {
        match self {
            LossySet::Triple(r, g, b) => seq![r as int, g as int, b as int],
            LossySet::Single(i) => seq![i as int],
        }
    }

    /// The number of channels.
    pub fn component_count(&self) -> (r: usize)
        ensures
            r == self.members().len(),
    {
        match self {
            LossySet::Triple(_, _, _) => 3,
            LossySet::Single(_) => 1,
        }
    }

    /// The position of a channel.
    pub fn member(&self, k: usize) -> (r: usize)
        requires
            k < self.members().len(),
        ensures
            r == self.members()[k as int],
    {
        match self {
            LossySet::Triple(r, g, b) => {
                if k == 0 {
                    *r
                } else if k == 1 {
                    *g
                } else {
                    *b
                }
            },
            LossySet::Single(i) => *i,
        }
    }
}

/// A channel has a place in a triple of colours.
pub open spec fn has_slot(class: (DwaScheme, i8), slot: int) -> bool {
    class.0 == DwaScheme::LossyDct && class.1 == slot
}

/// The first channel from `j` on that has the given prefix and place.
pub open spec fn slot_from(
    cs: Seq<ChannelView>,
    classes: Seq<(DwaScheme, i8)>,
    prefix: Seq<char>,
    slot: int,
    j: int,
) -> Option<int>
    decreases cs.len() - j,
{
    if j >= cs.len() {
        None
    } else if has_slot(classes[j], slot) && prefix_of(cs[j].name) == prefix {
        Some(j)
    } else {
        slot_from(cs, classes, prefix, slot, j + 1)
    }
}

/// Two channels have samples of the same type at the same pixels.
pub open spec fn same_shape(a: ChannelView, b: ChannelView) -> bool {
    a.pixel_type == b.pixel_type && a.x_sampling == b.x_sampling && a.y_sampling == b.y_sampling
}

/// The red, green and blue channel with the given prefix, where there are all
/// three and they have the same shape.
pub open spec fn triple_of(cs: Seq<ChannelView>, classes: Seq<(DwaScheme, i8)>, prefix: Seq<char>) -> Option<
    (int, int, int),
> {
    match (
        slot_from(cs, classes, prefix, 0, 0),
        slot_from(cs, classes, prefix, 1, 0),
        slot_from(cs, classes, prefix, 2, 0),
    ) {
        (Some(r), Some(g), Some(b)) => if same_shape(cs[r], cs[g]) && same_shape(cs[g], cs[b]) {
            Some((r, g, b))
        } else {
            None
        },
        _ => None,
    }
}

/// The first of three positions.
pub open spec fn first_of(t: (int, int, int)) -> int {
    let m = if t.0 < t.1 {
        t.0
    } else {
        t.1
    };
    if m < t.2 {
        m
    } else {
        t.2
    }
}

/// The triple that begins with channel `i`.
pub open spec fn triple_at(cs: Seq<ChannelView>, classes: Seq<(DwaScheme, i8)>, i: int) -> Option<
    (int, int, int),
> {
    match triple_of(cs, classes, prefix_of(cs[i].name)) {
        Some(t) => if first_of(t) == i {
            Some(t)
        } else {
            None
        },
        None => None,
    }
}

/// The triples that begin with one of the first `k` channels.
pub open spec fn triples_upto(cs: Seq<ChannelView>, classes: Seq<(DwaScheme, i8)>, k: int) -> Seq<LossySet>
    decreases k,
{
    if k <= 0 {
        Seq::empty()
    } else {
        let before = triples_upto(cs, classes, k - 1);
        match triple_at(cs, classes, k - 1) {
            Some((r, g, b)) => before.push(
                LossySet::Triple(r as usize, g as usize, b as usize),
            ),
            None => before,
        }
    }
}

/// Channel `i` belongs to a triple.
pub open spec fn in_triple(cs: Seq<ChannelView>, classes: Seq<(DwaScheme, i8)>, i: int) -> bool {
    triple_of(cs, classes, prefix_of(cs[i].name)) matches Some((r, g, b)) && (i == r || i == g || i
        == b)
}

/// The lossy channels without a triple among the first `k`.
pub open spec fn singles_upto(cs: Seq<ChannelView>, classes: Seq<(DwaScheme, i8)>, k: int) -> Seq<LossySet>
    decreases k,
{
    if k <= 0 {
        Seq::empty()
    } else {
        let before = singles_upto(cs, classes, k - 1);
        if classes[k - 1].0 == DwaScheme::LossyDct && !in_triple(cs, classes, k - 1) {
            before.push(LossySet::Single((k - 1) as usize))
        } else {
            before
        }
    }
}

/// The lossy channels in the order in which they are stored: the triples in
/// the order of their first channels, and then the others.
pub open spec fn sets_of(cs: Seq<ChannelView>, classes: Seq<(DwaScheme, i8)>) -> Seq<LossySet> {
    triples_upto(cs, classes, cs.len() as int) + singles_upto(cs, classes, cs.len() as int)
}

fn find_slot(channels: &[Channel], classes: &[(DwaScheme, i8)], prefix: &str, slot: i8) -> (r: Option<
    usize,
>)
    requires
        classes@.len() == channels@.len(),
    ensures
        r is None <==> slot_from(channel_views(channels@), classes@, prefix@, slot as int, 0) is None,
        r matches Some(j) ==> j < channels@.len() && slot_from(
            channel_views(channels@),
            classes@,
            prefix@,
            slot as int,
            0,
        ) == Some(j as int),
{
    let ghost cs = channel_views(channels@);
    let mut j: usize = 0;
    while j < channels.len()
        invariant
            j <= channels@.len(),
            classes@.len() == channels@.len(),
            cs == channel_views(channels@),
            slot_from(cs, classes@, prefix@, slot as int, 0) == slot_from(
                cs,
                classes@,
                prefix@,
                slot as int,
                j as int,
            ),
        decreases channels@.len() - j,
    {
        assert(cs[j as int] == channels@[j as int]@);
        let class: (DwaScheme, i8) = classes[j];
        if class.0 == DwaScheme::LossyDct && class.1 == slot && str_eq(
            channel_prefix(channels[j].name.as_str()),
            prefix,
        ) {
            return Some(j);
        }
        j = j + 1;
    }
    None
}

pub open spec fn triple_view(t: Option<(usize, usize, usize)>) -> Option<(int, int, int)> {
    match t {
        Some((r, g, b)) => Some((r as int, g as int, b as int)),
        None => None,
    }
}

fn find_triple(channels: &[Channel], classes: &[(DwaScheme, i8)], i: usize) -> (r: Option<
    (usize, usize, usize),
>)
    requires
        classes@.len() == channels@.len(),
        i < channels@.len(),
    ensures
        triple_view(r) == triple_of(
            channel_views(channels@),
            classes@,
            prefix_of(channels@[i as int]@.name),
        ),
        r matches Some((a, b, c)) ==> a < channels@.len() && b < channels@.len() && c
            < channels@.len(),
{
    let ghost cs = channel_views(channels@);
    let prefix: &str = channel_prefix(channels[i].name.as_str());
    let r: usize = match find_slot(channels, classes, prefix, 0) {
        Some(j) => j,
        None => {
            return None;
        },
    };
    let g: usize = match find_slot(channels, classes, prefix, 1) {
        Some(j) => j,
        None => {
            return None;
        },
    };
    let b: usize = match find_slot(channels, classes, prefix, 2) {
        Some(j) => j,
        None => {
            return None;
        },
    };
    let (cr, cg, cb): (&Channel, &Channel, &Channel) = (&channels[r], &channels[g], &channels[b]);
    assert(cs[r as int] == cr@ && cs[g as int] == cg@ && cs[b as int] == cb@);
    if cr.pixel_type == cg.pixel_type && cg.pixel_type == cb.pixel_type && cr.x_sampling
        == cg.x_sampling && cg.x_sampling == cb.x_sampling && cr.y_sampling == cg.y_sampling
        && cg.y_sampling == cb.y_sampling {
        Some((r, g, b))
    } else {
        None
    }
}

/// The lossy channels in the order in which they are stored.
pub fn build_lossy_sets(channels: &[Channel], classes: &[(DwaScheme, i8)]) -> (r: Vec<LossySet>)
    requires
        classes@.len() == channels@.len(),
    ensures
        r@ == sets_of(channel_views(channels@), classes@),
{
    let ghost cs = channel_views(channels@);
    let n: usize = channels.len();
    let mut sets: Vec<LossySet> = Vec::new();
    let mut singles: Vec<LossySet> = Vec::new();
    let mut i: usize = 0;
    while i < n
        invariant
            i <= n,
            n == channels@.len(),
            classes@.len() == n,
            cs == channel_views(channels@),
            cs.len() == n,
            sets@ == triples_upto(cs, classes@, i as int),
            singles@ == singles_upto(cs, classes@, i as int),
        decreases n - i,
    {
        assert(cs[i as int] == channels@[i as int]@);
        let mut inside: bool = false;
        match find_triple(channels, classes, i) {
            Some((r, g, b)) => {
                let m: usize = if r < g {
                    r
                } else {
                    g
                };
                let first: usize = if m < b {
                    m
                } else {
                    b
                };
                if first == i {
                    sets.push(LossySet::Triple(r, g, b));
                }
                inside = i == r || i == g || i == b;
            },
            None => {},
        }
        if classes[i].0 == DwaScheme::LossyDct && !inside {
            singles.push(LossySet::Single(i));
        }
        i = i + 1;
    }
    let ghost triples = sets@;
    let mut k: usize = 0;
    assert(singles@.take(0) =~= Seq::<LossySet>::empty());
    assert(triples + Seq::<LossySet>::empty() =~= triples);
    while k < singles.len()
        invariant
            k <= singles@.len(),
            sets@ == triples + singles@.take(k as int),
        decreases singles@.len() - k,
    {
        sets.push(singles[k]);
        k = k + 1;
        assert(sets@ =~= triples + singles@.take(k as int));
    }
    assert(singles@.take(singles@.len() as int) =~= singles@);
    sets
}

// ----------------------------------------------------------------------
// What the sets hold
// ----------------------------------------------------------------------
proof fn lemma_slot(
    cs: Seq<ChannelView>,
    classes: Seq<(DwaScheme, i8)>,
    prefix: Seq<char>,
    slot: int,
    j: int,
)
    requires
        0 <= j,
    ensures
        slot_from(cs, classes, prefix, slot, j) matches Some(i) ==> j <= i < cs.len() && has_slot(
            classes[i],
            slot,
        ) && prefix_of(cs[i].name) == prefix,
    decreases cs.len() - j,
{
    if j < cs.len() && !(has_slot(classes[j], slot) && prefix_of(cs[j].name) == prefix) {
        lemma_slot(cs, classes, prefix, slot, j + 1);
    }
}

/// The channels of a triple are lossy, differ, and have its prefix.
pub proof fn lemma_triple(cs: Seq<ChannelView>, classes: Seq<(DwaScheme, i8)>, prefix: Seq<char>)
    ensures
        triple_of(cs, classes, prefix) matches Some((r, g, b)) ==> {
            &&& 0 <= r < cs.len()
            &&& 0 <= g < cs.len()
            &&& 0 <= b < cs.len()
            &&& r != g
            &&& g != b
            &&& r != b
            &&& prefix_of(cs[r].name) == prefix
            &&& prefix_of(cs[g].name) == prefix
            &&& prefix_of(cs[b].name) == prefix
            &&& classes[r].0 == DwaScheme::LossyDct
            &&& classes[g].0 == DwaScheme::LossyDct
            &&& classes[b].0 == DwaScheme::LossyDct
            &&& same_shape(cs[r], cs[g])
            &&& same_shape(cs[r], cs[b])
        },
{
    lemma_slot(cs, classes, prefix, 0, 0);
    lemma_slot(cs, classes, prefix, 1, 0);
    lemma_slot(cs, classes, prefix, 2, 0);
}

/// Where the triples stand.
proof fn lemma_triples(cs: Seq<ChannelView>, classes: Seq<(DwaScheme, i8)>, k: int)
    requires
        0 <= k <= cs.len() <= usize::MAX,
    ensures
        forall|j: int|
            0 <= j < triples_upto(cs, classes, k).len() ==> {
                let set = #[trigger] triples_upto(cs, classes, k)[j];
                &&& set matches LossySet::Triple(r, g, b) && triple_of(
                    cs,
                    classes,
                    prefix_of(cs[first_of((r as int, g as int, b as int))].name),
                ) == Some((r as int, g as int, b as int))
                &&& first_of((set.members()[0], set.members()[1], set.members()[2])) < k
            },
        forall|a: int, b: int|
            0 <= a < b < triples_upto(cs, classes, k).len() ==> {
                let x = (#[trigger] triples_upto(cs, classes, k)[a]).members();
                let y = (#[trigger] triples_upto(cs, classes, k)[b]).members();
                first_of((x[0], x[1], x[2])) < first_of((y[0], y[1], y[2]))
            },
        forall|i: int|
            0 <= i < k && (#[trigger] triple_at(cs, classes, i)) is Some ==> exists|j: int|
                0 <= j < triples_upto(cs, classes, k).len() && (#[trigger] triples_upto(
                    cs,
                    classes,
                    k,
                )[j]) == (LossySet::Triple(
                    triple_at(cs, classes, i)->Some_0.0 as usize,
                    triple_at(cs, classes, i)->Some_0.1 as usize,
                    triple_at(cs, classes, i)->Some_0.2 as usize,
                )),
    decreases k,
{
    if k > 0 {
        lemma_triples(cs, classes, k - 1);
        let before = triples_upto(cs, classes, k - 1);
        let after = triples_upto(cs, classes, k);
        lemma_triple(cs, classes, prefix_of(cs[k - 1].name));
        if triple_at(cs, classes, k - 1) is Some {
            let t = triple_at(cs, classes, k - 1)->Some_0;
            assert(after[before.len() as int] == LossySet::Triple(
                t.0 as usize,
                t.1 as usize,
                t.2 as usize,
            ));
            assert forall|j: int| 0 <= j < before.len() implies after[j] == before[j] by {}
        }
        assert forall|i: int|
            0 <= i < k && (#[trigger] triple_at(cs, classes, i)) is Some implies exists|j: int|
            0 <= j < after.len() && (#[trigger] after[j]) == (LossySet::Triple(
                triple_at(cs, classes, i)->Some_0.0 as usize,
                triple_at(cs, classes, i)->Some_0.1 as usize,
                triple_at(cs, classes, i)->Some_0.2 as usize,
            )) by {
            let t = triple_at(cs, classes, i)->Some_0;
            let set = LossySet::Triple(t.0 as usize, t.1 as usize, t.2 as usize);
            if i == k - 1 {
                assert(after[before.len() as int] == set);
            } else {
                let j = choose|j: int| 0 <= j < before.len() && #[trigger] before[j] == set;
                assert(after[j] == set);
            }
        }
    }
}

proof fn lemma_singles(cs: Seq<ChannelView>, classes: Seq<(DwaScheme, i8)>, k: int)
    requires
        0 <= k <= cs.len() <= usize::MAX,
    ensures
        forall|j: int|
            0 <= j < singles_upto(cs, classes, k).len() ==> {
                &&& (#[trigger] singles_upto(cs, classes, k)[j]) matches LossySet::Single(i) && i < k
                    && classes[i as int].0 == DwaScheme::LossyDct && !in_triple(
                    cs,
                    classes,
                    i as int,
                )
            },
        forall|a: int, b: int|
            0 <= a < b < singles_upto(cs, classes, k).len() ==> (#[trigger] singles_upto(
                cs,
                classes,
                k,
            )[a]).members()[0] < (#[trigger] singles_upto(cs, classes, k)[b]).members()[0],
        forall|i: int|
            0 <= i < k && classes[i].0 == DwaScheme::LossyDct && !(#[trigger] in_triple(
                cs,
                classes,
                i,
            )) ==> exists|j: int|
                0 <= j < singles_upto(cs, classes, k).len() && (#[trigger] singles_upto(
                    cs,
                    classes,
                    k,
                )[j]) == LossySet::Single(i as usize),
    decreases k,
{
    if k > 0 {
        lemma_singles(cs, classes, k - 1);
        let before = singles_upto(cs, classes, k - 1);
        let after = singles_upto(cs, classes, k);
        assert forall|i: int|
            0 <= i < k && classes[i].0 == DwaScheme::LossyDct && !(#[trigger] in_triple(
                cs,
                classes,
                i,
            )) implies exists|j: int|
            0 <= j < after.len() && (#[trigger] after[j]) == LossySet::Single(i as usize) by {
            if i == k - 1 {
                assert(after[before.len() as int] == LossySet::Single(i as usize));
            } else {
                let j = choose|j: int|
                    0 <= j < before.len() && #[trigger] before[j] == LossySet::Single(i as usize);
                assert(after[j] == LossySet::Single(i as usize));
            }
        }
    }
}

/// Every channel of a set is lossy, and the channels of a set have the same
/// shape.
pub proof fn law_sets_lossy(cs: Seq<ChannelView>, classes: Seq<(DwaScheme, i8)>, j: int, k: int)
    requires
        cs.len() <= usize::MAX,
        classes.len() == cs.len(),
        0 <= j < sets_of(cs, classes).len(),
        0 <= k < sets_of(cs, classes)[j].members().len(),
    ensures
        0 <= sets_of(cs, classes)[j].members()[k] < cs.len(),
        classes[sets_of(cs, classes)[j].members()[k]].0 == DwaScheme::LossyDct,
        same_shape(
            cs[sets_of(cs, classes)[j].members()[0]],
            cs[sets_of(cs, classes)[j].members()[k]],
        ),
        0 <= sets_of(cs, classes)[j].members()[0] < cs.len(),
{
    let triples = triples_upto(cs, classes, cs.len() as int);
    let singles = singles_upto(cs, classes, cs.len() as int);
    lemma_triples(cs, classes, cs.len() as int);
    lemma_singles(cs, classes, cs.len() as int);
    let set = sets_of(cs, classes)[j];
    if j < triples.len() {
        assert(set == triples[j]);
        let m = set.members();
        lemma_triple(cs, classes, prefix_of(cs[first_of((m[0], m[1], m[2]))].name));
    } else {
        assert(set == singles[j - triples.len()]);
    }
}

/// A set holds channel `i`.
pub open spec fn holds(set: LossySet, i: int) -> bool {
    set.members().contains(i)
}

proof fn lemma_triple_holds(cs: Seq<ChannelView>, classes: Seq<(DwaScheme, i8)>, j: int, i: int)
    requires
        cs.len() <= usize::MAX,
        0 <= j < triples_upto(cs, classes, cs.len() as int).len(),
        0 <= i < cs.len(),
    ensures
        holds(triples_upto(cs, classes, cs.len() as int)[j], i) ==> in_triple(cs, classes, i) && ({
            let m = triples_upto(cs, classes, cs.len() as int)[j].members();
            triple_of(cs, classes, prefix_of(cs[i].name)) == Some((m[0], m[1], m[2]))
        }),
{
    lemma_triples(cs, classes, cs.len() as int);
    let set = triples_upto(cs, classes, cs.len() as int)[j];
    let m = set.members();
    lemma_triple(cs, classes, prefix_of(cs[first_of((m[0], m[1], m[2]))].name));
    if holds(set, i) {
        let k = choose|k: int| 0 <= k < m.len() && m[k] == i;
        assert(m.len() == 3);
        assert(i == m[0] || i == m[1] || i == m[2]);
    }
}

/// Every lossy channel is in exactly one set.
pub proof fn law_sets_partition(cs: Seq<ChannelView>, classes: Seq<(DwaScheme, i8)>, i: int)
    requires
        cs.len() <= usize::MAX,
        classes.len() == cs.len(),
        0 <= i < cs.len(),
        classes[i].0 == DwaScheme::LossyDct,
    ensures
        exists|j: int|
            0 <= j < sets_of(cs, classes).len() && holds(#[trigger] sets_of(cs, classes)[j], i),
        forall|a: int, b: int|
            0 <= a < sets_of(cs, classes).len() && 0 <= b < sets_of(cs, classes).len() && holds(
                #[trigger] sets_of(cs, classes)[a],
                i,
            ) && holds(#[trigger] sets_of(cs, classes)[b], i) ==> a == b,
{
    let n = cs.len() as int;
    let triples = triples_upto(cs, classes, n);
    let singles = singles_upto(cs, classes, n);
    let sets = sets_of(cs, classes);
    lemma_triples(cs, classes, n);
    lemma_singles(cs, classes, n);
    let prefix = prefix_of(cs[i].name);
    lemma_triple(cs, classes, prefix);
    if in_triple(cs, classes, i) {
        let t = triple_of(cs, classes, prefix)->Some_0;
        let f = first_of(t);
        assert(prefix_of(cs[f].name) == prefix);
        assert(triple_at(cs, classes, f) == Some(t));
        let set = LossySet::Triple(t.0 as usize, t.1 as usize, t.2 as usize);
        let j = choose|j: int| 0 <= j < triples.len() && #[trigger] triples[j] == set;
        assert(sets[j] == set);
        assert(set.members()[0] == t.0 && set.members()[1] == t.1 && set.members()[2] == t.2);
        assert(holds(sets[j], i));
    } else {
        let j = choose|j: int|
            0 <= j < singles.len() && #[trigger] singles[j] == LossySet::Single(i as usize);
        assert(sets[triples.len() + j] == singles[j]);
        assert(singles[j].members()[0] == i);
        assert(holds(sets[triples.len() + j], i));
    }
    assert forall|a: int, b: int|
        0 <= a < sets.len() && 0 <= b < sets.len() && holds(#[trigger] sets[a], i) && holds(
            #[trigger] sets[b],
            i,
        ) implies a == b by {
        lemma_held_once(cs, classes, i, a);
        lemma_held_once(cs, classes, i, b);
        let (x, y) = (sets[a].members(), sets[b].members());
        if a < triples.len() && b < triples.len() {
            assert(sets[a] == triples[a] && sets[b] == triples[b]);
            lemma_triple_holds(cs, classes, a, i);
            lemma_triple_holds(cs, classes, b, i);
            assert(first_of((x[0], x[1], x[2])) == first_of((y[0], y[1], y[2])));
        } else if a >= triples.len() && b >= triples.len() {
            assert(sets[a] == singles[a - triples.len()] && sets[b] == singles[b - triples.len()]);
            assert(x[0] == i && y[0] == i);
        }
    }
}

/// A set in front of the single channels holds `i` only where `i` is in a
/// triple.
proof fn lemma_held_once(cs: Seq<ChannelView>, classes: Seq<(DwaScheme, i8)>, i: int, a: int)
    requires
        cs.len() <= usize::MAX,
        0 <= i < cs.len(),
        0 <= a < sets_of(cs, classes).len(),
        holds(sets_of(cs, classes)[a], i),
    ensures
        a < triples_upto(cs, classes, cs.len() as int).len() <==> in_triple(cs, classes, i),
        a >= triples_upto(cs, classes, cs.len() as int).len() ==> sets_of(
            cs,
            classes,
        )[a].members()[0] == i,
{
    let n = cs.len() as int;
    let triples = triples_upto(cs, classes, n);
    let singles = singles_upto(cs, classes, n);
    let set = sets_of(cs, classes)[a];
    if a < triples.len() {
        assert(set == triples[a]);
        lemma_triple_holds(cs, classes, a, i);
    } else {
        assert(set == singles[a - triples.len()]);
        lemma_singles(cs, classes, n);
        let k = choose|k: int| 0 <= k < set.members().len() && set.members()[k] == i;
        assert(k == 0);
    }
}

// ----------------------------------------------------------------------
// Rules in a chunk
// ----------------------------------------------------------------------
/// The scheme with the given number.
pub open spec fn scheme_of(code: int) -> Option<DwaScheme> {
    if code == 0 {
        Some(DwaScheme::Verbatim)
    } else if code == 1 {
        Some(DwaScheme::LossyDct)
    } else if code == 2 {
        Some(DwaScheme::Rle)
    } else {
        None
    }
}

/// The number of a scheme.
pub open spec fn scheme_code(s: DwaScheme) -> int {
    match s {
        DwaScheme::Verbatim => 0,
        DwaScheme::LossyDct => 1,
        DwaScheme::Rle => 2,
    }
}

/// The rule with the given suffix, flags and type.
pub open spec fn flagged_rule(suffix: Seq<char>, flag: u8, kind: u8) -> Option<RuleView> {
    match (PixelType::of(kind as i32), scheme_of(flag as int / 4 % 4)) {
        (Some(pixel_type), Some(scheme)) => if flag as int / 16 > 3 {
            None
        } else {
            Some(rule(suffix, pixel_type, scheme, (flag as int / 16 - 1) as i8, flag as int % 2 == 1))
        },
        _ => None,
    }
}

/// Make the rule with the given suffix, flags and type.
pub fn make_rule(suffix: String, flag: u8, kind: u8) -> (r: Option<WireRule>)
    ensures
        r is None <==> flagged_rule(suffix@, flag, kind) is None,
        r matches Some(w) ==> flagged_rule(suffix@, flag, kind) == Some(w@),
{
    let pixel_type: PixelType = match PixelType::from_int(kind as i32) {
        Some(t) => t,
        None => {
            return None;
        },
    };
    let scheme: DwaScheme = match flag / 4 % 4 {
        0 => DwaScheme::Verbatim,
        1 => DwaScheme::LossyDct,
        2 => DwaScheme::Rle,
        _ => {
            return None;
        },
    };
    if flag / 16 > 3 {
        return None;
    }
    let csc_slot: i8 = (flag / 16) as i8 - 1;
    Some(WireRule { suffix, pixel_type, scheme, csc_slot, case_insensitive: flag % 2 == 1 })
}

/// Where the search for the end of a suffix stops.
pub open spec fn suffix_limit(p: int, end: int) -> int {
    if p + 129 < end {
        p + 129
    } else {
        end
    }
}

/// The rule at `p`, and the position behind it.
pub open spec fn rule_at(data: Seq<u8>, p: int, end: int) -> Option<(RuleView, int)> {
    let z = zero_from(data, p, suffix_limit(p, end));
    if z >= suffix_limit(p, end) || z + 3 > end {
        None
    } else {
        match flagged_rule(mended_text(data.subrange(p, z)), data[z + 1], data[z + 2]) {
            None => None,
            Some(r) => Some((r, z + 3)),
        }
    }
}

/// The rules from `p` up to `end`.
pub open spec fn rules_from(data: Seq<u8>, p: int, end: int) -> Option<Seq<RuleView>>
    decreases end - p,
    via rules_from_decreases
{
    if p >= end {
        Some(Seq::empty())
    } else {
        match rule_at(data, p, end) {
            None => None,
            Some((r, q)) => match rules_from(data, q, end) {
                None => None,
                Some(rest) => Some(seq![r] + rest),
            },
        }
    }
}

#[via_fn]
proof fn rules_from_decreases(data: Seq<u8>, p: int, end: int) {
    lemma_zero_after(data, p, suffix_limit(p, end));
}

proof fn lemma_zero_after(s: Seq<u8>, from: int, limit: int)
    ensures
        from <= limit ==> from <= zero_from(s, from, limit),
    decreases limit - from,
{
    if from < limit && s[from] != 0 {
        lemma_zero_after(s, from + 1, limit);
    }
}

/// The rules at the start of `data`, and the position behind them.
pub open spec fn rule_block_of(data: Seq<u8>) -> Option<(Seq<RuleView>, int)> {
    if data.len() < 2 || u16_at(data, 0) < 2 || u16_at(data, 0) > data.len() {
        None
    } else {
        match rules_from(data, 2, u16_at(data, 0) as int) {
            None => None,
            Some(rules) => Some((rules, u16_at(data, 0) as int)),
        }
    }
}

fn zero_within(data: &[u8], p: usize, limit: usize) -> (z: usize)
    requires
        p <= limit <= data@.len(),
    ensures
        z == zero_from(data@, p as int, limit as int),
        p <= z <= limit,
{
    let mut z: usize = p;
    while z < limit
        invariant
            p <= z <= limit <= data@.len(),
            zero_from(data@, p as int, limit as int) == zero_from(data@, z as int, limit as int),
        decreases limit - z,
    {
        if data[z] == 0 {
            return z;
        }
        z = z + 1;
    }
    z
}

/// Read the rules at the start of `data`, and say where they end.
pub fn parse_rule_block(data: &[u8]) -> (r: Result<(Vec<WireRule>, usize), ExrError>)
    ensures
        r matches Ok((rules, end)) ==> rule_block_of(data@) == Some((rule_views(rules@), end as int))
            && end <= data@.len(),
        r matches Err(e) ==> e.fault() == Fault::Invalid && rule_block_of(data@) is None,
{
    if data.len() < 2 {
        return Err(ExrError::invalid("DWA: rule block size field truncated"));
    }
    let end: usize = read_u16(data, 0) as usize;
    if end < 2 || end > data.len() {
        return Err(ExrError::invalid("DWA: rule block size out of range"));
    }
    let ghost all = rules_from(data@, 2, end as int);
    let mut rules: Vec<WireRule> = Vec::new();
    let mut p: usize = 2;
    assert(rule_views(rules@) =~= Seq::<RuleView>::empty());
    assert(all is Some ==> Seq::<RuleView>::empty() + all->Some_0 =~= all->Some_0);
    while p < end
        invariant
            2 <= p <= end <= data@.len(),
            end == u16_at(data@, 0),
            all == rules_from(data@, 2, end as int),
            all is None <==> rules_from(data@, p as int, end as int) is None,
            all is Some ==> all->Some_0 == rule_views(rules@) + rules_from(
                data@,
                p as int,
                end as int,
            )->Some_0,
        decreases end - p,
    {
        let limit: usize = if end - p > 129 {
            p + 129
        } else {
            end
        };
        let z: usize = zero_within(data, p, limit);
        if z >= limit {
            return Err(ExrError::invalid("DWA: rule suffix unterminated"));
        }
        if end - z < 3 {
            return Err(ExrError::invalid("DWA: rule flag/type bytes truncated"));
        }
        let suffix: String = utf8_lossy(slice_range(data, p, z));
        let made: Option<WireRule> = make_rule(suffix, data[z + 1], data[z + 2]);
        match made {
            None => {
                return Err(ExrError::invalid("DWA: rule type, scheme or slot invalid"));
            },
            Some(w) => {
                let ghost before = rule_views(rules@);
                let ghost rest = rules_from(data@, z + 3, end as int);
                assert(rule_at(data@, p as int, end as int) == Some((w@, z + 3)));
                rules.push(w);
                assert(rule_views(rules@) =~= before.push(w@));
                assert(all is Some ==> before + (seq![w@] + rest->Some_0) =~= before.push(w@)
                    + rest->Some_0);
            },
        }
        p = z + 3;
    }
    assert(all is Some);
    assert(rule_views(rules@) + Seq::<RuleView>::empty() =~= rule_views(rules@));
    Ok((rules, end))
}

// ----------------------------------------------------------------------
// Writing rules
// ----------------------------------------------------------------------
/// The flags of a rule.
pub open spec fn flag_of(r: RuleView) -> u8 {
    (16 * (r.csc_slot + 1) + 4 * scheme_code(r.scheme) + if r.case_insensitive {
        1int
    } else {
        0int
    }) as u8
}

/// A rule as it is stored.
pub open spec fn rule_bytes(r: RuleView) -> Seq<u8> {
    encode_utf8(r.suffix) + seq![0u8, flag_of(r), r.pixel_type.code() as u8]
}

/// The first `k` rules as they are stored.
pub open spec fn rules_bytes(rules: Seq<RuleView>, k: int) -> Seq<u8>
    decreases k,
{
    if k <= 0 {
        Seq::empty()
    } else {
        rules_bytes(rules, k - 1) + rule_bytes(rules[k - 1])
    }
}

/// Rules with their length in front.
pub open spec fn rule_block_bytes(rules: Seq<RuleView>) -> Seq<u8> {
    let body = rules_bytes(rules, rules.len() as int);
    u16_le(((body.len() + 2) % 0x1_0000) as u16) + body
}

/// A rule that can be stored: its suffix has no zero byte and at most 128
/// bytes, and its place is one of a triple or none.
pub open spec fn rule_storable(r: RuleView) -> bool {
    &&& encode_utf8(r.suffix).len() <= 128
    &&& forall|i: int| 0 <= i < encode_utf8(r.suffix).len() ==> encode_utf8(r.suffix)[i] != 0
    &&& -1 <= r.csc_slot <= 2
}

/// The rules that are about one of the channels, among the first `k`.
pub open spec fn used_upto(cs: Seq<ChannelView>, rules: Seq<RuleView>, k: int) -> Seq<RuleView>
    decreases k,
{
    if k <= 0 {
        Seq::empty()
    } else {
        let before = used_upto(cs, rules, k - 1);
        if exists|i: int| 0 <= i < cs.len() && rule_fits(rules[k - 1], #[trigger] cs[i]) {
            before.push(rules[k - 1])
        } else {
            before
        }
    }
}

/// The rules that are about one of the channels.
pub open spec fn used_rules(cs: Seq<ChannelView>, rules: Seq<RuleView>) -> Seq<RuleView> {
    used_upto(cs, rules, rules.len() as int)
}

fn fits_any(r: &WireRule, channels: &[Channel]) -> (b: bool)
    ensures
        b == exists|i: int|
            0 <= i < channels@.len() && rule_fits(r@, #[trigger] channel_views(channels@)[i]),
{
    let ghost cs = channel_views(channels@);
    let mut i: usize = 0;
    while i < channels.len()
        invariant
            i <= channels@.len(),
            cs == channel_views(channels@),
            forall|j: int| 0 <= j < i ==> !rule_fits(r@, #[trigger] cs[j]),
        decreases channels@.len() - i,
    {
        assert(cs[i as int] == channels@[i as int]@);
        if fits(r, &channels[i]) {
            assert(rule_fits(r@, cs[i as int]));
            return true;
        }
        i = i + 1;
    }
    false
}

fn put_rule(out: &mut Vec<u8>, r: &WireRule)
    requires
        -1 <= r.csc_slot <= 2,
    ensures
        final(out)@ == old(out)@ + rule_bytes(r@),
{
    put_bytes(out, r.suffix.as_str().as_bytes());
    out.push(0);
    let slot: u8 = (r.csc_slot + 1) as u8;
    let scheme: u8 = match r.scheme {
        DwaScheme::Verbatim => 0,
        DwaScheme::LossyDct => 1,
        DwaScheme::Rle => 2,
    };
    let any_case: u8 = if r.case_insensitive {
        1
    } else {
        0
    };
    out.push(16 * slot + 4 * scheme + any_case);
    let kind: u8 = match r.pixel_type {
        PixelType::Uint => 0,
        PixelType::Half => 1,
        PixelType::Float => 2,
    };
    out.push(kind);
    assert(out@ =~= old(out)@ + rule_bytes(r@));
}

/// The rules of the default set that are about one of the channels, as they
/// are stored.
pub fn put_used_rules(channels: &[Channel]) -> (out: Vec<u8>)
    ensures
        out@ == rule_block_bytes(used_rules(channel_views(channels@), default_rule_set())),
{
    let ghost cs = channel_views(channels@);
    let ghost rs = default_rule_set();
    let rules: Vec<WireRule> = default_rules();
    let mut body: Vec<u8> = Vec::new();
    let mut k: usize = 0;
    while k < rules.len()
        invariant
            k <= rules@.len(),
            cs == channel_views(channels@),
            rs == rule_views(rules@),
            rs == default_rule_set(),
            body@ == rules_bytes(used_upto(cs, rs, k as int), used_upto(cs, rs, k as int).len() as int),
        decreases rules@.len() - k,
    {
        assert(rs[k as int] == rules@[k as int]@);
        proof {
            lemma_default_rule(k as int);
        }
        if fits_any(&rules[k], channels) {
            let ghost before = used_upto(cs, rs, k as int);
            put_rule(&mut body, &rules[k]);
            proof {
                lemma_rules_bytes_prefix(before, before.push(rs[k as int]), before.len() as int);
                assert(before.push(rs[k as int]).last() == rs[k as int]);
            }
        }
        k = k + 1;
    }
    let mut out: Vec<u8> = Vec::new();
    put_u16(&mut out, ((body.len() as u64 % 0x1_0000 + 2) % 0x1_0000) as u16);
    put_bytes(&mut out, body.as_slice());
    assert(out@ =~= rule_block_bytes(used_rules(cs, rs)));
    out
}

proof fn lemma_rules_bytes_prefix(a: Seq<RuleView>, b: Seq<RuleView>, k: int)
    requires
        0 <= k <= a.len(),
        k <= b.len(),
        forall|i: int| 0 <= i < k ==> a[i] == b[i],
    ensures
        rules_bytes(a, k) == rules_bytes(b, k),
    decreases k,
{
    if k > 0 {
        lemma_rules_bytes_prefix(a, b, k - 1);
    }
}

proof fn lemma_default_rule(k: int)
    requires
        0 <= k < default_rule_set().len(),
    ensures
        -1 <= default_rule_set()[k].csc_slot <= 2,
        encode_utf8(default_rule_set()[k].suffix).len() <= 2,
        forall|i: int|
            0 <= i < encode_utf8(default_rule_set()[k].suffix).len() ==> encode_utf8(
                default_rule_set()[k].suffix,
            )[i] != 0,
        default_rule_set().len() == 15,
{
    reveal_strlit("R");
    reveal_strlit("G");
    reveal_strlit("B");
    reveal_strlit("Y");
    reveal_strlit("BY");
    reveal_strlit("RY");
    reveal_strlit("A");
    let suffix = default_rule_set()[k].suffix;
    assert(suffix == "R"@ || suffix == "G"@ || suffix == "B"@ || suffix == "Y"@ || suffix == "BY"@
        || suffix == "RY"@ || suffix == "A"@);
    assert(is_ascii_chars(suffix));
    is_ascii_chars_encode_utf8(suffix);
}

/// A stored rule is read back.
proof fn lemma_rule_reads_back(data: Seq<u8>, p: int, end: int, r: RuleView)
    requires
        rule_storable(r),
        0 <= p,
        p + rule_bytes(r).len() <= end <= data.len(),
        stands_at(data, p, rule_bytes(r)),
    ensures
        rule_at(data, p, end) == Some((r, p + rule_bytes(r).len())),
{
    let b = encode_utf8(r.suffix);
    let tail = seq![0u8, flag_of(r), r.pixel_type.code() as u8];
    lemma_stands_split(data, p, b, tail);
    let z = p + b.len();
    let t = data.subrange(z, z + 3);
    assert(data[z] == t[0] && data[z + 1] == t[1] && data[z + 2] == t[2]);
    assert forall|i: int| p <= i < z implies data[i] != 0 by {
        assert(data.subrange(p, z)[i - p] == b[i - p]);
    }
    lemma_zero_found(data, p, suffix_limit(p, end), z);
    assert(data.subrange(p, z) == b);
    encode_utf8_valid_utf8(r.suffix);
    encode_utf8_decode_utf8(r.suffix);
    assert(flag_of(r) as int == 16 * (r.csc_slot + 1) + 4 * scheme_code(r.scheme) + if r.case_insensitive {
        1int
    } else {
        0int
    });
}

proof fn lemma_rules_read_back(data: Seq<u8>, rules: Seq<RuleView>, k: int, end: int)
    requires
        forall|i: int| 0 <= i < rules.len() ==> rule_storable(#[trigger] rules[i]),
        0 <= k <= rules.len(),
        end == 2 + rules_bytes(rules, rules.len() as int).len(),
        end <= data.len(),
        stands_at(data, 2, rules_bytes(rules, rules.len() as int)),
    ensures
        rules_from(data, 2int + rules_bytes(rules, k).len(), end) == Some(rules.skip(k)),
    decreases rules.len() - k,
{
    let n = rules.len() as int;
    let p = 2int + rules_bytes(rules, k).len();
    if k < n {
        lemma_rules_read_back(data, rules, k + 1, end);
        lemma_rule_stands(data, rules, k, n);
        assert(rule_storable(rules[k]));
        lemma_rule_reads_back(data, p, end, rules[k]);
        assert(rule_bytes(rules[k]).len() >= 3);
        assert(rules.skip(k) =~= seq![rules[k]] + rules.skip(k + 1));
    } else {
        assert(rules.skip(k) =~= Seq::<RuleView>::empty());
    }
}

/// Where a rule stands.
proof fn lemma_rule_stands(data: Seq<u8>, rules: Seq<RuleView>, k: int, n: int)
    requires
        0 <= k < n <= rules.len(),
        stands_at(data, 2, rules_bytes(rules, n)),
    ensures
        stands_at(data, 2int + rules_bytes(rules, k).len(), rule_bytes(rules[k])),
        rules_bytes(rules, k).len() + rule_bytes(rules[k]).len() <= rules_bytes(rules, n).len(),
    decreases n,
{
    lemma_stands_split(data, 2, rules_bytes(rules, n - 1), rule_bytes(rules[n - 1]));
    if k < n - 1 {
        lemma_rule_stands(data, rules, k, n - 1);
    }
}

/// Rules that are stored are read back.
pub proof fn law_rules_read_back(data: Seq<u8>, rules: Seq<RuleView>)
    requires
        forall|i: int| 0 <= i < rules.len() ==> rule_storable(#[trigger] rules[i]),
        rule_block_bytes(rules).len() < 0x1_0000,
        stands_at(data, 0, rule_block_bytes(rules)),
    ensures
        rule_block_of(data) == Some((rules, rule_block_bytes(rules).len() as int)),
{
    let body = rules_bytes(rules, rules.len() as int);
    let size = ((body.len() + 2) % 0x1_0000) as u16;
    lemma_stands_split(data, 0, u16_le(size), body);
    lemma_u16_reads_back(data, 0, size);
    lemma_rules_read_back(data, rules, 0, size as int);
    assert(rules.skip(0) =~= rules);
}

/// The rules that are written can be stored, and are read back.
pub proof fn law_used_rules_read_back(data: Seq<u8>, cs: Seq<ChannelView>)
    requires
        stands_at(data, 0, rule_block_bytes(used_rules(cs, default_rule_set()))),
    ensures
        rule_block_of(data) == Some(
            (
                used_rules(cs, default_rule_set()),
                rule_block_bytes(used_rules(cs, default_rule_set())).len() as int,
            ),
        ),
        rule_block_bytes(used_rules(cs, default_rule_set())).len() < 100,
{
    let rules = used_rules(cs, default_rule_set());
    lemma_used_rules(cs, default_rule_set().len() as int);
    lemma_rules_size(rules, rules.len() as int);
    law_rules_read_back(data, rules);
}

proof fn lemma_used_rules(cs: Seq<ChannelView>, k: int)
    requires
        0 <= k <= default_rule_set().len(),
    ensures
        used_upto(cs, default_rule_set(), k).len() <= k,
        forall|i: int|
            0 <= i < used_upto(cs, default_rule_set(), k).len() ==> rule_storable(
                #[trigger] used_upto(cs, default_rule_set(), k)[i],
            ) && encode_utf8(used_upto(cs, default_rule_set(), k)[i].suffix).len() <= 2,
        default_rule_set().len() == 15,
    decreases k,
{
    lemma_default_rule(0);
    if k > 0 {
        lemma_used_rules(cs, k - 1);
        lemma_default_rule(k - 1);
    }
}

proof fn lemma_rules_size(rules: Seq<RuleView>, k: int)
    requires
        0 <= k <= rules.len(),
        forall|i: int| 0 <= i < rules.len() ==> encode_utf8((#[trigger] rules[i]).suffix).len() <= 2,
    ensures
        rules_bytes(rules, k).len() <= 5 * k,
    decreases k,
{
    if k > 0 {
        lemma_rules_size(rules, k - 1);
    }
}

/// The rules that are written say of every channel what the default set says.
pub proof fn law_used_rules_suffice(cs: Seq<ChannelView>, c: int)
    requires
        0 <= c < cs.len(),
    ensures
        class_from(cs[c], used_rules(cs, default_rule_set()), 0) == class_from(
            cs[c],
            default_rule_set(),
            0,
        ),
{
    let rules = default_rule_set();
    lemma_used_class(cs, rules, rules.len() as int, c);
    assert(rules.take(rules.len() as int) =~= rules);
}

/// What the first rules say of a channel that none of them is about, with one
/// rule more.
proof fn lemma_class_push(c: ChannelView, rules: Seq<RuleView>, r: RuleView, i: int)
    requires
        0 <= i <= rules.len(),
    ensures
        class_from(c, rules.push(r), i) == (if exists|j: int|
            i <= j < rules.len() && rule_fits(#[trigger] rules[j], c) {
            class_from(c, rules, i)
        } else {
            class_from(c, seq![r], 0)
        }),
    decreases rules.len() - i,
{
    reveal_with_fuel(class_from, 3);
    let more = rules.push(r);
    if i < rules.len() {
        lemma_class_push(c, rules, r, i + 1);
        assert(more[i] == rules[i]);
        if rule_fits(rules[i], c) {
        } else {
            assert((exists|j: int| i <= j < rules.len() && rule_fits(#[trigger] rules[j], c))
                == (exists|j: int| i + 1 <= j < rules.len() && rule_fits(#[trigger] rules[j], c)));
        }
    } else {
        assert(more[i] == r);
    }
}

proof fn lemma_used_class(cs: Seq<ChannelView>, rules: Seq<RuleView>, k: int, c: int)
    requires
        0 <= k <= rules.len(),
        0 <= c < cs.len(),
    ensures
        class_from(cs[c], used_upto(cs, rules, k), 0) == class_from(cs[c], rules.take(k), 0),
        (exists|j: int|
            0 <= j < used_upto(cs, rules, k).len() && rule_fits(
                #[trigger] used_upto(cs, rules, k)[j],
                cs[c],
            )) == (exists|j: int|
            0 <= j < rules.take(k).len() && rule_fits(#[trigger] rules.take(k)[j], cs[c])),
    decreases k,
{
    if k > 0 {
        lemma_used_class(cs, rules, k - 1, c);
        let before = used_upto(cs, rules, k - 1);
        let after = used_upto(cs, rules, k);
        let (a, b) = (rules.take(k - 1), rules.take(k));
        let r = rules[k - 1];
        assert(b =~= a.push(r));
        lemma_class_push(cs[c], a, r, 0);
        lemma_class_push(cs[c], before, r, 0);
        lemma_fits_push(cs[c], a, r);
        lemma_fits_push(cs[c], before, r);
        if !(exists|i: int| 0 <= i < cs.len() && rule_fits(r, #[trigger] cs[i])) {
            assert(!rule_fits(r, cs[c]));
            reveal_with_fuel(class_from, 3);
            if !(exists|j: int| 0 <= j < a.len() && rule_fits(#[trigger] a[j], cs[c])) {
                lemma_no_rule(cs[c], a, 0);
            }
        }
    } else {
        assert(rules.take(0) =~= Seq::<RuleView>::empty());
    }
}

proof fn lemma_fits_push(c: ChannelView, rules: Seq<RuleView>, r: RuleView)
    ensures
        (exists|j: int| 0 <= j < rules.push(r).len() && rule_fits(#[trigger] rules.push(r)[j], c))
            == ((exists|j: int| 0 <= j < rules.len() && rule_fits(#[trigger] rules[j], c))
            || rule_fits(r, c)),
{
    let more = rules.push(r);
    if exists|j: int| 0 <= j < rules.len() && rule_fits(#[trigger] rules[j], c) {
        let j = choose|j: int| 0 <= j < rules.len() && rule_fits(#[trigger] rules[j], c);
        assert(rule_fits(more[j], c));
    }
    if rule_fits(r, c) {
        assert(rule_fits(more[rules.len() as int], c));
    }
    if exists|j: int| 0 <= j < more.len() && rule_fits(#[trigger] more[j], c) {
        let j = choose|j: int| 0 <= j < more.len() && rule_fits(#[trigger] more[j], c);
        if j < rules.len() {
            assert(rule_fits(rules[j], c));
        }
    }
}

proof fn lemma_no_rule(c: ChannelView, rules: Seq<RuleView>, i: int)
    requires
        0 <= i,
        forall|j: int| i <= j < rules.len() ==> !rule_fits(#[trigger] rules[j], c),
    ensures
        class_from(c, rules, i) == (DwaScheme::Verbatim, NO_SLOT),
    decreases rules.len() - i,
{
    if i < rules.len() {
        assert(!rule_fits(rules[i], c));
        lemma_no_rule(c, rules, i + 1);
    }
}

} // verus!
