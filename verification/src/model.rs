//! The Petri net model: places, transitions, arcs, inhibitor arcs and the
//! incidence tables (`Pre`, `Post`, inhibitor thresholds, initial marking
//! `M0`, capacities `Mo`, delays `Mz`, priorities `Mpr`).
use crate::ieee::{
    f32_bits_of_nat_rounded, f32_round_nat, f32_bits_is_finite, f32_bits_of_int, f32_denotes_int, f32_is_finite, f64_bits_is_finite,
    f64_bits_is_negative, f64_is_finite, f64_is_negative, F32Bits, F64Bits,
};
use crate::text::{
    decimal, is_ascii_digit, is_auto_name, is_auto_name_spec, lemma_decimal_digits, push_char,
    push_decimal, push_str, trim_back, trim_front,
};
use vstd::prelude::*;
use std::collections::{HashMap, HashSet};

verus! {

broadcast use vstd::std_specs::hash::group_hash_axioms;

/// Magic header of the `GPN2` file format.
pub const GPN2_MAGIC: &'static str = "GPN2\n";

/// The `GPN2` format version that this library writes and accepts.
pub const GPN2_FORMAT_VERSION: u32 = 2;

/// Interface language.
#[derive(Clone, Copy, Debug, PartialEq, Eq, Structural)]
pub enum Language {
    Ru,
    En,
}

/// Editing tool of the canvas.
#[derive(Clone, Copy, Debug, PartialEq, Eq, Structural)]
pub enum Tool {
    Place,
    Transition,
    Arc,
    Text,
    Frame,
    Edit,
    Delete,
    Run,
}

/// Drawing size of a node.
#[derive(Clone, Copy, Debug, PartialEq, Eq, Structural)]
pub enum VisualSize {
    Small,
    Medium,
    Large,
}

impl Default for VisualSize {
    fn default() -> (r: Self)
        ensures
            r == VisualSize::Medium,
    {
        VisualSize::Medium
    }
}

/// Where a label is drawn relative to its node.
#[derive(Clone, Copy, Debug, PartialEq, Eq, Structural)]
pub enum LabelPosition {
    Top,
    Bottom,
    Left,
    Right,
    Center,
}

impl Default for LabelPosition {
    fn default() -> (r: Self)
        ensures
            r == LabelPosition::Bottom,
    {
        LabelPosition::Bottom
    }
}

/// Colour of a node or an arc.
#[derive(Clone, Copy, Debug, PartialEq, Eq, Structural)]
pub enum NodeColor {
    Default,
    Blue,
    Red,
    Green,
    Yellow,
}

impl Default for NodeColor {
    fn default() -> (r: Self)
        ensures
            r == NodeColor::Default,
    {
        NodeColor::Default
    }
}

/// Placement of the Markov annotation of a place.
#[derive(Clone, Copy, Debug, PartialEq, Eq, Structural)]
pub enum MarkovPlacement {
    Bottom,
    Top,
}

impl Default for MarkovPlacement {
    fn default() -> (r: Self)
        ensures
            r == MarkovPlacement::Bottom,
    {
        MarkovPlacement::Bottom
    }
}

/// Descriptive metadata of a net.
#[derive(Clone, Debug)]
pub struct MetaInfo {
    pub name: String,
    pub author: String,
    pub description: String,
}

impl Default for MetaInfo {
    fn default() -> (r: Self)
        ensures
            r.name@ == "Без названия"@,
            r.author@ == Seq::<char>::empty(),
            r.description@ == Seq::<char>::empty(),
    {
        MetaInfo {
            name: "Без названия".to_owned(),
            author: String::new(),
            description: String::new(),
        }
    }
}

/// A free text block drawn on the canvas; `pos` and `font_size` are binary32 bits.
#[derive(Clone, Debug)]
pub struct UiTextBlock {
    pub id: u64,
    pub pos: [F32Bits; 2],
    pub text: String,
    pub font_name: String,
    pub font_size: F32Bits,
    pub color: NodeColor,
}

impl Default for UiTextBlock {
    fn default() -> (r: Self)
        ensures
            r.id == 0,
            r.pos == [0u32, 0u32],
            r.text@ == Seq::<char>::empty(),
            r.font_name@ == "MS Sans Serif"@,
            f32_denotes_int(r.font_size, 10),
            r.color == NodeColor::Default,
    {
        let ten = f32_bits_of_int(10);
        UiTextBlock {
            id: 0,
            pos: [0, 0],
            text: String::new(),
            font_name: "MS Sans Serif".to_owned(),
            font_size: ten,
            color: NodeColor::Default,
        }
    }
}

/// A decorative rectangle drawn on the canvas; geometry in binary32 bits.
#[derive(Clone, Copy, Debug)]
pub struct UiDecorativeFrame {
    pub id: u64,
    pub pos: [F32Bits; 2],
    pub width: F32Bits,
    pub height: F32Bits,
}

impl Default for UiDecorativeFrame {
    fn default() -> (r: Self)
        ensures
            r.id == 0,
            r.pos == [0u32, 0u32],
            f32_denotes_int(r.width, 120),
            f32_denotes_int(r.height, 120),
    {
        let side = f32_bits_of_int(120);
        UiDecorativeFrame { id: 0, pos: [0, 0], width: side, height: side }
    }
}

/// Editor settings stored with the net.
#[derive(Clone, Debug)]
pub struct UiSettings {
    pub language: Language,
    pub hide_grid: bool,
    pub snap_to_grid: bool,
    pub colored_petri_nets: bool,
    pub fix_time_step: bool,
    pub marker_count_stats: bool,
    pub light_theme: bool,
    pub text_blocks: Vec<UiTextBlock>,
    pub decorative_frames: Vec<UiDecorativeFrame>,
    pub next_text_id: u64,
    pub next_frame_id: u64,
}

impl Default for UiSettings {
    fn default() -> (r: Self)
        ensures
            r.language == Language::Ru,
            !r.hide_grid,
            r.snap_to_grid,
            !r.colored_petri_nets,
            r.fix_time_step,
            r.marker_count_stats,
            r.light_theme,
            r.text_blocks@.len() == 0,
            r.decorative_frames@.len() == 0,
            r.next_text_id == 1,
            r.next_frame_id == 1,
    {
        UiSettings {
            language: Language::Ru,
            hide_grid: false,
            snap_to_grid: true,
            colored_petri_nets: false,
            fix_time_step: true,
            marker_count_stats: true,
            light_theme: true,
            text_blocks: Vec::new(),
            decorative_frames: Vec::new(),
            next_text_id: 1,
            next_frame_id: 1,
        }
    }
}

/// Which statistics are gathered for a place during simulation.
#[derive(Clone, Copy, Debug, PartialEq, Eq, Structural)]
pub struct PlaceStatisticsSelection {
    pub markers_total: bool,
    pub markers_input: bool,
    pub markers_output: bool,
    pub load_total: bool,
    pub load_input: bool,
    pub load_output: bool,
}

impl Default for PlaceStatisticsSelection {
    fn default() -> (r: Self)
        ensures
            !r.any_enabled_spec(),
    {
        PlaceStatisticsSelection {
            markers_total: false,
            markers_input: false,
            markers_output: false,
            load_total: false,
            load_input: false,
            load_output: false,
        }
    }
}

impl PlaceStatisticsSelection {
    /// At least one statistic is selected.
    pub open spec fn any_enabled_spec(&self) -> bool {
        self.markers_total || self.markers_input || self.markers_output || self.load_total
            || self.load_input || self.load_output
    }

    /// Whether at least one statistic is selected.
    pub fn any_enabled(&self) -> (r: bool)
        ensures
            r == self.any_enabled_spec(),
    {
        self.markers_total || self.markers_input || self.markers_output || self.load_total
            || self.load_input || self.load_output
    }
}

/// Random delay law of a place; parameters are binary64 bits.
#[derive(Clone, Copy, Debug, PartialEq, Eq, Structural)]
pub enum StochasticDistribution {
    /// No random law: the place's table delay is used as it is.
    Deterministic,
    Uniform { min: F64Bits, max: F64Bits },
    Normal { mean: F64Bits, std_dev: F64Bits },
    Exponential { lambda: F64Bits },
    Gamma { shape: F64Bits, scale: F64Bits },
    Poisson { lambda: F64Bits },
}

impl Default for StochasticDistribution {
    fn default() -> (r: Self)
        ensures
            r == StochasticDistribution::Deterministic,
    {
        StochasticDistribution::Deterministic
    }
}

/// A place of the net; `pos` is the pair of binary32 coordinates.
#[derive(Clone, Debug)]
pub struct Place {
    pub id: u64,
    pub name: String,
    pub pos: [F32Bits; 2],
    pub note: String,
    pub color: NodeColor,
    pub marker_label_position: LabelPosition,
    pub text_position: LabelPosition,
    pub size: VisualSize,
    pub marker_color_on_pass: bool,
    pub input_module: bool,
    pub input_number: u32,
    pub input_description: String,
    pub stochastic: StochasticDistribution,
    pub stochastic_seed: u64,
    pub stats: PlaceStatisticsSelection,
    pub markov_highlight: bool,
    pub markov_placement: MarkovPlacement,
    pub show_markov_model: bool,
}

/// The place that `Default` gives, with the given id, name and position.
pub open spec fn is_default_place(p: Place, id: u64, name: Seq<char>, pos: [F32Bits; 2]) -> bool {
    &&& p.id == id
    &&& p.name@ == name
    &&& p.pos == pos
    &&& p.note@.len() == 0
    &&& p.color == NodeColor::Default
    &&& p.marker_label_position == LabelPosition::Bottom
    &&& p.text_position == LabelPosition::Bottom
    &&& p.size == VisualSize::Medium
    &&& !p.marker_color_on_pass
    &&& !p.input_module
    &&& p.input_number == 0
    &&& p.input_description@.len() == 0
    &&& p.stochastic == StochasticDistribution::Deterministic
    &&& p.stochastic_seed == 0
    &&& !p.stats.any_enabled_spec()
    &&& !p.markov_highlight
    &&& p.markov_placement == MarkovPlacement::Bottom
    &&& !p.show_markov_model
}

impl Place {
    /// A place with default attributes.
    pub fn new_default(id: u64, name: String, pos: [F32Bits; 2]) -> (p: Place)
        ensures
            is_default_place(p, id, name@, pos),
    {
        Place {
            id,
            name,
            pos,
            note: String::new(),
            color: NodeColor::Default,
            marker_label_position: LabelPosition::Bottom,
            text_position: LabelPosition::Bottom,
            size: VisualSize::Medium,
            marker_color_on_pass: false,
            input_module: false,
            input_number: 0,
            input_description: String::new(),
            stochastic: StochasticDistribution::Deterministic,
            stochastic_seed: 0,
            stats: PlaceStatisticsSelection::default(),
            markov_highlight: false,
            markov_placement: MarkovPlacement::Bottom,
            show_markov_model: false,
        }
    }
}

impl Default for Place {
    fn default() -> (r: Self)
        ensures
            is_default_place(r, 0, Seq::<char>::empty(), [0u32, 0u32]),
    {
        Place::new_default(0, String::new(), [0, 0])
    }
}

/// A transition of the net; `pos` is the binary32 top-left corner.
#[derive(Clone, Debug)]
pub struct Transition {
    pub id: u64,
    pub name: String,
    pub pos: [F32Bits; 2],
    pub note: String,
    pub color: NodeColor,
    pub label_position: LabelPosition,
    pub text_position: LabelPosition,
    pub size: VisualSize,
    pub angle_deg: i32,
}

/// The transition that `Default` gives, with the given id, name and position.
pub open spec fn is_default_transition(t: Transition, id: u64, name: Seq<char>, pos: [F32Bits; 2]) -> bool {
    &&& t.id == id
    &&& t.name@ == name
    &&& t.pos == pos
    &&& t.note@.len() == 0
    &&& t.color == NodeColor::Default
    &&& t.label_position == LabelPosition::Bottom
    &&& t.text_position == LabelPosition::Bottom
    &&& t.size == VisualSize::Medium
    &&& t.angle_deg == 0
}

impl Transition {
    /// A transition with default attributes.
    pub fn new_default(id: u64, name: String, pos: [F32Bits; 2]) -> (t: Transition)
        ensures
            is_default_transition(t, id, name@, pos),
    {
        Transition {
            id,
            name,
            pos,
            note: String::new(),
            color: NodeColor::Default,
            label_position: LabelPosition::Bottom,
            text_position: LabelPosition::Bottom,
            size: VisualSize::Medium,
            angle_deg: 0,
        }
    }
}

impl Default for Transition {
    fn default() -> (r: Self)
        ensures
            is_default_transition(r, 0, Seq::<char>::empty(), [0u32, 0u32]),
    {
        Transition::new_default(0, String::new(), [0, 0])
    }
}

/// Endpoint of an arc.
#[derive(Clone, Copy, Debug, PartialEq, Eq, Structural, Hash)]
pub enum NodeRef {
    Place(u64),
    Transition(u64),
}

/// An ordinary (consuming or producing) arc.
#[derive(Clone, Copy, Debug, PartialEq, Eq, Structural)]
pub struct Arc {
    pub id: u64,
    pub from: NodeRef,
    pub to: NodeRef,
    pub weight: u32,
    pub color: NodeColor,
    pub visible: bool,
    pub show_weight: bool,
}

impl Default for Arc {
    fn default() -> (r: Self)
        ensures
            r == (Arc {
                id: 0,
                from: NodeRef::Place(0),
                to: NodeRef::Transition(0),
                weight: 1,
                color: NodeColor::Default,
                visible: true,
                show_weight: false,
            }),
    {
        Arc {
            id: 0,
            from: NodeRef::Place(0),
            to: NodeRef::Transition(0),
            weight: 1,
            color: NodeColor::Default,
            visible: true,
            show_weight: false,
        }
    }
}

/// An inhibitor arc: the transition is blocked while the place holds at
/// least `threshold` tokens.
#[derive(Clone, Copy, Debug, PartialEq, Eq, Structural)]
pub struct InhibitorArc {
    pub id: u64,
    pub place_id: u64,
    pub transition_id: u64,
    pub threshold: u32,
    pub show_weight: bool,
    pub color: NodeColor,
    pub visible: bool,
}

impl Default for InhibitorArc {
    fn default() -> (r: Self)
        ensures
            r == (InhibitorArc {
                id: 0,
                place_id: 0,
                transition_id: 0,
                threshold: 1,
                show_weight: false,
                color: NodeColor::Red,
                visible: true,
            }),
    {
        InhibitorArc {
            id: 0,
            place_id: 0,
            transition_id: 0,
            threshold: 1,
            show_weight: false,
            color: NodeColor::Red,
            visible: true,
        }
    }
}

/// Visibility that an arc read without the field gets.
pub fn default_visible_true() -> (r: bool)
    ensures
        r,
{
    true
}

/// Colour that an inhibitor arc read without the field gets.
pub fn default_inhibitor_color() -> (r: NodeColor)
    ensures
        r == NodeColor::Red,
{
    NodeColor::Red
}


/// `s` cut or padded with `fill` to length `n`.
pub open spec fn resized<T>(s: Seq<T>, n: nat, fill: T) -> Seq<T> {
    Seq::new(n, |i: int| if i < s.len() { s[i] } else { fill })
}

/// The rows of a matrix, each as a sequence.
pub open spec fn rows_of(m: Seq<Vec<u32>>) -> Seq<Seq<u32>> {
    Seq::new(m.len(), |i: int| m[i]@)
}

/// A matrix cut or padded with zero rows to `rows` rows, each row cut or
/// padded with zeros to `cols` entries.
pub open spec fn resized_rows(m: Seq<Seq<u32>>, rows: nat, cols: nat) -> Seq<Seq<u32>> {
    Seq::new(
        rows,
        |i: int|
            if i < m.len() {
                resized(m[i], cols, 0u32)
            } else {
                Seq::new(cols, |j: int| 0u32)
            },
    )
}

/// `s` without its entry at `idx`, or `s` itself when there is none.
pub open spec fn removed_at<T>(s: Seq<T>, idx: int) -> Seq<T> {
    if 0 <= idx < s.len() {
        s.remove(idx)
    } else {
        s
    }
}

/// A matrix whose rows are all `rows` long and `cols` wide.
pub open spec fn matrix_has_shape(m: Seq<Vec<u32>>, rows: nat, cols: nat) -> bool {
    &&& m.len() == rows
    &&& forall|i: int| 0 <= i < m.len() ==> #[trigger] m[i]@.len() == cols
}

/// Cuts or pads a vector to length `n`.
pub fn resize_vec<T: Copy>(v: &mut Vec<T>, n: usize, fill: T)
    ensures
        final(v)@ == resized(old(v)@, n as nat, fill),
{
    if n <= v.len() {
        v.truncate(n);
        proof {
            assert(v@ =~= resized(old(v)@, n as nat, fill));
        }
    } else {
        let ghost start = v@;
        while v.len() < n
            invariant
                start.len() <= v@.len() <= n,
                v@.subrange(0, start.len() as int) == start,
                forall|i: int| start.len() <= i < v@.len() ==> v@[i] == fill,
            decreases n - v.len(),
        {
            v.push(fill);
        }
        proof {
            assert(v@ =~= resized(old(v)@, n as nat, fill));
        }
    }
}

/// Cuts or pads every row of a matrix and the matrix itself.
pub fn resize_matrix(m: &mut Vec<Vec<u32>>, rows: usize, cols: usize)
    ensures
        rows_of(final(m)@) == resized_rows(rows_of(old(m)@), rows as nat, cols as nat),
        matrix_has_shape(final(m)@, rows as nat, cols as nat),
{
    let ghost start = rows_of(m@);
    if rows <= m.len() {
        m.truncate(rows);
    } else {
        while m.len() < rows
            invariant
                start.len() <= m@.len() <= rows,
                forall|i: int| 0 <= i < start.len() ==> #[trigger] m@[i]@ == start[i],
                forall|i: int| start.len() <= i < m@.len() ==> #[trigger] m@[i]@.len() == 0,
            decreases rows - m.len(),
        {
            m.push(Vec::new());
        }
    }
    let mut i: usize = 0;
    while i < rows
        invariant
            m@.len() == rows,
            i <= rows,
            forall|k: int|
                0 <= k < i ==> #[trigger] m@[k]@ == resized_rows(start, rows as nat, cols as nat)[k],
            forall|k: int|
                i <= k < rows ==> #[trigger] m@[k]@ == (if k < start.len() {
                    start[k]
                } else {
                    Seq::<u32>::empty()
                }),
        decreases rows - i,
    {
        resize_vec(&mut m[i], cols, 0);
        proof {
            let r = resized_rows(start, rows as nat, cols as nat);
            if i >= start.len() {
                assert(resized(Seq::<u32>::empty(), cols as nat, 0u32) =~= r[i as int]);
            }
        }
        i = i + 1;
    }
    proof {
        assert(rows_of(m@) =~= resized_rows(start, rows as nat, cols as nat));
    }
}

/// The incidence and vector tables of a net, indexed by place row and
/// transition column. `mz` holds binary64 delays in seconds.
#[derive(Clone, Debug)]
pub struct Tables {
    pub m0: Vec<u32>,
    pub mo: Vec<Option<u32>>,
    pub mz: Vec<F64Bits>,
    pub mpr: Vec<i32>,
    pub pre: Vec<Vec<u32>>,
    pub post: Vec<Vec<u32>>,
    pub inhibitor: Vec<Vec<u32>>,
}

impl Default for Tables {
    fn default() -> (r: Self)
        ensures
            r.is_empty_spec(),
    {
        Tables {
            m0: Vec::new(),
            mo: Vec::new(),
            mz: Vec::new(),
            mpr: Vec::new(),
            pre: Vec::new(),
            post: Vec::new(),
            inhibitor: Vec::new(),
        }
    }
}

impl Tables {
    /// All tables are empty.
    pub open spec fn is_empty_spec(&self) -> bool {
        &&& self.m0@.len() == 0
        &&& self.mo@.len() == 0
        &&& self.mz@.len() == 0
        &&& self.mpr@.len() == 0
        &&& self.pre@.len() == 0
        &&& self.post@.len() == 0
        &&& self.inhibitor@.len() == 0
    }

    /// Every table has one entry per place (rows) and per transition (columns).
    pub open spec fn has_shape(&self, places: nat, transitions: nat) -> bool {
        &&& self.m0@.len() == places
        &&& self.mo@.len() == places
        &&& self.mz@.len() == places
        &&& self.mpr@.len() == transitions
        &&& matrix_has_shape(self.pre@, places, transitions)
        &&& matrix_has_shape(self.post@, places, transitions)
        &&& matrix_has_shape(self.inhibitor@, places, transitions)
    }

    /// `new` is `old` cut or padded to the given shape: new markings 0,
    /// new capacities 1, new delays 0.0, new priorities 0, new matrix entries 0.
    pub open spec fn resized_from(new: Tables, old: Tables, places: nat, transitions: nat) -> bool {
        &&& new.m0@ == resized(old.m0@, places, 0u32)
        &&& new.mo@ == resized(old.mo@, places, Some(1u32))
        &&& new.mz@ == resized(old.mz@, places, 0u64)
        &&& new.mpr@ == resized(old.mpr@, transitions, 0i32)
        &&& rows_of(new.pre@) == resized_rows(rows_of(old.pre@), places, transitions)
        &&& rows_of(new.post@) == resized_rows(rows_of(old.post@), places, transitions)
        &&& rows_of(new.inhibitor@) == resized_rows(rows_of(old.inhibitor@), places, transitions)
        &&& new.has_shape(places, transitions)
    }

    /// Cuts or pads every table to `places` rows and `transitions` columns.
    pub fn resize(&mut self, places: usize, transitions: usize)
        ensures
            Tables::resized_from(*final(self), *old(self), places as nat, transitions as nat),
    {
        resize_vec(&mut self.m0, places, 0);
        resize_vec(&mut self.mo, places, Some(1));
        resize_vec(&mut self.mz, places, 0);
        resize_vec(&mut self.mpr, transitions, 0);
        resize_matrix(&mut self.pre, places, transitions);
        resize_matrix(&mut self.post, places, transitions);
        resize_matrix(&mut self.inhibitor, places, transitions);
    }

    /// Removes the row of place `idx` from every place-indexed table.
    pub fn remove_place_row(&mut self, idx: usize)
        ensures
            final(self).m0@ == removed_at(old(self).m0@, idx as int),
            final(self).mo@ == removed_at(old(self).mo@, idx as int),
            final(self).mz@ == removed_at(old(self).mz@, idx as int),
            final(self).mpr@ == old(self).mpr@,
            final(self).pre@ == removed_at(old(self).pre@, idx as int),
            final(self).post@ == removed_at(old(self).post@, idx as int),
            final(self).inhibitor@ == removed_at(old(self).inhibitor@, idx as int),
    {
        if idx < self.m0.len() {
            self.m0.remove(idx);
        }
        if idx < self.mo.len() {
            self.mo.remove(idx);
        }
        if idx < self.mz.len() {
            self.mz.remove(idx);
        }
        if idx < self.pre.len() {
            self.pre.remove(idx);
        }
        if idx < self.post.len() {
            self.post.remove(idx);
        }
        if idx < self.inhibitor.len() {
            self.inhibitor.remove(idx);
        }
    }

    /// Removes column `idx` from every transition-indexed table.
    pub fn remove_transition_column(&mut self, idx: usize)
        ensures
            final(self).m0@ == old(self).m0@,
            final(self).mo@ == old(self).mo@,
            final(self).mz@ == old(self).mz@,
            final(self).mpr@ == removed_at(old(self).mpr@, idx as int),
            rows_of(final(self).pre@) == Seq::new(
                old(self).pre@.len(),
                |i: int| removed_at(old(self).pre@[i]@, idx as int),
            ),
            rows_of(final(self).post@) == Seq::new(
                old(self).post@.len(),
                |i: int| removed_at(old(self).post@[i]@, idx as int),
            ),
            rows_of(final(self).inhibitor@) == Seq::new(
                old(self).inhibitor@.len(),
                |i: int| removed_at(old(self).inhibitor@[i]@, idx as int),
            ),
    {
        if idx < self.mpr.len() {
            self.mpr.remove(idx);
        }
        remove_column(&mut self.pre, idx);
        remove_column(&mut self.post, idx);
        remove_column(&mut self.inhibitor, idx);
    }
}

/// Removes entry `idx` of every row that has one.
fn remove_column(m: &mut Vec<Vec<u32>>, idx: usize)
    ensures
        rows_of(final(m)@) == Seq::new(old(m)@.len(), |i: int| removed_at(old(m)@[i]@, idx as int)),
{
    let ghost start = m@;
    let mut i: usize = 0;
    while i < m.len()
        invariant
            m@.len() == start.len(),
            i <= m@.len(),
            forall|k: int| 0 <= k < i ==> #[trigger] m@[k]@ == removed_at(start[k]@, idx as int),
            forall|k: int| i <= k < m@.len() ==> #[trigger] m@[k] == start[k],
        decreases m@.len() - i,
    {
        if idx < m[i].len() {
            m[i].remove(idx);
        }
        i = i + 1;
    }
    proof {
        assert(rows_of(m@) =~= Seq::new(start.len(), |i: int| removed_at(start[i]@, idx as int)));
    }
}

/// The ids of a sequence of places, in order.
pub open spec fn place_ids(ps: Seq<Place>) -> Seq<u64> {
    Seq::new(ps.len(), |i: int| ps[i].id)
}

/// The ids of a sequence of transitions, in order.
pub open spec fn transition_ids(ts: Seq<Transition>) -> Seq<u64> {
    Seq::new(ts.len(), |i: int| ts[i].id)
}

/// Position of the last entry of `ids` equal to `id`, or -1 when there is none.
pub open spec fn last_index(ids: Seq<u64>, id: u64) -> int
    decreases ids.len(),
{
    if ids.len() == 0 {
        -1
    } else if ids.last() == id {
        ids.len() - 1
    } else {
        last_index(ids.drop_last(), id)
    }
}

/// `last_index` names the last occurrence, and is -1 exactly for absent ids.
pub proof fn lemma_last_index(ids: Seq<u64>, id: u64)
    ensures
        -1 <= last_index(ids, id) < ids.len(),
        last_index(ids, id) == -1 <==> !ids.contains(id),
        last_index(ids, id) >= 0 ==> ids[last_index(ids, id)] == id,
        forall|j: int| last_index(ids, id) < j < ids.len() ==> ids[j] != id,
    decreases ids.len(),
{
    if ids.len() > 0 {
        lemma_last_index(ids.drop_last(), id);
        if ids.last() != id {
            if ids.contains(id) {
                let k = choose|k: int| 0 <= k < ids.len() && ids[k] == id;
                assert(ids.drop_last()[k] == id);
            }
        }
        assert forall|j: int| last_index(ids, id) < j < ids.len() implies ids[j] != id by {
            if j < ids.len() - 1 {
                assert(ids.drop_last()[j] == ids[j]);
            }
        }
    }
}

/// `m` maps every id of `ids`, and only those, to the position of its last occurrence.
pub open spec fn is_last_index_map(m: Map<u64, usize>, ids: Seq<u64>) -> bool {
    &&& forall|id: u64| #[trigger] m.contains_key(id) <==> ids.contains(id)
    &&& forall|id: u64| #[trigger] m.contains_key(id) ==> m[id] == last_index(ids, id)
}

/// The map from each id to the position of its last occurrence in `ids`.
pub fn last_index_map(ids: &Vec<u64>) -> (m: HashMap<u64, usize>)
    ensures
        is_last_index_map(m@, ids@),
{
    let mut m: HashMap<u64, usize> = HashMap::new();
    let mut i: usize = 0;
    while i < ids.len()
        invariant
            i <= ids@.len(),
            is_last_index_map(m@, ids@.take(i as int)),
        decreases ids@.len() - i,
    {
        m.insert(ids[i], i);
        proof {
            let pre = ids@.take(i as int);
            let post = ids@.take(i + 1);
            assert(post.drop_last() == pre);
            assert forall|id: u64| #[trigger] m@.contains_key(id) <==> post.contains(id) by {
                if post.contains(id) && id != ids@[i as int] {
                    let k = choose|k: int| 0 <= k < post.len() && post[k] == id;
                    assert(pre[k] == id);
                }
                if pre.contains(id) {
                    let k = choose|k: int| 0 <= k < pre.len() && pre[k] == id;
                    assert(post[k] == id);
                }
                if id == ids@[i as int] {
                    assert(post[i as int] == id);
                }
            }
        }
        i = i + 1;
    }
    proof {
        assert(ids@.take(ids@.len() as int) == ids@);
    }
    m
}

/// The place and transition ids that an arc joins and whether it runs from
/// the place to the transition; `None` for an arc that does not join a
/// place and a transition.
pub open spec fn arc_link(a: Arc) -> Option<(u64, u64, bool)> {
    match (a.from, a.to) {
        (NodeRef::Place(p), NodeRef::Transition(t)) => Some((p, t, true)),
        (NodeRef::Transition(t), NodeRef::Place(p)) => Some((p, t, false)),
        _ => None,
    }
}

/// An arc joins a place and a transition that are both present.
pub open spec fn arc_is_linked(a: Arc, pids: Seq<u64>, tids: Seq<u64>) -> bool {
    match arc_link(a) {
        Some((p, t, _)) => pids.contains(p) && tids.contains(t),
        None => false,
    }
}

/// An inhibitor arc joins a place and a transition that are both present.
pub open spec fn inhibitor_is_linked(a: InhibitorArc, pids: Seq<u64>, tids: Seq<u64>) -> bool {
    pids.contains(a.place_id) && tids.contains(a.transition_id)
}

/// A weight or threshold, with 0 read as 1.
pub open spec fn at_least_one(w: u32) -> u32 {
    if w == 0 {
        1
    } else {
        w
    }
}

/// The arc runs in direction `p2t` between place row `p` and transition column `t`
/// (rows and columns are the last positions of the ids).
pub open spec fn arc_hits(a: Arc, pids: Seq<u64>, tids: Seq<u64>, p: int, t: int, p2t: bool) -> bool {
    match arc_link(a) {
        Some((pid, tid, dir)) => dir == p2t && last_index(pids, pid) == p && last_index(tids, tid)
            == t,
        None => false,
    }
}

/// Sum of the weights (0 read as 1) of the arcs that run in direction `p2t`
/// between place row `p` and transition column `t`.
pub open spec fn link_weight(
    arcs: Seq<Arc>,
    pids: Seq<u64>,
    tids: Seq<u64>,
    p: int,
    t: int,
    p2t: bool,
) -> nat
    decreases arcs.len(),
{
    if arcs.len() == 0 {
        0
    } else {
        link_weight(arcs.drop_last(), pids, tids, p, t, p2t) + if arc_hits(
            arcs.last(),
            pids,
            tids,
            p,
            t,
            p2t,
        ) {
            at_least_one(arcs.last().weight) as nat
        } else {
            0
        }
    }
}

/// The threshold (0 read as 1) of the last inhibitor arc between place row `p`
/// and transition column `t`, or 0 when there is none.
pub open spec fn inhibitor_entry(
    inhs: Seq<InhibitorArc>,
    pids: Seq<u64>,
    tids: Seq<u64>,
    p: int,
    t: int,
) -> u32
    decreases inhs.len(),
{
    if inhs.len() == 0 {
        0
    } else if last_index(pids, inhs.last().place_id) == p && last_index(
        tids,
        inhs.last().transition_id,
    ) == t {
        at_least_one(inhs.last().threshold)
    } else {
        inhibitor_entry(inhs.drop_last(), pids, tids, p, t)
    }
}

/// A natural number cut to the `u32` range.
pub open spec fn sat_u32(n: nat) -> u32 {
    if n > u32::MAX {
        u32::MAX
    } else {
        n as u32
    }
}

/// A natural number cut to the `u64` range.
pub open spec fn sat_u64(n: nat) -> u64 {
    if n > u64::MAX {
        u64::MAX
    } else {
        n as u64
    }
}

/// A `rows` by `cols` matrix of zeros.
pub fn zero_matrix(rows: usize, cols: usize) -> (m: Vec<Vec<u32>>)
    ensures
        matrix_has_shape(m@, rows as nat, cols as nat),
        forall|i: int, j: int| 0 <= i < rows && 0 <= j < cols ==> #[trigger] m@[i]@[j] == 0,
{
    let mut m: Vec<Vec<u32>> = Vec::new();
    while m.len() < rows
        invariant
            m@.len() <= rows,
            forall|i: int| 0 <= i < m@.len() ==> #[trigger] m@[i]@ == Seq::new(cols as nat, |j: int| 0u32),
        decreases rows - m.len(),
    {
        let mut row: Vec<u32> = Vec::new();
        resize_vec(&mut row, cols, 0);
        proof {
            assert(row@ =~= Seq::new(cols as nat, |j: int| 0u32));
        }
        m.push(row);
    }
    m
}

/// Keeps the arcs that join a present place and a present transition.
fn linked_arcs(arcs: &Vec<Arc>, pmap: &HashMap<u64, usize>, tmap: &HashMap<u64, usize>, pids: Ghost<Seq<u64>>, tids: Ghost<Seq<u64>>) -> (out: Vec<Arc>)
    requires
        is_last_index_map(pmap@, pids@),
        is_last_index_map(tmap@, tids@),
    ensures
        out@ == arcs@.filter(|a: Arc| arc_is_linked(a, pids@, tids@)),
{
    let ghost pred = |a: Arc| arc_is_linked(a, pids@, tids@);
    let mut out: Vec<Arc> = Vec::new();
    let mut i: usize = 0;
    while i < arcs.len()
        invariant
            i <= arcs@.len(),
            is_last_index_map(pmap@, pids@),
            is_last_index_map(tmap@, tids@),
            pred == (|a: Arc| arc_is_linked(a, pids@, tids@)),
            out@ == arcs@.take(i as int).filter(pred),
        decreases arcs@.len() - i,
    {
        let a = arcs[i];
        let keep = match (a.from, a.to) {
            (NodeRef::Place(pid), NodeRef::Transition(tid)) => {
                let r = pmap.contains_key(&pid) && tmap.contains_key(&tid);
                assert(r == (pids@.contains(pid) && tids@.contains(tid)));
                r
            },
            (NodeRef::Transition(tid), NodeRef::Place(pid)) => {
                let r = pmap.contains_key(&pid) && tmap.contains_key(&tid);
                assert(r == (pids@.contains(pid) && tids@.contains(tid)));
                r
            },
            _ => false,
        };
        proof {
            reveal(Seq::filter);
            assert(arcs@.take(i + 1).drop_last() == arcs@.take(i as int));
            assert(keep == pred(a));
        }
        if keep {
            out.push(a);
        }
        i = i + 1;
    }
    proof {
        assert(arcs@.take(arcs@.len() as int) == arcs@);
    }
    out
}

/// Keeps the inhibitor arcs that join a present place and a present transition.
fn linked_inhibitors(
    inhs: &Vec<InhibitorArc>,
    pmap: &HashMap<u64, usize>,
    tmap: &HashMap<u64, usize>,
    pids: Ghost<Seq<u64>>,
    tids: Ghost<Seq<u64>>,
) -> (out: Vec<InhibitorArc>)
    requires
        is_last_index_map(pmap@, pids@),
        is_last_index_map(tmap@, tids@),
    ensures
        out@ == inhs@.filter(|a: InhibitorArc| inhibitor_is_linked(a, pids@, tids@)),
{
    let ghost pred = |a: InhibitorArc| inhibitor_is_linked(a, pids@, tids@);
    let mut out: Vec<InhibitorArc> = Vec::new();
    let mut i: usize = 0;
    while i < inhs.len()
        invariant
            i <= inhs@.len(),
            is_last_index_map(pmap@, pids@),
            is_last_index_map(tmap@, tids@),
            pred == (|a: InhibitorArc| inhibitor_is_linked(a, pids@, tids@)),
            out@ == inhs@.take(i as int).filter(pred),
        decreases inhs@.len() - i,
    {
        let a = inhs[i];
        let keep = pmap.contains_key(&a.place_id) && tmap.contains_key(&a.transition_id);
        assert(keep == (pids@.contains(a.place_id) && tids@.contains(a.transition_id)));
        proof {
            reveal(Seq::filter);
            assert(inhs@.take(i + 1).drop_last() == inhs@.take(i as int));
            assert(keep == pred(a));
        }
        if keep {
            out.push(a);
        }
        i = i + 1;
    }
    proof {
        assert(inhs@.take(inhs@.len() as int) == inhs@);
    }
    out
}

/// A Petri net with its tables and editor settings.
#[derive(Clone, Debug)]
pub struct PetriNetModel {
    pub format_version: u32,
    pub meta: MetaInfo,
    pub places: Vec<Place>,
    pub transitions: Vec<Transition>,
    pub arcs: Vec<Arc>,
    pub inhibitor_arcs: Vec<InhibitorArc>,
    pub tables: Tables,
    pub ui: UiSettings,
}

/// The ids of the places of `ps`.
pub fn place_id_vec(ps: &Vec<Place>) -> (v: Vec<u64>)
    ensures
        v@ == place_ids(ps@),
{
    let mut v: Vec<u64> = Vec::new();
    let mut i: usize = 0;
    while i < ps.len()
        invariant
            i <= ps@.len(),
            v@ == place_ids(ps@).take(i as int),
        decreases ps@.len() - i,
    {
        v.push(ps[i].id);
        proof {
            assert(place_ids(ps@).take(i + 1) == place_ids(ps@).take(i as int).push(ps@[i as int].id));
        }
        i = i + 1;
    }
    proof {
        assert(place_ids(ps@).take(ps@.len() as int) == place_ids(ps@));
    }
    v
}

/// The ids of the transitions of `ts`.
pub fn transition_id_vec(ts: &Vec<Transition>) -> (v: Vec<u64>)
    ensures
        v@ == transition_ids(ts@),
{
    let mut v: Vec<u64> = Vec::new();
    let mut i: usize = 0;
    while i < ts.len()
        invariant
            i <= ts@.len(),
            v@ == transition_ids(ts@).take(i as int),
        decreases ts@.len() - i,
    {
        v.push(ts[i].id);
        proof {
            assert(transition_ids(ts@).take(i + 1) == transition_ids(ts@).take(i as int).push(
                ts@[i as int].id,
            ));
        }
        i = i + 1;
    }
    proof {
        assert(transition_ids(ts@).take(ts@.len() as int) == transition_ids(ts@));
    }
    v
}

/// Saturating addition never loses what saturation already kept.
proof fn lemma_sat_add(a: nat, w: u32)
    requires
        w >= 1,
    ensures
        (if sat_u32(a) + w > u32::MAX { u32::MAX } else { (sat_u32(a) + w) as u32 }) == sat_u32(
            (a + w) as nat,
        ),
{
}

/// What `PetriNetModel::new` gives: an empty net in the current format,
/// named "Без названия", with Russian as the language, the grid shown and
/// snapped to, plain nets, a fixed time step, token statistics, the light
/// theme, no text blocks or frames, and both id counters at 1.
pub open spec fn is_new_model(r: PetriNetModel) -> bool {
    &&& r.format_version == GPN2_FORMAT_VERSION
    &&& r.meta.name@ == "Без названия"@
    &&& r.meta.author@.len() == 0
    &&& r.meta.description@.len() == 0
    &&& r.places@.len() == 0
    &&& r.transitions@.len() == 0
    &&& r.arcs@.len() == 0
    &&& r.inhibitor_arcs@.len() == 0
    &&& r.tables.is_empty_spec()
    &&& r.ui.language == Language::Ru
    &&& !r.ui.hide_grid
    &&& r.ui.snap_to_grid
    &&& !r.ui.colored_petri_nets
    &&& r.ui.fix_time_step
    &&& r.ui.marker_count_stats
    &&& r.ui.light_theme
    &&& r.ui.text_blocks@.len() == 0
    &&& r.ui.decorative_frames@.len() == 0
    &&& r.ui.next_text_id == 1
    &&& r.ui.next_frame_id == 1
}

impl PetriNetModel {
    /// Ids of the places, in order.
    pub open spec fn pids(&self) -> Seq<u64> {
        place_ids(self.places@)
    }

    /// Ids of the transitions, in order.
    pub open spec fn tids(&self) -> Seq<u64> {
        transition_ids(self.transitions@)
    }

    /// The `Pre`, `Post` and inhibitor matrices have one row per place and one
    /// column per transition, and hold exactly what the arcs give: the summed
    /// weights (saturated at `u32::MAX`, 0 read as 1) of the arcs between a
    /// place row and a transition column in each direction, and the threshold
    /// of the last inhibitor arc between them.
    pub open spec fn matrices_match_arcs(&self) -> bool {
        let pids = self.pids();
        let tids = self.tids();
        let np = self.places@.len();
        let nt = self.transitions@.len();
        &&& matrix_has_shape(self.tables.pre@, np, nt)
        &&& matrix_has_shape(self.tables.post@, np, nt)
        &&& matrix_has_shape(self.tables.inhibitor@, np, nt)
        &&& forall|p: int, t: int|
            0 <= p < np && 0 <= t < nt ==> #[trigger] self.tables.pre@[p]@[t] == sat_u32(
                link_weight(self.arcs@, pids, tids, p, t, true),
            )
        &&& forall|p: int, t: int|
            0 <= p < np && 0 <= t < nt ==> #[trigger] self.tables.post@[p]@[t] == sat_u32(
                link_weight(self.arcs@, pids, tids, p, t, false),
            )
        &&& forall|p: int, t: int|
            0 <= p < np && 0 <= t < nt ==> #[trigger] self.tables.inhibitor@[p]@[t]
                == inhibitor_entry(self.inhibitor_arcs@, pids, tids, p, t)
    }

    /// The vector tables are `old`'s cut or padded to the net's size.
    pub open spec fn vectors_resized_from(&self, old: Tables) -> bool {
        let np = self.places@.len();
        let nt = self.transitions@.len();
        &&& self.tables.m0@ == resized(old.m0@, np, 0u32)
        &&& self.tables.mo@ == resized(old.mo@, np, Some(1u32))
        &&& self.tables.mz@ == resized(old.mz@, np, 0u64)
        &&& self.tables.mpr@ == resized(old.mpr@, nt, 0i32)
    }

    /// An empty net in the current format, with default metadata and settings.
    pub fn new() -> (r: Self)
        ensures
            is_new_model(r),
    {
        PetriNetModel {
            format_version: GPN2_FORMAT_VERSION,
            meta: MetaInfo::default(),
            places: Vec::new(),
            transitions: Vec::new(),
            arcs: Vec::new(),
            inhibitor_arcs: Vec::new(),
            tables: Tables::default(),
            ui: UiSettings::default(),
        }
    }

    /// Place id to the row of its last occurrence.
    pub fn place_index_map(&self) -> (m: HashMap<u64, usize>)
        ensures
            is_last_index_map(m@, self.pids()),
    {
        let ids = place_id_vec(&self.places);
        last_index_map(&ids)
    }

    /// Transition id to the column of its last occurrence.
    pub fn transition_index_map(&self) -> (m: HashMap<u64, usize>)
        ensures
            is_last_index_map(m@, self.tids()),
    {
        let ids = transition_id_vec(&self.transitions);
        last_index_map(&ids)
    }

    /// Drops the arcs and inhibitor arcs whose ends are missing and recomputes
    /// the `Pre`, `Post` and inhibitor matrices from the remaining ones; the
    /// vector tables are cut or padded to the net's size.
    pub fn rebuild_matrices_from_arcs(&mut self)
        ensures
            final(self).format_version == old(self).format_version,
            final(self).meta == old(self).meta,
            final(self).ui == old(self).ui,
            final(self).places == old(self).places,
            final(self).transitions == old(self).transitions,
            final(self).arcs@ == old(self).arcs@.filter(
                |a: Arc| arc_is_linked(a, old(self).pids(), old(self).tids()),
            ),
            final(self).inhibitor_arcs@ == old(self).inhibitor_arcs@.filter(
                |a: InhibitorArc| inhibitor_is_linked(a, old(self).pids(), old(self).tids()),
            ),
            final(self).vectors_resized_from(old(self).tables),
            final(self).tables.has_shape(old(self).places@.len(), old(self).transitions@.len()),
            final(self).matrices_match_arcs(),
    {
        let np = self.places.len();
        let nt = self.transitions.len();
        self.tables.resize(np, nt);
        let pid_vec = place_id_vec(&self.places);
        let tid_vec = transition_id_vec(&self.transitions);
        let ghost pids = pid_vec@;
        let ghost tids = tid_vec@;
        let pmap = last_index_map(&pid_vec);
        let tmap = last_index_map(&tid_vec);
        let mut pre = zero_matrix(np, nt);
        let mut post = zero_matrix(np, nt);
        let mut inh = zero_matrix(np, nt);
        let arcs = linked_arcs(&self.arcs, &pmap, &tmap, Ghost(pids), Ghost(tids));
        let inhs = linked_inhibitors(&self.inhibitor_arcs, &pmap, &tmap, Ghost(pids), Ghost(tids));
        proof {
            lemma_last_index(pids, 0);
        }
        let mut k: usize = 0;
        while k < arcs.len()
            invariant
                k <= arcs@.len(),
                pids.len() == np,
                tids.len() == nt,
                is_last_index_map(pmap@, pids),
                is_last_index_map(tmap@, tids),
                matrix_has_shape(pre@, np as nat, nt as nat),
                matrix_has_shape(post@, np as nat, nt as nat),
                forall|p: int, t: int|
                    0 <= p < np && 0 <= t < nt ==> #[trigger] pre@[p]@[t] == sat_u32(
                        link_weight(arcs@.take(k as int), pids, tids, p, t, true),
                    ),
                forall|p: int, t: int|
                    0 <= p < np && 0 <= t < nt ==> #[trigger] post@[p]@[t] == sat_u32(
                        link_weight(arcs@.take(k as int), pids, tids, p, t, false),
                    ),
            decreases arcs@.len() - k,
        {
            let a = arcs[k];
            let ghost prefix = arcs@.take(k as int);
            let ghost next = arcs@.take(k + 1);
            proof {
                assert(next.drop_last() == prefix);
                assert(next.last() == a);
            }
            let w = if a.weight == 0 { 1u32 } else { a.weight };
            match (a.from, a.to) {
                (NodeRef::Place(pid), NodeRef::Transition(tid)) => {
                    proof {
                        lemma_last_index(pids, pid);
                        lemma_last_index(tids, tid);
                    }
                    match (pmap.get(&pid), tmap.get(&tid)) {
                        (Some(pp), Some(tt)) => {
                            let p = *pp;
                            let t = *tt;
                            let old_v = pre[p][t];
                            pre[p][t] = old_v.saturating_add(w);
                            proof {
                                lemma_sat_add(link_weight(prefix, pids, tids, p as int, t as int, true), w);
                            }
                        },
                        _ => {},
                    }
                },
                (NodeRef::Transition(tid), NodeRef::Place(pid)) => {
                    proof {
                        lemma_last_index(pids, pid);
                        lemma_last_index(tids, tid);
                    }
                    match (pmap.get(&pid), tmap.get(&tid)) {
                        (Some(pp), Some(tt)) => {
                            let p = *pp;
                            let t = *tt;
                            let old_v = post[p][t];
                            post[p][t] = old_v.saturating_add(w);
                            proof {
                                lemma_sat_add(link_weight(prefix, pids, tids, p as int, t as int, false), w);
                            }
                        },
                        _ => {},
                    }
                },
                _ => {},
            }
            k = k + 1;
        }
        let mut j: usize = 0;
        while j < inhs.len()
            invariant
                j <= inhs@.len(),
                pids.len() == np,
                tids.len() == nt,
                is_last_index_map(pmap@, pids),
                is_last_index_map(tmap@, tids),
                matrix_has_shape(inh@, np as nat, nt as nat),
                forall|p: int, t: int|
                    0 <= p < np && 0 <= t < nt ==> #[trigger] inh@[p]@[t] == inhibitor_entry(
                        inhs@.take(j as int),
                        pids,
                        tids,
                        p,
                        t,
                    ),
            decreases inhs@.len() - j,
        {
            let a = inhs[j];
            proof {
                assert(inhs@.take(j + 1).drop_last() == inhs@.take(j as int));
                lemma_last_index(pids, a.place_id);
                lemma_last_index(tids, a.transition_id);
            }
            match (pmap.get(&a.place_id), tmap.get(&a.transition_id)) {
                (Some(pp), Some(tt)) => {
                    let p = *pp;
                    let t = *tt;
                    inh[p][t] = if a.threshold == 0 { 1 } else { a.threshold };
                },
                _ => {},
            }
            j = j + 1;
        }
        proof {
            assert(arcs@.take(arcs@.len() as int) == arcs@);
            assert(inhs@.take(inhs@.len() as int) == inhs@);
        }
        self.tables.pre = pre;
        self.tables.post = post;
        self.tables.inhibitor = inh;
        self.arcs = arcs;
        self.inhibitor_arcs = inhs;
    }
}

/// The table whose shape a validation error reports.
#[derive(Clone, Copy, Debug, PartialEq, Eq, Structural)]
pub enum MatrixName {
    Pre,
    Post,
    Inhibitor,
}

/// Why a net is not a valid `GPN2` model.
#[derive(Clone, Copy, Debug, PartialEq, Eq, Structural)]
pub enum ModelError {
    /// The format version is not the current one.
    UnsupportedFormatVersion(u32),
    /// Two places share this id.
    DuplicatePlaceId(u64),
    /// The place with this id has a non-finite coordinate.
    InvalidPlacePosition(u64),
    /// Two transitions share this id.
    DuplicateTransitionId(u64),
    /// The transition with this id has a non-finite coordinate.
    InvalidTransitionPosition(u64),
    /// A matrix has `rows` rows in place of `expected`.
    MatrixRowCount { matrix: MatrixName, rows: usize, expected: usize },
    /// A row of a matrix does not have one entry per transition.
    MatrixColumnCount(MatrixName),
    /// `M0`, `Mo`, `Mz` or `Mpr` does not match the number of places or transitions.
    TableSizeMismatch,
    /// `Mz` at this row is not a finite non-negative number.
    InvalidDelay(usize),
    /// The arc with this id has weight 0.
    ZeroArcWeight(u64),
    /// The arc with this id names a missing place or transition.
    DanglingArc(u64),
    /// The arc with this id joins two places or two transitions.
    NonBipartiteArc(u64),
    /// The inhibitor arc with this id has threshold 0.
    ZeroInhibitorThreshold(u64),
    /// The inhibitor arc with this id names a missing place or transition.
    DanglingInhibitorArc(u64),
}

/// The name of a matrix as the messages write it.
pub open spec fn matrix_label(m: MatrixName) -> Seq<char> {
    match m {
        MatrixName::Pre => "pre"@,
        MatrixName::Post => "post"@,
        MatrixName::Inhibitor => "inhibitor"@,
    }
}

/// The message of a validation error.
pub open spec fn model_error_text(e: ModelError) -> Seq<char> {
    match e {
        ModelError::UnsupportedFormatVersion(v) => "Неподдерживаемая версия формата: "@ + decimal(v as nat),
        ModelError::DuplicatePlaceId(id) => "Дублирующийся id места: "@ + decimal(id as nat),
        ModelError::InvalidPlacePosition(id) => "Координаты места "@ + decimal(id as nat) + " невалидны"@,
        ModelError::DuplicateTransitionId(id) => "Дублирующийся id перехода: "@ + decimal(id as nat),
        ModelError::InvalidTransitionPosition(id) => "Координаты перехода "@ + decimal(id as nat) + " невалидны"@,
        ModelError::MatrixRowCount { matrix, rows, expected } => "Матрица "@ + matrix_label(matrix)
            + " имеет некорректное число строк: "@ + decimal(rows as nat) + " вместо "@ + decimal(expected as nat),
        ModelError::MatrixColumnCount(matrix) => "Матрица "@ + matrix_label(matrix) + " имеет некорректное число столбцов"@,
        ModelError::TableSizeMismatch => "Размеры таблиц не согласованы с числами мест/переходов"@,
        ModelError::InvalidDelay(i) => "Mz["@ + decimal(i as nat) + "] содержит недопустимое значение"@,
        ModelError::ZeroArcWeight(id) => "Вес дуги "@ + decimal(id as nat) + " должен быть > 0"@,
        ModelError::DanglingArc(id) => "Дуга "@ + decimal(id as nat) + " ссылается на отсутствующие вершины"@,
        ModelError::NonBipartiteArc(id) => "Дуга "@ + decimal(id as nat) + " нарушает двудольность графа"@,
        ModelError::ZeroInhibitorThreshold(id) => "Порог ингибиторной дуги "@ + decimal(id as nat) + " должен быть > 0"@,
        ModelError::DanglingInhibitorArc(id) => "Ингибиторная дуга "@ + decimal(id as nat)
            + " ссылается на отсутствующие вершины"@,
    }
}

fn text_with_number(before: &str, n: u64, after: &str) -> (s: String)
    ensures
        s@ == before@ + decimal(n as nat) + after@,
{
    let mut s = before.to_owned();
    push_decimal(&mut s, n);
    push_str(&mut s, after);
    s
}

fn matrix_label_str(m: MatrixName) -> (s: &'static str)
    ensures
        s@ == matrix_label(m),
{
    match m {
        MatrixName::Pre => "pre",
        MatrixName::Post => "post",
        MatrixName::Inhibitor => "inhibitor",
    }
}

impl ModelError {
    /// The message of the error.
    pub fn message(&self) -> (s: String)
        ensures
            s@ == model_error_text(*self),
    {
        proof {
            reveal_strlit("");
            assert(forall|t: Seq<char>| t + ""@ == t) by {
                assert forall|t: Seq<char>| t + ""@ == t by {
                    assert(t + ""@ =~= t);
                }
            }
        }
        match *self {
            ModelError::UnsupportedFormatVersion(v) => text_with_number("Неподдерживаемая версия формата: ", v as u64, ""),
            ModelError::DuplicatePlaceId(id) => text_with_number("Дублирующийся id места: ", id, ""),
            ModelError::InvalidPlacePosition(id) => text_with_number("Координаты места ", id, " невалидны"),
            ModelError::DuplicateTransitionId(id) => text_with_number("Дублирующийся id перехода: ", id, ""),
            ModelError::InvalidTransitionPosition(id) => text_with_number("Координаты перехода ", id, " невалидны"),
            ModelError::MatrixRowCount { matrix, rows, expected } => {
                let mut s = "Матрица ".to_owned();
                push_str(&mut s, matrix_label_str(matrix));
                push_str(&mut s, " имеет некорректное число строк: ");
                push_decimal(&mut s, rows as u64);
                push_str(&mut s, " вместо ");
                push_decimal(&mut s, expected as u64);
                s
            },
            ModelError::MatrixColumnCount(matrix) => {
                let mut s = "Матрица ".to_owned();
                push_str(&mut s, matrix_label_str(matrix));
                push_str(&mut s, " имеет некорректное число столбцов");
                s
            },
            ModelError::TableSizeMismatch => "Размеры таблиц не согласованы с числами мест/переходов".to_owned(),
            ModelError::InvalidDelay(i) => text_with_number("Mz[", i as u64, "] содержит недопустимое значение"),
            ModelError::ZeroArcWeight(id) => text_with_number("Вес дуги ", id, " должен быть > 0"),
            ModelError::DanglingArc(id) => text_with_number("Дуга ", id, " ссылается на отсутствующие вершины"),
            ModelError::NonBipartiteArc(id) => text_with_number("Дуга ", id, " нарушает двудольность графа"),
            ModelError::ZeroInhibitorThreshold(id) => text_with_number("Порог ингибиторной дуги ", id, " должен быть > 0"),
            ModelError::DanglingInhibitorArc(id) => text_with_number("Ингибиторная дуга ", id, " ссылается на отсутствующие вершины"),
        }
    }
}

/// The first `Some` among `f(i)` for `i` in `i0..n`, scanning upwards.
pub open spec fn first_problem(i0: int, n: int, f: spec_fn(int) -> Option<ModelError>) -> Option<ModelError>
    decreases n - i0,
{
    if i0 >= n {
        None
    } else if f(i0) is Some {
        f(i0)
    } else {
        first_problem(i0 + 1, n, f)
    }
}

/// The problem of place `i`: its id already used by an earlier place, or a
/// non-finite coordinate.
pub open spec fn place_problem(ps: Seq<Place>, i: int) -> Option<ModelError> {
    if place_ids(ps).take(i).contains(ps[i].id) {
        Some(ModelError::DuplicatePlaceId(ps[i].id))
    } else if !f32_is_finite(ps[i].pos[0]) || !f32_is_finite(ps[i].pos[1]) {
        Some(ModelError::InvalidPlacePosition(ps[i].id))
    } else {
        None
    }
}

/// The problem of transition `i`, as for places.
pub open spec fn transition_problem(ts: Seq<Transition>, i: int) -> Option<ModelError> {
    if transition_ids(ts).take(i).contains(ts[i].id) {
        Some(ModelError::DuplicateTransitionId(ts[i].id))
    } else if !f32_is_finite(ts[i].pos[0]) || !f32_is_finite(ts[i].pos[1]) {
        Some(ModelError::InvalidTransitionPosition(ts[i].id))
    } else {
        None
    }
}

/// The shape problem of one matrix.
pub open spec fn matrix_problem(m: Seq<Vec<u32>>, name: MatrixName, np: nat, nt: nat) -> Option<ModelError> {
    if m.len() != np {
        Some(ModelError::MatrixRowCount { matrix: name, rows: m.len() as usize, expected: np as usize })
    } else if exists|i: int| 0 <= i < m.len() && #[trigger] m[i]@.len() != nt {
        Some(ModelError::MatrixColumnCount(name))
    } else {
        None
    }
}

/// A binary64 delay that is a NaN, an infinity or below zero.
pub open spec fn bad_delay(b: F64Bits) -> bool {
    !f64_is_finite(b) || f64_is_negative(b)
}

/// The problem of arc `a`.
pub open spec fn arc_problem(a: Arc, pids: Seq<u64>, tids: Seq<u64>) -> Option<ModelError> {
    if a.weight == 0 {
        Some(ModelError::ZeroArcWeight(a.id))
    } else {
        match arc_link(a) {
            Some((p, t, _)) => if !pids.contains(p) || !tids.contains(t) {
                Some(ModelError::DanglingArc(a.id))
            } else {
                None
            },
            None => Some(ModelError::NonBipartiteArc(a.id)),
        }
    }
}

/// The problem of inhibitor arc `a`.
pub open spec fn inhibitor_problem(a: InhibitorArc, pids: Seq<u64>, tids: Seq<u64>) -> Option<ModelError> {
    if a.threshold == 0 {
        Some(ModelError::ZeroInhibitorThreshold(a.id))
    } else if !pids.contains(a.place_id) || !tids.contains(a.transition_id) {
        Some(ModelError::DanglingInhibitorArc(a.id))
    } else {
        None
    }
}

/// `a` if it is `Some`, else `b`.
pub open spec fn or_else(a: Option<ModelError>, b: Option<ModelError>) -> Option<ModelError> {
    if a is Some {
        a
    } else {
        b
    }
}

/// The first problem that validation reports, checking in this order: the
/// format version, the places, the transitions, the shapes of `Pre`, `Post`
/// and the inhibitor matrix, the sizes of `M0`, `Mo`, `Mz`, `Mpr`, the delays,
/// the arcs, the inhibitor arcs.
pub open spec fn model_problem(m: PetriNetModel) -> Option<ModelError> {
    let ps = m.places@;
    let ts = m.transitions@;
    let pids = m.pids();
    let tids = m.tids();
    let np = ps.len();
    let nt = ts.len();
    if m.format_version != GPN2_FORMAT_VERSION {
        Some(ModelError::UnsupportedFormatVersion(m.format_version))
    } else {
        or_else(first_problem(0, np as int, |i: int| place_problem(ps, i)),
        or_else(first_problem(0, nt as int, |i: int| transition_problem(ts, i)),
        or_else(matrix_problem(m.tables.pre@, MatrixName::Pre, np, nt),
        or_else(matrix_problem(m.tables.post@, MatrixName::Post, np, nt),
        or_else(matrix_problem(m.tables.inhibitor@, MatrixName::Inhibitor, np, nt),
        or_else(if m.tables.m0@.len() != np || m.tables.mo@.len() != np || m.tables.mz@.len() != np
            || m.tables.mpr@.len() != nt { Some(ModelError::TableSizeMismatch) } else { None },
        or_else(first_problem(0, m.tables.mz@.len() as int, |i: int| delay_problem(m.tables.mz@, i)),
        or_else(first_problem(0, m.arcs@.len() as int, |i: int| arc_problem(m.arcs@[i], pids, tids)),
        first_problem(0, m.inhibitor_arcs@.len() as int,
            |i: int| inhibitor_problem(m.inhibitor_arcs@[i], pids, tids))))))))))
    }
}

/// Scanning one more index extends the scan.
proof fn lemma_first_problem_step(i0: int, k: int, f: spec_fn(int) -> Option<ModelError>)
    requires
        i0 <= k,
        first_problem(i0, k, f) is None,
    ensures
        first_problem(i0, k + 1, f) == f(k),
        f(k) is None ==> first_problem(i0, k + 1, f) is None,
    decreases k - i0,
{
    if i0 < k {
        assert(f(i0) is None);
        lemma_first_problem_step(i0 + 1, k, f);
    } else {
        assert(first_problem(k + 1, k + 1, f) is None);
    }
}

/// When scanning reaches a first problem at `k`, that is the scan's result.
proof fn lemma_first_problem_found(i0: int, k: int, n: int, f: spec_fn(int) -> Option<ModelError>)
    requires
        i0 <= k < n,
        first_problem(i0, k, f) is None,
        f(k) is Some,
    ensures
        first_problem(i0, n, f) == f(k),
    decreases k - i0,
{
    if i0 < k {
        assert(f(i0) is None);
        lemma_first_problem_found(i0 + 1, k, n, f);
    }
}

/// The delay problem at row `i` of `mz`.
pub open spec fn delay_problem(mz: Seq<F64Bits>, i: int) -> Option<ModelError> {
    if bad_delay(mz[i]) {
        Some(ModelError::InvalidDelay(i as usize))
    } else {
        None
    }
}

/// A delay with a NaN, an infinity or a value below zero replaced by `+0.0`.
pub open spec fn sanitized_delay(b: F64Bits) -> F64Bits {
    if bad_delay(b) {
        0
    } else {
        b
    }
}

/// `a` with weight `w`.
pub open spec fn arc_with_weight(a: Arc, w: u32) -> Arc {
    Arc {
        id: a.id,
        from: a.from,
        to: a.to,
        weight: w,
        color: a.color,
        visible: a.visible,
        show_weight: a.show_weight,
    }
}

/// `a` with id `id`.
pub open spec fn arc_with_id(a: Arc, id: u64) -> Arc {
    Arc {
        id: id,
        from: a.from,
        to: a.to,
        weight: a.weight,
        color: a.color,
        visible: a.visible,
        show_weight: a.show_weight,
    }
}

/// `a` with threshold `w`.
pub open spec fn inhibitor_with_threshold(a: InhibitorArc, w: u32) -> InhibitorArc {
    InhibitorArc {
        id: a.id,
        place_id: a.place_id,
        transition_id: a.transition_id,
        threshold: w,
        show_weight: a.show_weight,
        color: a.color,
        visible: a.visible,
    }
}

/// `a` with id `id`.
pub open spec fn inhibitor_with_id(a: InhibitorArc, id: u64) -> InhibitorArc {
    InhibitorArc {
        id: id,
        place_id: a.place_id,
        transition_id: a.transition_id,
        threshold: a.threshold,
        show_weight: a.show_weight,
        color: a.color,
        visible: a.visible,
    }
}

impl PetriNetModel {
    /// Renumbers the arcs 1, 2, ... and then the inhibitor arcs after them
    /// (saturating at `u64::MAX`); nothing else changes.
    pub fn normalize_arc_ids(&mut self)
        ensures
            final(self).format_version == old(self).format_version,
            final(self).meta == old(self).meta,
            final(self).ui == old(self).ui,
            final(self).places == old(self).places,
            final(self).transitions == old(self).transitions,
            final(self).tables == old(self).tables,
            final(self).arcs@ == renumbered_arcs(old(self).arcs@),
            final(self).inhibitor_arcs@ == renumbered_inhibitors(old(self).inhibitor_arcs@, old(self).arcs@.len()),
    {
        let mut arcs: Vec<Arc> = Vec::new();
        std::mem::swap(&mut arcs, &mut self.arcs);
        let mut inhs: Vec<InhibitorArc> = Vec::new();
        std::mem::swap(&mut inhs, &mut self.inhibitor_arcs);
        let mut next_id: u64 = 1;
        let mut i: usize = 0;
        let ghost arcs0 = arcs@;
        while i < arcs.len()
            invariant
                arcs@.len() == arcs0.len(),
                i <= arcs0.len(),
                next_id == sat_u64((i + 1) as nat),
                forall|k: int| 0 <= k < i ==> #[trigger] arcs@[k] == arc_with_id(arcs0[k], sat_u64((k + 1) as nat)),
                forall|k: int| i <= k < arcs0.len() ==> #[trigger] arcs@[k] == arcs0[k],
            decreases arcs0.len() - i,
        {
            let mut a = arcs[i];
            a.id = next_id;
            arcs.set(i, a);
            next_id = next_id.saturating_add(1);
            i = i + 1;
        }
        let ghost inhs0 = inhs@;
        let mut j: usize = 0;
        while j < inhs.len()
            invariant
                inhs@.len() == inhs0.len(),
                j <= inhs0.len(),
                next_id == sat_u64((arcs0.len() + j + 1) as nat),
                forall|k: int| 0 <= k < j ==> #[trigger] inhs@[k] == inhibitor_with_id(
                    inhs0[k],
                    sat_u64((arcs0.len() + k + 1) as nat),
                ),
                forall|k: int| j <= k < inhs0.len() ==> #[trigger] inhs@[k] == inhs0[k],
            decreases inhs0.len() - j,
        {
            let mut a = inhs[j];
            a.id = next_id;
            inhs.set(j, a);
            next_id = next_id.saturating_add(1);
            j = j + 1;
        }
        proof {
            assert(arcs@ =~= Seq::new(arcs0.len(), |i: int| arc_with_id(arcs0[i], sat_u64((i + 1) as nat))));
            assert(inhs@ =~= Seq::new(
                inhs0.len(),
                |i: int| inhibitor_with_id(inhs0[i], sat_u64((arcs0.len() + i + 1) as nat)),
            ));
        }
        self.arcs = arcs;
        self.inhibitor_arcs = inhs;
    }

    /// Resets delays that are NaN, infinite or below zero to `+0.0`, turns a
    /// capacity of 0 into "unlimited", and raises arc weights and inhibitor
    /// thresholds of 0 to 1.
    pub fn sanitize_values(&mut self)
        ensures
            final(self).format_version == old(self).format_version,
            final(self).meta == old(self).meta,
            final(self).ui == old(self).ui,
            final(self).places == old(self).places,
            final(self).transitions == old(self).transitions,
            final(self).tables.m0 == old(self).tables.m0,
            final(self).tables.mpr == old(self).tables.mpr,
            final(self).tables.pre == old(self).tables.pre,
            final(self).tables.post == old(self).tables.post,
            final(self).tables.inhibitor == old(self).tables.inhibitor,
            final(self).tables.mz@ == Seq::new(
                old(self).tables.mz@.len(),
                |i: int| sanitized_delay(old(self).tables.mz@[i]),
            ),
            final(self).tables.mo@ == Seq::new(
                old(self).tables.mo@.len(),
                |i: int| if old(self).tables.mo@[i] == Some(0u32) { None } else { old(self).tables.mo@[i] },
            ),
            final(self).arcs@ == Seq::new(
                old(self).arcs@.len(),
                |i: int| arc_with_weight(old(self).arcs@[i], at_least_one(old(self).arcs@[i].weight)),
            ),
            final(self).inhibitor_arcs@ == Seq::new(
                old(self).inhibitor_arcs@.len(),
                |i: int|
                    inhibitor_with_threshold(
                        old(self).inhibitor_arcs@[i],
                        at_least_one(old(self).inhibitor_arcs@[i].threshold),
                    ),
            ),
    {
        let mut mz: Vec<F64Bits> = Vec::new();
        std::mem::swap(&mut mz, &mut self.tables.mz);
        let mut mo: Vec<Option<u32>> = Vec::new();
        std::mem::swap(&mut mo, &mut self.tables.mo);
        let mut arcs: Vec<Arc> = Vec::new();
        std::mem::swap(&mut arcs, &mut self.arcs);
        let mut inhs: Vec<InhibitorArc> = Vec::new();
        std::mem::swap(&mut inhs, &mut self.inhibitor_arcs);
        let ghost mz0 = mz@;
        let mut i: usize = 0;
        while i < mz.len()
            invariant
                mz@.len() == mz0.len(),
                i <= mz0.len(),
                forall|k: int| 0 <= k < i ==> #[trigger] mz@[k] == sanitized_delay(mz0[k]),
                forall|k: int| i <= k < mz0.len() ==> #[trigger] mz@[k] == mz0[k],
            decreases mz0.len() - i,
        {
            let v = mz[i];
            if !f64_bits_is_finite(v) || f64_bits_is_negative(v) {
                mz.set(i, 0);
            }
            i = i + 1;
        }
        let ghost mo0 = mo@;
        let mut i: usize = 0;
        while i < mo.len()
            invariant
                mo@.len() == mo0.len(),
                i <= mo0.len(),
                forall|k: int| 0 <= k < i ==> #[trigger] mo@[k] == (if mo0[k] == Some(0u32) { None } else { mo0[k] }),
                forall|k: int| i <= k < mo0.len() ==> #[trigger] mo@[k] == mo0[k],
            decreases mo0.len() - i,
        {
            if mo[i] == Some(0u32) {
                mo.set(i, None);
            }
            i = i + 1;
        }
        let ghost arcs0 = arcs@;
        let mut i: usize = 0;
        while i < arcs.len()
            invariant
                arcs@.len() == arcs0.len(),
                i <= arcs0.len(),
                forall|k: int| 0 <= k < i ==> #[trigger] arcs@[k] == arc_with_weight(arcs0[k], at_least_one(arcs0[k].weight)),
                forall|k: int| i <= k < arcs0.len() ==> #[trigger] arcs@[k] == arcs0[k],
            decreases arcs0.len() - i,
        {
            let mut a = arcs[i];
            if a.weight == 0 {
                a.weight = 1;
            }
            arcs.set(i, a);
            i = i + 1;
        }
        let ghost inhs0 = inhs@;
        let mut i: usize = 0;
        while i < inhs.len()
            invariant
                inhs@.len() == inhs0.len(),
                i <= inhs0.len(),
                forall|k: int| 0 <= k < i ==> #[trigger] inhs@[k] == inhibitor_with_threshold(inhs0[k], at_least_one(inhs0[k].threshold)),
                forall|k: int| i <= k < inhs0.len() ==> #[trigger] inhs@[k] == inhs0[k],
            decreases inhs0.len() - i,
        {
            let mut a = inhs[i];
            if a.threshold == 0 {
                a.threshold = 1;
            }
            inhs.set(i, a);
            i = i + 1;
        }
        proof {
            assert(mz@ =~= Seq::new(mz0.len(), |i: int| sanitized_delay(mz0[i])));
            assert(mo@ =~= Seq::new(mo0.len(), |i: int| if mo0[i] == Some(0u32) { None } else { mo0[i] }));
            assert(arcs@ =~= Seq::new(arcs0.len(), |i: int| arc_with_weight(arcs0[i], at_least_one(arcs0[i].weight))));
            assert(inhs@ =~= Seq::new(inhs0.len(), |i: int| inhibitor_with_threshold(inhs0[i], at_least_one(inhs0[i].threshold))));
        }
        self.tables.mz = mz;
        self.tables.mo = mo;
        self.arcs = arcs;
        self.inhibitor_arcs = inhs;
    }
}

/// Checks the shape of one matrix.
fn check_matrix(m: &Vec<Vec<u32>>, name: MatrixName, np: usize, nt: usize) -> (r: Option<ModelError>)
    ensures
        r == matrix_problem(m@, name, np as nat, nt as nat),
{
    if m.len() != np {
        return Some(ModelError::MatrixRowCount { matrix: name, rows: m.len(), expected: np });
    }
    let mut i: usize = 0;
    while i < m.len()
        invariant
            i <= m@.len(),
            m@.len() == np,
            forall|k: int| 0 <= k < i ==> #[trigger] m@[k]@.len() == nt,
        decreases m@.len() - i,
    {
        if m[i].len() != nt {
            assert(m@[i as int]@.len() != nt);
            return Some(ModelError::MatrixColumnCount(name));
        }
        i = i + 1;
    }
    None
}

impl PetriNetModel {
    /// Checks that the net is a valid model of the current format and
    /// reports the first problem in the order of `model_problem`.
    #[verifier::loop_isolation(false)]
    pub fn validate(&self) -> (r: Result<(), ModelError>)
        ensures
            match model_problem(*self) {
                Some(e) => r == Err::<(), ModelError>(e),
                None => r == Ok::<(), ModelError>(()),
            },
    {
        let ghost ps = self.places@;
        let ghost ts = self.transitions@;
        let ghost pids = self.pids();
        let ghost tids = self.tids();
        if self.format_version != GPN2_FORMAT_VERSION {
            return Err(ModelError::UnsupportedFormatVersion(self.format_version));
        }
        let ghost fp = |i: int| place_problem(ps, i);
        let mut seen: HashSet<u64> = HashSet::new();
        let mut i: usize = 0;
        while i < self.places.len()
            invariant
                i <= ps.len(),
                ps == self.places@,
                fp == (|i: int| place_problem(ps, i)),
                forall|x: u64| #[trigger] seen@.contains(x) <==> place_ids(ps).take(i as int).contains(x),
                first_problem(0, i as int, fp) is None,
            decreases ps.len() - i,
        {
            let id = self.places[i].id;
            let fresh = seen.insert(id);
            proof {
                let pre = place_ids(ps).take(i as int);
                let post = place_ids(ps).take(i + 1);
                assert(post == pre.push(id));
                assert forall|x: u64| #[trigger] seen@.contains(x) <==> post.contains(x) by {
                    if pre.contains(x) {
                        let k = choose|k: int| 0 <= k < pre.len() && pre[k] == x;
                        assert(post[k] == x);
                    }
                    if post.contains(x) && x != id {
                        let k = choose|k: int| 0 <= k < post.len() && post[k] == x;
                        assert(pre[k] == x);
                    }
                    if x == id {
                        assert(post[i as int] == x);
                    }
                }
                lemma_first_problem_step(0, i as int, fp);
            }
            if !fresh {
                proof {
                    lemma_first_problem_found(0, i as int, ps.len() as int, fp);
                }
                return Err(ModelError::DuplicatePlaceId(id));
            }
            let pos = self.places[i].pos;
            if !f32_bits_is_finite(pos[0]) || !f32_bits_is_finite(pos[1]) {
                proof {
                    lemma_first_problem_found(0, i as int, ps.len() as int, fp);
                }
                return Err(ModelError::InvalidPlacePosition(id));
            }
            i = i + 1;
        }
        let ghost ft = |i: int| transition_problem(ts, i);
        let mut seen_t: HashSet<u64> = HashSet::new();
        let mut i: usize = 0;
        while i < self.transitions.len()
            invariant
                i <= ts.len(),
                ts == self.transitions@,
                ft == (|i: int| transition_problem(ts, i)),
                forall|x: u64| #[trigger] seen_t@.contains(x) <==> transition_ids(ts).take(i as int).contains(x),
                first_problem(0, i as int, ft) is None,
            decreases ts.len() - i,
        {
            let id = self.transitions[i].id;
            let fresh = seen_t.insert(id);
            proof {
                let pre = transition_ids(ts).take(i as int);
                let post = transition_ids(ts).take(i + 1);
                assert(post == pre.push(id));
                assert forall|x: u64| #[trigger] seen_t@.contains(x) <==> post.contains(x) by {
                    if pre.contains(x) {
                        let k = choose|k: int| 0 <= k < pre.len() && pre[k] == x;
                        assert(post[k] == x);
                    }
                    if post.contains(x) && x != id {
                        let k = choose|k: int| 0 <= k < post.len() && post[k] == x;
                        assert(pre[k] == x);
                    }
                    if x == id {
                        assert(post[i as int] == x);
                    }
                }
                lemma_first_problem_step(0, i as int, ft);
            }
            if !fresh {
                proof {
                    lemma_first_problem_found(0, i as int, ts.len() as int, ft);
                }
                return Err(ModelError::DuplicateTransitionId(id));
            }
            let pos = self.transitions[i].pos;
            if !f32_bits_is_finite(pos[0]) || !f32_bits_is_finite(pos[1]) {
                proof {
                    lemma_first_problem_found(0, i as int, ts.len() as int, ft);
                }
                return Err(ModelError::InvalidTransitionPosition(id));
            }
            i = i + 1;
        }
        let np = self.places.len();
        let nt = self.transitions.len();
        if let Some(e) = check_matrix(&self.tables.pre, MatrixName::Pre, np, nt) {
            return Err(e);
        }
        if let Some(e) = check_matrix(&self.tables.post, MatrixName::Post, np, nt) {
            return Err(e);
        }
        if let Some(e) = check_matrix(&self.tables.inhibitor, MatrixName::Inhibitor, np, nt) {
            return Err(e);
        }
        if self.tables.m0.len() != np || self.tables.mo.len() != np || self.tables.mz.len() != np
            || self.tables.mpr.len() != nt {
            return Err(ModelError::TableSizeMismatch);
        }
        let ghost mz = self.tables.mz@;
        let ghost fd = |i: int| delay_problem(mz, i);
        let mut i: usize = 0;
        while i < self.tables.mz.len()
            invariant
                i <= mz.len(),
                mz == self.tables.mz@,
                fd == (|i: int| delay_problem(mz, i)),
                first_problem(0, i as int, fd) is None,
            decreases mz.len() - i,
        {
            let v = self.tables.mz[i];
            proof {
                lemma_first_problem_step(0, i as int, fd);
            }
            if !f64_bits_is_finite(v) || f64_bits_is_negative(v) {
                proof {
                    lemma_first_problem_found(0, i as int, mz.len() as int, fd);
                }
                return Err(ModelError::InvalidDelay(i));
            }
            i = i + 1;
        }
        let pset = place_id_vec(&self.places);
        let tset = transition_id_vec(&self.transitions);
        let pmap = last_index_map(&pset);
        let tmap = last_index_map(&tset);
        let ghost arcs = self.arcs@;
        let ghost fa = |i: int| arc_problem(arcs[i], pids, tids);
        let mut i: usize = 0;
        while i < self.arcs.len()
            invariant
                i <= arcs.len(),
                arcs == self.arcs@,
                pids == self.pids(),
                tids == self.tids(),
                is_last_index_map(pmap@, pids),
                is_last_index_map(tmap@, tids),
                fa == (|i: int| arc_problem(arcs[i], pids, tids)),
                first_problem(0, i as int, fa) is None,
            decreases arcs.len() - i,
        {
            let a = self.arcs[i];
            proof {
                lemma_first_problem_step(0, i as int, fa);
            }
            let problem: Option<ModelError> = if a.weight == 0 {
                Some(ModelError::ZeroArcWeight(a.id))
            } else {
                match (a.from, a.to) {
                    (NodeRef::Place(p), NodeRef::Transition(t)) => {
                        if !pmap.contains_key(&p) || !tmap.contains_key(&t) {
                            Some(ModelError::DanglingArc(a.id))
                        } else {
                            None
                        }
                    },
                    (NodeRef::Transition(t), NodeRef::Place(p)) => {
                        if !pmap.contains_key(&p) || !tmap.contains_key(&t) {
                            Some(ModelError::DanglingArc(a.id))
                        } else {
                            None
                        }
                    },
                    _ => Some(ModelError::NonBipartiteArc(a.id)),
                }
            };
            proof {
                assert(problem == fa(i as int));
            }
            if let Some(e) = problem {
                proof {
                    lemma_first_problem_found(0, i as int, arcs.len() as int, fa);
                }
                return Err(e);
            }
            i = i + 1;
        }
        let ghost inhs = self.inhibitor_arcs@;
        let ghost fi = |i: int| inhibitor_problem(inhs[i], pids, tids);
        let mut i: usize = 0;
        while i < self.inhibitor_arcs.len()
            invariant
                i <= inhs.len(),
                inhs == self.inhibitor_arcs@,
                is_last_index_map(pmap@, pids),
                is_last_index_map(tmap@, tids),
                fi == (|i: int| inhibitor_problem(inhs[i], pids, tids)),
                first_problem(0, i as int, fi) is None,
            decreases inhs.len() - i,
        {
            let a = self.inhibitor_arcs[i];
            proof {
                lemma_first_problem_step(0, i as int, fi);
            }
            let problem: Option<ModelError> = if a.threshold == 0 {
                Some(ModelError::ZeroInhibitorThreshold(a.id))
            } else if !pmap.contains_key(&a.place_id) || !tmap.contains_key(&a.transition_id) {
                Some(ModelError::DanglingInhibitorArc(a.id))
            } else {
                None
            };
            proof {
                assert(problem == fi(i as int));
            }
            if let Some(e) = problem {
                proof {
                    lemma_first_problem_found(0, i as int, inhs.len() as int, fi);
                }
                return Err(e);
            }
            i = i + 1;
        }
        Ok(())
    }
}

/// The y coordinate that a new node in grid slot `index` gets: the binary32
/// evaluation of `40.0 + (index / 8) as f32 * 140.0`.
pub open spec fn grid_row_y(index: nat) -> nat {
    f32_round_nat(f32_round_nat(f32_round_nat(index / 8) * 140) + 40)
}

/// For the first 2^16 slots the binary32 evaluation of the row's y is exact.
pub proof fn lemma_grid_row_exact(index: nat)
    requires
        index < 0x1_0000,
    ensures
        grid_row_y(index) == 40 + 140 * (index / 8),
{
    assert((index / 8) * 140 + 40 < 0x100_0000) by (nonlinear_arith)
        requires
            index < 0x1_0000,
    ;
    crate::ieee::lemma_f32_round_small(index / 8);
    crate::ieee::lemma_f32_round_small((index / 8) * 140);
    crate::ieee::lemma_f32_round_small((index / 8) * 140 + 40);
}

/// `pos` is the slot-`index` grid position of a new place: x = 40 + 140 * (index % 8).
pub open spec fn is_default_place_pos(pos: [F32Bits; 2], index: nat) -> bool {
    &&& f32_denotes_int(pos[0], (40 + (index % 8) * 140) as int)
    &&& f32_denotes_int(pos[1], grid_row_y(index) as int)
}

/// `pos` is the slot-`index` grid position of a new transition: x = 110 + 140 * (index % 8).
pub open spec fn is_default_transition_pos(pos: [F32Bits; 2], index: nat) -> bool {
    &&& f32_denotes_int(pos[0], (110 + (index % 8) * 140) as int)
    &&& f32_denotes_int(pos[1], grid_row_y(index) as int)
}

fn grid_y_bits(index: usize) -> (b: u32)
    ensures
        f32_denotes_int(b, grid_row_y(index as nat) as int),
{
    let row = (index / 8) as u128;
    let (_, r1) = f32_bits_of_nat_rounded(row);
    let (_, r2) = f32_bits_of_nat_rounded(r1 * 140);
    let (b, _) = f32_bits_of_nat_rounded(r2 + 40);
    b
}

/// Grid position of the `index`-th new place.
pub fn default_place_pos(index: usize) -> (pos: [F32Bits; 2])
    ensures
        is_default_place_pos(pos, index as nat),
{
    let x = f32_bits_of_int((40 + (index % 8) * 140) as i64);
    [x, grid_y_bits(index)]
}

/// Grid position of the `index`-th new transition.
pub fn default_transition_pos(index: usize) -> (pos: [F32Bits; 2])
    ensures
        is_default_transition_pos(pos, index as nat),
{
    let x = f32_bits_of_int((110 + (index % 8) * 140) as i64);
    [x, grid_y_bits(index)]
}

/// Every attribute of two places agrees except the id and the name.
pub open spec fn same_place_attrs(a: Place, b: Place) -> bool {
    &&& a.pos == b.pos
    &&& a.note == b.note
    &&& a.color == b.color
    &&& a.marker_label_position == b.marker_label_position
    &&& a.text_position == b.text_position
    &&& a.size == b.size
    &&& a.marker_color_on_pass == b.marker_color_on_pass
    &&& a.input_module == b.input_module
    &&& a.input_number == b.input_number
    &&& a.input_description == b.input_description
    &&& a.stochastic == b.stochastic
    &&& a.stochastic_seed == b.stochastic_seed
    &&& a.stats == b.stats
    &&& a.markov_highlight == b.markov_highlight
    &&& a.markov_placement == b.markov_placement
    &&& a.show_markov_model == b.show_markov_model
}

/// Every attribute of two transitions agrees except the id and the name.
pub open spec fn same_transition_attrs(a: Transition, b: Transition) -> bool {
    &&& a.pos == b.pos
    &&& a.note == b.note
    &&& a.color == b.color
    &&& a.label_position == b.label_position
    &&& a.text_position == b.text_position
    &&& a.size == b.size
    &&& a.angle_deg == b.angle_deg
}

/// The id that the node at position `i` keeps: its own, unless it is 0 or
/// already taken by an earlier node (`earlier`), in which case `i + 1`.
pub open spec fn fixed_id(id: u64, i: int, earlier: Seq<u64>) -> u64 {
    if id == 0 || earlier.contains(id) {
        (i + 1) as u64
    } else {
        id
    }
}

/// How many entries of `ids` are at most `id`: the 1-based rank of `id`
/// among the sorted ids, counting the last of equal ids.
pub open spec fn count_le(ids: Seq<u64>, id: u64) -> nat
    decreases ids.len(),
{
    if ids.len() == 0 {
        0
    } else {
        count_le(ids.drop_last(), id) + if ids.last() <= id {
            1nat
        } else {
            0nat
        }
    }
}

/// The automatic label of a node: `prefix` followed by the decimal number.
pub open spec fn auto_label(prefix: char, n: nat) -> Seq<char> {
    seq![prefix] + decimal(n)
}

/// A label `T<n>` (or `t<n>`) counts as an automatic transition name.
pub proof fn lemma_auto_label_is_auto(prefix: char, n: nat)
    requires
        prefix == 'T' || prefix == 't',
    ensures
        is_auto_name_spec(auto_label(prefix, n), seq!['T', 't']),
{
    let s = auto_label(prefix, n);
    lemma_decimal_digits(n);
    assert(s[0] == prefix);
    assert forall|i: int| 1 <= i < s.len() implies is_ascii_digit(#[trigger] s[i]) by {
        assert(s[i] == decimal(n)[i - 1]);
    }
    assert(trim_front(s, false) == s);
    assert(s.last() == decimal(n)[decimal(n).len() - 1]);
    assert(trim_back(s, false) == s);
    assert(seq!['T', 't'][0] == 'T');
    assert(seq!['T', 't'][1] == 't');
}

/// A `String` holding `prefix` and the decimal numeral of `n`.
pub fn make_label(prefix: char, n: u64) -> (s: String)
    ensures
        s@ == auto_label(prefix, n as nat),
{
    let mut s = String::new();
    push_char(&mut s, prefix);
    push_decimal(&mut s, n);
    proof {
        assert(Seq::<char>::empty().push(prefix) == seq![prefix]);
    }
    s
}

fn fix_place_ids(ps: &mut Vec<Place>)
    ensures
        final(ps)@.len() == old(ps)@.len(),
        forall|i: int|
            0 <= i < old(ps)@.len() ==> {
                &&& same_place_attrs(#[trigger] final(ps)@[i], old(ps)@[i])
                &&& final(ps)@[i].name == old(ps)@[i].name
                &&& final(ps)@[i].id == fixed_id(old(ps)@[i].id, i, place_ids(final(ps)@).take(i))
            },
{
    let ghost orig = ps@;
    let mut used: HashSet<u64> = HashSet::new();
    let mut i: usize = 0;
    while i < ps.len()
        invariant
            ps@.len() == orig.len(),
            i <= orig.len(),
            forall|x: u64| #[trigger] used@.contains(x) <==> place_ids(ps@).take(i as int).contains(x),
            forall|k: int|
                0 <= k < i ==> {
                    &&& same_place_attrs(#[trigger] ps@[k], orig[k])
                    &&& ps@[k].name == orig[k].name
                    &&& ps@[k].id == fixed_id(orig[k].id, k, place_ids(ps@).take(k))
                },
            forall|k: int| i <= k < orig.len() ==> #[trigger] ps@[k] == orig[k],
        decreases orig.len() - i,
    {
        let ghost before = ps@;
        let id = ps[i].id;
        let ghost earlier = place_ids(before).take(i as int);
        let taken = id == 0 || !used.insert(id);
        if taken {
            let nid = (i + 1) as u64;
            ps[i].id = nid;
            used.insert(nid);
        }
        proof {
            assert(place_ids(ps@).take(i as int) == earlier);
            assert forall|k: int| 0 <= k < i implies place_ids(ps@).take(k) == place_ids(before).take(k) by {
                assert(place_ids(ps@).take(k) =~= place_ids(before).take(k));
            }
            assert(ps@[i as int].id == fixed_id(orig[i as int].id, i as int, earlier));
            let post = place_ids(ps@).take(i + 1);
            assert(post == earlier.push(ps@[i as int].id));
            assert forall|x: u64| #[trigger] used@.contains(x) <==> post.contains(x) by {
                if earlier.contains(x) {
                    let j = choose|j: int| 0 <= j < earlier.len() && earlier[j] == x;
                    assert(post[j] == x);
                }
                if post.contains(x) && x != ps@[i as int].id {
                    let j = choose|j: int| 0 <= j < post.len() && post[j] == x;
                    assert(earlier[j] == x);
                }
                if x == ps@[i as int].id {
                    assert(post[i as int] == x);
                }
            }
        }
        i = i + 1;
    }
}

fn fix_transition_ids(ts: &mut Vec<Transition>)
    ensures
        final(ts)@.len() == old(ts)@.len(),
        forall|i: int|
            0 <= i < old(ts)@.len() ==> {
                &&& same_transition_attrs(#[trigger] final(ts)@[i], old(ts)@[i])
                &&& final(ts)@[i].name == old(ts)@[i].name
                &&& final(ts)@[i].id == fixed_id(old(ts)@[i].id, i, transition_ids(final(ts)@).take(i))
            },
{
    let ghost orig = ts@;
    let mut used: HashSet<u64> = HashSet::new();
    let mut i: usize = 0;
    while i < ts.len()
        invariant
            ts@.len() == orig.len(),
            i <= orig.len(),
            forall|x: u64| #[trigger] used@.contains(x) <==> transition_ids(ts@).take(i as int).contains(x),
            forall|k: int|
                0 <= k < i ==> {
                    &&& same_transition_attrs(#[trigger] ts@[k], orig[k])
                    &&& ts@[k].name == orig[k].name
                    &&& ts@[k].id == fixed_id(orig[k].id, k, transition_ids(ts@).take(k))
                },
            forall|k: int| i <= k < orig.len() ==> #[trigger] ts@[k] == orig[k],
        decreases orig.len() - i,
    {
        let ghost before = ts@;
        let id = ts[i].id;
        let ghost earlier = transition_ids(before).take(i as int);
        let taken = id == 0 || !used.insert(id);
        if taken {
            let nid = (i + 1) as u64;
            ts[i].id = nid;
            used.insert(nid);
        }
        proof {
            assert(transition_ids(ts@).take(i as int) == earlier);
            assert forall|k: int| 0 <= k < i implies transition_ids(ts@).take(k) == transition_ids(before).take(k) by {
                assert(transition_ids(ts@).take(k) =~= transition_ids(before).take(k));
            }
            let post = transition_ids(ts@).take(i + 1);
            assert(post == earlier.push(ts@[i as int].id));
            assert forall|x: u64| #[trigger] used@.contains(x) <==> post.contains(x) by {
                if earlier.contains(x) {
                    let j = choose|j: int| 0 <= j < earlier.len() && earlier[j] == x;
                    assert(post[j] == x);
                }
                if post.contains(x) && x != ts@[i as int].id {
                    let j = choose|j: int| 0 <= j < post.len() && post[j] == x;
                    assert(earlier[j] == x);
                }
                if x == ts@[i as int].id {
                    assert(post[i as int] == x);
                }
            }
        }
        i = i + 1;
    }
}

/// How many of `ids` are at most `id`.
fn count_at_most(ids: &Vec<u64>, id: u64) -> (n: usize)
    ensures
        n == count_le(ids@, id),
{
    let mut n: usize = 0;
    let mut i: usize = 0;
    while i < ids.len()
        invariant
            i <= ids@.len(),
            n == count_le(ids@.take(i as int), id),
            n <= i,
        decreases ids@.len() - i,
    {
        proof {
            assert(ids@.take(i + 1).drop_last() == ids@.take(i as int));
        }
        if ids[i] <= id {
            n = n + 1;
        }
        i = i + 1;
    }
    proof {
        assert(ids@.take(ids@.len() as int) == ids@);
    }
    n
}

fn name_places(ps: &mut Vec<Place>)
    ensures
        final(ps)@.len() == old(ps)@.len(),
        forall|i: int|
            0 <= i < old(ps)@.len() ==> {
                &&& same_place_attrs(#[trigger] final(ps)@[i], old(ps)@[i])
                &&& final(ps)@[i].id == old(ps)@[i].id
                &&& final(ps)@[i].name@ == (if old(ps)@[i].name@.len() == 0 {
                    auto_label('P', old(ps)@[i].id as nat)
                } else {
                    old(ps)@[i].name@
                })
            },
{
    let ghost orig = ps@;
    let mut i: usize = 0;
    while i < ps.len()
        invariant
            ps@.len() == orig.len(),
            i <= orig.len(),
            forall|k: int|
                0 <= k < i ==> {
                    &&& same_place_attrs(#[trigger] ps@[k], orig[k])
                    &&& ps@[k].id == orig[k].id
                    &&& ps@[k].name@ == (if orig[k].name@.len() == 0 {
                        auto_label('P', orig[k].id as nat)
                    } else {
                        orig[k].name@
                    })
                },
            forall|k: int| i <= k < orig.len() ==> #[trigger] ps@[k] == orig[k],
        decreases orig.len() - i,
    {
        if ps[i].name.as_str().is_empty() {
            let label = make_label('P', ps[i].id);
            ps[i].name = label;
        }
        i = i + 1;
    }
}

fn name_transitions(ts: &mut Vec<Transition>)
    ensures
        final(ts)@.len() == old(ts)@.len(),
        forall|i: int|
            0 <= i < old(ts)@.len() ==> {
                &&& same_transition_attrs(#[trigger] final(ts)@[i], old(ts)@[i])
                &&& final(ts)@[i].id == old(ts)@[i].id
                &&& final(ts)@[i].name@ == (if old(ts)@[i].name@.len() == 0 || is_auto_name_spec(
                    old(ts)@[i].name@,
                    seq!['T', 't'],
                ) {
                    auto_label('T', count_le(transition_ids(old(ts)@), old(ts)@[i].id))
                } else {
                    old(ts)@[i].name@
                })
            },
{
    let ghost orig = ts@;
    let ids = transition_id_vec(ts);
    let prefixes: [char; 2] = ['T', 't'];
    proof {
        assert(prefixes@ == seq!['T', 't']);
    }
    let mut i: usize = 0;
    while i < ts.len()
        invariant
            ts@.len() == orig.len(),
            i <= orig.len(),
            ids@ == transition_ids(orig),
            prefixes@ == seq!['T', 't'],
            forall|k: int|
                0 <= k < i ==> {
                    &&& same_transition_attrs(#[trigger] ts@[k], orig[k])
                    &&& ts@[k].id == orig[k].id
                    &&& ts@[k].name@ == (if orig[k].name@.len() == 0 || is_auto_name_spec(
                        orig[k].name@,
                        seq!['T', 't'],
                    ) {
                        auto_label('T', count_le(transition_ids(orig), orig[k].id))
                    } else {
                        orig[k].name@
                    })
                },
            forall|k: int| i <= k < orig.len() ==> #[trigger] ts@[k] == orig[k],
        decreases orig.len() - i,
    {
        let relabel = ts[i].name.as_str().is_empty() || is_auto_name(ts[i].name.as_str(), prefixes.as_slice());
        if relabel {
            let rank = count_at_most(&ids, ts[i].id);
            let label = make_label('T', rank as u64);
            ts[i].name = label;
        }
        i = i + 1;
    }
}

/// What `set_counts` makes of place slot `i`, given the places `old` before
/// and the ids of the places before slot `i` after.
pub open spec fn place_slot_ok(p: Place, old: Seq<Place>, i: int, earlier_ids: Seq<u64>) -> bool {
    let base_id: u64 = if i < old.len() { old[i].id } else { 0 };
    &&& p.id == fixed_id(base_id, i, earlier_ids)
    &&& if i < old.len() {
        &&& same_place_attrs(p, old[i])
        &&& p.name@ == (if old[i].name@.len() == 0 { auto_label('P', p.id as nat) } else { old[i].name@ })
    } else {
        &&& is_default_place(p, p.id, auto_label('P', p.id as nat), p.pos)
        &&& is_default_place_pos(p.pos, i as nat)
    }
}

/// What `set_counts` makes of transition slot `i`, given the transitions
/// `old` before, the ids before slot `i` after, and all ids after.
pub open spec fn transition_slot_ok(
    t: Transition,
    old: Seq<Transition>,
    i: int,
    earlier_ids: Seq<u64>,
    all_ids: Seq<u64>,
) -> bool {
    let base_id: u64 = if i < old.len() { old[i].id } else { 0 };
    let base_name: Seq<char> = if i < old.len() { old[i].name@ } else { Seq::empty() };
    &&& t.id == fixed_id(base_id, i, earlier_ids)
    &&& t.name@ == (if base_name.len() == 0 || is_auto_name_spec(base_name, seq!['T', 't']) {
        auto_label('T', count_le(all_ids, t.id))
    } else {
        base_name
    })
    &&& if i < old.len() {
        same_transition_attrs(t, old[i])
    } else {
        &&& is_default_transition(t, t.id, t.name@, t.pos)
        &&& is_default_transition_pos(t.pos, i as nat)
    }
}

impl PetriNetModel {
    /// Sets the number of places and transitions: cuts the lists or appends
    /// default nodes on the grid; gives every node whose id is 0 or taken by
    /// an earlier node the id `position + 1`; names unnamed places `P<id>` and
    /// unnamed or automatically named transitions `T<rank>` (rank of the id
    /// among all transition ids); then resizes the tables and rebuilds the
    /// matrices from the arcs.
    pub fn set_counts(&mut self, places: usize, transitions: usize)
        ensures
            final(self).format_version == old(self).format_version,
            final(self).meta == old(self).meta,
            final(self).ui == old(self).ui,
            final(self).places@.len() == places,
            forall|i: int|
                0 <= i < places ==> place_slot_ok(
                    #[trigger] final(self).places@[i],
                    old(self).places@,
                    i,
                    final(self).pids().take(i),
                ),
            final(self).transitions@.len() == transitions,
            forall|i: int|
                0 <= i < transitions ==> transition_slot_ok(
                    #[trigger] final(self).transitions@[i],
                    old(self).transitions@,
                    i,
                    final(self).tids().take(i),
                    final(self).tids(),
                ),
            final(self).vectors_resized_from(old(self).tables),
            final(self).tables.has_shape(places as nat, transitions as nat),
            final(self).matrices_match_arcs(),
            final(self).arcs@ == old(self).arcs@.filter(
                |a: Arc| arc_is_linked(a, final(self).pids(), final(self).tids()),
            ),
            final(self).inhibitor_arcs@ == old(self).inhibitor_arcs@.filter(
                |a: InhibitorArc| inhibitor_is_linked(a, final(self).pids(), final(self).tids()),
            ),
            ids_one_to_n(old(self).pids()) && ids_one_to_n(old(self).tids()) ==> {
                &&& ids_distinct_nonzero(final(self).pids())
                &&& ids_distinct_nonzero(final(self).tids())
                &&& places >= old(self).places@.len() ==> ids_one_to_n(final(self).pids())
                &&& transitions >= old(self).transitions@.len() ==> ids_one_to_n(final(self).tids())
            },
    {
        let ghost before = *self;
        let mut ps: Vec<Place> = Vec::new();
        std::mem::swap(&mut ps, &mut self.places);
        let ghost old_ps = ps@;
        let old_places = ps.len();
        if places >= old_places {
            let mut index = old_places;
            while index < places
                invariant
                    old_places <= index <= places,
                    old_places == old_ps.len(),
                    ps@.len() == index,
                    forall|k: int| 0 <= k < old_places ==> #[trigger] ps@[k] == old_ps[k],
                    forall|k: int|
                        old_places <= k < index ==> is_default_place(
                            #[trigger] ps@[k],
                            0,
                            Seq::empty(),
                            ps@[k].pos,
                        ) && is_default_place_pos(ps@[k].pos, k as nat),
                decreases places - index,
            {
                let pos = default_place_pos(index);
                ps.push(Place::new_default(0, String::new(), pos));
                index = index + 1;
            }
        } else {
            ps.truncate(places);
        }
        let ghost grown_ps = ps@;
        fix_place_ids(&mut ps);
        let ghost fixed_ps = ps@;
        name_places(&mut ps);
        proof {
            assert(place_ids(ps@) == place_ids(fixed_ps));
            assert forall|i: int| 0 <= i < places implies place_slot_ok(
                #[trigger] ps@[i],
                old_ps,
                i,
                place_ids(ps@).take(i),
            ) by {
                if i >= old_ps.len() {
                    assert(grown_ps[i].id == 0);
                    assert(fixed_ps[i].id == (i + 1) as u64);
                }
            }
        }
        self.places = ps;

        let mut ts: Vec<Transition> = Vec::new();
        std::mem::swap(&mut ts, &mut self.transitions);
        let ghost old_ts = ts@;
        let old_transitions = ts.len();
        if transitions >= old_transitions {
            let mut index = old_transitions;
            while index < transitions
                invariant
                    old_transitions <= index <= transitions,
                    old_transitions == old_ts.len(),
                    ts@.len() == index,
                    forall|k: int| 0 <= k < old_transitions ==> #[trigger] ts@[k] == old_ts[k],
                    forall|k: int|
                        old_transitions <= k < index ==> is_default_transition(
                            #[trigger] ts@[k],
                            0,
                            Seq::empty(),
                            ts@[k].pos,
                        ) && is_default_transition_pos(ts@[k].pos, k as nat),
                decreases transitions - index,
            {
                let pos = default_transition_pos(index);
                ts.push(Transition::new_default(0, String::new(), pos));
                index = index + 1;
            }
        } else {
            ts.truncate(transitions);
        }
        let ghost grown_ts = ts@;
        fix_transition_ids(&mut ts);
        let ghost fixed_ts = ts@;
        name_transitions(&mut ts);
        proof {
            assert(transition_ids(ts@) == transition_ids(fixed_ts));
            assert forall|i: int| 0 <= i < transitions implies transition_slot_ok(
                #[trigger] ts@[i],
                old_ts,
                i,
                transition_ids(ts@).take(i),
                transition_ids(ts@),
            ) by {
                if i >= old_ts.len() {
                    assert(grown_ts[i].id == 0);
                    assert(fixed_ts[i].id == (i + 1) as u64);
                    assert(grown_ts[i].name@.len() == 0);
                } else {
                    assert(grown_ts[i] == old_ts[i]);
                }
            }
        }
        self.transitions = ts;
        let ghost tables0 = self.tables;
        self.tables.resize(places, transitions);
        let ghost tables1 = self.tables;
        self.rebuild_matrices_from_arcs();
        proof {
            assert(self.tables.m0@ =~= resized(tables0.m0@, places as nat, 0u32));
            assert(self.tables.mo@ =~= resized(tables0.mo@, places as nat, Some(1u32)));
            assert(self.tables.mz@ =~= resized(tables0.mz@, places as nat, 0u64));
            assert(self.tables.mpr@ =~= resized(tables0.mpr@, transitions as nat, 0i32));
            if ids_one_to_n(before.pids()) && ids_one_to_n(before.tids()) {
                lemma_set_counts_ids(before, *self, places, transitions);
            }
        }
    }
}

/// The largest of `ids`, or 0 for none.
pub open spec fn max_id(ids: Seq<u64>) -> u64
    decreases ids.len(),
{
    if ids.len() == 0 {
        0
    } else {
        let m = max_id(ids.drop_last());
        if ids.last() > m {
            ids.last()
        } else {
            m
        }
    }
}

/// `max_id` bounds every id, and is one of them when there is any.
pub proof fn lemma_max_id(ids: Seq<u64>)
    ensures
        forall|i: int| 0 <= i < ids.len() ==> ids[i] <= max_id(ids),
        ids.len() > 0 ==> ids.contains(max_id(ids)),
    decreases ids.len(),
{
    if ids.len() > 0 {
        lemma_max_id(ids.drop_last());
        assert forall|i: int| 0 <= i < ids.len() implies ids[i] <= max_id(ids) by {
            if i < ids.len() - 1 {
                assert(ids.drop_last()[i] == ids[i]);
            }
        }
        if ids.len() > 1 && ids.last() <= max_id(ids.drop_last()) {
            let k = choose|k: int| 0 <= k < ids.len() - 1 && ids.drop_last()[k] == max_id(ids.drop_last());
            assert(ids[k] == max_id(ids));
        } else {
            assert(ids[ids.len() - 1] == max_id(ids));
        }
    }
}

/// The largest of `ids`, or 0 for none.
fn max_of(ids: &Vec<u64>) -> (m: u64)
    ensures
        m == max_id(ids@),
{
    let mut m: u64 = 0;
    let mut i: usize = 0;
    while i < ids.len()
        invariant
            i <= ids@.len(),
            m == max_id(ids@.take(i as int)),
        decreases ids@.len() - i,
    {
        proof {
            assert(ids@.take(i + 1).drop_last() == ids@.take(i as int));
        }
        if ids[i] > m {
            m = ids[i];
        }
        i = i + 1;
    }
    proof {
        assert(ids@.take(ids@.len() as int) == ids@);
    }
    m
}

/// The ids of a sequence of arcs, in order.
pub open spec fn arc_ids(arcs: Seq<Arc>) -> Seq<u64> {
    Seq::new(arcs.len(), |i: int| arcs[i].id)
}

/// The ids of a sequence of inhibitor arcs, in order.
pub open spec fn inhibitor_ids(inhs: Seq<InhibitorArc>) -> Seq<u64> {
    Seq::new(inhs.len(), |i: int| inhs[i].id)
}

fn arc_id_vec(arcs: &Vec<Arc>) -> (v: Vec<u64>)
    ensures
        v@ == arc_ids(arcs@),
{
    let mut v: Vec<u64> = Vec::new();
    let mut i: usize = 0;
    while i < arcs.len()
        invariant
            i <= arcs@.len(),
            v@ == arc_ids(arcs@).take(i as int),
        decreases arcs@.len() - i,
    {
        v.push(arcs[i].id);
        proof {
            assert(arc_ids(arcs@).take(i + 1) == arc_ids(arcs@).take(i as int).push(arcs@[i as int].id));
        }
        i = i + 1;
    }
    proof {
        assert(arc_ids(arcs@).take(arcs@.len() as int) == arc_ids(arcs@));
    }
    v
}

fn inhibitor_id_vec(inhs: &Vec<InhibitorArc>) -> (v: Vec<u64>)
    ensures
        v@ == inhibitor_ids(inhs@),
{
    let mut v: Vec<u64> = Vec::new();
    let mut i: usize = 0;
    while i < inhs.len()
        invariant
            i <= inhs@.len(),
            v@ == inhibitor_ids(inhs@).take(i as int),
        decreases inhs@.len() - i,
    {
        v.push(inhs[i].id);
        proof {
            assert(inhibitor_ids(inhs@).take(i + 1) == inhibitor_ids(inhs@).take(i as int).push(
                inhs@[i as int].id,
            ));
        }
        i = i + 1;
    }
    proof {
        assert(inhibitor_ids(inhs@).take(inhs@.len() as int) == inhibitor_ids(inhs@));
    }
    v
}

/// The largest id among the arcs and inhibitor arcs together.
pub open spec fn max_arc_id(arcs: Seq<Arc>, inhs: Seq<InhibitorArc>) -> u64 {
    let a = max_id(arc_ids(arcs));
    let b = max_id(inhibitor_ids(inhs));
    if a > b {
        a
    } else {
        b
    }
}

/// The arc that `add_arc` appends.
pub open spec fn new_arc(id: u64, from: NodeRef, to: NodeRef, weight: u32) -> Arc {
    Arc {
        id,
        from,
        to,
        weight: at_least_one(weight),
        color: NodeColor::Default,
        visible: true,
        show_weight: false,
    }
}

/// The inhibitor arc that `add_inhibitor_arc` appends.
pub open spec fn new_inhibitor(id: u64, place_id: u64, transition_id: u64, threshold: u32) -> InhibitorArc {
    InhibitorArc {
        id,
        place_id,
        transition_id,
        threshold: at_least_one(threshold),
        show_weight: false,
        color: NodeColor::Red,
        visible: true,
    }
}

/// One end is a place and the other a transition.
pub open spec fn joins_place_and_transition(from: NodeRef, to: NodeRef) -> bool {
    ||| (from is Place && to is Transition)
    ||| (from is Transition && to is Place)
}

/// `new` is `old` with its arcs replaced by `arcs` and its inhibitor arcs by
/// `inhs`, after `rebuild_matrices_from_arcs`.
pub open spec fn rebuilt_with(new: PetriNetModel, old: PetriNetModel, arcs: Seq<Arc>, inhs: Seq<InhibitorArc>) -> bool {
    &&& new.format_version == old.format_version
    &&& new.meta == old.meta
    &&& new.ui == old.ui
    &&& new.places == old.places
    &&& new.transitions == old.transitions
    &&& new.arcs@ == arcs.filter(|a: Arc| arc_is_linked(a, old.pids(), old.tids()))
    &&& new.inhibitor_arcs@ == inhs.filter(|a: InhibitorArc| inhibitor_is_linked(a, old.pids(), old.tids()))
    &&& new.vectors_resized_from(old.tables)
    &&& new.tables.has_shape(old.places@.len(), old.transitions@.len())
    &&& new.matrices_match_arcs()
}

/// What `add_place` makes of the new place: the default place named
/// `P<count + 1>` at `pos`, with the id that `set_counts` gives it.
pub open spec fn added_place_ok(p: Place, id: u64, count: nat, pos: [F32Bits; 2], earlier_ids: Seq<u64>) -> bool {
    &&& p.id == fixed_id(id, count as int, earlier_ids)
    &&& is_default_place(p, p.id, auto_label('P', count + 1), pos)
}

/// What `add_transition` makes of the new transition: the default transition
/// at `pos` with the id that `set_counts` gives it; its label `T<count + 1>`
/// is automatic, so it is renamed after its rank like the others.
pub open spec fn added_transition_ok(
    t: Transition,
    id: u64,
    count: nat,
    pos: [F32Bits; 2],
    earlier_ids: Seq<u64>,
    all_ids: Seq<u64>,
) -> bool {
    &&& t.id == fixed_id(id, count as int, earlier_ids)
    &&& is_default_transition(t, t.id, auto_label('T', count_le(all_ids, t.id)), pos)
}

impl PetriNetModel {
    /// Adds a default place at `pos` with the next free id (one past the
    /// largest) and the name `P<n>` for the `n`-th place, then normalises the
    /// net with `set_counts`.
    pub fn add_place(&mut self, pos: [F32Bits; 2])
        requires
            max_id(old(self).pids()) < u64::MAX,
            old(self).places@.len() < usize::MAX,
        ensures
            final(self).format_version == old(self).format_version,
            final(self).meta == old(self).meta,
            final(self).ui == old(self).ui,
            final(self).places@.len() == old(self).places@.len() + 1,
            forall|i: int|
                0 <= i < old(self).places@.len() ==> place_slot_ok(
                    #[trigger] final(self).places@[i],
                    old(self).places@,
                    i,
                    final(self).pids().take(i),
                ),
            added_place_ok(
                final(self).places@[old(self).places@.len() as int],
                (max_id(old(self).pids()) + 1) as u64,
                old(self).places@.len() as nat,
                pos,
                final(self).pids().take(old(self).places@.len() as int),
            ),
            final(self).transitions@.len() == old(self).transitions@.len(),
            forall|i: int|
                0 <= i < old(self).transitions@.len() ==> transition_slot_ok(
                    #[trigger] final(self).transitions@[i],
                    old(self).transitions@,
                    i,
                    final(self).tids().take(i),
                    final(self).tids(),
                ),
            final(self).vectors_resized_from(old(self).tables),
            final(self).tables.has_shape(final(self).places@.len(), final(self).transitions@.len()),
            final(self).matrices_match_arcs(),
            final(self).arcs@ == old(self).arcs@.filter(
                |a: Arc| arc_is_linked(a, final(self).pids(), final(self).tids()),
            ),
            final(self).inhibitor_arcs@ == old(self).inhibitor_arcs@.filter(
                |a: InhibitorArc| inhibitor_is_linked(a, final(self).pids(), final(self).tids()),
            ),
    {
        let ids = place_id_vec(&self.places);
        let id = max_of(&ids) + 1;
        let idx = self.places.len();
        let name = make_label('P', idx as u64 + 1);
        let ghost old_ps = self.places@;
        let p = Place::new_default(id, name, pos);
        self.places.push(p);
        proof {
            assert(self.places@ == old_ps.push(p));
        }
        let np = self.places.len();
        let nt = self.transitions.len();
        self.set_counts(np, nt);
        proof {
            assert forall|i: int| 0 <= i < old_ps.len() implies place_slot_ok(
                #[trigger] self.places@[i],
                old_ps,
                i,
                self.pids().take(i),
            ) by {
                assert(place_slot_ok(self.places@[i], old_ps.push(p), i, self.pids().take(i)));
                assert(old_ps.push(p)[i] == old_ps[i]);
            }
            let n = old_ps.len() as int;
            assert(place_slot_ok(self.places@[n], old_ps.push(p), n, self.pids().take(n)));
            assert(old_ps.push(p)[n] == p);
        }
    }

    /// Adds a default transition at `pos` with the next free id (one past the
    /// largest) and the name `T<n>` for the `n`-th transition, then
    /// normalises the net with `set_counts`.
    pub fn add_transition(&mut self, pos: [F32Bits; 2])
        requires
            max_id(old(self).tids()) < u64::MAX,
            old(self).transitions@.len() < usize::MAX,
        ensures
            final(self).format_version == old(self).format_version,
            final(self).meta == old(self).meta,
            final(self).ui == old(self).ui,
            final(self).places@.len() == old(self).places@.len(),
            forall|i: int|
                0 <= i < old(self).places@.len() ==> place_slot_ok(
                    #[trigger] final(self).places@[i],
                    old(self).places@,
                    i,
                    final(self).pids().take(i),
                ),
            final(self).transitions@.len() == old(self).transitions@.len() + 1,
            forall|i: int|
                0 <= i < old(self).transitions@.len() ==> transition_slot_ok(
                    #[trigger] final(self).transitions@[i],
                    old(self).transitions@,
                    i,
                    final(self).tids().take(i),
                    final(self).tids(),
                ),
            added_transition_ok(
                final(self).transitions@[old(self).transitions@.len() as int],
                (max_id(old(self).tids()) + 1) as u64,
                old(self).transitions@.len() as nat,
                pos,
                final(self).tids().take(old(self).transitions@.len() as int),
                final(self).tids(),
            ),
            final(self).vectors_resized_from(old(self).tables),
            final(self).tables.has_shape(final(self).places@.len(), final(self).transitions@.len()),
            final(self).matrices_match_arcs(),
            final(self).arcs@ == old(self).arcs@.filter(
                |a: Arc| arc_is_linked(a, final(self).pids(), final(self).tids()),
            ),
            final(self).inhibitor_arcs@ == old(self).inhibitor_arcs@.filter(
                |a: InhibitorArc| inhibitor_is_linked(a, final(self).pids(), final(self).tids()),
            ),
    {
        let ids = transition_id_vec(&self.transitions);
        let id = max_of(&ids) + 1;
        let idx = self.transitions.len();
        let name = make_label('T', idx as u64 + 1);
        let ghost old_ts = self.transitions@;
        let t = Transition::new_default(id, name, pos);
        proof {
            assert(is_auto_name_spec(t.name@, seq!['T', 't'])) by {
                lemma_auto_label_is_auto('T', (idx + 1) as nat);
            }
        }
        self.transitions.push(t);
        proof {
            assert(self.transitions@ == old_ts.push(t));
        }
        let np = self.places.len();
        let nt = self.transitions.len();
        self.set_counts(np, nt);
        proof {
            assert forall|i: int| 0 <= i < old_ts.len() implies transition_slot_ok(
                #[trigger] self.transitions@[i],
                old_ts,
                i,
                self.tids().take(i),
                self.tids(),
            ) by {
                assert(transition_slot_ok(self.transitions@[i], old_ts.push(t), i, self.tids().take(i), self.tids()));
                assert(old_ts.push(t)[i] == old_ts[i]);
            }
            let n = old_ts.len() as int;
            assert(transition_slot_ok(self.transitions@[n], old_ts.push(t), n, self.tids().take(n), self.tids()));
            assert(old_ts.push(t)[n] == t);
        }
    }
}

impl PetriNetModel {
    /// Adds an arc between a place and a transition (either way) with the
    /// next free arc id and the weight raised to at least 1, then rebuilds
    /// the matrices; an arc between two places or two transitions is ignored.
    pub fn add_arc(&mut self, from: NodeRef, to: NodeRef, weight: u32)
        requires
            joins_place_and_transition(from, to) ==> max_arc_id(
                old(self).arcs@,
                old(self).inhibitor_arcs@,
            ) < u64::MAX,
        ensures
            joins_place_and_transition(from, to) ==> rebuilt_with(
                *final(self),
                *old(self),
                old(self).arcs@.push(
                    new_arc(
                        (max_arc_id(old(self).arcs@, old(self).inhibitor_arcs@) + 1) as u64,
                        from,
                        to,
                        weight,
                    ),
                ),
                old(self).inhibitor_arcs@,
            ),
            !joins_place_and_transition(from, to) ==> *final(self) == *old(self),
    {
        let bipartite = match (from, to) {
            (NodeRef::Place(_), NodeRef::Transition(_)) => true,
            (NodeRef::Transition(_), NodeRef::Place(_)) => true,
            _ => false,
        };
        if bipartite {
            let id = self.next_arc_id();
            let a = Arc {
                id,
                from,
                to,
                weight: if weight == 0 { 1 } else { weight },
                color: NodeColor::Default,
                visible: true,
                show_weight: false,
            };
            let ghost before = *self;
            self.arcs.push(a);
            self.rebuild_matrices_from_arcs();
            proof {
                assert(a == new_arc(id, from, to, weight));
            }
        }
    }

    /// One past the largest id of an arc or an inhibitor arc.
    fn next_arc_id(&self) -> (id: u64)
        requires
            max_arc_id(self.arcs@, self.inhibitor_arcs@) < u64::MAX,
        ensures
            id == max_arc_id(self.arcs@, self.inhibitor_arcs@) + 1,
    {
        let a = max_of(&arc_id_vec(&self.arcs));
        let b = max_of(&inhibitor_id_vec(&self.inhibitor_arcs));
        if a > b {
            a + 1
        } else {
            b + 1
        }
    }

    /// Adds an inhibitor arc from an existing place to an existing transition
    /// with the next free arc id and the threshold raised to at least 1, then
    /// rebuilds the matrices; nothing happens when either end is missing.
    pub fn add_inhibitor_arc(&mut self, place_id: u64, transition_id: u64, threshold: u32)
        requires
            old(self).pids().contains(place_id) && old(self).tids().contains(transition_id)
                ==> max_arc_id(old(self).arcs@, old(self).inhibitor_arcs@) < u64::MAX,
        ensures
            old(self).pids().contains(place_id) && old(self).tids().contains(transition_id)
                ==> rebuilt_with(
                *final(self),
                *old(self),
                old(self).arcs@,
                old(self).inhibitor_arcs@.push(
                    new_inhibitor(
                        (max_arc_id(old(self).arcs@, old(self).inhibitor_arcs@) + 1) as u64,
                        place_id,
                        transition_id,
                        threshold,
                    ),
                ),
            ),
            !(old(self).pids().contains(place_id) && old(self).tids().contains(transition_id))
                ==> *final(self) == *old(self),
    {
        let pids = place_id_vec(&self.places);
        let tids = transition_id_vec(&self.transitions);
        let has_place = contains_id(&pids, place_id);
        let has_transition = contains_id(&tids, transition_id);
        if has_place && has_transition {
            let id = self.next_arc_id();
            let a = InhibitorArc {
                id,
                place_id,
                transition_id,
                threshold: if threshold == 0 { 1 } else { threshold },
                show_weight: false,
                color: NodeColor::Red,
                visible: true,
            };
            self.inhibitor_arcs.push(a);
            self.rebuild_matrices_from_arcs();
            proof {
                assert(a == new_inhibitor(id, place_id, transition_id, threshold));
            }
        }
    }
}

/// Whether `id` occurs in `ids`.
fn contains_id(ids: &Vec<u64>, id: u64) -> (r: bool)
    ensures
        r == ids@.contains(id),
{
    let mut i: usize = 0;
    while i < ids.len()
        invariant
            i <= ids@.len(),
            forall|k: int| 0 <= k < i ==> ids@[k] != id,
        decreases ids@.len() - i,
    {
        if ids[i] == id {
            return true;
        }
        i = i + 1;
    }
    false
}

/// An arc that `rebuild_arcs_from_matrices` writes for a table entry.
pub open spec fn table_arc(id: u64, from: NodeRef, to: NodeRef, weight: u32) -> Arc {
    Arc { id, from, to, weight, color: NodeColor::Default, visible: true, show_weight: false }
}

/// An inhibitor arc that `rebuild_arcs_from_matrices` writes for a table entry.
pub open spec fn table_inhibitor(id: u64, place_id: u64, transition_id: u64, threshold: u32) -> InhibitorArc {
    InhibitorArc {
        id,
        place_id,
        transition_id,
        threshold,
        show_weight: false,
        color: NodeColor::Red,
        visible: true,
    }
}

/// The id after `id`, staying at `u64::MAX`.
pub open spec fn next_id_after(id: u64) -> u64 {
    if id == u64::MAX {
        id
    } else {
        (id + 1) as u64
    }
}

/// Arcs, inhibitor arcs and next id written so far.
pub type ArcsWritten = (Seq<Arc>, Seq<InhibitorArc>, u64);

/// Writes the arcs of one (place, transition) cell: a consuming arc for a
/// positive `pre`, then a producing arc for a positive `post`, then an
/// inhibitor arc for a positive `inh`, each taking the next id.
pub open spec fn cell_arcs(st: ArcsWritten, pid: u64, tid: u64, pre: u32, post: u32, inh: u32) -> ArcsWritten {
    let a1 = if pre > 0 {
        st.0.push(table_arc(st.2, NodeRef::Place(pid), NodeRef::Transition(tid), pre))
    } else {
        st.0
    };
    let n1 = if pre > 0 { next_id_after(st.2) } else { st.2 };
    let a2 = if post > 0 {
        a1.push(table_arc(n1, NodeRef::Transition(tid), NodeRef::Place(pid), post))
    } else {
        a1
    };
    let n2 = if post > 0 { next_id_after(n1) } else { n1 };
    if inh > 0 {
        (a2, st.1.push(table_inhibitor(n2, pid, tid, inh)), next_id_after(n2))
    } else {
        (a2, st.1, n2)
    }
}

/// The cells `0..t` of place row `p`, written after `st`.
pub open spec fn row_arcs(st: ArcsWritten, tables: Tables, pids: Seq<u64>, tids: Seq<u64>, p: int, t: nat) -> ArcsWritten
    decreases t,
{
    if t == 0 {
        st
    } else {
        let k = (t - 1) as int;
        cell_arcs(
            row_arcs(st, tables, pids, tids, p, (t - 1) as nat),
            pids[p],
            tids[k],
            tables.pre@[p]@[k],
            tables.post@[p]@[k],
            tables.inhibitor@[p]@[k],
        )
    }
}

/// The arcs of place rows `0..p`, row by row, ids counting from 1.
pub open spec fn table_arcs(tables: Tables, pids: Seq<u64>, tids: Seq<u64>, p: nat) -> ArcsWritten
    decreases p,
{
    if p == 0 {
        (Seq::empty(), Seq::empty(), 1u64)
    } else {
        row_arcs(table_arcs(tables, pids, tids, (p - 1) as nat), tables, pids, tids, p - 1, tids.len())
    }
}

/// Every entry of the first `rows` rows and `cols` columns of `m` exists.
pub open spec fn covers(m: Seq<Vec<u32>>, rows: nat, cols: nat) -> bool {
    cols > 0 ==> {
        &&& rows <= m.len()
        &&& forall|p: int| 0 <= p < rows ==> cols <= (#[trigger] m[p])@.len()
    }
}

impl PetriNetModel {
    /// Replaces the arcs and inhibitor arcs by those that the `Pre`, `Post`
    /// and inhibitor tables describe, place row by place row and transition
    /// column by column, numbered from 1.
    pub fn rebuild_arcs_from_matrices(&mut self)
        requires
            covers(old(self).tables.pre@, old(self).places@.len(), old(self).transitions@.len()),
            covers(old(self).tables.post@, old(self).places@.len(), old(self).transitions@.len()),
            covers(old(self).tables.inhibitor@, old(self).places@.len(), old(self).transitions@.len()),
        ensures
            final(self).format_version == old(self).format_version,
            final(self).meta == old(self).meta,
            final(self).ui == old(self).ui,
            final(self).places == old(self).places,
            final(self).transitions == old(self).transitions,
            final(self).tables == old(self).tables,
            final(self).arcs@ == table_arcs(
                old(self).tables,
                old(self).pids(),
                old(self).tids(),
                old(self).places@.len(),
            ).0,
            final(self).inhibitor_arcs@ == table_arcs(
                old(self).tables,
                old(self).pids(),
                old(self).tids(),
                old(self).places@.len(),
            ).1,
    {
        let pids = place_id_vec(&self.places);
        let tids = transition_id_vec(&self.transitions);
        let ghost tables = self.tables;
        let mut arcs: Vec<Arc> = Vec::new();
        let mut inhs: Vec<InhibitorArc> = Vec::new();
        let mut next_id: u64 = 1;
        let mut pi: usize = 0;
        while pi < pids.len()
            invariant
                pi <= pids@.len(),
                pids@.len() == self.places@.len(),
                tids@.len() == self.transitions@.len(),
                tables == self.tables,
                covers(self.tables.pre@, pids@.len(), tids@.len()),
                covers(self.tables.post@, pids@.len(), tids@.len()),
                covers(self.tables.inhibitor@, pids@.len(), tids@.len()),
                arcs@ == table_arcs(tables, pids@, tids@, pi as nat).0,
                inhs@ == table_arcs(tables, pids@, tids@, pi as nat).1,
                next_id == table_arcs(tables, pids@, tids@, pi as nat).2,
            decreases pids@.len() - pi,
        {
            let ghost row_start = table_arcs(tables, pids@, tids@, pi as nat);
            let mut ti: usize = 0;
            while ti < tids.len()
                invariant
                    pi < pids@.len(),
                    ti <= tids@.len(),
                    tables == self.tables,
                    covers(self.tables.pre@, pids@.len(), tids@.len()),
                    covers(self.tables.post@, pids@.len(), tids@.len()),
                    covers(self.tables.inhibitor@, pids@.len(), tids@.len()),
                    arcs@ == row_arcs(row_start, tables, pids@, tids@, pi as int, ti as nat).0,
                    inhs@ == row_arcs(row_start, tables, pids@, tids@, pi as int, ti as nat).1,
                    next_id == row_arcs(row_start, tables, pids@, tids@, pi as int, ti as nat).2,
                decreases tids@.len() - ti,
            {
                proof {
                    assert(covers(self.tables.pre@, pids@.len(), tids@.len()));
                    let _ = self.tables.pre@[pi as int];
                    let _ = self.tables.post@[pi as int];
                    let _ = self.tables.inhibitor@[pi as int];
                }
                let pre = self.tables.pre[pi][ti];
                let post = self.tables.post[pi][ti];
                let inh = self.tables.inhibitor[pi][ti];
                let pid = pids[pi];
                let tid = tids[ti];
                if pre > 0 {
                    arcs.push(
                        Arc {
                            id: next_id,
                            from: NodeRef::Place(pid),
                            to: NodeRef::Transition(tid),
                            weight: pre,
                            color: NodeColor::Default,
                            visible: true,
                            show_weight: false,
                        },
                    );
                    next_id = next_id.saturating_add(1);
                }
                if post > 0 {
                    arcs.push(
                        Arc {
                            id: next_id,
                            from: NodeRef::Transition(tid),
                            to: NodeRef::Place(pid),
                            weight: post,
                            color: NodeColor::Default,
                            visible: true,
                            show_weight: false,
                        },
                    );
                    next_id = next_id.saturating_add(1);
                }
                if inh > 0 {
                    inhs.push(
                        InhibitorArc {
                            id: next_id,
                            place_id: pid,
                            transition_id: tid,
                            threshold: inh,
                            show_weight: false,
                            color: NodeColor::Red,
                            visible: true,
                        },
                    );
                    next_id = next_id.saturating_add(1);
                }
                ti = ti + 1;
            }
            pi = pi + 1;
        }
        self.arcs = arcs;
        self.inhibitor_arcs = inhs;
    }
}


/// No id occurs twice.
pub open spec fn distinct_ids(ids: Seq<u64>) -> bool {
    forall|i: int, j: int| 0 <= i < j < ids.len() ==> ids[i] != ids[j]
}

proof fn lemma_last_index_distinct(ids: Seq<u64>, k: int)
    requires
        distinct_ids(ids),
        0 <= k < ids.len(),
    ensures
        last_index(ids, ids[k]) == k,
{
    lemma_last_index(ids, ids[k]);
    let li = last_index(ids, ids[k]);
    assert(ids.contains(ids[k]));
    if li < k {
        assert(ids[k] != ids[k]);
    } else if li > k {
        assert(ids[k] != ids[li]);
    }
}

proof fn lemma_link_push(arcs: Seq<Arc>, a: Arc, pids: Seq<u64>, tids: Seq<u64>, p: int, t: int, p2t: bool)
    ensures
        link_weight(arcs.push(a), pids, tids, p, t, p2t) == link_weight(arcs, pids, tids, p, t, p2t) + if arc_hits(
            a,
            pids,
            tids,
            p,
            t,
            p2t,
        ) {
            at_least_one(a.weight) as nat
        } else {
            0
        },
{
    assert(arcs.push(a).drop_last() == arcs);
}

proof fn lemma_inhibitor_push(inhs: Seq<InhibitorArc>, a: InhibitorArc, pids: Seq<u64>, tids: Seq<u64>, p: int, t: int)
    ensures
        inhibitor_entry(inhs.push(a), pids, tids, p, t) == if last_index(pids, a.place_id) == p && last_index(
            tids,
            a.transition_id,
        ) == t {
            at_least_one(a.threshold)
        } else {
            inhibitor_entry(inhs, pids, tids, p, t)
        },
{
    assert(inhs.push(a).drop_last() == inhs);
}

/// What the table entry at row `p` and column `t` gives a rebuilt net:
/// the weight of the consuming (`p2t`) or producing arc.
pub open spec fn table_weight(tables: Tables, p: int, t: int, p2t: bool) -> nat {
    if p2t {
        tables.pre@[p]@[t] as nat
    } else {
        tables.post@[p]@[t] as nat
    }
}

proof fn lemma_row_links(
    st: ArcsWritten,
    tables: Tables,
    pids: Seq<u64>,
    tids: Seq<u64>,
    q: int,
    n: nat,
    p: int,
    t: int,
)
    requires
        distinct_ids(pids),
        distinct_ids(tids),
        0 <= q < pids.len(),
        n <= tids.len(),
        0 <= p < pids.len(),
        0 <= t < tids.len(),
    ensures
        forall|p2t: bool|
            #[trigger] link_weight(row_arcs(st, tables, pids, tids, q, n).0, pids, tids, p, t, p2t) == link_weight(
                st.0,
                pids,
                tids,
                p,
                t,
                p2t,
            ) + if q == p && t < n {
                table_weight(tables, p, t, p2t)
            } else {
                0
            },
        inhibitor_entry(row_arcs(st, tables, pids, tids, q, n).1, pids, tids, p, t) == if q == p && t < n
            && tables.inhibitor@[p]@[t] > 0 {
            tables.inhibitor@[p]@[t]
        } else {
            inhibitor_entry(st.1, pids, tids, p, t)
        },
    decreases n,
{
    if n > 0 {
        let k = n - 1;
        lemma_row_links(st, tables, pids, tids, q, (n - 1) as nat, p, t);
        let prev = row_arcs(st, tables, pids, tids, q, (n - 1) as nat);
        let pid = pids[q];
        let tid = tids[k];
        let pre = tables.pre@[q]@[k];
        let post = tables.post@[q]@[k];
        let inh = tables.inhibitor@[q]@[k];
        lemma_last_index_distinct(pids, q);
        lemma_last_index_distinct(tids, k);
        let a1 = table_arc(prev.2, NodeRef::Place(pid), NodeRef::Transition(tid), pre);
        let n1 = if pre > 0 { next_id_after(prev.2) } else { prev.2 };
        let s1 = if pre > 0 { prev.0.push(a1) } else { prev.0 };
        let a2 = table_arc(n1, NodeRef::Transition(tid), NodeRef::Place(pid), post);
        let n2 = if post > 0 { next_id_after(n1) } else { n1 };
        assert forall|p2t: bool|
            #[trigger] link_weight(row_arcs(st, tables, pids, tids, q, n).0, pids, tids, p, t, p2t) == link_weight(
                st.0,
                pids,
                tids,
                p,
                t,
                p2t,
            ) + if q == p && t < n {
                table_weight(tables, p, t, p2t)
            } else {
                0
            } by {
            assert(link_weight(prev.0, pids, tids, p, t, p2t) == link_weight(st.0, pids, tids, p, t, p2t) + if q == p
                && t < n - 1 {
                table_weight(tables, p, t, p2t)
            } else {
                0
            });
            if pre > 0 {
                lemma_link_push(prev.0, a1, pids, tids, p, t, p2t);
            }
            if post > 0 {
                lemma_link_push(s1, a2, pids, tids, p, t, p2t);
            }
        }
        if inh > 0 {
            lemma_inhibitor_push(prev.1, table_inhibitor(n2, pid, tid, inh), pids, tids, p, t);
        }
    }
}

proof fn lemma_table_links(tables: Tables, pids: Seq<u64>, tids: Seq<u64>, rows: nat, p: int, t: int)
    requires
        distinct_ids(pids),
        distinct_ids(tids),
        rows <= pids.len(),
        0 <= p < pids.len(),
        0 <= t < tids.len(),
    ensures
        link_weight(table_arcs(tables, pids, tids, rows).0, pids, tids, p, t, true) == if p < rows {
            tables.pre@[p]@[t] as nat
        } else {
            0
        },
        link_weight(table_arcs(tables, pids, tids, rows).0, pids, tids, p, t, false) == if p < rows {
            tables.post@[p]@[t] as nat
        } else {
            0
        },
        inhibitor_entry(table_arcs(tables, pids, tids, rows).1, pids, tids, p, t) == if p < rows {
            tables.inhibitor@[p]@[t]
        } else {
            0
        },
    decreases rows,
{
    if rows == 0 {
        assert(link_weight(Seq::<Arc>::empty(), pids, tids, p, t, true) == 0);
        assert(link_weight(Seq::<Arc>::empty(), pids, tids, p, t, false) == 0);
    } else {
        lemma_table_links(tables, pids, tids, (rows - 1) as nat, p, t);
        let prev = table_arcs(tables, pids, tids, (rows - 1) as nat);
        lemma_row_links(prev, tables, pids, tids, rows - 1, tids.len(), p, t);
        assert(link_weight(row_arcs(prev, tables, pids, tids, rows - 1, tids.len()).0, pids, tids, p, t, true)
            == link_weight(prev.0, pids, tids, p, t, true) + if rows - 1 == p && t < tids.len() {
            table_weight(tables, p, t, true)
        } else {
            0
        });
        assert(link_weight(row_arcs(prev, tables, pids, tids, rows - 1, tids.len()).0, pids, tids, p, t, false)
            == link_weight(prev.0, pids, tids, p, t, false) + if rows - 1 == p && t < tids.len() {
            table_weight(tables, p, t, false)
        } else {
            0
        });
    }
}

/// Rebuilding the arcs of a net from its tables, when its place ids and
/// its transition ids are each distinct and its tables have its shape,
/// keeps the tables, and they then hold exactly what the new arcs give.
pub proof fn lemma_rebuilt_arcs_match_tables(before: PetriNetModel, after: PetriNetModel)
    requires
        distinct_ids(before.pids()),
        distinct_ids(before.tids()),
        matrix_has_shape(before.tables.pre@, before.places@.len(), before.transitions@.len()),
        matrix_has_shape(before.tables.post@, before.places@.len(), before.transitions@.len()),
        matrix_has_shape(before.tables.inhibitor@, before.places@.len(), before.transitions@.len()),
        after.places == before.places,
        after.transitions == before.transitions,
        after.tables == before.tables,
        after.arcs@ == table_arcs(before.tables, before.pids(), before.tids(), before.places@.len()).0,
        after.inhibitor_arcs@ == table_arcs(before.tables, before.pids(), before.tids(), before.places@.len()).1,
    ensures
        after.matrices_match_arcs(),
{
    let pids = before.pids();
    let tids = before.tids();
    let np = before.places@.len();
    let nt = before.transitions@.len();
    assert(after.pids() == pids);
    assert(after.tids() == tids);
    assert forall|p: int, t: int| 0 <= p < np && 0 <= t < nt implies #[trigger] after.tables.pre@[p]@[t] == sat_u32(
        link_weight(after.arcs@, pids, tids, p, t, true),
    ) by {
        lemma_table_links(before.tables, pids, tids, np, p, t);
    }
    assert forall|p: int, t: int| 0 <= p < np && 0 <= t < nt implies #[trigger] after.tables.post@[p]@[t] == sat_u32(
        link_weight(after.arcs@, pids, tids, p, t, false),
    ) by {
        lemma_table_links(before.tables, pids, tids, np, p, t);
    }
    assert forall|p: int, t: int| 0 <= p < np && 0 <= t < nt implies #[trigger] after.tables.inhibitor@[p]@[t]
        == inhibitor_entry(after.inhibitor_arcs@, pids, tids, p, t) by {
        lemma_table_links(before.tables, pids, tids, np, p, t);
    }
}

/// The arcs renumbered 1, 2, ... as `normalize_arc_ids` leaves them.
pub open spec fn renumbered_arcs(arcs: Seq<Arc>) -> Seq<Arc> {
    Seq::new(arcs.len(), |i: int| arc_with_id(arcs[i], sat_u64((i + 1) as nat)))
}

/// The inhibitor arcs renumbered after `n` arcs, as `normalize_arc_ids`
/// leaves them.
pub open spec fn renumbered_inhibitors(inhs: Seq<InhibitorArc>, n: nat) -> Seq<InhibitorArc> {
    Seq::new(inhs.len(), |i: int| inhibitor_with_id(inhs[i], sat_u64((n + i + 1) as nat)))
}

/// After renumbering, no two arcs or inhibitor arcs share an id, as long
/// as there are fewer of them than the largest id.
pub proof fn lemma_renumbered_ids_distinct(arcs: Seq<Arc>, inhs: Seq<InhibitorArc>)
    requires
        arcs.len() + inhs.len() < u64::MAX,
    ensures
        distinct_ids(
            arc_ids(renumbered_arcs(arcs)) + inhibitor_ids(renumbered_inhibitors(inhs, arcs.len())),
        ),
{
    let ids = arc_ids(renumbered_arcs(arcs)) + inhibitor_ids(renumbered_inhibitors(inhs, arcs.len()));
    assert forall|k: int| 0 <= k < ids.len() implies #[trigger] ids[k] == k + 1 by {
        if k < arcs.len() {
            assert(ids[k] == renumbered_arcs(arcs)[k].id);
        } else {
            assert(ids[k] == renumbered_inhibitors(inhs, arcs.len())[k - arcs.len()].id);
        }
    }
    assert forall|i: int, j: int| 0 <= i < j < ids.len() implies ids[i] != ids[j] by {
        assert(ids[i] == i + 1);
        assert(ids[j] == j + 1);
    }
}


/// The ids are distinct and each lies in `1..=len`: a permutation of
/// `1..=len`, as in every net built from `new` by `set_counts`,
/// `add_place` and `add_transition`.
pub open spec fn ids_one_to_n(ids: Seq<u64>) -> bool {
    &&& forall|i: int, j: int| 0 <= i < j < ids.len() ==> #[trigger] ids[i] != #[trigger] ids[j]
    &&& forall|i: int| 0 <= i < ids.len() ==> 1 <= #[trigger] ids[i] <= ids.len()
}

/// The ids are distinct and none is 0.
pub open spec fn ids_distinct_nonzero(ids: Seq<u64>) -> bool {
    &&& forall|i: int, j: int| 0 <= i < j < ids.len() ==> #[trigger] ids[i] != #[trigger] ids[j]
    &&& forall|i: int| 0 <= i < ids.len() ==> #[trigger] ids[i] != 0
}

/// Ids fixed slot by slot from `old` ids that form a permutation: the kept
/// slots keep their ids, the new slots get `position + 1`.
pub(crate) proof fn lemma_fixed_ids(old: Seq<u64>, ids: Seq<u64>)
    requires
        ids_one_to_n(old),
        ids.len() <= usize::MAX,
        forall|i: int|
            0 <= i < ids.len() ==> #[trigger] ids[i] == fixed_id(
                if i < old.len() { old[i] } else { 0u64 },
                i,
                ids.take(i),
            ),
    ensures
        forall|i: int| 0 <= i < ids.len() && i < old.len() ==> #[trigger] ids[i] == old[i],
        forall|i: int| 0 <= i < ids.len() && i >= old.len() ==> #[trigger] ids[i] == i + 1,
        ids_distinct_nonzero(ids),
        ids.len() >= old.len() ==> ids_one_to_n(ids),
        forall|i: int| 0 <= i < ids.len() ==> #[trigger] ids[i] <= if ids.len() >= old.len() {
            ids.len()
        } else {
            old.len()
        },
    decreases ids.len(),
{
    if ids.len() > 0 {
        let n = ids.len() - 1;
        let pre = ids.drop_last();
        assert forall|i: int| 0 <= i < pre.len() implies #[trigger] pre[i] == fixed_id(
            if i < old.len() { old[i] } else { 0u64 },
            i,
            pre.take(i),
        ) by {
            assert(pre.take(i) == ids.take(i));
            assert(pre[i] == ids[i]);
        }
        lemma_fixed_ids(old, pre);
        assert(forall|i: int| 0 <= i < n ==> pre[i] == #[trigger] ids[i]);
        assert(ids.take(n) == pre);
        if n < old.len() {
            assert(!pre.contains(old[n])) by {
                if pre.contains(old[n]) {
                    let k = choose|k: int| 0 <= k < pre.len() && pre[k] == old[n];
                    assert(ids[k] == old[k]);
                    assert(old[k] != old[n]);
                }
            }
            assert(old[n] != 0);
            assert(ids[n] == old[n]);
        } else {
            assert(ids[n] == fixed_id(0u64, n, ids.take(n)));
            assert(ids[n] == n + 1);
        }
        assert forall|i: int, j: int| 0 <= i < j < ids.len() implies #[trigger] ids[i] != #[trigger] ids[j] by {
            if j == n {
                if i < old.len() {
                    assert(ids[i] == old[i]);
                    if n < old.len() {
                        assert(old[i] != old[n]);
                    } else {
                        assert(old[i] <= old.len());
                    }
                } else {
                    assert(ids[i] == i + 1);
                }
            } else {
                assert(pre[i] != pre[j]);
            }
        }
        assert forall|i: int| 0 <= i < ids.len() implies #[trigger] ids[i] != 0 by {
            if i < n {
                assert(pre[i] != 0);
            }
        }
        assert forall|i: int| 0 <= i < ids.len() implies #[trigger] ids[i] <= if ids.len() >= old.len() {
            ids.len()
        } else {
            old.len()
        } by {
            if i < n {
                assert(pre[i] == ids[i]);
                if i < old.len() {
                    assert(old[i] <= old.len());
                }
            } else if n < old.len() {
                assert(old[n] <= old.len());
            }
        }
        if ids.len() >= old.len() {
            assert forall|i: int| 0 <= i < ids.len() implies 1 <= #[trigger] ids[i] <= ids.len() by {
                if i < old.len() {
                    assert(ids[i] == old[i]);
                } else {
                    assert(ids[i] == i + 1);
                }
            }
        }
    }
}

/// `set_counts` on a net whose place ids and transition ids each form a
/// permutation of `1..=len` keeps the id of every kept node, gives each new
/// node the id `position + 1`, and leaves all ids distinct and nonzero;
/// when the lists grow (or keep their length) the ids again form a
/// permutation of `1..=len`.
pub proof fn lemma_set_counts_ids(before: PetriNetModel, after: PetriNetModel, places: usize, transitions: usize)
    requires
        ids_one_to_n(before.pids()),
        ids_one_to_n(before.tids()),
        after.places@.len() == places,
        forall|i: int|
            0 <= i < places ==> place_slot_ok(#[trigger] after.places@[i], before.places@, i, after.pids().take(i)),
        after.transitions@.len() == transitions,
        forall|i: int|
            0 <= i < transitions ==> transition_slot_ok(
                #[trigger] after.transitions@[i],
                before.transitions@,
                i,
                after.tids().take(i),
                after.tids(),
            ),
    ensures
        forall|i: int| 0 <= i < places && i < before.places@.len() ==> #[trigger] after.pids()[i] == before.pids()[i],
        forall|i: int| before.places@.len() <= i < places ==> #[trigger] after.pids()[i] == i + 1,
        forall|i: int|
            0 <= i < transitions && i < before.transitions@.len() ==> #[trigger] after.tids()[i] == before.tids()[i],
        forall|i: int| before.transitions@.len() <= i < transitions ==> #[trigger] after.tids()[i] == i + 1,
        ids_distinct_nonzero(after.pids()),
        ids_distinct_nonzero(after.tids()),
        places >= before.places@.len() ==> ids_one_to_n(after.pids()),
        transitions >= before.transitions@.len() ==> ids_one_to_n(after.tids()),
{
    let op = before.pids();
    let np = after.pids();
    assert forall|i: int| 0 <= i < np.len() implies #[trigger] np[i] == fixed_id(
        if i < op.len() { op[i] } else { 0u64 },
        i,
        np.take(i),
    ) by {
        assert(place_slot_ok(after.places@[i], before.places@, i, after.pids().take(i)));
    }
    lemma_fixed_ids(op, np);
    let ot = before.tids();
    let nt = after.tids();
    assert forall|i: int| 0 <= i < nt.len() implies #[trigger] nt[i] == fixed_id(
        if i < ot.len() { ot[i] } else { 0u64 },
        i,
        nt.take(i),
    ) by {
        assert(transition_slot_ok(after.transitions@[i], before.transitions@, i, after.tids().take(i), after.tids()));
    }
    lemma_fixed_ids(ot, nt);
}

/// An arc with a weight that joins a present place and transition.
pub open spec fn arc_sound(a: Arc, pids: Seq<u64>, tids: Seq<u64>) -> bool {
    a.weight != 0 && arc_is_linked(a, pids, tids)
}

/// An inhibitor arc with a threshold that joins a present place and transition.
pub open spec fn inhibitor_sound(a: InhibitorArc, pids: Seq<u64>, tids: Seq<u64>) -> bool {
    a.threshold != 0 && inhibitor_is_linked(a, pids, tids)
}

/// Every part of the net passes its check: the current format, distinct
/// node ids, finite positions, tables of the net's shape, good delays, and
/// arcs with weights between present nodes.
pub open spec fn model_sound(m: PetriNetModel) -> bool {
    &&& m.format_version == GPN2_FORMAT_VERSION
    &&& forall|i: int, j: int| 0 <= i < j < m.places@.len() ==> #[trigger] m.places@[i].id != #[trigger] m.places@[j].id
    &&& forall|i: int| 0 <= i < m.places@.len() ==> f32_is_finite((#[trigger] m.places@[i]).pos[0]) && f32_is_finite(m.places@[i].pos[1])
    &&& forall|i: int, j: int|
        0 <= i < j < m.transitions@.len() ==> #[trigger] m.transitions@[i].id != #[trigger] m.transitions@[j].id
    &&& forall|i: int|
        0 <= i < m.transitions@.len() ==> f32_is_finite((#[trigger] m.transitions@[i]).pos[0]) && f32_is_finite(
            m.transitions@[i].pos[1],
        )
    &&& m.tables.has_shape(m.places@.len(), m.transitions@.len())
    &&& forall|i: int| 0 <= i < m.tables.mz@.len() ==> !bad_delay(#[trigger] m.tables.mz@[i])
    &&& forall|i: int| 0 <= i < m.arcs@.len() ==> arc_sound(#[trigger] m.arcs@[i], m.pids(), m.tids())
    &&& forall|i: int| 0 <= i < m.inhibitor_arcs@.len() ==> inhibitor_sound(#[trigger] m.inhibitor_arcs@[i], m.pids(), m.tids())
}

proof fn lemma_first_problem_none(i0: int, n: int, f: spec_fn(int) -> Option<ModelError>)
    requires
        forall|i: int| i0 <= i < n ==> (#[trigger] f(i)) is None,
    ensures
        first_problem(i0, n, f) is None,
    decreases n - i0,
{
    if i0 < n {
        assert(f(i0) is None);
        lemma_first_problem_none(i0 + 1, n, f);
    }
}

/// A net whose every part passes its check is valid.
pub(crate) proof fn lemma_sound_validates(m: PetriNetModel)
    requires
        model_sound(m),
    ensures
        model_problem(m) is None,
{
    let ps = m.places@;
    let ts = m.transitions@;
    let pids = m.pids();
    let tids = m.tids();
    assert forall|i: int| 0 <= i < ps.len() implies (#[trigger] place_problem(ps, i)) is None by {
        if place_ids(ps).take(i).contains(ps[i].id) {
            let k = choose|k: int| 0 <= k < place_ids(ps).take(i).len() && place_ids(ps).take(i)[k] == ps[i].id;
            assert(ps[k].id != ps[i].id);
        }
    }
    lemma_first_problem_none(0, ps.len() as int, |i: int| place_problem(ps, i));
    assert forall|i: int| 0 <= i < ts.len() implies (#[trigger] transition_problem(ts, i)) is None by {
        if transition_ids(ts).take(i).contains(ts[i].id) {
            let k = choose|k: int| 0 <= k < transition_ids(ts).take(i).len() && transition_ids(ts).take(i)[k] == ts[i].id;
            assert(ts[k].id != ts[i].id);
        }
    }
    lemma_first_problem_none(0, ts.len() as int, |i: int| transition_problem(ts, i));
    let mz = m.tables.mz@;
    assert forall|i: int| 0 <= i < mz.len() implies (#[trigger] delay_problem(mz, i)) is None by {
        assert(!bad_delay(mz[i]));
    }
    lemma_first_problem_none(0, mz.len() as int, |i: int| delay_problem(mz, i));
    let arcs = m.arcs@;
    assert forall|i: int| 0 <= i < arcs.len() implies (#[trigger] arc_problem(arcs[i], pids, tids)) is None by {
        assert(arc_sound(arcs[i], pids, tids));
    }
    lemma_first_problem_none(0, arcs.len() as int, |i: int| arc_problem(arcs[i], pids, tids));
    let inhs = m.inhibitor_arcs@;
    assert forall|i: int| 0 <= i < inhs.len() implies (#[trigger] inhibitor_problem(inhs[i], pids, tids)) is None by {
        assert(inhibitor_sound(inhs[i], pids, tids));
    }
    lemma_first_problem_none(0, inhs.len() as int, |i: int| inhibitor_problem(inhs[i], pids, tids));
    assert(matrix_problem(m.tables.pre@, MatrixName::Pre, ps.len(), ts.len()) is None);
    assert(matrix_problem(m.tables.post@, MatrixName::Post, ps.len(), ts.len()) is None);
    assert(matrix_problem(m.tables.inhibitor@, MatrixName::Inhibitor, ps.len(), ts.len()) is None);
}

/// Every arc that the tables give, written after sound arcs, is sound.
proof fn lemma_row_arcs_sound(st: ArcsWritten, tables: Tables, pids: Seq<u64>, tids: Seq<u64>, p: int, t: nat)
    requires
        0 <= p < pids.len(),
        t <= tids.len(),
        forall|i: int| 0 <= i < st.0.len() ==> #[trigger] arc_sound(st.0[i], pids, tids),
        forall|i: int| 0 <= i < st.1.len() ==> #[trigger] inhibitor_sound(st.1[i], pids, tids),
    ensures
        forall|i: int| 0 <= i < row_arcs(st, tables, pids, tids, p, t).0.len() ==> #[trigger] arc_sound(
            row_arcs(st, tables, pids, tids, p, t).0[i],
            pids,
            tids,
        ),
        forall|i: int| 0 <= i < row_arcs(st, tables, pids, tids, p, t).1.len() ==> #[trigger] inhibitor_sound(
            row_arcs(st, tables, pids, tids, p, t).1[i],
            pids,
            tids,
        ),
    decreases t,
{
    if t > 0 {
        let k = (t - 1) as int;
        let prev = row_arcs(st, tables, pids, tids, p, (t - 1) as nat);
        lemma_row_arcs_sound(st, tables, pids, tids, p, (t - 1) as nat);
        assert(pids.contains(pids[p]));
        assert(tids.contains(tids[k]));
        let r = row_arcs(st, tables, pids, tids, p, t);
        assert(r == cell_arcs(prev, pids[p], tids[k], tables.pre@[p]@[k], tables.post@[p]@[k], tables.inhibitor@[p]@[k]));
        assert forall|i: int| 0 <= i < r.0.len() implies #[trigger] arc_sound(r.0[i], pids, tids) by {
            if i < prev.0.len() {
                let pre = tables.pre@[p]@[k];
                let a1 = if pre > 0 {
                    prev.0.push(table_arc(prev.2, NodeRef::Place(pids[p]), NodeRef::Transition(tids[k]), pre))
                } else {
                    prev.0
                };
                assert(a1[i] == prev.0[i]);
                assert(arc_sound(prev.0[i], pids, tids));
            }
        }
        assert forall|i: int| 0 <= i < r.1.len() implies #[trigger] inhibitor_sound(r.1[i], pids, tids) by {
            if i < prev.1.len() {
                assert(inhibitor_sound(prev.1[i], pids, tids));
            }
        }
    }
}

/// Every arc and inhibitor arc that the tables give is sound.
pub(crate) proof fn lemma_table_arcs_sound(tables: Tables, pids: Seq<u64>, tids: Seq<u64>, p: nat)
    requires
        p <= pids.len(),
    ensures
        forall|i: int| 0 <= i < table_arcs(tables, pids, tids, p).0.len() ==> #[trigger] arc_sound(
            table_arcs(tables, pids, tids, p).0[i],
            pids,
            tids,
        ),
        forall|i: int| 0 <= i < table_arcs(tables, pids, tids, p).1.len() ==> #[trigger] inhibitor_sound(
            table_arcs(tables, pids, tids, p).1[i],
            pids,
            tids,
        ),
    decreases p,
{
    if p > 0 {
        lemma_table_arcs_sound(tables, pids, tids, (p - 1) as nat);
        lemma_row_arcs_sound(table_arcs(tables, pids, tids, (p - 1) as nat), tables, pids, tids, p - 1, tids.len());
    }
}
} // verus!
