//! The reachability graph of a net's markings, read as a continuous-time
//! Markov chain: states are markings, and each enabled transition (after
//! the priority and pre-weight filter) adds rate 1 to the edge it takes.
use crate::ieee::{f64_bits_is_positive, f64_is_positive, F64Bits};
use crate::model::{covers, PetriNetModel, StochasticDistribution};
use std::collections::HashMap;
use vstd::prelude::*;

verus! {

/// What one transition needs and does, by place row: consumed and produced
/// tokens, inhibitor thresholds, the capacity effects of the places it
/// touches, its priority, its total consumption, and whether any arc
/// touches it at all.
#[derive(Clone, Debug)]
pub struct TransitionSpec {
    pub pre: Vec<(usize, u32)>,
    pub post: Vec<(usize, u32)>,
    pub inhibitor: Vec<(usize, u32)>,
    pub capacity_effects: Vec<(usize, u32, u32)>,
    pub priority: i32,
    pub pre_weight: u32,
    pub active: bool,
}

/// The rows `p < n` of column `t` of `m` with a positive entry, with the entry.
pub open spec fn column_entries(m: Seq<Vec<u32>>, t: int, n: nat) -> Seq<(usize, u32)>
    decreases n,
{
    if n == 0 {
        Seq::empty()
    } else {
        let p = n - 1;
        let prev = column_entries(m, t, (n - 1) as nat);
        if m[p]@[t] > 0 {
            prev.push((p as usize, m[p]@[t]))
        } else {
            prev
        }
    }
}

/// The rows `p < n` where `pre` or `post` of column `t` is positive, with both entries.
pub open spec fn capacity_entries(pre: Seq<Vec<u32>>, post: Seq<Vec<u32>>, t: int, n: nat) -> Seq<(usize, u32, u32)>
    decreases n,
{
    if n == 0 {
        Seq::empty()
    } else {
        let p = n - 1;
        let prev = capacity_entries(pre, post, t, (n - 1) as nat);
        if pre[p]@[t] > 0 || post[p]@[t] > 0 {
            prev.push((p as usize, pre[p]@[t], post[p]@[t]))
        } else {
            prev
        }
    }
}

/// The sum of the weights of `entries`, staying at `u32::MAX`.
pub open spec fn weight_sum(entries: Seq<(usize, u32)>) -> u32
    decreases entries.len(),
{
    if entries.len() == 0 {
        0
    } else {
        let s = weight_sum(entries.drop_last()) + entries.last().1;
        if s > u32::MAX {
            u32::MAX
        } else {
            s as u32
        }
    }
}

/// `s` describes transition column `t` of `net`.
pub open spec fn spec_of_column(s: TransitionSpec, net: PetriNetModel, t: int) -> bool {
    let np = net.places@.len();
    &&& s.pre@ == column_entries(net.tables.pre@, t, np)
    &&& s.post@ == column_entries(net.tables.post@, t, np)
    &&& s.inhibitor@ == column_entries(net.tables.inhibitor@, t, np)
    &&& s.capacity_effects@ == capacity_entries(net.tables.pre@, net.tables.post@, t, np)
    &&& s.priority == (if t < net.tables.mpr@.len() { net.tables.mpr@[t] } else { 0 })
    &&& s.pre_weight == weight_sum(s.pre@)
    &&& s.active == !(s.pre@.len() == 0 && s.post@.len() == 0 && s.inhibitor@.len() == 0)
}

fn column_of(m: &Vec<Vec<u32>>, t: usize, n: usize) -> (r: Vec<(usize, u32)>)
    requires
        covers(m@, n as nat, (t + 1) as nat),
    ensures
        r@ == column_entries(m@, t as int, n as nat),
{
    let mut r: Vec<(usize, u32)> = Vec::new();
    let mut p: usize = 0;
    while p < n
        invariant
            p <= n,
            covers(m@, n as nat, (t + 1) as nat),
            r@ == column_entries(m@, t as int, p as nat),
        decreases n - p,
    {
        proof {
            let _ = m@[p as int];
        }
        let w = m[p][t];
        if w > 0 {
            r.push((p, w));
        }
        p = p + 1;
    }
    r
}

fn capacity_column(pre: &Vec<Vec<u32>>, post: &Vec<Vec<u32>>, t: usize, n: usize) -> (r: Vec<(usize, u32, u32)>)
    requires
        covers(pre@, n as nat, (t + 1) as nat),
        covers(post@, n as nat, (t + 1) as nat),
    ensures
        r@ == capacity_entries(pre@, post@, t as int, n as nat),
{
    let mut r: Vec<(usize, u32, u32)> = Vec::new();
    let mut p: usize = 0;
    while p < n
        invariant
            p <= n,
            covers(pre@, n as nat, (t + 1) as nat),
            covers(post@, n as nat, (t + 1) as nat),
            r@ == capacity_entries(pre@, post@, t as int, p as nat),
        decreases n - p,
    {
        proof {
            let _ = pre@[p as int];
            let _ = post@[p as int];
        }
        let a = pre[p][t];
        let b = post[p][t];
        if a > 0 || b > 0 {
            r.push((p, a, b));
        }
        p = p + 1;
    }
    r
}

fn sum_weights(entries: &Vec<(usize, u32)>) -> (s: u32)
    ensures
        s == weight_sum(entries@),
{
    let mut s: u32 = 0;
    let mut i: usize = 0;
    while i < entries.len()
        invariant
            i <= entries@.len(),
            s == weight_sum(entries@.take(i as int)),
        decreases entries@.len() - i,
    {
        proof {
            assert(entries@.take(i + 1).drop_last() == entries@.take(i as int));
        }
        s = s.saturating_add(entries[i].1);
        i = i + 1;
    }
    proof {
        assert(entries@.take(entries@.len() as int) == entries@);
    }
    s
}

/// One spec per transition column of the net's tables.
pub fn build_transition_specs(net: &PetriNetModel) -> (specs: Vec<TransitionSpec>)
    requires
        covers(net.tables.pre@, net.places@.len(), net.transitions@.len()),
        covers(net.tables.post@, net.places@.len(), net.transitions@.len()),
        covers(net.tables.inhibitor@, net.places@.len(), net.transitions@.len()),
    ensures
        specs@.len() == net.transitions@.len(),
        forall|t: int| 0 <= t < specs@.len() ==> spec_of_column(#[trigger] specs@[t], *net, t),
{
    let np = net.places.len();
    let nt = net.transitions.len();
    let mut specs: Vec<TransitionSpec> = Vec::new();
    let mut t: usize = 0;
    while t < nt
        invariant
            t <= nt,
            np == net.places@.len(),
            nt == net.transitions@.len(),
            covers(net.tables.pre@, np as nat, nt as nat),
            covers(net.tables.post@, np as nat, nt as nat),
            covers(net.tables.inhibitor@, np as nat, nt as nat),
            specs@.len() == t,
            forall|k: int| 0 <= k < t ==> spec_of_column(#[trigger] specs@[k], *net, k),
        decreases nt - t,
    {
        let pre = column_of(&net.tables.pre, t, np);
        let post = column_of(&net.tables.post, t, np);
        let inhibitor = column_of(&net.tables.inhibitor, t, np);
        let capacity_effects = capacity_column(&net.tables.pre, &net.tables.post, t, np);
        let pre_weight = sum_weights(&pre);
        let active = !(pre.len() == 0 && post.len() == 0 && inhibitor.len() == 0);
        let priority = if t < net.tables.mpr.len() { net.tables.mpr[t] } else { 0 };
        specs.push(TransitionSpec { pre, post, inhibitor, capacity_effects, priority, pre_weight, active });
        t = t + 1;
    }
    specs
}

/// `a - b`, staying at 0.
pub open spec fn sat_sub32(a: u32, b: u32) -> u32 {
    if a < b {
        0
    } else {
        (a - b) as u32
    }
}

/// `a + b`, staying at `u32::MAX`.
pub open spec fn sat_add32(a: u32, b: u32) -> u32 {
    if a + b > u32::MAX {
        u32::MAX
    } else {
        (a + b) as u32
    }
}

/// The rows a spec refers to all lie within `n` places.
pub open spec fn spec_within(s: TransitionSpec, n: nat) -> bool {
    &&& forall|k: int| 0 <= k < s.pre@.len() ==> (#[trigger] s.pre@[k]).0 < n
    &&& forall|k: int| 0 <= k < s.post@.len() ==> (#[trigger] s.post@[k]).0 < n
    &&& forall|k: int| 0 <= k < s.inhibitor@.len() ==> (#[trigger] s.inhibitor@[k]).0 < n
    &&& forall|k: int| 0 <= k < s.capacity_effects@.len() ==> (#[trigger] s.capacity_effects@[k]).0 < n
}

/// The capacity rule of one place: a firing that takes `a` and gives `b`
/// tokens at a place holding `m` is refused only when it raises the place
/// above its capacity `cap` (the count after it, saturated, is above both
/// `cap` and `m`); a firing that keeps or lowers the count is allowed.
pub open spec fn capacity_allows(cap: u32, m: u32, a: u32, b: u32) -> bool {
    let after = sat_add32(sat_sub32(m, a), b);
    after <= cap || after <= m
}

/// A transition may fire at `marking`: every input place holds enough
/// tokens, no inhibitor place reaches its threshold, and no place with a
/// capacity is raised above it by the firing.
pub open spec fn spec_enabled(mo: Seq<Option<u32>>, s: TransitionSpec, marking: Seq<u32>) -> bool {
    &&& forall|k: int| 0 <= k < s.pre@.len() ==> marking[(#[trigger] s.pre@[k]).0 as int] >= s.pre@[k].1
    &&& forall|k: int| 0 <= k < s.inhibitor@.len() ==> marking[(#[trigger] s.inhibitor@[k]).0 as int] < s.inhibitor@[k].1
    &&& forall|k: int| 0 <= k < s.capacity_effects@.len() ==> {
        let (p, a, b) = #[trigger] s.capacity_effects@[k];
        mo[p as int] matches Some(cap) ==> capacity_allows(cap, marking[p as int], a, b)
    }
}

/// Whether the transition described by `spec` may fire at `marking`.
pub fn transition_enabled(net: &PetriNetModel, spec: &TransitionSpec, marking: &[u32]) -> (r: bool)
    requires
        spec_within(*spec, marking@.len()),
        spec_within(*spec, net.tables.mo@.len()),
    ensures
        r == spec_enabled(net.tables.mo@, *spec, marking@),
{
    let mut k: usize = 0;
    while k < spec.pre.len()
        invariant
            k <= spec.pre@.len(),
            spec_within(*spec, marking@.len()),
            forall|j: int| 0 <= j < k ==> marking@[(#[trigger] spec.pre@[j]).0 as int] >= spec.pre@[j].1,
        decreases spec.pre@.len() - k,
    {
        let (p, need) = spec.pre[k];
        if marking[p] < need {
            return false;
        }
        k = k + 1;
    }
    let mut k: usize = 0;
    while k < spec.inhibitor.len()
        invariant
            k <= spec.inhibitor@.len(),
            spec_within(*spec, marking@.len()),
            forall|j: int| 0 <= j < k ==> marking@[(#[trigger] spec.inhibitor@[j]).0 as int] < spec.inhibitor@[j].1,
        decreases spec.inhibitor@.len() - k,
    {
        let (p, threshold) = spec.inhibitor[k];
        if marking[p] >= threshold {
            return false;
        }
        k = k + 1;
    }
    let mut k: usize = 0;
    while k < spec.capacity_effects.len()
        invariant
            k <= spec.capacity_effects@.len(),
            spec_within(*spec, marking@.len()),
            spec_within(*spec, net.tables.mo@.len()),
            forall|j: int| 0 <= j < k ==> {
                let (p, a, b) = #[trigger] spec.capacity_effects@[j];
                net.tables.mo@[p as int] matches Some(cap) ==> capacity_allows(cap, marking@[p as int], a, b)
            },
        decreases spec.capacity_effects@.len() - k,
    {
        let (p, pre_w, post_w) = spec.capacity_effects[k];
        match net.tables.mo[p] {
            Some(cap) => {
                let after = marking[p].saturating_sub(pre_w).saturating_add(post_w);
                if after > cap && after > marking[p] {
                    return false;
                }
            },
            None => {},
        }
        k = k + 1;
    }
    true
}

/// The marking after firing: tokens taken for each `pre` entry, then given
/// for each `post` entry, in order, saturating at 0 and at `u32::MAX`.
pub open spec fn fired(marking: Seq<u32>, s: TransitionSpec) -> Seq<u32> {
    add_tokens(take_tokens(marking, s.pre@, s.pre@.len()), s.post@, s.post@.len())
}

/// `marking` after taking the tokens of the first `n` entries.
pub open spec fn take_tokens(marking: Seq<u32>, entries: Seq<(usize, u32)>, n: nat) -> Seq<u32>
    decreases n,
{
    if n == 0 {
        marking
    } else {
        let m = take_tokens(marking, entries, (n - 1) as nat);
        let (p, w) = entries[n - 1];
        m.update(p as int, sat_sub32(m[p as int], w))
    }
}

/// `marking` after giving the tokens of the first `n` entries.
pub open spec fn add_tokens(marking: Seq<u32>, entries: Seq<(usize, u32)>, n: nat) -> Seq<u32>
    decreases n,
{
    if n == 0 {
        marking
    } else {
        let m = add_tokens(marking, entries, (n - 1) as nat);
        let (p, w) = entries[n - 1];
        m.update(p as int, sat_add32(m[p as int], w))
    }
}

proof fn lemma_tokens_len(marking: Seq<u32>, entries: Seq<(usize, u32)>, n: nat)
    requires
        n <= entries.len(),
        forall|k: int| 0 <= k < entries.len() ==> (#[trigger] entries[k]).0 < marking.len(),
    ensures
        take_tokens(marking, entries, n).len() == marking.len(),
        add_tokens(marking, entries, n).len() == marking.len(),
    decreases n,
{
    if n > 0 {
        lemma_tokens_len(marking, entries, (n - 1) as nat);
    }
}

/// The marking after the transition described by `spec` fires.
pub fn apply_transition(marking: &[u32], spec: &TransitionSpec) -> (next: Vec<u32>)
    requires
        spec_within(*spec, marking@.len()),
    ensures
        next@ == fired(marking@, *spec),
{
    let mut next: Vec<u32> = Vec::new();
    let mut i: usize = 0;
    while i < marking.len()
        invariant
            i <= marking@.len(),
            next@ == marking@.take(i as int),
        decreases marking@.len() - i,
    {
        next.push(marking[i]);
        proof {
            assert(marking@.take(i + 1) == marking@.take(i as int).push(marking@[i as int]));
        }
        i = i + 1;
    }
    proof {
        assert(marking@.take(marking@.len() as int) == marking@);
    }
    let mut k: usize = 0;
    while k < spec.pre.len()
        invariant
            k <= spec.pre@.len(),
            spec_within(*spec, marking@.len()),
            next@ == take_tokens(marking@, spec.pre@, k as nat),
            next@.len() == marking@.len(),
        decreases spec.pre@.len() - k,
    {
        let (p, w) = spec.pre[k];
        let v = next[p].saturating_sub(w);
        next.set(p, v);
        proof {
            lemma_tokens_len(marking@, spec.pre@, (k + 1) as nat);
        }
        k = k + 1;
    }
    let ghost taken = next@;
    let mut k: usize = 0;
    while k < spec.post.len()
        invariant
            k <= spec.post@.len(),
            spec_within(*spec, marking@.len()),
            taken == take_tokens(marking@, spec.pre@, spec.pre@.len()),
            taken.len() == marking@.len(),
            next@ == add_tokens(taken, spec.post@, k as nat),
            next@.len() == marking@.len(),
        decreases spec.post@.len() - k,
    {
        let (p, w) = spec.post[k];
        let v = next[p].saturating_add(w);
        next.set(p, v);
        proof {
            lemma_tokens_len(taken, spec.post@, (k + 1) as nat);
        }
        k = k + 1;
    }
    next
}

/// Transition `t` is active and may fire at `m`.
pub open spec fn enabled_at(mo: Seq<Option<u32>>, specs: Seq<TransitionSpec>, m: Seq<u32>, t: int) -> bool {
    specs[t].active && spec_enabled(mo, specs[t], m)
}

/// The highest priority among the transitions `0..n` that may fire, and
/// the largest total consumption among those with it (`i32::MIN` and 0
/// when none may fire).
pub open spec fn best_rank(mo: Seq<Option<u32>>, specs: Seq<TransitionSpec>, m: Seq<u32>, n: nat) -> (i32, u32)
    decreases n,
{
    if n == 0 {
        (i32::MIN, 0)
    } else {
        let (bp, bw) = best_rank(mo, specs, m, (n - 1) as nat);
        let t = n - 1;
        if enabled_at(mo, specs, m, t) {
            if specs[t].priority > bp {
                (specs[t].priority, specs[t].pre_weight)
            } else if specs[t].priority == bp {
                (bp, if bw < specs[t].pre_weight { specs[t].pre_weight } else { bw })
            } else {
                (bp, bw)
            }
        } else {
            (bp, bw)
        }
    }
}

/// The transitions `t < n` that may fire with rank `best`, in order.
pub open spec fn ranked_upto(mo: Seq<Option<u32>>, specs: Seq<TransitionSpec>, m: Seq<u32>, best: (i32, u32), n: nat) -> Seq<usize>
    decreases n,
{
    if n == 0 {
        Seq::empty()
    } else {
        let t = n - 1;
        let prev = ranked_upto(mo, specs, m, best, (n - 1) as nat);
        if enabled_at(mo, specs, m, t) && specs[t].priority == best.0 && specs[t].pre_weight == best.1 {
            prev.push(t as usize)
        } else {
            prev
        }
    }
}

/// The transitions that compete at `m`: those that may fire with the
/// highest priority and, among them, the largest total consumption.
pub open spec fn candidates(mo: Seq<Option<u32>>, specs: Seq<TransitionSpec>, m: Seq<u32>) -> Seq<usize> {
    ranked_upto(mo, specs, m, best_rank(mo, specs, m, specs.len()), specs.len())
}

/// Every spec refers to rows within `n` places.
pub open spec fn specs_within(specs: Seq<TransitionSpec>, n: nat) -> bool {
    forall|t: int| 0 <= t < specs.len() ==> spec_within(#[trigger] specs[t], n)
}

/// The transitions that may fire at `marking` after the priority and
/// pre-weight filter.
pub fn enabled_transition_candidates(net: &PetriNetModel, specs: &[TransitionSpec], marking: &[u32]) -> (r: Vec<usize>)
    requires
        specs_within(specs@, marking@.len()),
        specs_within(specs@, net.tables.mo@.len()),
    ensures
        r@ == candidates(net.tables.mo@, specs@, marking@),
{
    let ghost mo = net.tables.mo@;
    let n = specs.len();
    let mut best_priority: i32 = i32::MIN;
    let mut best_pre_weight: u32 = 0;
    let mut flags: Vec<bool> = Vec::new();
    let mut t: usize = 0;
    while t < n
        invariant
            t <= n,
            n == specs@.len(),
            mo == net.tables.mo@,
            specs_within(specs@, marking@.len()),
            specs_within(specs@, net.tables.mo@.len()),
            flags@.len() == t,
            forall|k: int| 0 <= k < t ==> #[trigger] flags@[k] == enabled_at(mo, specs@, marking@, k),
            (best_priority, best_pre_weight) == best_rank(mo, specs@, marking@, t as nat),
        decreases n - t,
    {
        let s = &specs[t];
        let ok = s.active && transition_enabled(net, s, marking);
        flags.push(ok);
        if ok {
            if s.priority > best_priority {
                best_priority = s.priority;
                best_pre_weight = s.pre_weight;
            } else if s.priority == best_priority {
                if best_pre_weight < s.pre_weight {
                    best_pre_weight = s.pre_weight;
                }
            }
        }
        t = t + 1;
    }
    let mut out: Vec<usize> = Vec::new();
    let mut t: usize = 0;
    while t < n
        invariant
            t <= n,
            n == specs@.len(),
            flags@.len() == n,
            forall|k: int| 0 <= k < n ==> #[trigger] flags@[k] == enabled_at(mo, specs@, marking@, k),
            out@ == ranked_upto(mo, specs@, marking@, (best_priority, best_pre_weight), t as nat),
        decreases n - t,
    {
        if flags[t] && specs[t].priority == best_priority && specs[t].pre_weight == best_pre_weight {
            out.push(t);
        }
        t = t + 1;
    }
    out
}

/// The fewest states the automatic limit allows.
pub const DEFAULT_MIN_MAX_STATES: usize = 2_000;

/// The memory the automatic limit aims the graph at.
pub const TARGET_MARKOV_GRAPH_BYTES: usize = 268_435_456;

/// The most states the automatic limit allows.
pub const HARD_AUTO_MAX_STATES: usize = 1_000_000;

/// `n` cut to the `usize` range.
pub open spec fn usat(n: int) -> int {
    if n > usize::MAX {
        usize::MAX as int
    } else {
        n
    }
}

/// The estimated bytes of a graph of `states` states over `places` places
/// with `edges` edges and `queue` queued states: per state the marking
/// (4 bytes a place) plus 96, per seen entry the marking plus 48, 24 per
/// edge and 8 per queued state, every step saturating.
pub open spec fn graph_bytes(places: nat, states: nat, edges: nat, queue: nat) -> int {
    let marking = usat((places * 4) as int);
    let state_bytes = usat(states * usat(marking + 96));
    let seen_bytes = usat(states * usat(marking + 48));
    let edge_bytes = usat((edges * 24) as int);
    let queue_bytes = usat((queue * 8) as int);
    usat(usat(usat(state_bytes + seen_bytes) + edge_bytes) + queue_bytes)
}

/// `a * b`, staying at `usize::MAX`.
fn mul_sat(a: usize, b: usize) -> (r: usize)
    ensures
        r == usat(a * b),
{
    if b == 0 {
        return 0;
    }
    let q = usize::MAX / b;
    if a > q {
        proof {
            assert(a * b > usize::MAX) by (nonlinear_arith)
                requires
                    a > q,
                    q == usize::MAX / b,
                    b > 0,
            ;
        }
        usize::MAX
    } else {
        proof {
            assert(a * b <= usize::MAX) by (nonlinear_arith)
                requires
                    a <= q,
                    q == usize::MAX / b,
                    b > 0,
            ;
        }
        a * b
    }
}

/// Estimates the memory that the graph takes.
pub fn estimate_graph_bytes(net: &PetriNetModel, state_count: usize, edge_count: usize, queue_len: usize) -> (r: usize)
    ensures
        r == graph_bytes(net.places@.len(), state_count as nat, edge_count as nat, queue_len as nat),
{
    let places = net.places.len();
    let marking_bytes = mul_sat(places, 4);
    let state_bytes = mul_sat(state_count, marking_bytes.saturating_add(96));
    let seen_bytes = mul_sat(state_count, marking_bytes.saturating_add(48));
    let edge_bytes = mul_sat(edge_count, 24);
    let queue_bytes = mul_sat(queue_len, 8);
    state_bytes.saturating_add(seen_bytes).saturating_add(edge_bytes).saturating_add(queue_bytes)
}

/// How many entries of the rows of `m` are positive.
pub open spec fn positive_entries(m: Seq<Vec<u32>>) -> nat
    decreases m.len(),
{
    if m.len() == 0 {
        0
    } else {
        positive_entries(m.drop_last()) + positive_count_all(m.last()@)
    }
}

/// How many entries of `row` are positive.
pub open spec fn positive_count_all(row: Seq<u32>) -> nat
    decreases row.len(),
{
    if row.len() == 0 {
        0
    } else {
        positive_count_all(row.drop_last()) + if row.last() > 0 {
            1nat
        } else {
            0nat
        }
    }
}

/// The sum of the entries of `row`.
pub open spec fn row_sum(row: Seq<u32>) -> nat
    decreases row.len(),
{
    if row.len() == 0 {
        0
    } else {
        (row_sum(row.drop_last()) + row.last()) as nat
    }
}

/// The sum of the entries of the rows of `m`.
pub open spec fn matrix_sum(m: Seq<Vec<u32>>) -> nat
    decreases m.len(),
{
    if m.len() == 0 {
        0
    } else {
        matrix_sum(m.drop_last()) + row_sum(m.last()@)
    }
}

/// The weights and initial tokens of a net add up within `usize`.
pub open spec fn sums_fit(net: PetriNetModel) -> bool {
    &&& matrix_sum(net.tables.pre@) + matrix_sum(net.tables.post@) + matrix_sum(net.tables.inhibitor@) <= usize::MAX
    &&& row_sum(net.tables.m0@) <= usize::MAX
}

/// The automatic state limit: what the memory budget allows at the current
/// bytes per state, at least a floor that grows with the net's size, arcs,
/// tokens and weights, and at least the states already found, cut to
/// `2000..=1000000`.
pub open spec fn auto_limit(net: PetriNetModel, state_count: nat, edges: nat, queue: nat) -> int {
    let states: nat = if state_count < 1 { 1 } else { state_count };
    let est = graph_bytes(net.places@.len(), states, edges, queue);
    let per_state = if est / (states as int) < 1 { 1 } else { est / (states as int) };
    let memory_limit: int = (TARGET_MARKOV_GRAPH_BYTES as int) / per_state;
    let arcs = positive_entries(net.tables.pre@) + positive_entries(net.tables.post@) + positive_entries(
        net.tables.inhibitor@,
    );
    let weight = matrix_sum(net.tables.pre@) + matrix_sum(net.tables.post@) + matrix_sum(net.tables.inhibitor@);
    let tokens = row_sum(net.tables.m0@);
    let floor = usat(
        usat(
            usat(usat(DEFAULT_MIN_MAX_STATES + usat((net.places@.len() * 24) as int)) + usat((net.transitions@.len() * 40) as int))
                + usat((arcs * 10) as int),
        ) + usat(((if tokens < 5000 { tokens } else { 5000 }) * 2) as int),
    ) + (if weight < 10_000 { weight } else { 10_000 });
    let floor = usat(floor);
    let a = if memory_limit > floor { memory_limit } else { floor };
    let b = if a > states { a } else { states as int };
    if b < DEFAULT_MIN_MAX_STATES {
        DEFAULT_MIN_MAX_STATES as int
    } else if b > HARD_AUTO_MAX_STATES {
        HARD_AUTO_MAX_STATES as int
    } else {
        b
    }
}

fn count_positive_row(row: &Vec<u32>) -> (c: usize)
    ensures
        c == positive_count_all(row@),
{
    let mut c: usize = 0;
    let mut i: usize = 0;
    while i < row.len()
        invariant
            i <= row@.len(),
            c == positive_count_all(row@.take(i as int)),
            c <= i,
        decreases row@.len() - i,
    {
        proof {
            assert(row@.take(i + 1).drop_last() == row@.take(i as int));
        }
        if row[i] > 0 {
            c = c + 1;
        }
        i = i + 1;
    }
    proof {
        assert(row@.take(row@.len() as int) == row@);
    }
    c
}

proof fn lemma_positive_bound(row: Seq<u32>)
    ensures
        positive_count_all(row) <= row.len(),
    decreases row.len(),
{
    if row.len() > 0 {
        lemma_positive_bound(row.drop_last());
    }
}

fn count_positive_matrix(m: &Vec<Vec<u32>>) -> (c: usize)
    requires
        positive_entries(m@) <= usize::MAX,
    ensures
        c == positive_entries(m@),
{
    let mut c: usize = 0;
    let mut i: usize = 0;
    while i < m.len()
        invariant
            i <= m@.len(),
            positive_entries(m@) <= usize::MAX,
            c == positive_entries(m@.take(i as int)),
        decreases m@.len() - i,
    {
        proof {
            assert(m@.take(i + 1).drop_last() == m@.take(i as int));
            lemma_positive_prefix(m@, i as int + 1);
        }
        let r = count_positive_row(&m[i]);
        c = c + r;
        i = i + 1;
    }
    proof {
        assert(m@.take(m@.len() as int) == m@);
    }
    c
}

proof fn lemma_positive_prefix(m: Seq<Vec<u32>>, k: int)
    requires
        0 <= k <= m.len(),
    ensures
        positive_entries(m.take(k)) <= positive_entries(m),
    decreases m.len() - k,
{
    if k < m.len() {
        lemma_positive_prefix(m, k + 1);
        assert(m.take(k + 1).drop_last() == m.take(k));
    } else {
        assert(m.take(k) == m);
    }
}

fn sum_row(row: &Vec<u32>) -> (s: usize)
    requires
        row_sum(row@) <= usize::MAX,
    ensures
        s == row_sum(row@),
{
    let mut s: usize = 0;
    let mut i: usize = 0;
    while i < row.len()
        invariant
            i <= row@.len(),
            row_sum(row@) <= usize::MAX,
            s == row_sum(row@.take(i as int)),
        decreases row@.len() - i,
    {
        proof {
            assert(row@.take(i + 1).drop_last() == row@.take(i as int));
            lemma_row_sum_prefix(row@, i as int + 1);
        }
        s = s + row[i] as usize;
        i = i + 1;
    }
    proof {
        assert(row@.take(row@.len() as int) == row@);
    }
    s
}

proof fn lemma_row_sum_prefix(row: Seq<u32>, k: int)
    requires
        0 <= k <= row.len(),
    ensures
        row_sum(row.take(k)) <= row_sum(row),
    decreases row.len() - k,
{
    if k < row.len() {
        lemma_row_sum_prefix(row, k + 1);
        assert(row.take(k + 1).drop_last() == row.take(k));
    } else {
        assert(row.take(k) == row);
    }
}

proof fn lemma_matrix_sum_prefix(m: Seq<Vec<u32>>, k: int)
    requires
        0 <= k <= m.len(),
    ensures
        matrix_sum(m.take(k)) <= matrix_sum(m),
    decreases m.len() - k,
{
    if k < m.len() {
        lemma_matrix_sum_prefix(m, k + 1);
        assert(m.take(k + 1).drop_last() == m.take(k));
    } else {
        assert(m.take(k) == m);
    }
}

fn sum_matrix(m: &Vec<Vec<u32>>) -> (s: usize)
    requires
        matrix_sum(m@) <= usize::MAX,
    ensures
        s == matrix_sum(m@),
{
    let mut s: usize = 0;
    let mut i: usize = 0;
    while i < m.len()
        invariant
            i <= m@.len(),
            matrix_sum(m@) <= usize::MAX,
            s == matrix_sum(m@.take(i as int)),
        decreases m@.len() - i,
    {
        proof {
            assert(m@.take(i + 1).drop_last() == m@.take(i as int));
            lemma_matrix_sum_prefix(m@, i as int + 1);
        }
        let r = sum_row(&m[i]);
        s = s + r;
        i = i + 1;
    }
    proof {
        assert(m@.take(m@.len() as int) == m@);
    }
    s
}

proof fn lemma_positive_le_sum(m: Seq<Vec<u32>>)
    ensures
        positive_entries(m) <= matrix_sum(m),
    decreases m.len(),
{
    if m.len() > 0 {
        lemma_positive_le_sum(m.drop_last());
        lemma_positive_le_row(m.last()@);
    }
}

proof fn lemma_positive_le_row(row: Seq<u32>)
    ensures
        positive_count_all(row) <= row_sum(row),
    decreases row.len(),
{
    if row.len() > 0 {
        lemma_positive_le_row(row.drop_last());
    }
}

fn checked_row_sum(row: &Vec<u32>, start: usize) -> (r: Option<usize>)
    ensures
        r == (if start + row_sum(row@) <= usize::MAX {
            Some((start + row_sum(row@)) as usize)
        } else {
            None::<usize>
        }),
{
    let mut s: usize = start;
    let mut i: usize = 0;
    while i < row.len()
        invariant
            i <= row@.len(),
            s == start + row_sum(row@.take(i as int)),
        decreases row@.len() - i,
    {
        proof {
            assert(row@.take(i + 1).drop_last() == row@.take(i as int));
            lemma_row_sum_prefix(row@, i as int + 1);
        }
        match s.checked_add(row[i] as usize) {
            Some(v) => {
                s = v;
            },
            None => {
                return None;
            },
        }
        i = i + 1;
    }
    proof {
        assert(row@.take(row@.len() as int) == row@);
    }
    Some(s)
}

fn checked_matrix_sum(m: &Vec<Vec<u32>>, start: usize) -> (r: Option<usize>)
    ensures
        r == (if start + matrix_sum(m@) <= usize::MAX {
            Some((start + matrix_sum(m@)) as usize)
        } else {
            None::<usize>
        }),
{
    let mut s: usize = start;
    let mut i: usize = 0;
    while i < m.len()
        invariant
            i <= m@.len(),
            s == start + matrix_sum(m@.take(i as int)),
        decreases m@.len() - i,
    {
        proof {
            assert(m@.take(i + 1).drop_last() == m@.take(i as int));
            lemma_matrix_sum_prefix(m@, i as int + 1);
        }
        match checked_row_sum(&m[i], s) {
            Some(v) => {
                s = v;
            },
            None => {
                return None;
            },
        }
        i = i + 1;
    }
    proof {
        assert(m@.take(m@.len() as int) == m@);
    }
    Some(s)
}

/// Whether the weights and initial tokens of a net add up within `usize`,
/// as the automatic state limit needs.
pub fn net_sums_fit(net: &PetriNetModel) -> (r: bool)
    ensures
        r == sums_fit(*net),
{
    let a = match checked_matrix_sum(&net.tables.pre, 0) {
        Some(v) => v,
        None => {
            return false;
        },
    };
    let b = match checked_matrix_sum(&net.tables.post, a) {
        Some(v) => v,
        None => {
            return false;
        },
    };
    let c = checked_matrix_sum(&net.tables.inhibitor, b);
    if c.is_none() {
        return false;
    }
    checked_row_sum(&net.tables.m0, 0).is_some()
}

/// The automatic state limit for a graph of `state_count` states with
/// `edge_count` edges and `queue_len` states waiting.
pub fn auto_state_limit(net: &PetriNetModel, state_count: usize, edge_count: usize, queue_len: usize) -> (r: usize)
    requires
        sums_fit(*net),
    ensures
        r == auto_limit(*net, state_count as nat, edge_count as nat, queue_len as nat),
{
    let states = if state_count < 1 { 1 } else { state_count };
    let estimated = estimate_graph_bytes(net, states, edge_count, queue_len);
    let q = estimated / states;
    let per_state = if q < 1 { 1 } else { q };
    let memory_budget_limit = TARGET_MARKOV_GRAPH_BYTES / per_state;
    let places = net.places.len();
    let transitions = net.transitions.len();
    proof {
        lemma_positive_le_sum(net.tables.pre@);
        lemma_positive_le_sum(net.tables.post@);
        lemma_positive_le_sum(net.tables.inhibitor@);
    }
    let arc_count = count_positive_matrix(&net.tables.pre) + count_positive_matrix(&net.tables.post)
        + count_positive_matrix(&net.tables.inhibitor);
    let total_weight = sum_matrix(&net.tables.pre) + sum_matrix(&net.tables.post) + sum_matrix(&net.tables.inhibitor);
    let initial_tokens = sum_row(&net.tables.m0);
    let tokens_part = if initial_tokens < 5000 { initial_tokens } else { 5000 };
    let weight_part = if total_weight < 10_000 { total_weight } else { 10_000 };
    let structure_floor = DEFAULT_MIN_MAX_STATES.saturating_add(mul_sat(places, 24)).saturating_add(
        mul_sat(transitions, 40),
    ).saturating_add(mul_sat(arc_count, 10)).saturating_add(mul_sat(tokens_part, 2)).saturating_add(weight_part);
    let a = if memory_budget_limit > structure_floor { memory_budget_limit } else { structure_floor };
    let b = if a > states { a } else { states };
    if b < DEFAULT_MIN_MAX_STATES {
        DEFAULT_MIN_MAX_STATES
    } else if b > HARD_AUTO_MAX_STATES {
        HARD_AUTO_MAX_STATES
    } else {
        b
    }
}

/// Some place has a positive delay or a random delay law: then a marking
/// alone does not describe the system's state.
pub open spec fn timed_net(net: PetriNetModel) -> bool {
    ||| exists|i: int| 0 <= i < net.tables.mz@.len() && f64_is_positive(#[trigger] net.tables.mz@[i])
    ||| exists|i: int| 0 <= i < net.places@.len() && (#[trigger] net.places@[i]).stochastic
        != StochasticDistribution::Deterministic
}

/// Whether some place has a positive delay or a random delay law.
pub fn net_has_timed_behavior(net: &PetriNetModel) -> (r: bool)
    ensures
        r == timed_net(*net),
{
    let mut i: usize = 0;
    while i < net.tables.mz.len()
        invariant
            i <= net.tables.mz@.len(),
            forall|k: int| 0 <= k < i ==> !f64_is_positive(#[trigger] net.tables.mz@[k]),
        decreases net.tables.mz@.len() - i,
    {
        if f64_bits_is_positive(net.tables.mz[i]) {
            return true;
        }
        i = i + 1;
    }
    let mut j: usize = 0;
    while j < net.places.len()
        invariant
            j <= net.places@.len(),
            forall|k: int| 0 <= k < net.tables.mz@.len() ==> !f64_is_positive(#[trigger] net.tables.mz@[k]),
            forall|k: int| 0 <= k < j ==> (#[trigger] net.places@[k]).stochastic == StochasticDistribution::Deterministic,
        decreases net.places@.len() - j,
    {
        let deterministic = match net.places[j].stochastic {
            StochasticDistribution::Deterministic => true,
            _ => false,
        };
        if !deterministic {
            return true;
        }
        j = j + 1;
    }
    false
}

/// What became of the stationary distribution of a chain.
#[derive(Clone, Copy, Debug, PartialEq, Eq, Structural)]
pub enum StationaryStatus {
    /// A distribution was found.
    Computed,
    /// The state limit stopped the exploration.
    LimitReached { explored_states: usize, limit: usize },
    /// The net has delays or random delay laws, so markings are not states.
    TimedNetUnsupported,
    /// The solver ran and did not find a distribution.
    SolverDidNotConverge,
    /// The chain needs the iterative solver, which has not run on it yet.
    SolverPending,
    /// No state has an outgoing edge.
    NoDynamicTransitions,
}

/// The reachability graph of a net: its markings, for each the edges to
/// other markings with how many transitions lead there (the rate), and
/// the stationary distribution (binary64 bits) when known.
#[derive(Clone, Debug)]
pub struct MarkovChain {
    pub states: Vec<Vec<u32>>,
    pub transitions: Vec<Vec<(usize, usize)>>,
    pub stationary: Option<Vec<F64Bits>>,
    pub limit_reached: bool,
    pub state_limit: usize,
    pub stationary_status: StationaryStatus,
}

impl MarkovChain {
    /// The number of states.
    pub fn state_count(&self) -> (n: usize)
        ensures
            n == self.states@.len(),
    {
        self.states.len()
    }

    /// Records what the iterative solver gave for a chain that waits for
    /// it: a distribution makes it `Computed`, no distribution makes it
    /// `SolverDidNotConverge`. Any other chain stays as it is.
    pub fn record_solver_outcome(&mut self, outcome: Option<Vec<F64Bits>>)
        ensures
            old(self).stationary_status == StationaryStatus::SolverPending ==> {
                &&& final(self).stationary == outcome
                &&& final(self).stationary_status == (if outcome is Some {
                    StationaryStatus::Computed
                } else {
                    StationaryStatus::SolverDidNotConverge
                })
                &&& final(self).states == old(self).states
                &&& final(self).transitions == old(self).transitions
                &&& final(self).limit_reached == old(self).limit_reached
                &&& final(self).state_limit == old(self).state_limit
            },
            old(self).stationary_status != StationaryStatus::SolverPending ==> *final(self) == *old(self),
    {
        match self.stationary_status {
            StationaryStatus::SolverPending => {
                self.stationary_status = if outcome.is_some() {
                    StationaryStatus::Computed
                } else {
                    StationaryStatus::SolverDidNotConverge
                };
                self.stationary = outcome;
            },
            _ => {},
        }
    }
}

/// A 61-bit fingerprint of a marking, for bucketing the states found.
pub open spec fn fingerprint(m: Seq<u32>) -> u64
    decreases m.len(),
{
    if m.len() == 0 {
        7
    } else {
        ((fingerprint(m.drop_last()) as int * 1_000_003 + m.last() as int) % 0x1FFF_FFFF_FFFF_FFFF) as u64
    }
}

fn marking_fingerprint(m: &Vec<u32>) -> (h: u64)
    ensures
        h == fingerprint(m@),
{
    let mut h: u64 = 7;
    let mut i: usize = 0;
    while i < m.len()
        invariant
            i <= m@.len(),
            h == fingerprint(m@.take(i as int)),
            h < 0x1FFF_FFFF_FFFF_FFFF || i == 0,
        decreases m@.len() - i,
    {
        proof {
            assert(m@.take(i + 1).drop_last() == m@.take(i as int));
        }
        let v: u128 = (h as u128 * 1_000_003 + m[i] as u128) % 0x1FFF_FFFF_FFFF_FFFF;
        h = v as u64;
        i = i + 1;
    }
    proof {
        assert(m@.take(m@.len() as int) == m@);
    }
    h
}

/// No marking occurs twice.
pub open spec fn distinct_markings(s: Seq<Vec<u32>>) -> bool {
    forall|i: int, j: int| 0 <= i < j < s.len() ==> (#[trigger] s[i])@ != (#[trigger] s[j])@
}

/// `index` maps fingerprints to the positions of the states with them.
pub open spec fn index_ok(index: Map<u64, Vec<usize>>, s: Seq<Vec<u32>>) -> bool {
    &&& forall|i: int|
        0 <= i < s.len() ==> #[trigger] index.contains_key(fingerprint(s[i]@)) && index[fingerprint(s[i]@)]@.contains(
            i as usize,
        )
    &&& forall|f: u64, k: int|
        #![trigger index[f]@[k]]
        index.contains_key(f) && 0 <= k < index[f]@.len() ==> index[f]@[k] < s.len() && fingerprint(
            s[index[f]@[k] as int]@,
        ) == f
}

fn same_marking(a: &Vec<u32>, b: &Vec<u32>) -> (r: bool)
    ensures
        r == (a@ == b@),
{
    if a.len() != b.len() {
        return false;
    }
    let mut i: usize = 0;
    while i < a.len()
        invariant
            i <= a@.len(),
            a@.len() == b@.len(),
            forall|k: int| 0 <= k < i ==> a@[k] == b@[k],
        decreases a@.len() - i,
    {
        if a[i] != b[i] {
            return false;
        }
        i = i + 1;
    }
    proof {
        assert(a@ =~= b@);
    }
    true
}

fn find_state(states: &Vec<Vec<u32>>, index: &HashMap<u64, Vec<usize>>, m: &Vec<u32>, f: u64) -> (r: Option<usize>)
    requires
        index_ok(index@, states@),
        f == fingerprint(m@),
    ensures
        r matches Some(i) ==> i < states@.len() && states@[i as int]@ == m@,
        r is None ==> forall|i: int| 0 <= i < states@.len() ==> (#[trigger] states@[i])@ != m@,
{
    match index.get(&f) {
        None => {
            proof {
                assert forall|i: int| 0 <= i < states@.len() implies (#[trigger] states@[i])@ != m@ by {
                    if states@[i]@ == m@ {
                        assert(index@.contains_key(fingerprint(states@[i]@)));
                    }
                }
            }
            None
        },
        Some(bucket) => {
            let mut k: usize = 0;
            while k < bucket.len()
                invariant
                    k <= bucket@.len(),
                    index@.contains_key(f),
                    index@[f] == *bucket,
                    index_ok(index@, states@),
                    forall|j: int| 0 <= j < k ==> states@[bucket@[j] as int]@ != m@,
                decreases bucket@.len() - k,
            {
                let i = bucket[k];
                proof {
                    assert(index@[f]@[k as int] == i);
                }
                if same_marking(&states[i], m) {
                    return Some(i);
                }
                k = k + 1;
            }
            proof {
                assert forall|i: int| 0 <= i < states@.len() implies (#[trigger] states@[i])@ != m@ by {
                    if states@[i]@ == m@ {
                        assert(i < states.len());
                        let iu = i as usize;
                        assert(index@.contains_key(fingerprint(states@[i]@)));
                        assert(index@[f]@.contains(iu));
                        let j = choose|j: int| 0 <= j < index@[f]@.len() && index@[f]@[j] == iu;
                        assert(bucket@[j] == iu);
                        assert(states@[bucket@[j] as int]@ != m@);
                    }
                }
            }
            None
        },
    }
}

fn register_state(index: &mut HashMap<u64, Vec<usize>>, f: u64, i: usize, Ghost(states): Ghost<Seq<Vec<u32>>>)
    requires
        index_ok(old(index)@, states.drop_last()),
        states.len() == i + 1,
        f == fingerprint(states[i as int]@),
    ensures
        index_ok(final(index)@, states),
{
    let ghost old_map = index@;
    let mut bucket = match index.remove(&f) {
        Some(b) => b,
        None => Vec::new(),
    };
    proof {
        if old_map.contains_key(f) {
            assert(bucket == old_map[f]);
        } else {
            assert(bucket@.len() == 0);
        }
    }
    let ghost old_bucket = bucket@;
    bucket.push(i);
    index.insert(f, bucket);
    proof {
        let prev = states.drop_last();
        assert forall|j: int| 0 <= j < states.len() implies #[trigger] index@.contains_key(fingerprint(states[j]@))
            && index@[fingerprint(states[j]@)]@.contains(j as usize) by {
            if j < i {
                assert(prev[j] == states[j]);
                assert(old_map.contains_key(fingerprint(prev[j]@)));
                if fingerprint(states[j]@) == f {
                    let q = choose|q: int| 0 <= q < old_map[f]@.len() && old_map[f]@[q] == j as usize;
                    assert(index@[f]@[q] == j as usize);
                } else {
                    assert(index@[fingerprint(states[j]@)] == old_map[fingerprint(states[j]@)]);
                }
            } else {
                assert(index@[f]@[old_bucket.len() as int] == i);
            }
        }
        assert forall|g: u64, k: int|
            #![trigger index@[g]@[k]]
            index@.contains_key(g) && 0 <= k < index@[g]@.len() implies index@[g]@[k] < states.len() && fingerprint(
                states[index@[g]@[k] as int]@,
            ) == g by {
            if g == f {
                if k < old_bucket.len() {
                    assert(old_map[f]@[k] == index@[g]@[k]);
                    assert(prev[index@[g]@[k] as int] == states[index@[g]@[k] as int]);
                }
            } else {
                assert(old_map[g]@[k] == index@[g]@[k]);
                assert(prev[index@[g]@[k] as int] == states[index@[g]@[k] as int]);
            }
        }
    }
}

/// How often `x` occurs in `ts`.
pub open spec fn occurrences(ts: Seq<usize>, x: usize) -> nat
    decreases ts.len(),
{
    if ts.len() == 0 {
        0
    } else {
        occurrences(ts.drop_last(), x) + if ts.last() == x {
            1nat
        } else {
            0nat
        }
    }
}

proof fn lemma_occurrences(ts: Seq<usize>, x: usize)
    ensures
        occurrences(ts, x) <= ts.len(),
        occurrences(ts, x) > 0 <==> ts.contains(x),
    decreases ts.len(),
{
    if ts.len() > 0 {
        lemma_occurrences(ts.drop_last(), x);
        if ts.contains(x) && ts.last() != x {
            let j = choose|j: int| 0 <= j < ts.len() && ts[j] == x;
            assert(ts.drop_last()[j] == x);
        }
        if ts.drop_last().contains(x) {
            let j = choose|j: int| 0 <= j < ts.len() - 1 && ts.drop_last()[j] == x;
            assert(ts[j] == x);
        }
        if ts.last() == x {
            assert(ts[ts.len() - 1] == x);
        }
    }
}

/// `edges` groups the targets `ts`: strictly increasing targets, each with
/// how often it occurs, and every target present.
pub open spec fn edges_tally(edges: Seq<(usize, usize)>, ts: Seq<usize>) -> bool {
    &&& forall|i: int, j: int| 0 <= i < j < edges.len() ==> (#[trigger] edges[i]).0 < (#[trigger] edges[j]).0
    &&& forall|i: int| 0 <= i < edges.len() ==> (#[trigger] edges[i]).1 == occurrences(ts, edges[i].0) && edges[i].1 >= 1
    &&& forall|k: int| 0 <= k < ts.len() ==> exists|i: int| 0 <= i < edges.len() && (#[trigger] edges[i]).0 == #[trigger] ts[k]
}

fn add_edge(edges: &mut Vec<(usize, usize)>, target: usize, Ghost(ts): Ghost<Seq<usize>>, bound: usize)
    requires
        edges_tally(old(edges)@, ts),
        ts.len() < bound,
    ensures
        edges_tally(final(edges)@, ts.push(target)),
{
    let ghost ts2 = ts.push(target);
    proof {
        assert(ts2.drop_last() == ts);
        lemma_occurrences(ts, target);
    }
    let mut j: usize = 0;
    while j < edges.len() && edges[j].0 < target
        invariant
            j <= edges@.len(),
            forall|i: int| 0 <= i < j ==> (#[trigger] edges@[i]).0 < target,
        decreases edges@.len() - j,
    {
        j = j + 1;
    }
    let ghost before = edges@;
    if j < edges.len() && edges[j].0 == target {
        let c = edges[j].1;
        proof {
            assert(c == occurrences(ts, target));
        }
        edges.set(j, (target, c + 1));
        proof {
            assert forall|i: int| 0 <= i < edges@.len() implies (#[trigger] edges@[i]).1 == occurrences(ts2, edges@[i].0)
                && edges@[i].1 >= 1 by {
                if i != j {
                    if i < j {
                    } else {
                        assert(before[j as int].0 < before[i].0);
                    }
                }
            }
            assert forall|k: int| 0 <= k < ts2.len() implies exists|i: int| 0 <= i < edges@.len() && (#[trigger] edges@[i]).0 == #[trigger] ts2[k] by {
                if k < ts.len() {
                    assert(ts2[k] == ts[k]);
                    let i = choose|i: int| 0 <= i < before.len() && (#[trigger] before[i]).0 == ts[k];
                    assert(edges@[i].0 == ts2[k]);
                } else {
                    assert(edges@[j as int].0 == ts2[k]);
                }
            }
        }
    } else {
        proof {
            assert(!ts.contains(target)) by {
                if ts.contains(target) {
                    let k = choose|k: int| 0 <= k < ts.len() && ts[k] == target;
                    let i = choose|i: int| 0 <= i < before.len() && (#[trigger] before[i]).0 == ts[k];
                    if i < j {
                    } else if i > j {
                        assert(before[j as int].0 < before[i].0);
                    }
                }
            }
        }
        edges.insert(j, (target, 1));
        proof {
            assert(edges@ == before.insert(j as int, (target, 1usize)));
            assert forall|a: int, b: int| 0 <= a < b < edges@.len() implies (#[trigger] edges@[a]).0 < (#[trigger] edges@[b]).0 by {
                if a < j && b == j {
                } else if a < j && b > j {
                    if b - 1 > j {
                        assert(before[j as int].0 < before[b - 1].0);
                    }
                } else if a == j {
                    if b - 1 > j {
                        assert(before[j as int].0 < before[b - 1].0);
                    }
                } else if b <= j {
                    assert(before[a].0 < before[b].0);
                } else {
                    assert(before[a - 1].0 < before[b - 1].0);
                }
            }
            assert forall|i: int| 0 <= i < edges@.len() implies (#[trigger] edges@[i]).1 == occurrences(ts2, edges@[i].0)
                && edges@[i].1 >= 1 by {
                if i < j {
                    assert(edges@[i] == before[i]);
                } else if i > j {
                    assert(edges@[i] == before[i - 1]);
                    if i - 1 > j {
                        assert(before[j as int].0 < before[i - 1].0);
                    }
                }
            }
            assert forall|k: int| 0 <= k < ts2.len() implies exists|i: int| 0 <= i < edges@.len() && (#[trigger] edges@[i]).0 == #[trigger] ts2[k] by {
                if k < ts.len() {
                    assert(ts2[k] == ts[k]);
                    let i = choose|i: int| 0 <= i < before.len() && (#[trigger] before[i]).0 == ts[k];
                    if i < j {
                        assert(edges@[i].0 == ts2[k]);
                    } else {
                        assert(edges@[i + 1].0 == ts2[k]);
                    }
                } else {
                    assert(edges@[j as int].0 == ts2[k]);
                }
            }
        }
    }
}


proof fn lemma_column_within(m: Seq<Vec<u32>>, t: int, n: nat)
    requires
        n <= usize::MAX,
    ensures
        forall|k: int| 0 <= k < column_entries(m, t, n).len() ==> (#[trigger] column_entries(m, t, n)[k]).0 < n,
    decreases n,
{
    if n > 0 {
        lemma_column_within(m, t, (n - 1) as nat);
        let prev = column_entries(m, t, (n - 1) as nat);
        assert forall|k: int| 0 <= k < column_entries(m, t, n).len() implies (#[trigger] column_entries(m, t, n)[k]).0
            < n by {
            if k < prev.len() {
                assert(column_entries(m, t, n)[k] == prev[k]);
            }
        }
    }
}

proof fn lemma_capacity_within(pre: Seq<Vec<u32>>, post: Seq<Vec<u32>>, t: int, n: nat)
    requires
        n <= usize::MAX,
    ensures
        forall|k: int| 0 <= k < capacity_entries(pre, post, t, n).len() ==> (#[trigger] capacity_entries(pre, post, t, n)[k]).0 < n,
    decreases n,
{
    if n > 0 {
        lemma_capacity_within(pre, post, t, (n - 1) as nat);
        let prev = capacity_entries(pre, post, t, (n - 1) as nat);
        assert forall|k: int| 0 <= k < capacity_entries(pre, post, t, n).len() implies (#[trigger] capacity_entries(
            pre,
            post,
            t,
            n,
        )[k]).0 < n by {
            if k < prev.len() {
                assert(capacity_entries(pre, post, t, n)[k] == prev[k]);
            }
        }
    }
}

/// `specs` describes the transition columns of `net`, one spec per column.
pub open spec fn specs_of(specs: Seq<TransitionSpec>, net: PetriNetModel) -> bool {
    &&& specs.len() == net.transitions@.len()
    &&& forall|t: int| 0 <= t < specs.len() ==> spec_of_column(#[trigger] specs[t], net, t)
}

proof fn lemma_specs_within(specs: Seq<TransitionSpec>, net: PetriNetModel, n: nat)
    requires
        specs_of(specs, net),
        net.places@.len() <= usize::MAX,
        net.places@.len() <= n,
    ensures
        specs_within(specs, n),
{
    let np = net.places@.len();
    assert forall|t: int| 0 <= t < specs.len() implies spec_within(#[trigger] specs[t], n) by {
        lemma_column_within(net.tables.pre@, t, np);
        lemma_column_within(net.tables.post@, t, np);
        lemma_column_within(net.tables.inhibitor@, t, np);
        lemma_capacity_within(net.tables.pre@, net.tables.post@, t, np);
    }
}

proof fn lemma_ranked_bound(mo: Seq<Option<u32>>, specs: Seq<TransitionSpec>, m: Seq<u32>, best: (i32, u32), n: nat)
    requires
        n <= usize::MAX,
    ensures
        ranked_upto(mo, specs, m, best, n).len() <= n,
        forall|k: int| 0 <= k < ranked_upto(mo, specs, m, best, n).len() ==> (#[trigger] ranked_upto(mo, specs, m, best, n)[k]) < n,
    decreases n,
{
    if n > 0 {
        lemma_ranked_bound(mo, specs, m, best, (n - 1) as nat);
        let prev = ranked_upto(mo, specs, m, best, (n - 1) as nat);
        assert forall|k: int| 0 <= k < ranked_upto(mo, specs, m, best, n).len() implies (#[trigger] ranked_upto(
            mo,
            specs,
            m,
            best,
            n,
        )[k]) < n by {
            if k < prev.len() {
                assert(ranked_upto(mo, specs, m, best, n)[k] == prev[k]);
            }
        }
    }
}

proof fn lemma_fired_len(marking: Seq<u32>, s: TransitionSpec)
    requires
        spec_within(s, marking.len()),
    ensures
        fired(marking, s).len() == marking.len(),
{
    lemma_tokens_len(marking, s.pre@, s.pre@.len());
    let taken = take_tokens(marking, s.pre@, s.pre@.len());
    lemma_tokens_len(taken, s.post@, s.post@.len());
}

/// The first `ts.len()` competing transitions at state `i`, in order, lead
/// to the states that `ts` names.
pub open spec fn leads_to(
    states: Seq<Vec<u32>>,
    mo: Seq<Option<u32>>,
    specs: Seq<TransitionSpec>,
    i: int,
    ts: Seq<usize>,
) -> bool {
    let c = candidates(mo, specs, states[i]@);
    &&& ts.len() <= c.len()
    &&& forall|k: int|
        0 <= k < ts.len() ==> (#[trigger] ts[k]) < states.len() && states[ts[k] as int]@ == fired(
            states[i]@,
            specs[c[k] as int],
        )
}

/// `targets` names, for each state, the states its competing transitions
/// lead to, and `transitions` tallies them; the states before `h` are
/// fully expanded, those after it not at all.
pub open spec fn graph_with(
    targets: Seq<Seq<usize>>,
    states: Seq<Vec<u32>>,
    transitions: Seq<Vec<(usize, usize)>>,
    mo: Seq<Option<u32>>,
    specs: Seq<TransitionSpec>,
    h: int,
) -> bool {
    &&& targets.len() == states.len()
    &&& transitions.len() == states.len()
    &&& 0 <= h <= states.len()
    &&& forall|i: int|
        0 <= i < states.len() ==> leads_to(states, mo, specs, i, #[trigger] targets[i]) && edges_tally(
            transitions[i]@,
            targets[i],
        )
    &&& forall|i: int| 0 <= i < h ==> (#[trigger] targets[i]).len() == candidates(mo, specs, states[i]@).len()
    &&& forall|i: int| h < i < states.len() ==> (#[trigger] targets[i]).len() == 0
}

/// The graph on `states` is a breadth-first exploration under `specs` in
/// which the states before `h` are fully expanded and those after it not
/// at all.
pub open spec fn explored(
    states: Seq<Vec<u32>>,
    transitions: Seq<Vec<(usize, usize)>>,
    mo: Seq<Option<u32>>,
    specs: Seq<TransitionSpec>,
    h: int,
) -> bool {
    exists|targets: Seq<Seq<usize>>| #[trigger] graph_with(targets, states, transitions, mo, specs, h)
}

/// Some edge of `edges` leads to state `j`.
pub open spec fn has_edge(edges: Seq<(usize, usize)>, j: int) -> bool {
    exists|e: int| 0 <= e < edges.len() && (#[trigger] edges[e]).0 == j
}

/// State `j` is the target of an edge of an earlier state.
pub open spec fn found_from_earlier(transitions: Seq<Vec<(usize, usize)>>, j: int) -> bool {
    exists|i: int| 0 <= i < j && #[trigger] has_edge(transitions[i]@, j)
}

/// Every state but the first was found along an edge of an earlier one.
pub open spec fn discovered(states: Seq<Vec<u32>>, transitions: Seq<Vec<(usize, usize)>>) -> bool {
    forall|j: int| 0 < j < states.len() ==> #[trigger] found_from_earlier(transitions, j)
}

/// The number of edges in all.
pub open spec fn edge_total(ts: Seq<Vec<(usize, usize)>>) -> nat
    decreases ts.len(),
{
    if ts.len() == 0 {
        0
    } else {
        edge_total(ts.drop_last()) + ts.last()@.len()
    }
}

/// No state has an edge.
pub open spec fn no_edges(ts: Seq<Vec<(usize, usize)>>) -> bool {
    forall|i: int| 0 <= i < ts.len() ==> (#[trigger] ts[i])@.len() == 0
}

/// The states found so far: the initial marking first, all of its length,
/// no marking twice, and `index` buckets them by fingerprint.
spec fn states_ok(states: Seq<Vec<u32>>, index: Map<u64, Vec<usize>>, m0: Seq<u32>) -> bool {
    &&& states.len() >= 1
    &&& states[0]@ == m0
    &&& forall|i: int| 0 <= i < states.len() ==> (#[trigger] states[i])@.len() == m0.len()
    &&& distinct_markings(states)
    &&& index_ok(index, states)
}

/// The state limit in force: the fixed one, or an automatic one within
/// its bounds; either way no smaller than the states found (but for the
/// initial marking under a limit of 0).
spec fn limit_ok(fixed: Option<usize>, limit: usize, n: nat) -> bool {
    match fixed {
        Some(l) => limit == l && (n <= l || n == 1),
        None => DEFAULT_MIN_MAX_STATES <= limit <= HARD_AUTO_MAX_STATES && n <= limit,
    }
}

proof fn lemma_auto_limit_bounds(net: PetriNetModel, s: nat, e: nat, q: nat)
    ensures
        DEFAULT_MIN_MAX_STATES <= auto_limit(net, s, e, q) <= HARD_AUTO_MAX_STATES,
        s <= HARD_AUTO_MAX_STATES ==> s <= auto_limit(net, s, e, q),
{
}

proof fn lemma_leads_to_extend(
    states: Seq<Vec<u32>>,
    states2: Seq<Vec<u32>>,
    mo: Seq<Option<u32>>,
    specs: Seq<TransitionSpec>,
    i: int,
    ts: Seq<usize>,
)
    requires
        0 <= i < states.len() <= states2.len(),
        states2.subrange(0, states.len() as int) == states,
        leads_to(states, mo, specs, i, ts),
    ensures
        leads_to(states2, mo, specs, i, ts),
{
    assert(states2[i] == states[i]);
    assert forall|k: int| 0 <= k < ts.len() implies (#[trigger] ts[k]) < states2.len() && states2[ts[k] as int]@ == fired(
        states2[i]@,
        specs[candidates(mo, specs, states2[i]@)[k] as int],
    ) by {
        assert(states2[ts[k] as int] == states[ts[k] as int]);
    }
}

proof fn lemma_edge_total_extend(ts: Seq<Vec<(usize, usize)>>, ts2: Seq<Vec<(usize, usize)>>)
    requires
        ts.len() <= ts2.len(),
        ts2.subrange(0, ts.len() as int) == ts,
        forall|j: int| ts.len() <= j < ts2.len() ==> (#[trigger] ts2[j])@.len() == 0,
    ensures
        edge_total(ts2) == edge_total(ts),
    decreases ts2.len(),
{
    if ts2.len() > ts.len() {
        let shorter = ts2.drop_last();
        assert(shorter.subrange(0, ts.len() as int) == ts);
        assert(ts2[ts2.len() - 1]@.len() == 0);
        lemma_edge_total_extend(ts, shorter);
    } else {
        assert(ts2 == ts);
    }
}

proof fn lemma_edge_total_update(ts: Seq<Vec<(usize, usize)>>, i: int, v: Vec<(usize, usize)>)
    requires
        0 <= i < ts.len(),
        ts[i]@.len() == 0,
    ensures
        edge_total(ts.update(i, v)) == edge_total(ts) + v@.len(),
    decreases ts.len(),
{
    if i == ts.len() - 1 {
        assert(ts.update(i, v).drop_last() == ts.drop_last());
    } else {
        lemma_edge_total_update(ts.drop_last(), i, v);
        assert(ts.update(i, v).drop_last() == ts.drop_last().update(i, v));
    }
}


/// Some entry of `ts` names state `j`.
spec fn names(ts: Seq<usize>, j: int) -> bool {
    exists|q: int| 0 <= q < ts.len() && ts[q] as int == j
}

/// Fires the competing transitions at state `idx` in order, adding each
/// marking not seen before as a new state while the limit allows, and
/// tallies the edges. Returns the edges, whether the limit stopped the
/// expansion, and the states the fired transitions led to.
#[verifier::rlimit(40)]
fn expand_state(
    net: &PetriNetModel,
    specs: &Vec<TransitionSpec>,
    states: &mut Vec<Vec<u32>>,
    transitions: &mut Vec<Vec<(usize, usize)>>,
    index: &mut HashMap<u64, Vec<usize>>,
    idx: usize,
    head: usize,
    fixed: Option<usize>,
    limit: &mut usize,
    total_edge_count: usize,
) -> (res: (Vec<(usize, usize)>, bool, Ghost<Seq<usize>>))
    requires
        specs_within(specs@, net.places@.len()),
        specs_within(specs@, net.tables.m0@.len()),
        specs_within(specs@, net.tables.mo@.len()),
        states_ok(old(states)@, old(index)@, net.tables.m0@),
        old(transitions)@.len() == old(states)@.len(),
        idx < head <= old(states)@.len(),
        limit_ok(fixed, *old(limit), old(states)@.len()),
        old(states)@.len() < *old(limit),
        fixed is None ==> sums_fit(*net),
    ensures
        states_ok(final(states)@, final(index)@, net.tables.m0@),
        final(states)@.len() >= old(states)@.len(),
        final(states)@.subrange(0, old(states)@.len() as int) == old(states)@,
        final(transitions)@.len() == final(states)@.len(),
        final(transitions)@.subrange(0, old(states)@.len() as int) == old(transitions)@,
        forall|j: int|
            old(states)@.len() <= j < final(states)@.len() ==> (#[trigger] final(transitions)@[j])@.len() == 0,
        leads_to(final(states)@, net.tables.mo@, specs@, idx as int, res.2@),
        edges_tally(res.0@, res.2@),
        !res.1 ==> res.2@.len() == candidates(net.tables.mo@, specs@, old(states)@[idx as int]@).len(),
        forall|j: int| old(states)@.len() <= j < final(states)@.len() ==> has_edge(res.0@, j),
        limit_ok(fixed, *final(limit), final(states)@.len()),
        fixed is Some ==> *final(limit) == *old(limit),
        res.1 ==> (fixed matches Some(l) ==> final(states)@.len() >= l),
        res.1 && fixed is None ==> final(states)@.len() >= HARD_AUTO_MAX_STATES,
{
    let ghost mo = net.tables.mo@;
    let ghost m0 = net.tables.m0@;
    let ghost old_states = states@;
    let ghost old_trans = transitions@;
    let ghost old_limit = *limit;
    let ghost old_len = states@.len();
    let marking = states[idx].clone();
    proof {
        assert(marking@ == old_states[idx as int]@);
    }
    let enabled = enabled_transition_candidates(net, specs.as_slice(), marking.as_slice());
    let n_specs = specs.len();
    proof {
        lemma_ranked_bound(
            mo,
            specs@,
            marking@,
            best_rank(mo, specs@, marking@, specs@.len()),
            n_specs as nat,
        );
    }
    let mut edges: Vec<(usize, usize)> = Vec::new();
    let ghost mut ts: Seq<usize> = Seq::empty();
    let mut hit = false;
    let mut k: usize = 0;
    while k < enabled.len() && !hit
        invariant
            enabled@ == candidates(mo, specs@, marking@),
            forall|q: int| 0 <= q < enabled@.len() ==> (#[trigger] enabled@[q]) < specs@.len(),
            marking@ == old_states[idx as int]@,
            mo == net.tables.mo@,
            m0 == net.tables.m0@,
            k <= enabled@.len(),
            specs_within(specs@, net.tables.m0@.len()),
            specs_within(specs@, net.tables.mo@.len()),
            states_ok(states@, index@, m0),
            old_len <= states@.len(),
            states@.subrange(0, old_len as int) == old_states,
            transitions@.len() == states@.len(),
            transitions@.subrange(0, old_len as int) == old_trans,
            forall|j: int| old_len <= j < states@.len() ==> (#[trigger] transitions@[j])@.len() == 0,
            idx < head <= old_len,
            ts.len() == k,
            leads_to(states@, mo, specs@, idx as int, ts),
            edges_tally(edges@, ts),
            forall|j: int| old_len <= j < states@.len() ==> names(ts, j),
            limit_ok(fixed, *limit, states@.len()),
            fixed is Some ==> *limit == old_limit,
            hit ==> (fixed matches Some(l) ==> states@.len() >= l),
            hit && fixed is None ==> states@.len() >= HARD_AUTO_MAX_STATES,
            fixed is None ==> sums_fit(*net),
        decreases enabled@.len() - k + (if hit { 0int } else { 1int }),
    {
        let t = enabled[k];
        proof {
            assert(t < specs@.len());
            assert(spec_within(specs@[t as int], marking@.len()));
            lemma_fired_len(marking@, specs@[t as int]);
        }
        let next = apply_transition(marking.as_slice(), &specs[t]);
        let f = marking_fingerprint(&next);
        let found = find_state(states, index, &next, f);
        let mut target: usize = 0;
        let ghost before = states@;
        match found {
            Some(id) => {
                target = id;
            },
            None => {
                let id = states.len();
                if id >= *limit {
                    if fixed.is_none() {
                        proof {
                            assert(id <= HARD_AUTO_MAX_STATES);
                        }
                        *limit = auto_state_limit(net, id + 1, total_edge_count, states.len() - head + 1);
                        proof {
                            lemma_auto_limit_bounds(
                                *net,
                                (id + 1) as nat,
                                total_edge_count as nat,
                                (states@.len() - head + 1) as nat,
                            );
                        }
                    }
                }
                if id >= *limit {
                    hit = true;
                } else {
                    states.push(next);
                    transitions.push(Vec::new());
                    proof {
                        assert(states@.drop_last() == before);
                    }
                    register_state(index, f, id, Ghost(states@));
                    target = id;
                    proof {
                        assert(states@.subrange(0, old_len as int) == before.subrange(0, old_len as int));
                        assert(transitions@.subrange(0, old_len as int) == transitions@.drop_last().subrange(
                            0,
                            old_len as int,
                        ));
                        assert forall|i: int, j: int| 0 <= i < j < states@.len() implies (#[trigger] states@[i])@
                            != (#[trigger] states@[j])@ by {
                            if j == states@.len() - 1 {
                                assert(states@[i] == before[i]);
                            } else {
                                assert(states@[i] == before[i]);
                                assert(states@[j] == before[j]);
                            }
                        }
                        assert forall|i: int| 0 <= i < states@.len() implies (#[trigger] states@[i])@.len() == m0.len() by {
                            if i < before.len() {
                                assert(states@[i] == before[i]);
                            }
                        }
                    }
                }
            },
        }
        if !hit {
            proof {
                assert(states@[target as int]@ == fired(marking@, specs@[t as int]));
                assert forall|q: int| 0 <= q < ts.len() implies (#[trigger] ts[q]) < states@.len() && states@[ts[q] as int]@
                    == fired(states@[idx as int]@, specs@[enabled@[q] as int]) by {
                    assert(states@[ts[q] as int] == before[ts[q] as int]);
                    assert(states@[idx as int] == before[idx as int]);
                }
            }
            add_edge(&mut edges, target, Ghost(ts), enabled.len());
            proof {
                let ts2 = ts.push(target);
                assert(states@[idx as int] == old_states[idx as int]);
                assert forall|q: int| 0 <= q < ts2.len() implies (#[trigger] ts2[q]) < states@.len() && states@[ts2[q] as int]@
                    == fired(states@[idx as int]@, specs@[enabled@[q] as int]) by {
                    if q < ts.len() {
                        assert(ts2[q] == ts[q]);
                    }
                }
                assert forall|j: int| old_len <= j < states@.len() implies names(ts2, j) by {
                    if j < before.len() {
                        assert(names(ts, j));
                        let q = choose|q: int| 0 <= q < ts.len() && ts[q] as int == j;
                        assert(ts2[q] == ts[q]);
                    } else {
                        assert(ts2[ts.len() as int] == target);
                    }
                }
                ts = ts2;
            }
            k = k + 1;
        }
    }
    proof {
        assert forall|j: int| old_len <= j < states@.len() implies has_edge(edges@, j) by {
            assert(names(ts, j));
            let q = choose|q: int| 0 <= q < ts.len() && ts[q] as int == j;
            let e = choose|e: int| 0 <= e < edges@.len() && (#[trigger] edges@[e]).0 == #[trigger] ts[q];
            assert(edges@[e].0 == j);
        }
    }
    (edges, hit, Ghost(ts))
}


proof fn lemma_graph_after_expand(
    targets: Seq<Seq<usize>>,
    states: Seq<Vec<u32>>,
    transitions: Seq<Vec<(usize, usize)>>,
    states2: Seq<Vec<u32>>,
    transitions2: Seq<Vec<(usize, usize)>>,
    edges: Vec<(usize, usize)>,
    ts: Seq<usize>,
    idx: int,
    hit: bool,
    mo: Seq<Option<u32>>,
    specs: Seq<TransitionSpec>,
) -> (targets2: Seq<Seq<usize>>)
    requires
        graph_with(targets, states, transitions, mo, specs, idx),
        forall|i: int| idx <= i < states.len() ==> (#[trigger] targets[i]).len() == 0 && transitions[i]@.len() == 0,
        0 <= idx < states.len() <= states2.len(),
        states2.subrange(0, states.len() as int) == states,
        transitions2.len() == states2.len(),
        transitions2.subrange(0, states.len() as int) == transitions,
        forall|j: int| states.len() <= j < states2.len() ==> (#[trigger] transitions2[j])@.len() == 0,
        leads_to(states2, mo, specs, idx, ts),
        edges_tally(edges@, ts),
        !hit ==> ts.len() == candidates(mo, specs, states[idx]@).len(),
    ensures
        graph_with(targets2, states2, transitions2.update(idx, edges), mo, specs, if hit { idx } else { idx + 1 }),
        forall|i: int| idx < i < states2.len() ==> (#[trigger] targets2[i]).len() == 0 && transitions2.update(idx, edges)[i]@.len() == 0,
{
    let n = states.len();
    let t3 = transitions2.update(idx, edges);
    let targets2 = Seq::new(
        states2.len(),
        |i: int|
            if i == idx {
                ts
            } else if i < n {
                targets[i]
            } else {
                Seq::empty()
            },
    );
    assert forall|i: int| 0 <= i < states2.len() implies leads_to(states2, mo, specs, i, #[trigger] targets2[i]) && edges_tally(
        t3[i]@,
        targets2[i],
    ) by {
        if i == idx {
        } else if i < n {
            lemma_leads_to_extend(states, states2, mo, specs, i, targets[i]);
            assert(t3[i] == transitions[i]);
        } else {
            assert(targets2[i] == Seq::<usize>::empty());
            assert(t3[i]@.len() == 0);
        }
    }
    assert forall|i: int| 0 <= i < (if hit { idx } else { idx + 1 }) implies (#[trigger] targets2[i]).len() == candidates(
        mo,
        specs,
        states2[i]@,
    ).len() by {
        assert(states2[i] == states[i]);
    }
    assert forall|i: int| idx < i < states2.len() implies (#[trigger] targets2[i]).len() == 0 && t3[i]@.len() == 0 by {
        if i < n {
            assert(t3[i] == transitions[i]);
            assert(targets2[i] == targets[i]);
            assert(targets[i].len() == 0);
        } else {
            assert(targets2[i] == Seq::<usize>::empty());
        }
    }
    targets2
}

/// The binary64 bits of 1.0: the whole distribution of a one-state chain.
pub const STATIONARY_ONE: F64Bits = 0x3FF0_0000_0000_0000;

fn all_edges_empty(transitions: &Vec<Vec<(usize, usize)>>) -> (r: bool)
    ensures
        r == no_edges(transitions@),
{
    let mut i: usize = 0;
    while i < transitions.len()
        invariant
            i <= transitions@.len(),
            forall|k: int| 0 <= k < i ==> (#[trigger] transitions@[k])@.len() == 0,
        decreases transitions@.len() - i,
    {
        if transitions[i].len() != 0 {
            return false;
        }
        i = i + 1;
    }
    true
}


/// The graph on `states` is explored breadth-first under the net's
/// transitions; unless the limit cut it, completely.
pub open spec fn reachability_graph(
    net: PetriNetModel,
    states: Seq<Vec<u32>>,
    transitions: Seq<Vec<(usize, usize)>>,
    limit_reached: bool,
) -> bool {
    exists|specs: Seq<TransitionSpec>, h: int|
        specs_of(specs, net) && #[trigger] explored(states, transitions, net.tables.mo@, specs, h) && (!limit_reached
            ==> h == states.len())
}

/// How many states the exploration may reach at most.
spec fn state_bound(fixed: Option<usize>) -> int {
    match fixed {
        Some(l) => if l == 0 { 1 } else { l as int },
        None => HARD_AUTO_MAX_STATES as int,
    }
}

/// Explores the markings reachable from the initial one breadth-first,
/// under the fixed state limit `max_states` or, without one, under an
/// automatic limit recomputed from the graph's estimated size, and says
/// what can be said of the stationary distribution: none for a timed net
/// or a cut graph, the point mass for a single state, none when nothing
/// can fire; otherwise the chain waits for the iterative solver
/// (`SolverPending`), whose outcome `record_solver_outcome` records.
#[verifier::rlimit(100)]
#[verifier::spinoff_prover]
pub fn build_markov_chain(net: &PetriNetModel, max_states: Option<usize>) -> (chain: MarkovChain)
    requires
        covers(net.tables.pre@, net.places@.len(), net.transitions@.len()),
        covers(net.tables.post@, net.places@.len(), net.transitions@.len()),
        covers(net.tables.inhibitor@, net.places@.len(), net.transitions@.len()),
        net.places@.len() <= net.tables.m0@.len(),
        net.places@.len() <= net.tables.mo@.len(),
        max_states is None ==> sums_fit(*net),
    ensures
        chain.states@.len() >= 1,
        chain.states@[0]@ == net.tables.m0@,
        forall|i: int| 0 <= i < chain.states@.len() ==> (#[trigger] chain.states@[i])@.len() == net.tables.m0@.len(),
        distinct_markings(chain.states@),
        chain.transitions@.len() == chain.states@.len(),
        reachability_graph(*net, chain.states@, chain.transitions@, chain.limit_reached),
        discovered(chain.states@, chain.transitions@),
        max_states matches Some(l) ==> {
            &&& chain.state_limit == l
            &&& (chain.limit_reached <==> chain.states@.len() >= l)
            &&& (chain.states@.len() <= l || chain.states@.len() == 1)
        },
        max_states is None ==> {
            &&& DEFAULT_MIN_MAX_STATES <= chain.state_limit <= HARD_AUTO_MAX_STATES
            &&& chain.states@.len() <= chain.state_limit
            &&& !chain.limit_reached ==> chain.state_limit == auto_limit(
                *net,
                chain.states@.len(),
                usat(edge_total(chain.transitions@) as int) as nat,
                0,
            )
        },
        max_states is None && chain.limit_reached ==> chain.states@.len() == chain.state_limit,
        max_states is None && chain.limit_reached ==> exists|q: nat|
            q < chain.states@.len() && chain.state_limit == #[trigger] auto_limit(
                *net,
                chain.states@.len(),
                usat(edge_total(chain.transitions@) as int) as nat,
                q,
            ),
        timed_net(*net) ==> chain.stationary_status == StationaryStatus::TimedNetUnsupported && chain.stationary is None,
        !timed_net(*net) && chain.limit_reached ==> chain.stationary is None && chain.stationary_status == (
        StationaryStatus::LimitReached { explored_states: chain.states@.len() as usize, limit: chain.state_limit }),
        !timed_net(*net) && !chain.limit_reached && chain.states@.len() == 1 ==> chain.stationary_status
            == StationaryStatus::Computed && (chain.stationary matches Some(v) && v@ == seq![STATIONARY_ONE]),
        !timed_net(*net) && !chain.limit_reached && chain.states@.len() > 1 && no_edges(chain.transitions@)
            ==> chain.stationary_status == StationaryStatus::NoDynamicTransitions && chain.stationary is None,
        !timed_net(*net) && !chain.limit_reached && chain.states@.len() > 1 && !no_edges(chain.transitions@)
            ==> chain.stationary_status == StationaryStatus::SolverPending && chain.stationary is None,
{
    let ghost mo = net.tables.mo@;
    let ghost m0 = net.tables.m0@;
    let fixed_limit = max_states;
    let mut adaptive_limit = match fixed_limit {
        Some(l) => l,
        None => DEFAULT_MIN_MAX_STATES,
    };
    let specs = build_transition_specs(net);
    let np = net.places.len();
    proof {
        lemma_specs_within(specs@, *net, np as nat);
        lemma_specs_within(specs@, *net, m0.len());
        lemma_specs_within(specs@, *net, mo.len());
    }
    let can_compute_stationary = !net_has_timed_behavior(net);
    let initial = net.tables.m0.clone();
    let f0 = marking_fingerprint(&initial);
    let mut states: Vec<Vec<u32>> = Vec::new();
    let mut transitions: Vec<Vec<(usize, usize)>> = Vec::new();
    let mut index: HashMap<u64, Vec<usize>> = HashMap::new();
    states.push(initial);
    transitions.push(Vec::new());
    proof {
        assert(states@.drop_last() == Seq::<Vec<u32>>::empty());
        assert(index@ == Map::<u64, Vec<usize>>::empty());
    }
    register_state(&mut index, f0, 0, Ghost(states@));
    let mut head: usize = 0;
    let mut limit_reached = false;
    let mut total_edge_count: usize = 0;
    let ghost mut targets: Seq<Seq<usize>> = seq![Seq::<usize>::empty()];
    let ghost mut h: int = 0;
    proof {
        assert(edge_total(transitions@) == 0) by {
            assert(transitions@.drop_last() == Seq::<Vec<(usize, usize)>>::empty());
            assert(transitions@.last()@.len() == 0);
            assert(edge_total(Seq::<Vec<(usize, usize)>>::empty()) == 0);
        }
        assert(edges_tally(transitions@[0]@, targets[0]));
        assert(graph_with(targets, states@, transitions@, mo, specs@, h));
    }
    while !limit_reached && head < states.len()
        invariant
            mo == net.tables.mo@,
            m0 == net.tables.m0@,
            specs_of(specs@, *net),
            specs_within(specs@, net.places@.len()),
            specs_within(specs@, m0.len()),
            specs_within(specs@, mo.len()),
            fixed_limit == max_states,
            fixed_limit is None ==> sums_fit(*net),
            states_ok(states@, index@, m0),
            graph_with(targets, states@, transitions@, mo, specs@, h),
            !limit_reached ==> h == head,
            head <= states@.len(),
            !limit_reached ==> forall|i: int|
                head <= i < states@.len() ==> (#[trigger] targets[i]).len() == 0 && transitions@[i]@.len() == 0,
            discovered(states@, transitions@),
            limit_ok(fixed_limit, adaptive_limit, states@.len()),
            fixed_limit matches Some(l) ==> (limit_reached || states@.len() < l || head < states@.len()),
            limit_reached ==> (fixed_limit matches Some(l) ==> states@.len() >= l),
            limit_reached ==> head >= 1,
            limit_reached && fixed_limit is None ==> states@.len() >= adaptive_limit,
            total_edge_count == usat(edge_total(transitions@) as int),
            fixed_limit is None && head >= 1 ==> adaptive_limit == auto_limit(
                *net,
                states@.len(),
                total_edge_count as nat,
                (states@.len() - head) as nat,
            ),
        decreases state_bound(fixed_limit) - head,
    {
        let idx = head;
        head = head + 1;
        let mut stop = false;
        if states.len() >= adaptive_limit {
            if fixed_limit.is_none() {
                adaptive_limit = auto_state_limit(net, states.len(), total_edge_count, states.len() - head);
                proof {
                    lemma_auto_limit_bounds(
                        *net,
                        states@.len(),
                        total_edge_count as nat,
                        (states@.len() - head) as nat,
                    );
                }
            }
            if states.len() >= adaptive_limit {
                stop = true;
            }
        }
        if stop {
            limit_reached = true;
        } else {
            let ghost states_before = states@;
            let ghost trans_before = transitions@;
            let ghost index_before = index@;
            let (edges, hit, Ghost(ts)) = expand_state(
                net,
                &specs,
                &mut states,
                &mut transitions,
                &mut index,
                idx,
                head,
                fixed_limit,
                &mut adaptive_limit,
                total_edge_count,
            );
            let ghost trans_grown = transitions@;
            let ghost edges_v = edges;
            proof {
                lemma_edge_total_extend(trans_before, trans_grown);
                assert(targets[idx as int].len() == 0);
                assert(trans_grown.subrange(0, trans_before.len() as int)[idx as int] == trans_grown[idx as int]);
                assert(trans_grown[idx as int] == trans_before[idx as int]);
                lemma_edge_total_update(trans_grown, idx as int, edges);
                targets = lemma_graph_after_expand(
                    targets,
                    states_before,
                    trans_before,
                    states@,
                    trans_grown,
                    edges,
                    ts,
                    idx as int,
                    hit,
                    mo,
                    specs@,
                );
            }
            total_edge_count = total_edge_count.saturating_add(edges.len());
            transitions.set(idx, edges);
            proof {
                assert(transitions@ == trans_grown.update(idx as int, edges_v));
                if !hit {
                    assert forall|i: int| head <= i < states@.len() implies (#[trigger] targets[i]).len() == 0
                        && transitions@[i]@.len() == 0 by {
                        assert(idx < i);
                        assert(i < states@.len());
                        assert(targets[i].len() == 0);
                        assert(trans_grown.update(idx as int, edges_v)[i]@.len() == 0);
                    }
                }
                assert forall|j: int| 0 < j < states@.len() implies #[trigger] found_from_earlier(transitions@, j) by {
                    if j < states_before.len() {
                        assert(found_from_earlier(trans_before, j));
                        let i = choose|i: int| 0 <= i < j && #[trigger] has_edge(trans_before[i]@, j);
                        if i == idx {
                            assert(targets[idx as int].len() == 0);
                            assert(trans_before[i]@.len() == 0);
                        }
                        assert(trans_grown.subrange(0, trans_before.len() as int)[i] == trans_grown[i]);
                        assert(transitions@[i] == trans_before[i]);
                        assert(has_edge(transitions@[i]@, j));
                    } else {
                        assert(has_edge(transitions@[idx as int]@, j));
                    }
                }
                h = if hit { idx as int } else { idx + 1 };
            }
            if fixed_limit.is_none() {
                adaptive_limit = auto_state_limit(net, states.len(), total_edge_count, states.len() - head);
                proof {
                    lemma_auto_limit_bounds(
                        *net,
                        states@.len(),
                        total_edge_count as nat,
                        (states@.len() - head) as nat,
                    );
                }
            }
            if hit {
                limit_reached = true;
            }
        }
    }
    proof {
        assert(specs_of(specs@, *net));
        assert(explored(states@, transitions@, mo, specs@, h));
        assert(!limit_reached ==> h == states@.len());
        assert(specs_of(specs@, *net) && explored(states@, transitions@, net.tables.mo@, specs@, h) && (!limit_reached ==> h == states@.len()));
        assert(reachability_graph(*net, states@, transitions@, limit_reached));
        if limit_reached && fixed_limit is None {
            assert(exists|q: nat|
                q < states@.len() && adaptive_limit == #[trigger] auto_limit(
                    *net,
                    states@.len(),
                    usat(edge_total(transitions@) as int) as nat,
                    q,
                )) by {
                let q = (states@.len() - head) as nat;
                assert(head >= 1);
                assert(q < states@.len());
                assert(total_edge_count as nat == usat(edge_total(transitions@) as int) as nat);
                assert(adaptive_limit == auto_limit(*net, states@.len(), total_edge_count as nat, q));
                assert(adaptive_limit == auto_limit(*net, states@.len(), usat(edge_total(transitions@) as int) as nat, q));
            }
        }
    }
    let mut stationary: Option<Vec<F64Bits>> = None;
    let status = if !can_compute_stationary {
        StationaryStatus::TimedNetUnsupported
    } else if limit_reached {
        StationaryStatus::LimitReached { explored_states: states.len(), limit: adaptive_limit }
    } else if states.len() == 1 {
        let mut v: Vec<F64Bits> = Vec::new();
        v.push(STATIONARY_ONE);
        stationary = Some(v);
        StationaryStatus::Computed
    } else if all_edges_empty(&transitions) {
        StationaryStatus::NoDynamicTransitions
    } else {
        StationaryStatus::SolverPending
    };
    let ghost e = usat(edge_total(transitions@) as int) as nat;
    let chain = MarkovChain {
        states,
        transitions,
        stationary,
        limit_reached,
        state_limit: adaptive_limit,
        stationary_status: status,
    };
    proof {
        if limit_reached && fixed_limit is None {
            assert(e == usat(edge_total(chain.transitions@) as int) as nat);
            let q = choose|q: nat|
                q < chain.states@.len() && adaptive_limit == #[trigger] auto_limit(*net, chain.states@.len(), e, q);
            assert(q < chain.states@.len() && chain.state_limit == auto_limit(
                *net,
                chain.states@.len(),
                usat(edge_total(chain.transitions@) as int) as nat,
                q,
            ));
        }
    }
    chain
}


/// Transition `t` may fire at `m` and no transition that may fire there
/// ranks above it: none has a higher priority, and none with the same
/// priority consumes more tokens.
pub open spec fn top_ranked(mo: Seq<Option<u32>>, specs: Seq<TransitionSpec>, m: Seq<u32>, t: int) -> bool {
    &&& enabled_at(mo, specs, m, t)
    &&& forall|u: int|
        0 <= u < specs.len() && #[trigger] enabled_at(mo, specs, m, u) ==> specs[u].priority < specs[t].priority || (
        specs[u].priority == specs[t].priority && specs[u].pre_weight <= specs[t].pre_weight)
}

proof fn lemma_ranked_members(
    mo: Seq<Option<u32>>,
    specs: Seq<TransitionSpec>,
    m: Seq<u32>,
    best: (i32, u32),
    n: nat,
    t: int,
)
    requires
        n <= usize::MAX,
        0 <= t <= usize::MAX,
    ensures
        ranked_upto(mo, specs, m, best, n).contains(t as usize) <==> (t < n && enabled_at(mo, specs, m, t)
            && specs[t].priority == best.0 && specs[t].pre_weight == best.1),
    decreases n,
{
    if n > 0 {
        lemma_ranked_members(mo, specs, m, best, (n - 1) as nat, t);
        lemma_ranked_bound(mo, specs, m, best, (n - 1) as nat);
        let prev = ranked_upto(mo, specs, m, best, (n - 1) as nat);
        let cur = ranked_upto(mo, specs, m, best, n);
        let u = n - 1;
        if enabled_at(mo, specs, m, u) && specs[u].priority == best.0 && specs[u].pre_weight == best.1 {
            assert(cur == prev.push(u as usize));
            if prev.contains(t as usize) {
                let k = choose|k: int| 0 <= k < prev.len() && prev[k] == t as usize;
                assert(cur[k] == t as usize);
            }
            if cur.contains(t as usize) && !prev.contains(t as usize) {
                let k = choose|k: int| 0 <= k < cur.len() && cur[k] == t as usize;
                if k < prev.len() {
                    assert(prev[k] == cur[k]);
                }
                assert(t == u);
            }
            if t == u {
                assert(cur[prev.len() as int] == t as usize);
            }
        } else {
            if t == u && prev.contains(t as usize) {
                let k = choose|k: int| 0 <= k < prev.len() && prev[k] == t as usize;
                assert(prev[k] < u);
            }
        }
    }
}

proof fn lemma_best_rank(mo: Seq<Option<u32>>, specs: Seq<TransitionSpec>, m: Seq<u32>, n: nat)
    ensures
        forall|u: int|
            0 <= u < n && #[trigger] enabled_at(mo, specs, m, u) ==> specs[u].priority < best_rank(mo, specs, m, n).0
                || (specs[u].priority == best_rank(mo, specs, m, n).0 && specs[u].pre_weight <= best_rank(
                mo,
                specs,
                m,
                n,
            ).1),
        (exists|u: int| 0 <= u < n && #[trigger] enabled_at(mo, specs, m, u)) ==> exists|u: int|
            0 <= u < n && #[trigger] enabled_at(mo, specs, m, u) && specs[u].priority == best_rank(mo, specs, m, n).0
                && specs[u].pre_weight == best_rank(mo, specs, m, n).1,
        !(exists|u: int| 0 <= u < n && #[trigger] enabled_at(mo, specs, m, u)) ==> best_rank(mo, specs, m, n) == (
        i32::MIN,
        0u32,
        ),
    decreases n,
{
    if n > 0 {
        lemma_best_rank(mo, specs, m, (n - 1) as nat);
        let (bp, bw) = best_rank(mo, specs, m, (n - 1) as nat);
        let t = n - 1;
        let any_prev = exists|u: int| 0 <= u < n - 1 && #[trigger] enabled_at(mo, specs, m, u);
        if enabled_at(mo, specs, m, t) {
            if any_prev {
                let w = choose|u: int|
                    0 <= u < n - 1 && #[trigger] enabled_at(mo, specs, m, u) && specs[u].priority == bp
                        && specs[u].pre_weight == bw;
                assert(enabled_at(mo, specs, m, w));
            }
            assert(enabled_at(mo, specs, m, t));
        } else {
            if exists|u: int| 0 <= u < n && #[trigger] enabled_at(mo, specs, m, u) {
                let u = choose|u: int| 0 <= u < n && #[trigger] enabled_at(mo, specs, m, u);
                assert(u < n - 1);
                let w = choose|u: int|
                    0 <= u < n - 1 && #[trigger] enabled_at(mo, specs, m, u) && specs[u].priority == bp
                        && specs[u].pre_weight == bw;
                assert(enabled_at(mo, specs, m, w));
            }
        }
    }
}

/// The competing transitions at a marking are exactly the top-ranked
/// ones: those that may fire with the highest priority among the
/// transitions that may fire and, at that priority, the largest total
/// consumption.
pub proof fn lemma_candidates_are_top_ranked(mo: Seq<Option<u32>>, specs: Seq<TransitionSpec>, m: Seq<u32>, t: int)
    requires
        specs.len() <= usize::MAX,
        0 <= t < specs.len(),
    ensures
        candidates(mo, specs, m).contains(t as usize) <==> top_ranked(mo, specs, m, t),
{
    let n = specs.len();
    let best = best_rank(mo, specs, m, n);
    lemma_ranked_members(mo, specs, m, best, n, t);
    lemma_best_rank(mo, specs, m, n);
    if top_ranked(mo, specs, m, t) {
        assert(enabled_at(mo, specs, m, t));
        let w = choose|u: int|
            0 <= u < n && #[trigger] enabled_at(mo, specs, m, u) && specs[u].priority == best.0 && specs[u].pre_weight
                == best.1;
        assert(enabled_at(mo, specs, m, w));
    }
}


/// Two specs describe the same transition.
pub open spec fn same_spec(a: TransitionSpec, b: TransitionSpec) -> bool {
    &&& a.pre@ == b.pre@
    &&& a.post@ == b.post@
    &&& a.inhibitor@ == b.inhibitor@
    &&& a.capacity_effects@ == b.capacity_effects@
    &&& a.priority == b.priority
    &&& a.pre_weight == b.pre_weight
    &&& a.active == b.active
}

proof fn lemma_same_enabled(mo: Seq<Option<u32>>, a: TransitionSpec, b: TransitionSpec, m: Seq<u32>)
    requires
        same_spec(a, b),
    ensures
        spec_enabled(mo, a, m) == spec_enabled(mo, b, m),
{
    if spec_enabled(mo, a, m) {
        assert forall|k: int| 0 <= k < b.capacity_effects@.len() implies {
            let (p, x, y) = #[trigger] b.capacity_effects@[k];
            mo[p as int] matches Some(cap) ==> capacity_allows(cap, m[p as int], x, y)
        } by {
            assert(a.capacity_effects@[k] == b.capacity_effects@[k]);
        }
        assert forall|k: int| 0 <= k < b.pre@.len() implies m[(#[trigger] b.pre@[k]).0 as int] >= b.pre@[k].1 by {
            assert(a.pre@[k] == b.pre@[k]);
        }
        assert forall|k: int| 0 <= k < b.inhibitor@.len() implies m[(#[trigger] b.inhibitor@[k]).0 as int]
            < b.inhibitor@[k].1 by {
            assert(a.inhibitor@[k] == b.inhibitor@[k]);
        }
    }
    if spec_enabled(mo, b, m) {
        assert forall|k: int| 0 <= k < a.capacity_effects@.len() implies {
            let (p, x, y) = #[trigger] a.capacity_effects@[k];
            mo[p as int] matches Some(cap) ==> capacity_allows(cap, m[p as int], x, y)
        } by {
            assert(a.capacity_effects@[k] == b.capacity_effects@[k]);
        }
        assert forall|k: int| 0 <= k < a.pre@.len() implies m[(#[trigger] a.pre@[k]).0 as int] >= a.pre@[k].1 by {
            assert(a.pre@[k] == b.pre@[k]);
        }
        assert forall|k: int| 0 <= k < a.inhibitor@.len() implies m[(#[trigger] a.inhibitor@[k]).0 as int]
            < a.inhibitor@[k].1 by {
            assert(a.inhibitor@[k] == b.inhibitor@[k]);
        }
    }
}

proof fn lemma_same_ranking(
    mo: Seq<Option<u32>>,
    s1: Seq<TransitionSpec>,
    s2: Seq<TransitionSpec>,
    m: Seq<u32>,
    best: (i32, u32),
    n: nat,
)
    requires
        n <= s1.len(),
        s1.len() == s2.len(),
        forall|t: int| 0 <= t < s1.len() ==> same_spec(#[trigger] s1[t], s2[t]),
    ensures
        best_rank(mo, s1, m, n) == best_rank(mo, s2, m, n),
        ranked_upto(mo, s1, m, best, n) == ranked_upto(mo, s2, m, best, n),
    decreases n,
{
    if n > 0 {
        lemma_same_ranking(mo, s1, s2, m, best, (n - 1) as nat);
        let t = n - 1;
        assert(same_spec(s1[t], s2[t]));
        lemma_same_enabled(mo, s1[t], s2[t], m);
    }
}

/// Specs of one net describe its transitions alike: the same transitions
/// compete at every marking.
pub proof fn lemma_specs_agree(net: PetriNetModel, s1: Seq<TransitionSpec>, s2: Seq<TransitionSpec>, m: Seq<u32>)
    requires
        specs_of(s1, net),
        specs_of(s2, net),
    ensures
        forall|t: int| 0 <= t < s1.len() ==> same_spec(#[trigger] s1[t], s2[t]),
        candidates(net.tables.mo@, s1, m) == candidates(net.tables.mo@, s2, m),
{
    assert forall|t: int| 0 <= t < s1.len() implies same_spec(#[trigger] s1[t], s2[t]) by {
        assert(spec_of_column(s1[t], net, t));
        assert(spec_of_column(s2[t], net, t));
    }
    let mo = net.tables.mo@;
    lemma_same_ranking(mo, s1, s2, m, (0i32, 0u32), s1.len());
    lemma_same_ranking(mo, s1, s2, m, best_rank(mo, s1, m, s1.len()), s1.len());
}

/// Unless the limit cut it, the graph is closed under firing: every
/// competing transition at every state leads to a state of the graph.
pub proof fn lemma_chain_closed(
    net: PetriNetModel,
    states: Seq<Vec<u32>>,
    transitions: Seq<Vec<(usize, usize)>>,
    specs: Seq<TransitionSpec>,
    i: int,
    t: usize,
)
    requires
        reachability_graph(net, states, transitions, false),
        specs_of(specs, net),
        0 <= i < states.len(),
        candidates(net.tables.mo@, specs, states[i]@).contains(t),
    ensures
        exists|j: int| 0 <= j < states.len() && #[trigger] states[j]@ == fired(states[i]@, specs[t as int]),
{
    let mo = net.tables.mo@;
    let (s0, h) = choose|s0: Seq<TransitionSpec>, h: int|
        specs_of(s0, net) && #[trigger] explored(states, transitions, mo, s0, h) && (!false ==> h == states.len());
    let targets = choose|targets: Seq<Seq<usize>>| #[trigger] graph_with(targets, states, transitions, mo, s0, h);
    lemma_specs_agree(net, specs, s0, states[i]@);
    let c = candidates(mo, s0, states[i]@);
    let k = choose|k: int| 0 <= k < c.len() && c[k] == t;
    assert(net.transitions.len() == net.transitions@.len());
    lemma_ranked_bound(mo, s0, states[i]@, best_rank(mo, s0, states[i]@, s0.len()), s0.len());
    assert(leads_to(states, mo, s0, i, targets[i]));
    assert(targets[i].len() == c.len());
    let j = targets[i][k] as int;
    assert(same_spec(specs[t as int], s0[t as int]));
    assert(states[j]@ == fired(states[i]@, specs[t as int]));
}

/// Marking `m` is reached from `m0` in `steps` firings, each of a
/// transition competing at the marking it fires from.
pub open spec fn reachable(
    mo: Seq<Option<u32>>,
    specs: Seq<TransitionSpec>,
    m0: Seq<u32>,
    m: Seq<u32>,
    steps: nat,
) -> bool
    decreases steps,
{
    if steps == 0 {
        m == m0
    } else {
        exists|prev: Seq<u32>, t: usize|
            #![trigger fired(prev, specs[t as int])]
            reachable(mo, specs, m0, prev, (steps - 1) as nat) && candidates(mo, specs, prev).contains(t) && fired(
                prev,
                specs[t as int],
            ) == m
    }
}

/// Every state of the graph is reached from the initial marking by
/// firing competing transitions.
pub proof fn lemma_chain_reachable(
    net: PetriNetModel,
    states: Seq<Vec<u32>>,
    transitions: Seq<Vec<(usize, usize)>>,
    limit_reached: bool,
    specs: Seq<TransitionSpec>,
    j: int,
)
    requires
        reachability_graph(net, states, transitions, limit_reached),
        discovered(states, transitions),
        states.len() >= 1,
        states[0]@ == net.tables.m0@,
        specs_of(specs, net),
        0 <= j < states.len(),
    ensures
        exists|steps: nat| reachable(net.tables.mo@, specs, net.tables.m0@, states[j]@, steps),
    decreases j,
{
    let mo = net.tables.mo@;
    let m0 = net.tables.m0@;
    if j == 0 {
        assert(reachable(mo, specs, m0, states[0]@, 0));
    } else {
        assert(found_from_earlier(transitions, j));
        let i = choose|i: int| 0 <= i < j && #[trigger] has_edge(transitions[i]@, j);
        let edges = transitions[i]@;
        let e = choose|e: int| 0 <= e < edges.len() && (#[trigger] edges[e]).0 == j;
        let (s0, h) = choose|s0: Seq<TransitionSpec>, h: int|
            specs_of(s0, net) && #[trigger] explored(states, transitions, mo, s0, h) && (!limit_reached ==> h
                == states.len());
        let targets = choose|targets: Seq<Seq<usize>>| #[trigger] graph_with(targets, states, transitions, mo, s0, h);
        assert(edges_tally(edges, targets[i]));
        assert(leads_to(states, mo, s0, i, targets[i]));
        let ts = targets[i];
        assert(edges[e].1 == occurrences(ts, edges[e].0) && edges[e].1 >= 1);
        lemma_occurrences(ts, edges[e].0);
        let k = choose|k: int| 0 <= k < ts.len() && ts[k] == edges[e].0;
        let c = candidates(mo, s0, states[i]@);
        lemma_specs_agree(net, specs, s0, states[i]@);
        let t = c[k];
        assert(candidates(mo, specs, states[i]@).contains(t)) by {
            assert(candidates(mo, specs, states[i]@)[k] == t);
        }
        assert(net.transitions.len() == net.transitions@.len());
        lemma_ranked_bound(mo, s0, states[i]@, best_rank(mo, s0, states[i]@, s0.len()), s0.len());
        assert(same_spec(specs[t as int], s0[t as int]));
        assert(states[j]@ == fired(states[i]@, specs[t as int]));
        lemma_chain_reachable(net, states, transitions, limit_reached, specs, i);
        let steps = choose|steps: nat| reachable(mo, specs, m0, states[i]@, steps);
        let next: nat = steps + 1;
        assert(reachable(mo, specs, m0, states[j]@, next)) by {
            assert((next - 1) as nat == steps);
            assert(reachable(mo, specs, m0, states[i]@, (next - 1) as nat));
            assert(fired(states[i]@, specs[t as int]) == states[j]@);
        }
    }
}

} // verus!
