//! The discrete rules of the token-game simulation: which transitions may
//! fire, which one fires, how tokens move, and how the log stays bounded.
//! Times and delays are kept by the caller; tokens waiting for a delayed
//! release are counted per place.
use crate::markov::{sat_add32, sat_sub32};
use crate::model::{covers, PetriNetModel};
use rand::rngs::SmallRng;
use rand::Rng;
use vstd::prelude::*;

verus! {

/// The most log entries a simulation keeps.
pub const MAX_SIM_LOG_ENTRIES: usize = 20_000;

/// rand's `SmallRng`, the generator that picks among competing
/// transitions; carried through untouched.
#[verifier::external_type_specification]
#[verifier::external_body]
pub struct ExSmallRng(SmallRng);

/// rand's `Rng::gen_range(0..n)`: a number below `n`, drawn by the
/// generator (which advances); `n` must be positive, as an empty range
/// panics.
#[verifier::external_body]
fn random_below(rng: &mut SmallRng, n: usize) -> (r: usize)
    requires
        n > 0,
    ensures
        r < n,
{
    rng.gen_range(0..n)
}

/// The counters of a running simulation, one entry per place: tokens
/// available now, tokens that passed through, tokens put in, tokens taken
/// out.
#[derive(Clone, Debug)]
pub struct SimState {
    pub available: Vec<u32>,
    pub through_place_counter: Vec<u64>,
    pub in_tokens: Vec<u64>,
    pub out_tokens: Vec<u64>,
}

/// `a + b`, staying at `u64::MAX`.
pub open spec fn sat_add64(a: u64, b: u64) -> u64 {
    if a + b > u64::MAX {
        u64::MAX
    } else {
        (a + b) as u64
    }
}

/// The net's tables cover its places and transitions, and the state has
/// an entry for each place.
pub open spec fn sim_shaped(net: PetriNetModel, s: SimState) -> bool {
    let np = net.places@.len();
    let nt = net.transitions@.len();
    &&& covers(net.tables.pre@, np, nt)
    &&& covers(net.tables.post@, np, nt)
    &&& covers(net.tables.inhibitor@, np, nt)
    &&& np <= net.tables.mo@.len()
    &&& np <= s.available@.len()
    &&& np <= s.through_place_counter@.len()
    &&& np <= s.in_tokens@.len()
    &&& np <= s.out_tokens@.len()
}

/// The marking a place shows: available tokens and those waiting.
pub open spec fn shown(available: Seq<u32>, pending: Seq<usize>, p: int) -> int {
    available[p] + pending[p]
}

/// The markings fit in `u32` for every place.
pub open spec fn markings_fit(available: Seq<u32>, pending: Seq<usize>, n: nat) -> bool {
    &&& n <= available.len()
    &&& n <= pending.len()
    &&& forall|p: int| 0 <= p < n ==> #[trigger] shown(available, pending, p) <= u32::MAX
}

/// The marking: available plus waiting tokens, place by place.
pub fn total_marking(available: &Vec<u32>, pending: &Vec<usize>) -> (m: Vec<u32>)
    requires
        markings_fit(available@, pending@, available@.len()),
    ensures
        m@.len() == available@.len(),
        forall|p: int| 0 <= p < m@.len() ==> #[trigger] m@[p] == shown(available@, pending@, p),
{
    let mut m: Vec<u32> = Vec::new();
    let mut p: usize = 0;
    while p < available.len()
        invariant
            p <= available@.len(),
            markings_fit(available@, pending@, available@.len()),
            m@.len() == p,
            forall|q: int| 0 <= q < p ==> #[trigger] m@[q] == shown(available@, pending@, q),
        decreases available@.len() - p,
    {
        proof {
            assert(shown(available@, pending@, p as int) <= u32::MAX);
        }
        m.push(available[p] + pending[p] as u32);
        p = p + 1;
    }
    m
}

/// Some arc (input, output or inhibitor) joins place `p` and transition `t`.
pub open spec fn touches(net: PetriNetModel, p: int, t: int) -> bool {
    net.tables.pre@[p]@[t] > 0 || net.tables.post@[p]@[t] > 0 || net.tables.inhibitor@[p]@[t] > 0
}

/// Some arc touches transition `t`.
pub open spec fn incident(net: PetriNetModel, t: int) -> bool {
    exists|p: int| 0 <= p < net.places@.len() && #[trigger] touches(net, p, t)
}

/// Place `p` has the tokens that `t` takes available, and does not show
/// the threshold of an inhibitor arc to `t`.
pub open spec fn tokens_ok(net: PetriNetModel, available: Seq<u32>, pending: Seq<usize>, p: int, t: int) -> bool {
    &&& available[p] >= net.tables.pre@[p]@[t]
    &&& net.tables.inhibitor@[p]@[t] > 0 ==> shown(available, pending, p) < net.tables.inhibitor@[p]@[t]
}

/// Firing `t` would not raise place `p` above its capacity, if it has one.
pub open spec fn capacity_ok(net: PetriNetModel, available: Seq<u32>, pending: Seq<usize>, p: int, t: int) -> bool {
    net.tables.mo@[p] matches Some(cap) ==> crate::markov::capacity_allows(
        cap,
        shown(available, pending, p) as u32,
        net.tables.pre@[p]@[t],
        net.tables.post@[p]@[t],
    )
}

/// Transition `t` may fire: an arc touches it, every input place has the
/// tokens available, no inhibitor place shows its threshold, and no place
/// with a capacity is raised above it.
pub open spec fn sim_enabled(net: PetriNetModel, available: Seq<u32>, pending: Seq<usize>, t: int) -> bool {
    let np = net.places@.len();
    &&& incident(net, t)
    &&& forall|p: int| 0 <= p < np ==> #[trigger] tokens_ok(net, available, pending, p, t)
    &&& forall|p: int| 0 <= p < np ==> #[trigger] capacity_ok(net, available, pending, p, t)
}

/// The transitions below `n` that may fire, in increasing order.
pub open spec fn enabled_upto(net: PetriNetModel, available: Seq<u32>, pending: Seq<usize>, n: nat) -> Seq<usize>
    decreases n,
{
    if n == 0 {
        Seq::empty()
    } else {
        let prev = enabled_upto(net, available, pending, (n - 1) as nat);
        if sim_enabled(net, available, pending, n - 1) {
            prev.push((n - 1) as usize)
        } else {
            prev
        }
    }
}

fn has_incident_arc(net: &PetriNetModel, t: usize) -> (r: bool)
    requires
        covers(net.tables.pre@, net.places@.len(), net.transitions@.len()),
        covers(net.tables.post@, net.places@.len(), net.transitions@.len()),
        covers(net.tables.inhibitor@, net.places@.len(), net.transitions@.len()),
        t < net.transitions@.len(),
    ensures
        r == incident(*net, t as int),
{
    let np = net.places.len();
    let mut p: usize = 0;
    while p < np
        invariant
            np == net.places@.len(),
            p <= np,
            t < net.transitions@.len(),
            covers(net.tables.pre@, np as nat, net.transitions@.len()),
            covers(net.tables.post@, np as nat, net.transitions@.len()),
            covers(net.tables.inhibitor@, np as nat, net.transitions@.len()),
            forall|q: int| 0 <= q < p ==> !#[trigger] touches(*net, q, t as int),
        decreases np - p,
    {
        proof {
            let _ = net.tables.pre@[p as int];
            let _ = net.tables.post@[p as int];
            let _ = net.tables.inhibitor@[p as int];
        }
        if net.tables.pre[p][t] > 0 || net.tables.post[p][t] > 0 || net.tables.inhibitor[p][t] > 0 {
            proof {
                assert(touches(*net, p as int, t as int));
            }
            return true;
        }
        proof {
            assert(!touches(*net, p as int, t as int));
        }
        p = p + 1;
    }
    false
}

fn tokens_allow(net: &PetriNetModel, available: &Vec<u32>, pending: &Vec<usize>, t: usize) -> (r: bool)
    requires
        covers(net.tables.pre@, net.places@.len(), net.transitions@.len()),
        covers(net.tables.inhibitor@, net.places@.len(), net.transitions@.len()),
        markings_fit(available@, pending@, net.places@.len()),
        t < net.transitions@.len(),
    ensures
        r == forall|p: int| 0 <= p < net.places@.len() ==> #[trigger] tokens_ok(*net, available@, pending@, p, t as int),
{
    let np = net.places.len();
    let mut p: usize = 0;
    while p < np
        invariant
            np == net.places@.len(),
            p <= np,
            t < net.transitions@.len(),
            covers(net.tables.pre@, np as nat, net.transitions@.len()),
            covers(net.tables.inhibitor@, np as nat, net.transitions@.len()),
            markings_fit(available@, pending@, np as nat),
            forall|q: int| 0 <= q < p ==> #[trigger] tokens_ok(*net, available@, pending@, q, t as int),
        decreases np - p,
    {
        proof {
            let _ = net.tables.pre@[p as int];
            let _ = net.tables.inhibitor@[p as int];
            assert(shown(available@, pending@, p as int) <= u32::MAX);
        }
        let need = net.tables.pre[p][t];
        if available[p] < need {
            proof {
                assert(!tokens_ok(*net, available@, pending@, p as int, t as int));
            }
            return false;
        }
        let inh = net.tables.inhibitor[p][t];
        if inh > 0 {
            let total = available[p] + pending[p] as u32;
            if total >= inh {
                proof {
                    assert(!tokens_ok(*net, available@, pending@, p as int, t as int));
                }
                return false;
            }
        }
        proof {
            assert(tokens_ok(*net, available@, pending@, p as int, t as int));
        }
        p = p + 1;
    }
    true
}

fn capacities_allow(net: &PetriNetModel, available: &Vec<u32>, pending: &Vec<usize>, t: usize) -> (r: bool)
    requires
        covers(net.tables.pre@, net.places@.len(), net.transitions@.len()),
        covers(net.tables.post@, net.places@.len(), net.transitions@.len()),
        net.places@.len() <= net.tables.mo@.len(),
        markings_fit(available@, pending@, net.places@.len()),
        t < net.transitions@.len(),
    ensures
        r == forall|p: int| 0 <= p < net.places@.len() ==> #[trigger] capacity_ok(*net, available@, pending@, p, t as int),
{
    let np = net.places.len();
    let mut p: usize = 0;
    while p < np
        invariant
            np == net.places@.len(),
            p <= np,
            t < net.transitions@.len(),
            np <= net.tables.mo@.len(),
            covers(net.tables.pre@, np as nat, net.transitions@.len()),
            covers(net.tables.post@, np as nat, net.transitions@.len()),
            markings_fit(available@, pending@, np as nat),
            forall|q: int| 0 <= q < p ==> #[trigger] capacity_ok(*net, available@, pending@, q, t as int),
        decreases np - p,
    {
        proof {
            let _ = net.tables.pre@[p as int];
            let _ = net.tables.post@[p as int];
            assert(shown(available@, pending@, p as int) <= u32::MAX);
        }
        match net.tables.mo[p] {
            Some(cap) => {
                let total = available[p] + pending[p] as u32;
                let after = total.saturating_sub(net.tables.pre[p][t]).saturating_add(net.tables.post[p][t]);
                if after > cap && after > total {
                    proof {
                        assert(!capacity_ok(*net, available@, pending@, p as int, t as int));
                    }
                    return false;
                }
            },
            None => {},
        }
        proof {
            assert(capacity_ok(*net, available@, pending@, p as int, t as int));
        }
        p = p + 1;
    }
    true
}

/// The transitions that may fire, in increasing order; `pending` counts
/// the tokens of each place still waiting for their release.
pub fn enabled_transitions(net: &PetriNetModel, available: &Vec<u32>, pending: &Vec<usize>) -> (r: Vec<usize>)
    requires
        covers(net.tables.pre@, net.places@.len(), net.transitions@.len()),
        covers(net.tables.post@, net.places@.len(), net.transitions@.len()),
        covers(net.tables.inhibitor@, net.places@.len(), net.transitions@.len()),
        net.places@.len() <= net.tables.mo@.len(),
        markings_fit(available@, pending@, net.places@.len()),
    ensures
        r@ == enabled_upto(*net, available@, pending@, net.transitions@.len()),
{
    let nt = net.transitions.len();
    let mut out: Vec<usize> = Vec::new();
    let mut t: usize = 0;
    while t < nt
        invariant
            nt == net.transitions@.len(),
            t <= nt,
            covers(net.tables.pre@, net.places@.len(), net.transitions@.len()),
            covers(net.tables.post@, net.places@.len(), net.transitions@.len()),
            covers(net.tables.inhibitor@, net.places@.len(), net.transitions@.len()),
            net.places@.len() <= net.tables.mo@.len(),
            markings_fit(available@, pending@, net.places@.len()),
            out@ == enabled_upto(*net, available@, pending@, t as nat),
        decreases nt - t,
    {
        if has_incident_arc(net, t) && tokens_allow(net, available, pending, t) && capacities_allow(
            net,
            available,
            pending,
            t,
        ) {
            out.push(t);
        }
        t = t + 1;
    }
    out
}

/// The priority of transition `t` (0 without an entry).
pub open spec fn priority_of(mpr: Seq<i32>, t: int) -> i32 {
    if 0 <= t < mpr.len() {
        mpr[t]
    } else {
        0
    }
}

/// The highest priority among the first `n` transitions of `ts`.
pub open spec fn top_priority(mpr: Seq<i32>, ts: Seq<usize>, n: nat) -> i32
    decreases n,
{
    if n <= 1 {
        priority_of(mpr, ts[0] as int)
    } else {
        let prev = top_priority(mpr, ts, (n - 1) as nat);
        let q = priority_of(mpr, ts[n - 1] as int);
        if q > prev {
            q
        } else {
            prev
        }
    }
}

/// The transitions of `ts` among the first `n` with priority `best`, in order.
pub open spec fn with_priority(mpr: Seq<i32>, ts: Seq<usize>, best: i32, n: nat) -> Seq<usize>
    decreases n,
{
    if n == 0 {
        Seq::empty()
    } else {
        let prev = with_priority(mpr, ts, best, (n - 1) as nat);
        if priority_of(mpr, ts[n - 1] as int) == best {
            prev.push(ts[n - 1])
        } else {
            prev
        }
    }
}

/// The transitions of `ts` with the highest priority among them.
pub open spec fn priority_candidates(mpr: Seq<i32>, ts: Seq<usize>) -> Seq<usize> {
    with_priority(mpr, ts, top_priority(mpr, ts, ts.len()), ts.len())
}

/// `ts` is strictly increasing.
pub open spec fn increasing(ts: Seq<usize>) -> bool {
    forall|i: int, j: int| 0 <= i < j < ts.len() ==> ts[i] < ts[j]
}

fn priority_at(mpr: &Vec<i32>, t: usize) -> (r: i32)
    ensures
        r == priority_of(mpr@, t as int),
{
    if t < mpr.len() {
        mpr[t]
    } else {
        0
    }
}

/// The enabled transitions with the highest priority, in increasing order.
pub fn top_priority_transitions(net: &PetriNetModel, enabled: &Vec<usize>) -> (r: Vec<usize>)
    requires
        enabled@.len() > 0,
    ensures
        r@ == priority_candidates(net.tables.mpr@, enabled@),
{
    let mut best = priority_at(&net.tables.mpr, enabled[0]);
    let mut i: usize = 1;
    while i < enabled.len()
        invariant
            1 <= i <= enabled@.len(),
            best == top_priority(net.tables.mpr@, enabled@, i as nat),
        decreases enabled@.len() - i,
    {
        let q = priority_at(&net.tables.mpr, enabled[i]);
        if q > best {
            best = q;
        }
        i = i + 1;
    }
    let mut out: Vec<usize> = Vec::new();
    let mut i: usize = 0;
    while i < enabled.len()
        invariant
            i <= enabled@.len(),
            best == top_priority(net.tables.mpr@, enabled@, enabled@.len()),
            out@ == with_priority(net.tables.mpr@, enabled@, best, i as nat),
        decreases enabled@.len() - i,
    {
        if priority_at(&net.tables.mpr, enabled[i]) == best {
            out.push(enabled[i]);
        }
        i = i + 1;
    }
    out
}

proof fn lemma_top_priority_present(mpr: Seq<i32>, ts: Seq<usize>, n: nat)
    requires
        1 <= n <= ts.len(),
    ensures
        with_priority(mpr, ts, top_priority(mpr, ts, n), n).len() > 0,
    decreases n,
{
    let best = top_priority(mpr, ts, n);
    if n > 1 {
        let prev = top_priority(mpr, ts, (n - 1) as nat);
        if best != prev {
            assert(priority_of(mpr, ts[n - 1] as int) == best);
        } else {
            lemma_top_priority_present(mpr, ts, (n - 1) as nat);
        }
    }
}

proof fn lemma_with_priority_members(mpr: Seq<i32>, ts: Seq<usize>, best: i32, n: nat)
    requires
        n <= ts.len(),
    ensures
        forall|k: int|
            0 <= k < with_priority(mpr, ts, best, n).len() ==> exists|j: int|
                0 <= j < n && ts[j] == #[trigger] with_priority(mpr, ts, best, n)[k],
    decreases n,
{
    if n > 0 {
        lemma_with_priority_members(mpr, ts, best, (n - 1) as nat);
        let prev = with_priority(mpr, ts, best, (n - 1) as nat);
        assert forall|k: int| 0 <= k < with_priority(mpr, ts, best, n).len() implies exists|j: int|
            0 <= j < n && ts[j] == #[trigger] with_priority(mpr, ts, best, n)[k] by {
            if k < prev.len() {
                assert(with_priority(mpr, ts, best, n)[k] == prev[k]);
                let j = choose|j: int| 0 <= j < n - 1 && ts[j] == #[trigger] prev[k];
                assert(ts[j] == with_priority(mpr, ts, best, n)[k]);
            } else {
                assert(ts[n - 1] == with_priority(mpr, ts, best, n)[k]);
            }
        }
    }
}

/// Picks, uniformly at random, one of the enabled transitions with the
/// highest priority.
pub fn pick_transition(net: &PetriNetModel, enabled: &Vec<usize>, rng: &mut SmallRng) -> (t: usize)
    requires
        enabled@.len() > 0,
    ensures
        priority_candidates(net.tables.mpr@, enabled@).contains(t),
        enabled@.contains(t),
{
    let candidates = top_priority_transitions(net, enabled);
    proof {
        lemma_top_priority_present(net.tables.mpr@, enabled@, enabled@.len());
    }
    let idx = random_below(rng, candidates.len());
    let t = candidates[idx];
    proof {
        lemma_with_priority_members(
            net.tables.mpr@,
            enabled@,
            top_priority(net.tables.mpr@, enabled@, enabled@.len()),
            enabled@.len(),
        );
        assert(candidates@[idx as int] == t);
        let j = choose|j: int| 0 <= j < enabled@.len() && enabled@[j] == #[trigger] candidates@[idx as int];
        assert(enabled@[j] == t);
    }
    t
}

/// The places below `n` with an input arc to transition `t`, in order.
pub open spec fn input_rows(pre: Seq<Vec<u32>>, t: int, n: nat) -> Seq<usize>
    decreases n,
{
    if n == 0 {
        Seq::empty()
    } else {
        let prev = input_rows(pre, t, (n - 1) as nat);
        if pre[n - 1]@[t] > 0 {
            prev.push((n - 1) as usize)
        } else {
            prev
        }
    }
}

/// Transition `t` takes its input tokens: each input place loses them (not
/// below 0) and counts them as taken out. Returns the input places.
pub fn consume_inputs(net: &PetriNetModel, state: &mut SimState, t: usize) -> (touched: Vec<usize>)
    requires
        sim_shaped(*net, *old(state)),
        t < net.transitions@.len(),
    ensures
        sim_shaped(*net, *final(state)),
        touched@ == input_rows(net.tables.pre@, t as int, net.places@.len()),
        final(state).available@.len() == old(state).available@.len(),
        final(state).out_tokens@.len() == old(state).out_tokens@.len(),
        final(state).in_tokens == old(state).in_tokens,
        final(state).through_place_counter == old(state).through_place_counter,
        forall|p: int|
            0 <= p < net.places@.len() ==> #[trigger] final(state).available@[p] == sat_sub32(
                old(state).available@[p],
                net.tables.pre@[p]@[t as int],
            ) && final(state).out_tokens@[p] == sat_add64(old(state).out_tokens@[p], net.tables.pre@[p]@[t as int] as u64),
        forall|p: int|
            net.places@.len() <= p < old(state).available@.len() ==> #[trigger] final(state).available@[p]
                == old(state).available@[p],
        forall|p: int|
            net.places@.len() <= p < old(state).out_tokens@.len() ==> #[trigger] final(state).out_tokens@[p]
                == old(state).out_tokens@[p],
{
    let np = net.places.len();
    let mut touched: Vec<usize> = Vec::new();
    let mut p: usize = 0;
    while p < np
        invariant
            np == net.places@.len(),
            p <= np,
            t < net.transitions@.len(),
            sim_shaped(*net, *state),
            state.available@.len() == old(state).available@.len(),
            state.out_tokens@.len() == old(state).out_tokens@.len(),
            state.in_tokens == old(state).in_tokens,
            state.through_place_counter == old(state).through_place_counter,
            touched@ == input_rows(net.tables.pre@, t as int, p as nat),
            forall|q: int|
                0 <= q < p ==> #[trigger] state.available@[q] == sat_sub32(
                    old(state).available@[q],
                    net.tables.pre@[q]@[t as int],
                ) && state.out_tokens@[q] == sat_add64(old(state).out_tokens@[q], net.tables.pre@[q]@[t as int] as u64),
            forall|q: int| p <= q < state.available@.len() ==> #[trigger] state.available@[q] == old(state).available@[q],
            forall|q: int| p <= q < state.out_tokens@.len() ==> #[trigger] state.out_tokens@[q] == old(state).out_tokens@[q],
        decreases np - p,
    {
        proof {
            let _ = net.tables.pre@[p as int];
        }
        let pre = net.tables.pre[p][t];
        if pre > 0 {
            let v = state.out_tokens[p].saturating_add(pre as u64);
            state.out_tokens.set(p, v);
            touched.push(p);
        }
        let a = state.available[p].saturating_sub(pre);
        state.available.set(p, a);
        p = p + 1;
    }
    touched
}

/// `touched` with `p` added at the end unless it is there already.
pub open spec fn with_place(touched: Seq<usize>, p: usize) -> Seq<usize> {
    if touched.contains(p) {
        touched
    } else {
        touched.push(p)
    }
}

/// Transition `t` puts its output tokens into place `p`: they count as put
/// in and as passed through, and are available at once unless they are
/// `delayed` (then the caller holds them until their release). Nothing
/// happens for a place without an output arc from `t`.
pub fn deliver_outputs(
    net: &PetriNetModel,
    state: &mut SimState,
    t: usize,
    p: usize,
    delayed: bool,
    touched: &mut Vec<usize>,
)
    requires
        sim_shaped(*net, *old(state)),
        t < net.transitions@.len(),
        p < net.places@.len(),
    ensures
        sim_shaped(*net, *final(state)),
        final(state).available@.len() == old(state).available@.len(),
        final(state).in_tokens@.len() == old(state).in_tokens@.len(),
        final(state).through_place_counter@.len() == old(state).through_place_counter@.len(),
        final(state).out_tokens == old(state).out_tokens,
        ({
            let post = net.tables.post@[p as int]@[t as int];
            if post == 0 {
                &&& *final(state) == *old(state)
                &&& final(touched)@ == old(touched)@
            } else {
                &&& final(touched)@ == with_place(old(touched)@, p)
                &&& final(state).in_tokens@ == old(state).in_tokens@.update(
                    p as int,
                    sat_add64(old(state).in_tokens@[p as int], post as u64),
                )
                &&& final(state).through_place_counter@ == old(state).through_place_counter@.update(
                    p as int,
                    sat_add64(old(state).through_place_counter@[p as int], post as u64),
                )
                &&& final(state).available@ == (if delayed {
                    old(state).available@
                } else {
                    old(state).available@.update(p as int, sat_add32(old(state).available@[p as int], post))
                })
            }
        }),
{
    proof {
        let _ = net.tables.post@[p as int];
    }
    let post = net.tables.post[p][t];
    if post == 0 {
        return ;
    }
    let v = state.in_tokens[p].saturating_add(post as u64);
    state.in_tokens.set(p, v);
    if !vec_contains(touched, p) {
        touched.push(p);
    }
    if !delayed {
        let a = state.available[p].saturating_add(post);
        state.available.set(p, a);
    }
    let c = state.through_place_counter[p].saturating_add(post as u64);
    state.through_place_counter.set(p, c);
}

/// Whether `v` holds `x`.
fn vec_contains(v: &Vec<usize>, x: usize) -> (r: bool)
    ensures
        r == v@.contains(x),
{
    let mut i: usize = 0;
    while i < v.len()
        invariant
            i <= v@.len(),
            forall|k: int| 0 <= k < i ==> v@[k] != x,
        decreases v@.len() - i,
    {
        if v[i] == x {
            proof {
                assert(v@[i as int] == x);
            }
            return true;
        }
        i = i + 1;
    }
    false
}

/// Tokens put into and taken out of one place over a run.
#[derive(Clone, Copy, Debug, PartialEq, Eq, Structural)]
pub struct PlaceFlowStats {
    pub in_tokens: u64,
    pub out_tokens: u64,
}

/// The flow of tokens through each of the first `places` places.
pub fn place_flow(state: &SimState, places: usize) -> (r: Vec<PlaceFlowStats>)
    requires
        places <= state.in_tokens@.len(),
        places <= state.out_tokens@.len(),
    ensures
        r@.len() == places,
        forall|p: int|
            0 <= p < places ==> #[trigger] r@[p] == (PlaceFlowStats {
                in_tokens: state.in_tokens@[p],
                out_tokens: state.out_tokens@[p],
            }),
{
    let mut out: Vec<PlaceFlowStats> = Vec::new();
    let mut p: usize = 0;
    while p < places
        invariant
            p <= places,
            places <= state.in_tokens@.len(),
            places <= state.out_tokens@.len(),
            out@.len() == p,
            forall|q: int|
                0 <= q < p ==> #[trigger] out@[q] == (PlaceFlowStats {
                    in_tokens: state.in_tokens@[q],
                    out_tokens: state.out_tokens@[q],
                }),
        decreases places - p,
    {
        out.push(PlaceFlowStats { in_tokens: state.in_tokens[p], out_tokens: state.out_tokens[p] });
        p = p + 1;
    }
    out
}

/// The stop rules that count: the pass limit, and the number of tokens
/// that passed through a watched place.
pub fn count_limit_reached(
    use_pass_limit: bool,
    pass_limit: u64,
    passes: u64,
    through_place: Option<(usize, u64)>,
    through_place_counter: &Vec<u64>,
    place_count: usize,
) -> (r: bool)
    requires
        place_count <= through_place_counter@.len(),
    ensures
        r == ((use_pass_limit && passes >= pass_limit) || (through_place matches Some((pk, n)) && pk < place_count
            && through_place_counter@[pk as int] >= n)),
{
    if use_pass_limit && passes >= pass_limit {
        return true;
    }
    match through_place {
        Some((pk, n)) => pk < place_count && through_place_counter[pk] >= n,
        None => false,
    }
}

/// The entries at even positions of `s`, in order.
pub open spec fn evens<T>(s: Seq<T>) -> Seq<T>
    decreases s.len(),
{
    if s.len() == 0 {
        Seq::empty()
    } else {
        let prev = evens(s.drop_last());
        if (s.len() - 1) % 2 == 0 {
            prev.push(s.last())
        } else {
            prev
        }
    }
}

/// Keeping the even positions keeps half the entries, rounded up.
pub proof fn lemma_evens_len<T>(s: Seq<T>)
    ensures
        evens(s).len() == (s.len() + 1) / 2,
    decreases s.len(),
{
    if s.len() > 0 {
        lemma_evens_len(s.drop_last());
    }
}

/// The log after halving while it is over the cap: each round keeps the
/// entries at even positions and doubles the sampling stride (saturating,
/// at least 1).
pub open spec fn thinned<T>(logs: Seq<T>, stride: usize) -> (Seq<T>, usize)
    decreases logs.len(),
{
    if logs.len() > MAX_SIM_LOG_ENTRIES {
        proof {
            lemma_evens_len(logs);
        }
        let doubled: usize = if stride * 2 > usize::MAX {
            usize::MAX
        } else if stride * 2 < 1 {
            1
        } else {
            (stride * 2) as usize
        };
        thinned(evens(logs), doubled)
    } else {
        (logs, stride)
    }
}

fn keep_even_positions<T>(logs: &mut Vec<T>)
    ensures
        final(logs)@ == evens(old(logs)@),
{
    let ghost orig = logs@;
    let n = logs.len();
    let mut rev: Vec<T> = Vec::new();
    while logs.len() > 0
        invariant
            n == orig.len(),
            logs@ == orig.subrange(0, logs@.len() as int),
            rev@.len() + logs@.len() == n,
            forall|k: int| 0 <= k < rev@.len() ==> #[trigger] rev@[k] == orig[n - 1 - k],
        decreases logs@.len(),
    {
        let x = logs.pop().unwrap();
        rev.push(x);
    }
    let mut out: Vec<T> = Vec::new();
    let mut j: usize = 0;
    while rev.len() > 0
        invariant
            n == orig.len(),
            j + rev@.len() == n,
            forall|k: int| 0 <= k < rev@.len() ==> #[trigger] rev@[k] == orig[n - 1 - k],
            out@ == evens(orig.subrange(0, j as int)),
        decreases rev@.len(),
    {
        let x = rev.pop().unwrap();
        proof {
            assert(x == orig[j as int]);
            assert(orig.subrange(0, j + 1).drop_last() == orig.subrange(0, j as int));
        }
        if j % 2 == 0 {
            out.push(x);
        }
        j = j + 1;
    }
    proof {
        assert(orig.subrange(0, n as int) == orig);
    }
    *logs = out;
}

/// Logs one simulation event: the entry is kept when the count of events
/// so far is a multiple of the sampling stride; the count grows by one;
/// then, while the log is over its cap, every other entry is dropped and
/// the stride doubles.
pub fn push_log_entry_sampled<T>(logs: &mut Vec<T>, entry: T, raw_log_total: &mut usize, sample_stride: &mut usize)
    ensures
        ({
            let stride = *old(sample_stride);
            let raw = *old(raw_log_total);
            let kept = if stride == 0 { raw == 0 } else { raw % stride == 0 };
            let appended = if kept { old(logs)@.push(entry) } else { old(logs)@ };
            (final(logs)@, *final(sample_stride)) == thinned(appended, stride)
        }),
        *final(raw_log_total) == (if *old(raw_log_total) == usize::MAX {
            usize::MAX
        } else {
            (*old(raw_log_total) + 1) as usize
        }),
        final(logs)@.len() <= MAX_SIM_LOG_ENTRIES,
{
    let stride = *sample_stride;
    let raw = *raw_log_total;
    let kept = if stride == 0 { raw == 0 } else { raw % stride == 0 };
    if kept {
        logs.push(entry);
    }
    *raw_log_total = raw.saturating_add(1);
    while logs.len() > MAX_SIM_LOG_ENTRIES
        invariant
            thinned(logs@, *sample_stride) == ({
                let appended = if kept { old(logs)@.push(entry) } else { old(logs)@ };
                thinned(appended, stride)
            }),
        decreases logs@.len(),
    {
        proof {
            lemma_evens_len(logs@);
        }
        keep_even_positions(logs);
        let cur = *sample_stride;
        let d = if cur > usize::MAX / 2 { usize::MAX } else { cur * 2 };
        *sample_stride = if d < 1 { 1 } else { d };
    }
}

/// Drops the oldest entries beyond the cap.
pub fn keep_newest<T>(logs: &mut Vec<T>)
    ensures
        final(logs)@ == (if old(logs)@.len() > MAX_SIM_LOG_ENTRIES {
            old(logs)@.subrange(old(logs)@.len() - MAX_SIM_LOG_ENTRIES, old(logs)@.len() as int)
        } else {
            old(logs)@
        }),
{
    let ghost orig = logs@;
    while logs.len() > MAX_SIM_LOG_ENTRIES
        invariant
            orig == old(logs)@,
            orig.len() >= logs@.len(),
            logs@ == orig.subrange(orig.len() - logs@.len(), orig.len() as int),
            orig.len() > MAX_SIM_LOG_ENTRIES ==> logs@.len() >= MAX_SIM_LOG_ENTRIES,
            orig.len() <= MAX_SIM_LOG_ENTRIES ==> logs@.len() == orig.len(),
        decreases logs@.len(),
    {
        let ghost before = logs@;
        logs.remove(0);
        proof {
            assert(logs@ =~= orig.subrange(orig.len() - logs@.len(), orig.len() as int));
        }
    }
    proof {
        if orig.len() <= MAX_SIM_LOG_ENTRIES {
            assert(orig.subrange(0, orig.len() as int) == orig);
        }
    }
}


/// Folds one observed marking into the per-place minima and maxima: each
/// place keeps the smaller and the larger of what it had and its tokens now.
pub fn observe_extremes(min: &mut Vec<u32>, max: &mut Vec<u32>, marking: &Vec<u32>)
    requires
        old(min)@.len() == marking@.len(),
        old(max)@.len() == marking@.len(),
    ensures
        final(min)@.len() == marking@.len(),
        final(max)@.len() == marking@.len(),
        forall|p: int| 0 <= p < marking@.len() ==> #[trigger] final(min)@[p] == (if marking@[p] < old(min)@[p] {
            marking@[p]
        } else {
            old(min)@[p]
        }),
        forall|p: int| 0 <= p < marking@.len() ==> #[trigger] final(max)@[p] == (if marking@[p] > old(max)@[p] {
            marking@[p]
        } else {
            old(max)@[p]
        }),
{
    let ghost min0 = min@;
    let ghost max0 = max@;
    let mut p: usize = 0;
    while p < marking.len()
        invariant
            p <= marking@.len(),
            min@.len() == marking@.len(),
            max@.len() == marking@.len(),
            min0.len() == marking@.len(),
            max0.len() == marking@.len(),
            forall|q: int| p <= q < marking@.len() ==> #[trigger] min@[q] == min0[q],
            forall|q: int| p <= q < marking@.len() ==> #[trigger] max@[q] == max0[q],
            forall|q: int| 0 <= q < p ==> #[trigger] min@[q] == (if marking@[q] < min0[q] { marking@[q] } else { min0[q] }),
            forall|q: int| 0 <= q < p ==> #[trigger] max@[q] == (if marking@[q] > max0[q] { marking@[q] } else { max0[q] }),
        decreases marking@.len() - p,
    {
        let m = marking[p];
        if m < min[p] {
            min.set(p, m);
        }
        if m > max[p] {
            max.set(p, m);
        }
        p = p + 1;
    }
}

/// The available tokens of place `p` after `t` fires: its inputs taken, as
/// `consume_inputs` leaves them, then its outputs added unless the place
/// delays them, as `deliver_outputs` leaves them.
pub open spec fn available_after_firing(net: PetriNetModel, available: Seq<u32>, t: int, p: int, delayed: bool) -> u32 {
    let taken = sat_sub32(available[p], net.tables.pre@[p]@[t]);
    if delayed {
        taken
    } else {
        sat_add32(taken, net.tables.post@[p]@[t])
    }
}

/// The tokens of place `p` waiting after `t` fires: the outputs join them
/// when the place delays them.
pub open spec fn pending_after_firing(net: PetriNetModel, pending: Seq<usize>, t: int, p: int, delayed: bool) -> int {
    pending[p] + if delayed {
        net.tables.post@[p]@[t] as int
    } else {
        0int
    }
}

/// A firing never raises a place above its capacity: when `t` may fire and
/// place `p` shows at most its capacity, it shows at most its capacity
/// after the firing too (as long as that count fits in `u32`).
pub proof fn lemma_firing_keeps_capacity(
    net: PetriNetModel,
    available: Seq<u32>,
    pending: Seq<usize>,
    t: int,
    p: int,
    delayed: bool,
)
    requires
        0 <= p < net.places@.len(),
        0 <= t < net.transitions@.len(),
        covers(net.tables.pre@, net.places@.len(), net.transitions@.len()),
        covers(net.tables.post@, net.places@.len(), net.transitions@.len()),
        net.places@.len() <= net.tables.mo@.len(),
        markings_fit(available, pending, net.places@.len()),
        sim_enabled(net, available, pending, t),
        available_after_firing(net, available, t, p, delayed) + pending_after_firing(net, pending, t, p, delayed)
            <= u32::MAX,
    ensures
        net.tables.mo@[p] matches Some(cap) ==> (shown(available, pending, p) <= cap ==> available_after_firing(
            net,
            available,
            t,
            p,
            delayed,
        ) + pending_after_firing(net, pending, t, p, delayed) <= cap),
{
    assert(tokens_ok(net, available, pending, p, t));
    assert(capacity_ok(net, available, pending, p, t));
    assert(shown(available, pending, p) <= u32::MAX);
}

/// A firing keeps the token balance of every place: the tokens it shows
/// (available and waiting) plus those taken out equal its initial tokens
/// plus those put in, before the firing and after it (as long as the counts
/// fit their types).
pub proof fn lemma_firing_conserves_tokens(
    net: PetriNetModel,
    available: Seq<u32>,
    pending: Seq<usize>,
    out_tokens: u64,
    in_tokens: u64,
    initial: int,
    t: int,
    p: int,
    delayed: bool,
)
    requires
        0 <= p < net.places@.len(),
        0 <= t < net.transitions@.len(),
        covers(net.tables.pre@, net.places@.len(), net.transitions@.len()),
        covers(net.tables.post@, net.places@.len(), net.transitions@.len()),
        p < available.len(),
        p < pending.len(),
        tokens_ok(net, available, pending, p, t),
        shown(available, pending, p) + out_tokens == initial + in_tokens,
        shown(available, pending, p) - net.tables.pre@[p]@[t] + net.tables.post@[p]@[t] <= u32::MAX,
        out_tokens + net.tables.pre@[p]@[t] <= u64::MAX,
        in_tokens + net.tables.post@[p]@[t] <= u64::MAX,
    ensures
        available_after_firing(net, available, t, p, delayed) + pending_after_firing(net, pending, t, p, delayed)
            + sat_add64(out_tokens, net.tables.pre@[p]@[t] as u64) == initial + sat_add64(
            in_tokens,
            net.tables.post@[p]@[t] as u64,
        ),
{
}
} // verus!
