//! What the editor's windows compute before they draw: the row layout of
//! the Markov tables, place labels, automatic names, selections, and the
//! steps of a simulation log worth showing.
use crate::markov::{positive_count_all, usat, MarkovChain};
use crate::model::{
    arc_is_linked, inhibitor_is_linked, transition_ids, place_ids, Arc, InhibitorArc, NodeColor, NodeRef, PetriNetModel,
};
use crate::text::{chars_of, decimal, push_char, push_decimal, push_str, trim_chars, trimmed};
use vstd::prelude::*;

verus! {

/// Row offsets of a table whose groups have the given heights: 0, then
/// the running (saturating) sums.
pub open spec fn row_offsets(heights: Seq<nat>) -> Seq<usize>
    decreases heights.len(),
{
    if heights.len() == 0 {
        seq![0usize]
    } else {
        let prev = row_offsets(heights.drop_last());
        prev.push(usat(prev.last() + heights.last()) as usize)
    }
}

/// `n`, but at least 1.
pub open spec fn at_least_1(n: nat) -> nat {
    if n < 1 {
        1
    } else {
        n
    }
}

/// One row group per state of the stationary table: a row for each place
/// holding tokens, and at least one.
pub open spec fn stationary_heights(states: Seq<Vec<u32>>) -> Seq<nat> {
    Seq::new(states.len(), |i: int| at_least_1(positive_count_all(states[i]@)))
}

/// One row group per state of the state-graph table: a row for each
/// outgoing edge, and at least one.
pub open spec fn state_graph_heights(transitions: Seq<Vec<(usize, usize)>>) -> Seq<nat> {
    Seq::new(transitions.len(), |i: int| at_least_1(transitions[i]@.len()))
}

proof fn lemma_row_offsets_push(heights: Seq<nat>, h: nat)
    ensures
        row_offsets(heights.push(h)) == row_offsets(heights).push(usat(row_offsets(heights).last() + h) as usize),
{
    assert(heights.push(h).drop_last() == heights);
}

fn count_tokens_rows(marking: &Vec<u32>) -> (c: usize)
    ensures
        c == positive_count_all(marking@),
{
    let mut c: usize = 0;
    let mut i: usize = 0;
    while i < marking.len()
        invariant
            i <= marking@.len(),
            c == positive_count_all(marking@.take(i as int)),
            c <= i,
        decreases marking@.len() - i,
    {
        proof {
            assert(marking@.take(i + 1).drop_last() == marking@.take(i as int));
        }
        if marking[i] > 0 {
            c = c + 1;
        }
        i = i + 1;
    }
    proof {
        assert(marking@.take(marking@.len() as int) == marking@);
    }
    c
}

/// The first row of each state's group in the stationary table, and the
/// total number of rows last.
pub fn markov_build_stationary_row_offsets(chain: &MarkovChain) -> (offsets: Vec<usize>)
    ensures
        offsets@ == row_offsets(stationary_heights(chain.states@)),
{
    let mut offsets: Vec<usize> = Vec::new();
    offsets.push(0);
    let mut total: usize = 0;
    let mut i: usize = 0;
    while i < chain.states.len()
        invariant
            i <= chain.states@.len(),
            offsets@ == row_offsets(stationary_heights(chain.states@).take(i as int)),
            total == offsets@.last(),
        decreases chain.states@.len() - i,
    {
        let rows = count_tokens_rows(&chain.states[i]);
        let h = if rows < 1 { 1 } else { rows };
        total = total.saturating_add(h);
        offsets.push(total);
        proof {
            let hs = stationary_heights(chain.states@);
            assert(hs.take(i + 1) == hs.take(i as int).push(hs[i as int]));
            lemma_row_offsets_push(hs.take(i as int), hs[i as int]);
        }
        i = i + 1;
    }
    proof {
        let hs = stationary_heights(chain.states@);
        assert(hs.take(hs.len() as int) == hs);
    }
    offsets
}

/// The first row of each state's group in the state-graph table, and the
/// total number of rows last.
pub fn markov_build_state_graph_row_offsets(chain: &MarkovChain) -> (offsets: Vec<usize>)
    ensures
        offsets@ == row_offsets(state_graph_heights(chain.transitions@)),
{
    let mut offsets: Vec<usize> = Vec::new();
    offsets.push(0);
    let mut total: usize = 0;
    let mut i: usize = 0;
    while i < chain.transitions.len()
        invariant
            i <= chain.transitions@.len(),
            offsets@ == row_offsets(state_graph_heights(chain.transitions@).take(i as int)),
            total == offsets@.last(),
        decreases chain.transitions@.len() - i,
    {
        let n = chain.transitions[i].len();
        let h = if n < 1 { 1 } else { n };
        total = total.saturating_add(h);
        offsets.push(total);
        proof {
            let hs = state_graph_heights(chain.transitions@);
            assert(hs.take(i + 1) == hs.take(i as int).push(hs[i as int]));
            lemma_row_offsets_push(hs.take(i as int), hs[i as int]);
        }
        i = i + 1;
    }
    proof {
        let hs = state_graph_heights(chain.transitions@);
        assert(hs.take(hs.len() as int) == hs);
    }
    offsets
}

/// `s` never decreases.
pub open spec fn nondecreasing(s: Seq<usize>) -> bool {
    forall|i: int, j: int| 0 <= i <= j < s.len() ==> s[i] <= s[j]
}

/// The group of table row `row` and its row within the group: the last
/// group starting at or before it; none past the last row or without a
/// group.
pub open spec fn row_group(offsets: Seq<usize>, row: usize) -> Option<(usize, usize)> {
    if offsets.len() < 2 || row >= offsets.last() {
        None
    } else {
        let g = choose|g: int| #![trigger offsets[g]] 0 <= g < offsets.len() && offsets[g] <= row && (g + 1 == offsets.len() || offsets[g + 1] > row);
        Some((g as usize, (row - offsets[g]) as usize))
    }
}

/// Finds the group of table row `row_idx` and the row within it.
pub fn markov_row_group_index(row_offsets: &[usize], row_idx: usize) -> (r: Option<(usize, usize)>)
    requires
        nondecreasing(row_offsets@),
        row_offsets@.len() >= 2 && row_idx < row_offsets@.last() ==> row_offsets@[0] <= row_idx,
    ensures
        r == row_group(row_offsets@, row_idx),
        r matches Some((g, k)) ==> g + 1 < row_offsets@.len() && row_offsets@[g as int] <= row_idx < row_offsets@[g + 1]
            && k == row_idx - row_offsets@[g as int],
{
    let n = row_offsets.len();
    if n < 2 {
        return None;
    }
    let total = row_offsets[n - 1];
    if row_idx >= total {
        return None;
    }
    let mut lo: usize = 0;
    let mut hi: usize = n;
    while lo < hi
        invariant
            n == row_offsets@.len(),
            0 <= lo <= hi <= n,
            nondecreasing(row_offsets@),
            forall|i: int| 0 <= i < lo ==> row_offsets@[i] <= row_idx,
            forall|i: int| hi <= i < n ==> row_offsets@[i] > row_idx,
        decreases hi - lo,
    {
        let mid = lo + (hi - lo) / 2;
        if row_offsets[mid] <= row_idx {
            lo = mid + 1;
        } else {
            hi = mid;
        }
    }
    proof {
        assert(row_offsets@[n - 1] > row_idx);
        assert(row_offsets@[0] <= row_idx);
    }
    let g = lo - 1;
    let k = row_idx - row_offsets[g];
    proof {
        let s = row_offsets@;
        assert(s[g as int] <= row_idx && (g + 1 == s.len() || s[g + 1] > row_idx));
        let c = choose|c: int| #![trigger s[c]] 0 <= c < s.len() && s[c] <= row_idx && (c + 1 == s.len() || s[c + 1] > row_idx);
        if c < g {
            assert(s[c + 1] <= s[g as int]);
        } else if c > g {
            assert(s[g + 1] <= s[c]);
        }
    }
    Some((g, k))
}

/// The `k`-th place (counting from 0) holding tokens in `m`, with its
/// tokens.
pub open spec fn nonzero_entry(m: Seq<u32>, k: nat) -> Option<(usize, u32)> {
    if positive_count_all(m) <= k {
        None
    } else {
        let p = choose|p: int| 0 <= p < m.len() && m[p] > 0 && positive_count_all(m.take(p)) == k;
        Some((p as usize, m[p]))
    }
}

proof fn lemma_positive_prefix_step(m: Seq<u32>, p: int)
    requires
        0 <= p < m.len(),
    ensures
        positive_count_all(m.take(p + 1)) == positive_count_all(m.take(p)) + if m[p] > 0 {
            1nat
        } else {
            0nat
        },
{
    assert(m.take(p + 1).drop_last() == m.take(p));
}

proof fn lemma_positive_prefix_mono(m: Seq<u32>, a: int, b: int)
    requires
        0 <= a <= b <= m.len(),
    ensures
        positive_count_all(m.take(a)) <= positive_count_all(m.take(b)),
    decreases b - a,
{
    if a < b {
        lemma_positive_prefix_mono(m, a, b - 1);
        lemma_positive_prefix_step(m, b - 1);
    }
}

/// The `target_nonzero_idx`-th place holding tokens in `marking`, with its
/// tokens.
pub fn markov_nonzero_place_entry(marking: &[u32], target_nonzero_idx: usize) -> (r: Option<(usize, u32)>)
    ensures
        r == nonzero_entry(marking@, target_nonzero_idx as nat),
{
    let ghost m = marking@;
    let mut seen: usize = 0;
    let mut p: usize = 0;
    while p < marking.len()
        invariant
            m == marking@,
            p <= m.len(),
            seen == positive_count_all(m.take(p as int)),
            seen <= p,
            seen <= target_nonzero_idx,
        decreases m.len() - p,
    {
        proof {
            lemma_positive_prefix_step(m, p as int);
        }
        let tokens = marking[p];
        if tokens > 0 {
            if seen == target_nonzero_idx {
                proof {
                    lemma_positive_prefix_mono(m, p + 1, m.len() as int);
                    assert(m.take(m.len() as int) == m);
                    let c = choose|c: int| 0 <= c < m.len() && m[c] > 0 && positive_count_all(m.take(c))
                        == target_nonzero_idx;
                    if c < p {
                        lemma_positive_prefix_step(m, c);
                        lemma_positive_prefix_mono(m, c + 1, p as int);
                    } else if c > p {
                        lemma_positive_prefix_mono(m, p + 1, c);
                    }
                }
                return Some((p, tokens));
            }
            seen = seen + 1;
        }
        p = p + 1;
    }
    proof {
        assert(m.take(m.len() as int) == m);
    }
    None
}

/// The label of a place in the Markov tables: `P<id>`, followed by its
/// (trimmed) name in parentheses when that is set and differs; `P<n>` for
/// a row without a place.
pub open spec fn place_label(net: PetriNetModel, idx: int) -> Seq<char> {
    if idx < net.places@.len() {
        let place = net.places@[idx];
        let name = trimmed(place.name@, false);
        let default_name = seq!['P'] + decimal(place.id as nat);
        if name.len() == 0 || name == default_name {
            default_name
        } else {
            default_name + seq![' ', '('] + name + seq![')']
        }
    } else {
        seq!['P'] + decimal((idx + 1) as nat)
    }
}

/// Whether two character sequences are equal.
fn same_chars(a: &Vec<char>, b: &Vec<char>) -> (r: bool)
    ensures
        r == (a@ == b@),
{
    if a.len() != b.len() {
        return false;
    }
    let mut i: usize = 0;
    while i < a.len()
        invariant
            i <= a@.len(),
            a@.len() == b@.len(),
            forall|k: int| 0 <= k < i ==> a@[k] == b@[k],
        decreases a@.len() - i,
    {
        if a[i] != b[i] {
            return false;
        }
        i = i + 1;
    }
    proof {
        assert(a@ =~= b@);
    }
    true
}

/// The label of place row `place_idx` in the Markov tables.
pub fn markov_place_label(net: &PetriNetModel, place_idx: usize) -> (s: String)
    requires
        place_idx < usize::MAX,
    ensures
        s@ == place_label(*net, place_idx as int),
{
    if place_idx < net.places.len() {
        let place = &net.places[place_idx];
        let name = trim_chars(&chars_of(place.name.as_str()), false);
        let mut default_name = String::new();
        push_char(&mut default_name, 'P');
        push_decimal(&mut default_name, place.id);
        proof {
            assert(Seq::<char>::empty().push('P') == seq!['P']);
        }
        let dn = chars_of(default_name.as_str());
        if name.len() == 0 || same_chars(&name, &dn) {
            default_name
        } else {
            let mut s = default_name;
            push_char(&mut s, ' ');
            push_char(&mut s, '(');
            let name_s = crate::text::string_of_chars(&name);
            push_str(&mut s, name_s.as_str());
            push_char(&mut s, ')');
            proof {
                assert(s@ == dn@ + seq![' ', '('] + name@ + seq![')']);
            }
            s
        }
    } else {
        let mut s = String::new();
        push_char(&mut s, 'P');
        push_decimal(&mut s, (place_idx + 1) as u64);
        proof {
            assert(Seq::<char>::empty().push('P') == seq!['P']);
        }
        s
    }
}

/// How many of `ids` are below `id`.
pub open spec fn count_below(ids: Seq<u64>, id: u64) -> nat
    decreases ids.len(),
{
    if ids.len() == 0 {
        0
    } else {
        count_below(ids.drop_last(), id) + if ids.last() < id {
            1nat
        } else {
            0nat
        }
    }
}

/// The rank of `id` among `ids` in increasing order, from 1 (its first
/// position once sorted); the number of ids (at least 1) when absent.
pub open spec fn id_rank(ids: Seq<u64>, id: u64) -> nat {
    if ids.contains(id) {
        count_below(ids, id) + 1
    } else {
        at_least_1(ids.len())
    }
}

/// The first position of `id` in `ids`.
pub open spec fn first_index(ids: Seq<u64>, id: u64) -> int {
    choose|i: int| 0 <= i < ids.len() && ids[i] == id && forall|j: int| 0 <= j < i ==> ids[j] != id
}


proof fn lemma_count_below_bound(ids: Seq<u64>, id: u64)
    ensures
        count_below(ids, id) <= ids.len(),
        ids.contains(id) ==> count_below(ids, id) < ids.len(),
    decreases ids.len(),
{
    if ids.len() > 0 {
        lemma_count_below_bound(ids.drop_last(), id);
        if ids.contains(id) && ids.last() != id {
            let k = choose|k: int| 0 <= k < ids.len() && ids[k] == id;
            assert(ids.drop_last()[k] == id);
        }
    }
}

fn rename_place(places: &mut Vec<crate::model::Place>, i: usize, name: String)
    requires
        i < old(places)@.len(),
    ensures
        final(places)@ == old(places)@.update(i as int, crate::model::Place { name: name, ..old(places)@[i as int] }),
{
    let ghost before = places@;
    let mut place = places.remove(i);
    place.name = name;
    places.insert(i, place);
    proof {
        assert(places@ =~= before.update(i as int, crate::model::Place { name: name, ..before[i as int] }));
    }
}

fn rename_transition(transitions: &mut Vec<crate::model::Transition>, i: usize, name: String)
    requires
        i < old(transitions)@.len(),
    ensures
        final(transitions)@ == old(transitions)@.update(
            i as int,
            crate::model::Transition { name: name, ..old(transitions)@[i as int] },
        ),
{
    let ghost before = transitions@;
    let mut tr = transitions.remove(i);
    tr.name = name;
    transitions.insert(i, tr);
    proof {
        assert(transitions@ =~= before.update(i as int, crate::model::Transition { name: name, ..before[i as int] }));
    }
}

fn rank_of(ids: &Vec<u64>, id: u64) -> (r: (usize, Option<usize>))
    ensures
        r.0 == id_rank(ids@, id),
        r.1 matches Some(i) ==> i == first_index(ids@, id) && i < ids@.len() && ids@[i as int] == id,
        r.1 is None <==> !ids@.contains(id),
{
    let mut below: usize = 0;
    let mut first: Option<usize> = None;
    let mut i: usize = 0;
    while i < ids.len()
        invariant
            i <= ids@.len(),
            below == count_below(ids@.take(i as int), id),
            below <= i,
            first matches Some(f) ==> f < i && ids@[f as int] == id && forall|j: int| 0 <= j < f ==> ids@[j] != id,
            first is None ==> forall|j: int| 0 <= j < i ==> ids@[j] != id,
        decreases ids@.len() - i,
    {
        proof {
            assert(ids@.take(i + 1).drop_last() == ids@.take(i as int));
        }
        if ids[i] < id {
            below = below + 1;
        }
        if first.is_none() && ids[i] == id {
            first = Some(i);
        }
        i = i + 1;
    }
    proof {
        assert(ids@.take(ids@.len() as int) == ids@);
        lemma_count_below_bound(ids@, id);
        match first {
            Some(f) => {
                assert(ids@.contains(id));
                let c = first_index(ids@, id);
                assert(0 <= c < ids@.len() && ids@[c] == id && forall|j: int| 0 <= j < c ==> ids@[j] != id);
                if c < f {
                } else if c > f {
                }
            },
            None => {
                if ids@.contains(id) {
                    let k = choose|k: int| 0 <= k < ids@.len() && ids@[k] == id;
                }
            },
        }
    }
    if ids.len() == 0 {
        return (1, first);
    }
    match first {
        Some(_) => (below + 1, first),
        None => (ids.len(), first),
    }
}

/// Names the (first) place with id `place_id` `P<rank>`, its rank among
/// the place ids; nothing else changes.
pub fn assign_auto_name_for_place(net: &mut PetriNetModel, place_id: u64)
    ensures
        final(net).places@.len() == old(net).places@.len(),
        ({
            let ids = place_ids(old(net).places@);
            if ids.contains(place_id) {
                let i = first_index(ids, place_id);
                &&& final(net).places@[i].name@ == seq!['P'] + decimal(id_rank(ids, place_id))
                &&& final(net).places@[i].id == old(net).places@[i].id
                &&& forall|j: int| 0 <= j < old(net).places@.len() && j != i ==> final(net).places@[j] == old(net).places@[j]
            } else {
                final(net).places@ == old(net).places@
            }
        }),
        final(net).transitions == old(net).transitions,
        final(net).arcs == old(net).arcs,
        final(net).inhibitor_arcs == old(net).inhibitor_arcs,
        final(net).tables == old(net).tables,
{
    let ids = crate::model::place_id_vec(&net.places);
    let (rank, first) = rank_of(&ids, place_id);
    match first {
        Some(i) => {
            let mut name = String::new();
            push_char(&mut name, 'P');
            push_decimal(&mut name, rank as u64);
            proof {
                assert(Seq::<char>::empty().push('P') == seq!['P']);
            }
            let mut places: Vec<crate::model::Place> = Vec::new();
            std::mem::swap(&mut places, &mut net.places);
            rename_place(&mut places, i, name);
            std::mem::swap(&mut places, &mut net.places);
        },
        None => {},
    }
}


/// Names the (first) transition with id `transition_id` `T<rank>`, its
/// rank among the transition ids; nothing else changes.
pub fn assign_auto_name_for_transition(net: &mut PetriNetModel, transition_id: u64)
    ensures
        final(net).transitions@.len() == old(net).transitions@.len(),
        ({
            let ids = transition_ids(old(net).transitions@);
            if ids.contains(transition_id) {
                let i = first_index(ids, transition_id);
                &&& final(net).transitions@[i].name@ == seq!['T'] + decimal(id_rank(ids, transition_id))
                &&& final(net).transitions@[i].id == old(net).transitions@[i].id
                &&& forall|j: int|
                    0 <= j < old(net).transitions@.len() && j != i ==> final(net).transitions@[j]
                        == old(net).transitions@[j]
            } else {
                final(net).transitions@ == old(net).transitions@
            }
        }),
        final(net).places == old(net).places,
        final(net).arcs == old(net).arcs,
        final(net).inhibitor_arcs == old(net).inhibitor_arcs,
        final(net).tables == old(net).tables,
{
    let ids = crate::model::transition_id_vec(&net.transitions);
    let (rank, first) = rank_of(&ids, transition_id);
    match first {
        Some(i) => {
            let mut name = String::new();
            push_char(&mut name, 'T');
            push_decimal(&mut name, rank as u64);
            proof {
                assert(Seq::<char>::empty().push('T') == seq!['T']);
            }
            let mut transitions: Vec<crate::model::Transition> = Vec::new();
            std::mem::swap(&mut transitions, &mut net.transitions);
            rename_transition(&mut transitions, i, name);
            std::mem::swap(&mut transitions, &mut net.transitions);
        },
        None => {},
    }
}

/// The place and transition an arc from a place to a transition joins.
pub fn arc_place_transition_pair(from: NodeRef, to: NodeRef) -> (r: Option<(u64, u64)>)
    ensures
        r == (match (from, to) {
            (NodeRef::Place(pid), NodeRef::Transition(tid)) => Some((pid, tid)),
            _ => None,
        }),
{
    match (from, to) {
        (NodeRef::Place(pid), NodeRef::Transition(tid)) => Some((pid, tid)),
        _ => None,
    }
}

/// `s` is strictly increasing.
pub open spec fn strictly_increasing(s: Seq<u64>) -> bool {
    forall|i: int, j: int| 0 <= i < j < s.len() ==> s[i] < s[j]
}

fn insert_sorted(out: &mut Vec<u64>, x: u64)
    requires
        strictly_increasing(old(out)@),
    ensures
        strictly_increasing(final(out)@),
        forall|y: u64| final(out)@.contains(y) <==> (old(out)@.contains(y) || y == x),
{
    let mut j: usize = 0;
    while j < out.len() && out[j] < x
        invariant
            j <= out@.len(),
            out@ == old(out)@,
            forall|i: int| 0 <= i < j ==> out@[i] < x,
        decreases out@.len() - j,
    {
        j = j + 1;
    }
    if j < out.len() && out[j] == x {
        proof {
            assert(out@[j as int] == x);
            assert(out@.contains(x));
            assert forall|y: u64| out@.contains(y) <==> (old(out)@.contains(y) || y == x) by {
                if y == x {
                    assert(out@.contains(x));
                }
            }
        }
        return ;
    }
    let ghost before = out@;
    out.insert(j, x);
    proof {
        assert forall|a: int, b: int| 0 <= a < b < out@.len() implies out@[a] < out@[b] by {
            if b < j {
            } else if b == j {
            } else if a < j {
                assert(before[j as int] > x);
                assert(before[j as int] <= before[b - 1]);
            } else if a == j {
                assert(before[j as int] > x);
                assert(before[j as int] <= before[b - 1]);
            } else {
                assert(before[a - 1] < before[b - 1]);
            }
        }
        assert forall|y: u64| out@.contains(y) <==> (before.contains(y) || y == x) by {
            if before.contains(y) {
                let k = choose|k: int| 0 <= k < before.len() && before[k] == y;
                if k < j {
                    assert(out@[k] == y);
                } else {
                    assert(out@[k + 1] == y);
                }
            }
            if y == x {
                assert(out@[j as int] == x);
            }
            if out@.contains(y) {
                let k = choose|k: int| 0 <= k < out@.len() && out@[k] == y;
                if k < j {
                    assert(before[k] == y);
                } else if k > j {
                    assert(before[k - 1] == y);
                }
            }
        }
    }
}

/// The selected ids (a list and the current one), sorted and without
/// repeats.
pub fn collect_selected_ids(selected: &Vec<u64>, current: Option<u64>) -> (r: Vec<u64>)
    ensures
        strictly_increasing(r@),
        forall|y: u64| r@.contains(y) <==> (selected@.contains(y) || current == Some(y)),
{
    let mut out: Vec<u64> = Vec::new();
    let mut i: usize = 0;
    while i < selected.len()
        invariant
            i <= selected@.len(),
            strictly_increasing(out@),
            forall|y: u64| out@.contains(y) <==> selected@.take(i as int).contains(y),
        decreases selected@.len() - i,
    {
        insert_sorted(&mut out, selected[i]);
        proof {
            assert forall|y: u64| out@.contains(y) <==> selected@.take(i + 1).contains(y) by {
                let t = selected@.take(i + 1);
                if selected@.take(i as int).contains(y) {
                    let k = choose|k: int| 0 <= k < i && selected@.take(i as int)[k] == y;
                    assert(t[k] == y);
                }
                if y == selected@[i as int] {
                    assert(t[i as int] == y);
                }
                if t.contains(y) {
                    let k = choose|k: int| 0 <= k < t.len() && t[k] == y;
                    if k < i {
                        assert(selected@.take(i as int)[k] == y);
                    }
                }
            }
        }
        i = i + 1;
    }
    proof {
        assert(selected@.take(selected@.len() as int) == selected@);
    }
    match current {
        Some(x) => {
            insert_sorted(&mut out, x);
        },
        None => {},
    }
    out
}

/// A logged simulation step: the transition that fired, if any, and the
/// marking after it.
pub type LoggedStep = (Option<usize>, Vec<u32>);

/// The log steps worth showing: the first one, then each one where a
/// transition fired or the marking changed.
pub open spec fn visible_steps(logs: Seq<LoggedStep>, n: nat) -> Seq<usize>
    decreases n,
{
    if n == 0 {
        Seq::empty()
    } else if n == 1 {
        seq![0usize]
    } else {
        let prev = visible_steps(logs, (n - 1) as nat);
        let i = n - 1;
        if logs[i].0 is Some || logs[i].1@ != logs[i - 1].1@ {
            prev.push(i as usize)
        } else {
            prev
        }
    }
}

/// The positions of the log steps worth showing.
pub fn debug_visible_log_indices(logs: &Vec<LoggedStep>) -> (r: Vec<usize>)
    ensures
        r@ == visible_steps(logs@, logs@.len()),
{
    let mut out: Vec<usize> = Vec::new();
    if logs.len() == 0 {
        return out;
    }
    out.push(0);
    let mut i: usize = 1;
    while i < logs.len()
        invariant
            1 <= i <= logs@.len(),
            out@ == visible_steps(logs@, i as nat),
        decreases logs@.len() - i,
    {
        let changed = !same_markings(&logs[i - 1].1, &logs[i].1);
        if logs[i].0.is_some() || changed {
            out.push(i);
        }
        i = i + 1;
    }
    out
}

fn same_markings(a: &Vec<u32>, b: &Vec<u32>) -> (r: bool)
    ensures
        r == (a@ == b@),
{
    if a.len() != b.len() {
        return false;
    }
    let mut i: usize = 0;
    while i < a.len()
        invariant
            i <= a@.len(),
            a@.len() == b@.len(),
            forall|k: int| 0 <= k < i ==> a@[k] == b@[k],
        decreases a@.len() - i,
    {
        if a[i] != b[i] {
            return false;
        }
        i = i + 1;
    }
    proof {
        assert(a@ =~= b@);
    }
    true
}


/// A place other than the one with id `exclude_id` carries `name` (its
/// name trimmed).
pub open spec fn name_in_use(places: Seq<crate::model::Place>, exclude_id: u64, name: Seq<char>) -> bool {
    exists|i: int| 0 <= i < places.len() && places[i].id != exclude_id && #[trigger] trimmed(places[i].name@, false) == name
}

/// `base` followed by ` (n)`.
pub open spec fn numbered_name(base: Seq<char>, n: nat) -> Seq<char> {
    base + seq![' ', '('] + decimal(n) + seq![')']
}

/// The name a place gets from the wish `desired`: nothing for a blank
/// wish; the trimmed wish when no other place carries it; else the
/// trimmed wish numbered ` (n)` with the first `n` from 2 that no other
/// place carries.
pub open spec fn unique_place_name(places: Seq<crate::model::Place>, exclude_id: u64, desired: Seq<char>, r: Seq<char>) -> bool {
    let base = trimmed(desired, false);
    if base.len() == 0 {
        r.len() == 0
    } else if !name_in_use(places, exclude_id, base) {
        r == base
    } else {
        exists|n: nat|
            #![trigger numbered_name(base, n)]
            n >= 2 && r == numbered_name(base, n) && !name_in_use(places, exclude_id, r) && forall|k: nat|
                2 <= k < n ==> name_in_use(places, exclude_id, #[trigger] numbered_name(base, k))
    }
}

proof fn lemma_decimal_len(n: nat)
    ensures
        decimal(n).len() >= 1,
        n >= 10 ==> decimal(n).len() >= 2,
    decreases n,
{
    crate::text::lemma_decimal_digits(n);
    if n >= 10 {
        crate::text::lemma_decimal_digits(n / 10);
    }
}

proof fn lemma_decimal_value(n: nat)
    ensures
        crate::dump::digits_value(decimal(n)) == n,
    decreases n,
{
    let d = decimal(n);
    if n < 10 {
        assert(d.drop_last() == Seq::<char>::empty());
        assert(((48 + n) as char) as int == 48 + n);
        assert(d.last() == (48 + n) as char);
        assert(crate::dump::digits_value(Seq::<char>::empty()) == 0);
        assert(crate::dump::digits_value(d) == crate::dump::digits_value(d.drop_last()) * 10 + (d.last() as int - 48));
    } else {
        lemma_decimal_value(n / 10);
        assert(d.drop_last() == decimal(n / 10));
        assert(((48 + n % 10) as char) as int == 48 + n % 10);
        assert(d.last() == (48 + n % 10) as char);
        assert(n == (n / 10) * 10 + n % 10);
        assert(crate::dump::digits_value(d) == crate::dump::digits_value(d.drop_last()) * 10 + (d.last() as int - 48));
    }
}

proof fn lemma_decimal_injective(a: nat, b: nat)
    requires
        decimal(a) == decimal(b),
    ensures
        a == b,
{
    lemma_decimal_value(a);
    lemma_decimal_value(b);
}

proof fn lemma_numbered_names_differ(base: Seq<char>, a: nat, b: nat)
    requires
        a != b,
    ensures
        numbered_name(base, a) != numbered_name(base, b),
        numbered_name(base, a) != base,
{
    lemma_decimal_len(a);
    lemma_decimal_len(b);
    let x = numbered_name(base, a);
    let y = numbered_name(base, b);
    if x == y {
        let da = decimal(a);
        let db = decimal(b);
        assert(x.len() == base.len() + 3 + da.len());
        assert(y.len() == base.len() + 3 + db.len());
        assert(da.len() == db.len());
        let lo: int = base.len() as int + 2;
        assert(x.subrange(lo, lo + da.len()) == da);
        assert(y.subrange(lo, lo + db.len()) == db);
        lemma_decimal_injective(a, b);
    }
    assert(x.len() > base.len());
}

fn name_used(places: &Vec<crate::model::Place>, exclude_id: u64, name: &Vec<char>) -> (r: Option<Ghost<int>>)
    ensures
        r is Some <==> name_in_use(places@, exclude_id, name@),
        r matches Some(g) ==> 0 <= g@ < places@.len() && places@[g@].id != exclude_id && trimmed(places@[g@].name@, false) == name@,
{
    let mut i: usize = 0;
    while i < places.len()
        invariant
            i <= places@.len(),
            forall|k: int| 0 <= k < i ==> !(places@[k].id != exclude_id && #[trigger] trimmed(places@[k].name@, false) == name@),
        decreases places@.len() - i,
    {
        if places[i].id != exclude_id {
            let t = trim_chars(&chars_of(places[i].name.as_str()), false);
            if same_chars(&t, name) {
                return Some(Ghost(i as int));
            }
        }
        i = i + 1;
    }
    None
}

/// The name a place with id `exclude_id` can take for the wish `desired`
/// without repeating the name of another place.
pub fn ensure_unique_place_name(net: &PetriNetModel, desired: &str, exclude_id: u64) -> (r: String)
    requires
        net.places@.len() + 2 < u32::MAX,
    ensures
        unique_place_name(net.places@, exclude_id, desired@, r@),
{
    let base = trim_chars(&chars_of(desired), false);
    if base.len() == 0 {
        return String::new();
    }
    let ghost places = net.places@;
    let ghost b = base@;
    let mut candidate: Vec<char> = base.clone();
    proof {
        assert(candidate@ == base@);
    }
    let mut n: u32 = 2;
    let ghost mut used: Set<int> = Set::empty();
    let mut probe = name_used(&net.places, exclude_id, &candidate);
    if probe.is_none() {
        return crate::text::string_of_chars(&candidate);
    }
    while probe.is_some()
        invariant
            places == net.places@,
            b == base@,
            b.len() > 0,
            name_in_use(places, exclude_id, b),
            2 <= n,
            n as int - 2 == used.len(),
            used.finite(),
            used.subset_of(set_int_range_of(places.len())),
            candidate@ == (if n == 2 { b } else { numbered_name(b, (n - 1) as nat) }),
            probe is Some <==> name_in_use(places, exclude_id, candidate@),
            probe matches Some(g) ==> 0 <= g@ < places.len() && places[g@].id != exclude_id && trimmed(places[g@].name@, false) == candidate@,
            forall|w: int| used.contains(w) ==> (trimmed(places[w].name@, false) == b || exists|k: nat| 2 <= k < n - 1 && trimmed(places[w].name@, false) == #[trigger] numbered_name(b, k)),
            forall|k: nat| 2 <= k < n - 1 ==> name_in_use(places, exclude_id, #[trigger] numbered_name(b, k)),
            places.len() + 2 < u32::MAX,
        decreases places.len() + 2 - n,
    {
        let ghost g = match probe {
            Some(g) => g@,
            None => 0,
        };
        proof {
            if used.contains(g) {
                if trimmed(places[g].name@, false) == b {
                    if n > 2 {
                        lemma_numbered_names_differ(b, (n - 1) as nat, 0);
                    }
                } else {
                    let k = choose|k: nat| 2 <= k < n - 1 && trimmed(places[g].name@, false) == #[trigger] numbered_name(b, k);
                    lemma_numbered_names_differ(b, (n - 1) as nat, k);
                    if n == 2 {
                        lemma_numbered_names_differ(b, k, 0);
                    }
                }
                assert(false);
            }
            let used2 = used.insert(g);
            assert(used2.subset_of(set_int_range_of(places.len())));
            lemma_set_range(places.len());
            vstd::set_lib::lemma_len_subset(used2, set_int_range_of(places.len()));
            assert(used2.len() == used.len() + 1);
            if n > 2 {
                assert(name_in_use(places, exclude_id, numbered_name(b, (n - 1) as nat)));
            }
        }
        let mut next: Vec<char> = base.clone();
        next.push(' ');
        next.push('(');
        let digits = crate::text::decimal_chars(n as u64);
        let mut k: usize = 0;
        while k < digits.len()
            invariant
                k <= digits@.len(),
                next@ == base@ + seq![' ', '('] + digits@.take(k as int),
            decreases digits@.len() - k,
        {
            proof {
                assert(digits@.take(k + 1) == digits@.take(k as int).push(digits@[k as int]));
            }
            next.push(digits[k]);
            k = k + 1;
        }
        next.push(')');
        proof {
            assert(digits@.take(digits@.len() as int) == digits@);
            assert(next@ == numbered_name(b, n as nat));
            let old_used = used;
            used = used.insert(g);
            assert forall|w: int| used.contains(w) implies (trimmed(places[w].name@, false) == b || exists|k: nat| 2 <= k < n && trimmed(places[w].name@, false) == #[trigger] numbered_name(b, k)) by {
                if old_used.contains(w) {
                    if trimmed(places[w].name@, false) != b {
                        let k = choose|k: nat| 2 <= k < n - 1 && trimmed(places[w].name@, false) == #[trigger] numbered_name(b, k);
                        assert(2 <= k < n);
                    }
                } else {
                    assert(w == g);
                    if n > 2 {
                        assert(trimmed(places[w].name@, false) == numbered_name(b, (n - 1) as nat));
                    }
                }
            }
        }
        candidate = next;
        n = n + 1;
        probe = name_used(&net.places, exclude_id, &candidate);
    }
    proof {
        assert(n >= 3);
        assert(candidate@ == numbered_name(b, (n - 1) as nat));
        assert(forall|k: nat| 2 <= k < (n - 1) as nat ==> name_in_use(places, exclude_id, #[trigger] numbered_name(b, k)));
    }
    crate::text::string_of_chars(&candidate)
}

/// The rows `0..n`.
pub open spec fn set_int_range_of(n: nat) -> Set<int> {
    Set::new(|i: int| 0 <= i < n)
}

proof fn lemma_set_range(n: nat)
    ensures
        set_int_range_of(n).finite(),
        set_int_range_of(n).len() == n,
{
    vstd::set_lib::lemma_int_range(0, n as int);
    assert(set_int_range_of(n) == vstd::set_lib::set_int_range(0, n as int));
}


/// What the arc property window sets: the kind of the arc, its weight (for
/// an ordinary arc) or threshold (for an inhibitor arc), colour and whether
/// the weight is shown.
#[derive(Clone, Copy, Debug)]
pub struct ArcEdit {
    pub inhibitor: bool,
    pub weight: u32,
    pub threshold: u32,
    pub color: NodeColor,
    pub show_weight: bool,
}

/// The ids of the arcs, in order.
pub open spec fn arc_ids_of(arcs: Seq<Arc>) -> Seq<u64> {
    Seq::new(arcs.len(), |i: int| arcs[i].id)
}

/// The ids of the inhibitor arcs, in order.
pub open spec fn inhibitor_ids_of(arcs: Seq<InhibitorArc>) -> Seq<u64> {
    Seq::new(arcs.len(), |i: int| arcs[i].id)
}

/// A weight or threshold raised to at least 1.
pub open spec fn at_least_1_u32(w: u32) -> u32 {
    if w == 0 {
        1
    } else {
        w
    }
}

/// The arcs and inhibitor arcs after editing the arc `id` (the first
/// ordinary arc with that id, else the first inhibitor arc), and whether
/// the matrices are to be rebuilt: an arc turned into an inhibitor arc (only
/// one from a place to a transition) or back moves to the end of the other
/// list keeping its id and visibility; otherwise the arc takes the new
/// weight or threshold, colour and weight display, and the matrices are
/// rebuilt when the weight or threshold changed.
pub open spec fn edited_arcs(m: PetriNetModel, id: u64, e: ArcEdit) -> (Seq<Arc>, Seq<InhibitorArc>, bool) {
    let arcs = m.arcs@;
    let inhs = m.inhibitor_arcs@;
    let w = at_least_1_u32(e.weight);
    let th = at_least_1_u32(e.threshold);
    if arc_ids_of(arcs).contains(id) {
        let i = first_index(arc_ids_of(arcs), id);
        let a = arcs[i];
        if e.inhibitor {
            match (a.from, a.to) {
                (NodeRef::Place(p), NodeRef::Transition(t)) => (
                    arcs.remove(i),
                    inhs.push(
                        InhibitorArc {
                            id: a.id,
                            place_id: p,
                            transition_id: t,
                            threshold: th,
                            color: e.color,
                            visible: a.visible,
                            show_weight: e.show_weight,
                        },
                    ),
                    true,
                ),
                _ => (arcs, inhs, false),
            }
        } else {
            (arcs.update(i, Arc { weight: w, color: e.color, show_weight: e.show_weight, ..a }), inhs, a.weight != w)
        }
    } else if inhibitor_ids_of(inhs).contains(id) {
        let i = first_index(inhibitor_ids_of(inhs), id);
        let a = inhs[i];
        if !e.inhibitor {
            (
                arcs.push(
                    Arc {
                        id: a.id,
                        from: NodeRef::Place(a.place_id),
                        to: NodeRef::Transition(a.transition_id),
                        weight: w,
                        color: e.color,
                        visible: a.visible,
                        show_weight: e.show_weight,
                    },
                ),
                inhs.remove(i),
                true,
            )
        } else {
            (arcs, inhs.update(i, InhibitorArc { threshold: th, color: e.color, show_weight: e.show_weight, ..a }), a.threshold != th)
        }
    } else {
        (arcs, inhs, false)
    }
}

/// `new` is `old` with the arc edit applied: the edited arcs, then, when
/// the matrices are to be rebuilt, what `rebuild_matrices_from_arcs` makes
/// of them; the nodes and settings stay.
pub open spec fn arc_edit_applied(new: PetriNetModel, old: PetriNetModel, id: u64, e: ArcEdit) -> bool {
    let (arcs, inhs, rebuild) = edited_arcs(old, id, e);
    &&& new.format_version == old.format_version
    &&& new.meta == old.meta
    &&& new.ui == old.ui
    &&& new.places == old.places
    &&& new.transitions == old.transitions
    &&& if rebuild {
        &&& new.arcs@ == arcs.filter(|a: Arc| arc_is_linked(a, old.pids(), old.tids()))
        &&& new.inhibitor_arcs@ == inhs.filter(|a: InhibitorArc| inhibitor_is_linked(a, old.pids(), old.tids()))
        &&& new.vectors_resized_from(old.tables)
        &&& new.tables.has_shape(old.places@.len(), old.transitions@.len())
        &&& new.matrices_match_arcs()
    } else {
        &&& new.arcs@ == arcs
        &&& new.inhibitor_arcs@ == inhs
        &&& new.tables == old.tables
    }
}

/// The position of the first arc with the id, if any.
fn arc_position(arcs: &Vec<Arc>, id: u64) -> (r: Option<usize>)
    ensures
        r is None <==> !arc_ids_of(arcs@).contains(id),
        r matches Some(i) ==> i == first_index(arc_ids_of(arcs@), id) && i < arcs@.len(),
{
    let ghost ids = arc_ids_of(arcs@);
    let mut i: usize = 0;
    while i < arcs.len()
        invariant
            i <= arcs@.len(),
            ids == arc_ids_of(arcs@),
            forall|j: int| 0 <= j < i ==> ids[j] != id,
        decreases arcs@.len() - i,
    {
        if arcs[i].id == id {
            proof {
                assert(ids[i as int] == id);
                let f = first_index(ids, id);
                assert(0 <= f < ids.len() && ids[f] == id && forall|j: int| 0 <= j < f ==> ids[j] != id);
                if f < i {
                    assert(ids[f] != id);
                } else if f > i {
                    assert(ids[i as int] != id);
                }
            }
            return Some(i);
        }
        i = i + 1;
    }
    proof {
        if ids.contains(id) {
            let k = choose|k: int| 0 <= k < ids.len() && ids[k] == id;
            assert(ids[k] != id);
        }
    }
    None
}

/// The position of the first inhibitor arc with the id, if any.
fn inhibitor_position(arcs: &Vec<InhibitorArc>, id: u64) -> (r: Option<usize>)
    ensures
        r is None <==> !inhibitor_ids_of(arcs@).contains(id),
        r matches Some(i) ==> i == first_index(inhibitor_ids_of(arcs@), id) && i < arcs@.len(),
{
    let ghost ids = inhibitor_ids_of(arcs@);
    let mut i: usize = 0;
    while i < arcs.len()
        invariant
            i <= arcs@.len(),
            ids == inhibitor_ids_of(arcs@),
            forall|j: int| 0 <= j < i ==> ids[j] != id,
        decreases arcs@.len() - i,
    {
        if arcs[i].id == id {
            proof {
                assert(ids[i as int] == id);
                let f = first_index(ids, id);
                assert(0 <= f < ids.len() && ids[f] == id && forall|j: int| 0 <= j < f ==> ids[j] != id);
                if f < i {
                    assert(ids[f] != id);
                } else if f > i {
                    assert(ids[i as int] != id);
                }
            }
            return Some(i);
        }
        i = i + 1;
    }
    proof {
        if ids.contains(id) {
            let k = choose|k: int| 0 <= k < ids.len() && ids[k] == id;
            assert(ids[k] != id);
        }
    }
    None
}

/// Applies what the arc property window set to the arc `arc_id`: changes
/// its kind, weight or threshold, colour and weight display, and rebuilds
/// the matrices when the arc changed kind or its weight or threshold
/// changed. Returns whether there is an arc with that id.
pub fn apply_arc_edit(net: &mut PetriNetModel, arc_id: u64, edit: ArcEdit) -> (found: bool)
    ensures
        found == (arc_ids_of(old(net).arcs@).contains(arc_id) || inhibitor_ids_of(old(net).inhibitor_arcs@).contains(
            arc_id,
        )),
        arc_edit_applied(*final(net), *old(net), arc_id, edit),
{
    let ghost before = *net;
    let new_weight = if edit.weight == 0 { 1 } else { edit.weight };
    let new_threshold = if edit.threshold == 0 { 1 } else { edit.threshold };
    let mut rebuild = false;
    let found = match arc_position(&net.arcs, arc_id) {
        Some(idx) => {
            let a = net.arcs[idx];
            if edit.inhibitor {
                match arc_place_transition_pair(a.from, a.to) {
                    Some((place_id, transition_id)) => {
                        let arc = net.arcs.remove(idx);
                        net.inhibitor_arcs.push(
                            InhibitorArc {
                                id: arc.id,
                                place_id,
                                transition_id,
                                threshold: new_threshold,
                                color: edit.color,
                                visible: arc.visible,
                                show_weight: edit.show_weight,
                            },
                        );
                        rebuild = true;
                    },
                    None => {},
                }
            } else {
                if a.weight != new_weight {
                    rebuild = true;
                }
                let updated = Arc { weight: new_weight, color: edit.color, show_weight: edit.show_weight, ..a };
                net.arcs.set(idx, updated);
            }
            true
        },
        None => match inhibitor_position(&net.inhibitor_arcs, arc_id) {
            Some(idx) => {
                let a = net.inhibitor_arcs[idx];
                if !edit.inhibitor {
                    let inh = net.inhibitor_arcs.remove(idx);
                    net.arcs.push(
                        Arc {
                            id: inh.id,
                            from: NodeRef::Place(inh.place_id),
                            to: NodeRef::Transition(inh.transition_id),
                            weight: new_weight,
                            color: edit.color,
                            visible: inh.visible,
                            show_weight: edit.show_weight,
                        },
                    );
                    rebuild = true;
                } else {
                    if a.threshold != new_threshold {
                        rebuild = true;
                    }
                    let updated = InhibitorArc {
                        threshold: new_threshold,
                        color: edit.color,
                        show_weight: edit.show_weight,
                        ..a
                    };
                    net.inhibitor_arcs.set(idx, updated);
                }
                true
            },
            None => false,
        },
    };
    proof {
        let (arcs, inhs, rb) = edited_arcs(before, arc_id, edit);
        assert(net.arcs@ == arcs);
        assert(net.inhibitor_arcs@ == inhs);
        assert(rebuild == rb);
    }
    if rebuild {
        net.rebuild_matrices_from_arcs();
    }
    found
}
} // verus!
