//! The ATF text export: the net's sizes and its marking, capacity, delay
//! and priority tables, one entry per line.
use crate::model::PetriNetModel;
use crate::text::{decimal, push_decimal, push_signed_decimal, push_str, signed_decimal};
use vstd::prelude::*;

verus! {

/// A line `<prefix><n>=<value>`.
pub open spec fn entry_line(prefix: char, n: nat, value: Seq<char>) -> Seq<char> {
    seq![prefix] + decimal(n) + seq!['='] + value + seq!['\n']
}

/// The lines of the first `n` markings.
pub open spec fn m0_lines(m0: Seq<u32>, n: nat) -> Seq<char>
    decreases n,
{
    if n == 0 {
        Seq::empty()
    } else {
        m0_lines(m0, (n - 1) as nat) + entry_line('P', n, decimal(m0[n - 1] as nat))
    }
}

/// The lines of the first `n` capacities (`inf` for none).
pub open spec fn mo_lines(mo: Seq<Option<u32>>, n: nat) -> Seq<char>
    decreases n,
{
    if n == 0 {
        Seq::empty()
    } else {
        mo_lines(mo, (n - 1) as nat) + entry_line(
            'P',
            n,
            match mo[n - 1] {
                Some(c) => decimal(c as nat),
                None => seq!['i', 'n', 'f'],
            },
        )
    }
}

/// The lines of the first `n` delays, given their texts.
pub open spec fn mz_lines(mz: Seq<String>, n: nat) -> Seq<char>
    decreases n,
{
    if n == 0 {
        Seq::empty()
    } else {
        mz_lines(mz, (n - 1) as nat) + entry_line('P', n, mz[n - 1]@)
    }
}

/// The lines of the first `n` priorities.
pub open spec fn mpr_lines(mpr: Seq<i32>, n: nat) -> Seq<char>
    decreases n,
{
    if n == 0 {
        Seq::empty()
    } else {
        mpr_lines(mpr, (n - 1) as nat) + entry_line('T', n, signed_decimal(mpr[n - 1] as int))
    }
}

/// The ATF text of a net, with `mz_texts` the printed delays.
pub open spec fn atf_text(net: PetriNetModel, selected_place: nat, mz_texts: Seq<String>) -> Seq<char> {
    "ATF v1\n"@ + "selected_place=P"@ + decimal(selected_place + 1) + "\n"@ + "places="@ + decimal(
        net.places@.len(),
    ) + " transitions="@ + decimal(net.transitions@.len()) + "\n"@ + "[M0]\n"@ + m0_lines(
        net.tables.m0@,
        net.tables.m0@.len(),
    ) + "[Mo]\n"@ + mo_lines(net.tables.mo@, net.tables.mo@.len()) + "[Mz]\n"@ + mz_lines(
        mz_texts,
        mz_texts.len(),
    ) + "[Mpr]\n"@ + mpr_lines(net.tables.mpr@, net.tables.mpr@.len())
}

fn push_entry_start(out: &mut String, prefix: char, n: u64)
    ensures
        final(out)@ == old(out)@ + seq![prefix] + decimal(n as nat) + seq!['='],
{
    crate::text::push_char(out, prefix);
    push_decimal(out, n);
    crate::text::push_char(out, '=');
}

/// Writes the ATF text of a net; `mz_texts` holds the delays as printed
/// (one per entry of `Mz`).
pub fn generate_atf(net: &PetriNetModel, selected_place: usize, mz_texts: &Vec<String>) -> (out: String)
    requires
        selected_place < usize::MAX,
        mz_texts@.len() == net.tables.mz@.len(),
    ensures
        out@ == atf_text(*net, selected_place as nat, mz_texts@),
{
    proof {
        reveal_strlit("\n");
    }
    let mut out = String::new();
    push_str(&mut out, "ATF v1\n");
    push_str(&mut out, "selected_place=P");
    push_decimal(&mut out, selected_place as u64 + 1);
    push_str(&mut out, "\n");
    push_str(&mut out, "places=");
    push_decimal(&mut out, net.places.len() as u64);
    push_str(&mut out, " transitions=");
    push_decimal(&mut out, net.transitions.len() as u64);
    push_str(&mut out, "\n");
    push_str(&mut out, "[M0]\n");
    let ghost head = out@;
    let mut i: usize = 0;
    while i < net.tables.m0.len()
        invariant
            i <= net.tables.m0@.len(),
            out@ == head + m0_lines(net.tables.m0@, i as nat),
        decreases net.tables.m0@.len() - i,
    {
        push_entry_start(&mut out, 'P', i as u64 + 1);
        push_decimal(&mut out, net.tables.m0[i] as u64);
        push_str(&mut out, "\n");
        proof {
            reveal_strlit("\n");
            assert(out@ =~= head + m0_lines(net.tables.m0@, (i + 1) as nat));
        }
        i = i + 1;
    }
    push_str(&mut out, "[Mo]\n");
    let ghost head = out@;
    let mut i: usize = 0;
    while i < net.tables.mo.len()
        invariant
            i <= net.tables.mo@.len(),
            out@ == head + mo_lines(net.tables.mo@, i as nat),
        decreases net.tables.mo@.len() - i,
    {
        let ghost before = out@;
        push_entry_start(&mut out, 'P', i as u64 + 1);
        let ghost mid = out@;
        match net.tables.mo[i] {
            Some(cap) => {
                push_decimal(&mut out, cap as u64);
            },
            None => {
                push_str(&mut out, "inf");
                proof {
                    reveal_strlit("inf");
                    assert(out@ =~= mid + seq!['i', 'n', 'f']);
                }
            },
        }
        push_str(&mut out, "\n");
        proof {
            reveal_strlit("\n");
            assert(out@ =~= head + mo_lines(net.tables.mo@, (i + 1) as nat));
        }
        i = i + 1;
    }
    push_str(&mut out, "[Mz]\n");
    let ghost head = out@;
    let mut i: usize = 0;
    while i < mz_texts.len()
        invariant
            i <= mz_texts@.len(),
            out@ == head + mz_lines(mz_texts@, i as nat),
        decreases mz_texts@.len() - i,
    {
        push_entry_start(&mut out, 'P', i as u64 + 1);
        push_str(&mut out, mz_texts[i].as_str());
        push_str(&mut out, "\n");
        proof {
            reveal_strlit("\n");
            assert(out@ =~= head + mz_lines(mz_texts@, (i + 1) as nat));
        }
        i = i + 1;
    }
    push_str(&mut out, "[Mpr]\n");
    let ghost head = out@;
    let mut i: usize = 0;
    while i < net.tables.mpr.len()
        invariant
            i <= net.tables.mpr@.len(),
            out@ == head + mpr_lines(net.tables.mpr@, i as nat),
        decreases net.tables.mpr@.len() - i,
    {
        push_entry_start(&mut out, 'T', i as u64 + 1);
        push_signed_decimal(&mut out, net.tables.mpr[i] as i64);
        push_str(&mut out, "\n");
        proof {
            reveal_strlit("\n");
            assert(out@ =~= head + mpr_lines(net.tables.mpr@, (i + 1) as nat));
        }
        i = i + 1;
    }
    proof {
        assert(out@ =~= atf_text(*net, selected_place as nat, mz_texts@));
    }
    out
}


/// How a capacity is printed: its decimal digits, `inf` for none.
pub open spec fn capacity_text(c: Option<u32>) -> Seq<char> {
    match c {
        Some(v) => decimal(v as nat),
        None => seq!['i', 'n', 'f'],
    }
}

/// The line of place `n` (1-based) with the printed value `v`: `P<n>=<v>`.
pub open spec fn place_line(n: nat, v: Seq<char>) -> Seq<char> {
    seq!['P'] + decimal(n) + seq!['='] + v + seq!['\n']
}

/// The capacity lines grow line by line: the first `i` lines stay a prefix.
proof fn lemma_mo_lines_prefix(mo: Seq<Option<u32>>, i: nat, n: nat)
    requires
        i <= n <= mo.len(),
    ensures
        mo_lines(mo, i).len() <= mo_lines(mo, n).len(),
        mo_lines(mo, n).subrange(0, mo_lines(mo, i).len() as int) == mo_lines(mo, i),
    decreases n - i,
{
    if i < n {
        lemma_mo_lines_prefix(mo, i, (n - 1) as nat);
        let a = mo_lines(mo, (n - 1) as nat);
        let b = mo_lines(mo, n);
        assert(b.subrange(0, a.len() as int) == a);
        assert(b.subrange(0, mo_lines(mo, i).len() as int) == a.subrange(0, mo_lines(mo, i).len() as int));
    }
}

/// In the capacity lines of the first `n` places, the line of place `i + 1`
/// follows those of the places before it and reads `P<i+1>=` and the
/// capacity's decimal digits, or `inf` exactly when the place has none.
pub proof fn lemma_capacity_line(mo: Seq<Option<u32>>, n: nat, i: nat)
    requires
        i < n <= mo.len(),
    ensures
        mo_lines(mo, n).subrange(
            mo_lines(mo, i).len() as int,
            (mo_lines(mo, i).len() + place_line((i + 1) as nat, capacity_text(mo[i as int])).len()) as int,
        ) == place_line((i + 1) as nat, capacity_text(mo[i as int])),
{
    let line = place_line((i + 1) as nat, capacity_text(mo[i as int]));
    let a = mo_lines(mo, i);
    let b = mo_lines(mo, (i + 1) as nat);
    assert(b == a + line);
    lemma_mo_lines_prefix(mo, (i + 1) as nat, n);
    let c = mo_lines(mo, n);
    assert(c.subrange(0, b.len() as int) == b);
    assert(c.subrange(a.len() as int, (a.len() + line.len()) as int) =~= b.subrange(a.len() as int, b.len() as int));
    assert(b.subrange(a.len() as int, b.len() as int) =~= line);
}

/// Where the `[Mo]` section's lines begin in the ATF text.
pub open spec fn mo_section_start(net: PetriNetModel, selected_place: nat) -> int {
    ("ATF v1\n"@ + "selected_place=P"@ + decimal(selected_place + 1) + "\n"@ + "places="@ + decimal(
        net.places@.len(),
    ) + " transitions="@ + decimal(net.transitions@.len()) + "\n"@ + "[M0]\n"@ + m0_lines(
        net.tables.m0@,
        net.tables.m0@.len(),
    ) + "[Mo]\n"@).len() as int
}

/// The ATF text has the `[Mo]` header, then one line per place in order:
/// the line of place `i + 1` reads `P<i+1>=` and its capacity's decimal
/// digits, or `inf` exactly when the place has none.
pub proof fn lemma_atf_capacity_line(net: PetriNetModel, selected_place: nat, mz_texts: Seq<String>, i: nat)
    requires
        i < net.tables.mo@.len(),
    ensures
        atf_text(net, selected_place, mz_texts).subrange(
            mo_section_start(net, selected_place) - 5,
            mo_section_start(net, selected_place),
        ) == "[Mo]\n"@,
        atf_text(net, selected_place, mz_texts).subrange(
            mo_section_start(net, selected_place) + mo_lines(net.tables.mo@, i).len(),
            mo_section_start(net, selected_place) + mo_lines(net.tables.mo@, i).len() + place_line(
                (i + 1) as nat,
                capacity_text(net.tables.mo@[i as int]),
            ).len(),
        ) == place_line((i + 1) as nat, capacity_text(net.tables.mo@[i as int])),
{
    reveal_strlit("[Mo]\n");
    let mo = net.tables.mo@;
    let n = mo.len();
    let pre = "ATF v1\n"@ + "selected_place=P"@ + decimal(selected_place + 1) + "\n"@ + "places="@ + decimal(
        net.places@.len(),
    ) + " transitions="@ + decimal(net.transitions@.len()) + "\n"@ + "[M0]\n"@ + m0_lines(
        net.tables.m0@,
        net.tables.m0@.len(),
    );
    let head = pre + "[Mo]\n"@;
    let lines = mo_lines(mo, n);
    let rest = "[Mz]\n"@ + mz_lines(mz_texts, mz_texts.len()) + "[Mpr]\n"@ + mpr_lines(net.tables.mpr@, net.tables.mpr@.len());
    let t = atf_text(net, selected_place, mz_texts);
    assert(t == head + lines + "[Mz]\n"@ + mz_lines(mz_texts, mz_texts.len()) + "[Mpr]\n"@ + mpr_lines(
        net.tables.mpr@,
        net.tables.mpr@.len(),
    ));
    assert(t =~= head + lines + rest);
    let s = mo_section_start(net, selected_place);
    assert(s == head.len());
    assert(t.subrange(s - 5, s) =~= "[Mo]\n"@);
    lemma_capacity_line(mo, n, i);
    let line = place_line((i + 1) as nat, capacity_text(mo[i as int]));
    let a = mo_lines(mo, i);
    lemma_mo_lines_prefix(mo, (i + 1) as nat, n);
    assert(mo_lines(mo, (i + 1) as nat) == a + line);
    assert(a.len() + line.len() <= lines.len());
    assert(t.subrange(s + a.len(), s + a.len() + line.len()) =~= lines.subrange(a.len() as int, (a.len() + line.len()) as int));
}
} // verus!
