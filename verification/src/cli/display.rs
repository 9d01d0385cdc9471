//! Display layout subcommands, and what their listings print.
use vstd::prelude::*;

use crate::compositor::{monitors_view, Monitor, MonitorView};
use crate::layout::{Direction, Side};
use crate::resolution::{resolution_text, rounded_text};
use crate::sort::{dedup_sorted, sort_strings, sorted_set, strings_view};
use crate::text::{push_char, push_str, push_string};

verus! {

pub enum Command {
    List,
    ListModes { name: String },
    Extend { direction: Direction },
    Place { name: String, side: Side, reference: String },
    Mirror,
    Only { name: String },
    Enable { name: String },
    Disable { name: String },
    Toggle { name: String },
    SetMode { name: String, mode: String },
    SetScale { name: String, scale: String },
    Primary { name: String },
    Anchor,
    Save,
    Apply,
    Auto,
    Reset,
}

pub open spec fn state_word(m: MonitorView) -> Seq<char> {
    if m.disabled {
        "disabled"@
    } else if m.mirror_of is Some {
        "mirroring"@
    } else {
        "enabled"@
    }
}

/// A line of the monitor listing: connector, description, mode with whole-hertz refresh, state,
/// separated by tabs.
pub open spec fn row_text(m: MonitorView) -> Seq<char> {
    m.name + seq!['\t'] + m.description + seq!['\t'] + rounded_text(m.resolution) + seq!['\t']
        + state_word(m)
}

pub fn row(monitor: &Monitor) -> (s: String)
    ensures
        s@ == row_text(monitor@),
{
    let mut s = String::new();
    push_string(&mut s, &monitor.name);
    push_char(&mut s, '\t');
    push_string(&mut s, &monitor.description);
    push_char(&mut s, '\t');
    let r = monitor.resolution.rounded();
    push_string(&mut s, &r);
    push_char(&mut s, '\t');
    if monitor.disabled {
        push_str(&mut s, "disabled");
    } else if monitor.mirror_of.is_some() {
        push_str(&mut s, "mirroring");
    } else {
        push_str(&mut s, "enabled");
    }
    assert(s@ =~= row_text(monitor@));
    s
}

/// Every mode of every monitor, as written.
pub open spec fn all_modes(ms: Seq<MonitorView>) -> Seq<Seq<char>>
    decreases ms.len(),
{
    if ms.len() == 0 {
        Seq::empty()
    } else {
        all_modes(ms.drop_last()) + Seq::new(
            ms.last().resolutions.len(),
            |i: int| resolution_text(ms.last().resolutions[i]),
        )
    }
}

/// The modes the monitors offer, sorted, each once: what a mode can be completed to.
pub fn mode_names(monitors: &[Monitor]) -> (r: Vec<String>)
    ensures
        strings_view(r@) == sorted_set(all_modes(monitors_view(monitors@))),
{
    let ghost ms = monitors_view(monitors@);
    let mut names: Vec<String> = Vec::new();
    let mut i: usize = 0;
    while i < monitors.len()
        invariant
            i <= monitors.len(),
            ms == monitors_view(monitors@),
            strings_view(names@) == all_modes(ms.take(i as int)),
        decreases monitors.len() - i,
    {
        let m = &monitors[i];
        assert(ms[i as int] == m@);
        let ghost before = strings_view(names@);
        let mut k: usize = 0;
        while k < m.resolutions.len()
            invariant
                k <= m.resolutions.len(),
                strings_view(names@) == before + Seq::new(
                    k as nat,
                    |j: int| resolution_text(m.resolutions@[j]),
                ),
            decreases m.resolutions.len() - k,
        {
            let text = m.resolutions[k].to_string();
            let ghost prev = strings_view(names@);
            names.push(text);
            assert(strings_view(names@) =~= prev.push(resolution_text(m.resolutions@[k as int])));
            k = k + 1;
            assert(strings_view(names@) =~= before + Seq::new(
                k as nat,
                |j: int| resolution_text(m.resolutions@[j]),
            ));
        }
        proof {
            let t = ms.take(i + 1);
            assert(t.drop_last() =~= ms.take(i as int));
            assert(t.last() == m@);
            assert(strings_view(names@) =~= all_modes(t));
        }
        i = i + 1;
    }
    assert(ms.take(monitors.len() as int) =~= ms);
    let sorted = sort_strings(names);
    let r = dedup_sorted(sorted);
    proof {
        let a = strings_view(r@);
        let n = all_modes(ms);
        let s = strings_view(sorted@);
        broadcast use vstd::seq_lib::group_to_multiset_ensures;
        assert forall|x: Seq<char>| a.contains(x) <==> n.contains(x) by {
            assert(s.contains(x) <==> s.to_multiset().count(x) > 0);
            assert(n.contains(x) <==> n.to_multiset().count(x) > 0);
        }
        crate::sort::lemma_sorted_set_is(a, n);
    }
    r
}

} // verus!
