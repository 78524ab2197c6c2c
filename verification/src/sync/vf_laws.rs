//! When the driver's word about virtual functions is doubted, and what cannot be
//! known at all.

use vstd::prelude::*;

use crate::mac::Mac;
use crate::sync::decide::live_functions;
use crate::sync::pass_laws::lemma_live_functions;
use crate::sync::syncer::{
    has_unknowable_vf, is_first, may_change_vf, named_vfs, unknown_lines, unknown_marks,
    SyncerModel,
};
use crate::topology::{carrier, functions_of, TopologyModel};

verus! {

/// Whether a picture shows an interface that hands out virtual functions, or is
/// one.
pub open spec fn shows_virtual(t: Option<TopologyModel>, x: u32) -> bool {
    t matches Some(p) && p.links.contains_key(x) && (p.links[x].numvfs > 0
        || p.links[x].physfn is Some)
}

/// Whether a picture shows an interface at all.
pub open spec fn shows(t: Option<TopologyModel>, x: u32) -> bool {
    t matches Some(p) && p.links.contains_key(x)
}

/// A message about an interface is a reason to ask the driver again where the
/// picture before it or the one after it shows a card with virtual functions, or
/// one of these, and where neither shows the interface; otherwise it is none.
pub proof fn the_driver_is_asked_where_a_function_may_have_changed(
    before: Option<TopologyModel>,
    after: Option<TopologyModel>,
    x: u32,
)
    ensures
        may_change_vf(before, after, x) <==> shows_virtual(before, x) || shows_virtual(after, x)
            || (!shows(before, x) && !shows(after, x)),
{
}

/// A carried answer is used only for the very functions that it was given for,
/// and only as long as nothing has cast doubt on it.
pub proof fn a_doubted_answer_is_not_used(s: SyncerModel, pfs: Seq<u32>)
    ensures
        s.vf_usable(pfs) <==> !s.vf_stale && (s.carried_vf matches Some((fs, _)) && fs == pfs),
{
}

/// When the driver was asked about an uplink in a batch, it was asked about every
/// physical function behind it.
pub proof fn asking_about_an_uplink_asks_about_its_functions(
    t: TopologyModel,
    devs: Seq<Seq<char>>,
    dev: Seq<char>,
    f: u32,
)
    requires
        devs.contains(dev),
        t.names.contains_key(dev),
        functions_of(t.links, carrier(t.links, t.names[dev])).contains(f),
    ensures
        live_functions(t, devs).contains(f),
{
    lemma_live_functions(t, devs, f);
    let i = choose|i: int| 0 <= i < devs.len() && devs[i] == dev;
    assert(t.names.contains_key(devs[i]));
}

/// An answer that gives an address for a function that is not asked for says
/// nothing here, and neither does one of all zeroes.
pub proof fn only_a_set_address_counts(functions: Set<u32>, vf: Seq<(u32, Mac)>)
    requires
        forall|i: int|
            0 <= i < vf.len() ==> !functions.contains((#[trigger] vf[i]).0) || (vf[i].1[0] == 0
                && vf[i].1[1] == 0 && vf[i].1[2] == 0 && vf[i].1[3] == 0 && vf[i].1[4] == 0
                && vf[i].1[5] == 0),
    ensures
        named_vfs(functions, vf) == 0,
    decreases vf.len(),
{
    if vf.len() > 0 {
        let front = vf.drop_last();
        let n = vf.len() - 1;
        assert forall|i: int| 0 <= i < front.len() implies !functions.contains(
            (#[trigger] front[i]).0,
        ) || (front[i].1[0] == 0 && front[i].1[1] == 0 && front[i].1[2] == 0 && front[i].1[3] == 0
            && front[i].1[4] == 0 && front[i].1[5] == 0) by {
            assert(front[i] == vf[i]);
        }
        only_a_set_address_counts(functions, front);
        assert(vf[n] == vf.last());
        if functions.contains(vf.last().0) {
            let m = vf.last().1;
            assert(crate::mac::all_zero(m)) by {
                assert forall|i: int| 0 <= i < 6 implies m[i] == 0 by {
                    assert(i == 0 || i == 1 || i == 2 || i == 3 || i == 4 || i == 5);
                }
            }
        }
    }
}

/// A virtual function's address cannot be known where the card hands out more of
/// them than the driver gives a set address for, and more than have an interface
/// here. The lowest-numbered physical function behind the uplink answers for the
/// card. That is marked while it lasts, and not any longer.
pub proof fn what_cannot_be_known_is_marked(
    marks: Set<Seq<char>>,
    t: TopologyModel,
    dev: Seq<char>,
    vf: Seq<(u32, Mac)>,
    f: u32,
)
    requires
        t.names.contains_key(dev),
        functions_of(t.links, carrier(t.links, t.names[dev])).contains(f),
        forall|g: u32| #[trigger]
            functions_of(t.links, carrier(t.links, t.names[dev])).contains(g) ==> f <= g,
        t.links.contains_key(f),
    ensures
        ({
            let named = named_vfs(functions_of(t.links, carrier(t.links, t.names[dev])), vf);
            let dark = t.links[f].numvfs > named && t.links[f].numvfs
                > t.links[f].vf_netdevs.len();
            &&& has_unknowable_vf(t, dev, vf) == Some(dark)
            &&& unknown_marks(marks, t, dev, vf).contains(dev) <==> dark
            &&& (unknown_lines(marks, t, dev, vf).len() > 0) == (dark && !marks.contains(dev))
        }),
        forall|other: Seq<char>|
            other != dev ==> (#[trigger] unknown_marks(marks, t, dev, vf).contains(other)
                <==> marks.contains(other)),
{
    let functions = functions_of(t.links, carrier(t.links, t.names[dev]));
    assert(is_first(functions, f));
    let g = choose|g: u32| #[trigger] is_first(functions, g) && t.links.contains_key(g);
    assert(g == f) by {
        assert(functions.contains(g) && functions.contains(f));
    }
}

} // verus!
