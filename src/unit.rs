//! One analysed unit: the function summaries, the type profiles built from
//! them, and the ranks over both.
use vstd::prelude::*;
use crate::info_adt::{adt_info, callers_spec, ccm_view, collect, fam_view, finalize, fn_adt_spec, infos_view, AdtFnCollector, AdtInfo};
use crate::info_fn::{summarises, Body, FnInfo};
use crate::ty::Adt;

verus! {

/// The results of analysing one unit.
pub struct UnitAnalysis {
    /// Per function with a body, its summary, in the order given.
    pub map_fn: Vec<(u64, FnInfo)>,
    /// Per type, its access profile.
    pub map_adt: Vec<(Adt, AdtInfo)>,
    /// The rank maps.
    pub collector: AdtFnCollector,
}

/// Summarises every function body, merges the summaries into per-type
/// profiles, and ranks every function's relationship to each type.
pub fn analyze(bodies: &Vec<(u64, Body)>) -> (r: UnitAnalysis)
    ensures
        r.map_fn@.len() == bodies@.len(),
        forall|i: int| 0 <= i < bodies@.len() ==> #[trigger] r.map_fn@[i].0 == bodies@[i].0 && summarises(r.map_fn@[i].1, bodies@[i].1),
        infos_view(r.map_adt@) == finalize(collect(r.map_fn@)),
        fam_view(r.collector.fn_adt_map@) == fn_adt_spec(infos_view(r.map_adt@)),
        ccm_view(r.collector.caller_callee_map@) == callers_spec(fn_adt_spec(infos_view(r.map_adt@)), r.map_fn@),
{
    let mut map_fn: Vec<(u64, FnInfo)> = Vec::new();
    let mut i: usize = 0;
    while i < bodies.len()
        invariant
            i <= bodies.len(),
            map_fn@.len() == i,
            forall|j: int| 0 <= j < i ==> #[trigger] map_fn@[j].0 == bodies@[j].0 && summarises(map_fn@[j].1, bodies@[j].1),
        decreases bodies.len() - i,
    {
        let info = FnInfo::new(&bodies[i].1);
        map_fn.push((bodies[i].0, info));
        i += 1;
    }
    let map_adt = adt_info(&map_fn);
    let collector = AdtFnCollector::new(&map_adt, &map_fn);
    UnitAnalysis { map_fn, map_adt, collector }
}

} // verus!
