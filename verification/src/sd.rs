//! Scrape targets and the per-VM aggregator.
//!
//! [`aggregate`] folds one VM's tag list, in order, into targets-in-progress
//! and a set of global labels, then merges the global labels into every
//! target (job-scoped labels win) and defaults the address of targets that
//! never saw an address directive to the VM's bare base address. Its result
//! is the mapping [`crate::model::spec_aggregate`] describes.

use vstd::prelude::*;
use vstd::string::StringExecFns;

use crate::assoc::{
    assoc_map, assoc_wf, lemma_assoc_map_dom, lemma_assoc_map_index, lemma_assoc_map_push,
    lemma_assoc_map_remove, pair_views,
};
use crate::model::{
    global_map, job_labels_map, join_addr, lemma_absent_job, lemma_finalize, lemma_step_global,
    lemma_step_inert, lemma_step_job_address, lemma_step_job_label, probes_map, spec_aggregate,
    spec_probe_addr, ProbeView, TargetView,
};
use crate::tag::{parse, str_eq, TagDirective};
use crate::xo::Vm;

verus! {

/// One scrape target: the addresses Prometheus should scrape (always
/// exactly one here) and the labels attached to them.
#[derive(Debug, PartialEq, Eq)]
pub struct Target {
    pub targets: Vec<String>,
    pub labels: Vec<(String, String)>,
}

impl Target {
    /// The label entries carry pairwise distinct keys.
    pub open spec fn wf(&self) -> bool {
        assoc_wf(pair_views(self.labels@))
    }
}

impl View for Target {
    type V = TargetView;

    open spec fn view(&self) -> TargetView {
        TargetView {
            targets: self.targets.deep_view(),
            labels: assoc_map(pair_views(self.labels@)),
        }
    }
}

impl DeepView for Target {
    type V = TargetView;

    open spec fn deep_view(&self) -> TargetView {
        self.view()
    }
}

impl Clone for Target {
    fn clone(&self) -> (r: Self)
        ensures
            r.targets@ == self.targets@,
            r.labels@ == self.labels@,
            r@ == self@,
            r.wf() == self.wf(),
    {
        Target { targets: clone_string_vec(&self.targets), labels: clone_pair_vec(&self.labels) }
    }
}

/// A target while its VM's tags are still being folded.
struct Probe {
    addr: Option<String>,
    labels: Vec<(String, String)>,
}

impl View for Probe {
    type V = ProbeView;

    closed spec fn view(&self) -> ProbeView {
        ProbeView {
            addr: match self.addr {
                Some(a) => Some(a@),
                None => None,
            },
            labels: assoc_map(pair_views(self.labels@)),
        }
    }
}

impl DeepView for Probe {
    type V = ProbeView;

    closed spec fn deep_view(&self) -> ProbeView {
        self.view()
    }
}

pub(crate) fn clone_string_vec(v: &Vec<String>) -> (r: Vec<String>)
    ensures
        r@ == v@,
{
    let mut r: Vec<String> = Vec::new();
    let mut i: usize = 0;
    while i < v.len()
        invariant
            i <= v@.len(),
            r@ == v@.take(i as int),
        decreases v@.len() - i,
    {
        r.push(v[i].clone());
        proof {
            assert(v@.take(i + 1) =~= v@.take(i as int).push(v@[i as int]));
        }
        i += 1;
    }
    proof {
        assert(v@.take(v@.len() as int) =~= v@);
    }
    r
}

pub(crate) fn clone_pair_vec(v: &Vec<(String, String)>) -> (r: Vec<(String, String)>)
    ensures
        r@ == v@,
{
    let mut r: Vec<(String, String)> = Vec::new();
    let mut i: usize = 0;
    while i < v.len()
        invariant
            i <= v@.len(),
            r@ == v@.take(i as int),
        decreases v@.len() - i,
    {
        r.push((v[i].0.clone(), v[i].1.clone()));
        proof {
            assert(v@.take(i + 1) =~= v@.take(i as int).push(v@[i as int]));
        }
        i += 1;
    }
    proof {
        assert(v@.take(v@.len() as int) =~= v@);
    }
    r
}

/// Index of the entry carrying key `k`, if any.
pub(crate) fn assoc_find<T>(m: &Vec<(String, T)>, k: &str) -> (r: Option<usize>)
    ensures
        match r {
            Some(i) => i < m@.len() && m@[i as int].0@ == k@,
            None => forall|i: int| 0 <= i < m@.len() ==> m@[i].0@ != k@,
        },
{
    let mut i: usize = 0;
    while i < m.len()
        invariant
            i <= m@.len(),
            forall|j: int| 0 <= j < i ==> m@[j].0@ != k@,
        decreases m@.len() - i,
    {
        if str_eq(m[i].0.as_str(), k) {
            return Some(i);
        }
        i += 1;
    }
    None
}

/// Inserts or overwrites the entry for key `k`.
pub(crate) fn assoc_set(m: &mut Vec<(String, String)>, k: String, v: String)
    requires
        assoc_wf(pair_views(old(m)@)),
    ensures
        assoc_wf(pair_views(final(m)@)),
        assoc_map(pair_views(final(m)@)) == assoc_map(pair_views(old(m)@)).insert(k@, v@),
{
    let ghost kk = k@;
    let ghost vv = v@;
    let ghost before = pair_views(m@);
    let found = assoc_find(m, k.as_str());
    match found {
        Some(i) => {
            proof {
                lemma_assoc_map_remove(before, i as int);
            }
            m.remove(i);
            proof {
                assert(pair_views(m@) =~= before.remove(i as int));
            }
            m.push((k, v));
            proof {
                assert(pair_views(m@) =~= before.remove(i as int).push((kk, vv)));
                lemma_assoc_map_push(before.remove(i as int), kk, vv);
                assert(assoc_map(before).remove(kk).insert(kk, vv) =~= assoc_map(before).insert(
                    kk,
                    vv,
                ));
                assert forall|a: int, b: int|
                    0 <= a < b < pair_views(m@).len() implies pair_views(m@)[a].0
                    != pair_views(m@)[b].0 by {
                    if b == pair_views(m@).len() - 1 {
                        let a0 = if a < i { a } else { a + 1 };
                        assert(before.remove(i as int)[a] == before[a0]);
                        assert(before[i as int].0 == kk);
                    }
                }
            }
        },
        None => {
            m.push((k, v));
            proof {
                assert(pair_views(m@) =~= before.push((kk, vv)));
                lemma_assoc_map_push(before, kk, vv);
            }
        },
    }
}

/// Builds one scrape address: the base address, `:`, and the port or
/// address suffix the directive supplied.
fn join_address(base: &String, port: &str) -> (r: String)
    ensures
        r@ == join_addr(base@, port@),
{
    let mut r = base.clone();
    r.append(":");
    r.append(port);
    proof {
        reveal_strlit(":");
        assert(":"@ =~= seq![':']);
        assert(r@ =~= join_addr(base@, port@));
    }
    r
}

/// The union of global and job-scoped labels; on a shared key the
/// job-scoped value stays.
fn merge_labels(globals: &Vec<(String, String)>, job_labels: &Vec<(String, String)>) -> (r: Vec<
    (String, String),
>)
    requires
        assoc_wf(pair_views(globals@)),
        assoc_wf(pair_views(job_labels@)),
    ensures
        assoc_wf(pair_views(r@)),
        assoc_map(pair_views(r@)) == assoc_map(pair_views(globals@)).union_prefer_right(
            assoc_map(pair_views(job_labels@)),
        ),
{
    let mut r = clone_pair_vec(job_labels);
    let ghost jl = assoc_map(pair_views(job_labels@));
    let ghost gv = pair_views(globals@);
    proof {
        assert(gv.take(0) =~= Seq::<(Seq<char>, Seq<char>)>::empty());
        assert(assoc_map(gv.take(0)).union_prefer_right(jl) =~= jl);
    }
    let mut i: usize = 0;
    while i < globals.len()
        invariant
            i <= globals@.len(),
            gv == pair_views(globals@),
            jl == assoc_map(pair_views(job_labels@)),
            assoc_wf(gv),
            assoc_wf(pair_views(r@)),
            assoc_map(pair_views(r@)) == assoc_map(gv.take(i as int)).union_prefer_right(jl),
        decreases globals@.len() - i,
    {
        let ghost gpre = gv.take(i as int);
        let ghost kk = gv[i as int].0;
        let ghost vvv = gv[i as int].1;
        proof {
            assert(gv.take(i + 1) =~= gpre.push((kk, vvv)));
            lemma_assoc_map_push(gpre, kk, vvv);
        }
        let found = assoc_find(&r, globals[i].0.as_str());
        match found {
            None => {
                let ghost rv = pair_views(r@);
                proof {
                    lemma_assoc_map_dom(rv, kk);
                    lemma_assoc_map_dom(pair_views(job_labels@), kk);
                }
                r.push((globals[i].0.clone(), globals[i].1.clone()));
                proof {
                    assert(pair_views(r@) =~= rv.push((kk, vvv)));
                    lemma_assoc_map_push(rv, kk, vvv);
                    assert(!jl.contains_key(kk));
                    assert(assoc_map(gpre.push((kk, vvv))).union_prefer_right(jl)
                        =~= assoc_map(rv).insert(kk, vvv));
                }
            },
            Some(f) => {
                proof {
                    let rv = pair_views(r@);
                    assert(rv[f as int].0 == kk);
                    lemma_assoc_map_dom(rv, kk);
                    assert(assoc_map(rv).contains_key(kk));
                    lemma_assoc_map_dom(gpre, kk);
                    if assoc_map(gpre).contains_key(kk) {
                        let w = choose|w: int| 0 <= w < gpre.len() && gpre[w].0 == kk;
                        assert(gv[w].0 == gv[i as int].0);
                        assert(false);
                    }
                    assert(jl.contains_key(kk));
                    assert(assoc_map(gpre.push((kk, vvv))).union_prefer_right(jl)
                        =~= assoc_map(gpre).union_prefer_right(jl));
                }
            },
        }
        i += 1;
    }
    proof {
        assert(gv.take(gv.len() as int) =~= gv);
    }
    r
}

/// All targets one VM contributes, as a job-keyed association list.
///
/// A VM without an address contributes nothing. Malformed tags and tags
/// without the directive prefix are skipped; the remaining directives are
/// folded in tag order, later directives overriding earlier ones, and the
/// global labels are merged into every target at the end, job-scoped labels
/// taking precedence.
pub fn aggregate(vm: &Vm) -> (r: Vec<(String, Target)>)
    ensures
        assoc_wf(pair_views(r@)),
        assoc_map(pair_views(r@)) == spec_aggregate(vm@),
        forall|i: int| 0 <= i < r@.len() ==> (#[trigger] r@[i]).1.wf(),
{
    let base: &String = match &vm.main_ip_address {
        None => {
            let r: Vec<(String, Target)> = Vec::new();
            proof {
                assert(pair_views(r@) =~= Seq::<(Seq<char>, TargetView)>::empty());
                assert(assoc_map(pair_views(r@)) =~= spec_aggregate(vm@));
            }
            return r;
        },
        Some(b) => b,
    };
    let ghost tagviews = vm.tags.deep_view();
    let mut globals: Vec<(String, String)> = Vec::new();
    let mut probes: Vec<(String, Probe)> = Vec::new();
    proof {
        assert(tagviews.take(0) =~= Seq::<Seq<char>>::empty());
        assert(pair_views(globals@) =~= Seq::<(Seq<char>, Seq<char>)>::empty());
        assert(pair_views(probes@) =~= Seq::<(Seq<char>, ProbeView)>::empty());
        assert(assoc_map(pair_views(globals@)) =~= global_map(tagviews.take(0)));
        assert(assoc_map(pair_views(probes@)) =~= probes_map(tagviews.take(0), base@));
    }
    let mut idx: usize = 0;
    while idx < vm.tags.len()
        invariant
            idx <= vm.tags@.len(),
            tagviews == vm.tags.deep_view(),
            vm@.main_ip_address == Some(base@),
            assoc_wf(pair_views(globals@)),
            assoc_map(pair_views(globals@)) == global_map(tagviews.take(idx as int)),
            assoc_wf(pair_views(probes@)),
            assoc_map(pair_views(probes@)) == probes_map(tagviews.take(idx as int), base@),
            forall|i: int|
                0 <= i < probes@.len() ==> assoc_wf(pair_views((#[trigger] probes@[i]).1.labels@)),
        decreases vm.tags@.len() - idx,
    {
        let ghost prefix = tagviews.take(idx as int);
        let tag: &String = &vm.tags[idx];
        let ghost t = tag@;
        proof {
            assert(tagviews[idx as int] == t);
            assert(tagviews.take(idx + 1) =~= prefix.push(t));
        }
        match parse(tag.as_str()) {
            Ok(Some(TagDirective::GlobalLabel { key, value })) => {
                proof {
                    lemma_step_global(prefix, t, base@, key@, value@);
                }
                assoc_set(&mut globals, key, value);
            },
            Ok(Some(TagDirective::JobLabel { job, key, value })) => {
                let ghost jv = job@;
                let ghost kv = key@;
                let ghost vv = value@;
                let ghost pbefore = pair_views(probes@);
                proof {
                    lemma_step_job_label(prefix, t, base@, jv, kv, vv);
                }
                let found = assoc_find(&probes, job.as_str());
                let mut pair: (String, Probe) = match found {
                    Some(i) => {
                        proof {
                            lemma_assoc_map_index(pbefore, i as int);
                            lemma_assoc_map_remove(pbefore, i as int);
                        }
                        let p = probes.remove(i);
                        proof {
                            assert(pair_views(probes@) =~= pbefore.remove(i as int));
                            assert(p.1.deep_view() == probes_map(prefix, base@)[jv]);
                        }
                        p
                    },
                    None => {
                        proof {
                            lemma_assoc_map_dom(pbefore, jv);
                            assert(!probes_map(prefix, base@).contains_key(jv));
                            lemma_absent_job(prefix, jv);
                            assert(job_labels_map(prefix, jv) =~= Map::<Seq<char>, Seq<char>>::empty());
                        }
                        (job, Probe { addr: None, labels: Vec::new() })
                    },
                };
                proof {
                    assert(pair.0@ == jv);
                    assert(pair.1@.addr == spec_probe_addr(prefix, base@, jv));
                    assert(pair.1@.labels =~= job_labels_map(prefix, jv));
                }
                assoc_set(&mut pair.1.labels, key, value);
                let ghost premove = pair_views(probes@);
                let ghost newpv = pair.1.deep_view();
                probes.push(pair);
                proof {
                    assert(pair_views(probes@) =~= premove.push((jv, newpv)));
                    lemma_assoc_map_push(premove, jv, newpv);
                    assert(newpv =~= (ProbeView {
                        addr: spec_probe_addr(prefix, base@, jv),
                        labels: job_labels_map(prefix, jv).insert(kv, vv),
                    }));
                    assert(assoc_map(pair_views(probes@)) =~= probes_map(prefix.push(t), base@));
                    assert forall|a: int, b: int|
                        0 <= a < b < pair_views(probes@).len() implies pair_views(probes@)[a].0
                        != pair_views(probes@)[b].0 by {
                        if b == pair_views(probes@).len() - 1 {
                            assert(premove[a].0 != jv) by {
                                match found {
                                    Some(i) => {
                                        let a0 = if a < i as int { a } else { a + 1 };
                                        assert(premove[a] == pbefore[a0]);
                                        assert(pbefore[i as int].0 == jv);
                                    },
                                    None => {
                                        assert(premove[a].0 != jv);
                                    },
                                }
                            }
                        }
                    }
                }
            },
            Ok(Some(TagDirective::JobAddress { job, value })) => {
                let ghost jv = job@;
                let ghost vv = value@;
                let ghost pbefore = pair_views(probes@);
                proof {
                    lemma_step_job_address(prefix, t, base@, jv, vv);
                }
                let found = assoc_find(&probes, job.as_str());
                let mut pair: (String, Probe) = match found {
                    Some(i) => {
                        proof {
                            lemma_assoc_map_index(pbefore, i as int);
                            lemma_assoc_map_remove(pbefore, i as int);
                        }
                        let p = probes.remove(i);
                        proof {
                            assert(pair_views(probes@) =~= pbefore.remove(i as int));
                            assert(p.1.deep_view() == probes_map(prefix, base@)[jv]);
                        }
                        p
                    },
                    None => {
                        proof {
                            lemma_assoc_map_dom(pbefore, jv);
                            assert(!probes_map(prefix, base@).contains_key(jv));
                            lemma_absent_job(prefix, jv);
                            assert(job_labels_map(prefix, jv) =~= Map::<Seq<char>, Seq<char>>::empty());
                        }
                        (job, Probe { addr: None, labels: Vec::new() })
                    },
                };
                proof {
                    assert(pair.0@ == jv);
                    assert(pair.1@.labels =~= job_labels_map(prefix, jv));
                }
                pair.1.addr = Some(join_address(base, value.as_str()));
                let ghost premove = pair_views(probes@);
                let ghost newpv = pair.1.deep_view();
                probes.push(pair);
                proof {
                    assert(pair_views(probes@) =~= premove.push((jv, newpv)));
                    lemma_assoc_map_push(premove, jv, newpv);
                    assert(newpv =~= (ProbeView {
                        addr: Some(join_addr(base@, vv)),
                        labels: job_labels_map(prefix, jv),
                    }));
                    assert(assoc_map(pair_views(probes@)) =~= probes_map(prefix.push(t), base@));
                    assert forall|a: int, b: int|
                        0 <= a < b < pair_views(probes@).len() implies pair_views(probes@)[a].0
                        != pair_views(probes@)[b].0 by {
                        if b == pair_views(probes@).len() - 1 {
                            assert(premove[a].0 != jv) by {
                                match found {
                                    Some(i) => {
                                        let a0 = if a < i as int { a } else { a + 1 };
                                        assert(premove[a] == pbefore[a0]);
                                        assert(pbefore[i as int].0 == jv);
                                    },
                                    None => {
                                        assert(premove[a].0 != jv);
                                    },
                                }
                            }
                        }
                    }
                }
            },
            Ok(None) => {
                proof {
                    lemma_step_inert(prefix, t, base@);
                }
            },
            Err(_) => {
                proof {
                    lemma_step_inert(prefix, t, base@);
                }
            },
        }
        idx += 1;
    }
    proof {
        assert(tagviews.take(vm.tags@.len() as int) =~= tagviews);
    }
    let mut out: Vec<(String, Target)> = Vec::new();
    let mut k: usize = 0;
    while k < probes.len()
        invariant
            k <= probes@.len(),
            tagviews == vm.tags.deep_view(),
            vm@.main_ip_address == Some(base@),
            assoc_wf(pair_views(globals@)),
            assoc_map(pair_views(globals@)) == global_map(tagviews),
            assoc_wf(pair_views(probes@)),
            assoc_map(pair_views(probes@)) == probes_map(tagviews, base@),
            forall|i: int|
                0 <= i < probes@.len() ==> assoc_wf(pair_views((#[trigger] probes@[i]).1.labels@)),
            out@.len() == k,
            forall|i: int| 0 <= i < k ==> (#[trigger] out@[i]).0@ == probes@[i].0@,
            forall|i: int| 0 <= i < k ==> (#[trigger] out@[i]).1.wf(),
            forall|i: int|
                0 <= i < k ==> (#[trigger] out@[i]).1@ == spec_aggregate(vm@)[probes@[i].0@],
        decreases probes@.len() - k,
    {
        let jobname: String = probes[k].0.clone();
        let mut targets: Vec<String> = Vec::new();
        match &probes[k].1.addr {
            Some(a) => targets.push(a.clone()),
            None => targets.push(base.clone()),
        }
        let labels = merge_labels(&globals, &probes[k].1.labels);
        let tgt = Target { targets, labels };
        proof {
            lemma_assoc_map_index(pair_views(probes@), k as int);
            assert(probes_map(tagviews, base@).contains_key(jobname@));
            lemma_finalize(tagviews, base@, jobname@);
            assert(tgt@.targets =~= spec_aggregate(vm@)[jobname@].targets);
            assert(tgt@ =~= spec_aggregate(vm@)[jobname@]);
        }
        out.push((jobname, tgt));
        k += 1;
    }
    proof {
        let outv = pair_views(out@);
        let pv = pair_views(probes@);
        let aggm = spec_aggregate(vm@);
        assert forall|a: int, b: int| 0 <= a < b < outv.len() implies outv[a].0 != outv[b].0 by {
            assert(pv[a].0 == outv[a].0);
            assert(pv[b].0 == outv[b].0);
        }
        assert forall|key: Seq<char>| #[trigger]
            assoc_map(outv).contains_key(key) == aggm.contains_key(key) by {
            lemma_assoc_map_dom(outv, key);
            lemma_assoc_map_dom(pv, key);
            if exists|i: int| 0 <= i < outv.len() && outv[i].0 == key {
                let i = choose|i: int| 0 <= i < outv.len() && outv[i].0 == key;
                assert(pv[i].0 == key);
            } else if exists|i: int| 0 <= i < pv.len() && pv[i].0 == key {
                let i = choose|i: int| 0 <= i < pv.len() && pv[i].0 == key;
                assert(outv[i].0 == key);
            }
        }
        assert forall|key: Seq<char>| #[trigger] aggm.contains_key(key) implies assoc_map(outv)[key]
            == aggm[key] by {
            lemma_assoc_map_dom(outv, key);
            let i = choose|i: int| 0 <= i < outv.len() && outv[i].0 == key;
            lemma_assoc_map_index(outv, i);
        }
        assert(assoc_map(outv) =~= aggm);
    }
    out
}

} // verus!
