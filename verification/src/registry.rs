//! The job-indexed target registry and the queries served from it.
//!
//! [`EndpointRegistry::build`] folds every VM's aggregated targets, in VM
//! list order, into a registry mapping each job name to the ordered list of
//! targets contributed for it; a job shared by several VMs keeps one entry
//! per VM, never merged. The registry lives for one request only: it is
//! built fresh from the VM list each time.

use vstd::prelude::*;

use crate::assoc::{
    assoc_map, assoc_wf, lemma_assoc_map_dom, lemma_assoc_map_index, lemma_assoc_map_push,
    lemma_assoc_map_remove, pair_views,
};
use crate::model::{registry_add, spec_aggregate, spec_build, TargetView};
use crate::sd::{aggregate, assoc_find, Target};
use crate::xo::Vm;

verus! {

/// The set of keys among the first `n` entries of an association list.
spec fn keys_upto<V>(s: Seq<(Seq<char>, V)>, n: int) -> Set<Seq<char>> {
    Set::new(|k: Seq<char>| exists|i: int| 0 <= i < n && i < s.len() && s[i].0 == k)
}

fn clone_target_vec(v: &Vec<Target>) -> (r: Vec<Target>)
    ensures
        r.deep_view() == v.deep_view(),
{
    let mut r: Vec<Target> = Vec::new();
    let mut i: usize = 0;
    while i < v.len()
        invariant
            i <= v@.len(),
            r@.len() == i,
            forall|j: int| 0 <= j < i ==> (#[trigger] r@[j])@ == v@[j]@,
        decreases v@.len() - i,
    {
        r.push(v[i].clone());
        i += 1;
    }
    proof {
        assert(r.deep_view() =~= v.deep_view());
    }
    r
}

/// The registry: for each known job, the targets scraped under that job
/// name, in the order the VMs contributed them.
#[derive(Debug, PartialEq, Eq)]
pub struct EndpointRegistry {
    pub entries: Vec<(String, Vec<Target>)>,
}

impl View for EndpointRegistry {
    type V = Map<Seq<char>, Seq<TargetView>>;

    open spec fn view(&self) -> Map<Seq<char>, Seq<TargetView>> {
        assoc_map(pair_views(self.entries@))
    }
}

impl EndpointRegistry {
    /// Each job has one entry.
    pub open spec fn wf(&self) -> bool {
        assoc_wf(pair_views(self.entries@))
    }

    /// The known job names, in the order the jobs were first contributed.
    pub open spec fn spec_jobs(&self) -> Seq<Seq<char>> {
        Seq::new(self.entries@.len(), |i: int| self.entries@[i].0@)
    }

    /// Appends one target to its job's list, creating the job if new.
    fn push_target(&mut self, job: String, t: Target)
        requires
            old(self).wf(),
        ensures
            final(self).wf(),
            old(self)@.contains_key(job@) ==> final(self)@ == old(self)@.insert(
                job@,
                old(self)@[job@].push(t@),
            ),
            !old(self)@.contains_key(job@) ==> final(self)@ == old(self)@.insert(
                job@,
                seq![t@],
            ),
    {
        let ghost jv = job@;
        let ghost tv = t@;
        let ghost before = pair_views(self.entries@);
        let found = assoc_find(&self.entries, job.as_str());
        match found {
            Some(i) => {
                proof {
                    lemma_assoc_map_index(before, i as int);
                    lemma_assoc_map_remove(before, i as int);
                    lemma_assoc_map_dom(before, jv);
                }
                let mut pair = self.entries.remove(i);
                let ghost lv = pair.1.deep_view();
                proof {
                    assert(pair_views(self.entries@) =~= before.remove(i as int));
                    assert(lv == assoc_map(before)[jv]);
                }
                pair.1.push(t);
                proof {
                    assert(pair.1.deep_view() =~= lv.push(tv));
                }
                let ghost premove = pair_views(self.entries@);
                self.entries.push(pair);
                proof {
                    assert(pair_views(self.entries@) =~= premove.push((jv, lv.push(tv))));
                    lemma_assoc_map_push(premove, jv, lv.push(tv));
                    assert(assoc_map(before).remove(jv).insert(jv, lv.push(tv))
                        =~= assoc_map(before).insert(jv, lv.push(tv)));
                    assert forall|a: int, b: int|
                        0 <= a < b < pair_views(self.entries@).len() implies pair_views(
                        self.entries@,
                    )[a].0 != pair_views(self.entries@)[b].0 by {
                        if b == pair_views(self.entries@).len() - 1 {
                            let a0 = if a < i as int { a } else { a + 1 };
                            assert(premove[a] == before[a0]);
                            assert(before[i as int].0 == jv);
                        }
                    }
                }
            },
            None => {
                proof {
                    lemma_assoc_map_dom(before, jv);
                }
                let mut lst: Vec<Target> = Vec::new();
                lst.push(t);
                proof {
                    assert(lst.deep_view() =~= seq![tv]);
                }
                self.entries.push((job, lst));
                proof {
                    assert(pair_views(self.entries@) =~= before.push((jv, seq![tv])));
                    lemma_assoc_map_push(before, jv, seq![tv]);
                }
            },
        }
    }

    /// Builds the registry for a VM list: each VM's targets are aggregated
    /// and appended, in VM list order, to the lists of the jobs they belong
    /// to.
    pub fn build(vms: &Vec<Vm>) -> (r: EndpointRegistry)
        ensures
            r.wf(),
            r@ == spec_build(vms.deep_view()),
    {
        let ghost vmviews = vms.deep_view();
        let mut reg = EndpointRegistry { entries: Vec::new() };
        proof {
            assert(pair_views(reg.entries@) =~= Seq::<(Seq<char>, Seq<TargetView>)>::empty());
            assert(reg@ =~= spec_build(vmviews.take(0)));
        }
        let mut vi: usize = 0;
        while vi < vms.len()
            invariant
                vi <= vms@.len(),
                vmviews == vms.deep_view(),
                reg.wf(),
                reg@ == spec_build(vmviews.take(vi as int)),
            decreases vms@.len() - vi,
        {
            let agg = aggregate(&vms[vi]);
            proof {
                assert(vmviews[vi as int] == vms@[vi as int]@);
                assert(vmviews.take(vi + 1) =~= vmviews.take(vi as int).push(vmviews[vi as int]));
            }
            let ghost prev = reg@;
            let ghost aggm = spec_aggregate(vmviews[vi as int]);
            let ghost av = pair_views(agg@);
            proof {
                assert(aggm.restrict(keys_upto(av, 0)) =~= Map::<Seq<char>, TargetView>::empty());
                assert(reg@ =~= registry_add(prev, aggm.restrict(keys_upto(av, 0))));
            }
            let mut k: usize = 0;
            while k < agg.len()
                invariant
                    k <= agg@.len(),
                    av == pair_views(agg@),
                    assoc_wf(av),
                    assoc_map(av) == aggm,
                    reg.wf(),
                    reg@ == registry_add(prev, aggm.restrict(keys_upto(av, k as int))),
                decreases agg@.len() - k,
            {
                let ghost jv = av[k as int].0;
                proof {
                    lemma_assoc_map_index(av, k as int);
                    assert(aggm.contains_key(jv));
                    assert(aggm[jv] == av[k as int].1);
                    assert(!keys_upto(av, k as int).contains(jv)) by {
                        if keys_upto(av, k as int).contains(jv) {
                            let w = choose|w: int| 0 <= w < k && w < av.len() && av[w].0 == jv;
                            assert(av[w].0 == av[k as int].0);
                        }
                    }
                }
                let ghost regbefore = reg@;
                reg.push_target(agg[k].0.clone(), agg[k].1.clone());
                proof {
                    let ks1 = keys_upto(av, k + 1);
                    let ks0 = keys_upto(av, k as int);
                    assert(ks1 =~= ks0.insert(jv));
                    assert(regbefore.contains_key(jv) <==> prev.contains_key(jv)) by {
                        assert(!aggm.restrict(ks0).contains_key(jv));
                    }
                    assert(reg@ =~= registry_add(prev, aggm.restrict(ks1)));
                }
                k += 1;
            }
            proof {
                assert(keys_upto(av, av.len() as int) =~= assoc_map(av).dom()) by {
                    assert forall|key: Seq<char>| #[trigger]
                        assoc_map(av).contains_key(key) == keys_upto(av, av.len() as int).contains(
                        key,
                    ) by {
                        lemma_assoc_map_dom(av, key);
                    }
                }
                assert(aggm.restrict(aggm.dom()) =~= aggm);
                assert(reg@ =~= spec_build(vmviews.take(vi + 1))) by {
                    assert(vmviews.take(vi + 1).drop_last() =~= vmviews.take(vi as int));
                    assert(vmviews.take(vi + 1).last() == vmviews[vi as int]);
                }
            }
            vi += 1;
        }
        proof {
            assert(vmviews.take(vms@.len() as int) =~= vmviews);
        }
        reg
    }

    /// The targets of one job, in contribution order; an unknown job yields
    /// the empty list, never an error.
    pub fn lookup(&self, job_name: &str) -> (r: Vec<Target>)
        ensures
            self.wf() && self@.contains_key(job_name@) ==> r.deep_view() == self@[job_name@],
            self.wf() && !self@.contains_key(job_name@) ==> r.deep_view() == Seq::<
                TargetView,
            >::empty(),
    {
        let found = assoc_find(&self.entries, job_name);
        match found {
            Some(i) => {
                proof {
                    if self.wf() {
                        lemma_assoc_map_index(pair_views(self.entries@), i as int);
                    }
                }
                clone_target_vec(&self.entries[i].1)
            },
            None => {
                proof {
                    lemma_assoc_map_dom(pair_views(self.entries@), job_name@);
                }
                let r: Vec<Target> = Vec::new();
                proof {
                    assert(r.deep_view() =~= Seq::<TargetView>::empty());
                }
                r
            },
        }
    }

    /// Whether any VM contributed a target for this job.
    pub fn contains_job(&self, job_name: &str) -> (r: bool)
        ensures
            r == self@.contains_key(job_name@),
    {
        proof {
            lemma_assoc_map_dom(pair_views(self.entries@), job_name@);
        }
        let found = assoc_find(&self.entries, job_name);
        match found {
            Some(i) => {
                proof {
                    assert(pair_views(self.entries@)[i as int].0 == job_name@);
                }
                true
            },
            None => false,
        }
    }

    /// All known job names, in the order the jobs were first contributed;
    /// they are exactly the keys of the registry.
    pub fn list_jobs(&self) -> (r: Vec<String>)
        ensures
            r.deep_view() == self.spec_jobs(),
            forall|k: Seq<char>| self@.contains_key(k) <==> self.spec_jobs().contains(k),
    {
        let mut r: Vec<String> = Vec::new();
        let mut i: usize = 0;
        while i < self.entries.len()
            invariant
                i <= self.entries@.len(),
                r@.len() == i,
                forall|j: int| 0 <= j < i ==> (#[trigger] r@[j])@ == self.entries@[j].0@,
            decreases self.entries@.len() - i,
        {
            r.push(self.entries[i].0.clone());
            i += 1;
        }
        proof {
            assert(r.deep_view() =~= self.spec_jobs());
            assert forall|k: Seq<char>| #[trigger] self@.contains_key(k) implies self.spec_jobs().contains(k) by {
                lemma_assoc_map_dom(pair_views(self.entries@), k);
                let w = choose|i: int|
                    0 <= i < pair_views(self.entries@).len() && pair_views(self.entries@)[i].0
                        == k;
                assert(self.spec_jobs()[w] == k);
            }
            assert forall|k: Seq<char>| #[trigger] self.spec_jobs().contains(k) implies self@.contains_key(k) by {
                let w = choose|i: int|
                    0 <= i < self.spec_jobs().len() && self.spec_jobs()[i] == k;
                assert(pair_views(self.entries@)[w].0 == k);
                lemma_assoc_map_dom(pair_views(self.entries@), k);
            }
        }
        r
    }
}

} // verus!
