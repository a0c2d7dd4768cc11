//! The guarantees the aggregation gives, stated and proved once and for all.
//!
//! Each lemma speaks about the model functions that the executable
//! functions' contracts are stated over, so what is proved here carries to
//! every call of [`crate::registry::EndpointRegistry::build`].

use vstd::prelude::*;

use crate::model::{
    job_present, join_addr, last_global, last_job_address, last_job_label, registry_add,
    spec_aggregate, spec_build, spec_target, tag_mentions_job, tag_sets_address, tag_sets_global,
    tag_sets_job_label, TargetView,
};
use crate::tag::{spec_parse, SpecDirective, SpecParse};
use crate::xo::VmView;

verus! {

/// Whether two tags can disagree about a slot: two global labels for one
/// key, two job labels for one (job, key) pair, or two addresses for one
/// job must carry the same value; any other pair cannot conflict.
pub open spec fn directives_agree(a: Seq<char>, b: Seq<char>) -> bool {
    match (spec_parse(a), spec_parse(b)) {
        (
            SpecParse::Directive(SpecDirective::GlobalLabel { key: k1, value: v1 }),
            SpecParse::Directive(SpecDirective::GlobalLabel { key: k2, value: v2 }),
        ) => k1 == k2 ==> v1 == v2,
        (
            SpecParse::Directive(SpecDirective::JobLabel { job: j1, key: k1, value: v1 }),
            SpecParse::Directive(SpecDirective::JobLabel { job: j2, key: k2, value: v2 }),
        ) => j1 == j2 && k1 == k2 ==> v1 == v2,
        (
            SpecParse::Directive(SpecDirective::JobAddress { job: j1, value: v1 }),
            SpecParse::Directive(SpecDirective::JobAddress { job: j2, value: v2 }),
        ) => j1 == j2 ==> v1 == v2,
        _ => true,
    }
}

/// No two tags of the list write one slot with different values.
pub open spec fn consistent_directives(tags: Seq<Seq<char>>) -> bool {
    forall|i: int, j: int| #![trigger tags[i], tags[j]]
        0 <= i < tags.len() && 0 <= j < tags.len() ==> directives_agree(tags[i], tags[j])
}

/// A VM without an address contributes nothing: the registry built from a
/// VM list equals the one built with that VM left out.
pub proof fn lemma_no_address_no_targets(vms: Seq<VmView>, i: int)
    requires
        0 <= i < vms.len(),
        vms[i].main_ip_address is None,
    ensures
        spec_build(vms) == spec_build(vms.remove(i)),
    decreases vms.len(),
{
    if i == vms.len() - 1 {
        assert(vms.remove(i) =~= vms.drop_last());
        assert(spec_aggregate(vms.last()) =~= Map::<Seq<char>, TargetView>::empty());
        assert(registry_add(spec_build(vms.drop_last()), spec_aggregate(vms.last()))
            =~= spec_build(vms.drop_last()));
    } else {
        lemma_no_address_no_targets(vms.drop_last(), i);
        assert(vms.remove(i).drop_last() =~= vms.drop_last().remove(i));
        assert(vms.remove(i).last() == vms.last());
        assert(vms.remove(i).len() > 0);
    }
}

/// Every target in every job's list scrapes exactly one address; no target
/// ever has an empty address list.
pub proof fn lemma_target_addresses_nonempty(vms: Seq<VmView>, job: Seq<char>, i: int)
    requires
        spec_build(vms).contains_key(job),
        0 <= i < spec_build(vms)[job].len(),
    ensures
        spec_build(vms)[job][i].targets.len() == 1,
    decreases vms.len(),
{
    if vms.len() == 0 {
        assert(false);
    } else {
        let prev = spec_build(vms.drop_last());
        let agg = spec_aggregate(vms.last());
        if agg.contains_key(job) {
            let prevlist = if prev.contains_key(job) {
                prev[job]
            } else {
                Seq::<TargetView>::empty()
            };
            assert(spec_build(vms)[job] == prevlist.push(agg[job]));
            if i == prevlist.len() {
                assert(agg[job].targets.len() == 1) by {
                    let base = vms.last().main_ip_address->0;
                    assert(agg[job] == spec_target(vms.last().tags, base, job));
                }
            } else {
                assert(prev.contains_key(job));
                lemma_target_addresses_nonempty(vms.drop_last(), job, i);
                assert(spec_build(vms)[job][i] == prev[job][i]);
            }
        } else {
            lemma_target_addresses_nonempty(vms.drop_last(), job, i);
        }
    }
}

/// A job no tag of the VM gave an address directive for has seen none.
proof fn lemma_no_address_directive(tags: Seq<Seq<char>>, job: Seq<char>)
    requires
        forall|i: int| 0 <= i < tags.len() ==> !tag_sets_address(#[trigger] tags[i], job),
    ensures
        last_job_address(tags, job) is None,
    decreases tags.len(),
{
    if tags.len() > 0 {
        assert(!tag_sets_address(tags[tags.len() - 1], job));
        assert forall|i: int| 0 <= i < tags.drop_last().len() implies !tag_sets_address(
            #[trigger] tags.drop_last()[i],
            job,
        ) by {
            assert(tags.drop_last()[i] == tags[i]);
        }
        lemma_no_address_directive(tags.drop_last(), job);
    }
}

/// A (VM, job) pair that saw no address directive scrapes the VM's bare
/// base address, with no port suffix.
pub proof fn lemma_default_address(vm: VmView, base: Seq<char>, job: Seq<char>)
    requires
        vm.main_ip_address == Some(base),
        spec_aggregate(vm).contains_key(job),
        forall|i: int| 0 <= i < vm.tags.len() ==> !tag_sets_address(#[trigger] vm.tags[i], job),
    ensures
        spec_aggregate(vm)[job].targets == seq![base],
{
    lemma_no_address_directive(vm.tags, job);
}

/// When address directives were seen, the last one in tag order decides the
/// scrape address.
pub proof fn lemma_last_address_wins(vm: VmView, base: Seq<char>, job: Seq<char>, v: Seq<char>)
    requires
        vm.main_ip_address == Some(base),
        spec_aggregate(vm).contains_key(job),
        last_job_address(vm.tags, job) == Some(v),
    ensures
        spec_aggregate(vm)[job].targets == seq![join_addr(base, v)],
{
}

/// A key set by a job-scoped label keeps the job-scoped value, whatever
/// global-label directives the VM carries for the same key.
pub proof fn lemma_job_label_wins(vm: VmView, job: Seq<char>, key: Seq<char>, v: Seq<char>)
    requires
        vm.main_ip_address is Some,
        spec_aggregate(vm).contains_key(job),
        last_job_label(vm.tags, job, key) == Some(v),
    ensures
        spec_aggregate(vm)[job].labels.contains_key(key),
        spec_aggregate(vm)[job].labels[key] == v,
{
}

/// A key no job-scoped label set falls back to the last global label.
pub proof fn lemma_global_label_fallback(vm: VmView, job: Seq<char>, key: Seq<char>, v: Seq<char>)
    requires
        vm.main_ip_address is Some,
        spec_aggregate(vm).contains_key(job),
        last_job_label(vm.tags, job, key) is None,
        last_global(vm.tags, key) == Some(v),
    ensures
        spec_aggregate(vm)[job].labels.contains_key(key),
        spec_aggregate(vm)[job].labels[key] == v,
{
}

/// Building twice from one VM list yields equal registries: the result is a
/// function of the VM list alone.
pub proof fn lemma_build_idempotent(
    vms: Seq<VmView>,
    r1: Map<Seq<char>, Seq<TargetView>>,
    r2: Map<Seq<char>, Seq<TargetView>>,
)
    requires
        r1 == spec_build(vms),
        r2 == spec_build(vms),
    ensures
        r1 == r2,
{
}

/// `last_global` is `Some` exactly when some tag sets the key, and its value
/// is then carried by one of the tags.
proof fn lemma_last_global_membership(tags: Seq<Seq<char>>, key: Seq<char>)
    ensures
        (last_global(tags, key) is Some) <==> (exists|i: int|
            0 <= i < tags.len() && tag_sets_global(#[trigger] tags[i], key)),
        (last_global(tags, key) is Some) ==> (exists|i: int|
            0 <= i < tags.len() && spec_parse(#[trigger] tags[i]) == SpecParse::Directive(
                SpecDirective::GlobalLabel { key, value: last_global(tags, key)->0 },
            )),
    decreases tags.len(),
{
    if tags.len() > 0 {
        let t = tags.last();
        let rest = tags.drop_last();
        lemma_last_global_membership(rest, key);
        if tag_sets_global(t, key) {
            assert(tag_sets_global(tags[tags.len() - 1], key));
            assert(spec_parse(tags[tags.len() - 1]) == SpecParse::Directive(
                SpecDirective::GlobalLabel { key, value: last_global(tags, key)->0 },
            ));
        } else {
            assert(last_global(tags, key) == last_global(rest, key));
            if last_global(rest, key) is Some {
                let i = choose|i: int|
                    0 <= i < rest.len() && spec_parse(#[trigger] rest[i])
                        == SpecParse::Directive(
                        SpecDirective::GlobalLabel { key, value: last_global(rest, key)->0 },
                    );
                assert(spec_parse(tags[i]) == SpecParse::Directive(
                    SpecDirective::GlobalLabel { key, value: last_global(tags, key)->0 },
                ));
                assert(tag_sets_global(tags[i], key));
            }
            if exists|i: int| 0 <= i < tags.len() && tag_sets_global(#[trigger] tags[i], key) {
                let i = choose|i: int|
                    0 <= i < tags.len() && tag_sets_global(#[trigger] tags[i], key);
                assert(i < tags.len() - 1);
                assert(tag_sets_global(rest[i], key));
            }
        }
    }
}

/// `last_job_label` is `Some` exactly when some tag sets the pair, and its
/// value is then carried by one of the tags.
proof fn lemma_last_job_label_membership(tags: Seq<Seq<char>>, job: Seq<char>, key: Seq<char>)
    ensures
        (last_job_label(tags, job, key) is Some) <==> (exists|i: int|
            0 <= i < tags.len() && tag_sets_job_label(#[trigger] tags[i], job, key)),
        (last_job_label(tags, job, key) is Some) ==> (exists|i: int|
            0 <= i < tags.len() && spec_parse(#[trigger] tags[i]) == SpecParse::Directive(
                SpecDirective::JobLabel { job, key, value: last_job_label(tags, job, key)->0 },
            )),
    decreases tags.len(),
{
    if tags.len() > 0 {
        let t = tags.last();
        let rest = tags.drop_last();
        lemma_last_job_label_membership(rest, job, key);
        if tag_sets_job_label(t, job, key) {
            assert(tag_sets_job_label(tags[tags.len() - 1], job, key));
            assert(spec_parse(tags[tags.len() - 1]) == SpecParse::Directive(
                SpecDirective::JobLabel { job, key, value: last_job_label(tags, job, key)->0 },
            ));
        } else {
            assert(last_job_label(tags, job, key) == last_job_label(rest, job, key));
            if last_job_label(rest, job, key) is Some {
                let i = choose|i: int|
                    0 <= i < rest.len() && spec_parse(#[trigger] rest[i])
                        == SpecParse::Directive(
                        SpecDirective::JobLabel {
                            job,
                            key,
                            value: last_job_label(rest, job, key)->0,
                        },
                    );
                assert(spec_parse(tags[i]) == SpecParse::Directive(
                    SpecDirective::JobLabel {
                        job,
                        key,
                        value: last_job_label(tags, job, key)->0,
                    },
                ));
                assert(tag_sets_job_label(tags[i], job, key));
            }
            if exists|i: int|
                0 <= i < tags.len() && tag_sets_job_label(#[trigger] tags[i], job, key) {
                let i = choose|i: int|
                    0 <= i < tags.len() && tag_sets_job_label(#[trigger] tags[i], job, key);
                assert(i < tags.len() - 1);
                assert(tag_sets_job_label(rest[i], job, key));
            }
        }
    }
}

/// `last_job_address` is `Some` exactly when some tag addresses the job,
/// and its value is then carried by one of the tags.
proof fn lemma_last_job_address_membership(tags: Seq<Seq<char>>, job: Seq<char>)
    ensures
        (last_job_address(tags, job) is Some) <==> (exists|i: int|
            0 <= i < tags.len() && tag_sets_address(#[trigger] tags[i], job)),
        (last_job_address(tags, job) is Some) ==> (exists|i: int|
            0 <= i < tags.len() && spec_parse(#[trigger] tags[i]) == SpecParse::Directive(
                SpecDirective::JobAddress { job, value: last_job_address(tags, job)->0 },
            )),
    decreases tags.len(),
{
    if tags.len() > 0 {
        let t = tags.last();
        let rest = tags.drop_last();
        lemma_last_job_address_membership(rest, job);
        if tag_sets_address(t, job) {
            assert(tag_sets_address(tags[tags.len() - 1], job));
            assert(spec_parse(tags[tags.len() - 1]) == SpecParse::Directive(
                SpecDirective::JobAddress { job, value: last_job_address(tags, job)->0 },
            ));
        } else {
            assert(last_job_address(tags, job) == last_job_address(rest, job));
            if last_job_address(rest, job) is Some {
                let i = choose|i: int|
                    0 <= i < rest.len() && spec_parse(#[trigger] rest[i])
                        == SpecParse::Directive(
                        SpecDirective::JobAddress { job, value: last_job_address(rest, job)->0 },
                    );
                assert(spec_parse(tags[i]) == SpecParse::Directive(
                    SpecDirective::JobAddress { job, value: last_job_address(tags, job)->0 },
                ));
                assert(tag_sets_address(tags[i], job));
            }
            if exists|i: int| 0 <= i < tags.len() && tag_sets_address(#[trigger] tags[i], job) {
                let i = choose|i: int|
                    0 <= i < tags.len() && tag_sets_address(#[trigger] tags[i], job);
                assert(i < tags.len() - 1);
                assert(tag_sets_address(rest[i], job));
            }
        }
    }
}

/// Reordering a VM's tags does not change its targets, as long as no two of
/// its tags write one slot with different values. With such duplicates the
/// result still depends only on which directive comes last in tag order
/// ([`lemma_aggregate_from_last_directives`]).
pub proof fn lemma_reordered_tags_same_targets(vm1: VmView, vm2: VmView)
    requires
        vm1.main_ip_address == vm2.main_ip_address,
        vm1.tags.to_multiset() == vm2.tags.to_multiset(),
        consistent_directives(vm1.tags),
    ensures
        spec_aggregate(vm1) == spec_aggregate(vm2),
{
    broadcast use vstd::seq_lib::group_to_multiset_ensures;

    let t1 = vm1.tags;
    let t2 = vm2.tags;
    assert forall|x: Seq<char>| #[trigger] t1.contains(x) == t2.contains(x) by {
        assert(t1.to_multiset().count(x) == t2.to_multiset().count(x));
    }
    assert forall|job: Seq<char>| #[trigger] job_present(t1, job) == job_present(t2, job) by {
        if job_present(t1, job) {
            let i = choose|i: int| 0 <= i < t1.len() && tag_mentions_job(t1[i], job);
            assert(t1.contains(t1[i]));
            assert(t2.contains(t1[i]));
            let j = choose|j: int| 0 <= j < t2.len() && t2[j] == t1[i];
            assert(tag_mentions_job(t2[j], job));
        }
        if job_present(t2, job) {
            let i = choose|i: int| 0 <= i < t2.len() && tag_mentions_job(t2[i], job);
            assert(t2.contains(t2[i]));
            assert(t1.contains(t2[i]));
            let j = choose|j: int| 0 <= j < t1.len() && t1[j] == t2[i];
            assert(tag_mentions_job(t1[j], job));
        }
    }
    assert forall|job: Seq<char>| #[trigger] last_job_address(t1, job) == last_job_address(
        t2,
        job,
    ) by {
        lemma_last_job_address_membership(t1, job);
        lemma_last_job_address_membership(t2, job);
        if last_job_address(t1, job) is Some && last_job_address(t2, job) is Some {
            let i1 = choose|i: int|
                0 <= i < t1.len() && spec_parse(#[trigger] t1[i]) == SpecParse::Directive(
                    SpecDirective::JobAddress { job, value: last_job_address(t1, job)->0 },
                );
            let i2 = choose|i: int|
                0 <= i < t2.len() && spec_parse(#[trigger] t2[i]) == SpecParse::Directive(
                    SpecDirective::JobAddress { job, value: last_job_address(t2, job)->0 },
                );
            assert(t2.contains(t2[i2]));
            assert(t1.contains(t2[i2]));
            let k = choose|k: int| 0 <= k < t1.len() && t1[k] == t2[i2];
            assert(directives_agree(t1[i1], t1[k]));
        } else if last_job_address(t1, job) is Some {
            let i1 = choose|i: int| 0 <= i < t1.len() && tag_sets_address(#[trigger] t1[i], job);
            assert(t1.contains(t1[i1]));
            assert(t2.contains(t1[i1]));
            let k = choose|k: int| 0 <= k < t2.len() && t2[k] == t1[i1];
            assert(tag_sets_address(t2[k], job));
        } else if last_job_address(t2, job) is Some {
            let i2 = choose|i: int| 0 <= i < t2.len() && tag_sets_address(#[trigger] t2[i], job);
            assert(t2.contains(t2[i2]));
            assert(t1.contains(t2[i2]));
            let k = choose|k: int| 0 <= k < t1.len() && t1[k] == t2[i2];
            assert(tag_sets_address(t1[k], job));
        }
    }
    assert forall|job: Seq<char>, key: Seq<char>| #[trigger] last_job_label(t1, job, key)
        == last_job_label(t2, job, key) by {
        lemma_last_job_label_membership(t1, job, key);
        lemma_last_job_label_membership(t2, job, key);
        if last_job_label(t1, job, key) is Some && last_job_label(t2, job, key) is Some {
            let i1 = choose|i: int|
                0 <= i < t1.len() && spec_parse(#[trigger] t1[i]) == SpecParse::Directive(
                    SpecDirective::JobLabel {
                        job,
                        key,
                        value: last_job_label(t1, job, key)->0,
                    },
                );
            let i2 = choose|i: int|
                0 <= i < t2.len() && spec_parse(#[trigger] t2[i]) == SpecParse::Directive(
                    SpecDirective::JobLabel {
                        job,
                        key,
                        value: last_job_label(t2, job, key)->0,
                    },
                );
            assert(t2.contains(t2[i2]));
            assert(t1.contains(t2[i2]));
            let k = choose|k: int| 0 <= k < t1.len() && t1[k] == t2[i2];
            assert(directives_agree(t1[i1], t1[k]));
        } else if last_job_label(t1, job, key) is Some {
            let i1 = choose|i: int|
                0 <= i < t1.len() && tag_sets_job_label(#[trigger] t1[i], job, key);
            assert(t1.contains(t1[i1]));
            assert(t2.contains(t1[i1]));
            let k = choose|k: int| 0 <= k < t2.len() && t2[k] == t1[i1];
            assert(tag_sets_job_label(t2[k], job, key));
        } else if last_job_label(t2, job, key) is Some {
            let i2 = choose|i: int|
                0 <= i < t2.len() && tag_sets_job_label(#[trigger] t2[i], job, key);
            assert(t2.contains(t2[i2]));
            assert(t1.contains(t2[i2]));
            let k = choose|k: int| 0 <= k < t1.len() && t1[k] == t2[i2];
            assert(tag_sets_job_label(t1[k], job, key));
        }
    }
    assert forall|key: Seq<char>| #[trigger] last_global(t1, key) == last_global(t2, key) by {
        lemma_last_global_membership(t1, key);
        lemma_last_global_membership(t2, key);
        if last_global(t1, key) is Some && last_global(t2, key) is Some {
            let i1 = choose|i: int|
                0 <= i < t1.len() && spec_parse(#[trigger] t1[i]) == SpecParse::Directive(
                    SpecDirective::GlobalLabel { key, value: last_global(t1, key)->0 },
                );
            let i2 = choose|i: int|
                0 <= i < t2.len() && spec_parse(#[trigger] t2[i]) == SpecParse::Directive(
                    SpecDirective::GlobalLabel { key, value: last_global(t2, key)->0 },
                );
            assert(t2.contains(t2[i2]));
            assert(t1.contains(t2[i2]));
            let k = choose|k: int| 0 <= k < t1.len() && t1[k] == t2[i2];
            assert(directives_agree(t1[i1], t1[k]));
        } else if last_global(t1, key) is Some {
            let i1 = choose|i: int| 0 <= i < t1.len() && tag_sets_global(#[trigger] t1[i], key);
            assert(t1.contains(t1[i1]));
            assert(t2.contains(t1[i1]));
            let k = choose|k: int| 0 <= k < t2.len() && t2[k] == t1[i1];
            assert(tag_sets_global(t2[k], key));
        } else if last_global(t2, key) is Some {
            let i2 = choose|i: int| 0 <= i < t2.len() && tag_sets_global(#[trigger] t2[i], key);
            assert(t2.contains(t2[i2]));
            assert(t1.contains(t2[i2]));
            let k = choose|k: int| 0 <= k < t1.len() && t1[k] == t2[i2];
            assert(tag_sets_global(t1[k], key));
        }
    }
    lemma_aggregate_from_last_directives(vm1, vm2);
}

/// A VM's targets depend on its tag list only through which jobs it
/// mentions and the last directive writing each slot. Reordering the tags
/// therefore cannot change the result except by changing which of several
/// directives for one slot comes last.
pub proof fn lemma_aggregate_from_last_directives(vm1: VmView, vm2: VmView)
    requires
        vm1.main_ip_address == vm2.main_ip_address,
        forall|job: Seq<char>| #[trigger] crate::model::job_present(vm1.tags, job)
            == crate::model::job_present(vm2.tags, job),
        forall|job: Seq<char>| #[trigger] last_job_address(vm1.tags, job) == last_job_address(
            vm2.tags,
            job,
        ),
        forall|job: Seq<char>, key: Seq<char>| #[trigger] last_job_label(vm1.tags, job, key)
            == last_job_label(vm2.tags, job, key),
        forall|key: Seq<char>| #[trigger] last_global(vm1.tags, key) == last_global(
            vm2.tags,
            key,
        ),
    ensures
        spec_aggregate(vm1) == spec_aggregate(vm2),
{
    if vm1.main_ip_address is Some {
        let base = vm1.main_ip_address->0;
        assert forall|job: Seq<char>| #[trigger] spec_aggregate(vm1).contains_key(job) implies
            spec_aggregate(vm1)[job] == spec_aggregate(vm2)[job] by {
            assert(spec_target(vm1.tags, base, job).labels =~= spec_target(
                vm2.tags,
                base,
                job,
            ).labels);
            assert(spec_target(vm1.tags, base, job) =~= spec_target(vm2.tags, base, job));
        }
        assert(spec_aggregate(vm1) =~= spec_aggregate(vm2));
    } else {
        assert(spec_aggregate(vm1) =~= spec_aggregate(vm2));
    }
}

} // verus!
