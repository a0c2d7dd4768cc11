//! The mathematical model of target aggregation.
//!
//! A VM's tag list determines, for every job it mentions, one scrape target.
//! Because later directives override earlier ones, the outcome depends on
//! the tags only through the *last* directive writing each slot: the last
//! address directive of a job, the last job-scoped label of a (job, key)
//! pair, and the last global label of a key. The model states the target of
//! each job directly in those terms; [`spec_build`] then folds the per-VM
//! results, in VM order, into the registry.

use vstd::prelude::*;

use crate::tag::{spec_parse, SpecDirective, SpecParse};

verus! {

/// The mathematical shape of one scrape target: its address list and its
/// labels.
#[verifier::ext_equal]
pub struct TargetView {
    pub targets: Seq<Seq<char>>,
    pub labels: Map<Seq<char>, Seq<char>>,
}

/// A target while a VM's tags are still being folded: the composed scrape
/// address, if an address directive was seen, and the job-scoped labels.
#[verifier::ext_equal]
pub struct ProbeView {
    pub addr: Option<Seq<char>>,
    pub labels: Map<Seq<char>, Seq<char>>,
}

/// A scrape address: the VM's base address, a `:` separator, and the
/// port or address suffix the directive supplied.
pub open spec fn join_addr(base: Seq<char>, port: Seq<char>) -> Seq<char> {
    base + seq![':'] + port
}

/// Whether one tag is a directive scoped to `job`. Global labels mention no
/// job: they never create a target on their own.
pub open spec fn tag_mentions_job(t: Seq<char>, job: Seq<char>) -> bool {
    match spec_parse(t) {
        SpecParse::Directive(SpecDirective::JobLabel { job: j, key: _, value: _ }) => j == job,
        SpecParse::Directive(SpecDirective::JobAddress { job: j, value: _ }) => j == job,
        _ => false,
    }
}

/// Whether one tag is an address directive for `job`.
pub open spec fn tag_sets_address(t: Seq<char>, job: Seq<char>) -> bool {
    match spec_parse(t) {
        SpecParse::Directive(SpecDirective::JobAddress { job: j, value: _ }) => j == job,
        _ => false,
    }
}

/// Whether one tag is a global-label directive for `key`.
pub open spec fn tag_sets_global(t: Seq<char>, key: Seq<char>) -> bool {
    match spec_parse(t) {
        SpecParse::Directive(SpecDirective::GlobalLabel { key: k, value: _ }) => k == key,
        _ => false,
    }
}

/// Whether one tag is a job-scoped label directive for `(job, key)`.
pub open spec fn tag_sets_job_label(t: Seq<char>, job: Seq<char>, key: Seq<char>) -> bool {
    match spec_parse(t) {
        SpecParse::Directive(SpecDirective::JobLabel { job: j, key: k, value: _ }) => j == job
            && k == key,
        _ => false,
    }
}

/// Whether any tag in the list is scoped to `job`.
pub open spec fn job_present(tags: Seq<Seq<char>>, job: Seq<char>) -> bool {
    exists|i: int| 0 <= i < tags.len() && tag_mentions_job(tags[i], job)
}

/// The value of the last global-label directive for `key`, if any.
pub open spec fn last_global(tags: Seq<Seq<char>>, key: Seq<char>) -> Option<Seq<char>>
    decreases tags.len(),
{
    if tags.len() == 0 {
        None
    } else {
        match spec_parse(tags.last()) {
            SpecParse::Directive(SpecDirective::GlobalLabel { key: k, value: v }) => if k == key {
                Some(v)
            } else {
                last_global(tags.drop_last(), key)
            },
            _ => last_global(tags.drop_last(), key),
        }
    }
}

/// The value of the last job-scoped label directive for `(job, key)`, if any.
pub open spec fn last_job_label(tags: Seq<Seq<char>>, job: Seq<char>, key: Seq<char>) -> Option<
    Seq<char>,
>
    decreases tags.len(),
{
    if tags.len() == 0 {
        None
    } else {
        match spec_parse(tags.last()) {
            SpecParse::Directive(SpecDirective::JobLabel { job: j, key: k, value: v }) => if j
                == job && k == key {
                Some(v)
            } else {
                last_job_label(tags.drop_last(), job, key)
            },
            _ => last_job_label(tags.drop_last(), job, key),
        }
    }
}

/// The value of the last address directive for `job`, if any.
pub open spec fn last_job_address(tags: Seq<Seq<char>>, job: Seq<char>) -> Option<Seq<char>>
    decreases tags.len(),
{
    if tags.len() == 0 {
        None
    } else {
        match spec_parse(tags.last()) {
            SpecParse::Directive(SpecDirective::JobAddress { job: j, value: v }) => if j == job {
                Some(v)
            } else {
                last_job_address(tags.drop_last(), job)
            },
            _ => last_job_address(tags.drop_last(), job),
        }
    }
}

/// The label a finished target carries for `key`: the job-scoped value when
/// one was set, the global value otherwise.
pub open spec fn label_of(tags: Seq<Seq<char>>, job: Seq<char>, key: Seq<char>) -> Option<
    Seq<char>,
> {
    match last_job_label(tags, job, key) {
        Some(v) => Some(v),
        None => last_global(tags, key),
    }
}

/// The target a VM with base address `base` contributes to `job`: the
/// address set by the last address directive (the bare base address when
/// none was seen), and for each key the job-scoped label when present,
/// else the global label.
pub open spec fn spec_target(tags: Seq<Seq<char>>, base: Seq<char>, job: Seq<char>) -> TargetView {
    TargetView {
        targets: match last_job_address(tags, job) {
            Some(p) => seq![join_addr(base, p)],
            None => seq![base],
        },
        labels: Map::new(
            |key: Seq<char>| label_of(tags, job, key) is Some,
            |key: Seq<char>| label_of(tags, job, key)->0,
        ),
    }
}

/// All targets one VM contributes, indexed by job. A VM without an address
/// contributes nothing.
pub open spec fn spec_aggregate(vm: crate::xo::VmView) -> Map<Seq<char>, TargetView> {
    match vm.main_ip_address {
        None => Map::empty(),
        Some(base) => Map::new(
            |job: Seq<char>| job_present(vm.tags, job),
            |job: Seq<char>| spec_target(vm.tags, base, job),
        ),
    }
}

/// One VM's targets appended to the registry: each of its targets joins the
/// end of its job's list; jobs the VM does not mention keep their lists.
pub open spec fn registry_add(
    prev: Map<Seq<char>, Seq<TargetView>>,
    agg: Map<Seq<char>, TargetView>,
) -> Map<Seq<char>, Seq<TargetView>> {
    Map::new(
        |job: Seq<char>| prev.contains_key(job) || agg.contains_key(job),
        |job: Seq<char>|
            if agg.contains_key(job) {
                (if prev.contains_key(job) {
                    prev[job]
                } else {
                    Seq::empty()
                }).push(agg[job])
            } else {
                prev[job]
            },
    )
}

/// The registry built from a VM list: every VM's targets folded in, in VM
/// list order, so the first VM's target for a job stands first in that
/// job's list.
pub open spec fn spec_build(vms: Seq<crate::xo::VmView>) -> Map<Seq<char>, Seq<TargetView>>
    decreases vms.len(),
{
    if vms.len() == 0 {
        Map::empty()
    } else {
        registry_add(spec_build(vms.drop_last()), spec_aggregate(vms.last()))
    }
}

// ------------------------------------------------------------------
// The fold state the executable aggregator maintains, and how one tag
// moves it.
// ------------------------------------------------------------------

/// The global labels collected from a tag list.
pub(crate) open spec fn global_map(tags: Seq<Seq<char>>) -> Map<Seq<char>, Seq<char>> {
    Map::new(
        |key: Seq<char>| last_global(tags, key) is Some,
        |key: Seq<char>| last_global(tags, key)->0,
    )
}

/// The job-scoped labels collected from a tag list for one job.
pub(crate) open spec fn job_labels_map(tags: Seq<Seq<char>>, job: Seq<char>) -> Map<
    Seq<char>,
    Seq<char>,
> {
    Map::new(
        |key: Seq<char>| last_job_label(tags, job, key) is Some,
        |key: Seq<char>| last_job_label(tags, job, key)->0,
    )
}

/// The composed scrape address a tag list sets for one job, if any.
pub(crate) open spec fn spec_probe_addr(tags: Seq<Seq<char>>, base: Seq<char>, job: Seq<char>) -> Option<
    Seq<char>,
> {
    match last_job_address(tags, job) {
        Some(p) => Some(join_addr(base, p)),
        None => None,
    }
}

/// The targets-in-progress a tag list leaves behind, indexed by job.
pub(crate) open spec fn probes_map(tags: Seq<Seq<char>>, base: Seq<char>) -> Map<
    Seq<char>,
    ProbeView,
> {
    Map::new(
        |job: Seq<char>| job_present(tags, job),
        |job: Seq<char>| ProbeView {
            addr: spec_probe_addr(tags, base, job),
            labels: job_labels_map(tags, job),
        },
    )
}

/// A job no tag is scoped to has no address and no job-scoped labels.
pub(crate) proof fn lemma_absent_job(tags: Seq<Seq<char>>, job: Seq<char>)
    requires
        !job_present(tags, job),
    ensures
        last_job_address(tags, job) is None,
        forall|k: Seq<char>| last_job_label(tags, job, k) is None,
    decreases tags.len(),
{
    if tags.len() > 0 {
        assert(!tag_mentions_job(tags.last(), job)) by {
            if tag_mentions_job(tags[tags.len() - 1], job) {
                assert(job_present(tags, job));
            }
        }
        assert(!job_present(tags.drop_last(), job)) by {
            if job_present(tags.drop_last(), job) {
                let i = choose|i: int|
                    0 <= i < tags.drop_last().len() && tag_mentions_job(tags.drop_last()[i], job);
                assert(tag_mentions_job(tags[i], job));
            }
        }
        lemma_absent_job(tags.drop_last(), job);
        assert forall|k: Seq<char>| last_job_label(tags, job, k) is None by {
            assert(last_job_label(tags.drop_last(), job, k) is None);
        }
    }
}

/// A tag that is no directive leaves the fold state as it was.
pub(crate) proof fn lemma_step_inert(tags: Seq<Seq<char>>, t: Seq<char>, base: Seq<char>)
    requires
        spec_parse(t) is NotRecognized || spec_parse(t) is Malformed,
    ensures
        global_map(tags.push(t)) == global_map(tags),
        probes_map(tags.push(t), base) == probes_map(tags, base),
{
    let s = tags.push(t);
    assert(s.drop_last() =~= tags);
    assert(s.last() == t);
    lemma_push_presence(tags, t);
    assert(global_map(s) =~= global_map(tags));
    assert forall|job: Seq<char>| #[trigger] probes_map(s, base).contains_key(job) implies
        probes_map(s, base)[job] == probes_map(tags, base)[job] by {
        assert(job_labels_map(s, job) =~= job_labels_map(tags, job));
        assert(probes_map(s, base)[job] =~= probes_map(tags, base)[job]);
    }
    assert(probes_map(s, base) =~= probes_map(tags, base));
}

/// A global-label directive inserts its key into the global labels and
/// leaves every target-in-progress as it was.
pub(crate) proof fn lemma_step_global(
    tags: Seq<Seq<char>>,
    t: Seq<char>,
    base: Seq<char>,
    k: Seq<char>,
    v: Seq<char>,
)
    requires
        spec_parse(t) == SpecParse::Directive(SpecDirective::GlobalLabel { key: k, value: v }),
    ensures
        global_map(tags.push(t)) == global_map(tags).insert(k, v),
        probes_map(tags.push(t), base) == probes_map(tags, base),
{
    let s = tags.push(t);
    assert(s.drop_last() =~= tags);
    assert(s.last() == t);
    lemma_push_presence(tags, t);
    assert(global_map(s) =~= global_map(tags).insert(k, v));
    assert forall|job: Seq<char>| #[trigger] probes_map(s, base).contains_key(job) implies
        probes_map(s, base)[job] == probes_map(tags, base)[job] by {
        assert(job_labels_map(s, job) =~= job_labels_map(tags, job));
        assert(probes_map(s, base)[job] =~= probes_map(tags, base)[job]);
    }
    assert(probes_map(s, base) =~= probes_map(tags, base));
}

/// A job-label directive inserts its key into that job's labels and touches
/// nothing else.
pub(crate) proof fn lemma_step_job_label(
    tags: Seq<Seq<char>>,
    t: Seq<char>,
    base: Seq<char>,
    j: Seq<char>,
    k: Seq<char>,
    v: Seq<char>,
)
    requires
        spec_parse(t) == SpecParse::Directive(
            SpecDirective::JobLabel { job: j, key: k, value: v },
        ),
    ensures
        global_map(tags.push(t)) == global_map(tags),
        probes_map(tags.push(t), base) == probes_map(tags, base).insert(
            j,
            ProbeView {
                addr: spec_probe_addr(tags, base, j),
                labels: job_labels_map(tags, j).insert(k, v),
            },
        ),
{
    let s = tags.push(t);
    assert(s.drop_last() =~= tags);
    assert(s.last() == t);
    lemma_push_presence(tags, t);
    assert(global_map(s) =~= global_map(tags));
    let rhs = probes_map(tags, base).insert(
        j,
        ProbeView {
            addr: spec_probe_addr(tags, base, j),
            labels: job_labels_map(tags, j).insert(k, v),
        },
    );
    assert(tag_mentions_job(t, j));
    assert(probes_map(s, base).contains_key(j));
    assert forall|job: Seq<char>| #[trigger] probes_map(s, base).contains_key(job) implies
        probes_map(s, base)[job] == rhs[job] by {
        if job == j {
            assert(job_labels_map(s, j) =~= job_labels_map(tags, j).insert(k, v));
            assert(probes_map(s, base)[j] =~= rhs[j]);
        } else {
            assert(job_labels_map(s, job) =~= job_labels_map(tags, job));
            assert(probes_map(s, base)[job] =~= rhs[job]);
        }
    }
    assert(probes_map(s, base) =~= rhs);
}

/// An address directive sets that job's scrape address and touches nothing
/// else.
pub(crate) proof fn lemma_step_job_address(
    tags: Seq<Seq<char>>,
    t: Seq<char>,
    base: Seq<char>,
    j: Seq<char>,
    v: Seq<char>,
)
    requires
        spec_parse(t) == SpecParse::Directive(SpecDirective::JobAddress { job: j, value: v }),
    ensures
        global_map(tags.push(t)) == global_map(tags),
        probes_map(tags.push(t), base) == probes_map(tags, base).insert(
            j,
            ProbeView { addr: Some(join_addr(base, v)), labels: job_labels_map(tags, j) },
        ),
{
    let s = tags.push(t);
    assert(s.drop_last() =~= tags);
    assert(s.last() == t);
    lemma_push_presence(tags, t);
    assert(global_map(s) =~= global_map(tags));
    let rhs = probes_map(tags, base).insert(
        j,
        ProbeView { addr: Some(join_addr(base, v)), labels: job_labels_map(tags, j) },
    );
    assert(tag_mentions_job(t, j));
    assert(probes_map(s, base).contains_key(j));
    assert forall|job: Seq<char>| #[trigger] probes_map(s, base).contains_key(job) implies
        probes_map(s, base)[job] == rhs[job] by {
        if job == j {
            assert(job_labels_map(s, j) =~= job_labels_map(tags, j));
            assert(probes_map(s, base)[j] =~= rhs[j]);
        } else {
            assert(job_labels_map(s, job) =~= job_labels_map(tags, job));
            assert(probes_map(s, base)[job] =~= rhs[job]);
        }
    }
    assert(probes_map(s, base) =~= rhs);
}

/// Appending one tag changes which jobs are present in the one obvious way.
pub(crate) proof fn lemma_push_presence(tags: Seq<Seq<char>>, t: Seq<char>)
    ensures
        forall|job: Seq<char>| #[trigger] job_present(tags.push(t), job) <==> (job_present(
            tags,
            job,
        ) || tag_mentions_job(t, job)),
{
    let s = tags.push(t);
    assert forall|job: Seq<char>| #[trigger] job_present(s, job) implies (job_present(tags, job)
        || tag_mentions_job(t, job)) by {
        let i = choose|i: int| 0 <= i < s.len() && tag_mentions_job(s[i], job);
        if i < tags.len() {
            assert(tags[i] == s[i]);
        } else {
            assert(s[i] == t);
        }
    }
    assert forall|job: Seq<char>| job_present(tags, job) || tag_mentions_job(t, job) implies
        #[trigger] job_present(s, job) by {
        if job_present(tags, job) {
            let i = choose|i: int| 0 <= i < tags.len() && tag_mentions_job(tags[i], job);
            assert(tag_mentions_job(s[i], job));
        } else {
            assert(tag_mentions_job(s[tags.len() as int], job));
        }
    }
}

/// Merging the globals into a finished fold state yields exactly the target
/// the model assigns to the job.
pub(crate) proof fn lemma_finalize(tags: Seq<Seq<char>>, base: Seq<char>, job: Seq<char>)
    requires
        job_present(tags, job),
    ensures
        spec_target(tags, base, job).targets == (match probes_map(tags, base)[job].addr {
            Some(a) => seq![a],
            None => seq![base],
        }),
        spec_target(tags, base, job).labels == global_map(tags).union_prefer_right(
            probes_map(tags, base)[job].labels,
        ),
{
    let pv = probes_map(tags, base)[job];
    assert(spec_target(tags, base, job).labels =~= global_map(tags).union_prefer_right(pv.labels));
}

} // verus!
