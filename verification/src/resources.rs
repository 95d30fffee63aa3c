//! Requests for Kubernetes resources: what is applied, what is deleted, and what the answers
//! mean.
use crate::client::NamespacedApi;
use crate::meta::ObjectMeta;
use crate::text::{opt_text, texts};
use vstd::prelude::*;

verus! {

/// How a resource is patched.
#[derive(Debug, PartialEq, Eq)]
pub struct PatchOptions {
    /// In whose name the fields are set.
    pub field_manager: Option<String>,
    /// Whether fields that others manage are taken over.
    pub force: bool,
    /// Whether nothing is changed after all.
    pub dry_run: bool,
}

/// Which resources are listed.
#[derive(Debug, PartialEq, Eq)]
pub struct ListOptions {
    pub label_selector: Option<String>,
    pub field_selector: Option<String>,
    pub limit: Option<u32>,
}

/// What becomes of the resources that a deleted one owns.
#[derive(Clone, Copy, Debug, PartialEq, Eq, Structural)]
pub enum Propagation {
    /// They stay.
    Orphan,
    /// They are deleted after it.
    Background,
    /// They are deleted before it.
    Foreground,
}

/// How a resource is deleted.
#[derive(Debug, PartialEq, Eq)]
pub struct DeleteOptions {
    pub propagation: Option<Propagation>,
    pub grace_period_seconds: Option<u32>,
    pub dry_run: bool,
}

/// A patch that is applied on the server's side: the resource as it is to be.
#[derive(Debug)]
pub struct ApplyPatch<'a, T> {
    pub resource: &'a T,
}

/// A request to apply a resource.
#[derive(Debug)]
pub struct ApplyRequest<'a, T> {
    /// The name of the resource.
    pub name: String,
    pub patch: ApplyPatch<'a, T>,
    pub options: PatchOptions,
}

/// What a patch of a status holds: the status, and nothing else of the resource.
#[derive(Debug)]
pub struct StatusPatch<'a, P> {
    pub status: &'a P,
}

/// A patch that is merged into a resource: what its body does not hold stays as it is.
#[derive(Debug)]
pub struct MergePatch<B> {
    pub body: B,
}

/// A request to patch the status of a resource.
#[derive(Debug)]
pub struct StatusRequest<'a, P> {
    /// The name of the resource.
    pub name: String,
    pub patch: MergePatch<StatusPatch<'a, P>>,
    pub options: PatchOptions,
}

/// A request to delete a resource.
#[derive(Debug, PartialEq, Eq)]
pub struct DeleteRequest {
    /// The name of the resource.
    pub name: String,
    pub options: DeleteOptions,
}

/// `kube::api::PatchParams::apply` and `force`: a patch in the name of a field manager that takes
/// over the fields of others, and is no dry run.
#[verifier::external_body]
fn forced_apply_params(field_manager: &str) -> (options: PatchOptions)
    ensures
        opt_text(options.field_manager) == Some(field_manager@),
        options.force,
        !options.dry_run,
{
    let params = kube::api::PatchParams::apply(field_manager).force();
    PatchOptions {
        field_manager: params.field_manager,
        force: params.force,
        dry_run: params.dry_run,
    }
}

/// The default of `kube::api::PatchParams`: a patch in nobody's name that takes nothing over and
/// is no dry run.
#[verifier::external_body]
fn default_patch_params() -> (options: PatchOptions)
    ensures
        options.field_manager is None,
        !options.force,
        !options.dry_run,
{
    let params = kube::api::PatchParams::default();
    PatchOptions {
        field_manager: params.field_manager,
        force: params.force,
        dry_run: params.dry_run,
    }
}

/// The default of `kube::api::ListParams` with `labels`: a list by labels alone, without a limit.
#[verifier::external_body]
fn label_list_params(label_selector: &str) -> (options: ListOptions)
    ensures
        opt_text(options.label_selector) == Some(label_selector@),
        options.field_selector is None,
        options.limit is None,
{
    let params = kube::api::ListParams::default().labels(label_selector);
    ListOptions {
        label_selector: params.label_selector,
        field_selector: params.field_selector,
        limit: params.limit,
    }
}

/// `kube::api::DeleteParams::foreground`: a deletion after that of what the resource owns, with
/// the grace period that the resource comes with, and no dry run.
#[verifier::external_body]
fn foreground_delete_params() -> (options: DeleteOptions)
    ensures
        options.propagation == Some(Propagation::Foreground),
        options.grace_period_seconds is None,
        !options.dry_run,
{
    let params = kube::api::DeleteParams::foreground();
    DeleteOptions {
        propagation: params.propagation_policy.map(|policy| match policy {
            kube::api::PropagationPolicy::Orphan => Propagation::Orphan,
            kube::api::PropagationPolicy::Background => Propagation::Background,
            kube::api::PropagationPolicy::Foreground => Propagation::Foreground,
        }),
        grace_period_seconds: params.grace_period_seconds,
        dry_run: params.dry_run,
    }
}

/// Requests over a handle for one kind of resource.
pub trait ResourcesExt<T> {
    /// The request that applies a resource under the given name.
    fn apply<'b>(&self, name: &str, resource: &'b T) -> ApplyRequest<'b, T>;

    /// Which resources a prune looks at.
    fn prune(&self, label_selector: &str) -> ListOptions;

    /// The request that patches the status of the resource of the given name.
    fn patch_status<'b, P>(&self, name: &str, status: &'b P) -> StatusRequest<'b, P>;

    /// The request that deletes the resource of the given name.
    fn delete_if_exists(&self, name: &str) -> DeleteRequest;
}

impl<'a, T> ResourcesExt<T> for NamespacedApi<'a, T> {
    /// Applies the resource under the given name, in the name of the client's field manager,
    /// taking over the fields of others.
    fn apply<'b>(&self, name: &str, resource: &'b T) -> (request: ApplyRequest<'b, T>)
        ensures
            request.name@ == name@,
            *request.patch.resource == *resource,
            opt_text(request.options.field_manager) == Some(self.owner().manager()),
            request.options.force,
            !request.options.dry_run,
    {
        ApplyRequest {
            name: name.to_string(),
            patch: ApplyPatch { resource },
            options: forced_apply_params(self.k8s().field_manager()),
        }
    }

    /// Looks at every resource that the labels select.
    fn prune(&self, label_selector: &str) -> (options: ListOptions)
        ensures
            opt_text(options.label_selector) == Some(label_selector@),
            options.field_selector is None,
            options.limit is None,
    {
        label_list_params(label_selector)
    }

    /// Merges the status, and nothing else, into the resource of the given name, in nobody's name.
    fn patch_status<'b, P>(&self, name: &str, status: &'b P) -> (request: StatusRequest<'b, P>)
        ensures
            request.name@ == name@,
            *request.patch.body.status == *status,
            request.options.field_manager is None,
            !request.options.force,
            !request.options.dry_run,
    {
        StatusRequest {
            name: name.to_string(),
            patch: MergePatch { body: StatusPatch { status } },
            options: default_patch_params(),
        }
    }

    /// Deletes the resource of the given name, after what it owns.
    fn delete_if_exists(&self, name: &str) -> (request: DeleteRequest)
        ensures
            request.name@ == name@,
            request.options.propagation == Some(Propagation::Foreground),
            request.options.grace_period_seconds is None,
            !request.options.dry_run,
    {
        DeleteRequest { name: name.to_string(), options: foreground_delete_params() }
    }
}

/// Why the API refused a request, with the error itself.
#[derive(Debug)]
pub enum ApiFailure<E> {
    /// The server answered with a status.
    Status { code: u16, error: E },
    /// There was no such answer.
    Other(E),
}

/// The status code of an answer that there is no such resource.
pub const NOT_FOUND: u16 = 404;

/// What the answer to a deletion means: a resource that is not there is as good as deleted.
pub fn deleted<E>(answer: Result<(), ApiFailure<E>>) -> (r: Result<(), E>)
    ensures
        match answer {
            Ok(_) => r is Ok,
            Err(ApiFailure::Status { code, error }) => if code == 404 {
                r is Ok
            } else {
                r == Err::<(), E>(error)
            },
            Err(ApiFailure::Other(error)) => r == Err::<(), E>(error),
        },
{
    match answer {
        Ok(()) => Ok(()),
        Err(ApiFailure::Status { code, error }) => {
            if code == NOT_FOUND {
                Ok(())
            } else {
                Err(error)
            }
        },
        Err(ApiFailure::Other(error)) => Err(error),
    }
}

/// The texts of a list of names.
pub open spec fn names(s: Seq<String>) -> Set<Seq<char>> {
    texts(s).to_set()
}

/// The names of the listed resources that are not desired, in the order of the list.
pub open spec fn stale(listed: Seq<ObjectMeta>, desired: Set<Seq<char>>) -> Seq<Seq<char>>
    decreases listed.len(),
{
    if listed.len() == 0 {
        Seq::empty()
    } else {
        let rest = stale(listed.drop_last(), desired);
        if desired.contains(listed.last().any_name()) {
            rest
        } else {
            rest.push(listed.last().any_name())
        }
    }
}

fn is_desired(desired: &Vec<String>, name: &String) -> (r: bool)
    ensures
        r == names(desired@).contains(name@),
        r <==> exists|k: int| 0 <= k < desired@.len() && (#[trigger] desired@[k])@ == name@,
{
    let ghost wanted = texts(desired@);
    let mut i: usize = 0;
    while i < desired.len()
        invariant
            i <= desired.len(),
            wanted == texts(desired@),
            forall|k: int| 0 <= k < i ==> #[trigger] wanted[k] != name@,
        decreases desired.len() - i,
    {
        if desired[i] == *name {
            assert(wanted[i as int] == name@);
            assert(desired@[i as int]@ == name@);
            return true;
        }
        i = i + 1;
    }
    assert forall|k: int| 0 <= k < desired@.len() implies (#[trigger] desired@[k])@ != name@ by {
        assert(wanted[k] == desired@[k]@);
    }
    false
}

/// A prune that waits for the deletion of the resource at the head of its queue.
pub struct PruneRun {
    doomed: Vec<String>,
    at: usize,
}

impl View for PruneRun {
    type V = Seq<Seq<char>>;

    /// The names of the resources that are left to delete.
    closed spec fn view(&self) -> Seq<Seq<char>> {
        if self.at <= self.doomed@.len() {
            texts(self.doomed@).skip(self.at as int)
        } else {
            Seq::empty()
        }
    }
}

/// What comes next in a prune.
pub enum PruneStep {
    /// The resource at the head of the queue is to be deleted.
    Delete(PruneRun),
    /// The prune is over.
    Finish,
}

impl PruneStep {
    /// The names of the resources that are left to delete.
    pub open spec fn queue(self) -> Seq<Seq<char>> {
        match self {
            PruneStep::Delete(run) => run@,
            PruneStep::Finish => Seq::empty(),
        }
    }

    /// A prune is over if and only if no resource is left to delete.
    pub open spec fn wf(self) -> bool {
        self is Finish <==> self.queue().len() == 0
    }
}

impl PruneRun {
    /// The name of the resource that the prune waits for.
    pub fn name(&self) -> (name: &str)
        requires
            self@.len() > 0,
        ensures
            name@ == self@[0],
    {
        self.doomed[self.at].as_str()
    }

    fn proceed(self) -> (step: PruneStep)
        requires
            self.at <= self.doomed@.len(),
        ensures
            step.wf(),
            step.queue() == self@,
    {
        if self.at < self.doomed.len() {
            PruneStep::Delete(self)
        } else {
            assert(self@ =~= Seq::<Seq<char>>::empty());
            PruneStep::Finish
        }
    }

    /// Goes on with the prune after a deletion, whether it failed or not.
    pub fn resume<E>(self, result: Result<(), E>) -> (step: PruneStep)
        requires
            self@.len() > 0,
        ensures
            step.wf(),
            step.queue() == self@.drop_first(),
    {
        let _ = result;
        assert(self.at < self.doomed.len());
        let next = PruneRun { doomed: self.doomed, at: self.at + 1 };
        assert(next@ =~= self@.drop_first());
        next.proceed()
    }
}

/// Goes on with a prune once it has the list of the resources that it looks at: those that are
/// not desired are deleted. Where they could not be listed nothing is deleted.
pub fn prune_listed<E>(listed: Result<Vec<ObjectMeta>, E>, desired: &Vec<String>) -> (r: Result<
    PruneStep,
    E,
>)
    ensures
        match listed {
            Ok(listed) => {
                &&& r is Ok
                &&& r->Ok_0.wf()
                &&& r->Ok_0.queue() == stale(listed@, names(desired@))
                &&& forall|k: int|
                    0 <= k < desired@.len() ==> !r->Ok_0.queue().contains((#[trigger] desired@[k])@)
                &&& forall|i: int|
                    0 <= i < listed@.len() && (forall|k: int|
                        0 <= k < desired@.len() ==> (#[trigger] desired@[k])@
                            != listed@[i].any_name()) ==> r->Ok_0.queue().contains(
                        (#[trigger] listed@[i]).any_name(),
                    )
            },
            Err(error) => r == Err::<PruneStep, E>(error),
        },
{
    let listed = match listed {
        Ok(listed) => listed,
        Err(error) => return Err(error),
    };
    let mut doomed: Vec<String> = Vec::new();
    let mut i: usize = 0;
    while i < listed.len()
        invariant
            i <= listed.len(),
            texts(doomed@) == stale(listed@.take(i as int), names(desired@)),
        decreases listed.len() - i,
    {
        proof {
            assert(listed@.take(i + 1).drop_last() =~= listed@.take(i as int));
        }
        let name = listed[i].name_any();
        if !is_desired(desired, &name) {
            let ghost before = doomed@;
            doomed.push(name);
            proof {
                assert(texts(doomed@) =~= texts(before).push(name@));
            }
        }
        i = i + 1;
    }
    proof {
        assert(listed@.take(i as int) =~= listed@);
        assert(texts(doomed@).skip(0) =~= texts(doomed@));
        assert forall|k: int| 0 <= k < desired@.len() implies !stale(
            listed@,
            names(desired@),
        ).contains((#[trigger] desired@[k])@) by {
            prune_spares_what_the_caller_desires(listed@, desired@, k, 0);
        }
        assert forall|i: int|
            0 <= i < listed@.len() && (forall|k: int|
                0 <= k < desired@.len() ==> (#[trigger] desired@[k])@
                    != listed@[i].any_name()) implies stale(
            listed@,
            names(desired@),
        ).contains((#[trigger] listed@[i]).any_name()) by {
            prune_spares_what_the_caller_desires(listed@, desired@, 0, i);
        }
    }
    Ok(PruneRun { doomed, at: 0 }.proceed())
}

/// A prune deletes exactly the listed resources that are not desired: never a desired one.
pub proof fn prune_spares_the_desired(
    listed: Seq<ObjectMeta>,
    desired: Set<Seq<char>>,
    name: Seq<char>,
)
    ensures
        stale(listed, desired).contains(name) <==> !desired.contains(name) && exists|i: int|
            0 <= i < listed.len() && (#[trigger] listed[i]).any_name() == name,
    decreases listed.len(),
{
    if listed.len() > 0 {
        let rest = listed.drop_last();
        prune_spares_the_desired(rest, desired, name);
        let s = stale(listed, desired);
        let t = stale(rest, desired);
        if t.contains(name) {
            let k = t.index_of(name);
            assert(s[k] == name);
            let i = choose|i: int| 0 <= i < rest.len() && (#[trigger] rest[i]).any_name() == name;
            assert(listed[i].any_name() == name);
        }
        if !desired.contains(name) && exists|i: int|
            0 <= i < listed.len() && (#[trigger] listed[i]).any_name() == name {
            let i = choose|i: int|
                0 <= i < listed.len() && (#[trigger] listed[i]).any_name() == name;
            if i < rest.len() {
                assert(rest[i].any_name() == name);
            } else {
                assert(s[s.len() - 1] == name);
            }
        }
        if s.contains(name) && !t.contains(name) {
            let k = s.index_of(name);
            if k < t.len() {
                assert(t[k] == name);
            }
            assert(listed[listed.len() - 1].any_name() == name);
        }
    }
}

/// A prune comes to every resource that is not desired, one after the other, whatever comes of
/// the deletions before: `queues` are the resources that are left after each of them.
pub proof fn prune_comes_to_every_stale_resource(
    listed: Seq<ObjectMeta>,
    desired: Set<Seq<char>>,
    queues: Seq<Seq<Seq<char>>>,
    k: int,
)
    requires
        queues.len() > 0,
        queues[0] == stale(listed, desired),
        forall|i: int|
            0 <= i < queues.len() - 1 ==> #[trigger] queues[i].len() > 0 && queues[i + 1]
                == queues[i].drop_first(),
        0 <= k < queues.len(),
    ensures
        queues[k] == stale(listed, desired).skip(k),
        k <= stale(listed, desired).len(),
        queues[k].len() > 0 ==> queues[k][0] == stale(listed, desired)[k],
    decreases k,
{
    let all = stale(listed, desired);
    if k > 0 {
        prune_comes_to_every_stale_resource(listed, desired, queues, k - 1);
        assert(queues[k - 1].len() > 0);
        assert(queues[k] =~= all.skip(k));
    } else {
        assert(queues[0] =~= all.skip(0));
    }
}

proof fn lemma_names(desired: Seq<String>, name: Seq<char>)
    ensures
        names(desired).contains(name) <==> exists|k: int|
            0 <= k < desired.len() && (#[trigger] desired[k])@ == name,
{
    let all = texts(desired);
    if names(desired).contains(name) {
        let k = all.index_of(name);
        assert(desired[k]@ == name);
    }
    if exists|k: int| 0 <= k < desired.len() && (#[trigger] desired[k])@ == name {
        let k = choose|k: int| 0 <= k < desired.len() && (#[trigger] desired[k])@ == name;
        assert(all[k] == name);
        assert(all.contains(name));
    }
}

/// No text of the list that the caller passes is the name of a resource that a prune is to delete;
/// and every listed resource whose name equals none of these texts is to be deleted. A resource's
/// name is its own or, where it has none, the prefix that it is generated from.
pub proof fn prune_spares_what_the_caller_desires(
    listed: Seq<ObjectMeta>,
    desired: Seq<String>,
    k: int,
    i: int,
)
    ensures
        0 <= k < desired.len() ==> !stale(listed, names(desired)).contains(desired[k]@),
        ({
            let name = match (listed[i].name, listed[i].generate_name) {
                (Some(name), _) => name@,
                (None, Some(prefix)) => prefix@,
                (None, None) => Seq::empty(),
            };
            0 <= i < listed.len() && (forall|j: int|
                0 <= j < desired.len() ==> (#[trigger] desired[j])@ != name) ==> stale(
                listed,
                names(desired),
            ).contains(name)
        }),
{
    if 0 <= k < desired.len() {
        lemma_names(desired, desired[k]@);
        prune_spares_the_desired(listed, names(desired), desired[k]@);
    }
    if 0 <= i < listed.len() {
        let name = listed[i].any_name();
        lemma_names(desired, name);
        prune_spares_the_desired(listed, names(desired), name);
    }
}

/// A prune takes the resources in the order of the list, each as often as it is listed: `at` are the
/// places in the list of those that it deletes, one after the other.
pub proof fn prune_takes_the_listed_in_order(
    listed: Seq<ObjectMeta>,
    desired: Seq<String>,
) -> (at: Seq<int>)
    ensures
        at.len() == stale(listed, names(desired)).len(),
        forall|a: int, b: int| 0 <= a < b < at.len() ==> #[trigger] at[a] < #[trigger] at[b],
        forall|a: int|
            0 <= a < at.len() ==> 0 <= #[trigger] at[a] < listed.len() && stale(
                listed,
                names(desired),
            )[a] == listed[at[a]].any_name(),
        forall|i: int| #[trigger]
            at.contains(i) <==> 0 <= i < listed.len() && forall|j: int|
                0 <= j < desired.len() ==> (#[trigger] desired[j])@ != listed[i].any_name(),
    decreases listed.len(),
{
    if listed.len() == 0 {
        Seq::empty()
    } else {
        let last = listed.len() - 1;
        let rest = listed.drop_last();
        let before = prune_takes_the_listed_in_order(rest, desired);
        let name = listed[last].any_name();
        lemma_names(desired, name);
        assert forall|i: int| #[trigger] before.contains(i) implies i < last by {
            let a = before.index_of(i);
            assert(before[a] == i);
        }
        assert forall|i: int| 0 <= i < last implies (#[trigger] rest[i]) == listed[i] by {}
        if names(desired).contains(name) {
            assert forall|i: int| #[trigger] before.contains(i) <==> 0 <= i < listed.len()
                && forall|j: int|
                0 <= j < desired.len() ==> (#[trigger] desired[j])@ != listed[i].any_name() by {
                if 0 <= i < last {
                    assert(rest[i] == listed[i]);
                }
            }
            before
        } else {
            let at = before.push(last);
            assert forall|i: int| #[trigger] at.contains(i) <==> 0 <= i < listed.len() && forall|
                j: int,
            | 0 <= j < desired.len() ==> (#[trigger] desired[j])@ != listed[i].any_name() by {
                if at.contains(i) {
                    let a = at.index_of(i);
                    if a < before.len() {
                        assert(before[a] == i);
                        assert(before.contains(i));
                        assert(rest[i] == listed[i]);
                    }
                }
                if i == last {
                    assert(at[before.len() as int] == last);
                } else if 0 <= i < last {
                    assert(rest[i] == listed[i]);
                    if before.contains(i) {
                        let a = before.index_of(i);
                        assert(at[a] == i);
                    }
                }
            }
            at
        }
    }
}

/// Whether these are the steps of a prune, from the first one to its end.
pub open spec fn is_prune(
    listed: Seq<ObjectMeta>,
    desired: Seq<String>,
    steps: Seq<PruneStep>,
) -> bool {
    &&& steps.len() > 0
    &&& steps[0].queue() == stale(listed, names(desired))
    &&& forall|k: int| 0 <= k < steps.len() ==> (#[trigger] steps[k]).wf()
    &&& forall|k: int|
        0 < k < steps.len() ==> (#[trigger] steps[k]).queue() == steps[k - 1].queue().drop_first()
    &&& forall|k: int|
        0 <= k < steps.len() ==> ((#[trigger] steps[k]) is Finish <==> k == steps.len() - 1)
}

proof fn lemma_prune_queue(
    listed: Seq<ObjectMeta>,
    desired: Seq<String>,
    steps: Seq<PruneStep>,
    k: int,
)
    requires
        is_prune(listed, desired, steps),
        0 <= k < steps.len(),
    ensures
        steps[k].queue() == stale(listed, names(desired)).skip(k),
        k <= stale(listed, names(desired)).len(),
    decreases k,
{
    let all = stale(listed, names(desired));
    if k > 0 {
        lemma_prune_queue(listed, desired, steps, k - 1);
        assert(steps[k - 1].queue().len() > 0);
        assert(steps[k].queue() =~= all.skip(k));
    } else {
        assert(all =~= all.skip(0));
    }
}

/// A prune is over only when it came to every listed resource that is not desired, once for each
/// time that it is listed, and it never comes to a desired one: `at` are the places in the list of
/// those that its steps ask to delete.
pub proof fn prunes_end_only_when_every_stale_resource_had_its_turn(
    listed: Seq<ObjectMeta>,
    desired: Seq<String>,
    steps: Seq<PruneStep>,
) -> (at: Seq<int>)
    requires
        is_prune(listed, desired, steps),
    ensures
        at.len() == steps.len() - 1,
        forall|a: int, b: int| 0 <= a < b < at.len() ==> #[trigger] at[a] < #[trigger] at[b],
        forall|a: int|
            0 <= a < at.len() ==> 0 <= #[trigger] at[a] < listed.len() && steps[a] is Delete
                && steps[a]->Delete_0@[0] == listed[at[a]].any_name(),
        forall|i: int| #[trigger]
            at.contains(i) <==> 0 <= i < listed.len() && forall|j: int|
                0 <= j < desired.len() ==> (#[trigger] desired[j])@ != listed[i].any_name(),
{
    let all = stale(listed, names(desired));
    let m = steps.len() - 1;
    let at = prune_takes_the_listed_in_order(listed, desired);
    lemma_prune_queue(listed, desired, steps, m);
    assert(all.skip(m).len() == 0);
    assert forall|a: int| 0 <= a < at.len() implies 0 <= #[trigger] at[a] < listed.len()
        && steps[a] is Delete && steps[a]->Delete_0@[0] == listed[at[a]].any_name() by {
        lemma_prune_queue(listed, desired, steps, a);
        assert(!(steps[a] is Finish));
        assert(steps[a].queue()[0] == all[a]);
    }
    at
}

}
