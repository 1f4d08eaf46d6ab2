//! One pass: from the wanted and the fetched resources to a plan, and from
//! the plan, one provider operation at a time, to the resources that exist
//! when it is done.

use vstd::prelude::*;
use vstd::string::StringSliceAdditionalSpecFns;
use vstd::utf8::encode_utf8;
use crate::diff::{added, diff, item_pairs, items, matched, pair_referents, referents, removed, Diff};
use crate::error::Error;
use crate::keyed::{distinct_keys, in_order, occurs_twice, ordering_of};
use crate::resource::{resource_entries, resources_by_name, spec_entries, specs_by_name, Resource, ResourceSpec};

verus! {

/// Plans a pass: orders both sides by name and sorts every resource into
/// what to create, what to destroy and what to keep in step. A name that
/// stands twice on one side is reported, the wanted side first.
pub fn reconcile<'a, S: ResourceSpec, R: Resource>(wanted: &'a [S], actual: &'a [R]) -> (r: Result<
    Diff<'a, S, R>,
    Error,
>)
    ensures
        r is Ok <==> distinct_keys(spec_entries(wanted@)) && distinct_keys(
            resource_entries(actual@),
        ),
        match r {
            Ok(d) => {
                let w = in_order(spec_entries(wanted@));
                let a = in_order(resource_entries(actual@));
                &&& ordering_of(w, spec_entries(wanted@))
                &&& ordering_of(a, resource_entries(actual@))
                &&& referents(d.to_add@) == items(added(w, a))
                &&& referents(d.to_remove@) == items(removed(w, a))
                &&& pair_referents(d.to_sync@) == item_pairs(matched(w, a))
            },
            Err(Error::InvariantViolation { name }) => if distinct_keys(spec_entries(wanted@)) {
                occurs_twice(resource_entries(actual@), encode_utf8(name@))
            } else {
                occurs_twice(spec_entries(wanted@), encode_utf8(name@))
            },
            Err(_) => false,
        },
{
    match specs_by_name(wanted) {
        Err(e) => Err(e),
        Ok(w) => match resources_by_name(actual) {
            Err(e) => Err(e),
            Ok(a) => {
                let d = diff(&w, &a);
                Ok(d)
            },
        },
    }
}

/// A provider operation that a pass asks for.
pub enum Op<'a, S, R> {
    /// Create what this description asks for.
    Create(&'a S),
    /// Destroy this resource.
    Destroy(&'a R),
    /// Bring this resource in step with this description.
    Sync(&'a S, &'a R),
}

/// The number of operations that a plan holds.
pub open spec fn op_count<'a, S, R>(plan: Diff<'a, S, R>) -> nat {
    plan.to_add@.len() + plan.to_remove@.len() + plan.to_sync@.len()
}

/// The operation at place `p` of a plan: first what is to be created, then
/// what is to be destroyed, then what is to be kept in step.
pub open spec fn op_at<'a, S, R>(plan: Diff<'a, S, R>, p: nat) -> Op<'a, S, R>
    recommends
        p < op_count(plan),
{
    let n = plan.to_add@.len();
    let m = plan.to_remove@.len();
    if p < n {
        Op::Create(plan.to_add@[p as int])
    } else if p < n + m {
        Op::Destroy(plan.to_remove@[p - n])
    } else {
        Op::Sync(plan.to_sync@[p - n - m].0, plan.to_sync@[p - n - m].1)
    }
}

/// What an operation adds to the resources that exist, given what the
/// provider reported of it. A destroy adds nothing.
pub open spec fn left_by<'a, S, R>(op: Op<'a, S, R>, produced: Option<R>) -> Seq<R> {
    match (op, produced) {
        (Op::Destroy(_), _) => Seq::empty(),
        (_, Some(r)) => seq![r],
        (_, None) => Seq::empty(),
    }
}

/// `e` reports that `op` failed for `cause`, and names the resource.
pub open spec fn reports<'a, S: ResourceSpec, R: Resource>(
    e: Error,
    op: Op<'a, S, R>,
    cause: String,
) -> bool {
    match (op, e) {
        (Op::Create(s), Error::Create { name, cause: c }) => c == cause && encode_utf8(name@)
            == s.key(),
        (Op::Destroy(r), Error::Destroy { name, cause: c }) => c == cause && encode_utf8(name@)
            == r.described().key(),
        (Op::Sync(s, _), Error::Sync { name, cause: c }) => c == cause && encode_utf8(name@)
            == s.key(),
        _ => false,
    }
}

/// A pass that is applying its plan and has an operation outstanding.
pub struct Pass<'a, S, R> {
    plan: Diff<'a, S, R>,
    created: usize,
    destroyed: usize,
    synced: usize,
    present: Vec<R>,
}

/// Where a pass stands.
pub enum PassStep<'a, S, R> {
    /// An operation is to be carried out.
    Apply(Pass<'a, S, R>),
    /// Every operation succeeded: the resources that now exist.
    Done(Vec<R>),
    /// An operation failed. What was done before it stays done; nothing
    /// more is asked for.
    Failed(Error),
}

impl<'a, S: ResourceSpec, R: Resource> Pass<'a, S, R> {
    /// The plan that is being applied.
    pub closed spec fn plan(&self) -> Diff<'a, S, R> {
        self.plan
    }

    /// The number of operations that have succeeded.
    pub closed spec fn position(&self) -> nat {
        (self.created + self.destroyed + self.synced) as nat
    }

    /// The resources that the operations so far have left, in their order.
    pub closed spec fn present(&self) -> Seq<R> {
        self.present@
    }

    /// The operations are taken in order, and one is outstanding.
    pub closed spec fn wf(&self) -> bool {
        &&& self.created <= self.plan.to_add@.len()
        &&& self.destroyed <= self.plan.to_remove@.len()
        &&& self.synced <= self.plan.to_sync@.len()
        &&& (self.destroyed > 0 || self.synced > 0) ==> self.created == self.plan.to_add@.len()
        &&& self.synced > 0 ==> self.destroyed == self.plan.to_remove@.len()
        &&& self.position() < op_count(self.plan)
    }

    /// Starts to apply a plan. An empty plan is done at once.
    pub fn begin(plan: Diff<'a, S, R>) -> (step: PassStep<'a, S, R>)
        ensures
            op_count(plan) == 0 ==> (step matches PassStep::Done(v) && v@ == Seq::<R>::empty()),
            op_count(plan) > 0 ==> (step matches PassStep::Apply(p) && p.wf() && p.plan() == plan
                && p.position() == 0 && p.present() == Seq::<R>::empty()),
    {
        if plan.to_add.len() == 0 && plan.to_remove.len() == 0 && plan.to_sync.len() == 0 {
            PassStep::Done(Vec::new())
        } else {
            PassStep::Apply(Pass { plan, created: 0, destroyed: 0, synced: 0, present: Vec::new() })
        }
    }

    /// The operation to carry out now.
    pub fn op(&self) -> (o: Op<'a, S, R>)
        requires
            self.wf(),
        ensures
            o == op_at(self.plan(), self.position()),
    {
        if self.created < self.plan.to_add.len() {
            Op::Create(self.plan.to_add[self.created])
        } else if self.destroyed < self.plan.to_remove.len() {
            Op::Destroy(self.plan.to_remove[self.destroyed])
        } else {
            let pair = self.plan.to_sync[self.synced];
            Op::Sync(pair.0, pair.1)
        }
    }

    /// Takes the outcome of the operation that `op` gave: what the provider
    /// reports to exist after it, or why it failed. A failure ends the pass
    /// and names the operation and the resource; a success moves on to the
    /// next operation, or ends the pass with all that now exists.
    pub fn advance(self, outcome: Result<Option<R>, String>) -> (step: PassStep<'a, S, R>)
        requires
            self.wf(),
        ensures
            match outcome {
                Err(cause) => step matches PassStep::Failed(e) && reports(
                    e,
                    op_at(self.plan(), self.position()),
                    cause,
                ),
                Ok(produced) => if self.position() + 1 < op_count(self.plan()) {
                    step matches PassStep::Apply(p) && p.wf() && p.plan() == self.plan()
                        && p.position() == self.position() + 1 && p.present() == self.present()
                        + left_by(op_at(self.plan(), self.position()), produced)
                } else {
                    step matches PassStep::Done(v) && v@ == self.present() + left_by(
                        op_at(self.plan(), self.position()),
                        produced,
                    )
                },
            },
    {
        let op = self.op();
        match outcome {
            Err(cause) => {
                let e = match op {
                    Op::Create(s) => Error::Create { name: s.id().to_owned(), cause },
                    Op::Destroy(r) => Error::Destroy { name: r.spec().id().to_owned(), cause },
                    Op::Sync(s, _) => Error::Sync { name: s.id().to_owned(), cause },
                };
                PassStep::Failed(e)
            },
            Ok(produced) => {
                let Pass { plan, created, destroyed, synced, present } = self;
                let mut present = present;
                let mut created = created;
                let mut destroyed = destroyed;
                let mut synced = synced;
                let ghost before = present@;
                if created < plan.to_add.len() {
                    created = created + 1;
                } else if destroyed < plan.to_remove.len() {
                    destroyed = destroyed + 1;
                } else {
                    let pairs: usize = plan.to_sync.len();
                    assert(synced < pairs);
                    synced = synced + 1;
                }
                match (op, produced) {
                    (Op::Destroy(_), _) => {},
                    (_, Some(r)) => {
                        present.push(r);
                    },
                    (_, None) => {},
                }
                assert(present@ =~= before + left_by(op, produced));
                if created < plan.to_add.len() || destroyed < plan.to_remove.len() || synced
                    < plan.to_sync.len() {
                    PassStep::Apply(Pass { plan, created, destroyed, synced, present })
                } else {
                    PassStep::Done(present)
                }
            },
        }
    }
}

} // verus!
