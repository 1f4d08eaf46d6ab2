//! What the engine asks of a resource kind, and the one kind it ships with:
//! servers.

use vstd::prelude::*;
use vstd::string::StringSliceAdditionalSpecFns;
use vstd::utf8::encode_utf8;
use crate::error::Error;
use crate::keyed::{distinct_keys, entries_of, in_order, occurs_twice, ByName, Keyed};

verus! {

/// The description of a resource as its owner wants it.
pub trait ResourceSpec: PartialEq + core::fmt::Debug {
    /// The join key: the UTF-8 bytes of the name.
    spec fn key(&self) -> Seq<u8>;

    /// The kind of resource, the same for every value of the type.
    fn kind_name(&self) -> &'static str;

    /// The name by which wanted and actual resources are matched.
    fn id(&self) -> (r: &str)
        ensures
            r.spec_bytes() == self.key(),
    ;
}

/// A resource as the provider holds it: what was asked for, and what the
/// provider reports of it.
pub trait Resource {
    type Spec: ResourceSpec;

    type Output: Clone + PartialEq;

    /// The description this resource was made from.
    spec fn described(&self) -> Self::Spec;

    fn spec(&self) -> (r: &Self::Spec)
        ensures
            *r == self.described(),
    ;

    /// What the provider reports of this resource.
    spec fn observed(&self) -> Self::Output;

    fn output(&self) -> (r: &Self::Output)
        ensures
            *r == self.observed(),
    ;
}

/// The server a caller wants.
#[derive(Clone, Debug, PartialEq, Eq)]
pub struct ServerSpec {
    pub name: String,
    pub server_type: String,
}

/// What the provider reports of a server.
#[derive(Clone, Debug, PartialEq, Eq)]
pub struct ServerOutput {
    pub id: i64,
    pub status: String,
}

/// A server that exists.
#[derive(Clone, Debug, PartialEq, Eq)]
pub struct Server {
    pub spec: ServerSpec,
    pub output: ServerOutput,
}

impl ResourceSpec for ServerSpec {
    open spec fn key(&self) -> Seq<u8> {
        encode_utf8(self.name@)
    }

    fn kind_name(&self) -> (r: &'static str)
        ensures
            r@ == "server"@,
    {
        "server"
    }

    fn id(&self) -> (r: &str) {
        self.name.as_str()
    }
}

impl Resource for Server {
    type Spec = ServerSpec;

    type Output = ServerOutput;

    open spec fn described(&self) -> ServerSpec {
        self.spec
    }

    fn spec(&self) -> (r: &ServerSpec) {
        &self.spec
    }

    open spec fn observed(&self) -> ServerOutput {
        self.output
    }

    fn output(&self) -> (r: &ServerOutput) {
        &self.output
    }
}

/// Each description under its own key.
pub open spec fn spec_entries<S: ResourceSpec>(specs: Seq<S>) -> Seq<Keyed<S>> {
    Seq::new(specs.len(), |i: int| Keyed { key: specs[i].key(), item: specs[i] })
}

/// Each resource under the key of its description.
pub open spec fn resource_entries<R: Resource>(resources: Seq<R>) -> Seq<Keyed<R>> {
    Seq::new(resources.len(), |i: int| Keyed { key: resources[i].described().key(), item: resources[i] })
}

/// The wanted side of a diff: the descriptions in order of name.
pub fn specs_by_name<'a, S: ResourceSpec>(specs: &'a [S]) -> (r: Result<ByName<'a, S>, Error>)
    ensures
        r is Ok <==> distinct_keys(spec_entries(specs@)),
        match r {
            Ok(m) => m.wf() && m@ == in_order(spec_entries(specs@)) && m@.to_multiset()
                == spec_entries(specs@).to_multiset(),
            Err(Error::InvariantViolation { name }) => occurs_twice(
                spec_entries(specs@),
                encode_utf8(name@),
            ),
            Err(_) => false,
        },
{
    let mut pairs: Vec<(&'a str, &'a S)> = Vec::new();
    let mut i: usize = 0;
    while i < specs.len()
        invariant
            i <= specs@.len(),
            entries_of(pairs@) =~= spec_entries(specs@).take(i as int),
        decreases specs@.len() - i,
    {
        let s: &'a S = &specs[i];
        let ghost before = pairs@;
        pairs.push((s.id(), s));
        proof {
            let all = spec_entries(specs@);
            assert(entries_of(before).len() == before.len());
            assert forall|k: int| 0 <= k <= i implies entries_of(pairs@)[k] == all.take(i + 1)[k] by {
                if k < i {
                    assert(entries_of(before)[k] == all.take(i as int)[k]);
                }
            }
        }
        i += 1;
    }
    assert(spec_entries(specs@).take(i as int) =~= spec_entries(specs@));
    ByName::collect(&pairs)
}

/// The actual side of a diff: the resources in order of name.
pub fn resources_by_name<'a, R: Resource>(resources: &'a [R]) -> (r: Result<ByName<'a, R>, Error>)
    ensures
        r is Ok <==> distinct_keys(resource_entries(resources@)),
        match r {
            Ok(m) => m.wf() && m@ == in_order(resource_entries(resources@)) && m@.to_multiset()
                == resource_entries(resources@).to_multiset(),
            Err(Error::InvariantViolation { name }) => occurs_twice(
                resource_entries(resources@),
                encode_utf8(name@),
            ),
            Err(_) => false,
        },
{
    let mut pairs: Vec<(&'a str, &'a R)> = Vec::new();
    let mut i: usize = 0;
    while i < resources.len()
        invariant
            i <= resources@.len(),
            entries_of(pairs@) =~= resource_entries(resources@).take(i as int),
        decreases resources@.len() - i,
    {
        let x: &'a R = &resources[i];
        let ghost before = pairs@;
        pairs.push((x.spec().id(), x));
        proof {
            let all = resource_entries(resources@);
            assert(entries_of(before).len() == before.len());
            assert forall|k: int| 0 <= k <= i implies entries_of(pairs@)[k] == all.take(i + 1)[k] by {
                if k < i {
                    assert(entries_of(before)[k] == all.take(i as int)[k]);
                }
            }
        }
        i += 1;
    }
    assert(resource_entries(resources@).take(i as int) =~= resource_entries(resources@));
    ByName::collect(&pairs)
}

/// Servers in order of name.
pub fn servers_by_name<'a>(servers: &'a [Server]) -> (r: Result<ByName<'a, Server>, Error>)
    ensures
        r is Ok <==> distinct_keys(resource_entries(servers@)),
        match r {
            Ok(m) => m.wf() && m@ == in_order(resource_entries(servers@)) && m@.to_multiset()
                == resource_entries(servers@).to_multiset(),
            Err(Error::InvariantViolation { name }) => occurs_twice(
                resource_entries(servers@),
                encode_utf8(name@),
            ),
            Err(_) => false,
        },
{
    resources_by_name(servers)
}

} // verus!
