//! Which services a server shows: those that reflection lists, and those
//! that the health check reports on.

use vstd::prelude::*;
use vstd::string::*;
use crate::lexical::same_str;
use crate::str_map::names_of;

verus! {

/// One service registered with a server.
#[derive(Clone, Debug, Default)]
pub struct Registration {
    /// The fully-qualified name of the service.
    pub service_fqn: String,
    /// Whether reflection lists the service.
    pub reflect: bool,
    /// Whether the health check reports on the service.
    pub health: bool,
}

/// The name of the reflection service.
pub open spec fn reflection_service() -> Seq<char> {
    "grpc.reflection.v1alpha.ServerReflection"@
}

/// The name of the health service.
pub open spec fn health_service() -> Seq<char> {
    "grpc.health.v1.Health"@
}

/// One of `registered` has the name `name` and is to be listed by
/// reflection.
pub open spec fn registered_for_reflection(registered: Seq<Registration>, name: Seq<char>) -> bool {
    exists|i: int|
        0 <= i < registered.len() && (#[trigger] registered[i]).reflect && registered[i].service_fqn@
            == name
}

/// Reflection lists the service `name`: one registered for it, the
/// reflection service itself, or the health service where the server has
/// one.
pub open spec fn is_reflected(registered: Seq<Registration>, health: bool, name: Seq<char>) -> bool {
    ||| registered_for_reflection(registered, name)
    ||| name == reflection_service()
    ||| (health && name == health_service())
}

/// Those of `names` that reflection lists, in their order.
pub open spec fn reflected(names: Seq<Seq<char>>, registered: Seq<Registration>, health: bool) -> Seq<
    Seq<char>,
>
    decreases names.len(),
{
    if names.len() == 0 {
        Seq::empty()
    } else if is_reflected(registered, health, names.last()) {
        reflected(names.drop_last(), registered, health).push(names.last())
    } else {
        reflected(names.drop_last(), registered, health)
    }
}

/// Whether one of `registered` has the name `name` and is to be listed by
/// reflection.
fn is_registered_for_reflection(registered: &Vec<Registration>, name: &str) -> (r: bool)
    ensures
        r == registered_for_reflection(registered@, name@),
{
    let mut i: usize = 0;
    while i < registered.len()
        invariant
            i <= registered@.len(),
            forall|j: int|
                0 <= j < i ==> !((#[trigger] registered@[j]).reflect && registered@[j].service_fqn@
                    == name@),
        decreases registered@.len() - i,
    {
        if registered[i].reflect && same_str(registered[i].service_fqn.as_str(), name) {
            return true;
        }
        i = i + 1;
    }
    false
}

/// The services that reflection lists: those of `available`, in their order,
/// that are registered for reflection or are the reflection service or, where
/// `health` says that the server has one, the health service.
pub fn reflected_services(
    available: &Vec<String>,
    registered: &Vec<Registration>,
    health: bool,
) -> (services: Vec<String>)
    ensures
        names_of(services@) == reflected(names_of(available@), registered@, health),
{
    let mut services: Vec<String> = Vec::new();
    let mut i: usize = 0;
    while i < available.len()
        invariant
            i <= available@.len(),
            names_of(services@) == reflected(
                names_of(available@).take(i as int),
                registered@,
                health,
            ),
        decreases available@.len() - i,
    {
        let name = available[i].as_str();
        let listed = is_registered_for_reflection(registered, name) || same_str(
            name,
            "grpc.reflection.v1alpha.ServerReflection",
        ) || (health && same_str(name, "grpc.health.v1.Health"));
        let ghost before = names_of(services@);
        proof {
            let next = names_of(available@).take(i + 1);
            assert(next.drop_last() =~= names_of(available@).take(i as int));
            assert(next.last() == name@);
        }
        if listed {
            services.push(available[i].clone());
            assert(names_of(services@) =~= before.push(name@));
        }
        i = i + 1;
    }
    assert(names_of(available@).take(available@.len() as int) =~= names_of(available@));
    services
}

/// The names of those of `registered` that the health check reports on, in
/// their order.
pub open spec fn with_health(registered: Seq<Registration>) -> Seq<Seq<char>>
    decreases registered.len(),
{
    if registered.len() == 0 {
        Seq::empty()
    } else if registered.last().health {
        with_health(registered.drop_last()).push(registered.last().service_fqn@)
    } else {
        with_health(registered.drop_last())
    }
}

/// What the health check reports on.
pub open spec fn health_names(registered: Seq<Registration>, reflection: bool) -> Seq<Seq<char>> {
    let own = with_health(registered);
    let builtin = if reflection {
        own.push("grpc.reflection.v1alpha"@)
    } else {
        own
    };
    builtin.push(Seq::<char>::empty())
}

/// The services that the health check reports on: those registered for it,
/// in their order, then the reflection package where the server has
/// reflection, then the empty name, which stands for the server as a whole.
pub fn services_with_health(registered: &Vec<Registration>, reflection: bool) -> (services: Vec<
    String,
>)
    ensures
        names_of(services@) == health_names(registered@, reflection),
{
    let mut services: Vec<String> = Vec::new();
    let mut i: usize = 0;
    while i < registered.len()
        invariant
            i <= registered@.len(),
            names_of(services@) == with_health(registered@.take(i as int)),
        decreases registered@.len() - i,
    {
        let ghost before = names_of(services@);
        proof {
            let next = registered@.take(i + 1);
            assert(next.drop_last() =~= registered@.take(i as int));
            assert(next.last() == registered@[i as int]);
        }
        if registered[i].health {
            services.push(registered[i].service_fqn.clone());
            assert(names_of(services@) =~= before.push(registered@[i as int].service_fqn@));
        }
        i = i + 1;
    }
    assert(registered@.take(registered@.len() as int) =~= registered@);
    let ghost own = names_of(services@);
    if reflection {
        services.push(String::from_str("grpc.reflection.v1alpha"));
        assert(names_of(services@) =~= own.push("grpc.reflection.v1alpha"@));
    }
    let ghost builtin = names_of(services@);
    proof {
        reveal_strlit("");
        assert(""@ =~= Seq::<char>::empty());
    }
    services.push(String::from_str(""));
    assert(names_of(services@) =~= builtin.push(Seq::<char>::empty()));
    services
}

} // verus!
