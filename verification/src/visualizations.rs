//! The registry of visualizations and the resolution of requested names.

use vstd::prelude::*;

use crate::text::str_eq;

verus! {

/// Registered visualization names, in registry order.
pub open spec fn registry_names() -> Seq<Seq<char>> {
    seq!["equalizer"@, "gol"@, "polar"@, "terrain"@]
}

/// Registry position of `name`, if it is registered.
pub open spec fn registry_index(name: Seq<char>) -> Option<nat> {
    if name == registry_names()[0] {
        Some(0)
    } else if name == registry_names()[1] {
        Some(1)
    } else if name == registry_names()[2] {
        Some(2)
    } else if name == registry_names()[3] {
        Some(3)
    } else {
        None
    }
}

/// Every registered name resolves to its own position in the registry, and
/// only registered names resolve: `registry_index(name)` is `Some(k)`
/// exactly when `name` is the `k`-th registered name. The registry holds the
/// equalizer, the Game of Life, the polar scope and the terrain, in that
/// order.
pub proof fn lemma_registry_lookup(name: Seq<char>, k: nat)
    ensures
        registry_index(name) == Some(k) <==> (k < registry_names().len() && registry_names()[k as int]
            == name),
        registry_names().len() == 4,
        registry_names()[0] == "equalizer"@,
        registry_names()[1] == "gol"@,
        registry_names()[2] == "polar"@,
        registry_names()[3] == "terrain"@,
{
    reveal_strlit("equalizer");
    reveal_strlit("gol");
    reveal_strlit("polar");
    reveal_strlit("terrain");
    let r = registry_names();
    assert(r[0] != r[1] && r[0] != r[2] && r[0] != r[3]) by {
        assert(r[0].len() != r[1].len());
        assert(r[0][0] != r[2][0]);
        assert(r[0][0] != r[3][0]);
    }
    assert(r[1] != r[2] && r[1] != r[3]) by {
        assert(r[1].len() != r[2].len());
        assert(r[1].len() != r[3].len());
    }
    assert(r[2] != r[3]) by {
        assert(r[2].len() != r[3].len());
    }
}

/// Names of all registered visualizations, in registry order.
pub fn available_names() -> (r: Vec<&'static str>)
    ensures
        r@.len() == registry_names().len(),
        forall|i: int| 0 <= i < r@.len() ==> #[trigger] r@[i]@ == registry_names()[i],
{
    let mut r: Vec<&'static str> = Vec::new();
    r.push("equalizer");
    r.push("gol");
    r.push("polar");
    r.push("terrain");
    r
}

fn lookup(name: &str) -> (r: Option<usize>)
    ensures
        r == (match registry_index(name@) {
            Some(k) => Some(k as usize),
            None => None,
        }),
{
    if str_eq(name, "equalizer") {
        Some(0)
    } else if str_eq(name, "gol") {
        Some(1)
    } else if str_eq(name, "polar") {
        Some(2)
    } else if str_eq(name, "terrain") {
        Some(3)
    } else {
        None
    }
}

/// Registry positions of the requested visualizations, in request order;
/// no names selects the whole registry. The first unknown name is the
/// error.
pub fn resolve_visualizations(names: &[String]) -> (r: Result<Vec<usize>, String>)
    ensures
        names@.len() == 0 ==> (r matches Ok(v) && v@ =~= seq![0usize, 1, 2, 3]),
        names@.len() > 0 ==> match r {
            Ok(v) => {
                &&& v@.len() == names@.len()
                &&& forall|i: int|
                    0 <= i < names@.len() ==> registry_index(#[trigger] names@[i]@) == Some(
                        v@[i] as nat,
                    )
                &&& forall|i: int|
                    #![trigger names@[i]]
                    #![trigger v@[i]]
                    0 <= i < names@.len() ==> (v@[i] as int) < registry_names().len()
                        && registry_names()[v@[i] as int] == names@[i]@
            },
            Err(e) => exists|i: int|
                0 <= i < names@.len() && registry_index(#[trigger] names@[i]@) is None && e@
                    == names@[i]@ && forall|j: int|
                    0 <= j < i ==> registry_index(#[trigger] names@[j]@) is Some,
        },
        r is Ok <==> forall|i: int|
            0 <= i < names@.len() ==> registry_index(#[trigger] names@[i]@) is Some,
{
    let mut v: Vec<usize> = Vec::new();
    if names.len() == 0 {
        v.push(0);
        v.push(1);
        v.push(2);
        v.push(3);
        return Ok(v);
    }
    let mut i: usize = 0;
    while i < names.len()
        invariant
            i <= names@.len(),
            v@.len() == i,
            forall|j: int|
                0 <= j < i ==> registry_index(#[trigger] names@[j]@) == Some(v@[j] as nat),
        decreases names@.len() - i,
    {
        match lookup(names[i].as_str()) {
            Some(k) => v.push(k),
            None => {
                let e = names[i].clone();
                proof {
                    assert(registry_index(names@[i as int]@) is None);
                }
                return Err(e);
            },
        }
        i = i + 1;
    }
    proof {
        assert forall|j: int|
            #![trigger names@[j]]
            #![trigger v@[j]]
            0 <= j < names@.len() implies (v@[j] as int) < registry_names().len()
                && registry_names()[v@[j] as int] == names@[j]@ by {
            lemma_registry_lookup(names@[j]@, v@[j] as nat);
        }
    }
    Ok(v)
}

} // verus!
