use vstd::prelude::*;
use vstd::string::*;
use vstd::utf8::*;

verus! {

/// Follows one random continuation at every bounce.
#[derive(Clone, Copy, Debug, PartialEq, Eq, Structural)]
pub struct RandomWalkIntegrator;

/// Samples a light at every bounce.
#[derive(Clone, Copy, Debug, PartialEq, Eq, Structural)]
pub struct SimplePathIntegrator;

/// The light transport algorithm.
#[derive(Clone, Copy, Debug, PartialEq, Eq, Structural)]
pub enum Integrator {
    RandomWalk(RandomWalkIntegrator),
    SimplePath(SimplePathIntegrator),
}

/// The name given matches no integrator.
#[derive(Clone, Copy, Debug, PartialEq, Eq, Structural)]
pub enum IntegratorError {
    UnknownKind,
}

/// Whether two strings hold the same characters.
fn str_eq(a: &str, b: &str) -> (r: bool)
    ensures
        r == (a@ == b@),
{
    let x = a.as_bytes();
    let y = b.as_bytes();
    proof {
        encode_utf8_decode_utf8(a@);
        encode_utf8_decode_utf8(b@);
    }
    if x.len() != y.len() {
        return false;
    }
    let mut i: usize = 0;
    while i < x.len()
        invariant
            x@ == a.spec_bytes(),
            y@ == b.spec_bytes(),
            x@.len() == y@.len(),
            i <= x@.len(),
            forall|j: int| 0 <= j < i ==> x@[j] == y@[j],
        decreases x@.len() - i,
    {
        if x[i] != y[i] {
            return false;
        }
        i += 1;
    }
    assert(x@ =~= y@);
    true
}

impl Integrator {
    /// The integrator named `kind`: "random-walk" or "simple-path".
    pub fn new(kind: &str) -> (r: Result<Self, IntegratorError>)
        ensures
            kind@ == "random-walk"@ ==> r == Ok::<Integrator, IntegratorError>(
                Integrator::RandomWalk(RandomWalkIntegrator),
            ),
            kind@ == "simple-path"@ ==> r == Ok::<Integrator, IntegratorError>(
                Integrator::SimplePath(SimplePathIntegrator),
            ),
            kind@ != "random-walk"@ && kind@ != "simple-path"@ ==> r == Err::<
                Integrator,
                IntegratorError,
            >(IntegratorError::UnknownKind),
    {
        proof {
            reveal_strlit("random-walk");
            reveal_strlit("simple-path");
            assert("random-walk"@[0] != "simple-path"@[0]);
        }
        if str_eq(kind, "random-walk") {
            Ok(Integrator::RandomWalk(RandomWalkIntegrator))
        } else if str_eq(kind, "simple-path") {
            Ok(Integrator::SimplePath(SimplePathIntegrator))
        } else {
            Err(IntegratorError::UnknownKind)
        }
    }
}

} // verus!
