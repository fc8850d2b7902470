//! Material kinds, and the choice of which primitives emit and which
//! obstruct.
use vstd::prelude::*;

verus! {

/// Which of the five materials a primitive carries, without its
/// coefficients: all that deciding which primitives emit needs.
#[derive(Clone, Copy, Debug, PartialEq, Eq, Structural)]
pub enum MaterialKind {
    Lambertian,
    Metal,
    Glass,
    Texture,
    Light,
}

impl MaterialKind {
    pub fn is_light(&self) -> (r: bool)
        ensures
            r == (*self is Light),
    {
        match self {
            MaterialKind::Light => true,
            _ => false,
        }
    }
}

/// Indices, in order, of the first `n` kinds that are lights (`light`) or
/// are not (`!light`).
pub open spec fn indices_where(kinds: Seq<MaterialKind>, light: bool, n: int) -> Seq<usize>
    decreases n,
{
    if n <= 0 {
        Seq::empty()
    } else if (kinds[n - 1] is Light) == light {
        indices_where(kinds, light, n - 1).push((n - 1) as usize)
    } else {
        indices_where(kinds, light, n - 1)
    }
}

fn select(kinds: &Vec<MaterialKind>, light: bool) -> (r: Vec<usize>)
    ensures
        r@ == indices_where(kinds@, light, kinds@.len() as int),
{
    let mut r: Vec<usize> = Vec::new();
    let mut i: usize = 0;
    while i < kinds.len()
        invariant
            i <= kinds@.len(),
            r@ == indices_where(kinds@, light, i as int),
        decreases kinds@.len() - i,
    {
        if kinds[i].is_light() == light {
            r.push(i);
        }
        i = i + 1;
    }
    r
}

/// The primitives that emit: indices of the lights among `kinds`, in scene order.
pub fn find_lights(kinds: &Vec<MaterialKind>) -> (r: Vec<usize>)
    ensures
        r@ == indices_where(kinds@, true, kinds@.len() as int),
{
    select(kinds, true)
}

/// The primitives that obstruct signal rays: indices of the non-lights among
/// `kinds`, in scene order.
pub fn find_obstructions(kinds: &Vec<MaterialKind>) -> (r: Vec<usize>)
    ensures
        r@ == indices_where(kinds@, false, kinds@.len() as int),
{
    select(kinds, false)
}

} // verus!
