use vstd::prelude::*;

verus! {

/// Shape parameters of a tree: the fan-out target of interior nodes, the
/// capacity of a leaf, and the dimension of the indexed points.
#[derive(Clone, Copy)]
pub struct Params {
    pub min_number_of_elements: usize,
    pub max_number_of_elements: usize,
    pub dimension: usize,
}

impl Params {
    pub open spec fn valid(min: usize, max: usize) -> bool {
        &&& min >= 1
        &&& max >= 1
        &&& min <= (max + 1) / 2
    }

    pub open spec fn well_formed(&self) -> bool {
        Self::valid(self.min_number_of_elements, self.max_number_of_elements)
    }

    /// Parameters with the given fan-out bounds, or `None` when a bound is zero
    /// or `min_number_of_elements` exceeds `(max_number_of_elements + 1) / 2`.
    pub fn new(min_number_of_elements: usize, max_number_of_elements: usize) -> (r: Option<
        Params,
    >)
        ensures
            r is Some <==> Self::valid(min_number_of_elements, max_number_of_elements),
            r matches Some(p) ==> p.min_number_of_elements == min_number_of_elements
                && p.max_number_of_elements == max_number_of_elements && p.dimension == 0,
    {
        if min_number_of_elements == 0 || max_number_of_elements == 0 {
            return None;
        }
        if min_number_of_elements > (max_number_of_elements - 1) / 2 + 1 {
            return None;
        }
        Some(Params { min_number_of_elements, max_number_of_elements, dimension: 0 })
    }

    /// The default shape: fan-out target 8, leaf capacity 20.
    pub fn default_params() -> (r: Params)
        ensures
            r.min_number_of_elements == 8,
            r.max_number_of_elements == 20,
            r.dimension == 0,
            r.well_formed(),
    {
        Params { min_number_of_elements: 8, max_number_of_elements: 20, dimension: 0 }
    }
}

} // verus!
