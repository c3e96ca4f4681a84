//! Decoding the components of a fixed-dimension vector from a sequence
//! of values.

use vstd::prelude::*;

verus! {

/// Why a sequence of values is no vector.
#[derive(Debug, Clone, Copy, PartialEq, Eq, Structural)]
pub enum DecodeError {
    /// The sequence ended before the vector was full; the value is the
    /// number of components that a vector needs.
    InvalidLength(usize),
}

/// The components of a vector of dimension `dim` read from `items`: the
/// first `dim` of them, or an error where there are fewer.
pub fn visit_seq<T: Copy>(items: &[T], dim: usize) -> (components: Result<Vec<T>, DecodeError>)
    ensures
        items@.len() >= dim ==> components.is_ok() && components.unwrap()@ == items@.take(
            dim as int,
        ),
        items@.len() < dim ==> components == Err::<Vec<T>, DecodeError>(
            DecodeError::InvalidLength(dim),
        ),
{
    if items.len() < dim {
        return Err(DecodeError::InvalidLength(dim));
    }
    let mut components: Vec<T> = Vec::new();
    let mut i: usize = 0;
    while i < dim
        invariant
            i <= dim <= items@.len(),
            components@ == items@.take(i as int),
        decreases dim - i,
    {
        components.push(items[i]);
        proof {
            assert(components@ =~= items@.take(i + 1));
        }
        i += 1;
    }
    Ok(components)
}

} // verus!
