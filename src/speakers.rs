//! The line that names the speakers of an event: "A, B and C".
use vstd::prelude::*;

verus! {

/// One piece of a speaker line.
#[derive(Clone, Copy, Debug, PartialEq, Eq, Structural)]
pub enum BylinePart {
    /// The speaker at this index.
    Name(usize),
    /// The separator between two speakers.
    Comma,
    /// The separator before the last speaker.
    And,
}

/// The `i`-th piece of the line for `count` speakers: names at even places, separators
/// between them, the last of which is "and".
pub open spec fn byline_part(i: int, count: int) -> BylinePart {
    if i % 2 == 0 {
        BylinePart::Name((i / 2) as usize)
    } else if i == 2 * count - 3 {
        BylinePart::And
    } else {
        BylinePart::Comma
    }
}

/// The pieces of the line for `count` speakers, in order.
pub fn byline(count: usize) -> (r: Vec<BylinePart>)
    requires
        count <= usize::MAX / 2,
    ensures
        r@.len() == if count == 0 {
            0
        } else {
            2 * count - 1
        },
        forall|i: int| 0 <= i < r@.len() ==> #[trigger] r@[i] == byline_part(i, count as int),
{
    let mut r: Vec<BylinePart> = Vec::new();
    let mut k: usize = 0;
    while k < count
        invariant
            k <= count,
            count <= usize::MAX / 2,
            r@.len() == if k == 0 {
                0
            } else {
                2 * k - 1
            },
            forall|i: int| 0 <= i < r@.len() ==> #[trigger] r@[i] == byline_part(i, count as int),
        decreases count - k,
    {
        if k > 0 {
            let separator = if k == count - 1 {
                BylinePart::And
            } else {
                BylinePart::Comma
            };
            r.push(separator);
        }
        r.push(BylinePart::Name(k));
        k = k + 1;
    }
    r
}

} // verus!
