//! The compression distance primitive and the capability it is built on.

use vstd::prelude::*;

pub mod brotli;
pub mod wide;

use crate::compress::wide::Wide;

verus! {

/// The backend could not compress an input.
#[derive(Clone, Copy, Debug, PartialEq, Eq, Structural)]
pub struct CompressionFailure;

/// A normalized compression distance, held as the three sizes it is made of.
///
/// Its value is the rational `(combined - smaller) / larger`. It is kept exact:
/// nothing is rounded and nothing is clamped, so a value below zero or above one
/// stays visible. Where `larger` is zero the value is zero.
#[derive(Clone, Copy, Debug, PartialEq, Eq, Structural)]
pub struct Distance {
    /// The smaller compressed size of the two concatenations.
    pub combined: usize,
    /// The smaller of the two single compressed sizes.
    pub smaller: usize,
    /// The larger of the two single compressed sizes.
    pub larger: usize,
}

impl Distance {
    /// The numerator of the value.
    pub open spec fn numerator(self) -> int {
        if self.larger == 0 {
            0
        } else {
            self.combined - self.smaller
        }
    }

    /// The denominator of the value, always positive.
    pub open spec fn denominator(self) -> int {
        if self.larger == 0 {
            1
        } else {
            self.larger as int
        }
    }

    /// The distance that three compressed sizes give.
    pub fn of_sizes(combined: usize, size_a: usize, size_b: usize) -> (distance: Distance)
        ensures
            distance == distance_of(combined, size_a, size_b),
    {
        if size_a <= size_b {
            Distance { combined, smaller: size_a, larger: size_b }
        } else {
            Distance { combined, smaller: size_b, larger: size_a }
        }
    }

    /// Whether this distance and `other` together are at least `third`, as
    /// rationals: the comparison is made over the common denominator.
    pub open spec fn sum_reaches_spec(self, other: Distance, third: Distance) -> bool {
        self.numerator() * other.denominator() * third.denominator() + other.numerator()
            * self.denominator() * third.denominator() >= third.numerator() * self.denominator()
            * other.denominator()
    }

    /// The three sizes as words, with the sizes that give zero in place of a
    /// distance whose `larger` is zero.
    fn words(&self) -> (words: (u64, u64, u64))
        ensures
            words.0 - words.1 == self.numerator(),
            words.2 == self.denominator(),
    {
        if self.larger == 0 {
            (0, 0, 1)
        } else {
            (self.combined as u64, self.smaller as u64, self.larger as u64)
        }
    }

    /// Whether this distance and `other` together are at least `third`. The
    /// answer is exact whatever the sizes are.
    pub fn sum_reaches(&self, other: &Distance, third: &Distance) -> (reached: bool)
        ensures
            reached == self.sum_reaches_spec(*other, *third),
    {
        let (c1, s1, l1) = self.words();
        let (c2, s2, l2) = other.words();
        let (c3, s3, l3) = third.words();
        let gained = Wide::sum(
            Wide::product(c1, l2, l3),
            Wide::product(c2, l1, l3),
            Wide::product(s3, l1, l2),
        );
        let owed = Wide::sum(
            Wide::product(c3, l1, l2),
            Wide::product(s1, l2, l3),
            Wide::product(s2, l1, l3),
        );
        assert((c1 - s1) * l2 * l3 + (c2 - s2) * l1 * l3 - (c3 - s3) * l1 * l2 == (c1 * l2 * l3 + c2
            * l1 * l3 + s3 * l1 * l2) - (c3 * l1 * l2 + s1 * l2 * l3 + s2 * l1 * l3))
            by (nonlinear_arith);
        gained.at_least(&owed)
    }

    /// Whether the three distances between three pages obey the triangle
    /// inequality in each of its three forms.
    pub open spec fn triangle_holds(d_ab: Distance, d_ac: Distance, d_bc: Distance) -> bool {
        &&& d_ab.sum_reaches_spec(d_ac, d_bc)
        &&& d_ab.sum_reaches_spec(d_bc, d_ac)
        &&& d_ac.sum_reaches_spec(d_bc, d_ab)
    }

    /// Tests the triangle inequality on the three distances between three pages.
    pub fn obeys_triangle(d_ab: &Distance, d_ac: &Distance, d_bc: &Distance) -> (holds: bool)
        ensures
            holds == Self::triangle_holds(*d_ab, *d_ac, *d_bc),
    {
        d_ab.sum_reaches(d_ac, d_bc) && d_ab.sum_reaches(d_bc, d_ac) && d_ac.sum_reaches(d_bc, d_ab)
    }
}

/// The distance that three compressed sizes give: that of the two inputs
/// joined, and those of the inputs alone, of which the smaller is taken from the
/// joined size and the larger divides.
pub open spec fn distance_of(combined: usize, size_a: usize, size_b: usize) -> Distance {
    Distance {
        combined,
        smaller: if size_a <= size_b { size_a } else { size_b },
        larger: if size_a <= size_b { size_b } else { size_a },
    }
}

/// The distance that four compressed sizes give: those of the two inputs and
/// those of their concatenation in either order, of which the smaller counts.
pub open spec fn ncd(size_a: usize, size_b: usize, size_ab: usize, size_ba: usize) -> Distance {
    distance_of(if size_ab <= size_ba { size_ab } else { size_ba }, size_a, size_b)
}

/// The smaller of two sizes where both are known.
pub open spec fn smaller_size(
    first: Result<usize, CompressionFailure>,
    second: Result<usize, CompressionFailure>,
) -> Result<usize, CompressionFailure> {
    match (first, second) {
        (Ok(x), Ok(y)) => Ok(if x <= y { x } else { y }),
        _ => Err(CompressionFailure),
    }
}

/// The distance that the outcomes of four compressions give: a distance where
/// all four succeeded, a failure otherwise.
pub open spec fn distance_from(
    size_ab: Result<usize, CompressionFailure>,
    size_ba: Result<usize, CompressionFailure>,
    size_a: Result<usize, CompressionFailure>,
    size_b: Result<usize, CompressionFailure>,
) -> Result<Distance, CompressionFailure> {
    match (size_ab, size_ba, size_a, size_b) {
        (Ok(ab), Ok(ba), Ok(sa), Ok(sb)) => Ok(ncd(sa, sb, ab, ba)),
        _ => Err(CompressionFailure),
    }
}

/// A compressor under a fixed configuration.
///
/// An implementation says, by `compressed_size`, what size it gives to each text;
/// the distance is built from that alone.
pub trait Compressor: Sized {
    /// The size in bytes of the compressed form of `buf`, or the failure of the
    /// backend on it. Equal texts have equal sizes.
    spec fn compressed_size(&self, buf: Seq<char>) -> Result<usize, CompressionFailure>;

    /// Compresses `buf` and returns the size of the result.
    fn get_compressed_size(&self, buf: &str) -> (size: Result<usize, CompressionFailure>)
        ensures
            size == self.compressed_size(buf@),
    ;

    /// The compressed size of the two pages joined, in the order that compresses
    /// better.
    fn get_combined_length(&self, page_a: &str, page_b: &str) -> (length: Result<
        usize,
        CompressionFailure,
    >)
        ensures
            length == smaller_size(
                self.compressed_size(page_a@ + page_b@),
                self.compressed_size(page_b@ + page_a@),
            ),
    {
        let page_ab = page_a.to_owned().concat(page_b);
        let page_ba = page_b.to_owned().concat(page_a);
        match self.get_compressed_size(page_ab.as_str()) {
            Ok(length_combined_a_b) => match self.get_compressed_size(page_ba.as_str()) {
                Ok(length_combined_b_a) => Ok(
                    if length_combined_a_b <= length_combined_b_a {
                        length_combined_a_b
                    } else {
                        length_combined_b_a
                    },
                ),
                Err(failure) => Err(failure),
            },
            Err(failure) => Err(failure),
        }
    }

    /// The normalized compression distance between two pages.
    fn get_distance(&self, page_a: &str, page_b: &str) -> (distance: Result<
        Distance,
        CompressionFailure,
    >)
        ensures
            distance == distance_from(
                self.compressed_size(page_a@ + page_b@),
                self.compressed_size(page_b@ + page_a@),
                self.compressed_size(page_a@),
                self.compressed_size(page_b@),
            ),
    {
        let length_combined = self.get_combined_length(page_a, page_b);
        let a_compressed = self.get_compressed_size(page_a);
        let b_compressed = self.get_compressed_size(page_b);
        match (length_combined, a_compressed, b_compressed) {
            (Ok(combined), Ok(size_a), Ok(size_b)) => Ok(
                Distance::of_sizes(combined, size_a, size_b),
            ),
            _ => Err(CompressionFailure),
        }
    }
}

/// The distance between `a` and `b` under the compressor `c`.
pub open spec fn distance_spec<C: Compressor>(c: &C, a: Seq<char>, b: Seq<char>) -> Result<
    Distance,
    CompressionFailure,
> {
    distance_from(
        c.compressed_size(a + b),
        c.compressed_size(b + a),
        c.compressed_size(a),
        c.compressed_size(b),
    )
}

/// A distance always has a value: its denominator is positive whatever the
/// sizes are, and where the larger size is zero the value is zero.
pub proof fn distance_is_defined(distance: Distance)
    ensures
        distance.denominator() > 0,
        distance.larger == 0 ==> distance.numerator() == 0,
{
}

/// The distance does not depend on the order of its two arguments: whatever the
/// compressor, `a` against `b` gives exactly what `b` against `a` gives.
pub proof fn distance_is_symmetric<C: Compressor>(c: &C, a: Seq<char>, b: Seq<char>)
    ensures
        distance_spec(c, a, b) == distance_spec(c, b, a),
{
}

} // verus!
