use vstd::prelude::*;

verus! {

/// Result of a three-way comparison between two keys.
pub enum Cmp {
    Less,
    Equal,
    Greater,
}

/// A key type with a strict total order, given by an embedding of the keys
/// into the mathematical integers.
///
/// `ord` is the spec-level position of a key in the order and `cmp_keys` is
/// the executable comparison. The contract of `cmp_keys` ties the two
/// together: a verified implementation must order its keys exactly as their
/// `ord` images are ordered, so two distinct keys can never share an image.
pub trait TotalOrder: Sized + Copy {
    /// The position of this key in the total order.
    spec fn ord(self) -> int;

    /// Decide how `self` stands to `other` in the total order.
    fn cmp_keys(&self, other: &Self) -> (c: Cmp)
        ensures
            c is Less ==> self.ord() < other.ord(),
            c is Equal ==> *self == *other,
            c is Greater ==> self.ord() > other.ord(),
    ;
}

impl TotalOrder for i32 {
    open spec fn ord(self) -> int {
        self as int
    }

    fn cmp_keys(&self, other: &Self) -> (c: Cmp) {
        if *self < *other {
            Cmp::Less
        } else if *self == *other {
            Cmp::Equal
        } else {
            Cmp::Greater
        }
    }
}

impl TotalOrder for u64 {
    open spec fn ord(self) -> int {
        self as int
    }

    fn cmp_keys(&self, other: &Self) -> (c: Cmp) {
        if *self < *other {
            Cmp::Less
        } else if *self == *other {
            Cmp::Equal
        } else {
            Cmp::Greater
        }
    }
}

impl TotalOrder for usize {
    open spec fn ord(self) -> int {
        self as int
    }

    fn cmp_keys(&self, other: &Self) -> (c: Cmp) {
        if *self < *other {
            Cmp::Less
        } else if *self == *other {
            Cmp::Equal
        } else {
            Cmp::Greater
        }
    }
}

/// Three-way comparison of two characters by code point.
fn cmp_chars(x: &char, y: &char) -> (c: Cmp)
    ensures
        c is Less ==> (*x as int) < (*y as int),
        c is Equal ==> *x == *y,
        c is Greater ==> (*x as int) > (*y as int),
{
    let a = *x as u32;
    let b = *y as u32;
    proof {
        assert(*x as int == a as int);
        assert(*y as int == b as int);
    }
    if a < b {
        Cmp::Less
    } else if a == b {
        proof {
            assert(*x == *y);
        }
        Cmp::Equal
    } else {
        Cmp::Greater
    }
}

impl TotalOrder for char {
    open spec fn ord(self) -> int {
        self as int
    }

    fn cmp_keys(&self, other: &Self) -> (c: Cmp) {
        cmp_chars(self, other)
    }
}

} // verus!
