//! The one-line description of a tensor's shape, such as
//! `Tensor(dim=3, rank=2, ↑, ↓)`.
use vstd::prelude::*;
use vstd::string::StringExecFns;
use crate::tensor::{IndexType, Tensor};

verus! {

/// The decimal digit `d` (below ten) as text.
pub open spec fn digit_text(d: nat) -> Seq<char> {
    if d == 0 {
        "0"@
    } else if d == 1 {
        "1"@
    } else if d == 2 {
        "2"@
    } else if d == 3 {
        "3"@
    } else if d == 4 {
        "4"@
    } else if d == 5 {
        "5"@
    } else if d == 6 {
        "6"@
    } else if d == 7 {
        "7"@
    } else if d == 8 {
        "8"@
    } else {
        "9"@
    }
}

/// `n` written in decimal, without leading zeros.
pub open spec fn decimal_text(n: nat) -> Seq<char>
    decreases n,
{
    if n < 10 {
        digit_text(n)
    } else {
        decimal_text(n / 10) + digit_text(n % 10)
    }
}

/// The arrow that marks an index: ↑ for contravariant, ↓ for covariant.
pub open spec fn arrow_text(t: IndexType) -> Seq<char> {
    match t {
        IndexType::Contravariant => "↑"@,
        IndexType::Covariant => "↓"@,
    }
}

/// The arrows of all indices in order, separated by ", ".
pub open spec fn arrows_text(types: Seq<IndexType>) -> Seq<char>
    decreases types.len(),
{
    if types.len() == 0 {
        Seq::empty()
    } else if types.len() == 1 {
        arrow_text(types[0])
    } else {
        arrows_text(types.drop_last()) + ", "@ + arrow_text(types.last())
    }
}

/// The description `Tensor(dim=<dim>, rank=<rank>, <arrows>)`.
pub open spec fn tensor_text(dim: nat, types: Seq<IndexType>) -> Seq<char> {
    "Tensor(dim="@ + decimal_text(dim) + ", rank="@ + decimal_text(types.len()) + ", "@
        + arrows_text(types) + ")"@
}

/// The digit `d` as a string.
fn digit_str(d: usize) -> (s: &'static str)
    requires
        d < 10,
    ensures
        s@ == digit_text(d as nat),
{
    if d == 0 {
        "0"
    } else if d == 1 {
        "1"
    } else if d == 2 {
        "2"
    } else if d == 3 {
        "3"
    } else if d == 4 {
        "4"
    } else if d == 5 {
        "5"
    } else if d == 6 {
        "6"
    } else if d == 7 {
        "7"
    } else if d == 8 {
        "8"
    } else {
        "9"
    }
}

/// Appends `n` in decimal.
fn push_decimal(s: &mut String, n: usize)
    ensures
        final(s)@ == old(s)@ + decimal_text(n as nat),
    decreases n,
{
    if n >= 10 {
        push_decimal(s, n / 10);
    }
    s.append(digit_str(n % 10));
    assert(final(s)@ =~= old(s)@ + decimal_text(n as nat)) by {
        if n >= 10 {
            assert(decimal_text(n as nat) == decimal_text((n / 10) as nat) + digit_text(
                (n % 10) as nat,
            ));
        }
    }
}

impl<T: Copy> Tensor<T> {
    /// The description of this tensor's shape: its dimension, its rank and
    /// an arrow for each index.
    pub fn to_string(&self) -> (s: String)
        ensures
            s@ == tensor_text(self.dim as nat, self.index_types@),
    {
        let mut s = String::new();
        s.append("Tensor(dim=");
        push_decimal(&mut s, self.dim);
        s.append(", rank=");
        push_decimal(&mut s, self.index_types.len());
        s.append(", ");
        let mut i: usize = 0;
        while i < self.index_types.len()
            invariant
                i <= self.index_types@.len(),
                s@ == "Tensor(dim="@ + decimal_text(self.dim as nat) + ", rank="@ + decimal_text(
                    self.index_types@.len(),
                ) + ", "@ + arrows_text(self.index_types@.take(i as int)),
            decreases self.index_types@.len() - i,
        {
            if i > 0 {
                s.append(", ");
            }
            let arrow = match self.index_types[i] {
                IndexType::Contravariant => "↑",
                IndexType::Covariant => "↓",
            };
            s.append(arrow);
            proof {
                let next = self.index_types@.take(i + 1);
                assert(next.drop_last() =~= self.index_types@.take(i as int));
                assert(next.last() == self.index_types@[i as int]);
            }
            i = i + 1;
        }
        s.append(")");
        assert(self.index_types@.take(self.index_types@.len() as int) =~= self.index_types@);
        s
    }
}

} // verus!
