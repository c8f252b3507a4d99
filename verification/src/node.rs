//! A named record with a size and a count, set by chained builder calls, and
//! a multiplication of signed numbers that only accepts non-negative products.
use vstd::prelude::*;
use crate::text::{decimal, push_decimal, push_str};

verus! {

pub struct Node {
    pub name: String,
    pub size: u32,
    pub count: u32,
}

#[derive(Debug, PartialEq, Eq, Structural)]
pub enum MulErr {
    Overflow,
    NegativeNumber,
}

/// `"Name: <name>, size: <size>, count: <count>"`.
pub open spec fn node_text(name: Seq<char>, size: nat, count: nat) -> Seq<char> {
    seq!['N', 'a', 'm', 'e', ':', ' '] + name + seq![',', ' ', 's', 'i', 'z', 'e', ':', ' ']
        + decimal(size) + seq![',', ' ', 'c', 'o', 'u', 'n', 't', ':', ' '] + decimal(count)
}

impl Node {
    /// A node with the given name and zero size and count.
    pub fn new(name: &str) -> (n: Node)
        ensures
            n.name@ == name@,
            n.size == 0,
            n.count == 0,
    {
        Node { name: String::from_str(name), size: 0, count: 0 }
    }

    /// Sets the size and hands the node back for further calls.
    pub fn size(&mut self, n: u32) -> (r: &mut Self)
        ensures
            (*r).name == old(self).name,
            (*r).size == n,
            (*r).count == old(self).count,
            *final(self) == *final(r),
    {
        self.size = n;
        self
    }

    /// Sets the count and hands the node back for further calls.
    pub fn count(&mut self, c: u32) -> (r: &mut Self)
        ensures
            (*r).name == old(self).name,
            (*r).size == old(self).size,
            (*r).count == c,
            *final(self) == *final(r),
    {
        self.count = c;
        self
    }

    /// `"Name: <name>, size: <size>, count: <count>"`.
    pub fn to_string(&self) -> (s: String)
        ensures
            s@ == node_text(self.name@, self.size as nat, self.count as nat),
    {
        let mut s = String::new();
        push_str(&mut s, "Name: ");
        push_str(&mut s, self.name.as_str());
        push_str(&mut s, ", size: ");
        push_decimal(&mut s, self.size as u64);
        push_str(&mut s, ", count: ");
        push_decimal(&mut s, self.count as u64);
        proof {
            reveal_strlit("Name: ");
            reveal_strlit(", size: ");
            reveal_strlit(", count: ");
        }
        assert(s@ =~= node_text(self.name@, self.size as nat, self.count as nat));
        s
    }

    /// Adds one to the size, which must not be at its maximum.
    pub fn grow(&mut self)
        requires
            old(self).size < u32::MAX,
        ensures
            final(self).size == old(self).size + 1,
            final(self).name == old(self).name,
            final(self).count == old(self).count,
    {
        self.size = self.size + 1;
    }

    /// Adds one to the count, which must not be at its maximum.
    pub fn inc(&mut self)
        requires
            old(self).count < u32::MAX,
        ensures
            final(self).count == old(self).count + 1,
            final(self).name == old(self).name,
            final(self).size == old(self).size,
    {
        self.count = self.count + 1;
    }
}

/// Multiplies two numbers of the same sign: `NegativeNumber` when exactly one
/// of them is negative, `Overflow` when the product exceeds `i32::MAX`.
pub fn mul(a: i32, b: i32) -> (r: Result<u32, MulErr>)
    ensures
        (a < 0) != (b < 0) ==> r == Err::<u32, MulErr>(MulErr::NegativeNumber),
        (a < 0) == (b < 0) && a * b <= i32::MAX ==> r == Ok::<u32, MulErr>((a * b) as u32),
        (a < 0) == (b < 0) && a * b > i32::MAX ==> r == Err::<u32, MulErr>(MulErr::Overflow),
{
    if (a < 0) ^ (b < 0) {
        return Err(MulErr::NegativeNumber);
    }
    proof {
        if a < 0 {
            assert(a * b >= 0) by (nonlinear_arith)
                requires a < 0, b < 0;
        } else {
            assert(a * b >= 0) by (nonlinear_arith)
                requires a >= 0, b >= 0;
        }
    }
    match a.checked_mul(b) {
        Some(res) if res >= 0 => Ok(res as u32),
        _ => Err(MulErr::Overflow),
    }
}

} // verus!
