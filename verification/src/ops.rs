//! A concrete transform table over `u64` values: a small, ranked set of
//! arithmetic operations registered up front and named by index. Transforms
//! are total — additions and multiplications saturate at the numeric bounds
//! instead of failing — so a derived cell can always be recomputed.

use vstd::prelude::*;

use crate::state::Transforms;

verus! {

/// A unary operation on a `u64` value; arithmetic saturates.
#[derive(Clone, Copy, PartialEq, Eq, Structural, Debug)]
pub enum UnaryOp {
    /// Add a constant, saturating at `u64::MAX`.
    Add(u64),
    /// Subtract a constant, saturating at zero.
    Sub(u64),
    /// Multiply by a constant, saturating at `u64::MAX`.
    Mul(u64),
}

/// A binary operation combining two `u64` values; arithmetic saturates.
#[derive(Clone, Copy, PartialEq, Eq, Structural, Debug)]
pub enum BinaryOp {
    /// Sum of the operands, saturating at `u64::MAX`.
    Add,
    /// Product of the operands, saturating at `u64::MAX`.
    Mul,
}

/// The value of a unary operation.
pub open spec fn apply_unary(op: UnaryOp, v: u64) -> u64 {
    match op {
        UnaryOp::Add(k) => if v + k <= u64::MAX {
            (v + k) as u64
        } else {
            u64::MAX
        },
        UnaryOp::Sub(k) => if v >= k {
            (v - k) as u64
        } else {
            0
        },
        UnaryOp::Mul(k) => if v * k <= u64::MAX {
            (v * k) as u64
        } else {
            u64::MAX
        },
    }
}

/// The value of a binary operation.
pub open spec fn apply_binary(op: BinaryOp, a: u64, b: u64) -> u64 {
    match op {
        BinaryOp::Add => if a + b <= u64::MAX {
            (a + b) as u64
        } else {
            u64::MAX
        },
        BinaryOp::Mul => if a * b <= u64::MAX {
            (a * b) as u64
        } else {
            u64::MAX
        },
    }
}

/// A transform table: unary and binary operations registered by index. An
/// index that was never registered behaves as the identity on its first
/// operand, which keeps every transform total.
pub struct OpTable {
    unary: Vec<UnaryOp>,
    binary: Vec<BinaryOp>,
}

impl OpTable {
    /// The registered unary operations.
    pub closed spec fn unary_spec(&self) -> Seq<UnaryOp> {
        self.unary@
    }

    /// The registered binary operations.
    pub closed spec fn binary_spec(&self) -> Seq<BinaryOp> {
        self.binary@
    }

    /// An empty table.
    pub fn new() -> (t: Self)
        ensures
            t.unary_spec() == Seq::<UnaryOp>::empty(),
            t.binary_spec() == Seq::<BinaryOp>::empty(),
    {
        OpTable { unary: Vec::new(), binary: Vec::new() }
    }

    /// Registers a unary operation; returns the index naming it.
    pub fn push_unary(&mut self, op: UnaryOp) -> (t: u64)
        requires
            old(self).unary_spec().len() < u64::MAX,
        ensures
            t == old(self).unary_spec().len(),
            final(self).unary_spec() == old(self).unary_spec().push(op),
            final(self).binary_spec() == old(self).binary_spec(),
    {
        let t = self.unary.len() as u64;
        self.unary.push(op);
        t
    }

    /// Registers a binary operation; returns the index naming it.
    pub fn push_binary(&mut self, op: BinaryOp) -> (t: u64)
        requires
            old(self).binary_spec().len() < u64::MAX,
        ensures
            t == old(self).binary_spec().len(),
            final(self).binary_spec() == old(self).binary_spec().push(op),
            final(self).unary_spec() == old(self).unary_spec(),
    {
        let t = self.binary.len() as u64;
        self.binary.push(op);
        t
    }
}

impl Transforms<u64> for OpTable {
    open spec fn map_spec(&self, op: u64, v: u64) -> u64 {
        if op < self.unary_spec().len() {
            apply_unary(self.unary_spec()[op as int], v)
        } else {
            v
        }
    }

    open spec fn zip_spec(&self, op: u64, left: u64, right: u64) -> u64 {
        if op < self.binary_spec().len() {
            apply_binary(self.binary_spec()[op as int], left, right)
        } else {
            left
        }
    }

    fn map(&self, op: u64, v: &u64) -> (r: u64) {
        if op < self.unary.len() as u64 {
            match self.unary[op as usize] {
                UnaryOp::Add(k) => v.saturating_add(k),
                UnaryOp::Sub(k) => v.saturating_sub(k),
                UnaryOp::Mul(k) => match v.checked_mul(k) {
                    Some(x) => x,
                    None => u64::MAX,
                },
            }
        } else {
            *v
        }
    }

    fn zip(&self, op: u64, left: &u64, right: &u64) -> (r: u64) {
        if op < self.binary.len() as u64 {
            match self.binary[op as usize] {
                BinaryOp::Add => left.saturating_add(*right),
                BinaryOp::Mul => match left.checked_mul(*right) {
                    Some(x) => x,
                    None => u64::MAX,
                },
            }
        } else {
            *left
        }
    }
}

} // verus!
