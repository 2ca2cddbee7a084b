use vstd::prelude::*;

verus! {

/// Nanoseconds in one second.
pub const NANOS_PER_SEC: u32 = 1_000_000_000;

/// A span of time: whole seconds plus the nanoseconds below one second, as
/// `std::time::Duration` stores it.
#[derive(Debug, Clone, Copy, PartialEq, Eq, Structural, Hash)]
pub struct Elapsed {
    secs: u64,
    nanos: u32,
}

impl Elapsed {
    #[verifier::type_invariant]
    spec fn inv(self) -> bool {
        self.nanos < NANOS_PER_SEC
    }

    /// Length of the span in nanoseconds.
    pub closed spec fn total_nanos(self) -> nat {
        (self.secs * NANOS_PER_SEC + self.nanos) as nat
    }

    /// Whether `self + other` still fits: the whole seconds of the sum stay
    /// within `u64`.
    pub open spec fn sum_fits(self, other: Elapsed) -> bool {
        self.total_nanos() + other.total_nanos() < (u64::MAX as int + 1) * NANOS_PER_SEC
    }

    /// The empty span.
    pub fn zero() -> (res: Self)
        ensures
            res.total_nanos() == 0,
    {
        Elapsed { secs: 0, nanos: 0 }
    }

    /// `secs` seconds plus `nanos` nanoseconds; nanoseconds beyond one second
    /// carry into the seconds.
    pub fn new(secs: u64, nanos: u32) -> (res: Self)
        requires
            secs + nanos / NANOS_PER_SEC <= u64::MAX,
        ensures
            res.total_nanos() == secs * NANOS_PER_SEC + nanos,
    {
        let extra = nanos / NANOS_PER_SEC;
        let rest = nanos % NANOS_PER_SEC;
        proof {
            assert(nanos == extra * NANOS_PER_SEC + rest) by (nonlinear_arith)
                requires
                    extra == nanos / NANOS_PER_SEC,
                    rest == nanos % NANOS_PER_SEC,
            ;
            assert((secs + extra) * NANOS_PER_SEC + rest == secs * NANOS_PER_SEC + nanos)
                by (nonlinear_arith)
                requires
                    nanos == extra * NANOS_PER_SEC + rest,
            ;
        }
        Elapsed { secs: secs + extra as u64, nanos: rest }
    }

    /// Whole seconds of the span.
    pub fn as_secs(&self) -> (res: u64)
        ensures
            res == self.total_nanos() / (NANOS_PER_SEC as nat),
    {
        proof {
            use_type_invariant(self);
            let s = self.secs as int;
            let n = self.nanos as int;
            assert((s * NANOS_PER_SEC + n) / (NANOS_PER_SEC as int) == s) by (nonlinear_arith)
                requires
                    0 <= n < NANOS_PER_SEC,
                    s >= 0,
            ;
        }
        self.secs
    }

    /// Nanoseconds of the span below one whole second.
    pub fn subsec_nanos(&self) -> (res: u32)
        ensures
            res == self.total_nanos() % (NANOS_PER_SEC as nat),
    {
        proof {
            use_type_invariant(self);
            let s = self.secs as int;
            let n = self.nanos as int;
            assert((s * NANOS_PER_SEC + n) % (NANOS_PER_SEC as int) == n) by (nonlinear_arith)
                requires
                    0 <= n < NANOS_PER_SEC,
                    s >= 0,
            ;
        }
        self.nanos
    }

    /// Sum of two spans.
    pub fn add(self, other: Elapsed) -> (res: Elapsed)
        requires
            self.sum_fits(other),
        ensures
            res.total_nanos() == self.total_nanos() + other.total_nanos(),
    {
        proof {
            use_type_invariant(self);
            use_type_invariant(other);
        }
        let nanos = self.nanos + other.nanos;
        if nanos >= NANOS_PER_SEC {
            proof {
                assert(self.secs + other.secs + 1 <= u64::MAX) by (nonlinear_arith)
                    requires
                        (self.secs * NANOS_PER_SEC + self.nanos) + (other.secs * NANOS_PER_SEC
                            + other.nanos) < (u64::MAX as int + 1) * NANOS_PER_SEC,
                        self.nanos + other.nanos >= NANOS_PER_SEC,
                ;
                assert((self.secs + other.secs + 1) * NANOS_PER_SEC + (nanos - NANOS_PER_SEC) == (
                self.secs * NANOS_PER_SEC + self.nanos) + (other.secs * NANOS_PER_SEC
                    + other.nanos)) by (nonlinear_arith)
                    requires
                        nanos == self.nanos + other.nanos,
                ;
            }
            Elapsed { secs: self.secs + other.secs + 1, nanos: nanos - NANOS_PER_SEC }
        } else {
            proof {
                assert(self.secs + other.secs <= u64::MAX) by (nonlinear_arith)
                    requires
                        (self.secs * NANOS_PER_SEC + self.nanos) + (other.secs * NANOS_PER_SEC
                            + other.nanos) < (u64::MAX as int + 1) * NANOS_PER_SEC,
                        self.nanos >= 0,
                        other.nanos >= 0,
                ;
                assert((self.secs + other.secs) * NANOS_PER_SEC + nanos == (self.secs
                    * NANOS_PER_SEC + self.nanos) + (other.secs * NANOS_PER_SEC + other.nanos))
                    by (nonlinear_arith)
                    requires
                        nanos == self.nanos + other.nanos,
                ;
            }
            Elapsed { secs: self.secs + other.secs, nanos }
        }
    }
}

impl Default for Elapsed {
    fn default() -> (res: Self)
        ensures
            res.total_nanos() == 0,
    {
        Elapsed::zero()
    }
}

} // verus!
