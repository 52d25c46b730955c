//! Resource usage of a span: what the kernel counts for one thread or for a
//! whole subtree, and the two ways of merging such counts.

use vstd::prelude::*;
use crate::text::{decimal, push_decimal};

verus! {

/// The countable resources of a span. CPU times are in nanoseconds, the
/// resident set in KiB.
///
/// The fields fall in two classes. `max_rss_kb`, `ucpu`, `kcpu` and
/// `threads` are counted per thread; `read_iops`, `write_iops` and
/// `major_pf` are reported by the kernel for a whole subtree.
#[derive(Clone, Copy, Debug, PartialEq, Eq, Structural)]
pub struct ResourceUsage {
    pub max_rss_kb: u64,
    pub ucpu: u64,
    pub kcpu: u64,
    pub read_iops: u64,
    pub write_iops: u64,
    pub major_pf: u64,
    pub threads: u64,
}

/// A sum of usage counts left the range of the counters.
#[derive(Clone, Copy, Debug, PartialEq, Eq, Structural)]
pub struct Overflow;

/// The larger of two counts.
pub open spec fn larger(a: u64, b: u64) -> u64 {
    if a >= b {
        a
    } else {
        b
    }
}

/// `a - b`, or zero where `b` exceeds `a`.
pub open spec fn minus_or_zero(a: u64, b: u64) -> u64 {
    if a >= b {
        (a - b) as u64
    } else {
        0
    }
}

impl ResourceUsage {
    /// No resources used.
    pub open spec fn zero() -> ResourceUsage {
        ResourceUsage {
            max_rss_kb: 0,
            ucpu: 0,
            kcpu: 0,
            read_iops: 0,
            write_iops: 0,
            major_pf: 0,
            threads: 0,
        }
    }

    /// User and kernel CPU time together, in nanoseconds.
    pub open spec fn cpu_spec(self) -> nat {
        (self.ucpu + self.kcpu) as nat
    }

    /// This usage net of `other`: every count but the resident set is
    /// reduced by that of `other`, stopping at zero; the resident set stays.
    pub open spec fn minus(self, other: ResourceUsage) -> ResourceUsage {
        ResourceUsage {
            max_rss_kb: self.max_rss_kb,
            ucpu: minus_or_zero(self.ucpu, other.ucpu),
            kcpu: minus_or_zero(self.kcpu, other.kcpu),
            read_iops: minus_or_zero(self.read_iops, other.read_iops),
            write_iops: minus_or_zero(self.write_iops, other.write_iops),
            major_pf: minus_or_zero(self.major_pf, other.major_pf),
            threads: minus_or_zero(self.threads, other.threads),
        }
    }

    /// Whether the per-thread counts of `other` can be added to this usage.
    pub open spec fn self_metrics_fit(self, other: ResourceUsage) -> bool {
        &&& self.ucpu + other.ucpu <= u64::MAX
        &&& self.kcpu + other.kcpu <= u64::MAX
        &&& self.threads + other.threads <= u64::MAX
    }

    /// Whether all counts of `other` can be added to this usage.
    pub open spec fn all_fit(self, other: ResourceUsage) -> bool {
        &&& self.self_metrics_fit(other)
        &&& self.read_iops + other.read_iops <= u64::MAX
        &&& self.write_iops + other.write_iops <= u64::MAX
        &&& self.major_pf + other.major_pf <= u64::MAX
    }

    /// This usage with the per-thread counts of `other` merged in: the
    /// larger resident set, the sums of the CPU times and thread counts.
    /// The subtree counts are those of `self`.
    pub open spec fn with_self_metrics(self, other: ResourceUsage) -> ResourceUsage {
        ResourceUsage {
            max_rss_kb: larger(self.max_rss_kb, other.max_rss_kb),
            ucpu: (self.ucpu + other.ucpu) as u64,
            kcpu: (self.kcpu + other.kcpu) as u64,
            read_iops: self.read_iops,
            write_iops: self.write_iops,
            major_pf: self.major_pf,
            threads: (self.threads + other.threads) as u64,
        }
    }

    /// This usage with every count of `other` merged in: as
    /// `with_self_metrics`, and the sums of the subtree counts.
    pub open spec fn with_all(self, other: ResourceUsage) -> ResourceUsage {
        ResourceUsage {
            read_iops: (self.read_iops + other.read_iops) as u64,
            write_iops: (self.write_iops + other.write_iops) as u64,
            major_pf: (self.major_pf + other.major_pf) as u64,
            ..self.with_self_metrics(other)
        }
    }

    /// Reads and writes as `reads+writes`.
    pub open spec fn iops_text(self) -> Seq<char> {
        decimal(self.read_iops as nat) + seq!['+'] + decimal(self.write_iops as nat)
    }

    /// A usage with every count at zero.
    pub fn new() -> (usage: ResourceUsage)
        ensures
            usage == ResourceUsage::zero(),
    {
        ResourceUsage {
            max_rss_kb: 0,
            ucpu: 0,
            kcpu: 0,
            read_iops: 0,
            write_iops: 0,
            major_pf: 0,
            threads: 0,
        }
    }

    /// User and kernel CPU time together, in nanoseconds.
    pub fn cpu(&self) -> (total: u128)
        ensures
            total == self.cpu_spec(),
    {
        self.ucpu as u128 + self.kcpu as u128
    }

    /// Nets out `other`, as `minus` says.
    pub fn sub(&mut self, other: &ResourceUsage)
        ensures
            *final(self) == old(self).minus(*other),
    {
        self.ucpu = self.ucpu.saturating_sub(other.ucpu);
        self.kcpu = self.kcpu.saturating_sub(other.kcpu);
        self.read_iops = self.read_iops.saturating_sub(other.read_iops);
        self.write_iops = self.write_iops.saturating_sub(other.write_iops);
        self.major_pf = self.major_pf.saturating_sub(other.major_pf);
        self.threads = self.threads.saturating_sub(other.threads);
    }

    /// Reads and writes as `reads+writes`.
    pub fn format_iops(&self) -> (text: String)
        ensures
            text@ == self.iops_text(),
    {
        let mut text = String::new();
        push_decimal(&mut text, self.read_iops as u128);
        assert(text@ =~= decimal(self.read_iops as nat));
        proof {
            reveal_strlit("+");
            assert("+"@ =~= seq!['+']);
        }
        text.append("+");
        push_decimal(&mut text, self.write_iops as u128);
        text
    }

    /// Merges in the per-thread counts of `other`. Fails, leaving the usage
    /// as it was, exactly when a sum does not fit.
    pub fn add_self_metrics(&mut self, other: &ResourceUsage) -> (result: Result<(), Overflow>)
        ensures
            result is Ok <==> old(self).self_metrics_fit(*other),
            result is Ok ==> *final(self) == old(self).with_self_metrics(*other),
            result is Err ==> *final(self) == *old(self),
    {
        let ucpu = self.ucpu.checked_add(other.ucpu);
        let kcpu = self.kcpu.checked_add(other.kcpu);
        let threads = self.threads.checked_add(other.threads);
        match (ucpu, kcpu, threads) {
            (Some(ucpu), Some(kcpu), Some(threads)) => {
                if other.max_rss_kb > self.max_rss_kb {
                    self.max_rss_kb = other.max_rss_kb;
                }
                self.ucpu = ucpu;
                self.kcpu = kcpu;
                self.threads = threads;
                Ok(())
            },
            _ => Err(Overflow),
        }
    }

    /// Merges in every count of `other`. Fails, leaving the usage as it was,
    /// exactly when a sum does not fit.
    pub fn add_all(&mut self, other: &ResourceUsage) -> (result: Result<(), Overflow>)
        ensures
            result is Ok <==> old(self).all_fit(*other),
            result is Ok ==> *final(self) == old(self).with_all(*other),
            result is Err ==> *final(self) == *old(self),
    {
        let read_iops = self.read_iops.checked_add(other.read_iops);
        let write_iops = self.write_iops.checked_add(other.write_iops);
        let major_pf = self.major_pf.checked_add(other.major_pf);
        match (read_iops, write_iops, major_pf) {
            (Some(read_iops), Some(write_iops), Some(major_pf)) => {
                match self.add_self_metrics(other) {
                    Ok(()) => {
                        self.read_iops = read_iops;
                        self.write_iops = write_iops;
                        self.major_pf = major_pf;
                        Ok(())
                    },
                    Err(e) => Err(e),
                }
            },
            _ => Err(Overflow),
        }
    }
}

} // verus!
