//! Production memory-watermark eviction policy and diagnostics.

use super::diagnostics::ObjectCatalogStats;
use super::reclamation::{CollectBudget, CollectReport};
use super::tenant::quota::less;
use crate::client::lifecycle::capped_sum;
use crate::segment::pool::next_count;
use crate::segment::stats::ReplicaClassSpaceStats;
use vstd::prelude::*;

verus! {

/// Watermarks are counted in parts of this scale.
pub const WATERMARK_SCALE: u32 = 1_000_000;

pub const MAX_ALLOCATION_RETRIES: usize = 3;

/// Validated production memory-eviction policy.
///
/// Ratios are integer parts-per-million so all threshold calculations use
/// integer bytes and remain stable near a boundary.
#[derive(Clone, Copy, Debug, Eq, PartialEq, Structural)]
pub struct MemoryEvictionConfig {
    pub high_watermark_ppm: u32,
    pub low_watermark_ppm: u32,
    pub allocation_failure_budget: CollectBudget,
    pub allocation_retry_limit: usize,
}

/// Invalid memory-watermark or allocation-failure controls.
#[derive(Clone, Copy, Debug, Eq, PartialEq, Structural)]
pub enum MemoryEvictionConfigError {
    /// The high watermark must lie between nothing and everything.
    InvalidHighWatermark,
    /// The low watermark must lie between nothing and everything.
    InvalidLowWatermark,
    /// The low watermark must be strictly below the high watermark.
    LowNotBelowHigh,
    /// Allocation-failure eviction must scan at least one candidate.
    ZeroFailureCandidates,
    /// Allocation-failure eviction must attempt at least one physical reclaim.
    ZeroFailureReclaims,
    /// The allocation-failure retry limit is too large.
    TooManyAllocationRetries,
}

/// A part of a number of bytes, rounded down.
pub open spec fn part_of(bytes: u64, ppm: u32) -> int {
    (bytes * ppm) / (WATERMARK_SCALE as int)
}

impl MemoryEvictionConfig {
    /// What holds of every policy.
    pub open spec fn wf(self) -> bool {
        &&& 0 < self.low_watermark_ppm < self.high_watermark_ppm < WATERMARK_SCALE
        &&& self.allocation_failure_budget.max_candidates > 0
        &&& self.allocation_failure_budget.max_reclaims > 0
        &&& self.allocation_retry_limit <= MAX_ALLOCATION_RETRIES
    }

    /// Why watermarks make no policy.
    pub open spec fn watermark_fault(high: u32, low: u32) -> Option<MemoryEvictionConfigError> {
        if high == 0 || high >= WATERMARK_SCALE {
            Some(MemoryEvictionConfigError::InvalidHighWatermark)
        } else if low == 0 || low >= WATERMARK_SCALE {
            Some(MemoryEvictionConfigError::InvalidLowWatermark)
        } else if low >= high {
            Some(MemoryEvictionConfigError::LowNotBelowHigh)
        } else {
            None
        }
    }

    /// The policy with given watermarks, otherwise as usual.
    pub open spec fn usual(high: u32, low: u32) -> MemoryEvictionConfig {
        MemoryEvictionConfig {
            high_watermark_ppm: high,
            low_watermark_ppm: low,
            allocation_failure_budget: CollectBudget {
                max_candidates: 64,
                max_reclaims: 64,
                max_empty_slots: 0,
            },
            allocation_retry_limit: 1,
        }
    }

    /// Creates a policy from watermarks in parts per million of the capacity.
    pub fn from_ppm(high_watermark_ppm: u32, low_watermark_ppm: u32) -> (made: Result<
        Self,
        MemoryEvictionConfigError,
    >)
        ensures
            match Self::watermark_fault(high_watermark_ppm, low_watermark_ppm) {
                Some(fault) => made == Err::<Self, MemoryEvictionConfigError>(fault),
                None => made == Ok::<Self, MemoryEvictionConfigError>(
                    Self::usual(high_watermark_ppm, low_watermark_ppm),
                ),
            },
            made matches Ok(config) ==> config.wf(),
    {
        if high_watermark_ppm == 0 || high_watermark_ppm >= WATERMARK_SCALE {
            return Err(MemoryEvictionConfigError::InvalidHighWatermark);
        }
        if low_watermark_ppm == 0 || low_watermark_ppm >= WATERMARK_SCALE {
            return Err(MemoryEvictionConfigError::InvalidLowWatermark);
        }
        if low_watermark_ppm >= high_watermark_ppm {
            return Err(MemoryEvictionConfigError::LowNotBelowHigh);
        }
        Ok(
            Self {
                high_watermark_ppm,
                low_watermark_ppm,
                allocation_failure_budget: CollectBudget::new(64, 64, 0),
                allocation_retry_limit: 1,
            },
        )
    }

    /// Sets bounded synchronous collection and retry limits for allocation
    /// failures. At least one candidate and reclaim are required, and retries
    /// are capped so configuration cannot turn the request path into a loop.
    pub fn with_allocation_failure_policy(self, budget: CollectBudget, retry_limit: usize) -> (made: Result<
        Self,
        MemoryEvictionConfigError,
    >)
        ensures
            made == (if budget.max_candidates == 0 {
                Err::<Self, MemoryEvictionConfigError>(
                    MemoryEvictionConfigError::ZeroFailureCandidates,
                )
            } else if budget.max_reclaims == 0 {
                Err(MemoryEvictionConfigError::ZeroFailureReclaims)
            } else if retry_limit > MAX_ALLOCATION_RETRIES {
                Err(MemoryEvictionConfigError::TooManyAllocationRetries)
            } else {
                Ok(
                    MemoryEvictionConfig {
                        allocation_failure_budget: budget,
                        allocation_retry_limit: retry_limit,
                        ..self
                    },
                )
            }),
            made matches Ok(config) ==> self.wf() ==> config.wf(),
    {
        if budget.max_candidates == 0 {
            return Err(MemoryEvictionConfigError::ZeroFailureCandidates);
        }
        if budget.max_reclaims == 0 {
            return Err(MemoryEvictionConfigError::ZeroFailureReclaims);
        }
        if retry_limit > MAX_ALLOCATION_RETRIES {
            return Err(MemoryEvictionConfigError::TooManyAllocationRetries);
        }
        Ok(Self { allocation_failure_budget: budget, allocation_retry_limit: retry_limit, ..self })
    }

    pub fn allocation_failure_budget(self) -> (budget: CollectBudget)
        ensures
            budget == self.allocation_failure_budget,
    {
        self.allocation_failure_budget
    }

    pub fn allocation_retry_limit(self) -> (limit: usize)
        ensures
            limit == self.allocation_retry_limit,
    {
        self.allocation_retry_limit
    }

    /// The bytes above which eviction starts.
    pub fn high_bytes(self, capacity_bytes: u64) -> (bytes: u64)
        requires
            self.wf(),
        ensures
            bytes == part_of(capacity_bytes, self.high_watermark_ppm),
    {
        scale_bytes(capacity_bytes, self.high_watermark_ppm)
    }

    /// The bytes down to which eviction goes.
    pub fn low_bytes(self, capacity_bytes: u64) -> (bytes: u64)
        requires
            self.wf(),
        ensures
            bytes == part_of(capacity_bytes, self.low_watermark_ppm),
    {
        scale_bytes(capacity_bytes, self.low_watermark_ppm)
    }
}

impl Default for MemoryEvictionConfig {
    fn default() -> (config: Self)
        ensures
            config == MemoryEvictionConfig::usual(900_000, 800_000),
            config.wf(),
    {
        Self {
            high_watermark_ppm: 900_000,
            low_watermark_ppm: 800_000,
            allocation_failure_budget: CollectBudget::new(64, 64, 0),
            allocation_retry_limit: 1,
        }
    }
}

/// A part of a number of bytes is at most that number.
pub proof fn lemma_part_of(bytes: u64, ppm: u32)
    requires
        ppm <= WATERMARK_SCALE,
    ensures
        0 <= part_of(bytes, ppm) <= bytes,
        0 <= bytes * ppm <= 0xffff_ffff_ffff_ffff * 0xffff_ffff,
{
    let product = bytes * ppm;
    assert(0 <= product <= bytes * 1_000_000 && product <= 0xffff_ffff_ffff_ffff * 0xffff_ffff)
        by (nonlinear_arith)
        requires
            product == bytes * ppm,
            0 <= ppm <= 1_000_000,
            0 <= bytes <= 0xffff_ffff_ffff_ffff,
    ;
    assert(0 <= product / 1_000_000 <= bytes) by (nonlinear_arith)
        requires
            0 <= product <= bytes * 1_000_000,
    ;
}

/// A watermark of a capacity is at most that capacity, and neither a smaller
/// capacity nor a smaller ratio gives a larger watermark.
pub proof fn law_watermarks_scale(bytes: u64, more: u64, ppm: u32, higher: u32)
    requires
        bytes <= more,
        ppm <= higher,
        higher <= WATERMARK_SCALE,
    ensures
        0 <= part_of(bytes, ppm) <= bytes,
        part_of(bytes, ppm) <= part_of(more, higher),
{
    lemma_part_of(bytes, ppm);
    assert(bytes * ppm <= more * higher) by (nonlinear_arith)
        requires
            0 <= bytes <= more,
            0 <= ppm <= higher,
    ;
}

/// The bytes that a ratio of a capacity comes to, rounded down.
pub fn scale_bytes(bytes: u64, ratio_ppm: u32) -> (scaled: u64)
    requires
        ratio_ppm <= WATERMARK_SCALE,
    ensures
        scaled == part_of(bytes, ratio_ppm),
        scaled <= bytes,
{
    proof {
        lemma_part_of(bytes, ratio_ppm);
    }
    let scaled: u128 = bytes as u128 * ratio_ppm as u128;
    (scaled / WATERMARK_SCALE as u128) as u64
}

/// Snapshot of watermark state and cumulative controller activity.
#[derive(Clone, Copy, Debug, Eq, PartialEq, Structural)]
pub struct MemoryEvictionStats {
    pub active: bool,
    pub capacity_bytes: u64,
    pub used_bytes: u64,
    pub maximum_used_bytes: u64,
    /// Maximum sampled physical usage ratio in parts per million.
    pub maximum_used_ratio_ppm: u64,
    pub available_bytes: u64,
    pub high_watermark_bytes: u64,
    pub low_watermark_bytes: u64,
    pub pending_bytes: u64,
    pub live_bytes: u64,
    pub retired_bytes: u64,
    pub reclaim_debt_bytes: u64,
    pub requested_reclaim_debt_bytes: u64,
    pub allocation_reclaim_debt_bytes: u64,
    pub watermark_reclaim_debt_bytes: u64,
    pub trigger_events: u64,
    pub controller_steps: u64,
    pub busy_steps: u64,
    pub retired_objects: u64,
    pub retired_bytes_total: u64,
    pub reclaimed_objects: u64,
    pub reclaimed_bytes_total: u64,
    pub allocation_failures: u64,
    pub allocation_retries: u64,
    pub allocation_retry_successes: u64,
    pub wakeups: u64,
}

impl MemoryEvictionStats {
    pub open spec fn zero() -> MemoryEvictionStats {
        MemoryEvictionStats {
            active: false,
            capacity_bytes: 0,
            used_bytes: 0,
            maximum_used_bytes: 0,
            maximum_used_ratio_ppm: 0,
            available_bytes: 0,
            high_watermark_bytes: 0,
            low_watermark_bytes: 0,
            pending_bytes: 0,
            live_bytes: 0,
            retired_bytes: 0,
            reclaim_debt_bytes: 0,
            requested_reclaim_debt_bytes: 0,
            allocation_reclaim_debt_bytes: 0,
            watermark_reclaim_debt_bytes: 0,
            trigger_events: 0,
            controller_steps: 0,
            busy_steps: 0,
            retired_objects: 0,
            retired_bytes_total: 0,
            reclaimed_objects: 0,
            reclaimed_bytes_total: 0,
            allocation_failures: 0,
            allocation_retries: 0,
            allocation_retry_successes: 0,
            wakeups: 0,
        }
    }
}

impl Default for MemoryEvictionStats {
    fn default() -> (stats: Self)
        ensures
            stats == MemoryEvictionStats::zero(),
    {
        Self {
            active: false,
            capacity_bytes: 0,
            used_bytes: 0,
            maximum_used_bytes: 0,
            maximum_used_ratio_ppm: 0,
            available_bytes: 0,
            high_watermark_bytes: 0,
            low_watermark_bytes: 0,
            pending_bytes: 0,
            live_bytes: 0,
            retired_bytes: 0,
            reclaim_debt_bytes: 0,
            requested_reclaim_debt_bytes: 0,
            allocation_reclaim_debt_bytes: 0,
            watermark_reclaim_debt_bytes: 0,
            trigger_events: 0,
            controller_steps: 0,
            busy_steps: 0,
            retired_objects: 0,
            retired_bytes_total: 0,
            reclaimed_objects: 0,
            reclaimed_bytes_total: 0,
            allocation_failures: 0,
            allocation_retries: 0,
            allocation_retry_successes: 0,
            wakeups: 0,
        }
    }
}

/// Decides when memory pressure asks for eviction and how much.
#[derive(Clone, Copy, Debug, Eq, PartialEq, Structural)]
pub struct MemoryEvictionController {
    pub config: MemoryEvictionConfig,
    pub stats: MemoryEvictionStats,
    pub watermark_active: bool,
    pub allocation_reclaim_bytes: u64,
    pub allocation_generation: u64,
}

/// The larger of two numbers.
pub open spec fn larger(left: u64, right: u64) -> u64 {
    if left < right {
        right
    } else {
        left
    }
}

/// The used share of a capacity in parts per million.
pub open spec fn used_ppm(space: ReplicaClassSpaceStats) -> u64 {
    let ratio = (space.used_bytes * WATERMARK_SCALE) / (space.capacity_bytes as int);
    if ratio > u64::MAX {
        u64::MAX
    } else {
        ratio as u64
    }
}

impl MemoryEvictionController {
    pub open spec fn high(self, space: ReplicaClassSpaceStats) -> u64 {
        part_of(space.capacity_bytes, self.config.high_watermark_ppm) as u64
    }

    pub open spec fn low(self, space: ReplicaClassSpaceStats) -> u64 {
        part_of(space.capacity_bytes, self.config.low_watermark_ppm) as u64
    }

    /// The controller with its debts added up anew.
    pub open spec fn debts_refreshed(self, requested: u64, watermark: Option<u64>) -> MemoryEvictionController {
        let watermark_debt = match watermark {
            Some(bytes) => bytes,
            None => self.stats.watermark_reclaim_debt_bytes,
        };
        MemoryEvictionController {
            stats: MemoryEvictionStats {
                watermark_reclaim_debt_bytes: watermark_debt,
                requested_reclaim_debt_bytes: requested,
                allocation_reclaim_debt_bytes: self.allocation_reclaim_bytes,
                reclaim_debt_bytes: larger(
                    larger(requested, self.allocation_reclaim_bytes),
                    watermark_debt,
                ),
                active: self.watermark_active || self.allocation_reclaim_bytes != 0 || requested
                    != 0,
                ..self.stats
            },
            ..self
        }
    }

    /// The controller after a sample of the space and of the catalog.
    pub open spec fn sampled(
        self,
        space: ReplicaClassSpaceStats,
        catalog: ObjectCatalogStats,
        watermark_debt: u64,
    ) -> MemoryEvictionController {
        MemoryEvictionController {
            stats: MemoryEvictionStats {
                capacity_bytes: space.capacity_bytes,
                used_bytes: space.used_bytes,
                maximum_used_bytes: larger(self.stats.maximum_used_bytes, space.used_bytes),
                maximum_used_ratio_ppm: if space.capacity_bytes != 0 {
                    larger(self.stats.maximum_used_ratio_ppm, used_ppm(space))
                } else {
                    self.stats.maximum_used_ratio_ppm
                },
                available_bytes: space.available_bytes,
                high_watermark_bytes: self.high(space),
                low_watermark_bytes: self.low(space),
                pending_bytes: catalog.pending_bytes,
                live_bytes: catalog.live_bytes,
                retired_bytes: catalog.retired_bytes,
                ..self.stats
            },
            ..self
        }.debts_refreshed(catalog.reclaim_debt, Some(watermark_debt))
    }

    /// Whether eviction is under way after the space was looked at before a
    /// step: it starts above the high watermark and ends at the low one.
    pub open spec fn active_before_step(self, space: ReplicaClassSpaceStats) -> bool {
        if space.capacity_bytes == 0 || (self.watermark_active && space.used_bytes <= self.low(
            space,
        )) {
            false
        } else {
            self.watermark_active || space.used_bytes > self.high(space)
        }
    }

    /// The bytes between the use and the low watermark, while eviction is under
    /// way.
    pub open spec fn watermark_debt(self, space: ReplicaClassSpaceStats) -> u64 {
        if self.watermark_active {
            less(space.used_bytes, self.low(space))
        } else {
            0
        }
    }

    /// The controller before a collector step.
    pub open spec fn step_prepared(
        self,
        space: ReplicaClassSpaceStats,
        catalog: ObjectCatalogStats,
    ) -> MemoryEvictionController {
        let active = self.active_before_step(space);
        let next = MemoryEvictionController {
            watermark_active: active,
            stats: MemoryEvictionStats {
                trigger_events: if active && !self.watermark_active {
                    capped_sum(self.stats.trigger_events, 1)
                } else {
                    self.stats.trigger_events
                },
                ..self.stats
            },
            ..self
        };
        next.sampled(space, catalog, next.watermark_debt(space))
    }

    /// The bytes that a collector step is to retire.
    pub open spec fn step_target(
        self,
        space: ReplicaClassSpaceStats,
        catalog: ObjectCatalogStats,
    ) -> u64 {
        let next = self.step_prepared(space, catalog);
        larger(next.watermark_debt(space), self.allocation_reclaim_bytes)
    }

    /// The controller after a collector step.
    pub open spec fn step_finished(
        self,
        space: ReplicaClassSpaceStats,
        catalog: ObjectCatalogStats,
        report: CollectReport,
    ) -> MemoryEvictionController {
        let next = MemoryEvictionController {
            allocation_reclaim_bytes: less(
                self.allocation_reclaim_bytes,
                report.reclaimed_memory_bytes,
            ),
            watermark_active: self.watermark_active && space.capacity_bytes != 0
                && space.used_bytes > self.low(space),
            stats: MemoryEvictionStats {
                controller_steps: capped_sum(self.stats.controller_steps, 1),
                retired_objects: capped_sum(
                    self.stats.retired_objects,
                    report.retired_objects as u64,
                ),
                retired_bytes_total: capped_sum(
                    self.stats.retired_bytes_total,
                    report.retired_bytes,
                ),
                reclaimed_objects: capped_sum(
                    self.stats.reclaimed_objects,
                    report.reclaimed_objects as u64,
                ),
                reclaimed_bytes_total: capped_sum(
                    self.stats.reclaimed_bytes_total,
                    report.reclaimed_bytes,
                ),
                ..self.stats
            },
            ..self
        };
        next.sampled(space, catalog, next.watermark_debt(space))
    }

    /// The controller after an allocation failed for want of `bytes`.
    pub open spec fn allocation_failed(self, bytes: u64) -> MemoryEvictionController {
        MemoryEvictionController {
            allocation_generation: next_count(self.allocation_generation),
            allocation_reclaim_bytes: larger(self.allocation_reclaim_bytes, bytes),
            stats: MemoryEvictionStats {
                allocation_failures: capped_sum(self.stats.allocation_failures, 1),
                wakeups: capped_sum(self.stats.wakeups, 1),
                ..self.stats
            },
            ..self
        }.debts_refreshed(self.stats.requested_reclaim_debt_bytes, None)
    }

    /// The controller after the debt of the last failed allocation was settled.
    pub open spec fn allocation_settled(self, generation: u64) -> MemoryEvictionController {
        if self.allocation_generation != generation {
            self
        } else {
            MemoryEvictionController { allocation_reclaim_bytes: 0, ..self }.debts_refreshed(
                self.stats.requested_reclaim_debt_bytes,
                None,
            )
        }
    }

    pub fn new(config: MemoryEvictionConfig) -> (controller: Self)
        ensures
            controller == (MemoryEvictionController {
                config,
                stats: MemoryEvictionStats::zero(),
                watermark_active: false,
                allocation_reclaim_bytes: 0,
                allocation_generation: 0,
            }),
    {
        Self {
            config,
            stats: MemoryEvictionStats::default(),
            watermark_active: false,
            allocation_reclaim_bytes: 0,
            allocation_generation: 0,
        }
    }

    pub fn config(&self) -> (config: MemoryEvictionConfig)
        ensures
            config == self.config,
    {
        self.config
    }

    pub fn stats(&self) -> (stats: MemoryEvictionStats)
        ensures
            stats == self.stats,
    {
        self.stats
    }

    fn refresh_debt_stats(&mut self, requested_reclaim_bytes: u64, watermark_reclaim_bytes: Option<u64>)
        ensures
            *final(self) == old(self).debts_refreshed(
                requested_reclaim_bytes,
                watermark_reclaim_bytes,
            ),
    {
        if let Some(bytes) = watermark_reclaim_bytes {
            self.stats.watermark_reclaim_debt_bytes = bytes;
        }
        self.stats.requested_reclaim_debt_bytes = requested_reclaim_bytes;
        self.stats.allocation_reclaim_debt_bytes = self.allocation_reclaim_bytes;
        self.stats.reclaim_debt_bytes = larger_of(
            larger_of(requested_reclaim_bytes, self.allocation_reclaim_bytes),
            self.stats.watermark_reclaim_debt_bytes,
        );
        self.stats.active = self.watermark_active || self.allocation_reclaim_bytes != 0
            || requested_reclaim_bytes != 0;
    }

    fn update_sample(
        &mut self,
        space: ReplicaClassSpaceStats,
        catalog: ObjectCatalogStats,
        high_bytes: u64,
        low_bytes: u64,
        watermark_reclaim_bytes: u64,
    )
        requires
            high_bytes == old(self).high(space),
            low_bytes == old(self).low(space),
        ensures
            *final(self) == old(self).sampled(space, catalog, watermark_reclaim_bytes),
    {
        self.stats.capacity_bytes = space.capacity_bytes;
        self.stats.used_bytes = space.used_bytes;
        self.stats.maximum_used_bytes = larger_of(
            self.stats.maximum_used_bytes,
            space.used_bytes,
        );
        if space.capacity_bytes != 0 {
            self.stats.maximum_used_ratio_ppm = larger_of(
                self.stats.maximum_used_ratio_ppm,
                used_ratio_ppm(space),
            );
        }
        self.stats.available_bytes = space.available_bytes;
        self.stats.high_watermark_bytes = high_bytes;
        self.stats.low_watermark_bytes = low_bytes;
        self.stats.pending_bytes = catalog.pending_bytes;
        self.stats.live_bytes = catalog.live_bytes;
        self.stats.retired_bytes = catalog.retired_bytes;
        self.refresh_debt_stats(catalog.reclaim_debt, Some(watermark_reclaim_bytes));
    }

    /// Samples physical usage and returns the absolute bytes still required to
    /// reach low watermark. Retired bytes are deliberately not subtracted: they
    /// still own allocator capacity until they are reclaimed.
    pub fn prepare_step(&mut self, space: ReplicaClassSpaceStats, catalog: ObjectCatalogStats) -> (bytes: u64)
        requires
            old(self).config.wf(),
        ensures
            *final(self) == old(self).step_prepared(space, catalog),
            bytes == old(self).step_target(space, catalog),
    {
        let ghost before = *self;
        let high_bytes: u64 = self.config.high_bytes(space.capacity_bytes);
        let low_bytes: u64 = self.config.low_bytes(space.capacity_bytes);
        if space.capacity_bytes == 0 || (self.watermark_active && space.used_bytes <= low_bytes) {
            self.watermark_active = false;
        } else if !self.watermark_active && space.used_bytes > high_bytes {
            self.watermark_active = true;
            self.stats.trigger_events = self.stats.trigger_events.saturating_add(1);
        }
        let watermark_reclaim_bytes: u64 = if self.watermark_active {
            space.used_bytes.saturating_sub(low_bytes)
        } else {
            0
        };
        self.update_sample(space, catalog, high_bytes, low_bytes, watermark_reclaim_bytes);
        larger_of(watermark_reclaim_bytes, self.allocation_reclaim_bytes)
    }

    /// Takes account of a collector step. Returns whether there is more to do.
    pub fn finish_step(
        &mut self,
        space: ReplicaClassSpaceStats,
        catalog: ObjectCatalogStats,
        report: CollectReport,
    ) -> (active: bool)
        requires
            old(self).config.wf(),
        ensures
            *final(self) == old(self).step_finished(space, catalog, report),
            active == final(self).stats.active,
    {
        let high_bytes: u64 = self.config.high_bytes(space.capacity_bytes);
        let low_bytes: u64 = self.config.low_bytes(space.capacity_bytes);
        self.allocation_reclaim_bytes = self.allocation_reclaim_bytes.saturating_sub(
            report.reclaimed_memory_bytes,
        );
        if space.capacity_bytes == 0 || space.used_bytes <= low_bytes {
            self.watermark_active = false;
        }
        let watermark_reclaim_bytes: u64 = if self.watermark_active {
            space.used_bytes.saturating_sub(low_bytes)
        } else {
            0
        };
        self.stats.controller_steps = self.stats.controller_steps.saturating_add(1);
        self.stats.retired_objects = self.stats.retired_objects.saturating_add(
            report.retired_objects as u64,
        );
        self.stats.retired_bytes_total = self.stats.retired_bytes_total.saturating_add(
            report.retired_bytes,
        );
        self.stats.reclaimed_objects = self.stats.reclaimed_objects.saturating_add(
            report.reclaimed_objects as u64,
        );
        self.stats.reclaimed_bytes_total = self.stats.reclaimed_bytes_total.saturating_add(
            report.reclaimed_bytes,
        );
        self.update_sample(space, catalog, high_bytes, low_bytes, watermark_reclaim_bytes);
        self.stats.active
    }

    /// Notes a step that could not run because another one was running.
    pub fn record_busy_step(&mut self)
        ensures
            *final(self) == (MemoryEvictionController {
                stats: MemoryEvictionStats {
                    controller_steps: capped_sum(old(self).stats.controller_steps, 1),
                    busy_steps: capped_sum(old(self).stats.busy_steps, 1),
                    ..old(self).stats
                },
                ..*old(self)
            }),
    {
        self.stats.controller_steps = self.stats.controller_steps.saturating_add(1);
        self.stats.busy_steps = self.stats.busy_steps.saturating_add(1);
    }

    /// Asks for `bytes` after a failed allocation. Returns the number of the
    /// request.
    pub fn request_allocation_reclaim(&mut self, bytes: u64) -> (generation: u64)
        ensures
            *final(self) == old(self).allocation_failed(bytes),
            generation == final(self).allocation_generation,
    {
        self.allocation_generation = self.allocation_generation.wrapping_add(1);
        self.allocation_reclaim_bytes = larger_of(self.allocation_reclaim_bytes, bytes);
        self.stats.allocation_failures = self.stats.allocation_failures.saturating_add(1);
        self.stats.wakeups = self.stats.wakeups.saturating_add(1);
        let requested: u64 = self.stats.requested_reclaim_debt_bytes;
        self.refresh_debt_stats(requested, None);
        self.allocation_generation
    }

    /// Settles the debt of a failed allocation, if it was the last one.
    pub fn clear_allocation_reclaim(&mut self, generation: u64)
        ensures
            *final(self) == old(self).allocation_settled(generation),
    {
        if self.allocation_generation != generation {
            return ;
        }
        self.allocation_reclaim_bytes = 0;
        let requested: u64 = self.stats.requested_reclaim_debt_bytes;
        self.refresh_debt_stats(requested, None);
    }

    pub fn record_allocation_retry(&mut self)
        ensures
            *final(self) == (MemoryEvictionController {
                stats: MemoryEvictionStats {
                    allocation_retries: capped_sum(old(self).stats.allocation_retries, 1),
                    ..old(self).stats
                },
                ..*old(self)
            }),
    {
        self.stats.allocation_retries = self.stats.allocation_retries.saturating_add(1);
    }

    pub fn record_allocation_retry_success(&mut self)
        ensures
            *final(self) == (MemoryEvictionController {
                stats: MemoryEvictionStats {
                    allocation_retry_successes: capped_sum(
                        old(self).stats.allocation_retry_successes,
                        1,
                    ),
                    ..old(self).stats
                },
                ..*old(self)
            }),
    {
        self.stats.allocation_retry_successes =
        self.stats.allocation_retry_successes.saturating_add(1);
    }
}

fn larger_of(left: u64, right: u64) -> (largest: u64)
    ensures
        largest == larger(left, right),
{
    if left < right {
        right
    } else {
        left
    }
}

/// The used share of a capacity in parts per million.
fn used_ratio_ppm(space: ReplicaClassSpaceStats) -> (ppm: u64)
    requires
        space.capacity_bytes != 0,
    ensures
        ppm == used_ppm(space),
{
    assert(0 <= space.used_bytes * WATERMARK_SCALE <= 0xffff_ffff_ffff_ffff * 1_000_000)
        by (nonlinear_arith)
        requires
            0 <= space.used_bytes <= 0xffff_ffff_ffff_ffff,
            WATERMARK_SCALE == 1_000_000,
    ;
    let ratio: u128 = (space.used_bytes as u128 * WATERMARK_SCALE as u128)
        / space.capacity_bytes as u128;
    if ratio > u64::MAX as u128 {
        u64::MAX
    } else {
        ratio as u64
    }
}

/// Eviction starts only above the high watermark and goes on until the low one
/// is reached, so that it does not flicker in between.
pub proof fn law_watermark_hysteresis(
    controller: MemoryEvictionController,
    space: ReplicaClassSpaceStats,
    catalog: ObjectCatalogStats,
)
    requires
        controller.config.wf(),
        space.capacity_bytes > 0,
    ensures
        controller.low(space) <= controller.high(space),
        space.used_bytes > controller.high(space) ==> controller.step_prepared(
            space,
            catalog,
        ).watermark_active,
        space.used_bytes <= controller.low(space) ==> !controller.step_prepared(
            space,
            catalog,
        ).watermark_active,
        controller.low(space) < space.used_bytes <= controller.high(space)
            ==> controller.step_prepared(space, catalog).watermark_active
            == controller.watermark_active,
{
    let low = controller.config.low_watermark_ppm;
    let high = controller.config.high_watermark_ppm;
    let capacity = space.capacity_bytes;
    lemma_part_of(capacity, low);
    lemma_part_of(capacity, high);
    assert(capacity * low <= capacity * high) by (nonlinear_arith)
        requires
            low <= high,
            capacity >= 0,
    ;
    vstd::arithmetic::div_mod::lemma_div_is_ordered(
        capacity * low,
        capacity * high,
        WATERMARK_SCALE as int,
    );
}

/// Eviction goes on over the steps: finishing a step leaves it under way exactly as
/// long as more than the low share of the capacity is used, however far the use has
/// fallen below the high one, and the next step then asks for all that is used above
/// the low share. Finishing a step never starts it.
pub proof fn law_eviction_goes_on_to_the_low_watermark(
    controller: MemoryEvictionController,
    space: ReplicaClassSpaceStats,
    catalog: ObjectCatalogStats,
    report: CollectReport,
    next_space: ReplicaClassSpaceStats,
    next_catalog: ObjectCatalogStats,
)
    requires
        controller.config.wf(),
        space.capacity_bytes > 0,
        next_space.capacity_bytes > 0,
    ensures
        ({
            let ppm = controller.config.low_watermark_ppm;
            let low = (space.capacity_bytes * ppm) / 1_000_000;
            let next_low = (next_space.capacity_bytes * ppm) / 1_000_000;
            let after = controller.step_finished(space, catalog, report);
            &&& after.config == controller.config
            &&& controller.watermark_active && space.used_bytes > low ==> after.watermark_active
                && after.stats.active && after.stats.watermark_reclaim_debt_bytes
                == space.used_bytes - low
            &&& space.used_bytes <= low ==> !after.watermark_active
                && after.stats.watermark_reclaim_debt_bytes == 0
            &&& !controller.watermark_active ==> !after.watermark_active
            &&& after.watermark_active && next_space.used_bytes > next_low ==> {
                &&& after.step_prepared(next_space, next_catalog).watermark_active
                &&& after.step_target(next_space, next_catalog) >= next_space.used_bytes - next_low
                &&& after.allocation_reclaim_bytes == 0 ==> after.step_target(
                    next_space,
                    next_catalog,
                ) == next_space.used_bytes - next_low
            }
        }),
{
    lemma_part_of(space.capacity_bytes, controller.config.low_watermark_ppm);
    lemma_part_of(next_space.capacity_bytes, controller.config.low_watermark_ppm);
}

/// A step starts eviction where more than the high share of the capacity is used,
/// and counts that once; it asks for what is used above the low share; it ends
/// eviction at the low share. In between it leaves eviction as it was. Without
/// capacity there is no eviction.
pub proof fn law_eviction_starts_above_the_high_watermark(
    controller: MemoryEvictionController,
    space: ReplicaClassSpaceStats,
    catalog: ObjectCatalogStats,
)
    requires
        controller.config.wf(),
    ensures
        ({
            let low = (space.capacity_bytes * controller.config.low_watermark_ppm) / 1_000_000;
            let high = (space.capacity_bytes * controller.config.high_watermark_ppm) / 1_000_000;
            let after = controller.step_prepared(space, catalog);
            let target = controller.step_target(space, catalog);
            &&& low <= high
            &&& space.capacity_bytes == 0 ==> !after.watermark_active
            &&& space.capacity_bytes > 0 && space.used_bytes > high ==> after.watermark_active
                && target >= space.used_bytes - low
            &&& space.used_bytes <= low ==> !after.watermark_active
            &&& space.capacity_bytes > 0 && low < space.used_bytes <= high
                ==> after.watermark_active == controller.watermark_active
            &&& !after.watermark_active ==> target == controller.allocation_reclaim_bytes
            &&& after.watermark_active && target != controller.allocation_reclaim_bytes ==> target
                == space.used_bytes - low
            &&& target >= controller.allocation_reclaim_bytes
            &&& after.allocation_reclaim_bytes == controller.allocation_reclaim_bytes
            &&& after.allocation_generation == controller.allocation_generation
            &&& after.stats.trigger_events != controller.stats.trigger_events
                ==> after.watermark_active && !controller.watermark_active
            &&& after.watermark_active && !controller.watermark_active
                && controller.stats.trigger_events < u64::MAX ==> after.stats.trigger_events
                == controller.stats.trigger_events + 1
        }),
{
    law_watermarks_scale(
        space.capacity_bytes,
        space.capacity_bytes,
        controller.config.low_watermark_ppm,
        controller.config.high_watermark_ppm,
    );
    lemma_part_of(space.capacity_bytes, controller.config.low_watermark_ppm);
    lemma_part_of(space.capacity_bytes, controller.config.high_watermark_ppm);
}

/// A failed allocation is a debt: the debt is then at least what was wanted and no
/// less than before, and steps ask for it. A step pays off what it reclaimed. The
/// last request settles the debt, an earlier one does not.
pub proof fn law_failed_allocation_is_a_debt(
    controller: MemoryEvictionController,
    bytes: u64,
    space: ReplicaClassSpaceStats,
    catalog: ObjectCatalogStats,
    report: CollectReport,
    generation: u64,
)
    requires
        controller.config.wf(),
    ensures
        ({
            let failed = controller.allocation_failed(bytes);
            let finished = controller.step_finished(space, catalog, report);
            let settled = controller.allocation_settled(generation);
            &&& failed.allocation_reclaim_bytes >= bytes
            &&& failed.allocation_reclaim_bytes >= controller.allocation_reclaim_bytes
            &&& failed.allocation_reclaim_bytes == bytes || failed.allocation_reclaim_bytes
                == controller.allocation_reclaim_bytes
            &&& failed.allocation_generation != controller.allocation_generation
            &&& failed.watermark_active == controller.watermark_active
            &&& bytes > 0 ==> failed.stats.active
            &&& failed.step_target(space, catalog) >= bytes
            &&& failed.allocation_settled(
                failed.allocation_generation,
            ).allocation_reclaim_bytes == 0
            &&& report.reclaimed_memory_bytes <= controller.allocation_reclaim_bytes
                ==> finished.allocation_reclaim_bytes == controller.allocation_reclaim_bytes
                - report.reclaimed_memory_bytes
            &&& report.reclaimed_memory_bytes >= controller.allocation_reclaim_bytes
                ==> finished.allocation_reclaim_bytes == 0
            &&& finished.allocation_generation == controller.allocation_generation
            &&& generation == controller.allocation_generation ==> settled.allocation_reclaim_bytes
                == 0
            &&& generation != controller.allocation_generation ==> settled == controller
            &&& settled.watermark_active == controller.watermark_active
            &&& settled.allocation_generation == controller.allocation_generation
        }),
{
}

/// The figures say what there is: the debt is the largest of the three debts,
/// eviction is said to be active where it is under way or a debt is open, the
/// largest use is never forgotten, and what was retired and reclaimed adds up.
pub proof fn law_eviction_figures_add_up(
    controller: MemoryEvictionController,
    space: ReplicaClassSpaceStats,
    catalog: ObjectCatalogStats,
    report: CollectReport,
)
    requires
        controller.config.wf(),
    ensures
        ({
            let after = controller.step_finished(space, catalog, report);
            let stats = after.stats;
            let was = controller.stats;
            &&& stats.reclaim_debt_bytes >= stats.watermark_reclaim_debt_bytes
            &&& stats.reclaim_debt_bytes >= stats.allocation_reclaim_debt_bytes
            &&& stats.reclaim_debt_bytes >= stats.requested_reclaim_debt_bytes
            &&& stats.reclaim_debt_bytes == stats.watermark_reclaim_debt_bytes
                || stats.reclaim_debt_bytes == stats.allocation_reclaim_debt_bytes
                || stats.reclaim_debt_bytes == stats.requested_reclaim_debt_bytes
            &&& stats.requested_reclaim_debt_bytes == catalog.reclaim_debt
            &&& stats.allocation_reclaim_debt_bytes == after.allocation_reclaim_bytes
            &&& stats.active <==> after.watermark_active || after.allocation_reclaim_bytes > 0
                || catalog.reclaim_debt > 0
            &&& stats.maximum_used_bytes >= space.used_bytes && stats.maximum_used_bytes
                >= was.maximum_used_bytes
            &&& stats.maximum_used_bytes == space.used_bytes || stats.maximum_used_bytes
                == was.maximum_used_bytes
            &&& stats.used_bytes == space.used_bytes && stats.capacity_bytes
                == space.capacity_bytes && stats.available_bytes == space.available_bytes
            &&& stats.high_watermark_bytes == (space.capacity_bytes
                * controller.config.high_watermark_ppm) / 1_000_000
            &&& stats.low_watermark_bytes == (space.capacity_bytes
                * controller.config.low_watermark_ppm) / 1_000_000
            &&& stats.pending_bytes == catalog.pending_bytes && stats.live_bytes
                == catalog.live_bytes && stats.retired_bytes == catalog.retired_bytes
            &&& was.controller_steps < u64::MAX ==> stats.controller_steps == was.controller_steps
                + 1
            &&& was.retired_bytes_total + report.retired_bytes <= u64::MAX
                ==> stats.retired_bytes_total == was.retired_bytes_total + report.retired_bytes
            &&& was.reclaimed_bytes_total + report.reclaimed_bytes <= u64::MAX
                ==> stats.reclaimed_bytes_total == was.reclaimed_bytes_total
                + report.reclaimed_bytes
            &&& was.retired_objects + report.retired_objects <= u64::MAX ==> stats.retired_objects
                == was.retired_objects + report.retired_objects
            &&& was.reclaimed_objects + report.reclaimed_objects <= u64::MAX
                ==> stats.reclaimed_objects == was.reclaimed_objects + report.reclaimed_objects
            &&& stats.trigger_events == was.trigger_events
            &&& space.capacity_bytes > 0 && space.used_bytes <= space.capacity_bytes ==> {
                let ppm = stats.maximum_used_ratio_ppm;
                &&& ppm >= was.maximum_used_ratio_ppm
                &&& ppm >= (space.used_bytes * 1_000_000) / space.capacity_bytes as int
                &&& ppm == was.maximum_used_ratio_ppm || ppm == (space.used_bytes * 1_000_000)
                    / space.capacity_bytes as int
            }
        }),
{
    lemma_part_of(space.capacity_bytes, controller.config.low_watermark_ppm);
    lemma_part_of(space.capacity_bytes, controller.config.high_watermark_ppm);
    if space.capacity_bytes > 0 && space.used_bytes <= space.capacity_bytes {
        let used = space.used_bytes as int;
        let capacity = space.capacity_bytes as int;
        assert(0 <= (used * 1_000_000) / capacity <= 1_000_000) by (nonlinear_arith)
            requires
                0 <= used <= capacity,
                capacity > 0,
        ;
    }
}

/// Watermarks are a policy exactly where the low one is above nothing, the high one
/// below everything, and the low one below the high one.
pub proof fn law_watermarks_that_make_a_policy(high: u32, low: u32)
    ensures
        MemoryEvictionConfig::watermark_fault(high, low) is None <==> 0 < low < high < 1_000_000,
        high == 0 || high >= 1_000_000 ==> MemoryEvictionConfig::watermark_fault(high, low) == Some(
            MemoryEvictionConfigError::InvalidHighWatermark,
        ),
        0 < high < 1_000_000 && (low == 0 || low >= 1_000_000)
            ==> MemoryEvictionConfig::watermark_fault(high, low) == Some(
            MemoryEvictionConfigError::InvalidLowWatermark,
        ),
        0 < high < 1_000_000 && high <= low < 1_000_000 ==> MemoryEvictionConfig::watermark_fault(
            high,
            low,
        ) == Some(MemoryEvictionConfigError::LowNotBelowHigh),
{
}

} // verus!
