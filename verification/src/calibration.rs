//! Calibration of the speed estimates to this machine.
//!
//! With a nearly empty context the key/value cache does not count, so that a
//! measured speed gives the share of the bandwidth in use:
//! speed * bytes per token / bandwidth. One entry per class of models; the
//! last measurement counts.

use vstd::prelude::*;

use crate::double::{less, nearest, product, quotient, text_with_thousandths, Double};
use crate::error::{Failure, PaddockError};
use crate::estimate::{
    bits_number, bits_of, generation_tps, share_of, speed_is_bandwidth_over_bytes, Figures, ModelVariant,
    SpeedCalibration, BIT,
};
use crate::paths::{join_path, set_or_below};
use crate::precision::{
    about_something, is_about, nearest_is_close, product_is_close, quotient_is_close,
    same_ratio_is_close,
};
use crate::rounding::{
    at_most, is_number, nearest_keeps_order, order_is_transitive, rounding_keeps_order,
};

verus! {

/// The class of models that an entry applies to.
#[derive(Debug, Clone, Copy, PartialEq, Eq, Structural)]
pub enum ModelClass {
    Dense,
    Moe,
}

/// A model with fewer active parameters than parameters is a mixture of experts.
pub open spec fn class_of(v: Figures) -> ModelClass {
    if v.params_active < v.params_total {
        ModelClass::Moe
    } else {
        ModelClass::Dense
    }
}

/// A variant is of the class whose share its speed is estimated with: of the
/// dense models exactly if all its parameters are active.
pub proof fn class_is_that_of_the_share(c: SpeedCalibration, v: Figures)
    ensures
        class_of(v) == ModelClass::Dense <==> v.params_active >= v.params_total,
        class_of(v) == ModelClass::Dense ==> share_of(c, v) == c.dense,
        class_of(v) == ModelClass::Moe ==> share_of(c, v) == c.moe,
{
}

impl ModelClass {
    pub fn of(v: &ModelVariant) -> (r: ModelClass)
        ensures
            r == class_of(v@),
    {
        if v.params_active < v.params_total {
            ModelClass::Moe
        } else {
            ModelClass::Dense
        }
    }

    pub fn label(&self) -> (r: &'static str)
        ensures
            r@ == match *self {
                ModelClass::Dense => "dense"@,
                ModelClass::Moe => "moe"@,
            },
    {
        match self {
            ModelClass::Dense => "dense",
            ModelClass::Moe => "moe",
        }
    }
}

/// One measurement.
#[derive(Debug)]
pub struct CalibrationEntry {
    pub efficiency: Double,
    /// What was measured, for people.
    pub model: String,
    /// Unix seconds.
    pub measured_at: i64,
}

/// The measurements of this machine.
#[derive(Debug)]
pub struct CalibrationFile {
    pub dense: Option<CalibrationEntry>,
    pub moe: Option<CalibrationEntry>,
}

impl Default for CalibrationFile {
    fn default() -> (r: CalibrationFile)
        ensures
            r.dense is None,
            r.moe is None,
    {
        CalibrationFile { dense: None, moe: None }
    }
}

/// The entry of a class.
pub open spec fn entry_for(f: CalibrationFile, class: ModelClass) -> Option<CalibrationEntry> {
    match class {
        ModelClass::Dense => f.dense,
        ModelClass::Moe => f.moe,
    }
}

/// An efficiency that a file can hold.
pub open spec fn is_efficiency(d: Double) -> bool {
    d.wf() && -1_200 <= d.exponent <= 1_200
}

impl CalibrationFile {
    /// Replaces the entry of a class; the other one stays.
    pub fn set(&mut self, class: ModelClass, entry: CalibrationEntry)
        ensures
            entry_for(*final(self), class) == Some(entry),
            forall|other: ModelClass|
                other != class ==> entry_for(*final(self), other) == entry_for(*old(self), other),
    {
        match class {
            ModelClass::Dense => {
                self.dense = Some(entry);
            },
            ModelClass::Moe => {
                self.moe = Some(entry);
            },
        }
    }

    /// The shares of the bandwidth to estimate with: measured where there is a
    /// measurement, the defaults elsewhere.
    pub fn to_speed_calibration(&self) -> (r: SpeedCalibration)
        requires
            self.dense matches Some(e) ==> is_efficiency(e.efficiency),
            self.moe matches Some(e) ==> is_efficiency(e.efficiency),
        ensures
            r.wf(),
            r.dense@ == match self.dense {
                Some(e) => e.efficiency@,
                None => nearest(3, 4),
            },
            r.moe@ == match self.moe {
                Some(e) => e.efficiency@,
                None => nearest(3, 10),
            },
    {
        let d = SpeedCalibration::default();
        SpeedCalibration {
            dense: match &self.dense {
                Some(e) => e.efficiency,
                None => d.dense,
            },
            moe: match &self.moe {
                Some(e) => e.efficiency,
                None => d.moe,
            },
        }
    }
}

/// The share of the bandwidth that a measured speed gives; zero where the
/// speed, the parameters, the bits per weight or the bandwidth are.
pub open spec fn measured_share(tps: (nat, int), params_active: u64, bpw: u64, bandwidth: u32) -> (
    nat,
    int,
) {
    if tps.0 == 0 || params_active == 0 || bpw == 0 || bandwidth == 0 {
        (0, 0)
    } else {
        quotient(
            product(
                tps,
                quotient(
                    product(nearest(params_active as nat, 1), bits_of(bpw)),
                    nearest(8, 1),
                ),
            ),
            product(nearest(bandwidth as nat, 100), nearest(1_000_000_000, 1)),
        )
    }
}

/// The share of the bandwidth that a measured speed gives. The bandwidth is
/// in hundredths of a gigabyte per second.
pub fn efficiency_from_measurement(
    measured_tps: Double,
    params_active: u64,
    bpw: u64,
    bandwidth: u32,
) -> (r: Double)
    requires
        measured_tps.wf(),
        -3_000 <= measured_tps.exponent <= 3_000,
    ensures
        r@ == measured_share(measured_tps@, params_active, bpw, bandwidth),
        r.wf(),
        -9_000 <= r.exponent <= 9_000,
{
    if measured_tps.mantissa == 0 || params_active == 0 || bpw == 0 || bandwidth == 0 {
        return Double { mantissa: 0, exponent: 0 };
    }
    let bytes = Double::of_ratio(params_active, 1).times(bits_number(bpw)).over(
        Double::of_ratio(8, 1),
    );
    let per_second = Double::of_ratio(bandwidth as u64, 100).times(
        Double::of_ratio(1_000_000_000, 1),
    );
    measured_tps.times(bytes).over(per_second)
}

/// A share of the bandwidth that a machine can reach: more than a twentieth,
/// less than one and a half. Outside it the measurement or the catalog is wrong.
pub open spec fn is_plausible(share: (nat, int)) -> bool {
    less(nearest(1, 20), share) && less(share, nearest(3, 2))
}

pub open spec fn implausible_failure(share: (nat, int)) -> Failure {
    Failure::Other(
        "implausible efficiency "@ + text_with_thousandths(share)
            + " (expected between 0.05 and 1.5); the served model probably does not match its catalog entry"@,
    )
}

/// Refuses a share of the bandwidth that no machine can reach.
pub fn validate_efficiency(eff: Double) -> (r: Result<Double, PaddockError>)
    requires
        eff.wf(),
    ensures
        match r {
            Ok(d) => d == eff && is_plausible(eff@),
            Err(e) => !is_plausible(eff@) && e@ == implausible_failure(eff@),
        },
{
    let least = Double::of_ratio(1, 20);
    let most = Double::of_ratio(3, 2);
    if least.is_less(eff) && eff.is_less(most) {
        Ok(eff)
    } else {
        let mut m = "implausible efficiency ".to_owned();
        m.append(eff.thousandths_text().as_str());
        m.append(
            " (expected between 0.05 and 1.5); the served model probably does not match its catalog entry",
        );
        Err(PaddockError::Other(m))
    }
}

/// A measurement without a speed, parameters, bits or bandwidth is refused.
pub proof fn empty_measurement_is_refused(tps: (nat, int), params: u64, bpw: u64, bandwidth: u32)
    requires
        tps.0 == 0 || params == 0 || bpw == 0 || bandwidth == 0,
    ensures
        !is_plausible(measured_share(tps, params, bpw, bandwidth)),
{
    let x = nearest(1, 20);
    vstd::arithmetic::power2::lemma_pow2_pos(
        (if x.1 >= 0 {
            x.1
        } else {
            -x.1
        }) as nat,
    );
    if x.1 < 0 {
        assert(0 * vstd::arithmetic::power2::pow2((0 - x.1) as nat) == 0);
    }
}

/// The share measured is the speed times the bytes of a token, over the
/// bandwidth: but for 22 parts in 2^53 more than the speed is off by.
pub proof fn share_is_speed_times_bytes_over_bandwidth(
    tps: (nat, int),
    params_active: u64,
    bpw: u64,
    bandwidth: u32,
    a: nat,
    b: nat,
    c: nat,
)
    requires
        is_about(tps, a, b, c),
        a > 0,
        c <= 100,
        params_active > 0,
        bpw > 0,
        bandwidth > 0,
    ensures
        is_about(
            measured_share(tps, params_active, bpw, bandwidth),
            (a * (params_active * bpw)) as nat,
            (b * (8 * BIT) * (bandwidth * 10_000_000)) as nat,
            c + 22,
        ),
{
    let (p, w) = (params_active as nat, bpw as nat);
    let (x, y) = (nearest(p, 1), bits_of(bpw));
    let bytes = quotient(product(x, y), nearest(8, 1));
    about_something(tps, a, b, c);
    nearest_is_close(8, 1);
    nearest_is_close(p, 1);
    nearest_is_close(w, BIT as nat);
    product_is_close(x, y, p, 1, w, BIT as nat, 1, 1);
    quotient_is_close(product(x, y), nearest(8, 1), p * w, 1 * BIT as nat, 8, 1, 5, 1);
    let q = (8 * BIT) as nat;
    let (base, giga) = (nearest(bandwidth as nat, 100), nearest(1_000_000_000, 1));
    nearest_is_close(bandwidth as nat, 100);
    nearest_is_close(1_000_000_000, 1);
    product_is_close(base, giga, bandwidth as nat, 100, 1_000_000_000, 1, 1, 1);
    let rate = product(base, giga);
    let r = bandwidth as nat * 10_000_000;
    same_ratio_is_close(rate, bandwidth as nat * 1_000_000_000, 100 * 1, r, 1, 5);
    product_is_close(tps, bytes, a, b, p * w * 1, q, c, 10);
    quotient_is_close(product(tps, bytes), rate, a * (p * w * 1), b * q, r, 1, c + 13, 5);
    assert(a * (p * w * 1) * 1 == a * (p * w));
}

/// Calibration undoes the estimate: the share measured from the speed that a
/// share was estimated at, with an empty cache, is that share, but for 63 parts
/// in 2^53.
pub proof fn measuring_the_estimate_gives_the_share_back(
    v: Figures,
    bandwidth: u32,
    share: (nat, int),
    a: nat,
    b: nat,
)
    requires
        v.params_active > 0,
        v.bpw > 0,
        bandwidth > 0,
        is_about(share, a, b, 10),
        a > 0,
    ensures
        is_about(
            measured_share(
                generation_tps(v, bandwidth, 0, share),
                v.params_active,
                v.bpw,
                bandwidth,
            ),
            a,
            b,
            63,
        ),
{
    speed_is_bandwidth_over_bytes(v, bandwidth, 0, share, a, b);
    about_something(share, a, b, 10);
    let tps = generation_tps(v, bandwidth, 0, share);
    let (m, r, q) = (
        (v.params_active * v.bpw) as nat,
        (bandwidth * 10_000_000) as nat,
        (8 * BIT) as nat,
    );
    assert(m > 0) by (nonlinear_arith)
        requires
            m == v.params_active * v.bpw,
            v.params_active > 0,
            v.bpw > 0,
    ;
    assert(8 * BIT * 0u64 == 0);
    assert(r * q * a > 0) by (nonlinear_arith)
        requires
            r > 0,
            q > 0,
            a > 0,
    ;
    assert((v.params_active * v.bpw + 8 * BIT * 0u64) * b == m * b);
    share_is_speed_times_bytes_over_bandwidth(
        tps,
        v.params_active,
        v.bpw,
        bandwidth,
        r * q * a,
        m * b,
        41,
    );
    let x = measured_share(tps, v.params_active, v.bpw, bandwidth);
    let (p, s) = (r * q * a * m, m * b * q * r);
    assert(p * b == a * s) by (nonlinear_arith)
        requires
            p == r * q * a * m,
            s == m * b * q * r,
    ;
    assert(s > 0) by (nonlinear_arith)
        requires
            s == m * b * q * r,
            m > 0,
            b > 0,
            q > 0,
            r > 0,
    ;
    same_ratio_is_close(x, p, s, a, b, 63);
}

/// Everything between two plausible shares is plausible too.
pub proof fn plausible_shares_are_a_range(x: (nat, int), y: (nat, int), z: (nat, int))
    requires
        is_number(x),
        is_number(y),
        is_number(z),
        is_plausible(x),
        is_plausible(z),
        at_most(x, y),
        at_most(y, z),
    ensures
        is_plausible(y),
{
    nearest_keeps_order(1, 1, 20);
    nearest_keeps_order(3, 3, 2);
    if !less(nearest(1, 20), y) {
        order_is_transitive(x, y, nearest(1, 20));
    }
    if !less(y, nearest(3, 2)) {
        order_is_transitive(nearest(3, 2), y, z);
    }
}

/// A share of a twentieth or less, or of one and a half or more, is refused.
pub proof fn extreme_shares_are_refused(x: (nat, int))
    requires
        is_number(x),
        at_most(x, nearest(1, 20)) || at_most(nearest(3, 2), x),
    ensures
        !is_plausible(x),
{
}

/// Every ratio well between a twentieth and one and a half is plausible.
pub proof fn common_shares_are_plausible(a: nat, b: nat)
    requires
        b > 0,
        16 * a > b,
        a <= b,
    ensures
        is_plausible(nearest(a, b)),
{
    vstd::arithmetic::power2::lemma2_to64();
    let x = nearest(a, b);
    crate::rounding::rounded_is_number(a, b, 0);
    nearest_keeps_order(1, 1, 20);
    nearest_keeps_order(1, 1, 16);
    nearest_keeps_order(3, 3, 2);
    nearest_keeps_order(1, 1, 1);
    assert(1 * b * 1 <= a * 16 * 1) by (nonlinear_arith)
        requires
            16 * a > b,
    ;
    assert(a * 1 * 1 <= 1 * b * 1) by (nonlinear_arith)
        requires
            a <= b,
    ;
    rounding_keeps_order(1, 16, 0, a, b, 0, 0);
    rounding_keeps_order(a, b, 0, 1, 1, 0, 0);
    vstd::arithmetic::power2::lemma2_to64_rest();
    crate::rounding::small_ratio_rounds(1, 16, 0, 56);
    crate::rounding::small_ratio_rounds(1, 20, 0, 57);
    crate::rounding::small_ratio_rounds(3, 2, 0, 52);
    crate::rounding::small_ratio_rounds(1, 1, 0, 52);
    crate::double::lemma_less(nearest(1, 20), nearest(1, 16));
    crate::double::lemma_less(nearest(1, 1), nearest(3, 2));
    if !less(nearest(1, 20), x) {
        order_is_transitive(nearest(1, 16), x, nearest(1, 20));
    }
    if !less(x, nearest(3, 2)) {
        order_is_transitive(nearest(3, 2), x, nearest(1, 1));
    }
}

/// The calibration file: the path that was set, else `calibration.json` in
/// the application's directory.
pub fn default_calibration_path(set: Option<String>, support_dir: &str) -> (r: String)
    ensures
        r@ == set_or_below(set.deep_view(), support_dir@, "calibration.json"@),
{
    match set {
        Some(p) => p,
        None => join_path(support_dir, "calibration.json"),
    }
}

} // verus!
