//! This machine: its chip, memory and runtimes.

use vstd::prelude::*;

use crate::catalog::ollama_registry::{low32_or_zero, low_bits_or_zero};
use crate::numeral::saturated;

pub mod chip;
pub mod probe;
pub mod runtimes;

pub use chip::{ChipFamily, ChipVariant};
pub use probe::{MockProbe, SystemProbe};
pub use runtimes::{RuntimeStatus, RuntimesStatus};

verus! {

/// Memory that the GPU can address.
#[derive(Debug, Clone, Copy)]
pub struct GpuMemory {
    pub metal_limit_bytes: Option<u64>,
    pub sysctl_wired_limit_bytes: Option<u64>,
    pub effective_limit_bytes: u64,
}

#[derive(Debug)]
pub struct HardwareProfile {
    pub chip_name: String,
    pub family: ChipFamily,
    pub variant: ChipVariant,
    pub ram_total_bytes: u64,
    pub perf_cores: u32,
    pub efficiency_cores: u32,
    /// In hundredths of a gigabyte per second.
    pub bandwidth: u32,
    pub bandwidth_estimated: bool,
    pub gpu: GpuMemory,
    pub runtimes: RuntimesStatus,
}

/// `HardwareProfile` without its storage.
pub ghost struct Profile {
    pub chip_name: Seq<char>,
    pub family: ChipFamily,
    pub variant: ChipVariant,
    pub ram_total_bytes: u64,
    pub perf_cores: u32,
    pub efficiency_cores: u32,
    pub bandwidth: u32,
    pub bandwidth_estimated: bool,
    pub gpu: GpuMemory,
    pub runtimes: runtimes::Runtimes,
}

impl View for HardwareProfile {
    type V = Profile;

    open spec fn view(&self) -> Profile {
        Profile {
            chip_name: self.chip_name@,
            family: self.family,
            variant: self.variant,
            ram_total_bytes: self.ram_total_bytes,
            perf_cores: self.perf_cores,
            efficiency_cores: self.efficiency_cores,
            bandwidth: self.bandwidth,
            bandwidth_estimated: self.bandwidth_estimated,
            gpu: self.gpu,
            runtimes: self.runtimes@,
        }
    }
}

/// What a scan reads.
#[derive(Debug)]
pub struct Readings {
    pub brand: Option<String>,
    pub memory: Option<u64>,
    pub perf_cores: Option<u64>,
    pub efficiency_cores: Option<u64>,
    pub working_set: Option<u64>,
    pub wired_limit_mb: Option<u64>,
}

/// The limit that was set for the GPU, in bytes; zero counts as none.
pub open spec fn wired_limit(mb: Option<u64>) -> Option<u64> {
    match mb {
        Some(n) if n > 0 => Some(saturated(n as nat * 1_048_576)),
        _ => None,
    }
}

/// What the GPU can address: its working set, else the limit that was set,
/// else three quarters of the memory.
pub open spec fn effective_limit(working_set: Option<u64>, wired: Option<u64>, ram: u64) -> u64 {
    match working_set {
        Some(n) => n,
        None => match wired {
            Some(n) => n,
            None => (ram * 3 / 4) as u64,
        },
    }
}

/// The profile that the readings give.
pub open spec fn profile_of(
    brand: Option<Seq<char>>,
    memory: Option<u64>,
    perf_cores: Option<u64>,
    efficiency_cores: Option<u64>,
    working_set: Option<u64>,
    wired_limit_mb: Option<u64>,
    runtimes: runtimes::Runtimes,
) -> Profile {
    let chip_name = match brand {
        Some(s) => s,
        None => "unknown"@,
    };
    let family = chip::family_in(chip_name);
    let variant = chip::variant_in(chip_name);
    let ram = match memory {
        Some(n) => n,
        None => 0,
    };
    let cores = low32_or_zero(perf_cores);
    let wired = wired_limit(wired_limit_mb);
    let published = chip::published_bandwidth(family, variant, cores);
    Profile {
        chip_name,
        family,
        variant,
        ram_total_bytes: ram,
        perf_cores: cores,
        efficiency_cores: low32_or_zero(efficiency_cores),
        bandwidth: match published {
            Some(b) => b,
            None => chip::guessed_bandwidth(family, variant),
        },
        bandwidth_estimated: published is None,
        gpu: GpuMemory {
            metal_limit_bytes: working_set,
            sysctl_wired_limit_bytes: wired,
            effective_limit_bytes: effective_limit(working_set, wired, ram),
        },
        runtimes,
    }
}

/// The GPU may take what it says itself; else the limit that was set, in
/// MiB, where one was; else three quarters of the memory, but for a byte.
pub proof fn limit_is_the_best_known(
    working_set: Option<u64>,
    mb: Option<u64>,
    ram: u64,
)
    ensures
        ({
            let limit = effective_limit(working_set, wired_limit(mb), ram);
            &&& working_set is Some ==> Some(limit) == working_set
            &&& working_set is None && mb is Some && 0 < mb->Some_0 * 1024 * 1024 <= u64::MAX
                ==> limit == mb->Some_0 * 1024 * 1024
            &&& working_set is None && (mb is None || mb == Some(0u64)) ==> 4 * limit <= 3 * ram < 4
                * limit + 4
        }),
{
}

/// A profile says of the memory, the cores and the limit what the machine
/// told, and of the bandwidth what holds of the chip that its brand names.
pub proof fn profile_says_what_was_told(
    brand: Option<Seq<char>>,
    memory: Option<u64>,
    perf_cores: Option<u64>,
    efficiency_cores: Option<u64>,
    working_set: Option<u64>,
    wired_limit_mb: Option<u64>,
    runtimes: runtimes::Runtimes,
)
    ensures
        ({
            let p = profile_of(
                brand,
                memory,
                perf_cores,
                efficiency_cores,
                working_set,
                wired_limit_mb,
                runtimes,
            );
            &&& brand is Some ==> Some(p.chip_name) == brand
            &&& memory is Some ==> Some(p.ram_total_bytes) == memory
            &&& perf_cores is Some && perf_cores->Some_0 <= u32::MAX ==> p.perf_cores == perf_cores->Some_0
            &&& efficiency_cores is Some && efficiency_cores->Some_0 <= u32::MAX ==> p.efficiency_cores == efficiency_cores->Some_0
            &&& p.gpu.metal_limit_bytes == working_set
            &&& p.bandwidth == chip::bandwidth_of(p.family, p.variant, p.perf_cores)
            &&& p.bandwidth_estimated <==> chip::published_bandwidth(
                p.family,
                p.variant,
                p.perf_cores,
            ) is None
            &&& p.family == chip::family_in(p.chip_name)
            &&& p.variant == chip::variant_in(p.chip_name)
            &&& p.runtimes == runtimes
        }),
{
}

/// The profile that the readings give.
pub fn profile_from(r: Readings, runtimes: RuntimesStatus) -> (p: HardwareProfile)
    ensures
        p@ == profile_of(
            r.brand.deep_view(),
            r.memory,
            r.perf_cores,
            r.efficiency_cores,
            r.working_set,
            r.wired_limit_mb,
            runtimes@,
        ),
{
    let chip_name = match r.brand {
        Some(s) => s,
        None => "unknown".to_owned(),
    };
    let (family, variant) = chip::parse_brand_string(chip_name.as_str());
    let ram: u64 = match r.memory {
        Some(n) => n,
        None => 0,
    };
    let perf_cores: u32 = low_bits_or_zero(r.perf_cores);
    let efficiency_cores: u32 = low_bits_or_zero(r.efficiency_cores);
    let (bandwidth, bandwidth_estimated) = chip::bandwidth_gbps(family, variant, perf_cores);
    let wired: Option<u64> = match r.wired_limit_mb {
        Some(mb) => if mb > 0 {
            match mb.checked_mul(1_048_576) {
                Some(n) => Some(n),
                None => Some(u64::MAX),
            }
        } else {
            None
        },
        None => None,
    };
    let effective: u64 = match r.working_set {
        Some(n) => n,
        None => match wired {
            Some(n) => n,
            None => (ram as u128 * 3 / 4) as u64,
        },
    };
    HardwareProfile {
        chip_name,
        family,
        variant,
        ram_total_bytes: ram,
        perf_cores,
        efficiency_cores,
        bandwidth,
        bandwidth_estimated,
        gpu: GpuMemory {
            metal_limit_bytes: r.working_set,
            sysctl_wired_limit_bytes: wired,
            effective_limit_bytes: effective,
        },
        runtimes,
    }
}

/// `p` is the profile of some answers that the machine may give.
pub open spec fn is_scan<P: SystemProbe>(probe: P, p: Profile) -> bool {
    exists|
        brand: Option<Seq<char>>,
        memory: Option<u64>,
        perf: Option<u64>,
        efficiency: Option<u64>,
        working_set: Option<u64>,
        wired: Option<u64>,
        rt: runtimes::Runtimes,
    |
        {
            &&& #[trigger] probe.tells_text("machdep.cpu.brand_string"@, brand)
            &&& #[trigger] probe.tells_number("hw.memsize"@, memory)
            &&& #[trigger] probe.tells_number("hw.perflevel0.physicalcpucount"@, perf)
            &&& #[trigger] probe.tells_number("hw.perflevel1.physicalcpucount"@, efficiency)
            &&& #[trigger] probe.tells_working_set(working_set)
            &&& #[trigger] probe.tells_number("iogpu.wired_limit_mb"@, wired)
            &&& #[trigger] runtimes::is_detected(probe, rt)
            &&& p == profile_of(brand, memory, perf, efficiency, working_set, wired, rt)
        }
}

/// Reads this machine.
pub fn scan<P: SystemProbe>(probe: &P) -> (r: HardwareProfile)
    ensures
        is_scan(*probe, r@),
{
    let readings = Readings {
        brand: probe.sysctl_string("machdep.cpu.brand_string"),
        memory: probe.sysctl_u64("hw.memsize"),
        perf_cores: probe.sysctl_u64("hw.perflevel0.physicalcpucount"),
        efficiency_cores: probe.sysctl_u64("hw.perflevel1.physicalcpucount"),
        working_set: probe.gpu_recommended_working_set(),
        wired_limit_mb: probe.sysctl_u64("iogpu.wired_limit_mb"),
    };
    let runtimes = runtimes::detect_runtimes(probe);
    assert(probe.tells_text("machdep.cpu.brand_string"@, readings.brand.deep_view()));
    assert(probe.tells_number("hw.memsize"@, readings.memory));
    assert(probe.tells_number("hw.perflevel0.physicalcpucount"@, readings.perf_cores));
    assert(probe.tells_number("hw.perflevel1.physicalcpucount"@, readings.efficiency_cores));
    assert(probe.tells_working_set(readings.working_set));
    assert(probe.tells_number("iogpu.wired_limit_mb"@, readings.wired_limit_mb));
    assert(runtimes::is_detected(*probe, runtimes@));
    profile_from(readings, runtimes)
}

} // verus!
