//! What a machine can do, and which role a fleet gives it.
use vstd::prelude::*;

use crate::text::{copy_all, texts};

verus! {

/// An operating system, as far as scheduling tells them apart.
#[derive(Debug, Clone, Copy, PartialEq, Eq, Structural)]
pub enum Os {
    /// Linux.
    Linux,
    /// macOS.
    MacOs,
    /// Anything else.
    Other,
}

impl Os {
    /// The system's name.
    pub open spec fn spec_name(self) -> Seq<char> {
        match self {
            Os::Linux => "Linux"@,
            Os::MacOs => "MacOs"@,
            Os::Other => "Other"@,
        }
    }

    /// The system's name.
    pub fn name(self) -> (r: &'static str)
        ensures
            r@ == self.spec_name(),
            r@ == match self {
                Os::Linux => "Linux"@,
                Os::MacOs => "MacOs"@,
                Os::Other => "Other"@,
            },
    {
        match self {
            Os::Linux => "Linux",
            Os::MacOs => "MacOs",
            Os::Other => "Other",
        }
    }
}

/// The part a host plays in a run.
#[derive(Debug, Clone, Copy, PartialEq, Eq, Structural)]
pub enum Role {
    /// The host runs tasks.
    Compute,
    /// The host is left out of the run.
    Excluded,
}

impl Role {
    /// The role's name.
    pub open spec fn spec_name(self) -> Seq<char> {
        match self {
            Role::Compute => "Compute"@,
            Role::Excluded => "Excluded"@,
        }
    }

    /// The role's name.
    pub fn name(self) -> (r: &'static str)
        ensures
            r@ == self.spec_name(),
            r@ == match self {
                Role::Compute => "Compute"@,
                Role::Excluded => "Excluded"@,
            },
    {
        match self {
            Role::Compute => "Compute",
            Role::Excluded => "Excluded",
        }
    }
}

/// A processor architecture.
#[derive(Debug, Clone, PartialEq, Eq)]
pub struct CpuArch {
    /// The instruction set, such as `x86_64`; empty when unknown.
    pub isa: String,
    /// Instruction-set extensions.
    pub features: Vec<String>,
}

/// Who made a GPU.
#[derive(Debug, Clone, Copy, PartialEq, Eq, Structural)]
pub enum GpuVendor {
    /// NVIDIA.
    Nvidia,
    /// AMD.
    Amd,
    /// Apple.
    Apple,
}

/// The compute runtime a GPU offers.
#[derive(Debug, Clone, Copy, PartialEq, Eq, Structural)]
pub enum GpuRuntime {
    /// CUDA.
    Cuda,
    /// `ROCm`.
    Rocm,
    /// Metal.
    Metal,
}

/// One GPU of a host.
#[derive(Debug, Clone, PartialEq, Eq)]
pub struct Gpu {
    /// Who made it.
    pub vendor: GpuVendor,
    /// The runtime usable on it, if any.
    pub runtime: Option<GpuRuntime>,
    /// The model name.
    pub model: String,
    /// Its memory in megabytes, if known.
    pub vram_mb: Option<u64>,
}

/// A host's probed capabilities.
#[derive(Debug, Clone, PartialEq, Eq)]
pub struct NodeProfile {
    /// The operating system.
    pub os: Os,
    /// The processor architecture.
    pub arch: CpuArch,
    /// Logical processor count.
    pub cores: u32,
    /// Memory in megabytes.
    pub ram_mb: u64,
    /// The GPUs found.
    pub gpus: Vec<Gpu>,
}

/// A [`Gpu`] as a mathematical value.
pub struct GpuModel {
    pub vendor: GpuVendor,
    pub runtime: Option<GpuRuntime>,
    pub model: Seq<char>,
    pub vram_mb: Option<u64>,
}

/// A [`NodeProfile`] as a mathematical value.
pub struct ProfileModel {
    pub os: Os,
    pub isa: Seq<char>,
    pub features: Seq<Seq<char>>,
    pub cores: u32,
    pub ram_mb: u64,
    pub gpus: Seq<GpuModel>,
}

impl View for Gpu {
    type V = GpuModel;

    open spec fn view(&self) -> GpuModel {
        GpuModel {
            vendor: self.vendor,
            runtime: self.runtime,
            model: self.model@,
            vram_mb: self.vram_mb,
        }
    }
}

/// The GPUs of a host as mathematical values.
pub open spec fn gpu_models(v: Seq<Gpu>) -> Seq<GpuModel> {
    Seq::new(v.len(), |i: int| v[i]@)
}

impl View for NodeProfile {
    type V = ProfileModel;

    open spec fn view(&self) -> ProfileModel {
        ProfileModel {
            os: self.os,
            isa: self.arch.isa@,
            features: texts(self.arch.features@),
            cores: self.cores,
            ram_mb: self.ram_mb,
            gpus: gpu_models(self.gpus@),
        }
    }
}

impl CpuArch {
    /// An architecture nothing is known of.
    pub fn unknown() -> (r: CpuArch)
        ensures
            r.isa@.len() == 0,
            r.features@.len() == 0,
    {
        CpuArch { isa: String::new(), features: Vec::new() }
    }
}

impl Gpu {
    /// An equal GPU.
    pub fn copy(&self) -> (r: Gpu)
        ensures
            r@ == self@,
    {
        Gpu {
            vendor: self.vendor,
            runtime: self.runtime,
            model: self.model.clone(),
            vram_mb: self.vram_mb,
        }
    }
}

impl NodeProfile {
    /// A profile nothing is known of.
    pub fn unknown() -> (r: NodeProfile)
        ensures
            r@ == (ProfileModel {
                os: Os::Other,
                isa: Seq::empty(),
                features: Seq::empty(),
                cores: 0,
                ram_mb: 0,
                gpus: Seq::empty(),
            }),
    {
        let r = NodeProfile {
            os: Os::Other,
            arch: CpuArch::unknown(),
            cores: 0,
            ram_mb: 0,
            gpus: Vec::new(),
        };
        proof {
            assert(r@.isa =~= Seq::empty());
            assert(r@.features =~= Seq::empty());
            assert(r@.gpus =~= Seq::empty());
        }
        r
    }

    /// An equal profile.
    pub fn copy(&self) -> (r: NodeProfile)
        ensures
            r@ == self@,
    {
        let mut gpus: Vec<Gpu> = Vec::new();
        let mut i: usize = 0;
        while i < self.gpus.len()
            invariant
                i <= self.gpus@.len(),
                gpus@.len() == i,
                forall|j: int| 0 <= j < i ==> (#[trigger] gpus@[j])@ == self.gpus@[j]@,
            decreases self.gpus@.len() - i,
        {
            gpus.push(self.gpus[i].copy());
            i += 1;
        }
        let r = NodeProfile {
            os: self.os,
            arch: CpuArch {
                isa: self.arch.isa.clone(),
                features: copy_all(&self.arch.features),
            },
            cores: self.cores,
            ram_mb: self.ram_mb,
            gpus,
        };
        proof {
            assert(r@.gpus =~= self@.gpus);
        }
        r
    }
}

/// A condition on a host's capabilities.
#[derive(Debug, Clone, Copy, PartialEq, Eq, Structural)]
pub enum Predicate {
    /// The host runs this operating system.
    OsIs(Os),
    /// Some GPU of the host offers this runtime.
    HasRuntime(GpuRuntime),
}

impl Predicate {
    /// Whether a host with this profile meets the condition.
    pub open spec fn holds(self, profile: ProfileModel) -> bool {
        match self {
            Predicate::OsIs(os) => profile.os == os,
            Predicate::HasRuntime(runtime) => exists|i: int|
                0 <= i < profile.gpus.len() && (#[trigger] profile.gpus[i]).runtime == Some(runtime),
        }
    }

    /// Whether a host with this profile meets the condition.
    pub fn eval(&self, profile: &NodeProfile) -> (r: bool)
        ensures
            r == self.holds(profile@),
    {
        match *self {
            Predicate::OsIs(os) => profile.os == os,
            Predicate::HasRuntime(runtime) => {
                let mut i: usize = 0;
                while i < profile.gpus.len()
                    invariant
                        i <= profile.gpus@.len(),
                        *self == Predicate::HasRuntime(runtime),
                        forall|j: int|
                            0 <= j < i ==> (#[trigger] profile@.gpus[j]).runtime != Some(runtime),
                    decreases profile.gpus@.len() - i,
                {
                    assert(profile@.gpus[i as int].runtime == profile.gpus@[i as int].runtime);
                    match profile.gpus[i].runtime {
                        Some(found) => {
                            if found == runtime {
                                return true;
                            }
                        },
                        None => {},
                    }
                    i += 1;
                }
                false
            },
        }
    }
}

/// A fleet's rule for giving each probed host its role.
#[derive(Debug, Clone, Copy)]
pub struct Filter {
    /// The condition a compute host meets; `None` lets every host compute.
    pub condition: Option<Predicate>,
}

impl Filter {
    /// The role a host with this profile gets.
    pub open spec fn role_for(self, profile: ProfileModel) -> Role {
        match self.condition {
            None => Role::Compute,
            Some(condition) => if condition.holds(profile) {
                Role::Compute
            } else {
                Role::Excluded
            },
        }
    }

    /// A filter that lets every host compute.
    pub fn new() -> (r: Filter)
        ensures
            r.condition is None,
    {
        Filter { condition: None }
    }

    /// Let only the hosts meeting `condition` compute.
    pub fn compute(self, condition: Predicate) -> (r: Filter)
        ensures
            r.condition == Some(condition),
    {
        Filter { condition: Some(condition) }
    }

    /// The role a host with this profile gets.
    pub fn role_of(&self, profile: &NodeProfile) -> (r: Role)
        ensures
            r == self.role_for(profile@),
    {
        match self.condition {
            None => Role::Compute,
            Some(condition) => if condition.eval(profile) {
                Role::Compute
            } else {
                Role::Excluded
            },
        }
    }
}

/// A condition on the system is met by that system alone; one on a runtime by a host
/// with a GPU that offers it, and by no host without one.
pub proof fn law_conditions_look_at_the_profile(profile: ProfileModel, os: Os, runtime: GpuRuntime)
    ensures
        Predicate::OsIs(os).holds(profile) <==> profile.os == os,
        (forall|i: int|
            0 <= i < profile.gpus.len() ==> (#[trigger] profile.gpus[i]).runtime != Some(runtime))
            ==> !Predicate::HasRuntime(runtime).holds(profile),
        forall|i: int|
            0 <= i < profile.gpus.len() && (#[trigger] profile.gpus[i]).runtime == Some(runtime)
                ==> Predicate::HasRuntime(runtime).holds(profile),
{
}

/// A filter without a condition lets every host compute; one with a condition lets
/// compute exactly the hosts that meet it, and leaves the others out.
pub proof fn law_a_filter_lets_compute_who_meets_it(profile: ProfileModel, condition: Predicate)
    ensures
        (Filter { condition: None }).role_for(profile) == Role::Compute,
        condition.holds(profile) ==> (Filter { condition: Some(condition) }).role_for(profile)
            == Role::Compute,
        !condition.holds(profile) ==> (Filter { condition: Some(condition) }).role_for(profile)
            == Role::Excluded,
{
}

} // verus!
