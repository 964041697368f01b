//! Reading a host's capabilities out of what its detection commands print.
//!
//! Which commands are run depends on the operating system. A command that fails or
//! is missing counts as having printed nothing, so only the first one decides
//! whether the host can be probed at all.
use vstd::prelude::*;
use vstd::string::*;

use crate::capability::{
    gpu_models, CpuArch, Gpu, GpuModel, GpuRuntime, GpuVendor, NodeProfile, Os, Predicate,
    ProfileModel,
};
use crate::provisioning::{lossy_text, text_of, CommandOutput};
use crate::text::{
    after, after_first, cut, first_number, first_number_in, law_the_first_number, number, pieces,
    same, texts, trim, trimmed,
};

verus! {

/// The command that names the operating system.
pub const OS_COMMAND: &'static str = "uname -s";

/// The operating system that `uname -s` printed.
pub open spec fn os_named(text: Seq<char>) -> Os {
    if trimmed(text) == "Linux"@ {
        Os::Linux
    } else if trimmed(text) == "Darwin"@ {
        Os::MacOs
    } else {
        Os::Other
    }
}

/// The operating system that `uname -s` printed.
pub fn parse_os(text: &str) -> (r: Os)
    ensures
        r == os_named(text@),
{
    let name = trim(text);
    if same(name.as_str(), "Linux") {
        Os::Linux
    } else if same(name.as_str(), "Darwin") {
        Os::MacOs
    } else {
        Os::Other
    }
}

/// The number of processors in `text`; zero where none is named.
pub open spec fn cores_in(text: Seq<char>) -> u32 {
    match first_number_in(text) {
        Some(n) => if n <= u32::MAX {
            n as u32
        } else {
            0
        },
        None => 0,
    }
}

/// The number of processors in `text`; zero where none is named.
pub fn parse_cores(text: &str) -> (r: u32)
    ensures
        r == cores_in(text@),
{
    match first_number(text) {
        Some(n) => if n <= 0xffff_ffff {
            n as u32
        } else {
            0
        },
        None => 0,
    }
}

/// The memory in megabytes that `/proc/meminfo` names in kilobytes; zero where it
/// does not.
pub open spec fn linux_ram_in(text: Seq<char>) -> u64 {
    match after_first(text, "MemTotal:"@, 0) {
        Some(rest) => match first_number_in(rest) {
            Some(kb) => kb / 1024,
            None => 0,
        },
        None => 0,
    }
}

/// The memory in megabytes that `/proc/meminfo` names in kilobytes.
pub fn parse_linux_ram_mb(text: &str) -> (r: u64)
    ensures
        r == linux_ram_in(text@),
{
    match after(text, "MemTotal:") {
        Some(rest) => match first_number(rest.as_str()) {
            Some(kb) => kb / 1024,
            None => 0,
        },
        None => 0,
    }
}

/// The memory in megabytes that `sysctl` names in bytes; zero where it does not.
pub open spec fn macos_ram_in(text: Seq<char>) -> u64 {
    match first_number_in(text) {
        Some(bytes) => bytes / 1_048_576,
        None => 0,
    }
}

/// The memory in megabytes that `sysctl` names in bytes.
pub fn parse_macos_ram_mb(text: &str) -> (r: u64)
    ensures
        r == macos_ram_in(text@),
{
    match first_number(text) {
        Some(bytes) => bytes / 1_048_576,
        None => 0,
    }
}

/// The GPU a line of `system_profiler` names.
pub open spec fn macos_gpu(line: Seq<char>) -> Option<GpuModel> {
    match after_first(line, "Chipset Model:"@, 0) {
        Some(rest) => Some(
            GpuModel {
                vendor: GpuVendor::Apple,
                runtime: Some(GpuRuntime::Metal),
                model: trimmed(rest),
                vram_mb: None,
            },
        ),
        None => None,
    }
}

/// The GPU a line of `nvidia-smi` names: its model and its memory in megabytes,
/// with a comma between.
pub open spec fn nvidia_gpu(line: Seq<char>) -> Option<GpuModel> {
    let fields = pieces(line, ',');
    if fields.len() < 2 {
        None
    } else {
        Some(
            GpuModel {
                vendor: GpuVendor::Nvidia,
                runtime: Some(GpuRuntime::Cuda),
                model: trimmed(fields[0]),
                vram_mb: first_number_in(fields[1]),
            },
        )
    }
}

/// The GPUs the first `n` lines of `system_profiler` name.
pub open spec fn macos_gpus(lines: Seq<Seq<char>>, n: int) -> Seq<GpuModel>
    decreases n,
{
    if n <= 0 {
        Seq::empty()
    } else {
        match macos_gpu(lines[n - 1]) {
            Some(gpu) => macos_gpus(lines, n - 1).push(gpu),
            None => macos_gpus(lines, n - 1),
        }
    }
}

/// The GPUs the first `n` lines of `nvidia-smi` name.
pub open spec fn nvidia_gpus(lines: Seq<Seq<char>>, n: int) -> Seq<GpuModel>
    decreases n,
{
    if n <= 0 {
        Seq::empty()
    } else {
        match nvidia_gpu(lines[n - 1]) {
            Some(gpu) => nvidia_gpus(lines, n - 1).push(gpu),
            None => nvidia_gpus(lines, n - 1),
        }
    }
}

/// The product name in effect after the first `n` lines of `rocminfo`.
pub open spec fn rocm_name(lines: Seq<Seq<char>>, n: int) -> Seq<char>
    decreases n,
{
    if n <= 0 {
        Seq::empty()
    } else {
        match after_first(lines[n - 1], "Marketing Name:"@, 0) {
            Some(rest) => trimmed(rest),
            None => rocm_name(lines, n - 1),
        }
    }
}

/// Whether a line of `rocminfo` says that the device described is a GPU.
pub open spec fn rocm_device(line: Seq<char>) -> bool {
    match after_first(line, "Device Type:"@, 0) {
        Some(rest) => trimmed(rest) == "GPU"@,
        None => false,
    }
}

/// The GPUs the first `n` lines of `rocminfo` describe, each under the product
/// name given before it.
pub open spec fn rocm_gpus(lines: Seq<Seq<char>>, n: int) -> Seq<GpuModel>
    decreases n,
{
    if n <= 0 {
        Seq::empty()
    } else if rocm_device(lines[n - 1]) {
        rocm_gpus(lines, n - 1).push(
            GpuModel {
                vendor: GpuVendor::Amd,
                runtime: Some(GpuRuntime::Rocm),
                model: rocm_name(lines, n - 1),
                vram_mb: None,
            },
        )
    } else {
        rocm_gpus(lines, n - 1)
    }
}

/// The GPUs that `system_profiler` names, one per chipset line.
pub fn parse_macos_gpus(text: &str) -> (r: Vec<Gpu>)
    ensures
        gpu_models(r@) == macos_gpus(pieces(text@, '\n'), pieces(text@, '\n').len() as int),
{
    let lines = cut(text, '\n');
    let mut r: Vec<Gpu> = Vec::new();
    let mut i: usize = 0;
    proof {
        assert(gpu_models(r@) =~= Seq::empty());
    }
    while i < lines.len()
        invariant
            i <= lines@.len(),
            gpu_models(r@) == macos_gpus(texts(lines@), i as int),
        decreases lines@.len() - i,
    {
        let ghost before = r@;
        match after(lines[i].as_str(), "Chipset Model:") {
            Some(rest) => {
                let gpu = Gpu {
                    vendor: GpuVendor::Apple,
                    runtime: Some(GpuRuntime::Metal),
                    model: trim(rest.as_str()),
                    vram_mb: None,
                };
                r.push(gpu);
                proof {
                    assert(gpu_models(r@) =~= gpu_models(before).push(gpu@));
                }
            },
            None => {},
        }
        i += 1;
    }
    r
}

/// The GPUs that `nvidia-smi` lists, one per line.
pub fn parse_nvidia_smi(text: &str) -> (r: Vec<Gpu>)
    ensures
        gpu_models(r@) == nvidia_gpus(pieces(text@, '\n'), pieces(text@, '\n').len() as int),
{
    let lines = cut(text, '\n');
    let mut r: Vec<Gpu> = Vec::new();
    let mut i: usize = 0;
    proof {
        assert(gpu_models(r@) =~= Seq::empty());
    }
    while i < lines.len()
        invariant
            i <= lines@.len(),
            gpu_models(r@) == nvidia_gpus(texts(lines@), i as int),
        decreases lines@.len() - i,
    {
        let ghost before = r@;
        let fields = cut(lines[i].as_str(), ',');
        proof {
            assert(texts(fields@).len() == fields@.len());
        }
        if fields.len() >= 2 {
            let gpu = Gpu {
                vendor: GpuVendor::Nvidia,
                runtime: Some(GpuRuntime::Cuda),
                model: trim(fields[0].as_str()),
                vram_mb: first_number(fields[1].as_str()),
            };
            r.push(gpu);
            proof {
                assert(texts(fields@)[0] == fields@[0]@);
                assert(texts(fields@)[1] == fields@[1]@);
                assert(gpu_models(r@) =~= gpu_models(before).push(gpu@));
            }
        }
        i += 1;
    }
    r
}

/// The GPUs that `rocminfo` describes.
pub fn parse_rocminfo(text: &str) -> (r: Vec<Gpu>)
    ensures
        gpu_models(r@) == rocm_gpus(pieces(text@, '\n'), pieces(text@, '\n').len() as int),
{
    let lines = cut(text, '\n');
    let mut r: Vec<Gpu> = Vec::new();
    let mut name = String::new();
    let mut i: usize = 0;
    proof {
        assert(gpu_models(r@) =~= Seq::empty());
    }
    while i < lines.len()
        invariant
            i <= lines@.len(),
            name@ == rocm_name(texts(lines@), i as int),
            gpu_models(r@) == rocm_gpus(texts(lines@), i as int),
        decreases lines@.len() - i,
    {
        let ghost before = r@;
        let device = match after(lines[i].as_str(), "Device Type:") {
            Some(rest) => {
                let kind = trim(rest.as_str());
                same(kind.as_str(), "GPU")
            },
            None => false,
        };
        if device {
            let gpu = Gpu {
                vendor: GpuVendor::Amd,
                runtime: Some(GpuRuntime::Rocm),
                model: name.clone(),
                vram_mb: None,
            };
            r.push(gpu);
            proof {
                assert(gpu_models(r@) =~= gpu_models(before).push(gpu@));
            }
        }
        match after(lines[i].as_str(), "Marketing Name:") {
            Some(rest) => {
                name = trim(rest.as_str());
            },
            None => {},
        }
        i += 1;
    }
    r
}

/// The commands a host of this kind is probed with, in order.
pub open spec fn commands(os: Os) -> Seq<Seq<char>> {
    if os == Os::MacOs {
        seq!["sysctl -n hw.ncpu"@, "sysctl -n hw.memsize"@, "system_profiler SPDisplaysDataType"@]
    } else {
        seq![
            "nproc"@,
            "cat /proc/meminfo"@,
            "nvidia-smi --query-gpu=name,memory.total --format=csv,noheader,nounits"@,
            "rocminfo"@,
        ]
    }
}

/// The commands a host of this kind is probed with, in order.
pub fn probe_commands(os: Os) -> (r: Vec<String>)
    ensures
        texts(r@) == commands(os),
{
    let mut r: Vec<String> = Vec::new();
    if os == Os::MacOs {
        r.push("sysctl -n hw.ncpu".to_owned());
        r.push("sysctl -n hw.memsize".to_owned());
        r.push("system_profiler SPDisplaysDataType".to_owned());
    } else {
        r.push("nproc".to_owned());
        r.push("cat /proc/meminfo".to_owned());
        r.push("nvidia-smi --query-gpu=name,memory.total --format=csv,noheader,nounits".to_owned());
        r.push("rocminfo".to_owned());
    }
    proof {
        assert(texts(r@) =~= commands(os));
    }
    r
}

/// What the first command of a probe printed, whatever its exit code.
pub fn run_stdout(out: &CommandOutput) -> (r: String)
    ensures
        r@ == lossy_text(out.stdout@),
{
    text_of(out.stdout.as_slice())
}

/// What a later command of a probe printed; nothing if it failed or could not run.
pub fn run_or_empty(out: Option<&CommandOutput>) -> (r: String)
    ensures
        r@ == match out {
            Some(out) => if out.status == 0 {
                lossy_text(out.stdout@)
            } else {
                Seq::empty()
            },
            None => Seq::empty(),
        },
{
    match out {
        Some(out) => if out.status == 0 {
            text_of(out.stdout.as_slice())
        } else {
            String::new()
        },
        None => String::new(),
    }
}

/// The GPUs found by the replies to the commands of a probe.
pub open spec fn gpus_found(os: Os, replies: Seq<Seq<char>>) -> Seq<GpuModel> {
    if os == Os::MacOs {
        macos_gpus(pieces(replies[2], '\n'), pieces(replies[2], '\n').len() as int)
    } else {
        nvidia_gpus(pieces(replies[2], '\n'), pieces(replies[2], '\n').len() as int) + rocm_gpus(
            pieces(replies[3], '\n'),
            pieces(replies[3], '\n').len() as int,
        )
    }
}

/// The profile of a host that named its operating system `os` and gave `replies`
/// to the commands of its probe.
pub fn profile_of(os: Os, replies: &Vec<String>) -> (r: NodeProfile)
    requires
        replies@.len() == commands(os).len(),
    ensures
        r@ == (ProfileModel {
            os,
            isa: Seq::empty(),
            features: Seq::empty(),
            cores: cores_in(replies@[0]@),
            ram_mb: if os == Os::MacOs {
                macos_ram_in(replies@[1]@)
            } else {
                linux_ram_in(replies@[1]@)
            },
            gpus: gpus_found(os, texts(replies@)),
        }),
{
    let cores: u32 = parse_cores(replies[0].as_str());
    let ram_mb: u64 = if os == Os::MacOs {
        parse_macos_ram_mb(replies[1].as_str())
    } else {
        parse_linux_ram_mb(replies[1].as_str())
    };
    let gpus = if os == Os::MacOs {
        parse_macos_gpus(replies[2].as_str())
    } else {
        let mut gpus = parse_nvidia_smi(replies[2].as_str());
        let ghost first = gpus@;
        let mut more = parse_rocminfo(replies[3].as_str());
        let ghost second = more@;
        gpus.append(&mut more);
        proof {
            assert(gpu_models(gpus@) =~= gpu_models(first) + gpu_models(second));
        }
        gpus
    };
    let r = NodeProfile { os, arch: CpuArch::unknown(), cores, ram_mb, gpus };
    proof {
        assert(r@.isa =~= Seq::empty());
        assert(r@.features =~= Seq::empty());
    }
    r
}

/// Whether `gpus` holds, in the order of the lines, one GPU for each of the first `n`
/// lines that `names` one, as `gpu` describes it, and no other.
pub open spec fn one_per_line(
    gpus: Seq<GpuModel>,
    n: int,
    names: spec_fn(int) -> bool,
    gpu: spec_fn(int) -> GpuModel,
) -> bool
    decreases n,
{
    if n <= 0 {
        gpus.len() == 0
    } else if names(n - 1) {
        gpus.len() > 0 && gpus.last() == gpu(n - 1) && one_per_line(
            gpus.drop_last(),
            n - 1,
            names,
            gpu,
        )
    } else {
        one_per_line(gpus, n - 1, names, gpu)
    }
}

/// Every chipset line of `system_profiler` is a Metal GPU by Apple under the name that
/// follows, and nothing else is.
pub proof fn law_every_chipset_is_a_metal_gpu(lines: Seq<Seq<char>>, n: int)
    requires
        0 <= n <= lines.len(),
    ensures
        one_per_line(
            macos_gpus(lines, n),
            n,
            |i: int| after_first(lines[i], "Chipset Model:"@, 0) is Some,
            |i: int|
                GpuModel {
                    vendor: GpuVendor::Apple,
                    runtime: Some(GpuRuntime::Metal),
                    model: trimmed(after_first(lines[i], "Chipset Model:"@, 0)->0),
                    vram_mb: None,
                },
        ),
    decreases n,
{
    if n > 0 {
        law_every_chipset_is_a_metal_gpu(lines, n - 1);
        let before = macos_gpus(lines, n - 1);
        if macos_gpu(lines[n - 1]) is Some {
            assert(before.push(macos_gpu(lines[n - 1])->0).drop_last() =~= before);
        }
    }
}

/// Every line of `nvidia-smi` with two fields is a CUDA GPU by NVIDIA, with its name in
/// the first and its memory in the second, and nothing else is.
pub proof fn law_every_listed_card_is_a_cuda_gpu(lines: Seq<Seq<char>>, n: int)
    requires
        0 <= n <= lines.len(),
    ensures
        one_per_line(
            nvidia_gpus(lines, n),
            n,
            |i: int| pieces(lines[i], ',').len() >= 2,
            |i: int|
                GpuModel {
                    vendor: GpuVendor::Nvidia,
                    runtime: Some(GpuRuntime::Cuda),
                    model: trimmed(pieces(lines[i], ',')[0]),
                    vram_mb: first_number_in(pieces(lines[i], ',')[1]),
                },
        ),
    decreases n,
{
    if n > 0 {
        law_every_listed_card_is_a_cuda_gpu(lines, n - 1);
        let before = nvidia_gpus(lines, n - 1);
        if nvidia_gpu(lines[n - 1]) is Some {
            assert(before.push(nvidia_gpu(lines[n - 1])->0).drop_last() =~= before);
        }
    }
}

/// Whether a line of `rocminfo` says that the device is a GPU.
pub open spec fn says_gpu(line: Seq<char>) -> bool {
    after_first(line, "Device Type:"@, 0) matches Some(rest) && trimmed(rest) == "GPU"@
}

/// Every device that `rocminfo` calls a GPU is a ROCm GPU by AMD, and nothing else is.
pub proof fn law_every_gpu_device_is_a_rocm_gpu(lines: Seq<Seq<char>>, n: int)
    requires
        0 <= n <= lines.len(),
    ensures
        one_per_line(
            rocm_gpus(lines, n),
            n,
            |i: int| says_gpu(lines[i]),
            |i: int|
                GpuModel {
                    vendor: GpuVendor::Amd,
                    runtime: Some(GpuRuntime::Rocm),
                    model: rocm_name(lines, i),
                    vram_mb: None,
                },
        ),
    decreases n,
{
    if n > 0 {
        law_every_gpu_device_is_a_rocm_gpu(lines, n - 1);
        let before = rocm_gpus(lines, n - 1);
        if rocm_device(lines[n - 1]) {
            assert(rocm_gpus(lines, n).drop_last() =~= before);
        }
    }
}

/// A device of `rocminfo` goes by the last product name given before it; without one
/// it has none.
pub proof fn law_a_device_goes_by_the_last_name(lines: Seq<Seq<char>>, n: int, at: int)
    requires
        0 <= at < n <= lines.len(),
        after_first(lines[at], "Marketing Name:"@, 0) is Some,
        forall|i: int|
            at < i < n ==> after_first(#[trigger] lines[i], "Marketing Name:"@, 0) is None,
    ensures
        rocm_name(lines, n) == trimmed(after_first(lines[at], "Marketing Name:"@, 0)->0),
        rocm_name(lines, 0).len() == 0,
    decreases n,
{
    if n - 1 > at {
        assert(after_first(lines[n - 1], "Marketing Name:"@, 0) is None);
        law_a_device_goes_by_the_last_name(lines, n - 1, at);
    }
}

/// On a host that is not macOS the GPUs are all those `nvidia-smi` lists and behind them
/// all those `rocminfo` describes; on macOS they are all those `system_profiler` names.
pub proof fn law_every_gpu_found_counts(os: Os, replies: Seq<Seq<char>>)
    requires
        replies.len() == if os == Os::MacOs {
            3int
        } else {
            4int
        },
    ensures
        ({
            let third = pieces(replies[2], '\n');
            let found = gpus_found(os, replies);
            if os == Os::MacOs {
                found == macos_gpus(third, third.len() as int)
            } else {
                let fourth = pieces(replies[3], '\n');
                let cuda = nvidia_gpus(third, third.len() as int);
                let rocm = rocm_gpus(fourth, fourth.len() as int);
                &&& found.len() == cuda.len() + rocm.len()
                &&& found.take(cuda.len() as int) == cuda
                &&& found.skip(cuda.len() as int) == rocm
            }
        }),
{
    if os != Os::MacOs {
        let third = pieces(replies[2], '\n');
        let fourth = pieces(replies[3], '\n');
        let cuda = nvidia_gpus(third, third.len() as int);
        let rocm = rocm_gpus(fourth, fourth.len() as int);
        assert((cuda + rocm).take(cuda.len() as int) =~= cuda);
        assert((cuda + rocm).skip(cuda.len() as int) =~= rocm);
    }
}

proof fn lemma_some_rocm(lines: Seq<Seq<char>>, n: int, at: int) -> (k: int)
    requires
        0 <= at < n <= lines.len(),
        says_gpu(lines[at]),
    ensures
        0 <= k < rocm_gpus(lines, n).len(),
        rocm_gpus(lines, n)[k].runtime == Some(GpuRuntime::Rocm),
        rocm_gpus(lines, n)[k].model == rocm_name(lines, at),
    decreases n,
{
    if at == n - 1 {
        rocm_gpus(lines, n - 1).len() as int
    } else {
        let k = lemma_some_rocm(lines, n - 1, at);
        assert(rocm_gpus(lines, n)[k] == rocm_gpus(lines, n - 1)[k]);
        k
    }
}

proof fn lemma_some_cuda(lines: Seq<Seq<char>>, n: int, at: int) -> (k: int)
    requires
        0 <= at < n <= lines.len(),
        pieces(lines[at], ',').len() >= 2,
    ensures
        0 <= k < nvidia_gpus(lines, n).len(),
        nvidia_gpus(lines, n)[k].runtime == Some(GpuRuntime::Cuda),
        nvidia_gpus(lines, n)[k].model == trimmed(pieces(lines[at], ',')[0]),
    decreases n,
{
    if at == n - 1 {
        nvidia_gpus(lines, n - 1).len() as int
    } else {
        let k = lemma_some_cuda(lines, n - 1, at);
        assert(nvidia_gpus(lines, n)[k] == nvidia_gpus(lines, n - 1)[k]);
        k
    }
}

proof fn lemma_some_metal(lines: Seq<Seq<char>>, n: int, at: int) -> (k: int)
    requires
        0 <= at < n <= lines.len(),
        after_first(lines[at], "Chipset Model:"@, 0) is Some,
    ensures
        0 <= k < macos_gpus(lines, n).len(),
        macos_gpus(lines, n)[k].runtime == Some(GpuRuntime::Metal),
    decreases n,
{
    if at == n - 1 {
        macos_gpus(lines, n - 1).len() as int
    } else {
        let k = lemma_some_metal(lines, n - 1, at);
        assert(macos_gpus(lines, n)[k] == macos_gpus(lines, n - 1)[k]);
        k
    }
}

/// A host meets a job's demand for a runtime as soon as one line of a reply shows a GPU
/// that has it: a device that `rocminfo` calls a GPU gives ROCm, a card that
/// `nvidia-smi` lists gives CUDA, a chipset that `system_profiler` names gives Metal.
pub proof fn law_a_gpu_shown_gives_its_runtime(
    os: Os,
    replies: Seq<Seq<char>>,
    profile: ProfileModel,
    at: int,
)
    requires
        replies.len() == if os == Os::MacOs {
            3int
        } else {
            4int
        },
        profile.gpus == gpus_found(os, replies),
        profile.os == os,
    ensures
        os != Os::MacOs && 0 <= at < pieces(replies[3], '\n').len() && says_gpu(
            pieces(replies[3], '\n')[at],
        ) ==> Predicate::HasRuntime(GpuRuntime::Rocm).holds(profile),
        os != Os::MacOs && 0 <= at < pieces(replies[2], '\n').len() && pieces(
            pieces(replies[2], '\n')[at],
            ',',
        ).len() >= 2 ==> Predicate::HasRuntime(GpuRuntime::Cuda).holds(profile),
        os == Os::MacOs && 0 <= at < pieces(replies[2], '\n').len() && after_first(
            pieces(replies[2], '\n')[at],
            "Chipset Model:"@,
            0,
        ) is Some ==> Predicate::HasRuntime(GpuRuntime::Metal).holds(profile),
        Predicate::OsIs(os).holds(profile),
{
    law_every_gpu_found_counts(os, replies);
    let third = pieces(replies[2], '\n');
    if os != Os::MacOs {
        let fourth = pieces(replies[3], '\n');
        let cuda = nvidia_gpus(third, third.len() as int);
        if 0 <= at < fourth.len() && says_gpu(fourth[at]) {
            let k = lemma_some_rocm(fourth, fourth.len() as int, at);
            assert(profile.gpus.skip(cuda.len() as int)[k] == profile.gpus[cuda.len() + k]);
            assert(profile.gpus[cuda.len() + k].runtime == Some(GpuRuntime::Rocm));
        }
        if 0 <= at < third.len() && pieces(third[at], ',').len() >= 2 {
            let k = lemma_some_cuda(third, third.len() as int, at);
            assert(profile.gpus.take(cuda.len() as int)[k] == profile.gpus[k]);
            assert(profile.gpus[k].runtime == Some(GpuRuntime::Cuda));
        }
    } else {
        if 0 <= at < third.len() && after_first(third[at], "Chipset Model:"@, 0) is Some {
            let k = lemma_some_metal(third, third.len() as int, at);
            assert(profile.gpus[k].runtime == Some(GpuRuntime::Metal));
        }
    }
}

/// Memory is named in kilobytes behind `MemTotal:` on Linux and in bytes on macOS, and
/// counted in whole megabytes; the processors are the first number, where it fits.
pub proof fn law_sizes_are_in_megabytes(
    before: Seq<char>,
    digits: Seq<char>,
    rest: Seq<char>,
    head: Seq<char>,
)
    requires
        forall|i: int| 0 <= i < before.len() ==> !(48 <= (#[trigger] before[i]) as u32 <= 57),
        forall|i: int| 0 <= i < digits.len() ==> 48 <= (#[trigger] digits[i]) as u32 <= 57,
        digits.len() > 0,
        rest.len() > 0 ==> !(48 <= rest[0] as u32 <= 57),
        number(digits) <= u64::MAX,
        after_first(head, "MemTotal:"@, 0) == Some(before + digits + rest),
    ensures
        linux_ram_in(head) == number(digits) / 1024,
        macos_ram_in(before + digits + rest) == number(digits) / 1_048_576,
        cores_in(before + digits + rest) == if number(digits) <= u32::MAX {
            number(digits)
        } else {
            0
        },
        linux_ram_in(before) == 0 || after_first(before, "MemTotal:"@, 0) is Some,
        macos_ram_in(before) == 0,
        cores_in(before) == 0,
{
    law_the_first_number(before, digits, rest);
}

/// The system is told by the name that `uname -s` prints, white space aside.
pub proof fn law_systems_are_told_by_name(text: Seq<char>)
    ensures
        os_named(text) == Os::Linux <==> trimmed(text) == "Linux"@,
        os_named(text) == Os::MacOs <==> trimmed(text) == "Darwin"@,
{
    reveal_strlit("Linux");
    reveal_strlit("Darwin");
    assert("Linux"@.len() == 5);
    assert("Darwin"@.len() == 6);
}

/// A host is asked for its processors, its memory and its GPUs, in this order, with the
/// commands of its system.
pub proof fn law_what_a_host_is_asked(os: Os)
    ensures
        os == Os::MacOs ==> commands(os) == seq![
            "sysctl -n hw.ncpu"@,
            "sysctl -n hw.memsize"@,
            "system_profiler SPDisplaysDataType"@,
        ],
        os != Os::MacOs ==> commands(os) == seq![
            "nproc"@,
            "cat /proc/meminfo"@,
            "nvidia-smi --query-gpu=name,memory.total --format=csv,noheader,nounits"@,
            "rocminfo"@,
        ],
        OS_COMMAND@ == "uname -s"@,
{
}

} // verus!
