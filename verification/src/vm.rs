//! Containers to benchmark in: the OS flavours, providers and the container
//! naming; the output tail kept of a command run inside a container.
use vstd::prelude::*;
use crate::text::{all_ascii, ascii_lowercase, text_lowercase, to_lowercase_text};

verus! {

broadcast use vstd::string::group_string_axioms;

/// The OS flavour to benchmark.
#[derive(Debug, Clone, Copy, PartialEq, Eq, Structural)]
pub enum Flavour {
    Ubuntu,
    NixOs,
}

/// How the benchmark provisions its containers.
#[derive(Debug, Clone, Copy, PartialEq, Eq, Structural)]
pub enum Provider {
    Auto,
    Docker,
}

/// The lowercase form `from_str` matches against.
pub open spec fn lowered(s: Seq<char>) -> Seq<char> {
    if all_ascii(s) {
        ascii_lowercase(s)
    } else {
        text_lowercase(s)
    }
}

pub open spec fn flavour_name(flavour: Flavour) -> Seq<char> {
    match flavour {
        Flavour::Ubuntu => "ubuntu"@,
        Flavour::NixOs => "nixos"@,
    }
}

pub open spec fn provider_name(provider: Provider) -> Seq<char> {
    match provider {
        Provider::Auto => "auto"@,
        Provider::Docker => "docker"@,
    }
}

/// The message for a flavour name that is not known.
pub open spec fn unknown_flavour_message(lower: Seq<char>) -> Seq<char> {
    "Unknown flavour '"@ + lower + "'. Use: ubuntu, nixos"@
}

/// The message for a provider name that is not known.
pub open spec fn unknown_provider_message(lower: Seq<char>) -> Seq<char> {
    "Unknown provider '"@ + lower + "'. Use: auto, docker"@
}

impl Flavour {
    /// The name the flavour is displayed and parsed by.
    pub fn name(&self) -> (name: &'static str)
        ensures
            name@ == flavour_name(*self),
    {
        match self {
            Flavour::Ubuntu => "ubuntu",
            Flavour::NixOs => "nixos",
        }
    }

    /// Parses a flavour name, ignoring case.
    pub fn parse(s: &str) -> (parsed: Result<Flavour, String>)
        ensures
            match parsed {
                Ok(flavour) => flavour_name(flavour) == lowered(s@),
                Err(message) => lowered(s@) != "ubuntu"@ && lowered(s@) != "nixos"@
                    && message@ == unknown_flavour_message(lowered(s@)),
            },
    {
        let lower = to_lowercase_text(s);
        if lower == "ubuntu".to_owned() {
            Ok(Flavour::Ubuntu)
        } else if lower == "nixos".to_owned() {
            Ok(Flavour::NixOs)
        } else {
            let mut message = "Unknown flavour '".to_owned();
            message.append(lower.as_str());
            message.append("'. Use: ubuntu, nixos");
            Err(message)
        }
    }
}

impl Provider {
    /// The name the provider is displayed and parsed by.
    pub fn name(&self) -> (name: &'static str)
        ensures
            name@ == provider_name(*self),
    {
        match self {
            Provider::Auto => "auto",
            Provider::Docker => "docker",
        }
    }

    /// Parses a provider name, ignoring case.
    pub fn parse(s: &str) -> (parsed: Result<Provider, String>)
        ensures
            match parsed {
                Ok(provider) => provider_name(provider) == lowered(s@),
                Err(message) => lowered(s@) != "auto"@ && lowered(s@) != "docker"@
                    && message@ == unknown_provider_message(lowered(s@)),
            },
    {
        let lower = to_lowercase_text(s);
        if lower == "auto".to_owned() {
            Ok(Provider::Auto)
        } else if lower == "docker".to_owned() {
            Ok(Provider::Docker)
        } else {
            let mut message = "Unknown provider '".to_owned();
            message.append(lower.as_str());
            message.append("'. Use: auto, docker");
            Err(message)
        }
    }
}

/// A parsed name names its flavour again: parsing a flavour's own name gives it back.
pub proof fn lemma_flavour_name_round_trip(flavour: Flavour)
    ensures
        lowered(flavour_name(flavour)) == flavour_name(flavour),
{
    reveal_strlit("ubuntu");
    reveal_strlit("nixos");
    let name = flavour_name(flavour);
    assert(all_ascii(name));
    assert(ascii_lowercase(name) =~= name);
}

/// Parsing a provider's own name gives it back.
pub proof fn lemma_provider_name_round_trip(provider: Provider)
    ensures
        lowered(provider_name(provider)) == provider_name(provider),
{
    reveal_strlit("auto");
    reveal_strlit("docker");
    let name = provider_name(provider);
    assert(all_ascii(name));
    assert(ascii_lowercase(name) =~= name);
}

/// The name of the container for a flavour.
pub open spec fn container_name(flavour: Flavour) -> Seq<char> {
    match flavour {
        Flavour::Ubuntu => "icbm-ubuntu"@,
        Flavour::NixOs => "icbm-nixos"@,
    }
}

/// The Docker image a flavour runs.
pub open spec fn image_name(flavour: Flavour) -> Seq<char> {
    match flavour {
        Flavour::Ubuntu => "ubuntu:22.04"@,
        Flavour::NixOs => "nixos/nix:latest"@,
    }
}

/// Each flavour's container is named `icbm-` followed by the flavour's name,
/// so the two containers differ; the Ubuntu container runs Ubuntu 22.04 and the
/// NixOS one the latest NixOS image.
pub proof fn lemma_container_names(a: Flavour, b: Flavour)
    ensures
        container_name(a) == "icbm-"@ + flavour_name(a),
        a != b ==> container_name(a) != container_name(b),
        image_name(Flavour::Ubuntu) == "ubuntu:"@ + "22.04"@,
        image_name(Flavour::NixOs) == "nixos/nix:"@ + "latest"@,
{
    reveal_strlit("icbm-");
    reveal_strlit("icbm-ubuntu");
    reveal_strlit("icbm-nixos");
    reveal_strlit("ubuntu");
    reveal_strlit("nixos");
    reveal_strlit("ubuntu:");
    reveal_strlit("22.04");
    reveal_strlit("ubuntu:22.04");
    reveal_strlit("nixos/nix:");
    reveal_strlit("latest");
    reveal_strlit("nixos/nix:latest");
    assert(container_name(a) =~= "icbm-"@ + flavour_name(a));
    assert(image_name(Flavour::Ubuntu) =~= "ubuntu:"@ + "22.04"@);
    assert(image_name(Flavour::NixOs) =~= "nixos/nix:"@ + "latest"@);
    if a != b {
        assert(container_name(a).len() != container_name(b).len());
    }
}

/// A single container for benchmarking.
pub struct Domain {
    pub flavour: Flavour,
    pub name: String,
}

impl Domain {
    /// The container for `flavour`, named after it.
    pub fn new(flavour: Flavour) -> (domain: Self)
        ensures
            domain.flavour == flavour,
            domain.name@ == container_name(flavour),
    {
        let name = match flavour {
            Flavour::Ubuntu => "icbm-ubuntu".to_owned(),
            Flavour::NixOs => "icbm-nixos".to_owned(),
        };
        Domain { flavour, name }
    }

    /// The Docker image of the container.
    pub fn docker_image(&self) -> (image: String)
        ensures
            image@ == image_name(self.flavour),
    {
        match self.flavour {
            Flavour::Ubuntu => "ubuntu:22.04".to_owned(),
            Flavour::NixOs => "nixos/nix:latest".to_owned(),
        }
    }
}

/// The most output, in bytes, kept of a command run in a container.
pub const OUTPUT_TAIL_BYTES: usize = 4096;

/// `k` is where the tail of `bytes` starts: the first character boundary at or
/// after `from`.
pub open spec fn first_boundary_from(bytes: Seq<u8>, from: int, k: int) -> bool {
    &&& from <= k <= bytes.len()
    &&& vstd::utf8::is_char_boundary(bytes, k)
    &&& forall|j: int| from <= j < k ==> !vstd::utf8::is_char_boundary(bytes, j)
}

/// The tail of a command's combined output that a step keeps: the whole output
/// when it has at most `OUTPUT_TAIL_BYTES` bytes; otherwise its last
/// `OUTPUT_TAIL_BYTES` bytes, starting at the first character boundary among
/// them (so a character cut by the limit is left out whole).
pub fn output_tail(combined: &str) -> (tail: String)
    requires
        vstd::utf8::encode_utf8(combined@).len() <= usize::MAX,
    ensures
        vstd::utf8::encode_utf8(combined@).len() <= OUTPUT_TAIL_BYTES ==> tail@ == combined@,
        vstd::utf8::encode_utf8(combined@).len() > OUTPUT_TAIL_BYTES ==> exists|k: int|
            first_boundary_from(
                vstd::utf8::encode_utf8(combined@),
                vstd::utf8::encode_utf8(combined@).len() - OUTPUT_TAIL_BYTES,
                k,
            ) && vstd::utf8::encode_utf8(tail@) == vstd::utf8::encode_utf8(combined@).subrange(
                k,
                vstd::utf8::encode_utf8(combined@).len() as int,
            ),
{
    let len = combined.len();
    if len <= OUTPUT_TAIL_BYTES {
        return combined.to_owned();
    }
    let ghost bytes = vstd::utf8::encode_utf8(combined@);
    proof {
        vstd::utf8::encode_utf8_valid_utf8(combined@);
        vstd::utf8::is_char_boundary_start_end_of_seq(bytes);
    }
    let from = len - OUTPUT_TAIL_BYTES;
    let mut k = from;
    while !combined.is_char_boundary(k)
        invariant
            bytes == vstd::utf8::encode_utf8(combined@),
            len == bytes.len(),
            vstd::utf8::is_char_boundary(bytes, len as int),
            from <= k <= len,
            forall|j: int| from <= j < k ==> !vstd::utf8::is_char_boundary(bytes, j),
        decreases len - k,
    {
        k = k + 1;
    }
    let (_, tail) = combined.split_at(k);
    proof {
        assert(first_boundary_from(bytes, from as int, k as int));
    }
    tail.to_owned()
}

} // verus!
