use icbm::vm::{output_tail, Domain, Flavour, Provider, OUTPUT_TAIL_BYTES};

#[test]
fn test_domain_ubuntu() {
    let d = Domain::new(Flavour::Ubuntu);
    assert_eq!(d.name, "icbm-ubuntu");
}

#[test]
fn test_domain_nixos() {
    let d = Domain::new(Flavour::NixOs);
    assert_eq!(d.name, "icbm-nixos");
}

#[test]
fn docker_images_per_flavour() {
    assert_eq!(Domain::new(Flavour::Ubuntu).docker_image(), "ubuntu:22.04");
    assert_eq!(Domain::new(Flavour::NixOs).docker_image(), "nixos/nix:latest");
}

#[test]
fn flavour_names_and_parsing() {
    assert_eq!(Flavour::Ubuntu.name(), "ubuntu");
    assert_eq!(Flavour::NixOs.name(), "nixos");
    assert_eq!(Flavour::parse("ubuntu"), Ok(Flavour::Ubuntu));
    assert_eq!(Flavour::parse("NixOS"), Ok(Flavour::NixOs));
    assert_eq!(Flavour::parse("UBUNTU"), Ok(Flavour::Ubuntu));
    assert_eq!(
        Flavour::parse("Debian"),
        Err("Unknown flavour 'debian'. Use: ubuntu, nixos".to_string())
    );
}

#[test]
fn flavour_parse_lowercases_non_ascii_input() {
    assert_eq!(
        Flavour::parse("ÜBUNTU"),
        Err("Unknown flavour 'übuntu'. Use: ubuntu, nixos".to_string())
    );
}

#[test]
fn provider_names_and_parsing() {
    assert_eq!(Provider::Auto.name(), "auto");
    assert_eq!(Provider::Docker.name(), "docker");
    assert_eq!(Provider::parse("Docker"), Ok(Provider::Docker));
    assert_eq!(Provider::parse("auto"), Ok(Provider::Auto));
    assert_eq!(
        Provider::parse("Podman"),
        Err("Unknown provider 'podman'. Use: auto, docker".to_string())
    );
}

#[test]
fn flavour_name_parses_back() {
    for flavour in [Flavour::Ubuntu, Flavour::NixOs] {
        assert_eq!(Flavour::parse(flavour.name()), Ok(flavour));
    }
    for provider in [Provider::Auto, Provider::Docker] {
        assert_eq!(Provider::parse(provider.name()), Ok(provider));
    }
}

#[test]
fn output_tail_keeps_short_output() {
    assert_eq!(output_tail("done\n"), "done\n");
    let exact = "x".repeat(OUTPUT_TAIL_BYTES);
    assert_eq!(output_tail(&exact), exact);
}

#[test]
fn output_tail_keeps_last_bytes() {
    let mut long = "a".repeat(100);
    long.push_str(&"b".repeat(OUTPUT_TAIL_BYTES));
    let tail = output_tail(&long);
    assert_eq!(tail.len(), OUTPUT_TAIL_BYTES);
    assert_eq!(tail, "b".repeat(OUTPUT_TAIL_BYTES));
}

#[test]
fn output_tail_skips_a_character_cut_by_the_limit() {
    let mut long = "é".to_string();
    long.push_str(&"a".repeat(OUTPUT_TAIL_BYTES - 1));
    assert_eq!(long.len(), OUTPUT_TAIL_BYTES + 1);
    assert_eq!(output_tail(&long), "a".repeat(OUTPUT_TAIL_BYTES - 1));
    let mut boundary = "xé".to_string();
    boundary.push_str(&"b".repeat(OUTPUT_TAIL_BYTES - 2));
    assert_eq!(output_tail(&boundary), format!("é{}", "b".repeat(OUTPUT_TAIL_BYTES - 2)));
}
