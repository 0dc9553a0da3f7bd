use aish::hwdetect::{
    aish_dir, config_dir, detected_selection, ensure_selected, fmt_gb, fmt_weights, gpu_of,
    legacy_selection_path, memory_budget_mb, operator_pin, parse_meminfo_kb, parse_nvidia_smi,
    pick_tier, recommend, repo_and_quant_for, report, selected_model_id, selection_path, short_line,
    tier_at, total_ram_mb, GpuKind, Selection, SelectionSource, SystemProfile, TIERS,
};

fn profile(ram_mb: u64, gpu: GpuKind, vram: Option<u64>) -> SystemProfile {
    SystemProfile {
        os: "linux".into(),
        arch: "x86_64".into(),
        logical_cpus: 8,
        total_ram_mb: ram_mb,
        gpu_kind: gpu,
        vram_mb: vram,
        gpu_name: None,
    }
}

#[test]
fn parses_meminfo_memtotal() {
    let sample = "MemTotal:       32791234 kB\nMemFree:  100 kB\n";
    assert_eq!(parse_meminfo_kb(sample), Some(32_791_234));
    assert_eq!(parse_meminfo_kb("MemFree: 10 kB"), None);
    assert_eq!(parse_meminfo_kb(""), None);
}

#[test]
fn parses_nvidia_smi_row() {
    let out = "24564, NVIDIA GeForce RTX 4090\n";
    assert_eq!(
        parse_nvidia_smi(out),
        Some((24564, "NVIDIA GeForce RTX 4090".to_string()))
    );
    assert_eq!(parse_nvidia_smi("\n8192\n"), Some((8192, String::new())));
    assert_eq!(parse_nvidia_smi("garbage"), None);
}

#[test]
fn cpu_only_budget_reserves_os_headroom() {
    let p = profile(16 * 1024, GpuKind::CpuOnly, None);
    assert_eq!(memory_budget_mb(&p), (16 * 1024 - 2048) * 7 / 10);
}

#[test]
fn discrete_gpu_uses_max_of_vram_and_ram() {
    let p = profile(64 * 1024, GpuKind::Nvidia, Some(8 * 1024));
    let cpu = (64 * 1024 - 2048) * 7 / 10;
    assert_eq!(memory_budget_mb(&p), cpu);
    let p = profile(16 * 1024, GpuKind::Nvidia, Some(24 * 1024));
    assert_eq!(memory_budget_mb(&p), 24 * 1024 * 9 / 10);
}

#[test]
fn apple_unified_uses_ram_share() {
    let p = profile(32 * 1024, GpuKind::Apple, None);
    assert_eq!(memory_budget_mb(&p), 32 * 1024 * 7 / 10);
}

#[test]
fn tiers_are_descending_and_total() {
    for i in 1..TIERS {
        assert!(tier_at(i - 1).min_budget_mb > tier_at(i).min_budget_mb);
    }
    assert_eq!(tier_at(TIERS - 1).min_budget_mb, 0);
    assert_eq!(pick_tier(0).params, "0.5B");
}

#[test]
fn recommends_by_memory_tier() {
    let r = recommend(&profile(2 * 1024, GpuKind::CpuOnly, None));
    assert_eq!(r.params, "0.5B");
    let r = recommend(&profile(16 * 1024, GpuKind::CpuOnly, None));
    assert_eq!(r.params, "8B");
    assert_eq!(r.model_id, "llama-3.1-8b-instruct");
    let r = recommend(&profile(64 * 1024, GpuKind::CpuOnly, None));
    assert_eq!(r.params, "70B");
    let r = recommend(&profile(32 * 1024, GpuKind::Nvidia, Some(24 * 1024)));
    assert_eq!(r.params, "32B");
    assert!(r.rationale.contains("32B"));
}

#[test]
fn operator_pin_precedence_is_pure() {
    let pin = operator_pin(Some("my-custom-model"), None, None);
    assert_eq!(pin, Some(("my-custom-model".to_string(), None)));
    assert_eq!(operator_pin(Some("   "), None, None), None);
}

#[test]
fn selection_path_lives_under_config_dir() {
    let home = "/home/me";
    let path = selection_path(home);
    assert!(path.ends_with("config/local-model.json"), "{path}");
    assert!(config_dir(home).ends_with("config"));
    assert_eq!(
        std::path::Path::new(&config_dir(home)).parent(),
        Some(std::path::Path::new(&aish_dir(home)))
    );
    assert_eq!(path, "/home/me/.aish/config/local-model.json");
    assert_eq!(legacy_selection_path("/"), "/.aish/local-model.json");
    assert_eq!(aish_dir(""), ".aish");
}

#[test]
fn fmt_gb_is_compact() {
    assert_eq!(fmt_gb(512), "512 MB");
    assert_eq!(fmt_gb(16 * 1024), "16 GB");
    assert_eq!(fmt_gb(10035), "9.8 GB");
}

#[test]
fn short_line_distinguishes_source() {
    let detected = Selection {
        model_id: "llama-3.1-8b-instruct".into(),
        model_path: None,
        quant: "Q4_K_M".into(),
        source: SelectionSource::Detected,
        detected_at: 0,
        budget_mb: 0,
        profile_summary: String::new(),
        params: "8B".into(),
        hf_repo: String::new(),
        approx_size_mb: 4900,
    };
    assert!(short_line(&detected).contains("Q4_K_M"));
    let pinned = Selection {
        source: SelectionSource::Operator,
        ..detected
    };
    assert!(short_line(&pinned).contains("operator-pinned"));
}

#[test]
fn pins_outrank_each_other() {
    let file = |path: &str| operator_pin(None, Some(path), Some("id"));
    let pin = |id: &str, path: &str| Some((id.to_string(), Some(path.to_string())));
    assert_eq!(file("/m/x.gguf"), pin("x", "/m/x.gguf"));
    assert_eq!(file("llama-3.1.Q4.gguf"), pin("llama-3.1.Q4", "llama-3.1.Q4.gguf"));
    assert_eq!(file("/m/model/"), pin("model", "/m/model/"));
    assert_eq!(file("/m/.gguf"), pin(".gguf", "/m/.gguf"));
    assert_eq!(file("/m/.."), pin("/m/..", "/m/.."));
    assert_eq!(file("/"), pin("/", "/"));
    assert_eq!(operator_pin(Some(" "), Some("/m/x.gguf"), None), pin("x", "/m/x.gguf"));
    assert_eq!(
        operator_pin(Some("m"), Some("/m/x.gguf"), Some("id")),
        Some(("m".to_string(), None))
    );
    assert_eq!(operator_pin(None, Some(""), Some("id")), Some(("id".to_string(), None)));
    assert_eq!(operator_pin(None, None, None), None);
}

#[test]
fn a_pin_or_a_stored_selection_spares_the_look() {
    let p = profile(16 * 1024, GpuKind::CpuOnly, None);
    let s = detected_selection(&p, 9);
    assert_eq!(s.model_id, "llama-3.1-8b-instruct");
    assert_eq!((s.detected_at, s.budget_mb), (9, 10035));
    assert!(report(&s).contains("  budget:  9.8 GB\n"));
    assert_eq!(selected_model_id(Some(&s)), s.model_id);
    let kept = ensure_selected(false, None, Some(s), 10).unwrap();
    assert_eq!(kept.detected_at, 9);
    assert!(ensure_selected(true, None, Some(kept), 10).is_none());
    assert!(ensure_selected(false, None, None, 10).is_none());
    let pinned = ensure_selected(true, Some(("m".into(), None)), None, 10).unwrap();
    assert_eq!(pinned.source, SelectionSource::Operator);
    assert!(report(&pinned).starts_with("local model is operator-pinned"));
}

#[test]
fn probes_are_read_in_order() {
    let cards = vec!["junk".to_string(), "17163091968".to_string()];
    assert_eq!(gpu_of("macos", "aarch64", None, &cards).0, GpuKind::Apple);
    let (kind, mb, name) = gpu_of("linux", "x86_64", Some("8192, A"), &cards);
    assert_eq!((kind, mb, name.as_deref()), (GpuKind::Nvidia, Some(8192), Some("A")));
    let (kind, mb, _) = gpu_of("linux", "x86_64", None, &cards);
    assert_eq!((kind, mb), (GpuKind::Amd, Some(16368)));
    assert_eq!(gpu_of("linux", "x86_64", None, &[]).0, GpuKind::CpuOnly);
    assert_eq!(total_ram_mb(Some("MemTotal: 2048 kB"), None), 2);
    assert_eq!(total_ram_mb(None, Some("17179869184\n")), 16_384);
    assert_eq!(total_ram_mb(Some("garbage"), Some("garbage")), 8_192);
    assert_eq!(
        profile(16 * 1024, GpuKind::CpuOnly, None).summary(),
        "linux/x86_64 · 8 cores · 16 GB RAM · cpu-only"
    );
}

#[test]
fn larger_budgets_never_pick_smaller_models() {
    let mut last = 0;
    for mb in (0..60_000).step_by(500) {
        let t = pick_tier(mb);
        assert!(t.approx_size_mb >= last);
        assert!(t.min_budget_mb <= mb);
        last = t.approx_size_mb;
    }
    assert_eq!(
        repo_and_quant_for("llama-3.1-8b-instruct").unwrap().1,
        "Q4_K_M"
    );
    assert!(repo_and_quant_for("nope").is_none());
}

#[test]
fn weights_are_counted_in_decimal_units() {
    assert_eq!(fmt_weights(4_900), "4.9 GB");
    assert_eq!(fmt_weights(19_800), "19.8 GB");
    assert_eq!(fmt_weights(9_000), "9 GB");
    assert_eq!(fmt_weights(42_000), "42 GB");
    assert_eq!(fmt_weights(400), "400 MB");
    assert_eq!(fmt_weights(999), "999 MB");
    assert_eq!(fmt_weights(1_040), "1 GB");
    let sel = detected_selection(&profile(16 * 1024, GpuKind::CpuOnly, None), 0);
    assert_eq!(short_line(&sel), "↳ local model: llama-3.1-8b-instruct (Q4_K_M, ~4.9 GB)");
}

#[test]
fn reports_count_weights_as_they_count_memory() {
    let p = profile(16 * 1024, GpuKind::CpuOnly, None);
    assert_eq!(
        recommend(&p).rationale,
        "9.8 GB budget from 16 GB system RAM (CPU) → 8B Q4_K_M fits (~4.8 GB)"
    );
    let sel = detected_selection(&p, 0);
    assert!(report(&sel).contains("  model:   llama-3.1-8b-instruct (8B, Q4_K_M, ~4.8 GB)\n"));
}

#[test]
fn summaries_stand_on_one_line() {
    let mut p = profile(32 * 1024, GpuKind::Nvidia, Some(24 * 1024));
    assert_eq!(p.summary(), "linux/x86_64 · 8 cores · 32 GB RAM · NVIDIA (24 GB VRAM)");
    p.os = "li\nnux".into();
    assert!(!p.summary().contains('\n'));
    let mut sel = detected_selection(&p, 0);
    sel.model_id = "my\nmodel".into();
    assert!(short_line(&sel).starts_with("↳ local model: my model ("));
}
