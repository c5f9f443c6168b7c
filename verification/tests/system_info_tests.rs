use omnibook_rs::system_info::{
    cpu_cache_summary, cpu_model, cpuinfo_value, device_model, gpu_model, gpu_model_checked,
    gpu_scan_malformed, lscpu_get, os_pretty_name, parse_lscpu,
};

#[test]
fn device_model_names() {
    assert_eq!(device_model("HP OmniBook Ultra Flip"), "HP OmniBook Ultra Flip");
    assert_eq!(device_model(""), "Unknown");
    assert_eq!(device_model("UNKNOWN"), "Unknown");
}

#[test]
fn os_names() {
    let rel = "NAME=\"Fedora Linux\"\nPRETTY_NAME=\"Fedora Linux 41 (Workstation Edition)\"\nID=fedora\n";
    assert_eq!(os_pretty_name(Some(rel)), "Fedora Linux 41 (Workstation Edition)");
    assert_eq!(os_pretty_name(Some("ID=arch\n")), "Unknown");
    assert_eq!(os_pretty_name(None), "Unknown");
    assert_eq!(os_pretty_name(Some("PRETTY_NAME= Arch Linux \n")), "Arch Linux");
}

#[test]
fn cpuinfo_lines() {
    let info = "processor\t: 0\nModel Name\t: Intel(R) Core(TM) Ultra 7 258V\ncpu MHz\t\t: 400.000\n";
    assert_eq!(cpuinfo_value(info, "model name").as_deref(), Some("Intel(R) Core(TM) Ultra 7 258V"));
    assert_eq!(cpuinfo_value(info, "cpu mhz").as_deref(), Some("400.000"));
    assert_eq!(cpuinfo_value(info, "flags"), None);
}

#[test]
fn cpu_model_sources() {
    assert_eq!(cpu_model(Some("From lscpu"), Some("model name : other\n")), "From lscpu");
    assert_eq!(cpu_model(None, Some("model name : From cpuinfo\n")), "From cpuinfo");
    assert_eq!(cpu_model(None, Some("nothing here\n")), "Unknown");
    assert_eq!(cpu_model(None, None), "Unknown");
}

#[test]
fn lscpu_entries_last_wins() {
    let out = "Architecture:            x86_64\nModel name:              Ultra 7\n\nL2 cache: 14 MiB\nL2 Cache: 16 MiB\nno colon here\n";
    let entries = parse_lscpu(out);
    assert_eq!(entries.len(), 4);
    assert_eq!(entries[0], ("architecture".to_string(), "x86_64".to_string()));
    assert_eq!(lscpu_get(&entries, "model name").as_deref(), Some("Ultra 7"));
    assert_eq!(lscpu_get(&entries, "l2 cache").as_deref(), Some("16 MiB"));
    assert_eq!(lscpu_get(&entries, "l3 cache"), None);
}

#[test]
fn cache_summaries() {
    assert_eq!(
        cpu_cache_summary(Some("192 KiB"), Some("128 KiB"), Some("14 MiB"), Some("12 MiB")),
        "L1d 192 KiB / L1i 128 KiB | L2 14 MiB | L3 12 MiB"
    );
    assert_eq!(cpu_cache_summary(None, Some("128 KiB"), None, Some("8 MiB")), "128 KiB | L3 8 MiB");
    assert_eq!(cpu_cache_summary(Some("48 KiB"), None, None, None), "48 KiB");
    assert_eq!(cpu_cache_summary(None, None, Some("2 MiB"), None), "L2 2 MiB");
    assert_eq!(cpu_cache_summary(None, None, None, None), "Unknown");
}

#[test]
fn gpu_names() {
    let lspci = "00:00.0 Host bridge: Intel Corporation Device 6400\n\
00:02.0 VGA compatible controller: Intel Corporation Lunar Lake [Intel Arc Graphics 130V / 140V] (rev 04)\n";
    assert_eq!(gpu_model(lspci), "Intel Arc Graphics 130V / 140V");
    let nv = "01:00.0 3D controller: NVIDIA Corporation GA107M (rev a1)\n";
    assert_eq!(gpu_model(nv), "NVIDIA Corporation GA107M");
    assert_eq!(gpu_model("00:1f.3 Audio device: Intel\n"), "Unknown");
    assert_eq!(gpu_model("00:02.0 VGA compatible controller: [ ] x\n"), "[ ] x");
}

#[test]
fn malformed_gpu_line() {
    let bad = "00:02.0 VGA compatible controller: odd ] name [\n";
    assert!(gpu_scan_malformed(bad));
    assert_eq!(gpu_model_checked(bad), None);
    assert!(!gpu_scan_malformed("00:02.0 VGA controller: [Good] ] [\n"));
    assert_eq!(gpu_model_checked("nothing\n").as_deref(), Some("Unknown"));
}
