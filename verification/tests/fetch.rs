use animfetch::config::Module;
use animfetch::fetch::{
    basename_of_env, brew_packages, climbs_to, collect, count_cpu_list, cpu_list_in_range, cpu_text, cpuinfo_summary, disk_usage,
    format_usage, host, hostname, human_kib, humanize_duration, is_meaningful, is_shell, macos_os, memory,
    meminfo_field, model_name, os, os_release_field, packages, parent_pid_of, plist_value, swap, swatches,
    short_hostname, title, vm_memory, wm, Readings, MAX_ANCESTORS,
};

#[test]
fn fetch_os_release_strips_quotes_and_picks_the_right_key() {
    let text = "NAME=\"Arch Linux\"\nPRETTY_NAME=\"Arch Linux\"\nID=arch\n";
    assert_eq!(os_release_field(text, "PRETTY_NAME").as_deref(), Some("Arch Linux"));
    assert_eq!(os_release_field(text, "ID").as_deref(), Some("arch"));
    assert_eq!(os_release_field(text, "MISSING"), None);
}

#[test]
fn fetch_meminfo_parses_kib_values() {
    let text = "MemTotal:       16324220 kB\nMemFree:         1000 kB\n";
    assert_eq!(meminfo_field(text, "MemTotal"), Some(16_324_220));
    assert_eq!(meminfo_field(text, "MemFree"), Some(1_000));
    assert_eq!(meminfo_field(text, "SwapTotal"), None);
}

#[test]
fn fetch_meminfo_does_not_confuse_prefixed_keys() {
    // "MemTotal" must not match a lookup for "Mem".
    let text = "MemTotal: 100 kB\nMemAvailable: 50 kB\n";
    assert_eq!(meminfo_field(text, "Mem"), None);
    assert_eq!(meminfo_field(text, "MemAvailable"), Some(50));
}

#[test]
fn fetch_byte_sizes_scale_and_keep_precision_where_it_matters() {
    assert_eq!(human_kib(512), "512KiB");
    assert_eq!(human_kib(2048), "2.00MiB");
    assert_eq!(human_kib(16 * 1024 * 1024), "16GiB");
}

#[test]
fn fetch_usage_reports_percentage() {
    assert_eq!(format_usage(0, 0), "0KiB / 0KiB (0%)");
    assert_eq!(format_usage(50, 100), "50KiB / 100KiB (50%)");
}

#[test]
fn fetch_uptime_reads_naturally_at_every_scale() {
    assert_eq!(humanize_duration(0), "0 mins");
    assert_eq!(humanize_duration(60), "1 min");
    assert_eq!(humanize_duration(3600), "1 hour");
    assert_eq!(humanize_duration(3660), "1 hour, 1 min");
    assert_eq!(humanize_duration(90_061), "1 day, 1 hour, 1 min");
}

#[test]
fn fetch_login_shells_are_recognised() {
    assert!(is_shell("bash"));
    assert!(is_shell("-zsh"));
    assert!(!is_shell("kitty"));
}

#[test]
fn fetch_placeholder_dmi_strings_are_rejected() {
    assert!(is_meaningful("XPS 13 9310"));
    assert!(!is_meaningful("Default string"));
    assert!(!is_meaningful(""));
}

#[test]
fn fetch_parent_pid_handles_names_containing_spaces_and_parens() {
    // Field 2 is "(weird ) name)" here; a naive split would misread ppid.
    let stat = "1234 (weird ) name) S 42 1234 1234 0 -1 4194304";
    assert_eq!(parent_pid_of(stat), Some(42));
}

#[test]
fn linux_os_release_strips_quotes_and_picks_the_right_key() {
    let text = "NAME=\"Arch Linux\"\nPRETTY_NAME=\"Arch Linux\"\nID=arch\n";
    assert_eq!(os_release_field(text, "PRETTY_NAME"), Some("Arch Linux".into()));
    assert_eq!(os_release_field(text, "ID"), Some("arch".into()));
    assert_eq!(os_release_field(text, "MISSING"), None);
}

#[test]
fn cpu_lists_count_every_form_the_kernel_writes() {
    assert_eq!(count_cpu_list("0-15"), Some(16));
    assert_eq!(count_cpu_list("0"), Some(1));
    assert_eq!(count_cpu_list("0-3,8-11"), Some(8));
    assert_eq!(count_cpu_list("0,2,4"), Some(3));
    assert_eq!(count_cpu_list(""), None);
    assert_eq!(count_cpu_list("nonsense"), None);
}

#[test]
fn linux_meminfo_parses_kib_values() {
    let text = "MemTotal:       16283812 kB\nMemAvailable:    9000000 kB\n";
    assert_eq!(meminfo_field(text, "MemTotal"), Some(16_283_812));
    assert_eq!(meminfo_field(text, "MemAvailable"), Some(9_000_000));
}

#[test]
fn linux_meminfo_does_not_confuse_prefixed_keys() {
    // "MemTotal" must not match a lookup for "Mem".
    let text = "MemTotal:  100 kB\nSwapTotal: 200 kB\n";
    assert_eq!(meminfo_field(text, "Mem"), None);
    assert_eq!(meminfo_field(text, "SwapTotal"), Some(200));
}

#[test]
fn linux_placeholder_dmi_strings_are_rejected() {
    assert!(is_meaningful("B650M K"));
    assert!(!is_meaningful(""));
    assert!(!is_meaningful("Default string"));
    assert!(!is_meaningful("To Be Filled By O.E.M."));
    assert!(!is_meaningful("None"));
}

#[test]
fn linux_parent_pid_handles_names_containing_spaces_and_parens() {
    // Field 2 is "(weird ) name)"; a naive split misreads ppid.
    let stat = "42 (weird ) name) S 7 42 42 0 -1 4194304 0 0";
    assert_eq!(parent_pid_of(stat), Some(7));
}

#[test]
fn mod_byte_sizes_scale_and_keep_precision_where_it_matters() {
    assert_eq!(human_kib(512), "512KiB");
    assert_eq!(human_kib(1024), "1.00MiB");
    assert_eq!(human_kib(1024 * 1024), "1.00GiB");
    assert_eq!(human_kib(16 * 1024 * 1024), "16GiB");
}

#[test]
fn mod_usage_reports_percentage() {
    assert_eq!(format_usage(0, 0), "0KiB / 0KiB (0%)");
    assert_eq!(format_usage(512, 1024), "512KiB / 1.00MiB (50%)");
}

#[test]
fn mod_uptime_reads_naturally_at_every_scale() {
    assert_eq!(humanize_duration(0), "0 mins");
    assert_eq!(humanize_duration(60), "1 min");
    assert_eq!(humanize_duration(3600), "1 hour");
    assert_eq!(humanize_duration(3660), "1 hour, 1 min");
    assert_eq!(humanize_duration(90_000), "1 day, 1 hour");
}

#[test]
fn mod_login_shells_are_recognised() {
    assert!(is_shell("bash"));
    assert!(is_shell("-bash"));
    assert!(is_shell("zsh"));
    assert!(!is_shell("kitty"));
    assert!(!is_shell("alacritty"));
}

// The cases below exercise the library's own guarantees.

#[test]
fn sizes_round_half_to_even_and_stop_at_tebibytes() {
    // 1.005 MiB is not exactly representable in the decimal, so 1029 KiB is
    // 1.00488..., and 1.5 KiB steps show the tie rule.
    assert_eq!(human_kib(1029), "1.00MiB");
    assert_eq!(human_kib(10 * 1024), "10MiB");
    assert_eq!(human_kib(1023), "1023KiB");
    assert_eq!(human_kib(5 * 1024 * 1024 * 1024 * 1024), "5120TiB");
    assert_eq!(human_kib(9 * 1024 + 1023), "10.00MiB");
}

#[test]
fn a_cpu_list_that_would_overflow_is_caught_before_counting() {
    assert!(cpu_list_in_range("0-3,8-11"));
    assert!(!cpu_list_in_range(&format!("0-{}", usize::MAX)));
    assert!(cpu_list_in_range("oops,0-1"));
}

#[test]
fn the_title_falls_back_from_user_to_logname_to_a_placeholder() {
    assert_eq!(title(Some("ana"), Some("bob"), "box"), "ana@box");
    assert_eq!(title(Some(""), Some("bob"), "box"), "bob@box");
    assert_eq!(title(None, None, "box"), "user@box");
}

#[test]
fn the_hostname_prefers_the_kernel_then_the_file() {
    assert_eq!(hostname(Some(" arch \n"), Some("other")), "arch");
    assert_eq!(hostname(Some("  "), Some("other\n")), "other");
    assert_eq!(hostname(None, None), "localhost");
}

#[test]
fn rows_are_skipped_when_the_machine_cannot_answer() {
    let readings = Readings {
        os: Some("Arch Linux x86_64".into()),
        host: None,
        kernel: Some("6.9".into()),
        uptime: None,
        packages: None,
        shell: Some("zsh".into()),
        wm: None,
        terminal: None,
        cpu: None,
        memory: None,
        swap: None,
        disk: None,
    };
    let items = collect(&[Module::Os, Module::Host, Module::Shell, Module::Colors, Module::Kernel], &readings);
    let labels: Vec<&str> = items.iter().map(|i| i.label).collect();
    assert_eq!(labels, ["OS", "Shell", "", "Kernel"]);
    assert_eq!(items[2].value, swatches());
    assert!(swatches().starts_with("\x1b[30m███\x1b[31m███"));
    assert!(swatches().ends_with("\x1b[37m███\x1b[0m"));
}

#[test]
fn memory_and_swap_rows_come_from_meminfo() {
    let text = "MemTotal: 2048 kB\nMemAvailable: 1024 kB\nSwapTotal: 0 kB\nSwapFree: 0 kB\n";
    assert_eq!(memory(text).as_deref(), Some("1.00MiB / 2.00MiB (50%)"));
    assert_eq!(swap(text), None);
    let text = "SwapTotal: 100 kB\nSwapFree: 25 kB\n";
    assert_eq!(swap(text).as_deref(), Some("75KiB / 100KiB (75%)"));
    assert_eq!(memory(text), None);
}

#[test]
fn the_disk_row_counts_only_what_users_can_have() {
    assert_eq!(disk_usage(0, 0, 4096), None);
    assert_eq!(disk_usage(1024, 256, 1024).as_deref(), Some("768KiB / 1.00MiB (75%)"));
}

#[test]
fn the_cpu_row_reads_the_model_and_counts_processors() {
    let text = "processor\t: 0\nmodel name\t: AMD Ryzen  \nprocessor\t: 1\nmodel name\t: AMD Ryzen\n";
    assert_eq!(model_name(text).as_deref(), Some("AMD Ryzen"));
    let (model, cores) = cpuinfo_summary(text).unwrap();
    assert_eq!((model.as_str(), cores), ("AMD Ryzen", 2));
    assert_eq!(cpu_text("AMD Ryzen", 2, " @ 4.70GHz"), "AMD Ryzen (2) @ 4.70GHz");
    assert_eq!(model_name("processor: 0\n"), None);
}

#[test]
fn the_desktop_name_loses_its_prefix_and_gains_the_session() {
    assert_eq!(wm(true, true, None, None, None, None).as_deref(), Some("Hyprland"));
    assert_eq!(wm(false, true, None, None, None, None).as_deref(), Some("sway"));
    assert_eq!(
        wm(false, false, Some("ubuntu:GNOME"), None, None, Some("wayland")).as_deref(),
        Some("GNOME (Wayland)")
    );
    assert_eq!(wm(false, false, Some(""), Some("KDE"), None, Some("x11")).as_deref(), Some("KDE (X11)"));
    assert_eq!(wm(false, false, None, None, None, Some("tty")), None);
}

#[test]
fn os_host_and_packages_rows() {
    let release = "NAME=Arch\nPRETTY_NAME=\"\"\n";
    assert_eq!(os(release, Some("x86_64")).as_deref(), Some("Arch x86_64"));
    assert_eq!(os("ID=x\n", None), None);
    assert_eq!(host(Some("XPS 13"), Some("Default string")).as_deref(), Some("XPS 13"));
    assert_eq!(host(Some("ThinkPad"), Some("T14")).as_deref(), Some("ThinkPad T14"));
    assert_eq!(host(Some("System Product Name"), None), None);
    assert_eq!(packages(Some(12), None).as_deref(), Some("12 (pacman)"));
    assert_eq!(
        packages(Some(0), Some("Package: a\nStatus: x\nPackage: b\n")).as_deref(),
        Some("2 (dpkg)")
    );
    assert_eq!(packages(None, Some("nothing")), None);
    assert_eq!(basename_of_env(Some("/usr/bin/zsh")).as_deref(), Some("zsh"));
    assert_eq!(basename_of_env(Some("")), None);
}

#[test]
fn plist_values_are_read_between_their_tags() {
    let plist = "<dict><key>ProductName</key>\n<string>macOS</string>\n<key>ProductVersion</key><string> 14.5 </string></dict>";
    assert_eq!(plist_value(plist, "ProductVersion").as_deref(), Some("14.5"));
    assert_eq!(plist_value(plist, "Missing"), None);
    assert_eq!(macos_os(plist, Some("arm64")).as_deref(), Some("macOS 14.5 arm64"));
}

#[test]
fn short_hostname_drops_the_domain() {
    assert_eq!(short_hostname("mac.local"), "mac");
    assert_eq!(short_hostname("a.b.c"), "a");
    assert_eq!(short_hostname("plain"), "plain");
    assert_eq!(short_hostname(""), "");
}

#[test]
fn brew_counts_the_first_cellar_with_kegs() {
    assert_eq!(brew_packages(&[0, 12]).as_deref(), Some("12 (brew)"));
    assert_eq!(brew_packages(&[7, 12]).as_deref(), Some("7 (brew)"));
    assert_eq!(brew_packages(&[0, 0]), None);
    assert_eq!(brew_packages(&[]), None);
}

#[test]
fn vm_memory_counts_active_wired_and_compressed_pages() {
    // 256 pages of 4 KiB each is 1 MiB of a 2 MiB machine.
    assert_eq!(vm_memory(2 * 1024 * 1024, 4096, 100, 100, 56).as_deref(), Some("1.00MiB / 2.00MiB (50%)"));
    assert_eq!(vm_memory(1024, u64::MAX, 1, 1, 0), None);
}

#[test]
fn the_terminal_search_stops_at_init_and_at_the_limit() {
    assert!(climbs_to(1234, 1));
    assert!(!climbs_to(1, 1));
    assert!(!climbs_to(0, 1));
    assert!(climbs_to(1234, MAX_ANCESTORS - 1));
    assert!(!climbs_to(1234, MAX_ANCESTORS));
    assert_eq!(MAX_ANCESTORS, 8);
}
