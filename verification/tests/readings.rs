use resmon::binary::from_whole;
use resmon::linux;
use resmon::linux::{parse_cpu_line, CpuRaw, MemScan};
use resmon::macos;
use resmon::macos::{extract_page_count, parse_cpu_line_macos};
use resmon::percent::percent_of;
use resmon::single::{to_single, Single};
use resmon::stats::{get_storage_stats, get_top_processes, StatsError};

fn single_value(x: Single) -> f32 {
    match x {
        Single::Finite { negative, mant, exp } => {
            let size = (mant as f64 * 2f64.powi(exp)) as f32;
            if negative {
                -size
            } else {
                size
            }
        }
        Single::Infinite { .. } => f32::INFINITY,
        Single::NotANumber => f32::NAN,
    }
}

#[test]
fn test_extract_page_count() {
    let page_size = 4096;
    assert_eq!(extract_page_count("Pages free:         12345.", page_size), 12345 * 4);
}

#[test]
fn test_macos_parse_cpu() {
    let line = "CPU usage: 12.3% user, 4.5% sys, 82.1% idle, 1.1% wait";
    let readings: Vec<Option<u32>> = parse_cpu_line_macos(line)
        .iter()
        .map(|text| text.parse::<f32>().ok().map(f32::to_bits))
        .collect();
    let result = readings.iter().any(|r| r.is_some());
    assert!(result);
    let usage = single_value(macos::get_cpu_stats(&readings).usage_percent);
    assert!((usage - 17.9).abs() < 0.1);
}

const MEMINFO: &str = "MemTotal:       16000000 kB\nMemFree:         1000000 kB\n\
    MemAvailable:    4000000 kB\nBuffers:          500000 kB\n";

#[test]
fn linux_memory_is_read() {
    let stats = linux::read_meminfo(MEMINFO);
    assert_eq!(stats.total_kb, 16_000_000);
    assert_eq!(stats.available_kb, 4_000_000);
    assert_eq!(stats.used_kb, 12_000_000);
    assert_eq!(stats.used_percent, from_whole(75));
}

#[test]
fn linux_memory_line_by_line_is_the_same() {
    let mut scan = MemScan::new();
    let mut fed = 0;
    for line in MEMINFO.lines() {
        fed += 1;
        if scan.feed(line) {
            break;
        }
    }
    assert_eq!(fed, 3);
    assert_eq!(scan.finish(), linux::read_meminfo(MEMINFO));
}

#[test]
fn linux_memory_without_figures_is_zero() {
    let stats = linux::read_meminfo("MemTotal: many kB\nMemAvailable:\n");
    assert_eq!((stats.total_kb, stats.available_kb, stats.used_kb), (0, 0, 0));
    assert_eq!(stats.used_percent, from_whole(0));
    let stats = linux::read_meminfo("MemTotal: 10 kB\nMemAvailable: 30 kB\n");
    assert_eq!(stats.used_kb, 0);
}

#[test]
fn linux_memory_stops_once_both_figures_are_known() {
    let stats = linux::read_meminfo(
        "MemTotal: 1 kB\nMemTotal: 8 kB\nMemAvailable: 0 kB\nMemAvailable: 2 kB\nMemTotal: 99 kB\n",
    );
    assert_eq!((stats.total_kb, stats.available_kb), (8, 2));
}

#[test]
fn linux_memory_lines_may_change_places() {
    let one = linux::read_meminfo("a\nMemTotal: 8 kB\nb\nMemAvailable: 2 kB\n");
    let other = linux::read_meminfo("a\nMemAvailable: 2 kB\nb\nMemTotal: 8 kB\n");
    assert_eq!(one, other);
    let longer = "MemTotal: 8 kB\nMemAvailable: 2 kB\nMemTotal: 9 kB\n\u{fffd}MemAvailable: 1";
    assert_eq!(linux::read_meminfo(longer), one);
}

#[test]
fn cpu_lines_are_read() {
    assert_eq!(
        parse_cpu_line("cpu  1 2 3 4 5 6 7 8 9 10"),
        Some(CpuRaw {
            user: 1,
            nice: 2,
            system: 3,
            idle: 4,
            iowait: 5,
            irq: 6,
            softirq: 7,
            steal: 8
        })
    );
    assert_eq!(
        parse_cpu_line("cpu0 1 x 3 4"),
        Some(CpuRaw {
            user: 1,
            nice: 0,
            system: 3,
            idle: 4,
            iowait: 0,
            irq: 0,
            softirq: 0,
            steal: 0
        })
    );
    assert_eq!(parse_cpu_line("cpu 1 2 3"), None);
}

#[test]
fn linux_load_is_read() {
    let content = "cpu  30 0 10 50 10 0 0 0\ncpu0 1 0 0 3\ncpu1 0 0 0 0\ncpux 9 9 9 9\n\
        cpu2 3 0 0 1\nintr 1 2 3 4 5\n";
    let stats = linux::get_cpu_stats(content).unwrap();
    assert_eq!(stats.usage_percent, to_single(from_whole(40)));
    assert_eq!(stats.cores, vec![to_single(from_whole(25)), to_single(from_whole(75))]);
    assert_eq!(single_value(stats.usage_percent), 40.0);
}

#[test]
fn linux_load_agrees_with_floats() {
    let content = "cpu  123 45 67 8910 11 12 13 14\n";
    let stats = linux::get_cpu_stats(content).unwrap();
    let total = 123u64 + 45 + 67 + 8910 + 11 + 12 + 13 + 14;
    let idle = 8910u64 + 11;
    let want = ((total - idle) as f64 / total as f64) * 100.0;
    assert_eq!(single_value(stats.usage_percent), want as f32);
    assert_eq!(stats.usage_percent, to_single(percent_of(total - idle, total)));
}

#[test]
fn linux_load_errors() {
    assert_eq!(linux::get_cpu_stats("").unwrap_err(), StatsError::EmptyCpuReport);
    assert_eq!(linux::get_cpu_stats("cpu 1 2\n").unwrap_err(), StatsError::BadCpuReport);
    assert_eq!(StatsError::EmptyCpuReport.message(), "Empty /proc/stat");
    assert_eq!(StatsError::BadCpuReport.message(), "Failed to parse /proc/stat");
    let much = "cpu  18446744073709551615 1 0 0\n";
    assert!(linux::try_cpu_stats(much).is_none());
    let much = "cpu  1 1 1 1\ncpu0 18446744073709551615 1 0 0\n";
    assert!(linux::try_cpu_stats(much).is_none());
    assert!(linux::try_cpu_stats("cpu 1 1\ncpu0 18446744073709551615 1 0 0\n").unwrap().is_err());
}

#[test]
fn linux_traffic_is_read() {
    let content = "Inter-|   Receive\n face |bytes packets\n\
        lo: 2048 1 0 0 0 0 0 0 4096 1\n  eth0:1024 1 0 0 0 0 0 0 1023 1 0 0\n\
        bad line\nwlan0: 5 5 5\n eth1: x 0 0 0 0 0 0 0 1 0\n";
    assert_eq!(linux::get_network_stats(content), (3, 5));
    assert_eq!(linux::try_network_stats(content), Some((3, 5)));
    assert_eq!(linux::get_network_stats("one line"), (0, 0));
    let much = "a\nb\nx: 18446744073709551615 0 0 0 0 0 0 0 0\ny: 1 0 0 0 0 0 0 0 0\n";
    assert_eq!(linux::try_network_stats(much), None);
}

#[test]
fn linux_battery_is_read() {
    assert_eq!(
        linux::get_battery_stats("85\n", " Discharging\n"),
        Some((85, "Discharging".to_string()))
    );
    assert_eq!(linux::get_battery_stats("full\n", "Full\n"), None);
}

#[test]
fn storage_is_read() {
    let report = b"Filesystem 1K-blocks Used Available Use% Mounted on\n/dev/sda1 1000 400 600 40% /\n";
    assert_eq!(get_storage_stats(true, report), Ok((1000, 600)));
    let wrapped = b"Head\n/dev/long-name\n 1000 400 x 40%\n";
    assert_eq!(get_storage_stats(true, wrapped), Ok((400, 0)));
}

#[test]
fn storage_errors() {
    assert_eq!(get_storage_stats(false, b""), Err(StatsError::StorageReportFailed));
    assert_eq!(get_storage_stats(true, b"Head\n"), Err(StatsError::BadStorageReport));
    assert_eq!(get_storage_stats(true, b""), Err(StatsError::BadStorageReport));
    assert_eq!(StatsError::StorageReportFailed.message(), "df command failed");
    assert_eq!(StatsError::BadStorageReport.message(), "Unable to parse df output");
}

const PS: &[u8] = b"USER PID %CPU %MEM VSZ RSS TTY STAT START TIME COMMAND\n\
    root 1 0.0 0.1 100 2048 ? Ss 10:00 0:01 /sbin/init  splash\n\
    short line\n\
    me 2 0.0 0.1 100 what ? Ss 10:00 0:01\n\
    me 3 0.0 0.1 100 77 ? Ss 10:00 0:01 cat\n";

#[test]
fn processes_are_read() {
    assert_eq!(
        get_top_processes(3, true, PS).unwrap(),
        vec![
            ("/sbin/init splash".to_string(), 2048),
            ("cat".to_string(), 77),
            (String::new(), 0)
        ]
    );
    assert_eq!(get_top_processes(255, true, PS).unwrap().len(), 3);
    assert_eq!(get_top_processes(0, true, PS).unwrap(), vec![]);
    assert_eq!(get_top_processes(9, true, b"").unwrap(), vec![]);
}

#[test]
fn greatest_processes_come_first() {
    let mut report = String::from("heading\n");
    for (name, rss) in [("a", 1), ("b", 2), ("c", 9), ("d", 2), ("e", 5)] {
        report.push_str(&format!("me 1 0 0 0 {} ? S 0 0 {}\n", rss, name));
    }
    let top = |n: u8| -> Vec<(String, u64)> {
        get_top_processes(n, true, report.as_bytes()).unwrap()
    };
    let want: Vec<(String, u64)> = [("c", 9), ("e", 5), ("b", 2), ("d", 2), ("a", 1)]
        .iter()
        .map(|(name, rss)| (name.to_string(), *rss))
        .collect();
    for n in 0..=7u8 {
        let len = if n < 5 { n as usize } else { 5 };
        assert_eq!(top(n), want[..len].to_vec());
    }
}

#[test]
fn process_errors() {
    assert_eq!(get_top_processes(3, false, PS), Err(StatsError::ProcessReportFailed));
    assert_eq!(StatsError::ProcessReportFailed.message(), "ps command failed");
}

#[test]
fn bytes_that_are_no_text_are_replaced() {
    let report = b"Head\nx\xff 1 2 3\n";
    assert_eq!(get_storage_stats(true, report), Ok((1, 3)));
    let top = get_top_processes(1, true, b"h\na b c d e 5 g h i j k\xffl\n").unwrap();
    assert_eq!(top, vec![("k\u{fffd}l".to_string(), 5)]);
}

#[test]
fn mac_memory_size_is_read() {
    assert_eq!(macos::read_memory_size(b"17179869184\n"), Ok(16777216));
    assert_eq!(macos::read_memory_size(b"lots\n"), Err(StatsError::BadMemorySize));
    assert_eq!(StatsError::BadMemorySize.message(), "Failed to parse hw.memsize");
}

const VM_STAT: &str = "Mach Virtual Memory Statistics: (page size of 16384 bytes)\n\
    Pages free:                   262144.\nPages active:                 524288.\n\
    Pages inactive:               262144.\nPages speculative:              1000.\n\
    Pages wired down:             131072.\n Compressor page count:         131072.\n";

#[test]
fn mac_memory_is_read() {
    let stats = macos::try_read_meminfo(16777216, VM_STAT.as_bytes()).unwrap();
    assert_eq!(stats, macos::memory_from_report(16777216, VM_STAT).unwrap());
    assert_eq!(stats, macos::read_meminfo(16777216, VM_STAT.as_bytes()));
    assert_eq!(stats.total_kb, 16777216);
    assert_eq!(stats.available_kb, 2097152);
    assert_eq!(stats.used_kb, 3145728);
    assert_eq!(stats.used_percent, percent_of(3145728, 16777216));
}

#[test]
fn mac_memory_is_in_kilobytes() {
    assert_eq!(macos::read_memory_size(b"8388608\n"), Ok(8192));
    let report = b"Mach PAGESIZE=4096\nPages free: 256.\nPages active: 512.\n\
        Pages inactive: 256.\nPages wired down: 256.\nCompressor page count: 256.\n";
    let stats = macos::read_meminfo(8192, report);
    assert_eq!((stats.total_kb, stats.available_kb, stats.used_kb), (8192, 2048, 4096));
    assert_eq!(stats.used_percent, from_whole(50));
}

#[test]
fn mac_page_size_is_read() {
    let report = "Stats PAGESIZE=8192 bytes PAGESIZE=1\nPages free: 1024.\n";
    assert_eq!(macos::memory_from_report(1, report).unwrap().available_kb, 8192);
    let report = "Stats PAGESIZE=8192PAGESIZE=1\nPages free: 1024.\n";
    assert_eq!(macos::memory_from_report(1, report).unwrap().available_kb, 8192);
    let report = "Stats PAGESIZE=\nPages free: 1024.\n";
    assert_eq!(macos::memory_from_report(1, report).unwrap().available_kb, 4096);
    let report = "Stats PAGESIZE=big\nPages free: 1024.\n";
    assert_eq!(macos::memory_from_report(1, report).unwrap().available_kb, 4096);
}

#[test]
fn mac_memory_beyond_64_bits_is_refused() {
    let report = "x\nPages free: 18446744073709551615.\n";
    assert!(macos::memory_from_report(1, report).is_none());
    let report = "x\nPages idle: 18446744073709551615.\n";
    assert!(macos::memory_from_report(1, report).is_some());
}

#[test]
fn page_counts_without_numbers_are_zero() {
    assert_eq!(extract_page_count("Pages free", 4096), 0);
    assert_eq!(extract_page_count("Pages free: lots.", 4096), 0);
    assert_eq!(extract_page_count("Pages free: 3: 5.", 4096), 12);
    assert_eq!(extract_page_count("Pages free: 3", 1000), 2);
}

#[test]
fn mac_load_texts_are_found() {
    assert_eq!(
        parse_cpu_line_macos("CPU usage: 12.3% user, 4.5% sys, 82.1% idle"),
        vec!["82.1", "4.5", "12.3"]
    );
    assert!(parse_cpu_line_macos("CPU usage: 12.3% user").is_empty());
    assert!(parse_cpu_line_macos("usage: 82.1% idle").is_empty());
    let top = b"Processes: 1\nCPU usage: x% idle\nCPU usage: 1% 2%% idle 3%\n";
    assert_eq!(macos::idle_candidates(top), vec!["x", "2", "1"]);
}

#[test]
fn mac_load_is_computed() {
    let none = macos::get_cpu_stats(&[]);
    assert_eq!(single_value(none.usage_percent), 0.0);
    assert!(none.cores.is_empty());
    let first = macos::get_cpu_stats(&[None, Some(82.1f32.to_bits()), Some(1.0f32.to_bits())]);
    assert_eq!(single_value(first.usage_percent), 100.0 - 82.1f32);
}

#[test]
fn mac_traffic_is_read() {
    let report = b"Name Mtu Network Address Ipkts Ierrs Ibytes Opkts Oerrs Obytes Coll\n\
        lo0 16384 <Link#1> x 1 0 9999999 1 0 9999999 0\n\
        en0 1500 <Link#4> x 1 0 4096 1 0 2048 0\n\
        en1 1500 <Link#5> x 1 0 1024\n\
        utun0 1 2 3 4 5 9999999 7 8 9999999\n\
        en2 1500 short\n";
    assert_eq!(macos::try_network_stats(report), Some((5, 2)));
    assert_eq!(macos::get_network_stats(report), (5, 2));
    let much = b"h\na 1 2 3 4 5 18446744073709551615\nb 1 2 3 4 5 1\n";
    assert_eq!(macos::try_network_stats(much), None);
}

#[test]
fn mac_battery_is_read() {
    let report = b"Now drawing from 'Battery Power'\n -InternalBattery-0    85%; discharging; 4:11 remaining\n";
    assert_eq!(macos::get_battery_stats(report), Some((85, "Discharging".to_string())));
    let charge = |line: &str| macos::battery_from_report(line);
    assert_eq!(charge("Battery 50%; charging"), Some((50, "Charging".to_string())));
    assert_eq!(charge("Battery 100%; charged"), Some((100, "Fully Charged".to_string())));
    assert_eq!(charge("Battery 9%; AC attached"), Some((9, "Unknown".to_string())));
    assert_eq!(charge("Battery full"), None);
    assert_eq!(charge("Battery 8"), Some((8, "Unknown".to_string())));
    assert_eq!(charge("Battery at 8, charging"), Some((8, "Charging".to_string())));
    assert_eq!(charge("Battery-0 85 %; charged"), Some((85, "Fully Charged".to_string())));
    assert_eq!(charge("Battery 8 of full%"), Some((8, "Unknown".to_string())));
    assert_eq!(charge("Battery full%"), None);
    assert_eq!(charge("Power 50%"), None);
    assert_eq!(charge(""), None);
}

#[test]
fn mac_battery_takes_the_numerals_before_the_first_percent_sign() {
    assert_eq!(
        macos::battery_from_report(" -InternalBattery-0 (id=42)\t7% 8%; charging"),
        Some((7, "Charging".to_string()))
    );
    assert_eq!(
        macos::battery_from_report("Battery 3 at \u{0663}%"),
        Some((3, "Unknown".to_string()))
    );
    assert_eq!(
        macos::battery_from_report("Battery \u{0663}5%\nBattery 7%"),
        Some((7, "Unknown".to_string()))
    );
    assert_eq!(
        macos::battery_from_report("Battery 99999999999999999999%\nBattery 7%"),
        Some((7, "Unknown".to_string()))
    );
}
