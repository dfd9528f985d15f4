use resmon::binary::from_whole;
use resmon::display::{
    can_show_compact, compact_line, create_bar, display_compact, display_minimal,
    display_top_processes,
};
use resmon::linux;
use resmon::options::Options;
use resmon::percent::percent_of;
use resmon::session::{advance, output, snapshot, Output, Sample, Session};
use resmon::single::to_single;
use resmon::stats::{CpuStats, MemStats};

fn options() -> Options {
    Options {
        quiet: false,
        interval: 1,
        json: false,
        no_color: true,
        storage: true,
        battery: true,
        network: true,
        cpu: true,
        all: false,
        top: 0,
        delta: false,
        style: "bars".to_string(),
        bars: 10,
        timestamp: false,
    }
}

fn memory(used: u64, total: u64) -> MemStats {
    MemStats {
        total_kb: total,
        available_kb: total - used,
        used_kb: used,
        used_percent: percent_of(used, total),
    }
}

fn sample(used: u64, net: Option<(u64, u64)>) -> Sample {
    Sample {
        memory: memory(used, 2097152),
        cpu: Some(CpuStats { usage_percent: to_single(from_whole(40)), cores: vec![] }),
        storage: Some((2097152, 1048576)),
        battery: Some((85, "Charging".to_string())),
        network: net,
    }
}

#[test]
fn test_bar_creation() {
    assert_eq!(create_bar(from_whole(50), 10, true), "[#####-----]");
    assert_eq!(create_bar(from_whole(0), 10, true), "[----------]");
    assert_eq!(create_bar(from_whole(100), 10, true), "[##########]");
}

#[test]
fn bars_have_as_many_cells_as_asked_for() {
    for bars in [0u8, 1, 20, 255] {
        for part in [0u64, 1, 49, 50, 99, 100] {
            let bar = create_bar(percent_of(part, 100), bars, true);
            assert_eq!(bar.chars().count(), bars as usize + 2);
        }
    }
}

#[test]
fn full_line_without_colours() {
    let s = sample(1572864, Some((1024, 2048)));
    let line = display_compact(
        &s.memory,
        &options(),
        s.cpu.as_ref(),
        None,
        None,
        s.storage,
        &s.battery,
        s.network,
    );
    assert_eq!(
        line,
        "[########--] RAM 1.5 GiB / 2.0 GiB  CPU 40.0%  [#####-----] DISK 1.0 GiB / 2.0 GiB  \
         BAT 85% (Charging)  NET ↓1.0 MiB ↑2.0 MiB"
    );
}

#[test]
fn only_what_is_asked_for_is_shown() {
    let s = sample(1572864, Some((1, 1)));
    let mut o = options();
    o.cpu = false;
    o.storage = false;
    o.battery = false;
    o.network = false;
    let show = |o: &Options| {
        display_compact(&s.memory, o, s.cpu.as_ref(), None, None, s.storage, &s.battery, s.network)
    };
    assert_eq!(show(&o), "[########--] RAM 1.5 GiB / 2.0 GiB");
    o.all = true;
    assert_eq!(show(&o).matches("  ").count(), 4);
}

#[test]
fn changes_are_shown_between_readings() {
    let mut o = options();
    o.delta = true;
    o.cpu = false;
    o.storage = false;
    o.battery = false;
    let mut session = Session::new();
    let first = advance(&mut session, &o, &sample(1048576, Some((1024, 0))), 0);
    match first {
        Output::Text(t) => assert_eq!(t, "\r[#####-----] RAM 1.0 GiB / 2.0 GiB"),
        _ => panic!("text expected"),
    }
    assert_eq!(session.prev_mem, Some(1048576));
    assert_eq!(session.prev_net, Some((1024, 0)));
    let second = advance(&mut session, &o, &sample(1047552, Some((3072, 0))), 0);
    match second {
        Output::Text(t) => {
            assert_eq!(t, "\r[#####-----] RAM -1.0 MiB  NET ↓+2.0 MiB ↑0.0 MiB")
        }
        _ => panic!("text expected"),
    }
    advance(&mut session, &o, &sample(1047552, None), 0);
    assert_eq!(session.prev_net, Some((3072, 0)));
}

#[test]
fn minimal_style_shows_the_share() {
    assert_eq!(display_minimal(&memory(1, 3)), "33.3%");
    assert_eq!(display_minimal(&memory(1, 16)), "6.2%");
    assert_eq!(display_minimal(&memory(3, 16)), "18.8%");
    for used in 0..2000u64 {
        let share = (used as f64 / 2000f64) * 100.0;
        assert_eq!(display_minimal(&memory(used, 2000)), format!("{:.1}%", share));
    }
}

#[test]
fn messages_reach_the_screen() {
    let mut o = options();
    match output(&o, "x") {
        Output::Text(t) => assert_eq!(t, "\rx"),
        _ => panic!("text expected"),
    }
    o.interval = 0;
    match output(&o, "x") {
        Output::Text(t) => assert_eq!(t, "x\n"),
        _ => panic!("text expected"),
    }
    o.quiet = true;
    assert!(matches!(output(&o, "x"), Output::Nothing));
}

#[test]
fn readings_carry_their_time() {
    let mut o = options();
    o.timestamp = true;
    o.style = "minimal".to_string();
    let mut session = Session::new();
    match advance(&mut session, &o, &sample(1048576, None), 3661) {
        Output::Text(t) => assert_eq!(t, "\r[01:01:01] 50.0%"),
        _ => panic!("text expected"),
    }
}

#[test]
fn json_is_asked_for() {
    let mut o = options();
    o.json = true;
    let mut session = Session::new();
    assert!(matches!(advance(&mut session, &o, &sample(1, None), 0), Output::Json));
    assert_eq!(session.prev_mem, Some(1));
    o.interval = 0;
    assert!(matches!(snapshot(&o, &sample(1, None)), Output::Json));
    let wanted = o.wanted();
    assert!(wanted.cpu && !wanted.storage && !wanted.battery && !wanted.network);
    o.json = false;
    o.top = 3;
    assert_eq!(o.listed_processes(), 3);
    assert!(o.wanted().network);
    match snapshot(&o, &sample(1048576, None)) {
        Output::Text(t) => assert!(t.starts_with("[#####-----] RAM") && t.ends_with(")\n")),
        _ => panic!("text expected"),
    }
}

#[test]
fn intervals_up_to_a_day_are_accepted() {
    let mut o = options();
    o.interval = 86_400;
    assert!(o.interval_accepted());
    o.interval = 86_401;
    assert!(!o.interval_accepted());
}

#[test]
fn figures_that_cannot_be_shown_are_told() {
    let mut o = options();
    let over = MemStats {
        total_kb: 1,
        available_kb: 0,
        used_kb: 2,
        used_percent: percent_of(2, 1),
    };
    assert!(!can_show_compact(&over, &o, None, None, None));
    o.delta = true;
    let m = memory(5, 10);
    assert!(can_show_compact(&m, &o, Some(0), None, None));
    assert!(!can_show_compact(&m, &o, Some(i64::MIN), None, None));
    assert!(!can_show_compact(&m, &o, None, Some((i64::MIN, 0)), Some((1, 1))));
    assert!(can_show_compact(&m, &o, None, Some((i64::MIN, 0)), None));
}

#[test]
fn linux_readings_can_always_be_shown() {
    let mut o = options();
    let session = Session::new();
    for text in ["MemTotal: 7 kB\nMemAvailable: 0 kB\n", "MemAvailable: 9 kB\n", ""] {
        let mut s = sample(0, None);
        s.memory = linux::read_meminfo(text);
        for bars in [0u8, 1, 255] {
            o.bars = bars;
            assert!(session.can_show(&o, &s));
        }
    }
}

#[test]
fn parts_stand_two_spaces_apart() {
    let line = compact_line(
        "a".to_string(),
        None,
        Some("b".to_string()),
        None,
        Some("c".to_string()),
    );
    assert_eq!(line, "a  b  c");
}

#[test]
fn processes_without_colours() {
    let list = vec![
        ("/usr/lib/a-very-long-command-name".to_string(), 2048u64),
        ("sh".to_string(), 1048576u64),
    ];
    assert_eq!(
        display_top_processes(&list, true),
        "Top processes:\n  1. /usr/lib/a-very-long 2.0 MiB\n  2. sh                   1.0 GiB"
    );
    assert_eq!(display_top_processes(&[], true), "Top processes:");
}

#[test]
fn colours_are_written_where_they_are_on() {
    colored::control::set_override(true);
    assert_eq!(create_bar(from_whole(80), 5, false), "\u{1b}[31m████░\u{1b}[0m");
    assert_eq!(create_bar(from_whole(79), 5, false), "\u{1b}[33m████░\u{1b}[0m");
    assert_eq!(create_bar(from_whole(60), 5, false), "\u{1b}[33m███░░\u{1b}[0m");
    assert_eq!(create_bar(from_whole(59), 5, false), "\u{1b}[32m███░░\u{1b}[0m");

    let s = sample(1572864, None);
    let mut o = options();
    o.no_color = false;
    o.bars = 4;
    let line = display_compact(
        &s.memory,
        &o,
        s.cpu.as_ref(),
        None,
        None,
        s.storage,
        &s.battery,
        s.network,
    );
    assert_eq!(
        line,
        "\u{1b}[33m███░\u{1b}[0m RAM 1.5 GiB / 2.0 GiB  \u{1b}[35mCPU 40.0%\u{1b}[0m  \
         \u{1b}[32m██░░\u{1b}[0m DISK 1.0 GiB / 2.0 GiB  \u{1b}[36mBAT 85% (Charging)\u{1b}[0m"
    );

    o.all = true;
    o.cpu = false;
    o.battery = false;
    let all = display_compact(
        &s.memory,
        &o,
        s.cpu.as_ref(),
        Some(1),
        Some((1, 1)),
        s.storage,
        &s.battery,
        s.network,
    );
    assert_eq!(all, line);

    let list = vec![("sh".to_string(), 1024u64), ("a\u{1b}[0mb".to_string(), 0u64)];
    assert_eq!(
        display_top_processes(&list, false),
        "\u{1b}[1;36m Top processes \u{1b}[0m\n  \
         \u{1b}[36m1.\u{1b}[0m \u{1b}[34msh                  \u{1b}[0m \u{1b}[32m1.0 MiB\u{1b}[0m\n  \
         \u{1b}[36m2.\u{1b}[0m \u{1b}[34ma\u{1b}[0m\u{1b}[34mb         \u{1b}[0m \u{1b}[32m0.0 MiB\u{1b}[0m"
    );

    colored::control::set_override(false);
    assert_eq!(create_bar(from_whole(80), 5, false), "████░");
    assert_eq!(
        display_top_processes(&list[..1], false),
        " Top processes \n  1. sh                   1.0 MiB"
    );
}

#[test]
fn silence_prints_nothing() {
    let mut o = options();
    o.quiet = true;
    o.top = 3;
    for json in [false, true] {
        o.json = json;
        o.interval = 0;
        assert!(matches!(snapshot(&o, &sample(1, None)), Output::Nothing));
        assert_eq!(o.listed_processes(), 0);
        o.interval = 1;
        let mut session = Session::new();
        assert!(matches!(advance(&mut session, &o, &sample(1, None), 0), Output::Nothing));
        assert_eq!(session.prev_mem, Some(1));
    }
}

fn line(s: &Sample, o: &Options, prev_mem: Option<i64>, prev_net: Option<(i64, i64)>) -> String {
    display_compact(
        &s.memory,
        o,
        s.cpu.as_ref(),
        prev_mem,
        prev_net,
        s.storage,
        &s.battery,
        s.network,
    )
}

#[test]
fn all_is_all_four() {
    let s = sample(1572864, Some((1024, 2048)));
    let mut o = options();
    let four = line(&s, &o, None, None);
    o.all = true;
    o.cpu = false;
    o.storage = false;
    assert_eq!(line(&s, &o, None, None), four);
}

#[test]
fn not_asked_is_absent() {
    let mut s = sample(1572864, Some((1024, 2048)));
    let mut o = options();
    o.battery = false;
    let with = line(&s, &o, None, None);
    s.battery = None;
    assert_eq!(line(&s, &o, None, None), with);
    o.cpu = false;
    o.storage = false;
    o.network = false;
    assert!(!line(&s, &o, None, None).contains("  "));
}

#[test]
fn previous_figures_count_for_changes_only() {
    let mut s = sample(1572864, Some((1024, 2048)));
    let mut o = options();
    assert_eq!(line(&s, &o, Some(7), Some((1, 2))), line(&s, &o, None, None));
    o.delta = true;
    let first = line(&s, &o, None, None);
    s.network = None;
    assert_eq!(line(&s, &o, None, None), first);
}

#[test]
fn unused_figures_leave_the_line() {
    let mut s = sample(1572864, Some((1024, 2048)));
    let mut o = options();
    let before = line(&s, &o, None, None);
    o.quiet = true;
    o.interval = 9;
    o.json = true;
    o.top = 4;
    o.style = "minimal".to_string();
    o.timestamp = true;
    s.memory.available_kb = 5;
    s.cpu = Some(CpuStats {
        usage_percent: to_single(from_whole(40)),
        cores: vec![to_single(from_whole(3))],
    });
    assert_eq!(line(&s, &o, None, None), before);
}
