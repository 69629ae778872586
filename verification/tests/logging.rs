use nodus::logging::{
    civil_from_days, stamp_from_unix, continue_header, current_retention, entry_time, excess_by_count, file_name, file_to_continue, files_to_prune, next_to_prune, header_start, header_status,
    header_version, last_entry_in, needs_rotation, next_index, over_size_limit, parse_file_name, render_header,
    repair_header, retention_limits, set_retention, LogFileInfo, Retention, RetentionSetting, Stamp, Status,
    DEFAULT_MAX_FILES, HEADER_BYTES, MAX_DAYS, MAX_FILE_BYTES, LogCursor,
};

#[test]
fn file_names_parse_only_our_scheme() {
    assert_eq!(parse_file_name("nodus.2026-09-10-n1.log"), Some(("2026-09-10".into(), 1)));
    assert_eq!(parse_file_name("nodus.2026-09-10-n12.log"), Some(("2026-09-10".into(), 12)));
    assert_eq!(parse_file_name("nodus.log"), None);
    assert_eq!(parse_file_name("nodus.2026-09-10-n0.log"), None);
    assert_eq!(parse_file_name("nodus.2026-9-10-n1.log"), None);
    assert_eq!(parse_file_name("nodus.2026-09-10-n+1.log"), None);
    assert_eq!(parse_file_name("notes.txt"), None);
}

#[test]
fn file_name_parses_back() {
    let name = file_name("2026-09-10", 7);
    assert_eq!(name, "nodus.2026-09-10-n7.log");
    assert_eq!(parse_file_name(&name), Some(("2026-09-10".into(), 7)));
}

#[test]
fn every_header_fits_its_reserved_space_exactly() {
    for status in [Status::Writing, Status::Closed, Status::CutShort] {
        let h = render_header("0.6.0-rc.12", "2026-09-10", 999, "19:03:12", "23:59:58", status);
        assert_eq!(h.len(), HEADER_BYTES, "{status:?}");
        assert_eq!(h.last(), Some(&b'\n'));
        let text = String::from_utf8(h).expect("utf-8 header");
        assert_eq!(header_status(&text), Some(status), "{text}");
        assert_eq!(header_start(&text).as_deref(), Some("19:03:12"));
        assert_eq!(header_version(&text).as_deref(), Some("0.6.0-rc.12"));
    }
}

#[test]
fn retention_packs_mode_and_value_together() {
    let mut setting = RetentionSetting::new();
    assert_eq!(current_retention(&setting), Retention::Files(DEFAULT_MAX_FILES));
    set_retention(&mut setting, Retention::Megabytes(80));
    assert_eq!(current_retention(&setting), Retention::Megabytes(80));
    set_retention(&mut setting, Retention::Files(7));
    assert_eq!(current_retention(&setting), Retention::Files(7));
    set_retention(&mut setting, Retention::Files(DEFAULT_MAX_FILES));
}

#[test]
fn retention_limits_clamp_megabytes() {
    assert_eq!(retention_limits(Retention::Files(3)), (Some(3), None));
    assert_eq!(retention_limits(Retention::Megabytes(2)), (None, Some(10 * 1024 * 1024)));
    assert_eq!(retention_limits(Retention::Megabytes(80)), (None, Some(80 * 1024 * 1024)));
    assert_eq!(excess_by_count(6, 5), 2);
    assert_eq!(excess_by_count(3, 5), 0);
    assert_eq!(excess_by_count(2, 0), 2);
    assert!(over_size_limit(11, 10, 1));
    assert!(!over_size_limit(11, 10, 0));
}

#[test]
fn stamps_format_and_compare() {
    let s = Stamp::from_parts("2026-09-10", "19:03:12").expect("valid stamp");
    assert_eq!(s.date(), "2026-09-10");
    assert_eq!(s.hms(), "19:03:12");
    let t = Stamp::from_parts("2026-09-10", "23:59:58").expect("valid stamp");
    assert!(s.same_day(&t));
    assert!(Stamp::from_parts("2026-9-10", "19:03:12").is_none());
}

#[test]
fn rotation_on_size_and_day() {
    let a = Stamp::from_parts("2026-09-10", "10:00:00").unwrap();
    let b = Stamp::from_parts("2026-09-11", "00:00:01").unwrap();
    assert!(needs_rotation(false, &a, &a, 0, 10, MAX_FILE_BYTES));
    assert!(!needs_rotation(true, &a, &a, 100, 10, MAX_FILE_BYTES));
    assert!(needs_rotation(true, &b, &a, 100, 10, MAX_FILE_BYTES));
    assert!(needs_rotation(true, &a, &a, MAX_FILE_BYTES - 5, 10, MAX_FILE_BYTES));
}

#[test]
fn next_index_counts_per_day() {
    let files = vec![
        LogFileInfo { date: "2026-09-10".to_string(), n: 2, bytes: 5 },
        LogFileInfo { date: "2026-09-09".to_string(), n: 9, bytes: 5 },
    ];
    assert_eq!(next_index(&files, "2026-09-10"), 3);
    assert_eq!(next_index(&files, "2026-09-11"), 1);
}

#[test]
fn entries_give_their_time() {
    assert_eq!(entry_time(b"2026-09-10 19:03:12.123 INFO x").as_deref(), Some("19:03:12"));
    assert_eq!(entry_time(b"garbage"), None);
    let tail = b"2026-09-10 19:03:12.1 a\n2026-09-10 19:04:00.5 b\n";
    assert_eq!(last_entry_in(tail).as_deref(), Some("19:04:00"));
}

#[test]
fn a_cut_short_header_is_repaired_with_the_last_entry() {
    let h = render_header("0.6.0", "2026-09-10", 1, "19:03:12", "", Status::Writing);
    let text = String::from_utf8(h).unwrap();
    let fixed = repair_header(&text, "2026-09-10", 1, Some("19:04:00")).expect("repairable");
    assert_eq!(fixed.len(), HEADER_BYTES);
    let fixed = String::from_utf8(fixed).unwrap();
    assert_eq!(header_status(&fixed), Some(Status::CutShort));
    assert_eq!(header_start(&fixed).as_deref(), Some("19:03:12"));
}

#[test]
fn a_closed_header_is_continued() {
    let h = render_header("0.6.0", "2026-09-10", 1, "19:03:12", "20:00:00", Status::Closed);
    let text = String::from_utf8(h).unwrap();
    let (start, again) = continue_header(&text, "0.6.1", "2026-09-10", 1).expect("continuable");
    assert_eq!(start.hms(), "19:03:12");
    let again = String::from_utf8(again).unwrap();
    assert_eq!(header_status(&again), Some(Status::Writing));
}

#[test]
fn days_since_the_epoch_become_dates() {
    assert_eq!(civil_from_days(0), (1970, 1, 1));
    assert_eq!(civil_from_days(11016), (2000, 2, 29));
    assert_eq!(civil_from_days(19000), (2022, 1, 8));
    assert_eq!(civil_from_days(20706), (2026, 9, 10));
    assert_eq!(civil_from_days(MAX_DAYS), (65535, 12, 31));
}

#[test]
fn unix_time_becomes_a_stamp() {
    let t = stamp_from_unix(1789066992, 345);
    assert_eq!(t.date(), "2026-09-10");
    assert_eq!(t.hms(), "19:03:12");
    assert_eq!(t.millis, 345);
}

// ── The writer's scenarios, run in memory on the library's decisions ────────

/// One log file held in memory.
struct MemFile {
    date: String,
    n: u32,
    content: Vec<u8>,
}

impl MemFile {
    fn name(&self) -> String {
        file_name(&self.date, self.n)
    }

    fn header(&self) -> String {
        String::from_utf8_lossy(&self.content[..HEADER_BYTES.min(self.content.len())]).into_owned()
    }

    fn first_line(&self) -> String {
        let text = String::from_utf8_lossy(&self.content).into_owned();
        text.lines().next().unwrap_or_default().trim_end().to_string()
    }

    fn write_header(&mut self, header: &[u8]) {
        self.content[..HEADER_BYTES].copy_from_slice(header);
    }
}

/// A log folder and the writer working in it, driven as the daemon drives
/// its files: the library's `LogCursor` keeps the writer's numbers and
/// decides rotation, the folder picks come from `file_to_continue` and
/// `next_to_prune`; only the bytes live here.
struct MemLog {
    files: Vec<MemFile>,
    cursor: LogCursor,
    current: Option<(String, u32)>,
    keep: Retention,
    finished: bool,
}

const VERSION: &str = "0.6.0";

fn at(date: &str, hms: &str) -> Stamp {
    Stamp::from_parts(date, hms).expect("valid stamp")
}

fn info_of(f: &MemFile) -> LogFileInfo {
    LogFileInfo { date: f.date.clone(), n: f.n, bytes: f.content.len() as u64 }
}

impl MemLog {
    fn infos(&self) -> Vec<LogFileInfo> {
        self.files.iter().map(info_of).collect()
    }

    /// Where the current file stands in the folder.
    fn current_index(&self) -> Option<usize> {
        let (d, n) = self.current.clone()?;
        self.files.iter().position(|f| f.date == d && f.n == n)
    }

    fn open_new(&mut self, now: Stamp) {
        let infos = self.infos();
        let (n, header) = self.cursor.start_new(VERSION, now, &infos);
        self.files.push(MemFile { date: now.date(), n, content: header });
        self.current = Some((now.date(), n));
    }

    fn prune(&mut self) {
        let cur = self.current_index().expect("a current file");
        let kept = self.files[cur].content.len() as u64;
        // the folder as listed, newest first: any order will do
        let mut others: Vec<usize> = (0..self.files.len()).filter(|&i| i != cur).rev().collect();
        let (max_files, max_bytes) = retention_limits(self.keep);
        let mut doomed: Vec<usize> = Vec::new();
        loop {
            let listed: Vec<LogFileInfo> = others.iter().map(|&i| info_of(&self.files[i])).collect();
            let Some(j) = next_to_prune(&listed, kept, max_files, max_bytes) else { break };
            doomed.push(others.remove(j));
        }
        let mut i = 0;
        self.files.retain(|_| {
            let keep = !doomed.contains(&i);
            i += 1;
            keep
        });
    }

    /// Launch: repair files a crash left open, continue today's last file
    /// when it was closed properly, else start a new one; then prune.
    fn open(files: Vec<MemFile>, now: Stamp, max_bytes: u64, keep: Retention) -> MemLog {
        let mut log = MemLog { files, cursor: LogCursor::new(now, max_bytes), current: None, keep, finished: false };
        for f in log.files.iter_mut() {
            let header = f.header();
            if header_status(&header) == Some(Status::Writing) {
                let last = last_entry_in(&f.content[HEADER_BYTES..]);
                if let Some(fixed) = repair_header(&header, &f.date, f.n, last.as_deref()) {
                    f.write_header(&fixed);
                }
            }
        }
        let today = now.date();
        let mut continued = false;
        if let Some(i) = file_to_continue(&log.infos(), &today, max_bytes) {
            let f = &mut log.files[i];
            if let Some((start, reopened)) = continue_header(&f.header(), VERSION, &f.date, f.n) {
                f.write_header(&reopened);
                let (n, len) = (f.n, f.content.len() as u64);
                log.current = Some((f.date.clone(), n));
                log.cursor.carry_on(n, start, now, len);
                continued = true;
            }
        }
        if !continued {
            log.open_new(now);
        }
        log.prune();
        log
    }

    fn close_current(&mut self) {
        let i = self.current_index();
        if let Some(header) = self.cursor.close(VERSION, Status::Closed) {
            let i = i.expect("the cursor's file is in the folder");
            self.files[i].write_header(&header);
        }
        self.current = None;
    }

    fn close(&mut self) {
        self.close_current();
        self.finished = true;
    }

    fn line(&mut self, now: Stamp, text: &str) {
        if self.finished {
            return;
        }
        let entry = format!("{} {}.000  INFO nodus: {text}\n", now.date(), now.hms());
        if self.cursor.rotation_due(now, entry.len() as u64) {
            self.close_current();
            self.open_new(now);
            self.prune();
        }
        let i = self.current_index().expect("a current file");
        self.files[i].content.extend_from_slice(entry.as_bytes());
        self.cursor.wrote(now, entry.len() as u64);
    }

    fn names(&self) -> Vec<String> {
        let mut v: Vec<String> = self.files.iter().map(|f| f.name()).collect();
        v.sort();
        v
    }

    fn file(&self, name: &str) -> &MemFile {
        self.files.iter().find(|f| f.name() == name).expect("file exists")
    }
}

#[test]
fn a_new_file_is_dated_and_says_it_is_being_written() {
    let log = MemLog::open(Vec::new(), at("2026-09-10", "19:03:12"), MAX_FILE_BYTES, Retention::Files(5));
    assert_eq!(
        log.file("nodus.2026-09-10-n1.log").first_line(),
        "# Nodus 0.6.0 · лог n1 за 2026-09-10 · период: с 19:03:12 · ещё пишется"
    );
}

#[test]
fn size_cut_closes_the_file_with_its_real_span() {
    let mut log =
        MemLog::open(Vec::new(), at("2026-09-10", "19:03:12"), HEADER_BYTES as u64 + 150, Retention::Files(5));
    log.line(at("2026-09-10", "19:03:12"), "first");
    log.line(at("2026-09-10", "19:40:55"), "second");
    log.line(
        at("2026-09-10", "20:15:00"),
        "a line long enough to push the file over its tiny test limit ..........",
    );
    assert_eq!(log.names(), ["nodus.2026-09-10-n1.log", "nodus.2026-09-10-n2.log"]);
    assert_eq!(
        log.file("nodus.2026-09-10-n1.log").first_line(),
        "# Nodus 0.6.0 · лог n1 за 2026-09-10 · период: 19:03:12 — 19:40:55 · закрыт"
    );
    assert!(log.file("nodus.2026-09-10-n2.log").first_line().contains("с 20:15:00 · ещё пишется"));
}

#[test]
fn midnight_starts_a_file_for_the_new_date() {
    let mut log = MemLog::open(Vec::new(), at("2026-09-10", "23:50:00"), MAX_FILE_BYTES, Retention::Files(5));
    log.line(at("2026-09-10", "23:59:58"), "late");
    log.line(at("2026-09-11", "00:00:03"), "after midnight");
    assert_eq!(log.names(), ["nodus.2026-09-10-n1.log", "nodus.2026-09-11-n1.log"]);
    assert!(log.file("nodus.2026-09-10-n1.log").first_line().ends_with("23:50:00 — 23:59:58 · закрыт"));
}

#[test]
fn a_file_cut_short_is_stamped_with_its_last_entry_on_next_launch() {
    let mut first = MemLog::open(Vec::new(), at("2026-09-10", "19:03:12"), MAX_FILE_BYTES, Retention::Files(5));
    first.line(at("2026-09-10", "21:14:07"), "the last thing before the crash");
    // Never closed: what a crash looks like to the file.
    let log = MemLog::open(first.files, at("2026-09-10", "21:20:00"), MAX_FILE_BYTES, Retention::Files(5));
    let crashed = log.file("nodus.2026-09-10-n1.log").first_line();
    assert!(crashed.contains("период: 19:03:12 — 21:14:07 · оборван"), "{crashed}");
    assert_eq!(header_status(&crashed), Some(Status::CutShort));
    assert!(log.file("nodus.2026-09-10-n2.log").first_line().contains("ещё пишется"));
}

#[test]
fn a_restart_after_a_normal_close_continues_the_same_file() {
    let mut first = MemLog::open(Vec::new(), at("2026-09-10", "19:03:12"), MAX_FILE_BYTES, Retention::Files(5));
    first.line(at("2026-09-10", "19:03:12"), "run one");
    first.close();
    let mut log = MemLog::open(first.files, at("2026-09-10", "20:00:00"), MAX_FILE_BYTES, Retention::Files(5));
    log.line(at("2026-09-10", "20:00:00"), "run two");
    assert_eq!(log.names(), ["nodus.2026-09-10-n1.log"]);
    let f = log.file("nodus.2026-09-10-n1.log");
    assert!(f.first_line().contains("с 19:03:12 · ещё пишется"));
    let body = String::from_utf8_lossy(&f.content).into_owned();
    assert!(body.contains("run one") && body.contains("run two"));
}

#[test]
fn keep_by_count_never_deletes_the_current_file() {
    let mut log =
        MemLog::open(Vec::new(), at("2026-09-10", "10:00:00"), HEADER_BYTES as u64 + 60, Retention::Files(2));
    for minute in 1..=6 {
        log.line(at("2026-09-10", &format!("10:{minute:02}:00")), "enough text to fill a tiny file");
    }
    let left = log.names();
    assert_eq!(left.len(), 2, "{left:?}");
    let current = log.current_index().expect("a current file");
    assert!(left.contains(&log.files[current].name()), "the file being written must survive pruning");
}

#[test]
fn keep_by_size_deletes_oldest_until_under_the_limit() {
    // Four 100-byte files of the day before, listed newest first, beside the
    // 100-byte current one, under a 250-byte limit.
    let others: Vec<LogFileInfo> =
        (1..=4).rev().map(|n| LogFileInfo { date: "2026-09-09".to_string(), n, bytes: 100 }).collect();
    let doomed = files_to_prune(&others, 100, None, Some(250));
    let current = file_name("2026-09-10", 1);
    let mut left: Vec<String> = (0..others.len())
        .filter(|i| !doomed.contains(i))
        .map(|i| file_name(&others[i].date, others[i].n))
        .chain([current])
        .collect();
    left.sort();
    assert_eq!(left, ["nodus.2026-09-09-n4.log", "nodus.2026-09-10-n1.log"]);
}

#[test]
fn keep_by_count_deletes_the_oldest_by_date_then_number() {
    let f = |date: &str, n: u32| LogFileInfo { date: date.to_string(), n, bytes: 1 };
    let others = vec![f("2026-09-10", 2), f("2026-09-09", 10), f("2026-09-10", 1), f("2026-09-09", 9)];
    assert_eq!(files_to_prune(&others, 1, Some(3), None), [3, 1]);
    assert!(files_to_prune(&others, 1, Some(5), None).is_empty());
    assert_eq!(files_to_prune(&others, 1, Some(0), None), [3, 1, 2, 0]);
    // a byte limit deletes nothing while the folder fits, and goes on after
    // a count limit while it does not
    assert!(files_to_prune(&others, 1, None, Some(5)).is_empty());
    assert_eq!(files_to_prune(&others, 1, Some(4), Some(3)), [3, 1]);
}

#[test]
fn files_outside_the_scheme_are_left_alone() {
    let folder = ["nodus.log", "notes.txt", "nodus.2026-09-10-n1.log"];
    let ours: Vec<(String, u32)> = folder.iter().filter_map(|name| parse_file_name(name)).collect();
    assert_eq!(ours, [("2026-09-10".to_string(), 1)]);
    // Only our files are candidates, and the current one never is.
    let others: Vec<LogFileInfo> = Vec::new();
    assert!(files_to_prune(&others, 3, Some(1), Some(1)).is_empty());
}

#[test]
fn pruning_one_file_at_a_time_takes_the_oldest() {
    let f = |date: &str, n: u32, bytes: u64| LogFileInfo { date: date.to_string(), n, bytes };
    let others = vec![f("2026-09-10", 2, 100), f("2026-09-09", 10, 100), f("2026-09-10", 1, 100)];
    assert_eq!(next_to_prune(&others, 100, Some(3), None), Some(1));
    assert_eq!(next_to_prune(&others, 100, Some(4), None), None);
    // 400 bytes in all against a 250-byte limit, then 300 once a file failed
    assert_eq!(next_to_prune(&others, 100, None, Some(250)), Some(1));
    assert_eq!(next_to_prune(&others[..1], 200, None, Some(250)), Some(0));
    assert_eq!(next_to_prune(&others[..1], 100, None, Some(250)), None);
    assert_eq!(next_to_prune(&[], 1000, None, Some(250)), None);
}

#[test]
fn a_launch_continues_the_days_last_file_unless_full() {
    let f = |date: &str, n: u32, bytes: u64| LogFileInfo { date: date.to_string(), n, bytes };
    let files = vec![f("2026-09-10", 2, 500), f("2026-09-11", 1, 10), f("2026-09-10", 1, 10)];
    assert_eq!(file_to_continue(&files, "2026-09-10", MAX_FILE_BYTES), Some(0));
    assert_eq!(file_to_continue(&files, "2026-09-12", MAX_FILE_BYTES), None);
    let full = vec![f("2026-09-10", 1, 10), f("2026-09-10", 2, MAX_FILE_BYTES)];
    assert_eq!(file_to_continue(&full, "2026-09-10", MAX_FILE_BYTES), None);
}
