use device_mapper_tests::decimal::{format_u64, parse_u64};
use device_mapper_tests::dm::{is_line, split_on_spaces, State, Status as DmStatus, Table as DmTable};
use device_mapper_tests::env::mem_blk::MemBlkAllocator;
use device_mapper_tests::env::pool::{DevicePool, Pool};
use device_mapper_tests::io::pattern::{IoRequest, Pattern, PatternIO};
use device_mapper_tests::rand_name::rand_name;
use device_mapper_tests::stack::{flakey, linear, luks::Luks};
use device_mapper_tests::writeboost::{Options, StatKey, Status, Table as WbTable, Tunable};
use device_mapper_tests::Sector;
use std::time::Duration;

#[test]
fn sector_units_and_bytes() {
    assert_eq!(Sector::KB(1), Sector(2));
    assert_eq!(Sector::MB(1), Sector(2048));
    assert_eq!(Sector::GB(1), Sector(2097152));
    assert_eq!(Sector::KB(1024), Sector::MB(1));
    assert_eq!(Sector::MB(1024), Sector::GB(1));
    assert_eq!(Sector::KB(3).bytes(), 3072);
    assert_eq!(Sector(7).sectors(), 7);
    assert_eq!(Sector(u64::MAX).bytes(), u64::MAX << 9);
    assert!(Sector(3) < Sector(4));
    assert!(Sector::MB(1) >= Sector::KB(1024));
    assert_eq!((Sector(9) + Sector(4)) - Sector(4), Sector(9));
}

#[test]
fn decimal_reads_as_from_str() {
    for s in ["0", "+5", "007", "18446744073709551615", "-5", "", "+", "18446744073709551616", "12a", " 1", "1 ", "-0"] {
        assert_eq!(parse_u64(s), s.parse::<u64>().ok(), "{:?}", s);
    }
    assert_eq!(parse_u64("+5"), Some(5));
    assert_eq!(parse_u64("-5"), None);
}

#[test]
fn decimal_writes_as_display() {
    for n in [0u64, 7, 10, 1234, 4096, u64::MAX] {
        assert_eq!(format_u64(n), n.to_string());
        assert_eq!(parse_u64(&format_u64(n)), Some(n));
    }
}

#[test]
fn split_as_str_split() {
    for s in ["", " ", "a", "0 1 linear 7:0 0", "a  b", " a ", "x y z "] {
        let ours = split_on_spaces(s);
        let theirs: Vec<String> = s.split(" ").map(|x| x.to_string()).collect();
        assert_eq!(ours, theirs, "{:?}", s);
    }
}

#[test]
fn dm_table_line() {
    let t = DmTable::from_str("0 204800 linear 7:0 40960").unwrap();
    assert_eq!(t.start, Sector(0));
    assert_eq!(t.len, Sector(204800));
    assert_eq!(t.target, "linear");
    assert_eq!(t.args, vec!["7:0".to_string(), "40960".to_string()]);
    let t = DmTable::from_str("0 1 zero").unwrap();
    assert!(t.args.is_empty());
    let t = DmTable::from_str("0 1 t  a").unwrap();
    assert_eq!(t.args, vec!["".to_string(), "a".to_string()]);
    assert!(is_line("0 1 zero") && is_line("0 1 t  a"));
    assert!(!is_line("0 1") && !is_line("x 1 linear") && !is_line("0 y linear") && !is_line(""));
    assert!("0 1".parse::<DmTable>().is_err());
    assert!("x 1 linear".parse::<DmTable>().is_err());
    assert!("0 y linear".parse::<DmTable>().is_err());
    assert!("".parse::<DmTable>().is_err());
    let s = DmStatus::from_str("0 2048 flakey").unwrap();
    assert_eq!(s.target, "flakey");
    assert_eq!(s.len, Sector(2048));
    assert!("0 2048".parse::<DmStatus>().is_err());
}

#[test]
fn device_names_and_paths() {
    assert_eq!(rand_name(0), "dmtest-0");
    assert_eq!(rand_name(42), "dmtest-42");
    let st = State::new(rand_name(3));
    assert_eq!(st.name(), "dmtest-3");
    assert_eq!(st.path(), "/dev/mapper/dmtest-3");
    let l = Luks::opened_as("dmtest-9".to_string());
    assert_eq!(l.path(), "/dev/mapper/dmtest-9");
    let mut a = MemBlkAllocator::new();
    assert_eq!(a.next_path(), "/mnt/dmtest/0");
    assert_eq!(a.next_path(), "/mnt/dmtest/1");
    assert_eq!(a.count(), 2);
}

#[test]
fn table_lines() {
    let lin = linear::Table { backing_dev: "/dev/loop0".to_string(), offset: Sector::MB(20), len: Sector::MB(40) };
    let line = lin.line();
    assert_eq!(line, "0 81920 linear /dev/loop0 40960");
    let back = DmTable::from_str(&line).unwrap();
    assert_eq!(back.start, Sector(0));
    assert_eq!(back.len, Sector::MB(40));
    assert_eq!(back.target, "linear");
    assert_eq!(back.args, vec!["/dev/loop0".to_string(), "40960".to_string()]);
    let fl = flakey::Table { backing_dev: "/dev/loop1".to_string(), up_interval_sec: 8, down_interval_sec: 2 };
    assert_eq!(fl.line(Sector(10)), "0 10 flakey /dev/loop1 0 8 2");
    let wb = WbTable { backing_dev: "/dev/a".to_string(), cache_dev: "/dev/b".to_string(), options: Options::default() };
    assert_eq!(wb.line(Sector(100)), "0 100 writeboost /dev/a /dev/b");
    let wb = WbTable {
        backing_dev: "/dev/a".to_string(),
        cache_dev: "/dev/b".to_string(),
        options: Options::default().read_cache_threshold(4).writeback_threshold(70),
    };
    assert_eq!(wb.line(Sector(100)), "0 100 writeboost /dev/a /dev/b 4 read_cache_threshold 4 writeback_threshold 70");
}

#[test]
fn options_repr() {
    assert_eq!(Options::default().mk_line_repr(), "");
    let full = Options::default()
        .writeback_threshold(100)
        .nr_max_batched_writeback(32)
        .update_sb_record_interval(3600)
        .sync_data_interval(3600)
        .read_cache_threshold(127)
        .write_around_mode()
        .nr_read_cache_cells(1);
    assert_eq!(
        full.mk_line_repr(),
        " 14 writeback_threshold 100 nr_max_batched_writeback 32 update_sb_record_interval 3600 sync_data_interval 3600 read_cache_threshold 127 write_around_mode 1 nr_read_cache_cells 1"
    );
    let twice = Options::default().sync_data_interval(5).read_cache_threshold(1).sync_data_interval(7);
    assert_eq!(twice.mk_line_repr(), " 4 sync_data_interval 7 read_cache_threshold 1");
}

#[test]
fn stat_keys() {
    let k = StatKey::from_bits(0b1011);
    assert_eq!(k, StatKey { write: true, hit: false, on_buffer: true, full_size: true });
    assert_eq!(StatKey::from_bits(0), StatKey { write: false, hit: false, on_buffer: false, full_size: false });
    for i in 0..16u8 {
        assert_eq!(StatKey::from_bits(i).to_bits(), i);
        for j in 0..i {
            assert_ne!(StatKey::from_bits(i), StatKey::from_bits(j));
        }
    }
    assert_eq!(StatKey::from_bits(0x1b), StatKey::from_bits(0x0b));
}

fn wb_dm_status(args: &[&str]) -> DmStatus {
    DmStatus { start: Sector(0), len: Sector(100), target: "writeboost".to_string(), args: args.iter().map(|s| s.to_string()).collect() }
}

#[test]
fn writeboost_status() {
    let mut args: Vec<String> = (0..24).map(|i| (i * 10).to_string()).collect();
    args.push("6".to_string());
    for kv in ["writeback_threshold", "70", "read_cache_threshold", "4", "writeback_threshold", "80"] {
        args.push(kv.to_string());
    }
    let refs: Vec<&str> = args.iter().map(|s| s.as_str()).collect();
    assert!(Status::readable(&wb_dm_status(&refs)));
    let st = Status::from(wb_dm_status(&refs));
    assert_eq!(st.cursor_pos, 0);
    assert_eq!(st.nr_cache_blocks, 10);
    assert_eq!(st.nr_dirty_cache_blocks, 60);
    assert_eq!(st.stat.len(), 16);
    assert_eq!(st.stat_of(&StatKey::from_bits(5)), Some(120));
    assert_eq!(st.nr_partial_flushed, 230);
    assert_eq!(st.options, vec![("writeback_threshold".to_string(), 80), ("read_cache_threshold".to_string(), 4)]);
    // Without the tunables, and without even their count.
    assert!(Status::readable(&wb_dm_status(&refs[..24])));
    let st = Status::from(wb_dm_status(&refs[..24]));
    assert!(st.options.is_empty());
    assert!(Status::readable(&wb_dm_status(&refs[..25])));
    let st = Status::from(wb_dm_status(&refs[..25]));
    assert!(st.options.is_empty());
    // Too short, a name without a value, and a value that is no number.
    assert!(!Status::readable(&wb_dm_status(&refs[..23])));
    assert!(!Status::readable(&wb_dm_status(&refs[..26])));
    let mut bad = refs.clone();
    bad[3] = "x";
    assert!(!Status::readable(&wb_dm_status(&bad)));
    let mut bad = refs.clone();
    bad[26] = "seventy";
    assert!(!Status::readable(&wb_dm_status(&bad)));
}

#[test]
fn pattern_rounds() {
    let pats = [Pattern::Write(Sector(2)), Pattern::Skip(Sector(3)), Pattern::Read(Sector(1))];
    let pio = PatternIO::new().cur(Sector(10)).max_io_amount(Sector(12)).max_runtime(Duration::from_secs(1));
    assert_eq!(pio.runtime_limit(), Some(Duration::from_secs(1)));
    let mut run = pio.begin();
    assert_eq!(run.position(), Sector(10));
    let reqs = run.round(&pats);
    assert_eq!(
        reqs,
        vec![
            IoRequest::Write { offset: Sector(10), len: Sector(2) },
            IoRequest::Read { offset: Sector(15), len: Sector(1) },
        ]
    );
    assert_eq!(run.position(), Sector(16));
    assert!(!run.finished(false));
    assert!(run.finished(true));
    let reqs = run.round(&pats);
    assert_eq!(reqs[0], IoRequest::Write { offset: Sector(16), len: Sector(2) });
    assert!(run.finished(false));
    let run = PatternIO::new().begin();
    assert_eq!(run.position(), Sector(0));
    assert!(!run.finished(false));
}

#[test]
fn pool_takes_from_the_last_range_that_fits() {
    let mut pool = Pool::new(Sector(0), Sector(100));
    let a = pool.acquire(Sector(30)).unwrap();
    let b = pool.acquire(Sector(30)).unwrap();
    assert_eq!((a.start(), a.end()), (Sector(0), Sector(30)));
    assert_eq!((b.start(), b.end()), (Sector(30), Sector(60)));
    pool.release(a);
    // Free: [0, 30) and [60, 100); the last range that holds 20 sectors is [60, 100).
    let c = pool.acquire(Sector(20)).unwrap();
    assert_eq!((c.start(), c.end()), (Sector(60), Sector(80)));
    // Only [0, 30) holds 25 sectors.
    let d = pool.acquire(Sector(25)).unwrap();
    assert_eq!((d.start(), d.end()), (Sector(0), Sector(25)));
    assert!(pool.acquire(Sector(21)).is_none());
}

#[test]
fn pool_acquire_release_roundtrip() {
    let mut pool = Pool::new(Sector(5), Sector(95));
    let a = pool.acquire(Sector(40)).unwrap();
    let b = pool.acquire(Sector(10)).unwrap();
    assert!(a.end() <= b.start() || b.end() <= a.start());
    let before = pool.len();
    let c = pool.acquire(Sector(7)).unwrap();
    pool.release(c);
    assert_eq!(pool.len(), before);
    let again = pool.acquire(Sector(7)).unwrap();
    assert_eq!((again.start(), again.end()), (c.start(), c.end()));
    pool.release(again);
    pool.release(b);
    pool.release(a);
    assert_eq!(pool.len(), 1);
    let all = pool.acquire(Sector(95)).unwrap();
    assert_eq!((all.start(), all.end()), (Sector(5), Sector(100)));
}

#[test]
fn pool_acquire_nothing() {
    let mut pool = Pool::new(Sector(0), Sector(10));
    let e = pool.acquire(Sector(0)).unwrap();
    assert_eq!((e.start(), e.end()), (Sector(0), Sector(0)));
    assert_eq!(e.len(), Sector(0));
    assert_eq!(pool.len(), 1);
    pool.release(e);
    assert_eq!(pool.len(), 1);
    let all = pool.acquire(Sector(10)).unwrap();
    assert_eq!((all.start(), all.end()), (Sector(0), Sector(10)));
    assert!(Pool::new(Sector(0), Sector(0)).acquire(Sector(1)).is_none());
}

#[test]
fn device_pool_tables() {
    let mut pool = DevicePool::new("/dev/loop7", Sector::MB(100));
    assert!(pool.has_room(Sector::MB(10)));
    let (r, t) = pool.acquire(Sector::MB(10));
    assert_eq!(t.line(), "0 20480 linear /dev/loop7 0");
    assert_eq!(t.offset, r.start());
    assert!(!pool.has_room(Sector::MB(90) + Sector(1)));
    let (r2, t2) = pool.acquire(Sector::MB(90));
    assert_eq!(t2.offset, Sector::MB(10));
    assert!(!pool.has_room(Sector(1)));
    pool.release(r);
    pool.release(r2);
    assert!(pool.has_room(Sector::MB(100)));
    assert!(!pool.has_room(Sector::MB(100) + Sector(1)));
    let (all, _) = pool.acquire(Sector::MB(100));
    assert_eq!((all.start(), all.end()), (Sector(0), Sector::MB(100)));
}

#[test]
fn dm_lines_parse_through_from_str_trait() {
    let t: DmTable = "0 8 error".parse().unwrap();
    assert_eq!(t.target, "error");
    assert!("0".parse::<DmStatus>().is_err());
}

#[test]
fn writeboost_line_reads_back() {
    let wb = WbTable {
        backing_dev: "/dev/a".to_string(),
        cache_dev: "/dev/b".to_string(),
        options: Options::default().nr_read_cache_cells(2048).write_around_mode(),
    };
    let t = DmTable::from_str(&wb.line(Sector(64))).unwrap();
    assert_eq!(t.start, Sector(0));
    assert_eq!(t.len, Sector(64));
    assert_eq!(t.target, "writeboost");
    assert_eq!(t.args, vec!["/dev/a", "/dev/b", "4", "nr_read_cache_cells", "2048", "write_around_mode", "1"]);
}

#[test]
fn io_request_buffers() {
    let w = IoRequest::Write { offset: Sector(8), len: Sector(2) };
    assert_eq!(w.buffer(), vec![0xFFu8; 1024]);
    let r = IoRequest::Read { offset: Sector(0), len: Sector(3) };
    assert_eq!(r.buffer(), vec![0u8; 1536]);
    let e = IoRequest::Write { offset: Sector(0), len: Sector(0) };
    assert!(e.buffer().is_empty());
}

#[test]
fn tunable_ranges() {
    assert!(Tunable::WritebackThreshold.accepts(0) && Tunable::WritebackThreshold.accepts(100));
    assert!(!Tunable::WritebackThreshold.accepts(101));
    assert!(!Tunable::NrMaxBatchedWriteback.accepts(0) && Tunable::NrMaxBatchedWriteback.accepts(32));
    assert!(!Tunable::NrMaxBatchedWriteback.accepts(33));
    assert!(Tunable::UpdateSbRecordInterval.accepts(3600) && !Tunable::UpdateSbRecordInterval.accepts(3601));
    assert!(Tunable::SyncDataInterval.accepts(0) && !Tunable::SyncDataInterval.accepts(3601));
    assert!(Tunable::ReadCacheThreshold.accepts(127) && !Tunable::ReadCacheThreshold.accepts(128));
    assert!(Tunable::WriteAroundMode.accepts(1) && !Tunable::WriteAroundMode.accepts(0));
    assert!(!Tunable::NrReadCacheCells.accepts(0) && Tunable::NrReadCacheCells.accepts(2048));
    assert!(!Tunable::NrReadCacheCells.accepts(2049));
}

#[test]
fn options_clone_and_reset() {
    let o = Options::default().writeback_threshold(70).read_cache_threshold(4).writeback_threshold(80);
    let c = o.clone();
    assert_eq!(c.mk_line_repr(), o.mk_line_repr());
    assert_eq!(o.mk_line_repr(), " 4 writeback_threshold 80 read_cache_threshold 4");
}
