use device_mapper_tests::env::pool::{DevicePool, Pool};
use device_mapper_tests::io::pattern::{IoRequest, Pattern, PatternIO};
use device_mapper_tests::writeboost::{Options, Table};
use device_mapper_tests::stack::flakey;
use device_mapper_tests::Sector;

#[test]
fn test_pool_1() {
    let mut pool = Pool::new(Sector(0), Sector(100));
    assert_eq!(pool.len(), 1);
    let x0 = pool.acquire(Sector(50)).unwrap();
    assert_eq!(pool.len(), 1);
    let x1 = pool.acquire(Sector(10)).unwrap();
    assert_eq!(pool.len(), 1);
    let x2 = pool.acquire(Sector(10)).unwrap();
    assert_eq!(pool.len(), 1);
    pool.release(x1);
    assert_eq!(pool.len(), 2);
    pool.release(x0);
    assert_eq!(pool.len(), 2);
    pool.release(x2);
    assert_eq!(pool.len(), 1);
}

#[test]
fn test_pool_2() {
    let mut pool = Pool::new(Sector(0), Sector(100));
    assert!(pool.acquire(Sector(101)).is_none());
    let x1 = pool.acquire(Sector(100)).unwrap();
    assert_eq!(pool.len(), 0);
    pool.release(x1);
    assert_eq!(pool.len(), 1);
}

#[test]
fn test_sector() {
    let x = Sector::MB(5);
    let y = Sector::MB(3);
    assert_eq!(x + y, Sector::MB(8));
    assert_eq!(x - y, Sector::KB(2048));
    assert_eq!(x * 4, Sector::MB(20));
}

// The allocation that `env().alloc_device` makes, ten times over, on the
// 2 GiB backing device that `env()` sets up.
#[test]
fn test_mem_pool() {
    let mut pool = DevicePool::new("/dev/loop0", Sector::MB(2 << 10));
    let mut xs = vec![];
    for _ in 0..10 {
        assert!(pool.has_room(Sector::MB(1)));
        xs.push(pool.acquire(Sector::MB(1)));
    }
    for (i, (a, ta)) in xs.iter().enumerate() {
        assert_eq!(ta.len, Sector::MB(1));
        assert_eq!(ta.offset, a.start());
        assert_eq!(ta.backing_dev, "/dev/loop0");
        for (b, _) in xs.iter().skip(i + 1) {
            assert!(a.end() <= b.start() || b.end() <= a.start());
        }
    }
}

// The table that a flakey device over a pooled device loads: a 100 MiB
// device, up for 8 seconds, then down for 2.
#[test]
fn test_flakey() {
    let tab = flakey::Table {
        backing_dev: "/dev/mapper/dmtest-0".to_string(),
        up_interval_sec: 8,
        down_interval_sec: 2,
    };
    assert_eq!(tab.line(Sector::MB(100)), "0 204800 flakey /dev/mapper/dmtest-0 0 8 2");
}

// The pattern of the I/O test on a 1 GiB device, run up to 500 MiB: the
// rounds that the run asks for, without the device.
#[test]
fn test_pattern_io() {
    let dev_len = Sector::GB(1);
    let pats = vec![
        Pattern::Write(Sector::MB(2)),
        Pattern::Skip(Sector::MB(3)),
        Pattern::Read(Sector::MB(2)),
        Pattern::Skip(Sector::MB(3)),
    ];
    let pat = PatternIO::new().max_io_amount(Sector::MB(500));
    let mut run = pat.begin();
    let mut rounds = 0;
    loop {
        for req in run.round(&pats) {
            let (offset, len) = match req {
                IoRequest::Write { offset, len } => (offset, len),
                IoRequest::Read { offset, len } => (offset, len),
            };
            assert!(offset + len <= dev_len);
        }
        rounds += 1;
        if run.finished(false) {
            break;
        }
    }
    assert_eq!(rounds, 50);
    assert_eq!(run.position(), Sector::MB(500));
}

// Every tunable set at its bound, as the writeboost device is created with.
#[test]
fn test_full_options() {
    let options = Options::default()
        .writeback_threshold(100)
        .nr_max_batched_writeback(32)
        .update_sb_record_interval(3600)
        .sync_data_interval(3600)
        .read_cache_threshold(127)
        .write_around_mode()
        .nr_read_cache_cells(1);
    let table = Table {
        backing_dev: "/dev/mapper/dmtest-0".to_string(),
        cache_dev: "/dev/mapper/dmtest-1".to_string(),
        options,
    };
    assert_eq!(
        table.line(Sector::MB(500)),
        "0 1024000 writeboost /dev/mapper/dmtest-0 /dev/mapper/dmtest-1 14 writeback_threshold 100 nr_max_batched_writeback 32 update_sb_record_interval 3600 sync_data_interval 3600 read_cache_threshold 127 write_around_mode 1 nr_read_cache_cells 1"
    );
}
