use std::cell::Cell;
use std::rc::Rc;

use serialdebugger::device::{bytes_read, read_buffer, Device, DeviceChannel, DevicePool, DeviceRef};
use serialdebugger::err::{Error, ErrorKind};

struct StubChannel {
    data: Vec<u8>,
    fail: bool,
    closes: Rc<Cell<u32>>,
    written: Vec<u8>,
}

impl StubChannel {
    fn new(data: &[u8], closes: &Rc<Cell<u32>>) -> StubChannel {
        StubChannel { data: data.to_vec(), fail: false, closes: closes.clone(), written: Vec::new() }
    }
}

impl DeviceChannel for StubChannel {
    fn read(&mut self, buf: &mut Vec<u8>) -> Result<usize, Error> {
        let n = buf.len().min(self.data.len());
        buf[..n].copy_from_slice(&self.data[..n]);
        self.data.drain(..n);
        Ok(n)
    }

    fn write(&mut self, buf: &[u8]) -> Result<usize, Error> {
        self.written.extend_from_slice(buf);
        Ok(buf.len())
    }

    fn flush(&mut self) -> Result<(), Error> {
        Ok(())
    }

    fn available(&self) -> Result<usize, Error> {
        if self.fail {
            Err(Error::new(ErrorKind::IO("Other".to_string(), "broken".to_string()), "IO Error".to_string()))
        } else {
            Ok(self.data.len())
        }
    }

    fn close(&mut self) {
        self.closes.set(self.closes.get() + 1);
    }
}

fn device(name: &str, data: &[u8], closes: &Rc<Cell<u32>>) -> Device<StubChannel> {
    Device::new(name.to_string(), StubChannel::new(data, closes), "{}".to_string())
}

#[test]
fn test_rc() {
    let closes = Rc::new(Cell::new(0));
    let mut pool = DevicePool::new();

    let dev = Device::new(
        "test".to_string(),
        StubChannel::new(b"", &closes),
        "{\"name\":\"test\"}".to_string(),
    );

    let mut ref1 = DeviceRef::new(0);

    assert!(pool.register(dev, &ref1).is_none());
    assert_eq!(ref1.rc(&pool), 1);

    let mut ref2 = ref1.duplicate(&mut pool);
    assert_eq!(ref1.rc(&pool), 2);

    ref1.close(&mut pool);
    assert_eq!(ref1.rc(&pool), 1);

    ref2.close(&mut pool);
    assert_eq!(ref1.rc(&pool), 0);
}

#[test]
fn refcount_follows_duplicates_and_releases() {
    let closes = Rc::new(Cell::new(0));
    let mut pool = DevicePool::new();
    let mut first = DeviceRef::new(7);
    assert!(pool.register(device("d", b"", &closes), &first).is_none());
    let mut second = first.duplicate(&mut pool);
    let mut third = second.duplicate(&mut pool);
    assert_eq!(first.rc(&pool), 3);
    assert!(!third.close(&mut pool));
    assert!(!second.close(&mut pool));
    assert_eq!(closes.get(), 0);
    assert_eq!(first.rc(&pool), 1);
    // the 1 -> 0 transition tears the device down, once
    assert!(first.close(&mut pool));
    assert_eq!(closes.get(), 1);
    assert_eq!(first.rc(&pool), 0);
    // releasing again is a no-op, and the count never goes below zero
    assert!(!first.close(&mut pool));
    assert_eq!(closes.get(), 1);
    assert_eq!(first.rc(&pool), 0);
    // nothing left to duplicate
    assert!(!pool.push(&first));
    assert_eq!(first.rc(&pool), 0);
}

#[test]
fn register_refuses_a_taken_id() {
    let closes = Rc::new(Cell::new(0));
    let mut pool = DevicePool::new();
    let reference = DeviceRef::new(1);
    assert!(pool.register(device("a", b"", &closes), &reference).is_none());
    let back = pool.register(device("b", b"", &closes), &reference);
    assert_eq!(back.unwrap().name, "b");
    assert_eq!(pool.rc(&reference), 1);
}

#[test]
fn unknown_ids_are_no_ops() {
    let pool_closes = Rc::new(Cell::new(0));
    let mut pool: DevicePool<StubChannel> = DevicePool::new();
    let mut stranger = DeviceRef::new(99);
    assert_eq!(stranger.rc(&pool), 0);
    assert!(!pool.push(&stranger));
    assert!(pool.close(&stranger).is_none());
    assert!(!stranger.close(&mut pool));
    assert!(stranger.read_available(&mut pool).is_none());
    assert!(stranger.write(&mut pool, b"x").is_none());
    assert_eq!(pool_closes.get(), 0);
}

#[test]
fn attach_counts_a_holder() {
    let closes = Rc::new(Cell::new(0));
    let mut pool = DevicePool::new();
    let reference = DeviceRef::new(3);
    assert!(pool.register(device("a", b"", &closes), &reference).is_none());
    let again = DeviceRef::attach(3, &mut pool);
    assert_eq!(again.id(), 3);
    assert_eq!(reference.rc(&pool), 2);
}

#[test]
fn list_names_live_ids_once() {
    let closes = Rc::new(Cell::new(0));
    let mut pool = DevicePool::new();
    let a = DeviceRef::new(10);
    let mut b = DeviceRef::new(11);
    let c = DeviceRef::new(12);
    assert!(pool.register(device("a", b"", &closes), &a).is_none());
    assert!(pool.register(device("b", b"", &closes), &b).is_none());
    assert!(pool.register(device("c", b"", &closes), &c).is_none());
    let _ = a.duplicate(&mut pool);
    b.close(&mut pool);
    let mut live = pool.list();
    live.sort();
    assert_eq!(live, vec![10, 12]);
}

#[test]
fn read_available_through_the_pool() {
    let closes = Rc::new(Cell::new(0));
    let mut pool = DevicePool::new();
    let reference = DeviceRef::new(5);
    assert!(pool.register(device("a", b"[hi]", &closes), &reference).is_none());
    let bytes = reference.read_available(&mut pool).unwrap().unwrap();
    assert_eq!(bytes, b"[hi]".to_vec());
    let bytes = reference.read_available(&mut pool).unwrap().unwrap();
    assert!(bytes.is_empty());
    assert_eq!(reference.rc(&pool), 1);
}

#[test]
fn write_through_the_pool() {
    let closes = Rc::new(Cell::new(0));
    let mut pool = DevicePool::new();
    let reference = DeviceRef::new(6);
    assert!(pool.register(device("a", b"", &closes), &reference).is_none());
    assert_eq!(reference.write(&mut pool, b"abc").unwrap().unwrap(), 3);
}

#[test]
fn device_read_available_reports_channel_failure() {
    let closes = Rc::new(Cell::new(0));
    let mut dev = device("a", b"xyz", &closes);
    assert_eq!(dev.read_available().unwrap(), b"xyz".to_vec());
    assert!(dev.read_available().unwrap().is_empty());
    let mut broken = StubChannel::new(b"", &closes);
    broken.fail = true;
    let mut dev = Device::new("b".to_string(), broken, "{}".to_string());
    assert!(dev.read_available().is_err());
    assert_eq!(dev.config(), "{}");
}

struct ShortReads {
    closes: Rc<Cell<u32>>,
}

impl DeviceChannel for ShortReads {
    fn read(&mut self, buf: &mut Vec<u8>) -> Result<usize, Error> {
        buf[0] = b'o';
        buf[1] = b'k';
        Ok(2)
    }

    fn write(&mut self, _buf: &[u8]) -> Result<usize, Error> {
        Ok(0)
    }

    fn flush(&mut self) -> Result<(), Error> {
        Ok(())
    }

    fn available(&self) -> Result<usize, Error> {
        Ok(8)
    }

    fn close(&mut self) {
        self.closes.set(self.closes.get() + 1);
    }
}

#[test]
fn read_available_returns_only_the_bytes_read() {
    let closes = Rc::new(Cell::new(0));
    let mut dev = Device::new("s".to_string(), ShortReads { closes }, "{}".to_string());
    assert_eq!(dev.read_available().unwrap(), b"ok".to_vec());
}

#[test]
fn read_buffer_cases() {
    assert!(matches!(read_buffer(Ok(0)), Ok(None)));
    assert_eq!(read_buffer(Ok(3)).unwrap().unwrap(), vec![0u8, 0, 0]);
    let e = Error::new(ErrorKind::InvalidConfig, "x".to_string());
    assert!(matches!(read_buffer(Err(e)), Err(Error { kind: ErrorKind::InvalidConfig, .. })));
}

#[test]
fn bytes_read_cases() {
    assert_eq!(bytes_read(b"abcdef".to_vec(), Ok(2)).unwrap(), b"ab".to_vec());
    assert_eq!(bytes_read(b"abc".to_vec(), Ok(0)).unwrap(), Vec::<u8>::new());
    assert_eq!(bytes_read(b"abc".to_vec(), Ok(9)).unwrap(), b"abc".to_vec());
    let e = Error::new(ErrorKind::SerdeError, "x".to_string());
    assert!(matches!(bytes_read(b"abc".to_vec(), Err(e)), Err(Error { kind: ErrorKind::SerdeError, .. })));
}

#[test]
fn mint_hands_out_fresh_rising_ids() {
    let closes = Rc::new(Cell::new(0));
    let mut pool = DevicePool::new();
    let a = pool.mint().unwrap();
    let b = pool.mint().unwrap();
    assert_eq!(a.id(), 0);
    assert_eq!(b.id(), 1);
    assert!(pool.register(device("x", b"", &closes), &DeviceRef::new(10)).is_none());
    let c = pool.mint().unwrap();
    assert_eq!(c.id(), 11);
    assert_eq!(c.rc(&pool), 0);
}

#[test]
fn closing_a_handle_twice_releases_once() {
    let closes = Rc::new(Cell::new(0));
    let mut pool = DevicePool::new();
    let mut a = DeviceRef::new(1);
    assert!(pool.register(device("x", b"", &closes), &a).is_none());
    let _b = a.duplicate(&mut pool);
    assert!(a.is_held());
    assert!(!a.close(&mut pool));
    assert!(!a.is_held());
    assert!(!a.close(&mut pool));
    assert_eq!(a.rc(&pool), 1);
    assert_eq!(closes.get(), 0);
}
