use std::cell::Cell;
use std::rc::Rc;

use serialdebugger::device::{Device, DeviceChannel, DevicePool, DeviceRef};
use serialdebugger::drive::{Drive, Vehicle, VehicleState};
use serialdebugger::err::{Error, ErrorKind};
use serialdebugger::project::{DeviceDrive, DeviceEvent, Project, Projects};

struct Feed {
    chunks: Vec<Vec<u8>>,
    fail: bool,
    reads: Rc<Cell<u32>>,
    closes: Rc<Cell<u32>>,
}

impl DeviceChannel for Feed {
    fn read(&mut self, buf: &mut Vec<u8>) -> Result<usize, Error> {
        self.reads.set(self.reads.get() + 1);
        let chunk = self.chunks.remove(0);
        buf[..chunk.len()].copy_from_slice(&chunk);
        Ok(chunk.len())
    }

    fn write(&mut self, buf: &[u8]) -> Result<usize, Error> {
        if self.fail {
            Err(Error::new(ErrorKind::IO("Other".to_string(), "gone".to_string()), "IO Error".to_string()))
        } else {
            Ok(buf.len())
        }
    }

    fn flush(&mut self) -> Result<(), Error> {
        Ok(())
    }

    fn available(&self) -> Result<usize, Error> {
        if self.fail {
            Err(Error::new(ErrorKind::IO("Other".to_string(), "gone".to_string()), "IO Error".to_string()))
        } else {
            Ok(self.chunks.first().map_or(0, |c| c.len()))
        }
    }

    fn close(&mut self) {
        self.closes.set(self.closes.get() + 1);
    }
}

struct Counters {
    reads: Rc<Cell<u32>>,
    closes: Rc<Cell<u32>>,
}

fn open(pool: &mut DevicePool<Feed>, id: u64, chunks: &[&[u8]], fail: bool) -> (DeviceRef, Counters) {
    let reads = Rc::new(Cell::new(0));
    let closes = Rc::new(Cell::new(0));
    let feed = Feed {
        chunks: chunks.iter().map(|c| c.to_vec()).collect(),
        fail,
        reads: reads.clone(),
        closes: closes.clone(),
    };
    let reference = DeviceRef::new(id);
    assert!(pool.register(Device::new("dev".to_string(), feed, "{}".to_string()), &reference).is_none());
    (reference, Counters { reads, closes })
}

fn closes(events: &[DeviceEvent]) -> usize {
    events.iter().filter(|e| matches!(e, DeviceEvent::Close)).count()
}

#[test]
fn adapter_idles_until_a_second_holder_appears() {
    let mut pool = DevicePool::new();
    let (reference, counters) = open(&mut pool, 1, &[b"[x]"], false);
    let mut adapter = DeviceDrive::new(reference);
    assert!(adapter.step(&mut pool));
    assert!(adapter.take_events().is_empty());
    assert_eq!(counters.reads.get(), 0);
}

#[test]
fn adapter_reports_bytes_then_commands() {
    let mut pool = DevicePool::new();
    let (reference, _counters) = open(&mut pool, 1, &[b"junk[log warn hot][beep]", b"[half", b" done]"], false);
    let mut adapter = DeviceDrive::new(reference.duplicate(&mut pool));
    assert!(adapter.step(&mut pool));
    let events = adapter.take_events();
    assert_eq!(events.len(), 3);
    assert!(matches!(&events[0], DeviceEvent::RecRaw(b) if b == b"junk[log warn hot][beep]"));
    assert!(matches!(&events[1], DeviceEvent::RecCommand(c) if c.action == "log" && c.arguments == vec!["warn", "hot"]));
    assert!(matches!(&events[2], DeviceEvent::RecCommand(c) if c.action == "beep" && c.arguments.is_empty()));
    assert!(adapter.step(&mut pool));
    let events = adapter.take_events();
    assert_eq!(events.len(), 1);
    // the drain after the earlier read consumed the opening of the partial frame
    assert!(adapter.step(&mut pool));
    let events = adapter.take_events();
    assert_eq!(events.len(), 1);
    assert!(matches!(&events[0], DeviceEvent::RecRaw(b) if b == b" done]"));
}

#[test]
fn last_holder_adapter_closes_once_and_stops_reading() {
    let mut pool = DevicePool::new();
    let (mut reference, counters) = open(&mut pool, 4, &[b"", b"", b""], false);
    let adapter = DeviceDrive::new(reference.duplicate(&mut pool));
    assert_eq!(reference.rc(&pool), 2);
    let mut vehicle = Vehicle::new(50);
    vehicle.start();
    vehicle.register(adapter);
    vehicle.tick(&mut pool);
    vehicle.tick(&mut pool);
    assert_eq!(counters.reads.get(), 0);
    // the other holder lets go: 2 -> 1
    assert!(!reference.close(&mut pool));
    let outcomes = vehicle.tick(&mut pool);
    assert!(matches!(outcomes[0], Ok(false)));
    assert_eq!(counters.closes.get(), 1);
    assert_eq!(reference.rc(&pool), 0);
    let outcomes = vehicle.tick(&mut pool);
    assert!(outcomes.is_empty());
    assert_eq!(vehicle.state(), VehicleState::Running);
}

#[test]
fn last_holder_step_emits_exactly_one_close() {
    let mut pool = DevicePool::new();
    let (mut reference, counters) = open(&mut pool, 4, &[b"[a]"], false);
    let mut adapter = DeviceDrive::new(reference.duplicate(&mut pool));
    assert!(adapter.step(&mut pool));
    assert_eq!(adapter.take_events().len(), 2);
    reference.close(&mut pool);
    assert!(!adapter.step(&mut pool));
    let events = adapter.take_events();
    assert_eq!(events.len(), 1);
    assert_eq!(closes(&events), 1);
    assert_eq!(counters.reads.get(), 1);
    assert_eq!(counters.closes.get(), 1);
}

#[test]
fn read_failure_closes_the_adapter() {
    let mut pool = DevicePool::new();
    let (reference, counters) = open(&mut pool, 2, &[], true);
    let mut adapter = DeviceDrive::new(reference.duplicate(&mut pool));
    let _third = reference.duplicate(&mut pool);
    assert!(!adapter.step(&mut pool));
    let events = adapter.take_events();
    assert_eq!(events.len(), 1);
    assert_eq!(closes(&events), 1);
    // its own hold is released, the other two remain
    assert_eq!(reference.rc(&pool), 2);
    assert_eq!(counters.closes.get(), 0);
}

#[test]
fn vanished_device_closes_the_adapter() {
    let mut pool = DevicePool::new();
    let (mut reference, _counters) = open(&mut pool, 2, &[], false);
    let mut adapter = DeviceDrive::new(reference.duplicate(&mut pool));
    assert!(adapter.step(&mut pool));
    reference.close(&mut pool);
    let mut again = DeviceRef::new(2);
    again.close(&mut pool);
    assert_eq!(reference.rc(&pool), 0);
    assert!(!adapter.step(&mut pool));
    assert_eq!(closes(&adapter.take_events()), 1);
}

#[test]
fn drive_trait_wraps_step() {
    let mut pool = DevicePool::new();
    let (reference, _counters) = open(&mut pool, 8, &[], false);
    let mut adapter = DeviceDrive::new(reference);
    assert!(matches!(adapter.drive(&mut pool), Ok(true)));
}

#[test]
fn project_new_records_its_fields() {
    let project = Project::new(3, "ws".to_string(), Some(DeviceRef::new(9)));
    assert_eq!(project.id(), 3);
    assert_eq!(project.workspace(), "ws");
    assert_eq!(project.device_id(), Some(9));
}

#[test]
fn projects_get_counting_ids() {
    let mut pool: DevicePool<Feed> = DevicePool::new();
    let mut projects = Projects::new();
    assert_eq!(projects.new_project("a".to_string(), None, &mut pool).unwrap(), 0);
    assert_eq!(projects.new_project("b".to_string(), None, &mut pool).unwrap(), 1);
}

#[test]
fn push_device_to_unknown_project_fails() {
    let mut pool = DevicePool::new();
    let (reference, _counters) = open(&mut pool, 1, &[], false);
    let extra = reference.duplicate(&mut pool);
    let mut projects = Projects::new();
    let err = projects.push_device(42, extra, &mut pool).unwrap_err();
    assert!(matches!(err.kind, ErrorKind::NoSuchProject));
    // the handle that could not be placed is released
    assert_eq!(reference.rc(&pool), 1);
}

#[test]
fn closing_projects_releases_their_devices() {
    let mut pool = DevicePool::new();
    let (reference, counters) = open(&mut pool, 1, &[], false);
    let mut projects = Projects::new();
    let a = projects.new_project("a".to_string(), Some(reference.duplicate(&mut pool)), &mut pool).unwrap();
    let b = projects.new_project("b".to_string(), None, &mut pool).unwrap();
    projects.push_device(b, reference.duplicate(&mut pool), &mut pool).unwrap();
    assert_eq!(reference.rc(&pool), 3);
    projects.close_project(a, &mut pool).unwrap();
    assert_eq!(reference.rc(&pool), 2);
    projects.close_all_projects(&mut pool).unwrap();
    assert_eq!(reference.rc(&pool), 1);
    assert_eq!(counters.closes.get(), 0);
    assert!(projects.close_project(a, &mut pool).is_ok());
}

#[test]
fn device_write_reports_missing_project_and_failed_write() {
    let mut pool = DevicePool::new();
    let (reference, _counters) = open(&mut pool, 1, &[], true);
    let mut projects = Projects::new();
    let err = projects.device_write(5, b"x", &mut pool).unwrap_err();
    assert!(matches!(err.kind, ErrorKind::NoSuchProject));
    let p = projects.new_project("a".to_string(), Some(reference.duplicate(&mut pool)), &mut pool).unwrap();
    let err = projects.device_write(p, b"x", &mut pool).unwrap_err();
    assert!(matches!(err.kind, ErrorKind::IO(_, _)));
    let q = projects.new_project("b".to_string(), None, &mut pool).unwrap();
    assert!(projects.device_write(q, b"x", &mut pool).is_ok());
}

#[test]
fn release_lets_go_of_the_adapter_hold() {
    let mut pool = DevicePool::new();
    let (reference, counters) = open(&mut pool, 3, &[], false);
    let mut adapter = DeviceDrive::new(reference.duplicate(&mut pool));
    assert_eq!(reference.rc(&pool), 2);
    assert!(!adapter.release(&mut pool));
    assert_eq!(reference.rc(&pool), 1);
    assert!(!adapter.release(&mut pool));
    assert_eq!(reference.rc(&pool), 1);
    assert_eq!(counters.closes.get(), 0);
}
