use std::cell::RefCell;
use std::rc::Rc;

use serialdebugger::drive::{Drive, Vehicle, VehicleState};
use serialdebugger::err::{Error, ErrorKind};

/// Logs its name each time it runs, and answers from a script; after the
/// script it answers yes. Until the context is set it only answers yes.
struct Scripted {
    name: u32,
    log: Rc<RefCell<Vec<u32>>>,
    script: Vec<Option<bool>>,
}

impl Drive<bool> for Scripted {
    fn drive(&mut self, armed: &mut bool) -> Result<bool, Error> {
        if !*armed {
            return Ok(true);
        }
        self.log.borrow_mut().push(self.name);
        if self.script.is_empty() {
            return Ok(true);
        }
        match self.script.remove(0) {
            Some(b) => Ok(b),
            None => Err(Error::new(ErrorKind::ChannelSendError, "send failed".to_string())),
        }
    }
}

fn task(name: u32, log: &Rc<RefCell<Vec<u32>>>, script: Vec<Option<bool>>) -> Scripted {
    Scripted { name, log: log.clone(), script }
}

fn running(log: &Rc<RefCell<Vec<u32>>>, tasks: Vec<(u32, Vec<Option<bool>>)>) -> Vehicle<Scripted> {
    let mut v = Vehicle::new(50);
    v.start();
    for (name, script) in tasks {
        v.register(task(name, log, script));
        v.tick(&mut false);
    }
    v
}

#[test]
fn new_scheduler_is_idle() {
    let v: Vehicle<Scripted> = Vehicle::new(50);
    assert_eq!(v.state(), VehicleState::Idle);
    assert_eq!(v.rate(), 50);
}

#[test]
fn registration_joins_after_the_tick_that_takes_it() {
    let log = Rc::new(RefCell::new(Vec::new()));
    let mut v = Vehicle::new(10);
    v.start();
    v.register(task(1, &log, vec![]));
    v.register(task(2, &log, vec![]));
    assert!(v.tick(&mut true).is_empty());
    assert_eq!(v.tick(&mut true).len(), 1);
    assert_eq!(v.tick(&mut true).len(), 2);
    assert_eq!(*log.borrow(), vec![1, 1, 2]);
}

#[test]
fn tasks_run_in_registration_order() {
    let log = Rc::new(RefCell::new(Vec::new()));
    let mut v = running(&log, vec![(1, vec![]), (2, vec![]), (3, vec![])]);
    v.tick(&mut true);
    v.tick(&mut true);
    assert_eq!(*log.borrow(), vec![1, 2, 3, 1, 2, 3]);
}

#[test]
fn refusing_or_failing_task_is_dropped_alone() {
    let log = Rc::new(RefCell::new(Vec::new()));
    let mut v = running(
        &log,
        vec![(1, vec![Some(false)]), (2, vec![None]), (3, vec![])],
    );
    let outcomes = v.tick(&mut true);
    assert_eq!(outcomes.len(), 3);
    assert!(matches!(outcomes[0], Ok(false)));
    assert!(matches!(outcomes[1], Err(_)));
    assert!(matches!(outcomes[2], Ok(true)));
    v.tick(&mut true);
    v.tick(&mut true);
    assert_eq!(*log.borrow(), vec![1, 2, 3, 3, 3]);
}

#[test]
fn stop_ends_the_ticks_and_leaves_later_registrations_waiting() {
    let log = Rc::new(RefCell::new(Vec::new()));
    let mut v = Vehicle::new(10);
    v.start();
    v.register(task(1, &log, vec![]));
    v.tick(&mut true);
    v.stop();
    v.register(task(2, &log, vec![]));
    v.register(task(3, &log, vec![]));
    assert_eq!(v.state(), VehicleState::Running);
    v.tick(&mut true);
    assert_eq!(v.state(), VehicleState::Stopped);
    // task 1 ran in the tick that took the stop; tasks 2 and 3 never ran
    assert_eq!(*log.borrow(), vec![1]);
}
