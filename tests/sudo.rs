use settlement::sudo::{Origin, Sudo, SudoError};

/// Records the privileged calls that the root key dispatches.
struct Logger {
    i32_log: Vec<i32>,
    account_log: Vec<u64>,
}

impl Logger {
    fn new() -> Logger {
        Logger { i32_log: Vec::new(), account_log: Vec::new() }
    }

    fn privileged_i32_log(&mut self, origin: Origin, i: i32) -> bool {
        if origin != Origin::Root {
            return false;
        }
        self.i32_log.push(i);
        true
    }

    fn non_privileged_log(&mut self, origin: Origin, i: i32) -> bool {
        let sender = match origin {
            Origin::Signed(s) => s,
            _ => return false,
        };
        self.i32_log.push(i);
        self.account_log.push(sender);
        true
    }
}

#[test]
fn test_setup_works() {
    let sudo = Sudo::new(1);
    let logger = Logger::new();
    assert_eq!(sudo.key(), 1u64);
    assert!(logger.i32_log.is_empty());
    assert!(logger.account_log.is_empty());
}

#[test]
fn sudo_basics() {
    let sudo = Sudo::new(1);
    let mut logger = Logger::new();
    let origin = sudo.sudo(Origin::Signed(1)).unwrap();
    assert!(logger.privileged_i32_log(origin, 42));
    assert_eq!(logger.i32_log, vec![42i32]);
    assert_eq!(sudo.sudo(Origin::Signed(2)), Err(SudoError::RequireSudo));
    assert_eq!(logger.i32_log, vec![42i32]);
}

#[test]
fn set_key_basics() {
    let mut sudo = Sudo::new(1);
    assert_eq!(sudo.set_key(Origin::Signed(1), 2), Ok(1));
    assert_eq!(sudo.key(), 2u64);
    let mut sudo = Sudo::new(1);
    assert_eq!(sudo.set_key(Origin::Signed(2), 3), Err(SudoError::RequireSudo));
    assert_eq!(sudo.key(), 1u64);
}

#[test]
fn sudo_as_basics() {
    let sudo = Sudo::new(1);
    let mut logger = Logger::new();
    let origin = sudo.sudo_as(Origin::Signed(1), 2).unwrap();
    assert!(!logger.privileged_i32_log(origin, 42));
    assert!(logger.i32_log.is_empty());
    assert!(logger.account_log.is_empty());
    assert_eq!(sudo.sudo_as(Origin::Signed(3), 2), Err(SudoError::RequireSudo));
    let origin = sudo.sudo_as(Origin::Signed(1), 2).unwrap();
    assert!(logger.non_privileged_log(origin, 42));
    assert_eq!(logger.i32_log, vec![42i32]);
    assert_eq!(logger.account_log, vec![2]);
}

#[test]
fn unsigned_calls_are_refused() {
    let sudo = Sudo::new(1);
    assert_eq!(sudo.sudo(Origin::Unsigned), Err(SudoError::BadOrigin));
    assert_eq!(sudo.sudo(Origin::Root), Err(SudoError::BadOrigin));
}
