use psn::recorded::Recorded;
use psn::terminal::{enter, leave, TerminalOps};

/// Records the calls made against it and fails the steps it is told to.
#[derive(Default)]
struct FakeOps {
    calls: Vec<&'static str>,
    fail_enable_raw: bool,
    fail_enter_alternate: bool,
    fail_disable_raw: bool,
    fail_leave_alternate: bool,
    fail_show_cursor: bool,
}

impl FakeOps {
    fn step(&mut self, name: &'static str, fail: bool) -> Result<(), String> {
        self.calls.push(name);
        if fail {
            return Err(format!("{name} failed"));
        }
        Ok(())
    }
}

impl TerminalOps for FakeOps {
    type Error = String;

    fn enable_raw(&mut self) -> Result<(), String> {
        self.step("enable_raw", self.fail_enable_raw)
    }
    fn disable_raw(&mut self) -> Result<(), String> {
        self.step("disable_raw", self.fail_disable_raw)
    }
    fn enter_alternate(&mut self) -> Result<(), String> {
        self.step("enter_alternate", self.fail_enter_alternate)
    }
    fn leave_alternate(&mut self) -> Result<(), String> {
        self.step("leave_alternate", self.fail_leave_alternate)
    }
    fn show_cursor(&mut self) -> Result<(), String> {
        self.step("show_cursor", self.fail_show_cursor)
    }
}

#[test]
fn enter_enables_raw_mode_before_the_alternate_screen() {
    let mut ops = Recorded::new(FakeOps::default());

    assert!(enter(&mut ops).is_ok());

    assert_eq!(ops.inner().calls, vec!["enable_raw", "enter_alternate"]);
}

#[test]
fn enter_propagates_a_raw_mode_failure_without_touching_the_screen() {
    let mut ops = Recorded::new(FakeOps {
        fail_enable_raw: true,
        ..FakeOps::default()
    });

    let err = enter(&mut ops).expect_err("raw mode failure must propagate");

    assert!(err.to_string().contains("enable_raw"));
    assert_eq!(ops.inner().calls, vec!["enable_raw"]);
}

#[test]
fn enter_undoes_raw_mode_when_the_alternate_screen_fails() {
    let mut ops = Recorded::new(FakeOps {
        fail_enter_alternate: true,
        ..FakeOps::default()
    });

    let err = enter(&mut ops).expect_err("alternate screen failure must propagate");

    assert!(err.to_string().contains("enter_alternate"));
    assert_eq!(
        ops.inner().calls,
        vec!["enable_raw", "enter_alternate", "disable_raw"]
    );
}

#[test]
fn enter_reports_the_original_error_even_if_the_rollback_also_fails() {
    let mut ops = Recorded::new(FakeOps {
        fail_enter_alternate: true,
        fail_disable_raw: true,
        ..FakeOps::default()
    });

    let err = enter(&mut ops).expect_err("alternate screen failure must propagate");

    assert!(err.to_string().contains("enter_alternate"));
    assert_eq!(
        ops.inner().calls,
        vec!["enable_raw", "enter_alternate", "disable_raw"]
    );
}

#[test]
fn leave_undoes_the_lifecycle_in_reverse() {
    let mut ops = Recorded::new(FakeOps::default());

    leave(&mut ops);

    assert_eq!(
        ops.inner().calls,
        vec!["disable_raw", "leave_alternate", "show_cursor"]
    );
}

#[test]
fn leave_attempts_every_step_even_when_all_of_them_fail() {
    let mut ops = Recorded::new(FakeOps {
        fail_disable_raw: true,
        fail_leave_alternate: true,
        fail_show_cursor: true,
        ..FakeOps::default()
    });

    leave(&mut ops);

    assert_eq!(
        ops.inner().calls,
        vec!["disable_raw", "leave_alternate", "show_cursor"]
    );
}

#[test]
fn enter_then_leave_restores_every_mode() {
    let mut ops = Recorded::new(FakeOps::default());
    assert!(enter(&mut ops).is_ok());
    leave(&mut ops);
    assert_eq!(
        ops.inner().calls,
        vec![
            "enable_raw",
            "enter_alternate",
            "disable_raw",
            "leave_alternate",
            "show_cursor"
        ]
    );
}

#[test]
fn enter_then_leave_undoes_each_change_in_reverse_order() {
    let mut ops = Recorded::new(FakeOps {
        fail_disable_raw: true,
        ..FakeOps::default()
    });
    assert!(enter(&mut ops).is_ok());
    leave(&mut ops);
    assert_eq!(
        ops.inner().calls,
        vec!["enable_raw", "enter_alternate", "disable_raw", "leave_alternate", "show_cursor"]
    );
}
