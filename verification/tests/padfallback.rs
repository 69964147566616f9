use microduck::padfallback::{FileEdit, PadFallback};
use microduck::pad::PadFallbackResult;

/// A board's two files; a file that is not there reads as empty.
struct Board {
    paths: PadFallback,
    main_conf: Option<String>,
    modprobe_conf: Option<String>,
}

impl Board {
    fn with(main_conf: Option<&str>, modprobe_conf: Option<&str>) -> Board {
        Board {
            paths: PadFallback::at("bluetooth/main.conf", "modprobe.d/bluetooth.conf", "ertm"),
            main_conf: main_conf.map(str::to_owned),
            modprobe_conf: modprobe_conf.map(str::to_owned),
        }
    }

    fn provisioned() -> Board {
        Board::with(
            Some("[General]\nPrivacy = off\nFastConnectable = true\n"),
            None,
        )
    }

    fn main(&self) -> String {
        self.main_conf.clone().unwrap_or_default()
    }

    fn modprobe(&self) -> String {
        self.modprobe_conf.clone().unwrap_or_default()
    }

    fn set(&mut self, enable: bool) -> PadFallbackResult {
        let edits = self.paths.set(enable, &self.main(), &self.modprobe());
        if let Some(text) = &edits.main_conf {
            self.main_conf = Some(text.clone());
        }
        match &edits.modprobe_conf {
            FileEdit::Keep => {}
            FileEdit::Write(text) => self.modprobe_conf = Some(text.clone()),
            FileEdit::Remove => self.modprobe_conf = None,
        }
        self.paths.result(&edits, &self.main(), &self.modprobe())
    }

    fn state(&self) -> microduck::pad::PadFallback {
        self.paths.state(&self.main(), &self.modprobe())
    }
}

#[test]
fn applying_and_removing_returns_the_board_to_privacy_off() {
    let mut board = Board::provisioned();
    assert!(board.state().is_off());

    let on = board.set(true);
    assert!(on.fallback.is_on() && on.changed && on.reboot_required);
    assert!(board.main().contains("Privacy = device"));
    assert!(board.modprobe_conf.is_some());

    let off = board.set(false);
    assert!(off.fallback.is_off() && off.changed);
    assert!(board.main().contains("Privacy = off"));
    assert!(board.modprobe_conf.is_none());
}

#[test]
fn asking_for_the_state_the_board_is_already_in_changes_nothing() {
    let mut board = Board::provisioned();

    assert!(board.set(true).changed);
    let again = board.set(true);
    assert!(!again.changed);
    assert!(!again.reboot_required);
}

#[test]
fn the_rest_of_the_bluez_configuration_is_left_alone() {
    let mut board = Board::provisioned();
    board.set(true);

    let conf = board.main();
    assert!(conf.contains("FastConnectable = true"), "{conf}");
    assert!(conf.contains("[General]"), "{conf}");
    assert_eq!(conf.matches("Privacy").count(), 1, "{conf}");
}

#[test]
fn a_commented_out_privacy_line_is_replaced_rather_than_duplicated() {
    let mut board = Board::with(Some("[General]\n#Privacy = off\n"), None);
    assert!(!board.state().privacy_device, "a comment is not a setting");

    board.set(true);
    let conf = board.main();
    assert_eq!(conf.matches("Privacy").count(), 1, "{conf}");
    assert!(conf.contains("Privacy = device"), "{conf}");
}

#[test]
fn a_missing_general_section_is_created() {
    let mut board = Board::with(Some("[Policy]\nAutoEnable=true\n"), None);

    board.set(true);
    let conf = board.main();
    let general = conf.find("[General]").expect(&conf);
    let privacy = conf.find("Privacy = device").expect(&conf);
    assert!(general < privacy, "{conf}");
    assert!(conf.contains("AutoEnable=true"), "{conf}");
}

#[test]
fn removing_the_ertm_option_keeps_other_options_in_that_file() {
    let mut board = Board::provisioned();
    board.modprobe_conf = Some("options btusb enable_autosuspend=0\n".to_owned());

    board.set(true);
    board.set(false);

    let left = board.modprobe();
    assert!(left.contains("enable_autosuspend=0"), "{left}");
    assert!(!left.contains("disable_ertm"), "{left}");
}

#[test]
fn a_board_the_runtime_installer_touched_reads_as_already_on() {
    let board = Board::with(
        Some("[General]\nPrivacy = device\n"),
        Some("options bluetooth disable_ertm=1\n"),
    );
    assert!(board.state().is_on());
}

#[test]
fn half_of_it_is_not_reported_as_all_or_nothing() {
    let mut board = Board::provisioned();
    board.modprobe_conf = Some("options bluetooth disable_ertm=1\n".to_owned());

    let state = board.state();
    assert!(!state.is_on() && !state.is_off());
    assert!(state.ertm_disabled && !state.privacy_device);
}

#[test]
fn removing_it_from_a_board_with_no_privacy_line_is_not_a_change() {
    let mut board = Board::with(Some("[General]\n"), None);

    let off = board.set(false);
    assert!(!off.changed && !off.reboot_required);
    assert!(!board.main().contains("Privacy"));
}

#[test]
fn a_machine_with_no_bluetooth_configuration_reports_nothing_applied() {
    assert!(Board::with(None, None).state().is_off());
}

#[test]
fn the_value_is_read_without_regard_to_case() {
    // The dotted capital I lower-cases to two characters, so it is no `device` either.
    assert!(Board::with(Some("[General]\nPRIVACY=Device\n"), None).state().privacy_device);
    assert!(!Board::with(Some("[General]\nPrivacy = DEV\u{130}CE\n"), None).state().privacy_device);
}

#[test]
fn the_live_knob_follows() {
    let board = PadFallback::new();
    assert_eq!(board.main_conf, "/etc/bluetooth/main.conf");
    assert_eq!(board.set(true, "", "").ertm_param, "Y\n");
    assert_eq!(board.set(false, "", "").ertm_param, "N\n");
}

#[test]
fn an_unterminated_file_is_ended_before_the_option() {
    let board = PadFallback::new();
    match board.set_ertm("options btusb x=1", true) {
        FileEdit::Write(text) => {
            assert!(text.starts_with("options btusb x=1\n#"), "{text}");
            assert!(text.ends_with("options bluetooth disable_ertm=1\n"), "{text}");
        }
        _ => panic!("a file to write"),
    }
}
