use popemodem::args::{default_settings, plan_args, Args, ArgsPlan, Bands, Command, ListSubCommand};
use popemodem::config::{band1, band2, band3, Band};

fn no_args() -> Args {
    Args {
        address: 0,
        input_device: None,
        output_device: None,
        samplerate: None,
        baudrate: None,
        threshold: None,
        carrier: None,
        deviation: None,
        band: None,
        command: None,
    }
}

#[test]
fn args_defaults_kept() {
    match plan_args(no_args()) {
        ArgsPlan::Run(s) => {
            assert_eq!(s.samplerate, 44100);
            assert_eq!(s.baudrate, 100);
            assert_eq!(s.carrier, 4800);
            assert_eq!(s.deviation, 300);
            assert_eq!(s.threshold, 150);
            assert_eq!(s.channels, 1);
            assert_eq!(s.input_device, None);
            assert_eq!(s.output_device, None);
        }
        _ => panic!("expected settings"),
    }
}

#[test]
fn args_overrides() {
    let mut a = no_args();
    a.carrier = Some(1000);
    a.baudrate = Some(50);
    a.input_device = Some("mic".to_string());
    match plan_args(a) {
        ArgsPlan::Run(s) => {
            assert_eq!(s.carrier, 1000);
            assert_eq!(s.baudrate, 50);
            assert_eq!(s.deviation, 300);
            assert_eq!(s.input_device.as_deref(), Some("mic"));
        }
        _ => panic!("expected settings"),
    }
}

#[test]
fn args_band_sets_frequencies() {
    let mut a = no_args();
    a.band = Some(Bands::Band2);
    match plan_args(a) {
        ArgsPlan::Run(s) => {
            assert_eq!((s.carrier, s.deviation, s.threshold), (4500, 600, 300));
            assert_eq!((s.samplerate, s.baudrate, s.channels), (44100, 100, 1));
        }
        _ => panic!("expected settings"),
    }
}

#[test]
fn args_band_conflict() {
    let mut a = no_args();
    a.band = Some(Bands::Band1);
    a.threshold = Some(10);
    assert!(matches!(plan_args(a), ArgsPlan::Conflict));
}

#[test]
fn args_list_command() {
    let mut a = no_args();
    a.command = Some(Command::List { command: ListSubCommand::Output });
    assert!(matches!(plan_args(a), ArgsPlan::List(ListSubCommand::Output)));
}

#[test]
fn bands() {
    assert_eq!(Band::from(Bands::Band1), band1());
    assert_eq!(band1().carrier(), 3300);
    assert_eq!(band2().carrier, 4500);
    assert_eq!(band3().deviation(), 600);
    assert_eq!(band3().threshold(), 300);
    assert_eq!(Band::new(1, 2, 3), Band { carrier: 1, deviation: 2, threshold: 3 });
}

#[test]
fn args_default_settings() {
    let d = default_settings();
    assert_eq!((d.samplerate, d.baudrate, d.carrier, d.deviation, d.threshold), (44100, 100, 4800, 300, 150));
    assert_eq!(d.channels, 1);
    assert!(d.input_device.is_none() && d.output_device.is_none());
}
