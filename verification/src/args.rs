//! Command line options and how they combine with the modem's settings.
use vstd::prelude::*;

use crate::config::{band_of, Band};

verus! {

/// Command line options of the modem.
#[derive(Debug)]
pub struct Args {
    pub address: u8,
    pub input_device: Option<String>,
    pub output_device: Option<String>,
    pub samplerate: Option<u32>,
    pub baudrate: Option<u16>,
    pub threshold: Option<u32>,
    pub carrier: Option<u32>,
    pub deviation: Option<u32>,
    pub band: Option<Bands>,
    pub command: Option<Command>,
}

/// Subcommands.
#[derive(Debug)]
pub enum Command {
    List { command: ListSubCommand },
}

/// What the `list` subcommand lists.
#[derive(Debug, Clone, Copy, PartialEq, Eq, Structural)]
pub enum ListSubCommand {
    Input,
    Output,
    SupportedFormats,
}

/// The predefined frequency bands.
#[derive(Debug, Clone, Copy, PartialEq, Eq, Structural)]
pub enum Bands {
    Band1,
    Band2,
    Band3,
}

/// The settings of the modem that the command line can change.
#[derive(Debug)]
pub struct LinkSettings {
    pub samplerate: u32,
    pub baudrate: u16,
    pub carrier: u32,
    pub deviation: u32,
    pub threshold: u32,
    pub channels: u8,
    pub input_device: Option<String>,
    pub output_device: Option<String>,
}

/// The modem's settings when no option is given: 44100 Hz, 100 baud, a
/// carrier of 4800 Hz with a deviation of 300 Hz and a threshold of 150 Hz,
/// one channel, the default devices.
pub open spec fn default_link_settings() -> LinkSettings {
    LinkSettings {
        samplerate: 44100,
        baudrate: 100,
        carrier: 4800,
        deviation: 300,
        threshold: 150,
        channels: 1,
        input_device: None,
        output_device: None,
    }
}

/// The modem's settings when no option is given.
pub fn default_settings() -> (s: LinkSettings)
    ensures
        s == default_link_settings(),
{
    LinkSettings {
        samplerate: 44100,
        baudrate: 100,
        carrier: 4800,
        deviation: 300,
        threshold: 150,
        channels: 1,
        input_device: None,
        output_device: None,
    }
}

/// What the command line asks for.
#[derive(Debug)]
pub enum ArgsPlan {
    /// A band was given together with a carrier, deviation or threshold.
    Conflict,
    /// List devices or formats, then stop.
    List(ListSubCommand),
    /// Run the modem with these settings.
    Run(LinkSettings),
}

/// `o`'s value if there is one, else `d`.
pub open spec fn or_default<T>(o: Option<T>, d: T) -> T {
    match o {
        Some(v) => v,
        None => d,
    }
}

/// The settings `base` with every option that `args` gives put in; a band
/// sets carrier, deviation and threshold.
pub open spec fn merged_settings(args: Args, base: LinkSettings) -> LinkSettings {
    let carrier = or_default(args.carrier, base.carrier);
    let deviation = or_default(args.deviation, base.deviation);
    let threshold = or_default(args.threshold, base.threshold);
    LinkSettings {
        samplerate: or_default(args.samplerate, base.samplerate),
        baudrate: or_default(args.baudrate, base.baudrate),
        carrier: match args.band {
            Some(b) => band_of(b).carrier,
            None => carrier,
        },
        deviation: match args.band {
            Some(b) => band_of(b).deviation,
            None => deviation,
        },
        threshold: match args.band {
            Some(b) => band_of(b).threshold,
            None => threshold,
        },
        channels: base.channels,
        input_device: match args.input_device {
            Some(d) => Some(d),
            None => base.input_device,
        },
        output_device: match args.output_device {
            Some(d) => Some(d),
            None => base.output_device,
        },
    }
}

/// A band given together with a carrier, a deviation or a threshold.
pub open spec fn args_conflict(args: Args) -> bool {
    args.band is Some && (args.carrier is Some || args.deviation is Some || args.threshold is Some)
}

/// Each option given on the command line is in the settings `c`, each one
/// not given has its default value, and a band gives carrier, deviation
/// and threshold.
pub open spec fn options_applied(args: Args, c: LinkSettings) -> bool {
    &&& c.samplerate == or_default(args.samplerate, 44100)
    &&& c.baudrate == or_default(args.baudrate, 100)
    &&& c.carrier == match args.band {
        Some(b) => band_of(b).carrier,
        None => or_default(args.carrier, 4800),
    }
    &&& c.deviation == match args.band {
        Some(b) => band_of(b).deviation,
        None => or_default(args.deviation, 300),
    }
    &&& c.threshold == match args.band {
        Some(b) => band_of(b).threshold,
        None => or_default(args.threshold, 150),
    }
    &&& c.channels == 1
    &&& c.input_device == args.input_device
    &&& c.output_device == args.output_device
}

/// The settings that the command line gives over the defaults hold every
/// option given, the default of every option not given, and a band's
/// carrier, deviation and threshold.
pub proof fn lemma_options_applied(args: Args)
    ensures
        options_applied(args, merged_settings(args, default_link_settings())),
{
}

/// Decides what the command line asks for: a conflict first, then a
/// subcommand, else the default settings with the options put in.
pub fn plan_args(args: Args) -> (plan: ArgsPlan)
    ensures
        args_conflict(args) ==> plan is Conflict,
        !args_conflict(args) && args.command is Some ==> plan == ArgsPlan::List(
            match args.command {
                Some(Command::List { command }) => command,
                None => ListSubCommand::Input,
            },
        ),
        !args_conflict(args) && args.command is None ==> plan == ArgsPlan::Run(
            merged_settings(args, default_link_settings()),
        ),
        !args_conflict(args) && args.command is None ==> (plan matches ArgsPlan::Run(c)
            && options_applied(args, c)),
{
    proof {
        lemma_options_applied(args);
    }
    if args.band.is_some() && (args.carrier.is_some() || args.deviation.is_some()
        || args.threshold.is_some()) {
        return ArgsPlan::Conflict;
    }
    let ghost a = args;
    let Args {
        address: _,
        input_device,
        output_device,
        samplerate,
        baudrate,
        threshold,
        carrier,
        deviation,
        band,
        command,
    } = args;
    if let Some(Command::List { command }) = command {
        return ArgsPlan::List(command);
    }
    let mut config = default_settings();
    if let Some(d) = input_device {
        config.input_device = Some(d);
    }
    if let Some(d) = output_device {
        config.output_device = Some(d);
    }
    if let Some(v) = samplerate {
        config.samplerate = v;
    }
    if let Some(v) = baudrate {
        config.baudrate = v;
    }
    if let Some(v) = carrier {
        config.carrier = v;
    }
    if let Some(v) = deviation {
        config.deviation = v;
    }
    if let Some(v) = threshold {
        config.threshold = v;
    }
    if let Some(b) = band {
        let band = Band::from(b);
        config.threshold = band.threshold;
        config.deviation = band.deviation;
        config.carrier = band.carrier;
    }
    ArgsPlan::Run(config)
}

} // verus!
