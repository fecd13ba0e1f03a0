//! The supported commands: how each is read from a frame, written back into
//! one, and answered.
use vstd::prelude::*;
use vstd::utf8::*;

use crate::frame::{Frame, FrameModel};
use crate::parse::{bytes_of, int_of, string_of, Parse, ParseError};
use crate::text::{lowercase_of, to_lowercase, uppercase_of};

pub mod get;
pub mod ping;
pub mod publish;
pub mod set;
pub mod subscribe;
pub mod unknown;

pub use get::Get;
pub use ping::Ping;
pub use publish::Publish;
pub use set::SetCmd;
pub use subscribe::{Subscribe, Unsubscribe};
pub use unknown::Unknown;

verus! {

/// A supported command.
#[derive(Debug)]
pub enum Command {
    Get(Get),
    Publish(Publish),
    SetCmd(SetCmd),
    Subscribe(Subscribe),
    Unsubscribe(Unsubscribe),
    Ping(Ping),
    Unknown(Unknown),
}

/// Mathematical value of a [`Command`].
pub enum CommandModel {
    Get(Seq<char>),
    Publish(Seq<char>, Seq<u8>),
    SetCmd(Seq<char>, Seq<u8>, Option<u64>),
    Subscribe(Seq<Seq<char>>),
    Unsubscribe(Seq<Seq<char>>),
    Ping(Option<Seq<u8>>),
    Unknown(Seq<char>),
}

/// A bulk string holding the UTF-8 bytes of `t`.
pub open spec fn bulk_text(t: Seq<char>) -> FrameModel {
    FrameModel::Bulk(encode_utf8(t))
}

/// The elements after the first `n`.
pub open spec fn skip(rest: Seq<FrameModel>, n: int) -> Seq<FrameModel> {
    if rest.len() <= n {
        Seq::empty()
    } else {
        rest.subrange(n, rest.len() as int)
    }
}

/// Whether every element stands for text.
pub open spec fn all_strings(args: Seq<FrameModel>) -> bool {
    forall|i: int| 0 <= i < args.len() ==> (#[trigger] string_of(args[i])) is Some
}

/// The texts the elements stand for.
pub open spec fn strings_of(args: Seq<FrameModel>) -> Seq<Seq<char>> {
    args.map_values(|a: FrameModel| string_of(a)->Some_0)
}

/// Milliseconds in `secs` seconds, or the largest value if that does not fit.
pub open spec fn ms_of_secs(secs: u64) -> u64 {
    if secs * 1000 > u64::MAX {
        u64::MAX
    } else {
        (secs * 1000) as u64
    }
}

/// The expiry option of SET: `EX` with seconds or `PX` with milliseconds, the
/// option name already upper-cased.
pub open spec fn expire_option(upper: Seq<char>, rest: Seq<FrameModel>) -> Option<u64> {
    if rest.len() == 0 {
        None
    } else if upper == "EX"@ {
        match int_of(rest[0]) {
            Some(s) => Some(ms_of_secs(s)),
            None => None,
        }
    } else if upper == "PX"@ {
        int_of(rest[0])
    } else {
        None
    }
}

/// The fields of SET read from the front of `args`, with the number of elements read.
pub open spec fn set_fields(args: Seq<FrameModel>) -> Option<(Seq<char>, Seq<u8>, Option<u64>, int)> {
    if args.len() < 2 || string_of(args[0]) is None || bytes_of(args[1]) is None {
        None
    } else if args.len() == 2 {
        Some((string_of(args[0])->Some_0, bytes_of(args[1])->Some_0, None, 2))
    } else {
        match string_of(args[2]) {
            Some(o) => match expire_option(uppercase_of(o), args.subrange(3, args.len() as int)) {
                Some(ms) => Some((string_of(args[0])->Some_0, bytes_of(args[1])->Some_0, Some(ms), 4)),
                None => None,
            },
            None => None,
        }
    }
}

/// The command named `name` (already lower-cased) with arguments `args`, if they are well formed.
pub open spec fn command_of(name: Seq<char>, args: Seq<FrameModel>) -> Option<CommandModel> {
    if name == "get"@ {
        if args.len() == 1 && string_of(args[0]) is Some {
            Some(CommandModel::Get(string_of(args[0])->Some_0))
        } else {
            None
        }
    } else if name == "publish"@ {
        if args.len() == 2 && string_of(args[0]) is Some && bytes_of(args[1]) is Some {
            Some(CommandModel::Publish(string_of(args[0])->Some_0, bytes_of(args[1])->Some_0))
        } else {
            None
        }
    } else if name == "set"@ {
        match set_fields(args) {
            Some((k, v, e, n)) => if n == args.len() {
                Some(CommandModel::SetCmd(k, v, e))
            } else {
                None
            },
            None => None,
        }
    } else if name == "subscribe"@ {
        if args.len() >= 1 && all_strings(args) {
            Some(CommandModel::Subscribe(strings_of(args)))
        } else {
            None
        }
    } else if name == "unsubscribe"@ {
        if all_strings(args) {
            Some(CommandModel::Unsubscribe(strings_of(args)))
        } else {
            None
        }
    } else if name == "ping"@ {
        if args.len() == 0 {
            Some(CommandModel::Ping(None))
        } else if args.len() == 1 && bytes_of(args[0]) is Some {
            Some(CommandModel::Ping(bytes_of(args[0])))
        } else {
            None
        }
    } else {
        Some(CommandModel::Unknown(name))
    }
}

/// The command a frame carries: an array whose first element names the command
/// in any case.
pub open spec fn frame_command(frame: FrameModel) -> Option<CommandModel> {
    match frame {
        FrameModel::Array(items) => if items.len() >= 1 && string_of(items[0]) is Some {
            command_of(lowercase_of(string_of(items[0])->Some_0), items.drop_first())
        } else {
            None
        },
        _ => None,
    }
}

/// The name a command goes by; for an unsupported one, the name it was sent with.
pub open spec fn command_name(c: CommandModel) -> Seq<char> {
    match c {
        CommandModel::Get(_) => "get"@,
        CommandModel::Publish(..) => "pub"@,
        CommandModel::SetCmd(..) => "set"@,
        CommandModel::Subscribe(_) => "subscribe"@,
        CommandModel::Unsubscribe(_) => "unsubscribe"@,
        CommandModel::Ping(_) => "ping"@,
        CommandModel::Unknown(n) => n,
    }
}

impl View for Command {
    type V = CommandModel;

    open spec fn view(&self) -> CommandModel {
        match self {
            Command::Get(c) => CommandModel::Get(c@),
            Command::Publish(c) => CommandModel::Publish(c@.0, c@.1),
            Command::SetCmd(c) => CommandModel::SetCmd(c@.0, c@.1, c@.2),
            Command::Subscribe(c) => CommandModel::Subscribe(c@),
            Command::Unsubscribe(c) => CommandModel::Unsubscribe(c@),
            Command::Ping(c) => CommandModel::Ping(c@),
            Command::Unknown(c) => CommandModel::Unknown(c@),
        }
    }
}

impl Command {
    /// Reads a command from a frame: an array whose first element names the
    /// command. An unrecognised name gives [`Command::Unknown`].
    pub fn from_frame(frame: Frame) -> (r: Result<Command, ParseError>)
        ensures
            r is Ok <==> frame_command(frame@) is Some,
            r matches Ok(c) ==> c@ == frame_command(frame@)->Some_0,
    {
        let ghost f = frame@;
        let mut parse = Parse::new(frame)?;
        let ghost items = parse.rest();
        let name = parse.next_string()?;
        let lowered = to_lowercase(name.as_str());
        proof {
            assert(skip(items, 1) =~= items.drop_first());
        }
        Command::from_parts(lowered, &mut parse)
    }

    /// Reads the arguments of the command named `name`, already lower-cased,
    /// and checks that none is left over (but for an unrecognised name).
    pub fn from_parts(name: String, parse: &mut Parse) -> (r: Result<Command, ParseError>)
        ensures
            r is Ok <==> command_of(name@, old(parse).rest()) is Some,
            r matches Ok(c) ==> c@ == command_of(name@, old(parse).rest())->Some_0,
    {
        let ghost args = old(parse).rest();
        let command = if crate::text::text_eq(name.as_str(), "get") {
            proof { reveal_strlit("get"); }
            Command::Get(Get::parse_frames(parse)?)
        } else if crate::text::text_eq(name.as_str(), "publish") {
            Command::Publish(Publish::parse_frames(parse)?)
        } else if crate::text::text_eq(name.as_str(), "set") {
            Command::SetCmd(SetCmd::parse_frames(parse)?)
        } else if crate::text::text_eq(name.as_str(), "subscribe") {
            Command::Subscribe(Subscribe::parse_frames(parse)?)
        } else if crate::text::text_eq(name.as_str(), "unsubscribe") {
            Command::Unsubscribe(Unsubscribe::parse_frames(parse)?)
        } else if crate::text::text_eq(name.as_str(), "ping") {
            Command::Ping(Ping::parse_frames(parse)?)
        } else {
            return Ok(Command::Unknown(Unknown::new(name.as_str())));
        };
        parse.finish()?;
        Ok(command)
    }

    /// The command's name.
    pub fn get_name(&self) -> (r: &str)
        ensures
            r@ == command_name(self@),
    {
        match self {
            Command::Get(_) => "get",
            Command::Publish(_) => "pub",
            Command::SetCmd(_) => "set",
            Command::Subscribe(_) => "subscribe",
            Command::Unsubscribe(_) => "unsubscribe",
            Command::Ping(_) => "ping",
            Command::Unknown(cmd) => cmd.get_name(),
        }
    }
}

} // verus!
