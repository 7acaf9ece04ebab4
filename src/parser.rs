//! Parses a command line, forwards it to the store or to the bootloader, and
//! writes the answer into a buffer of the caller.

use vstd::prelude::*;
use crate::bytes::{
    lit, starts_with, copy_into, copied_len, bytes_start_with, bytes_equal, copy_to_beginning, append_bytes,
};
use crate::value_id::ValueId;
use crate::filesystem::{MAX_VALUE_LENGTH, BUFFER_TOO_SMALL};

verus! {

pub const ENTER_BOOTLOADER_COMMAND: &'static str = "enter bootloader";
pub const PING_COMMAND: &'static str = "ping";
pub const VERSION_COMMAND: &'static str = "version";
pub const STORE_COMMAND: &'static str = "store ";
pub const READ_COMMAND: &'static str = "read ";
pub const HELP_COMMAND: &'static str = "help";

/// Separates a field name from the value in a store command.
pub const SEPARATOR: u8 = 32;

pub const ENTERING_BOOTLOADER: &'static str = "entering bootloader now";
pub const PONG: &'static str = "pong";
pub const VERSION_PREFIX: &'static str = "version: ";
pub const COMPILE_TIME_PREFIX: &'static str = "\ncompile time: ";
pub const COMMIT_HASH_PREFIX: &'static str = "\ncommit hash: ";
pub const HELP_TEXT: &'static str = "commands:\nenter bootloader           : enters the bootloader to flash via usb\nping                       : results in 'pong'\nversion                    : provides version information\nstore <value_name> <value> : stores a value persistently\nread <value_name>          : reads a persistent value\nhelp                       : prints this help";
pub const READ_HELP_TEXT: &'static str = "read value names:\nwifi_ssid\nwifi_password\nmqtt_host_ip\nmqtt_broker_username\nmqtt_broker_password";

pub const NOT_A_VALID_COMMAND: &'static str = "not a valid command, type 'help' for help";
pub const UNKNOWN_STORE_PARAMETER: &'static str = "unknown store parameter, type 'read help' for help ('store help' not yet available)";
pub const UNKNOWN_VALUE_NAME: &'static str = "unknown value name, type 'read help' for help";
pub const VALUE_TOO_LONG: &'static str = "value too long, at most 255 bytes can be stored";
pub const VERSION_NOT_SET: &'static str = "version information not set";

/// The capability to reset the device into its bootloader.
pub trait EnterBootloaderTrait {
    fn call(&mut self);
}

/// `after` is `before` once a read of `value` into it went through, and `r`
/// is what the read returned: the value and its length where it fits, else
/// an error and the buffer unchanged.
pub open spec fn read_reply(
    value: Seq<u8>,
    before: Seq<u8>,
    after: Seq<u8>,
    r: Result<usize, &'static str>,
) -> bool {
    if value.len() <= before.len() {
        &&& r == Ok::<usize, &'static str>(value.len() as usize)
        &&& after == copy_into(before, value)
    } else {
        &&& r == Err::<usize, &'static str>(BUFFER_TOO_SMALL)
        &&& after == before
    }
}

/// The store of the configuration fields.
pub trait PersistencyTrait {
    /// The store is usable. An implementation that claims nothing keeps
    /// this default, under which its contracts cannot be met.
    open spec fn inv(&self) -> bool {
        false
    }

    /// The value of each field, in `ValueId` order.
    open spec fn stored(&self) -> Seq<Seq<u8>> {
        Seq::empty()
    }

    /// Makes `value` the value of `field`.
    fn store(&mut self, value: &[u8], field: ValueId)
        requires
            old(self).inv(),
            value@.len() <= MAX_VALUE_LENGTH,
        ensures
            final(self).inv(),
            final(self).stored() == old(self).stored().update(field.spec_index(), value@),
    ;

    /// Copies the value of `field` to the beginning of `answer` and returns
    /// its length, or fails with `BUFFER_TOO_SMALL` where it does not fit.
    fn read(&mut self, field: ValueId, answer: &mut [u8]) -> (r: Result<usize, &'static str>)
        requires
            old(self).inv(),
        ensures
            final(self).inv(),
            final(self).stored() == old(self).stored(),
            read_reply(old(self).stored()[field.spec_index()], old(answer)@, final(answer)@, r),
    ;
}

/// Build information that the `version` command reports.
#[derive(Clone, Copy, Debug)]
pub struct VersionInfo {
    pub version: &'static str,
    pub compile_time: &'static str,
    pub commit_hash: &'static str,
}

/// The answer to `version`.
pub open spec fn version_text(v: VersionInfo) -> Seq<u8> {
    lit(VERSION_PREFIX) + lit(v.version) + lit(COMPILE_TIME_PREFIX) + lit(v.compile_time) + lit(
        COMMIT_HASH_PREFIX,
    ) + lit(v.commit_hash)
}

/// What a command line asks for.
#[derive(Clone, Copy, Debug, PartialEq, Eq, Structural)]
pub enum Command {
    EnterBootloader,
    Ping,
    Version,
    /// Store into a field the bytes of the line from the given position on.
    Store(ValueId, usize),
    Read(ValueId),
    ReadHelp,
    Help,
    UnknownStoreParameter,
    UnknownValueName,
    Invalid,
}

/// `p` begins with the name of `id`, followed by a separator where
/// `separated` holds.
pub open spec fn names_field(p: Seq<u8>, id: ValueId, separated: bool) -> bool {
    if separated {
        starts_with(p, id.spec_name().push(SEPARATOR))
    } else {
        starts_with(p, id.spec_name())
    }
}

/// The first field, in `ValueId` order, whose name `p` begins with.
pub open spec fn field_named(p: Seq<u8>, separated: bool) -> Option<ValueId> {
    if names_field(p, ValueId::WifiSsid, separated) {
        Some(ValueId::WifiSsid)
    } else if names_field(p, ValueId::WifiPassword, separated) {
        Some(ValueId::WifiPassword)
    } else if names_field(p, ValueId::MqttHostIp, separated) {
        Some(ValueId::MqttHostIp)
    } else if names_field(p, ValueId::MqttBrokerUsername, separated) {
        Some(ValueId::MqttBrokerUsername)
    } else if names_field(p, ValueId::MqttBrokerPassword, separated) {
        Some(ValueId::MqttBrokerPassword)
    } else {
        None
    }
}

/// The bytes of `msg` from position `n` on.
pub open spec fn rest(msg: Seq<u8>, n: int) -> Seq<u8> {
    msg.subrange(n, msg.len() as int)
}

/// The command that a line stands for.
pub open spec fn command_of(msg: Seq<u8>) -> Command {
    if msg == lit(ENTER_BOOTLOADER_COMMAND) {
        Command::EnterBootloader
    } else if msg == lit(PING_COMMAND) {
        Command::Ping
    } else if msg == lit(VERSION_COMMAND) {
        Command::Version
    } else if starts_with(msg, lit(STORE_COMMAND)) {
        match field_named(rest(msg, lit(STORE_COMMAND).len() as int), true) {
            Some(id) => Command::Store(
                id,
                (lit(STORE_COMMAND).len() + id.spec_name().len() + 1) as usize,
            ),
            None => Command::UnknownStoreParameter,
        }
    } else if starts_with(msg, lit(READ_COMMAND)) {
        let p = rest(msg, lit(READ_COMMAND).len() as int);
        match field_named(p, false) {
            Some(id) => Command::Read(id),
            None => if starts_with(p, lit(HELP_COMMAND)) {
                Command::ReadHelp
            } else {
                Command::UnknownValueName
            },
        }
    } else if starts_with(msg, lit(HELP_COMMAND)) {
        Command::Help
    } else {
        Command::Invalid
    }
}

/// Whether `p` begins with the name of `id`, followed by a separator where
/// `separated` holds.
fn names(p: &[u8], id: ValueId, separated: bool) -> (r: bool)
    ensures
        r == names_field(p@, id, separated),
{
    let name = id.name().as_bytes();
    if !bytes_start_with(p, name) {
        proof {
            let full = name@.push(SEPARATOR);
            if starts_with(p@, full) {
                assert(p@.subrange(0, name@.len() as int) =~= full.subrange(0, name@.len() as int));
                assert(full.subrange(0, name@.len() as int) =~= name@);
            }
        }
        return false;
    }
    if !separated {
        return true;
    }
    let r = p.len() > name.len() && p[name.len()] == SEPARATOR;
    proof {
        let full = name@.push(SEPARATOR);
        if r {
            assert(p@.subrange(0, full.len() as int) =~= full);
        } else if p@.len() > name@.len() {
            assert(p@.subrange(0, full.len() as int)[name@.len() as int] != full[name@.len() as int]);
        }
    }
    r
}

/// The field that `p` names, as `field_named` gives it.
fn find_field(p: &[u8], separated: bool) -> (r: Option<ValueId>)
    ensures
        r == field_named(p@, separated),
{
    if names(p, ValueId::WifiSsid, separated) {
        Some(ValueId::WifiSsid)
    } else if names(p, ValueId::WifiPassword, separated) {
        Some(ValueId::WifiPassword)
    } else if names(p, ValueId::MqttHostIp, separated) {
        Some(ValueId::MqttHostIp)
    } else if names(p, ValueId::MqttBrokerUsername, separated) {
        Some(ValueId::MqttBrokerUsername)
    } else if names(p, ValueId::MqttBrokerPassword, separated) {
        Some(ValueId::MqttBrokerPassword)
    } else {
        None
    }
}

/// Tells which command a line stands for.
pub fn parse_command(msg: &[u8]) -> (r: Command)
    ensures
        r == command_of(msg@),
{
    let store = STORE_COMMAND.as_bytes();
    let read = READ_COMMAND.as_bytes();
    if bytes_equal(msg, ENTER_BOOTLOADER_COMMAND.as_bytes()) {
        Command::EnterBootloader
    } else if bytes_equal(msg, PING_COMMAND.as_bytes()) {
        Command::Ping
    } else if bytes_equal(msg, VERSION_COMMAND.as_bytes()) {
        Command::Version
    } else if bytes_start_with(msg, store) {
        let parameters = &msg[store.len()..msg.len()];
        match find_field(parameters, true) {
            Some(id) => Command::Store(id, store.len() + id.name().len() + 1),
            None => Command::UnknownStoreParameter,
        }
    } else if bytes_start_with(msg, read) {
        let parameters = &msg[read.len()..msg.len()];
        match find_field(parameters, false) {
            Some(id) => Command::Read(id),
            None => if bytes_start_with(parameters, HELP_COMMAND.as_bytes()) {
                Command::ReadHelp
            } else {
                Command::UnknownValueName
            },
        }
    } else if bytes_start_with(msg, HELP_COMMAND.as_bytes()) {
        Command::Help
    } else {
        Command::Invalid
    }
}

/// `after` is `before` with `text` copied to its beginning, cut to fit, and
/// `r` gives the number of bytes copied.
pub open spec fn text_reply(
    before: Seq<u8>,
    after: Seq<u8>,
    text: Seq<u8>,
    r: Result<usize, &'static str>,
) -> bool {
    &&& r == Ok::<usize, &'static str>(copied_len(before, text) as usize)
    &&& after == copy_into(before, text)
}

/// `r` is the error `e` and the answer buffer kept what it held.
pub open spec fn error_reply(
    before: Seq<u8>,
    after: Seq<u8>,
    e: &'static str,
    r: Result<usize, &'static str>,
) -> bool {
    &&& r == Err::<usize, &'static str>(e)
    &&& after == before
}

/// Answers command lines; `store` and `read` go to the persistency, `enter
/// bootloader` to the bootloader capability.
pub struct Parser<E: EnterBootloaderTrait, P: PersistencyTrait> {
    pub enter_bootloader: E,
    pub persistency: P,
    pub version: Option<VersionInfo>,
}

impl<E: EnterBootloaderTrait, P: PersistencyTrait> Parser<E, P> {
    /// A parser without build information.
    pub fn new(enter_bootloader: E, persistency: P) -> (r: Self)
        ensures
            r.enter_bootloader == enter_bootloader,
            r.persistency == persistency,
            r.version.is_none(),
    {
        Parser { enter_bootloader, persistency, version: None }
    }

    /// The same parser, reporting `version` on the `version` command.
    pub fn with_version(self, version: VersionInfo) -> (r: Self)
        ensures
            r.enter_bootloader == self.enter_bootloader,
            r.persistency == self.persistency,
            r.version == Some(version),
    {
        Parser { enter_bootloader: self.enter_bootloader, persistency: self.persistency, version: Some(version) }
    }

    /// Copies as much of `src` as fits to the beginning of `dest` and returns
    /// the number of bytes copied.
    pub fn copy_to_beginning(dest: &mut [u8], src: &[u8]) -> (r: usize)
        ensures
            r as int == copied_len(old(dest)@, src@),
            final(dest)@ == copy_into(old(dest)@, src@),
    {
        copy_to_beginning(dest, src)
    }

    /// Writes the version text into `answer`, cut to fit.
    fn write_version(version: VersionInfo, answer: &mut [u8]) -> (r: usize)
        ensures
            r as int == copied_len(old(answer)@, version_text(version)),
            final(answer)@ == copy_into(old(answer)@, version_text(version)),
    {
        let mut text: Vec<u8> = Vec::new();
        append_bytes(&mut text, VERSION_PREFIX.as_bytes());
        append_bytes(&mut text, version.version.as_bytes());
        append_bytes(&mut text, COMPILE_TIME_PREFIX.as_bytes());
        append_bytes(&mut text, version.compile_time.as_bytes());
        append_bytes(&mut text, COMMIT_HASH_PREFIX.as_bytes());
        append_bytes(&mut text, version.commit_hash.as_bytes());
        copy_to_beginning(answer, text.as_slice())
    }

    /// Answers one command line. The answer goes to the beginning of
    /// `answer`, and the result gives its length; a failure gives the text to
    /// show instead.
    pub fn parse_message(&mut self, msg: &[u8], answer: &mut [u8]) -> (r: Result<usize, &'static str>)
        requires
            old(self).persistency.inv(),
        ensures
            final(self).persistency.inv(),
            final(self).version == old(self).version,
            match command_of(msg@) {
                Command::EnterBootloader => {
                    &&& final(self).persistency.stored() == old(self).persistency.stored()
                    &&& text_reply(old(answer)@, final(answer)@, lit(ENTERING_BOOTLOADER), r)
                },
                Command::Ping => {
                    &&& final(self).persistency.stored() == old(self).persistency.stored()
                    &&& text_reply(old(answer)@, final(answer)@, lit(PONG), r)
                },
                Command::Version => {
                    &&& final(self).persistency.stored() == old(self).persistency.stored()
                    &&& match old(self).version {
                        Some(v) => text_reply(old(answer)@, final(answer)@, version_text(v), r),
                        None => error_reply(old(answer)@, final(answer)@, VERSION_NOT_SET, r),
                    }
                },
                Command::Store(id, start) => {
                    let value = rest(msg@, start as int);
                    if value.len() <= MAX_VALUE_LENGTH {
                        &&& final(self).persistency.stored() == old(self).persistency.stored().update(
                            id.spec_index(),
                            value,
                        )
                        &&& r == Ok::<usize, &'static str>(0)
                        &&& final(answer)@ == old(answer)@
                    } else {
                        &&& final(self).persistency.stored() == old(self).persistency.stored()
                        &&& error_reply(old(answer)@, final(answer)@, VALUE_TOO_LONG, r)
                    }
                },
                Command::Read(id) => {
                    &&& final(self).persistency.stored() == old(self).persistency.stored()
                    &&& read_reply(old(self).persistency.stored()[id.spec_index()], old(answer)@, final(answer)@, r)
                },
                Command::ReadHelp => {
                    &&& final(self).persistency.stored() == old(self).persistency.stored()
                    &&& text_reply(old(answer)@, final(answer)@, lit(READ_HELP_TEXT), r)
                },
                Command::Help => {
                    &&& final(self).persistency.stored() == old(self).persistency.stored()
                    &&& text_reply(old(answer)@, final(answer)@, lit(HELP_TEXT), r)
                },
                Command::UnknownStoreParameter => {
                    &&& final(self).persistency.stored() == old(self).persistency.stored()
                    &&& error_reply(old(answer)@, final(answer)@, UNKNOWN_STORE_PARAMETER, r)
                },
                Command::UnknownValueName => {
                    &&& final(self).persistency.stored() == old(self).persistency.stored()
                    &&& error_reply(old(answer)@, final(answer)@, UNKNOWN_VALUE_NAME, r)
                },
                Command::Invalid => {
                    &&& final(self).persistency.stored() == old(self).persistency.stored()
                    &&& error_reply(old(answer)@, final(answer)@, NOT_A_VALID_COMMAND, r)
                },
            },
    {
        match parse_command(msg) {
            Command::EnterBootloader => {
                self.enter_bootloader.call();
                // The reset usually comes before this answer is seen.
                Ok(Self::copy_to_beginning(answer, ENTERING_BOOTLOADER.as_bytes()))
            },
            Command::Ping => Ok(Self::copy_to_beginning(answer, PONG.as_bytes())),
            Command::Version => match self.version {
                Some(version) => Ok(Self::write_version(version, answer)),
                None => Err(VERSION_NOT_SET),
            },
            Command::Store(id, start) => {
                let value = &msg[start..msg.len()];
                if value.len() <= MAX_VALUE_LENGTH {
                    self.persistency.store(value, id);
                    Ok(0)
                } else {
                    Err(VALUE_TOO_LONG)
                }
            },
            Command::Read(id) => self.persistency.read(id, answer),
            Command::ReadHelp => Ok(Self::copy_to_beginning(answer, READ_HELP_TEXT.as_bytes())),
            Command::Help => Ok(Self::copy_to_beginning(answer, HELP_TEXT.as_bytes())),
            Command::UnknownStoreParameter => Err(UNKNOWN_STORE_PARAMETER),
            Command::UnknownValueName => Err(UNKNOWN_VALUE_NAME),
            Command::Invalid => Err(NOT_A_VALID_COMMAND),
        }
    }
}

} // verus!
