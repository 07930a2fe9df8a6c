//! Commands: what a decoded frame asks for, and what doing it gives.
//!
//! [`command_of`] and [`run`] state the rules on plain values. The functions
//! of [`RedisCommand`] are proved against them. The wall clock enters in two
//! places, the expiry that `SET .. PX` computes and the check that `GET`
//! makes; the functions whose names end in `_at` take the clock's reading as
//! an argument, and the other two read the clock and hand it on.

use crate::buffer::{bytes_seq, bytes_slice};
use crate::clock::unix_millis;
use crate::decimal::{parse_u128, read_u128};
use crate::resp::types::{lemma_values_of, values_of, ProtocolValue, RESPValueRef};
pub use crate::store::{Store, StoredEntry, StoredValue};
use crate::text::{lowercase, same_text};
use bytes::Bytes;
use vstd::prelude::*;
use vstd::string::{StringExecFns, StringSliceAdditionalSpecFns};
use vstd::utf8::{decode_utf8, encode_utf8, encode_utf8_decode_utf8, valid_utf8};

verus! {

broadcast use vstd::string::group_string_axioms;

/// A command as a mathematical object.
pub enum Command {
    Ping,
    Echo(Seq<u8>),
    SetKey { key: Seq<u8>, value: Seq<u8>, expiry: Option<u128> },
    Get(Seq<u8>),
    Unknown(Seq<char>),
}

/// A validated command. `SetKey` carries the absolute time, in milliseconds
/// since the Unix epoch, at which the entry expires; `Unknown` carries the
/// name that was asked for, in lower case.
#[derive(Debug, Clone)]
pub enum RedisCommand {
    Ping,
    Echo(Bytes),
    SetKey(Bytes, Bytes, Option<u128>),
    Get(Bytes),
    Unknown(String),
}

impl View for RedisCommand {
    type V = Command;

    open spec fn view(&self) -> Command {
        match self {
            RedisCommand::Ping => Command::Ping,
            RedisCommand::Echo(data) => Command::Echo(bytes_seq(data)),
            RedisCommand::SetKey(key, value, expiry) => Command::SetKey {
                key: bytes_seq(key),
                value: bytes_seq(value),
                expiry: *expiry,
            },
            RedisCommand::Get(key) => Command::Get(bytes_seq(key)),
            RedisCommand::Unknown(name) => Command::Unknown(name@),
        }
    }
}

/// The name that a bulk string spells, in lower case: the text that is
/// matched against command and option names.
pub open spec fn name_of(bytes: Seq<u8>) -> Seq<char> {
    lowercase(decode_utf8(bytes))
}

/// The message for an expiry value that is no number or gives no time.
pub open spec fn invalid_value_message(option: Seq<char>) -> Seq<char> {
    "Invalid "@ + option + " value"@
}

/// The message for an expiry option that is not known.
pub open spec fn unknown_option_message(option: Seq<char>) -> Seq<char> {
    "Unknown SET option '"@ + option + "'"@
}

/// The absolute expiry that the arguments behind a key and a value ask for:
/// an option name and a number of milliseconds, counted from `now`. The only
/// option is `px`. `now` is `None` where the clock could not be read.
pub open spec fn expiry_of(args: Seq<ProtocolValue>, now: Option<u128>) -> Result<
    u128,
    Seq<char>,
> {
    if args.len() < 2 {
        Err("Expiry option requires a value"@)
    } else {
        match args[0] {
            ProtocolValue::BulkString(opt) => if !valid_utf8(opt) {
                Err("Invalid UTF-8 in expiry option"@)
            } else {
                match args[1] {
                    ProtocolValue::BulkString(val) => if !valid_utf8(val) {
                        Err("Invalid UTF-8 in expiry value"@)
                    } else {
                        match (parse_u128(val), now) {
                            (None, _) => Err(invalid_value_message(name_of(opt))),
                            (Some(_), None) => Err("System time error"@),
                            (Some(ms), Some(t)) => if name_of(opt) != "px"@ {
                                Err(unknown_option_message(name_of(opt)))
                            } else if t + ms > u128::MAX {
                                Err(invalid_value_message(name_of(opt)))
                            } else {
                                Ok((t + ms) as u128)
                            },
                        }
                    },
                    _ => Err("Expiry value must be a bulk string"@),
                }
            },
            _ => Err("Expiry option must be a bulk string"@),
        }
    }
}

/// `PING` takes no argument.
pub open spec fn ping_of(items: Seq<ProtocolValue>) -> Result<Command, Seq<char>> {
    if items.len() > 1 {
        Err("Too many arguments for PING"@)
    } else {
        Ok(Command::Ping)
    }
}

/// `ECHO` takes one argument, a bulk string.
pub open spec fn echo_of(items: Seq<ProtocolValue>) -> Result<Command, Seq<char>> {
    if items.len() < 2 {
        Err("Missing argument for ECHO"@)
    } else if items.len() > 2 {
        Err("Too many arguments for ECHO"@)
    } else {
        match items[1] {
            ProtocolValue::BulkString(data) => Ok(Command::Echo(data)),
            _ => Err("ECHO argument must be a bulk string"@),
        }
    }
}

/// `GET` takes one argument, a bulk string.
pub open spec fn get_of(items: Seq<ProtocolValue>) -> Result<Command, Seq<char>> {
    if items.len() < 2 {
        Err("Missing argument for GET"@)
    } else if items.len() > 2 {
        Err("Too many arguments for GET"@)
    } else {
        match items[1] {
            ProtocolValue::BulkString(key) => Ok(Command::Get(key)),
            _ => Err("GET key must be bulk strings"@),
        }
    }
}

/// `SET` takes a key and a value, both bulk strings, and after them either
/// nothing or an expiry option with its value.
pub open spec fn set_of(items: Seq<ProtocolValue>, now: Option<u128>) -> Result<
    Command,
    Seq<char>,
> {
    if items.len() < 3 {
        Err("Missing argument for SET"@)
    } else if items.len() > 5 {
        Err("Too many arguments for SET"@)
    } else {
        match (items[1], items[2]) {
            (ProtocolValue::BulkString(key), ProtocolValue::BulkString(value)) => if items.len()
                == 3 {
                Ok(Command::SetKey { key, value, expiry: None })
            } else {
                match expiry_of(items.skip(3), now) {
                    Ok(at) => Ok(Command::SetKey { key, value, expiry: Some(at) }),
                    Err(e) => Err(e),
                }
            },
            _ => Err("SET key and value must be bulk strings"@),
        }
    }
}

/// The command that a frame asks for, or the message that says why it asks
/// for none. A command is a non-empty array whose first element is a bulk
/// string, the command's name in any case. A name that is not known gives
/// the command `Unknown`, which is no error.
pub open spec fn command_of(frame: ProtocolValue, now: Option<u128>) -> Result<
    Command,
    Seq<char>,
> {
    match frame {
        ProtocolValue::Array(items) => if items.len() == 0 {
            Err("Expected an array"@)
        } else {
            match items[0] {
                ProtocolValue::BulkString(name) => if !valid_utf8(name) {
                    Err("Invalid UTF-8 in command name"@)
                } else if name_of(name) == "ping"@ {
                    ping_of(items)
                } else if name_of(name) == "echo"@ {
                    echo_of(items)
                } else if name_of(name) == "set"@ {
                    set_of(items, now)
                } else if name_of(name) == "get"@ {
                    get_of(items)
                } else {
                    Ok(Command::Unknown(name_of(name)))
                },
                _ => Err("First element must be a bulk string"@),
            }
        },
        _ => Err("Expected an array"@),
    }
}

/// Whether the result of parsing a command is the one that the rules give.
pub open spec fn command_is(r: Result<RedisCommand, String>, expected: Result<Command, Seq<char>>)
    -> bool {
    match expected {
        Ok(command) => r matches Ok(c) && c@ == command,
        Err(message) => r matches Err(e) && e@ == message,
    }
}

/// The store after a command and the reply to it.
pub struct Outcome {
    pub store: Map<Seq<u8>, StoredEntry>,
    pub reply: Result<ProtocolValue, Seq<char>>,
}

/// The payload of the reply to a command that is not known.
pub open spec fn unknown_command_text(name: Seq<char>) -> Seq<u8> {
    "ERR unknown command '".spec_bytes() + encode_utf8(name) + "'".spec_bytes()
}

/// Whether an entry counts as gone at the time `now`: it has an expiry, and
/// that time has come.
pub open spec fn expired(entry: StoredEntry, now: u128) -> bool {
    entry.expiry matches Some(at) && now >= at
}

/// What running a command does to a store and what it replies. `now` is the
/// clock's reading in milliseconds, `None` where it could not be read; only
/// `GET` looks at it.
pub open spec fn run(command: Command, store: Map<Seq<u8>, StoredEntry>, now: Option<u128>)
    -> Outcome {
    match command {
        Command::Ping => Outcome {
            store,
            reply: Ok(ProtocolValue::SimpleString("PONG".spec_bytes())),
        },
        Command::Echo(data) => Outcome { store, reply: Ok(ProtocolValue::BulkString(data)) },
        Command::SetKey { key, value, expiry } => Outcome {
            store: store.insert(key, StoredEntry { value, expiry }),
            reply: Ok(ProtocolValue::SimpleString("OK".spec_bytes())),
        },
        Command::Get(key) => match now {
            None => Outcome { store, reply: Err("System time error"@) },
            Some(t) => if !store.dom().contains(key) {
                Outcome { store, reply: Ok(ProtocolValue::NullBulkString) }
            } else if expired(store[key], t) {
                Outcome { store: store.remove(key), reply: Ok(ProtocolValue::NullBulkString) }
            } else {
                Outcome { store, reply: Ok(ProtocolValue::BulkString(store[key].value)) }
            },
        },
        Command::Unknown(name) => Outcome {
            store,
            reply: Ok(ProtocolValue::Error(unknown_command_text(name))),
        },
    }
}

/// `GET` of a key that is there takes the entry away and replies with the
/// null bulk string if and only if the entry has an expiry and that time has
/// come; otherwise it replies with the value and leaves the store as it is.
pub proof fn law_get_expires_passively(
    store: Map<Seq<u8>, StoredEntry>,
    key: Seq<u8>,
    now: u128,
)
    requires
        store.dom().contains(key),
    ensures
        ({
            let after = run(Command::Get(key), store, Some(now));
            let due = store[key].expiry matches Some(at) && now >= at;
            &&& due <==> after.reply == Ok::<ProtocolValue, Seq<char>>(ProtocolValue::NullBulkString)
            &&& due <==> !after.store.dom().contains(key)
            &&& due ==> after.store == store.remove(key)
            &&& !due ==> after.store == store
            &&& !due ==> after.reply == Ok::<ProtocolValue, Seq<char>>(
                ProtocolValue::BulkString(store[key].value),
            )
        }),
{
}

/// `GET` of a key that is not there replies with the null bulk string and
/// leaves the store as it is.
pub proof fn law_get_of_absent_key(store: Map<Seq<u8>, StoredEntry>, key: Seq<u8>, now: u128)
    requires
        !store.dom().contains(key),
    ensures
        run(Command::Get(key), store, Some(now)) == (Outcome {
            store,
            reply: Ok(ProtocolValue::NullBulkString),
        }),
{
}

/// After `SET` of a key, `GET` of that key replies with the value that was
/// set, as long as the expiry that was set, if any, has not come. A `SET`
/// without expiry is read back at every later time.
pub proof fn law_set_then_get(
    store: Map<Seq<u8>, StoredEntry>,
    key: Seq<u8>,
    value: Seq<u8>,
    expiry: Option<u128>,
    set_at: Option<u128>,
    now: u128,
)
    requires
        expiry matches Some(at) ==> now < at,
    ensures
        ({
            let set = run(Command::SetKey { key, value, expiry }, store, set_at);
            let get = run(Command::Get(key), set.store, Some(now));
            &&& set.store == store.insert(key, StoredEntry { value, expiry })
            &&& get.reply == Ok::<ProtocolValue, Seq<char>>(ProtocolValue::BulkString(value))
            &&& get.store == set.store
        }),
{
}

/// A `SET` with a key and a value and nothing behind them sets no expiry,
/// whatever the clock says.
pub proof fn law_set_without_option_has_no_expiry(frame: ProtocolValue, now: Option<u128>)
    requires
        frame matches ProtocolValue::Array(items) && items.len() == 3,
        command_of(frame, now) matches Ok(Command::SetKey { .. }),
    ensures
        command_of(frame, now) matches Ok(Command::SetKey { expiry, .. }) && expiry is None,
{
}

/// Only a `SET` with an expiry option looks at the clock: every other frame
/// gives the same command, or the same message, at every reading.
pub proof fn law_only_expiry_reads_the_clock(
    frame: ProtocolValue,
    now: Option<u128>,
    later: Option<u128>,
)
    requires
        command_of(frame, now) != command_of(frame, later),
    ensures
        frame matches ProtocolValue::Array(items) && items.len() > 3 && (items[0]
            matches ProtocolValue::BulkString(name) && name_of(name) == "set"@),
{
}

/// Whether a reply and the store it left are what the rules give.
pub open spec fn outcome_is(
    r: Result<RESPValueRef, String>,
    store: Map<Seq<u8>, StoredEntry>,
    expected: Outcome,
) -> bool {
    &&& store == expected.store
    &&& match expected.reply {
        Ok(value) => r matches Ok(v) && v@ == value,
        Err(message) => r matches Err(e) && e@ == message,
    }
}

/// The lower-case name that a bulk string spells, or `None` where its bytes
/// are not UTF-8.
fn read_name(bytes: &Bytes) -> (r: Option<String>)
    ensures
        r is Some <==> valid_utf8(bytes_seq(bytes)),
        r matches Some(name) ==> name@ == name_of(bytes_seq(bytes)),
{
    match core::str::from_utf8(bytes_slice(bytes)) {
        Ok(s) => {
            proof {
                encode_utf8_decode_utf8(s@);
            }
            Some(s.to_ascii_lowercase())
        },
        Err(_) => None,
    }
}

/// The message for an expiry value that is no number or gives no time.
fn invalid_value(option: &String) -> (r: String)
    ensures
        r@ == invalid_value_message(option@),
{
    let mut message = "Invalid ".to_string();
    message.append(option.as_str());
    message.append(" value");
    message
}

impl RedisCommand {
    /// The command that a decoded frame asks for. An expiry is counted from
    /// the wall clock as it is read here; see
    /// [`RedisCommand::resp_to_command_at`] for the rules. A frame of other
    /// than five elements holds no expiry, and its outcome does not hang on
    /// the clock.
    pub fn resp_to_command(resp_data: &RESPValueRef) -> (r: Result<Self, String>)
        ensures
            exists|now: Option<u128>| command_is(r, #[trigger] command_of(resp_data@, now)),
            !(resp_data@ matches ProtocolValue::Array(items) && items.len() == 5) ==> command_is(
                r,
                command_of(resp_data@, None),
            ),
    {
        proof {
            if let RESPValueRef::Array(arr) = resp_data {
                lemma_values_of(arr@);
            }
        }
        // Only an expiry asks for the time, and an expiry takes five elements.
        let now = match resp_data {
            RESPValueRef::Array(arr) => if arr.len() == 5 {
                unix_millis()
            } else {
                None
            },
            _ => None,
        };
        let r = Self::resp_to_command_at(resp_data, now);
        assert(command_is(r, command_of(resp_data@, now)));
        r
    }

    /// The command that a decoded frame asks for, with `now` as the clock's
    /// reading in milliseconds, or `None` where the clock could not be read.
    pub fn resp_to_command_at(resp_data: &RESPValueRef, now: Option<u128>) -> (r: Result<
        Self,
        String,
    >)
        ensures
            command_is(r, command_of(resp_data@, now)),
    {
        let elements = match resp_data {
            RESPValueRef::Array(arr) => {
                if arr.len() == 0 {
                    return Err("Expected an array".to_string());
                }
                arr.as_slice()
            },
            _ => {
                return Err("Expected an array".to_string());
            },
        };
        proof {
            lemma_values_of(elements@);
        }
        let cmd = match &elements[0] {
            RESPValueRef::BulkString(bytes) => match read_name(bytes) {
                Some(name) => name,
                None => {
                    return Err("Invalid UTF-8 in command name".to_string());
                },
            },
            _ => {
                return Err("First element must be a bulk string".to_string());
            },
        };
        if same_text(cmd.as_str(), "ping") {
            if elements.len() > 1 {
                Err("Too many arguments for PING".to_string())
            } else {
                Ok(RedisCommand::Ping)
            }
        } else if same_text(cmd.as_str(), "echo") {
            Self::parse_echo(elements)
        } else if same_text(cmd.as_str(), "set") {
            Self::parse_set(elements, now)
        } else if same_text(cmd.as_str(), "get") {
            Self::parse_get(elements)
        } else {
            Ok(RedisCommand::Unknown(cmd))
        }
    }

    /// Runs the command against the store, with the wall clock as it is read
    /// here; see [`RedisCommand::execute_at`] for the rules. Only `GET` hangs
    /// on the clock.
    pub fn execute(&self, store: &mut Store) -> (r: Result<RESPValueRef, String>)
        ensures
            exists|now: Option<u128>|
                outcome_is(r, final(store)@, #[trigger] run(self@, old(store)@, now)),
            !(self is Get) ==> outcome_is(r, final(store)@, run(self@, old(store)@, None)),
    {
        // Only `GET` asks for the time.
        let now = match self {
            RedisCommand::Get(_) => unix_millis(),
            _ => None,
        };
        let r = self.execute_at(store, now);
        assert(outcome_is(r, store@, run(self@, old(store)@, now)));
        r
    }

    /// Runs the command against the store, with `now` as the clock's reading
    /// in milliseconds, or `None` where the clock could not be read.
    ///
    /// `GET` is the only command that expires anything: an entry whose time
    /// has come is taken out of the store when it is asked for, and the reply
    /// is the same as for a key that was never set.
    pub fn execute_at(&self, store: &mut Store, now: Option<u128>) -> (r: Result<
        RESPValueRef,
        String,
    >)
        ensures
            outcome_is(r, final(store)@, run(self@, old(store)@, now)),
    {
        match self {
            RedisCommand::Ping => Ok(
                RESPValueRef::SimpleString(Bytes::from_static("PONG".as_bytes())),
            ),
            RedisCommand::Echo(data) => Ok(RESPValueRef::BulkString(data.clone())),
            RedisCommand::SetKey(key, value, expiry) => {
                store.insert(key.clone(), StoredValue { value: value.clone(), expiry: *expiry });
                Ok(RESPValueRef::SimpleString(Bytes::from_static("OK".as_bytes())))
            },
            RedisCommand::Get(key) => {
                let current_time_ms = match now {
                    Some(t) => t,
                    None => {
                        return Err("System time error".to_string());
                    },
                };
                let found = match store.get(bytes_slice(key)) {
                    Some(stored) => {
                        let gone = match stored.expiry {
                            Some(expiry_time) => current_time_ms >= expiry_time,
                            None => false,
                        };
                        Some((gone, stored.value.clone()))
                    },
                    None => None,
                };
                match found {
                    Some((true, _)) => {
                        store.remove(bytes_slice(key));
                        Ok(RESPValueRef::NullBulkString)
                    },
                    Some((false, value)) => Ok(RESPValueRef::BulkString(value)),
                    None => Ok(RESPValueRef::NullBulkString),
                }
            },
            RedisCommand::Unknown(cmd) => {
                let mut msg: Vec<u8> = Vec::new();
                msg.extend_from_slice("ERR unknown command '".as_bytes());
                msg.extend_from_slice(cmd.as_str().as_bytes());
                msg.extend_from_slice("'".as_bytes());
                assert(msg@ =~= unknown_command_text(cmd@));
                Ok(RESPValueRef::Error(Bytes::from(msg)))
            },
        }
    }

    /// `ECHO` and its one argument.
    fn parse_echo(elements: &[RESPValueRef]) -> (r: Result<Self, String>)
        ensures
            command_is(r, echo_of(values_of(elements@))),
    {
        proof {
            lemma_values_of(elements@);
        }
        if elements.len() < 2 {
            return Err("Missing argument for ECHO".to_string());
        }
        if elements.len() > 2 {
            return Err("Too many arguments for ECHO".to_string());
        }
        match &elements[1] {
            RESPValueRef::BulkString(bytes) => Ok(RedisCommand::Echo(bytes.clone())),
            _ => Err("ECHO argument must be a bulk string".to_string()),
        }
    }

    /// `SET`, its key and value, and the expiry option if there is one.
    fn parse_set(elements: &[RESPValueRef], now: Option<u128>) -> (r: Result<Self, String>)
        ensures
            command_is(r, set_of(values_of(elements@), now)),
    {
        proof {
            lemma_values_of(elements@);
        }
        if elements.len() < 3 {
            return Err("Missing argument for SET".to_string());
        }
        if elements.len() > 5 {
            return Err("Too many arguments for SET".to_string());
        }
        let (key, value) = match (&elements[1], &elements[2]) {
            (RESPValueRef::BulkString(k), RESPValueRef::BulkString(v)) => (k.clone(), v.clone()),
            _ => {
                return Err("SET key and value must be bulk strings".to_string());
            },
        };
        let expiry = if elements.len() == 3 {
            None
        } else {
            let options = vstd::slice::slice_subrange(elements, 3, elements.len());
            proof {
                lemma_values_of(options@);
                assert(values_of(options@) =~= values_of(elements@).skip(3));
            }
            match Self::parse_expiry_option(options, now) {
                Ok(at) => Some(at),
                Err(e) => {
                    return Err(e);
                },
            }
        };
        Ok(RedisCommand::SetKey(key, value, expiry))
    }

    /// `GET` and its key.
    fn parse_get(elements: &[RESPValueRef]) -> (r: Result<Self, String>)
        ensures
            command_is(r, get_of(values_of(elements@))),
    {
        proof {
            lemma_values_of(elements@);
        }
        if elements.len() < 2 {
            return Err("Missing argument for GET".to_string());
        }
        if elements.len() > 2 {
            return Err("Too many arguments for GET".to_string());
        }
        if let RESPValueRef::BulkString(key) = &elements[1] {
            Ok(RedisCommand::Get(key.clone()))
        } else {
            Err("GET key must be bulk strings".to_string())
        }
    }

    /// The absolute expiry that an option name and its value ask for.
    fn parse_expiry_option(elements: &[RESPValueRef], now: Option<u128>) -> (r: Result<
        u128,
        String,
    >)
        ensures
            match expiry_of(values_of(elements@), now) {
                Ok(at) => r == Ok::<u128, String>(at),
                Err(message) => r matches Err(e) && e@ == message,
            },
    {
        proof {
            lemma_values_of(elements@);
        }
        if elements.len() < 2 {
            return Err("Expiry option requires a value".to_string());
        }
        let option = match &elements[0] {
            RESPValueRef::BulkString(bytes) => match read_name(bytes) {
                Some(name) => name,
                None => {
                    return Err("Invalid UTF-8 in expiry option".to_string());
                },
            },
            _ => {
                return Err("Expiry option must be a bulk string".to_string());
            },
        };
        let expiry_value = match &elements[1] {
            RESPValueRef::BulkString(bytes) => {
                let digits = bytes_slice(bytes);
                if core::str::from_utf8(digits).is_err() {
                    return Err("Invalid UTF-8 in expiry value".to_string());
                }
                match read_u128(digits) {
                    Some(ms) => ms,
                    None => {
                        return Err(invalid_value(&option));
                    },
                }
            },
            _ => {
                return Err("Expiry value must be a bulk string".to_string());
            },
        };
        let current_time_ms = match now {
            Some(t) => t,
            None => {
                return Err("System time error".to_string());
            },
        };
        if same_text(option.as_str(), "px") {
            match current_time_ms.checked_add(expiry_value) {
                Some(at) => Ok(at),
                None => Err(invalid_value(&option)),
            }
        } else {
            let mut message = "Unknown SET option '".to_string();
            message.append(option.as_str());
            message.append("'");
            Err(message)
        }
    }
}

} // verus!
