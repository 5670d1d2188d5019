use crate::buffers::bytes_view;
use crate::command::types::{
    bytes_seq, owned, Command, CommandError, CommandFault, CommandModel, SetCond, Ttl,
};
use crate::protocol::decimal::{decimal, i64_from_ascii, i64_from_decimal, u16_from_ascii, u16_from_decimal};
use crate::protocol::value::{RespModel, RespValue};
use crate::text::{
    ascii_upper_seq, bytes_eq, eq_ignore_ascii_case, eq_ignore_case, str_from_utf8,
    str_to_ascii_uppercase,
};
use bytes::Bytes;
use vstd::prelude::*;
use vstd::string::StringSliceAdditionalSpecFns;
use vstd::utf8::{decode_utf8, encode_utf8, valid_utf8};

verus! {

/// The payloads of an array's items, when every item is a non-null bulk string.
pub open spec fn bulk_args(items: Seq<RespModel>) -> Option<Seq<Seq<u8>>> {
    if forall|i: int| 0 <= i < items.len() ==> (#[trigger] items[i]) matches RespModel::Bulk(Some(_)) {
        Some(Seq::new(items.len(), |i: int| items[i]->Bulk_0->Some_0))
    } else {
        None
    }
}

/// An integer argument: decimal text, else `NotInteger`.
pub open spec fn i64_arg(b: Seq<u8>) -> Result<i64, CommandFault> {
    match i64_from_decimal(b) {
        Some(n) => Ok(n),
        None => Err(CommandFault::NotInteger),
    }
}

/// The options of `SET` from index `i` on, given what earlier ones set.
pub open spec fn set_options(opts: Seq<Seq<u8>>, i: int, ttl: Option<Ttl>, cond: SetCond) -> Result<
    (Option<Ttl>, SetCond),
    CommandFault,
>
    decreases opts.len() - i,
{
    if i < 0 || i >= opts.len() {
        Ok((ttl, cond))
    } else if !valid_utf8(opts[i]) {
        Err(CommandFault::InvalidArg("SET option"@))
    } else {
        let token = ascii_upper_seq(opts[i]);
        if token == "EX".spec_bytes() {
            if i + 1 >= opts.len() {
                Err(CommandFault::WrongArity("SET"@))
            } else {
                match i64_arg(opts[i + 1]) {
                    Err(f) => Err(f),
                    Ok(secs) => if secs <= 0 {
                        Err(CommandFault::InvalidArg("EX must be > 0"@))
                    } else {
                        set_options(opts, i + 2, Some(Ttl::of_secs(secs as u64)), cond)
                    },
                }
            }
        } else if token == "PX".spec_bytes() {
            if i + 1 >= opts.len() {
                Err(CommandFault::WrongArity("SET"@))
            } else {
                match i64_arg(opts[i + 1]) {
                    Err(f) => Err(f),
                    Ok(ms) => if ms <= 0 {
                        Err(CommandFault::InvalidArg("PX must be > 0"@))
                    } else {
                        set_options(opts, i + 2, Some(Ttl::of_millis(ms as u64)), cond)
                    },
                }
            }
        } else if token == "NX".spec_bytes() {
            set_options(opts, i + 1, ttl, SetCond::IfAbsent)
        } else if token == "XX".spec_bytes() {
            set_options(opts, i + 1, ttl, SetCond::IfExists)
        } else {
            Err(CommandFault::InvalidArg("unknown SET option"@))
        }
    }
}

/// `SET key value [EX s | PX ms | NX | XX]...`, given the arguments after the name.
pub open spec fn set_spec(args: Seq<Seq<u8>>) -> Result<CommandModel, CommandFault> {
    if args.len() < 2 {
        Err(CommandFault::WrongArity("SET"@))
    } else {
        match set_options(args.subrange(2, args.len() as int), 0, None, SetCond::Always) {
            Err(f) => Err(f),
            Ok((ttl, cond)) => Ok(CommandModel::SetKey { key: args[0], value: args[1], ttl, cond }),
        }
    }
}

/// `REPLICAOF host port` or `REPLICAOF NO ONE`, given the arguments after the name.
pub open spec fn replicaof_spec(args: Seq<Seq<u8>>) -> Result<CommandModel, CommandFault> {
    if args.len() != 2 {
        Err(CommandFault::WrongArity("REPLICAOF"@))
    } else if !valid_utf8(args[0]) {
        Err(CommandFault::InvalidArg("host"@))
    } else if !valid_utf8(args[1]) {
        Err(CommandFault::InvalidArg("port"@))
    } else if eq_ignore_case(args[0], "NO".spec_bytes()) && eq_ignore_case(
        args[1],
        "ONE".spec_bytes(),
    ) {
        Ok(CommandModel::ReplicaOf(None))
    } else {
        match u16_from_decimal(args[1]) {
            None => Err(CommandFault::InvalidArg("port not u16"@)),
            Some(port) => Ok(CommandModel::ReplicaOf(Some((decode_utf8(args[0]), port)))),
        }
    }
}

/// A command that takes exactly one key.
pub open spec fn one_arg(args: Seq<Seq<u8>>, name: Seq<char>, cmd: CommandModel) -> Result<
    CommandModel,
    CommandFault,
> {
    if args.len() != 1 {
        Err(CommandFault::WrongArity(name))
    } else {
        Ok(cmd)
    }
}

/// The command that the bulk strings `args` spell: a name (any ASCII case)
/// then its arguments.
pub open spec fn command_spec(args: Seq<Seq<u8>>) -> Result<CommandModel, CommandFault> {
    if args.len() == 0 || !valid_utf8(args[0]) {
        Err(CommandFault::BadFraming)
    } else {
        let name = ascii_upper_seq(args[0]);
        let rest = args.drop_first();
        if name == "PING".spec_bytes() {
            if rest.len() == 0 {
                Ok(CommandModel::Ping(None))
            } else if rest.len() == 1 {
                Ok(CommandModel::Ping(Some(rest[0])))
            } else {
                Err(CommandFault::WrongArity("PING"@))
            }
        } else if name == "ECHO".spec_bytes() {
            one_arg(rest, "ECHO"@, CommandModel::Echo(rest[0]))
        } else if name == "GET".spec_bytes() {
            one_arg(rest, "GET"@, CommandModel::Get(rest[0]))
        } else if name == "SET".spec_bytes() {
            set_spec(rest)
        } else if name == "DEL".spec_bytes() {
            if rest.len() == 0 {
                Err(CommandFault::WrongArity("DEL"@))
            } else {
                Ok(CommandModel::Del(rest))
            }
        } else if name == "EXISTS".spec_bytes() {
            if rest.len() == 0 {
                Err(CommandFault::WrongArity("EXISTS"@))
            } else {
                Ok(CommandModel::Exists(rest))
            }
        } else if name == "INCR".spec_bytes() {
            one_arg(rest, "INCR"@, CommandModel::Incr(rest[0]))
        } else if name == "DECR".spec_bytes() {
            one_arg(rest, "DECR"@, CommandModel::Decr(rest[0]))
        } else if name == "EXPIRE".spec_bytes() {
            if rest.len() != 2 {
                Err(CommandFault::WrongArity("EXPIRE"@))
            } else {
                match i64_arg(rest[1]) {
                    Err(f) => Err(f),
                    Ok(secs) => if secs < 0 {
                        Err(CommandFault::InvalidArg("seconds must be >= 0"@))
                    } else {
                        Ok(CommandModel::Expire { key: rest[0], ttl: Ttl::of_secs(secs as u64) })
                    },
                }
            }
        } else if name == "TTL".spec_bytes() {
            one_arg(rest, "TTL"@, CommandModel::Ttl(rest[0]))
        } else if name == "KEYS".spec_bytes() {
            one_arg(rest, "KEYS"@, CommandModel::Keys(rest[0]))
        } else if name == "INFO".spec_bytes() {
            Ok(CommandModel::Info)
        } else if name == "REPLICAOF".spec_bytes() {
            replicaof_spec(rest)
        } else {
            Err(CommandFault::Unknown(decode_utf8(name)))
        }
    }
}

/// The command that a RESP value spells: an array whose items are all
/// non-null bulk strings.
pub open spec fn command_of(value: RespModel) -> Result<CommandModel, CommandFault> {
    match value {
        RespModel::Array(Some(items)) => match bulk_args(items) {
            Some(args) => command_spec(args),
            None => Err(CommandFault::BadFraming),
        },
        _ => Err(CommandFault::BadFraming),
    }
}

/// Command names are read without regard to ASCII case: two names that
/// differ only in the case of ASCII letters spell the same command with the
/// same arguments (or fail the same way).
pub proof fn law_command_names_ignore_case(name1: Seq<u8>, name2: Seq<u8>, args: Seq<Seq<u8>>)
    requires
        valid_utf8(name1),
        valid_utf8(name2),
        eq_ignore_case(name1, name2),
    ensures
        command_spec(seq![name1] + args) == command_spec(seq![name2] + args),
{
    assert((seq![name1] + args).drop_first() =~= args);
    assert((seq![name2] + args).drop_first() =~= args);
    assert((seq![name1] + args)[0] == name1);
    assert((seq![name2] + args)[0] == name2);
}

/// `EXPIRE key n` carries a span of `n` whole seconds: for every key and
/// every count `n` in range, the command read from the array of bulk strings
/// `EXPIRE`, the key, and `n` in decimal is an expiry of that key whose span
/// holds `n * 1000` milliseconds.
pub proof fn law_expire_counts_seconds(key: Seq<u8>, n: u64)
    requires
        n <= i64::MAX,
    ensures
        command_of(
            RespModel::Array(
                Some(
                    seq![
                        RespModel::Bulk(Some("EXPIRE".spec_bytes())),
                        RespModel::Bulk(Some(key)),
                        RespModel::Bulk(Some(decimal(n as int))),
                    ],
                ),
            ),
        ) matches Ok(CommandModel::Expire { key: k, ttl }) && k == key && ttl.millis == n * 1000
            && ttl.secs() == n,
{
    broadcast use vstd::string::is_ascii_spec_bytes;

    reveal_strlit("EXPIRE");
    reveal_strlit("PING");
    reveal_strlit("ECHO");
    reveal_strlit("GET");
    reveal_strlit("SET");
    reveal_strlit("DEL");
    reveal_strlit("EXISTS");
    reveal_strlit("INCR");
    reveal_strlit("DECR");
    assert(vstd::string::is_ascii("EXPIRE"));
    assert(vstd::string::is_ascii("PING"));
    assert(vstd::string::is_ascii("ECHO"));
    assert(vstd::string::is_ascii("GET"));
    assert(vstd::string::is_ascii("SET"));
    assert(vstd::string::is_ascii("DEL"));
    assert(vstd::string::is_ascii("EXISTS"));
    assert(vstd::string::is_ascii("INCR"));
    assert(vstd::string::is_ascii("DECR"));
    let name = "EXPIRE".spec_bytes();
    assert(name =~= seq![69u8, 88, 80, 73, 82, 69]);
    assert("EXISTS".spec_bytes() =~= seq![69u8, 88, 73, 83, 84, 83]);
    let items = seq![
        RespModel::Bulk(Some(name)),
        RespModel::Bulk(Some(key)),
        RespModel::Bulk(Some(decimal(n as int))),
    ];
    let args = seq![name, key, decimal(n as int)];
    assert(bulk_args(items) == Some(args)) by {
        assert(forall|i: int| 0 <= i < items.len() ==> (#[trigger] items[i]) matches RespModel::Bulk(Some(_)));
        assert(Seq::new(items.len(), |i: int| items[i]->Bulk_0->Some_0) =~= args);
    }
    crate::protocol::laws::lemma_ascii_valid(name);
    assert(ascii_upper_seq(name) =~= name);
    crate::protocol::laws::lemma_decimal_reads_back(n as int);
    assert(args.drop_first() =~= seq![key, decimal(n as int)]);
    assert((n as nat * 1000) as u128 == n as nat * 1000);
    assert((n as nat * 1000) / 1000 == n as nat);
}

/// The request made of the given words, each sent as a bulk string.
pub open spec fn request(words: Seq<Seq<u8>>) -> RespModel {
    RespModel::Array(Some(words.map_values(|w: Seq<u8>| RespModel::Bulk(Some(w)))))
}

proof fn lemma_request_args(words: Seq<Seq<u8>>)
    ensures
        command_of(request(words)) == command_spec(words),
{
    let items = words.map_values(|w: Seq<u8>| RespModel::Bulk(Some(w)));
    assert(forall|i: int| 0 <= i < items.len() ==> (#[trigger] items[i]) matches RespModel::Bulk(Some(_)));
    assert(Seq::new(items.len(), |i: int| items[i]->Bulk_0->Some_0) =~= words);
}

/// `SET` reads its options as documented: with none it always writes and
/// sets no deadline; `EX n` gives a span of `n` seconds, `PX n` a span of `n`
/// milliseconds; `NX` writes only an absent key and `XX` only a present one.
pub proof fn law_set_options(key: Seq<u8>, value: Seq<u8>, n: u64)
    requires
        0 < n <= i64::MAX,
    ensures
        command_of(request(seq!["SET".spec_bytes(), key, value])) == Ok::<CommandModel, CommandFault>(
            CommandModel::SetKey { key, value, ttl: None, cond: SetCond::Always },
        ),
        command_of(request(seq!["SET".spec_bytes(), key, value, "EX".spec_bytes(), decimal(n as int)]))
            matches Ok(CommandModel::SetKey { key: k, value: v, ttl: Some(d), cond })
            && k == key && v == value && d.millis == n * 1000 && cond == SetCond::Always,
        command_of(request(seq!["SET".spec_bytes(), key, value, "PX".spec_bytes(), decimal(n as int)]))
            matches Ok(CommandModel::SetKey { key: k, value: v, ttl: Some(d), cond })
            && k == key && v == value && d.millis == n && cond == SetCond::Always,
        command_of(request(seq!["SET".spec_bytes(), key, value, "NX".spec_bytes()])) == Ok::<
            CommandModel,
            CommandFault,
        >(CommandModel::SetKey { key, value, ttl: None, cond: SetCond::IfAbsent }),
        command_of(request(seq!["SET".spec_bytes(), key, value, "XX".spec_bytes()])) == Ok::<
            CommandModel,
            CommandFault,
        >(CommandModel::SetKey { key, value, ttl: None, cond: SetCond::IfExists }),
{
    broadcast use vstd::string::is_ascii_spec_bytes;

    reveal_strlit("SET");
    reveal_strlit("PING");
    reveal_strlit("ECHO");
    reveal_strlit("GET");
    reveal_strlit("EX");
    reveal_strlit("PX");
    reveal_strlit("NX");
    reveal_strlit("XX");
    assert(vstd::string::is_ascii("SET"));
    assert(vstd::string::is_ascii("PING"));
    assert(vstd::string::is_ascii("ECHO"));
    assert(vstd::string::is_ascii("GET"));
    assert(vstd::string::is_ascii("EX"));
    assert(vstd::string::is_ascii("PX"));
    assert(vstd::string::is_ascii("NX"));
    assert(vstd::string::is_ascii("XX"));
    let set = "SET".spec_bytes();
    let ex = "EX".spec_bytes();
    let px = "PX".spec_bytes();
    let nx = "NX".spec_bytes();
    let xx = "XX".spec_bytes();
    assert(set =~= seq![83u8, 69, 84]);
    assert(ex =~= seq![69u8, 88]);
    assert(px =~= seq![80u8, 88]);
    assert(nx =~= seq![78u8, 88]);
    assert(xx =~= seq![88u8, 88]);
    crate::protocol::laws::lemma_ascii_valid(set);
    crate::protocol::laws::lemma_ascii_valid(ex);
    crate::protocol::laws::lemma_ascii_valid(px);
    crate::protocol::laws::lemma_ascii_valid(nx);
    crate::protocol::laws::lemma_ascii_valid(xx);
    assert(ascii_upper_seq(set) =~= set);
    assert(ascii_upper_seq(ex) =~= ex);
    assert(ascii_upper_seq(px) =~= px);
    assert(ascii_upper_seq(nx) =~= nx);
    assert(ascii_upper_seq(xx) =~= xx);
    crate::protocol::laws::lemma_decimal_reads_back(n as int);
    let d = decimal(n as int);

    let w0 = seq![set, key, value];
    lemma_request_args(w0);
    assert(w0.drop_first() =~= seq![key, value]);
    assert(seq![key, value].subrange(2, 2) =~= Seq::<Seq<u8>>::empty());

    let w1 = seq![set, key, value, ex, d];
    lemma_request_args(w1);
    assert(w1.drop_first() =~= seq![key, value, ex, d]);
    assert(seq![key, value, ex, d].subrange(2, 4) =~= seq![ex, d]);
    assert((n as nat * 1000) as u128 == n as nat * 1000);
    assert(i64_arg(d) == Ok::<i64, CommandFault>(n as i64));
    assert(set_options(seq![ex, d], 2, Some(Ttl::of_secs(n)), SetCond::Always) == Ok::<
        (Option<Ttl>, SetCond),
        CommandFault,
    >((Some(Ttl::of_secs(n)), SetCond::Always)));
    assert(set_options(seq![ex, d], 0, None, SetCond::Always) == Ok::<
        (Option<Ttl>, SetCond),
        CommandFault,
    >((Some(Ttl::of_secs(n)), SetCond::Always)));

    let w2 = seq![set, key, value, px, d];
    lemma_request_args(w2);
    assert(w2.drop_first() =~= seq![key, value, px, d]);
    assert(seq![key, value, px, d].subrange(2, 4) =~= seq![px, d]);
    assert(set_options(seq![px, d], 2, Some(Ttl::of_millis(n)), SetCond::Always) == Ok::<
        (Option<Ttl>, SetCond),
        CommandFault,
    >((Some(Ttl::of_millis(n)), SetCond::Always)));
    assert(set_options(seq![px, d], 0, None, SetCond::Always) == Ok::<
        (Option<Ttl>, SetCond),
        CommandFault,
    >((Some(Ttl::of_millis(n)), SetCond::Always)));

    let w3 = seq![set, key, value, nx];
    lemma_request_args(w3);
    assert(w3.drop_first() =~= seq![key, value, nx]);
    assert(seq![key, value, nx].subrange(2, 3) =~= seq![nx]);
    assert(set_options(seq![nx], 1, None, SetCond::IfAbsent) == Ok::<
        (Option<Ttl>, SetCond),
        CommandFault,
    >((None, SetCond::IfAbsent)));
    assert(set_options(seq![nx], 0, None, SetCond::Always) == Ok::<
        (Option<Ttl>, SetCond),
        CommandFault,
    >((None, SetCond::IfAbsent)));

    let w4 = seq![set, key, value, xx];
    lemma_request_args(w4);
    assert(w4.drop_first() =~= seq![key, value, xx]);
    assert(seq![key, value, xx].subrange(2, 3) =~= seq![xx]);
    assert(set_options(seq![xx], 1, None, SetCond::IfExists) == Ok::<
        (Option<Ttl>, SetCond),
        CommandFault,
    >((None, SetCond::IfExists)));
    assert(set_options(seq![xx], 0, None, SetCond::Always) == Ok::<
        (Option<Ttl>, SetCond),
        CommandFault,
    >((None, SetCond::IfExists)));
}

/// Reads an integer argument, as `str::parse::<i64>` reads its text.
pub fn parse_i64(b: &[u8]) -> (r: Result<i64, CommandError>)
    ensures
        match i64_arg(b@) {
            Ok(n) => r matches Ok(m) && m == n,
            Err(f) => r matches Err(e) && e.fault() == f,
        },
{
    match i64_from_ascii(b) {
        Some(n) => Ok(n),
        None => Err(CommandError::NotInteger),
    }
}

/// The upper-cased text of `b`, or `None` when `b` is not UTF-8.
fn upper_name(b: &[u8]) -> (r: Option<String>)
    ensures
        r is Some <==> valid_utf8(b@),
        r matches Some(s) ==> encode_utf8(s@) == ascii_upper_seq(b@),
{
    match str_from_utf8(b) {
        Some(s) => Some(str_to_ascii_uppercase(s)),
        None => None,
    }
}

/// `s` (an upper-cased name) is the literal `lit`.
fn is_name(s: &String, lit: &str) -> (r: bool)
    ensures
        r == (encode_utf8(s@) == lit.spec_bytes()),
{
    bytes_eq(s.as_str().as_bytes(), lit.as_bytes())
}

/// Reads the options of `SET`.
fn set_option_loop(args: &Vec<Bytes>) -> (r: Result<(Option<Ttl>, SetCond), CommandError>)
    ensures
        match set_options(bytes_seq(args@), 0, None, SetCond::Always) {
            Ok(o) => r matches Ok(p) && p == o,
            Err(f) => r matches Err(e) && e.fault() == f,
        },
{
    let ghost opts = bytes_seq(args@);
    let mut ttl: Option<Ttl> = None;
    let mut cond = SetCond::Always;
    let mut i: usize = 0;
    while i < args.len()
        invariant
            i <= args.len(),
            opts == bytes_seq(args@),
            opts.len() == args.len(),
            set_options(opts, 0, None, SetCond::Always) == set_options(opts, i as int, ttl, cond),
        decreases args.len() - i,
    {
        assert(opts[i as int] == bytes_view(args@[i as int]));
        let token = match upper_name(&*args[i]) {
            Some(t) => t,
            None => return Err(CommandError::InvalidArg("SET option")),
        };
        if is_name(&token, "EX") {
            if i + 1 >= args.len() {
                return Err(CommandError::WrongArity(owned("SET")));
            }
            assert(opts[i + 1] == bytes_view(args@[i + 1]));
            let secs = match parse_i64(&*args[i + 1]) {
                Ok(n) => n,
                Err(e) => return Err(e),
            };
            if secs <= 0 {
                return Err(CommandError::InvalidArg("EX must be > 0"));
            }
            ttl = Some(Ttl::from_secs(secs as u64));
            i = i + 2;
        } else if is_name(&token, "PX") {
            if i + 1 >= args.len() {
                return Err(CommandError::WrongArity(owned("SET")));
            }
            assert(opts[i + 1] == bytes_view(args@[i + 1]));
            let ms = match parse_i64(&*args[i + 1]) {
                Ok(n) => n,
                Err(e) => return Err(e),
            };
            if ms <= 0 {
                return Err(CommandError::InvalidArg("PX must be > 0"));
            }
            ttl = Some(Ttl::from_millis(ms as u64));
            i = i + 2;
        } else if is_name(&token, "NX") {
            cond = SetCond::IfAbsent;
            i = i + 1;
        } else if is_name(&token, "XX") {
            cond = SetCond::IfExists;
            i = i + 1;
        } else {
            return Err(CommandError::InvalidArg("unknown SET option"));
        }
    }
    Ok((ttl, cond))
}

fn parse_set(mut args: Vec<Bytes>) -> (r: Result<Command, CommandError>)
    ensures
        match set_spec(bytes_seq(args@)) {
            Ok(m) => r matches Ok(c) && c.model() == m,
            Err(f) => r matches Err(e) && e.fault() == f,
        },
{
    if args.len() < 2 {
        return Err(CommandError::WrongArity(owned("SET")));
    }
    let ghost all = bytes_seq(args@);
    let key = args.remove(0);
    let value = args.remove(0);
    assert(bytes_seq(args@) =~= all.subrange(2, all.len() as int));
    let (ttl, cond) = match set_option_loop(&args) {
        Ok(o) => o,
        Err(e) => return Err(e),
    };
    Ok(Command::SetKey { key, value, ttl, cond })
}

/// The payloads of the items, when all are non-null bulk strings.
fn bulk_items(items: &Vec<RespValue>) -> (r: Option<Vec<Bytes>>)
    ensures
        match bulk_args(items@.map_values(|v: RespValue| v.model())) {
            Some(args) => r matches Some(b) && bytes_seq(b@) == args,
            None => r is None,
        },
{
    let ghost ms = items@.map_values(|v: RespValue| v.model());
    let mut bulks: Vec<Bytes> = Vec::new();
    let mut i: usize = 0;
    while i < items.len()
        invariant
            i <= items.len(),
            bulks.len() == i,
            ms == items@.map_values(|v: RespValue| v.model()),
            forall|j: int| 0 <= j < i ==> ((#[trigger] ms[j]) matches RespModel::Bulk(Some(b))
                && b == bytes_view(bulks[j])),
        decreases items.len() - i,
    {
        assert(ms[i as int] == items[i as int].model());
        match &items[i] {
            RespValue::BulkString(Some(b)) => {
                bulks.push(b.clone());
            },
            _ => {
                assert(!(ms[i as int] matches RespModel::Bulk(Some(_))));
                return None;
            },
        }
        i = i + 1;
    }
    assert(Seq::new(ms.len(), |j: int| ms[j]->Bulk_0->Some_0) =~= bytes_seq(bulks@));
    Some(bulks)
}

/// Reads a command from a RESP value: an array of bulk strings whose first
/// item names the command (in any ASCII case) and the rest are its arguments.
pub fn parse_command(value: RespValue) -> (r: Result<Command, CommandError>)
    ensures
        match command_of(value.model()) {
            Ok(m) => r matches Ok(c) && c.model() == m,
            Err(f) => r matches Err(e) && e.fault() == f,
        },
{
    let ghost vm = value.model();
    let items = match value {
        RespValue::Array(Some(items)) => items,
        _ => return Err(CommandError::BadFraming),
    };
    assert(vm->Array_0->Some_0 =~= items@.map_values(|v: RespValue| v.model()));
    let mut bulks = match bulk_items(&items) {
        Some(b) => b,
        None => return Err(CommandError::BadFraming),
    };
    let ghost args = bytes_seq(bulks@);
    if bulks.len() == 0 {
        return Err(CommandError::BadFraming);
    }
    let cmd_name = match upper_name(&*bulks[0]) {
        Some(n) => n,
        None => return Err(CommandError::BadFraming),
    };
    proof {
        vstd::utf8::encode_utf8_decode_utf8(cmd_name@);
    }
    let _ = bulks.remove(0);
    let ghost rest = bytes_seq(bulks@);
    assert(rest =~= args.drop_first());
    if is_name(&cmd_name, "PING") {
        if bulks.len() == 0 {
            Ok(Command::Ping(None))
        } else if bulks.len() == 1 {
            Ok(Command::Ping(Some(bulks.remove(0))))
        } else {
            Err(CommandError::WrongArity(owned("PING")))
        }
    } else if is_name(&cmd_name, "ECHO") {
        if bulks.len() != 1 {
            return Err(CommandError::WrongArity(owned("ECHO")));
        }
        Ok(Command::Echo(bulks.remove(0)))
    } else if is_name(&cmd_name, "GET") {
        if bulks.len() != 1 {
            return Err(CommandError::WrongArity(owned("GET")));
        }
        Ok(Command::Get(bulks.remove(0)))
    } else if is_name(&cmd_name, "SET") {
        parse_set(bulks)
    } else if is_name(&cmd_name, "DEL") {
        if bulks.len() == 0 {
            return Err(CommandError::WrongArity(owned("DEL")));
        }
        Ok(Command::Del(bulks))
    } else if is_name(&cmd_name, "EXISTS") {
        if bulks.len() == 0 {
            return Err(CommandError::WrongArity(owned("EXISTS")));
        }
        Ok(Command::Exists(bulks))
    } else if is_name(&cmd_name, "INCR") {
        if bulks.len() != 1 {
            return Err(CommandError::WrongArity(owned("INCR")));
        }
        Ok(Command::Incr(bulks.remove(0)))
    } else if is_name(&cmd_name, "DECR") {
        if bulks.len() != 1 {
            return Err(CommandError::WrongArity(owned("DECR")));
        }
        Ok(Command::Decr(bulks.remove(0)))
    } else if is_name(&cmd_name, "EXPIRE") {
        if bulks.len() != 2 {
            return Err(CommandError::WrongArity(owned("EXPIRE")));
        }
        let secs = match parse_i64(&*bulks[1]) {
            Ok(n) => n,
            Err(e) => return Err(e),
        };
        if secs < 0 {
            return Err(CommandError::InvalidArg("seconds must be >= 0"));
        }
        Ok(Command::Expire { key: bulks.remove(0), ttl: Ttl::from_secs(secs as u64) })
    } else if is_name(&cmd_name, "TTL") {
        if bulks.len() != 1 {
            return Err(CommandError::WrongArity(owned("TTL")));
        }
        Ok(Command::Ttl(bulks.remove(0)))
    } else if is_name(&cmd_name, "KEYS") {
        if bulks.len() != 1 {
            return Err(CommandError::WrongArity(owned("KEYS")));
        }
        Ok(Command::Keys(bulks.remove(0)))
    } else if is_name(&cmd_name, "INFO") {
        Ok(Command::Info)
    } else if is_name(&cmd_name, "REPLICAOF") {
        if bulks.len() != 2 {
            return Err(CommandError::WrongArity(owned("REPLICAOF")));
        }
        let host_str = match str_from_utf8(&*bulks[0]) {
            Some(h) => h,
            None => return Err(CommandError::InvalidArg("host")),
        };
        let host = host_str.to_string();
        proof {
            vstd::string::to_string_from_display_ensures_for_str(host_str, host);
            vstd::utf8::encode_utf8_decode_utf8(host_str@);
        }
        let port_str = match str_from_utf8(&*bulks[1]) {
            Some(p) => p,
            None => return Err(CommandError::InvalidArg("port")),
        };
        if eq_ignore_ascii_case(host.as_str().as_bytes(), "NO".as_bytes()) && eq_ignore_ascii_case(
            port_str.as_bytes(),
            "ONE".as_bytes(),
        ) {
            return Ok(Command::ReplicaOf(None));
        }
        let port = match u16_from_ascii(port_str.as_bytes()) {
            Some(p) => p,
            None => return Err(CommandError::InvalidArg("port not u16")),
        };
        Ok(Command::ReplicaOf(Some((host, port))))
    } else {
        Err(CommandError::Unknown(cmd_name))
    }
}

} // verus!
