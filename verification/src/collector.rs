//! Reading of cumulative procfs counters: `/proc/net/dev` interface rows,
//! the two-row protocol tables of `/proc/net/snmp` and `/proc/net/netstat`,
//! and the `TCP:` row of `/proc/net/sockstat`.
use vstd::prelude::*;
use vstd::string::StringExecFns;
use std::collections::VecDeque;
use crate::text::{
    chars_of, copy_range, has_prefix, lines, parse_decimal, parse_u64, same_chars, split_at_char, split_lines,
    split_words, split_once, starts_with, string_from_chars, string_views, trim, trimmed, views,
    words,
};

verus! {

broadcast use vstd::string::group_string_axioms;

#[verifier::external_type_specification]
#[verifier::external_body]
pub struct ExIoError(std::io::Error);

/// The raw cumulative counters of one collection.
#[derive(Debug, Clone, PartialEq, Eq, Structural)]
pub struct RawCounters {
    pub rx_bytes: u64,
    pub tx_bytes: u64,
    pub retransmitted_segments: u64,
    pub tcp_timeouts: u64,
    pub to_zero_window_advertisements: u64,
    pub from_zero_window_advertisements: u64,
    pub tcp_connections: u64,
}

/// Why a collection failed.
#[derive(Debug)]
pub enum CollectorError {
    Read(std::io::Error),
    Missing(String),
    Malformed(String),
    InvalidTimestamp,
    NonIncreasingTimestamp,
}

/// What a `CollectorError` says, with its message text.
pub enum CollectorFault {
    Read,
    Missing(Seq<char>),
    Malformed(Seq<char>),
    InvalidTimestamp,
    NonIncreasingTimestamp,
}

impl View for CollectorError {
    type V = CollectorFault;

    open spec fn view(&self) -> CollectorFault {
        match self {
            CollectorError::Read(_) => CollectorFault::Read,
            CollectorError::Missing(m) => CollectorFault::Missing(m@),
            CollectorError::Malformed(m) => CollectorFault::Malformed(m@),
            CollectorError::InvalidTimestamp => CollectorFault::InvalidTimestamp,
            CollectorError::NonIncreasingTimestamp => CollectorFault::NonIncreasingTimestamp,
        }
    }
}

impl CollectorError {
    /// The error's message, as the program reports it.
    pub fn message(&self) -> (m: String)
        ensures
            match self@ {
                CollectorFault::Read => m@.len() >= "cannot read proc data: "@.len()
                    && m@.subrange(0, "cannot read proc data: "@.len() as int) == "cannot read proc data: "@,
                CollectorFault::Missing(item) => m@ == "missing proc item: "@ + item,
                CollectorFault::Malformed(item) => m@ == "malformed proc data: "@ + item,
                CollectorFault::InvalidTimestamp => m@ == "timestamp must be finite"@,
                CollectorFault::NonIncreasingTimestamp => m@ == "timestamp must increase between samples"@,
            },
    {
        match self {
            CollectorError::Read(error) => {
                let mut m = String::from_str("cannot read proc data: ");
                let detail = error.to_string();
                let ghost head = m@;
                m.append(detail.as_str());
                assert(m@.subrange(0, head.len() as int) =~= head);
                m
            },
            CollectorError::Missing(item) => {
                let mut m = String::from_str("missing proc item: ");
                m.append(item.as_str());
                m
            },
            CollectorError::Malformed(item) => {
                let mut m = String::from_str("malformed proc data: ");
                m.append(item.as_str());
                m
            },
            CollectorError::InvalidTimestamp => String::from_str("timestamp must be finite"),
            CollectorError::NonIncreasingTimestamp => String::from_str("timestamp must increase between samples"),
        }
    }
}

/// A result with its error taken by its view.
pub open spec fn outcome<T>(r: Result<T, CollectorError>) -> Result<T, CollectorFault> {
    match r {
        Ok(v) => Ok(v),
        Err(e) => Err(e@),
    }
}

/// The `Debug` rendering of a string (`format!("{:?}", s)`): the text in
/// double quotes with special characters escaped.
pub uninterp spec fn debug_quoted(s: Seq<char>) -> Seq<char>;

/// Renders `cs` as `std`'s `Debug` for `str` does; the rendering is named by
/// `debug_quoted`, not spelled out.
#[verifier::external_body]
fn debug_string(cs: &Vec<char>) -> (r: String)
    ensures
        r@ == debug_quoted(cs@),
{
    let text: String = cs.iter().collect();
    format!("{:?}", text)
}

pub open spec fn invalid_counter_message(value: Seq<char>, context: Seq<char>) -> Seq<char> {
    "invalid counter "@ + debug_quoted(value) + " in "@ + context
}

/// A counter token read as `u64`, or the malformed-counter fault.
pub open spec fn counter_spec(value: Seq<char>, context: Seq<char>) -> Result<u64, CollectorFault> {
    match parse_u64(value) {
        Some(v) => Ok(v),
        None => Err(CollectorFault::Malformed(invalid_counter_message(value, context))),
    }
}

/// The error for a counter that does not parse, given the counter's `Debug`
/// rendering.
pub fn invalid_counter_error(quoted: String, context: &str) -> (e: CollectorError)
    ensures
        e@ == CollectorFault::Malformed("invalid counter "@ + quoted@ + " in "@ + context@),
{
    let mut message = String::from_str("invalid counter ");
    message.append(quoted.as_str());
    message.append(" in ");
    message.append(context);
    CollectorError::Malformed(message)
}

fn parse_counter_chars(value: &Vec<char>, context: &str) -> (r: Result<u64, CollectorError>)
    ensures
        outcome(r) == counter_spec(value@, context@),
{
    match parse_decimal(value) {
        Some(v) => Ok(v),
        None => Err(invalid_counter_error(debug_string(value), context)),
    }
}

/// Reads a cumulative counter (`str::parse::<u64>`); `context` names where it
/// came from in the error.
pub fn parse_counter(value: &str, context: &str) -> (r: Result<u64, CollectorError>)
    ensures
        outcome(r) == counter_spec(value@, context@),
{
    let cs = chars_of(value);
    parse_counter_chars(&cs, context)
}

/// The growth of a cumulative counter between two readings; a counter that
/// went backwards (a reset or wrap) contributes no growth.
pub fn counter_delta(current: u64, previous: u64) -> (d: u64)
    ensures
        d == if current >= previous { current - previous } else { 0 },
{
    current.saturating_sub(previous)
}

pub open spec fn missing_interface_message(interface: Seq<char>) -> Seq<char> {
    "interface "@ + interface
}

pub open spec fn short_interface_message(interface: Seq<char>) -> Seq<char> {
    "interface "@ + interface + " has fewer than 16 counters"@
}

/// The receive and transmit byte counters of `interface` from the lines of
/// `/proc/net/dev`, searching from line `i`: the first line with a `':'` whose
/// trimmed name is the interface must carry at least 16 counters; the 1st and
/// the 9th are read.
pub open spec fn net_dev_from(ls: Seq<Seq<char>>, interface: Seq<char>, i: int) -> Result<(u64, u64), CollectorFault>
    decreases ls.len() - i,
{
    if i < 0 || i >= ls.len() {
        Err(CollectorFault::Missing(missing_interface_message(interface)))
    } else {
        match split_once(ls[i], ':') {
            None => net_dev_from(ls, interface, i + 1),
            Some((name, values)) => if trim(name) != interface {
                net_dev_from(ls, interface, i + 1)
            } else {
                let fields = words(values);
                if fields.len() < 16 {
                    Err(CollectorFault::Malformed(short_interface_message(interface)))
                } else {
                    match counter_spec(fields[0], interface) {
                        Err(e) => Err(e),
                        Ok(rx) => match counter_spec(fields[8], interface) {
                            Err(e) => Err(e),
                            Ok(tx) => Ok((rx, tx)),
                        },
                    }
                }
            },
        }
    }
}

/// `(rx_bytes, tx_bytes)` of `interface` in the text of `/proc/net/dev`.
pub open spec fn net_dev(contents: Seq<char>, interface: Seq<char>) -> Result<(u64, u64), CollectorFault> {
    net_dev_from(lines(contents), interface, 0)
}

/// Reads the receive and transmit byte counters of `interface` from the text
/// of `/proc/net/dev`.
pub fn parse_net_dev(contents: &str, interface: &str) -> (r: Result<(u64, u64), CollectorError>)
    ensures
        outcome(r) == net_dev(contents@, interface@),
{
    let text = chars_of(contents);
    let name_wanted = chars_of(interface);
    let ls = split_lines(&text);
    let ghost lv = views(ls@);
    let mut i: usize = 0;
    while i < ls.len()
        invariant
            lv == views(ls@),
            lv == lines(contents@),
            name_wanted@ == interface@,
            i <= ls.len(),
            net_dev_from(lv, interface@, i as int) == net_dev(contents@, interface@),
        decreases ls.len() - i,
    {
        assert(lv[i as int] == ls[i as int]@);
        match split_at_char(&ls[i], ':') {
            None => {},
            Some((name, values)) => {
                let t = trimmed(&name);
                if same_chars(&t, &name_wanted) {
                    let fields = split_words(&values);
                    assert(views(fields@).len() == fields.len());
                    if fields.len() < 16 {
                        let mut message = String::from_str("interface ");
                        message.append(interface);
                        message.append(" has fewer than 16 counters");
                        return Err(CollectorError::Malformed(message));
                    }
                    assert(views(fields@)[0] == fields[0]@);
                    assert(views(fields@)[8] == fields[8]@);
                    let rx = match parse_counter_chars(&fields[0], interface) {
                        Ok(v) => v,
                        Err(e) => {
                            return Err(e);
                        },
                    };
                    let tx = match parse_counter_chars(&fields[8], interface) {
                        Ok(v) => v,
                        Err(e) => {
                            return Err(e);
                        },
                    };
                    return Ok((rx, tx));
                }
            },
        }
        i += 1;
    }
    let mut message = String::from_str("interface ");
    message.append(interface);
    Err(CollectorError::Missing(message))
}

/// The name/value pairs of a protocol table, in column order. A name that
/// occurs twice is looked up by its last occurrence.
#[derive(Debug, Clone)]
pub struct ProtocolTable {
    pub entries: Vec<(Vec<char>, Vec<char>)>,
}

impl View for ProtocolTable {
    type V = Seq<(Seq<char>, Seq<char>)>;

    open spec fn view(&self) -> Seq<(Seq<char>, Seq<char>)> {
        self.entries@.map_values(|e: (Vec<char>, Vec<char>)| (e.0@, e.1@))
    }
}

/// The value of the last pair named `name`: what a map built by inserting the
/// pairs in order holds for it.
pub open spec fn lookup(pairs: Seq<(Seq<char>, Seq<char>)>, name: Seq<char>) -> Option<Seq<char>>
    decreases pairs.len(),
{
    if pairs.len() == 0 {
        None
    } else if pairs.last().0 == name {
        Some(pairs.last().1)
    } else {
        lookup(pairs.drop_last(), name)
    }
}

/// Index of the first line at or after `i` that starts with `prefix`.
pub open spec fn first_prefixed_from(ls: Seq<Seq<char>>, prefix: Seq<char>, i: int) -> Option<int>
    decreases ls.len() - i,
{
    if i < 0 || i >= ls.len() {
        None
    } else if starts_with(ls[i], prefix) {
        Some(i)
    } else {
        first_prefixed_from(ls, prefix, i + 1)
    }
}

/// The words of a line after its first word.
pub open spec fn tail_words(line: Seq<char>) -> Seq<Seq<char>> {
    let w = words(line);
    if w.len() > 0 { w.drop_first() } else { w }
}

pub open spec fn protocol_message(protocol: Seq<char>, detail: Seq<char>) -> Seq<char> {
    "protocol "@ + protocol + detail
}

/// The table of `protocol` in the text of `/proc/net/snmp` or
/// `/proc/net/netstat`: the first line starting with `"{protocol}:"` holds the
/// names, the next line (with the same prefix) the values; the first word of
/// each is the prefix itself.
pub open spec fn protocol_table(contents: Seq<char>, protocol: Seq<char>) -> Result<Seq<(Seq<char>, Seq<char>)>, CollectorFault> {
    let ls = lines(contents);
    let prefix = protocol.push(':');
    match first_prefixed_from(ls, prefix, 0) {
        None => Err(CollectorFault::Missing(protocol_message(protocol, seq![]))),
        Some(i) => if i + 1 >= ls.len() {
            Err(CollectorFault::Malformed(protocol_message(protocol, " is missing its value row"@)))
        } else if !starts_with(ls[i + 1], prefix) {
            Err(CollectorFault::Malformed(protocol_message(protocol, " value row has the wrong prefix"@)))
        } else {
            let names = tail_words(ls[i]);
            let values = tail_words(ls[i + 1]);
            if names.len() != values.len() {
                Err(CollectorFault::Malformed(protocol_message(protocol, " header/value count differs"@)))
            } else {
                Ok(Seq::new(names.len(), |k: int| (names[k], values[k])))
            }
        }
    }
}

fn protocol_error(protocol: &str, detail: &str, missing: bool) -> (e: CollectorError)
    ensures
        missing ==> e@ == CollectorFault::Missing(protocol_message(protocol@, detail@)),
        !missing ==> e@ == CollectorFault::Malformed(protocol_message(protocol@, detail@)),
{
    let mut message = String::from_str("protocol ");
    message.append(protocol);
    message.append(detail);
    if missing {
        CollectorError::Missing(message)
    } else {
        CollectorError::Malformed(message)
    }
}

fn words_after_first(line: &Vec<char>) -> (w: Vec<Vec<char>>)
    ensures
        views(w@) == tail_words(line@),
{
    let mut all = split_words(line);
    if all.len() > 0 {
        let ghost before = views(all@);
        all.remove(0);
        assert(views(all@) =~= before.drop_first());
    }
    all
}

/// Reads the name/value table of `protocol` from the text of `/proc/net/snmp`
/// or `/proc/net/netstat`.
pub fn parse_protocol_table(contents: &str, protocol: &str) -> (r: Result<ProtocolTable, CollectorError>)
    ensures
        match r {
            Ok(t) => protocol_table(contents@, protocol@) == Ok::<_, CollectorFault>(t@),
            Err(e) => protocol_table(contents@, protocol@) == Err::<Seq<(Seq<char>, Seq<char>)>, _>(e@),
        },
{
    let text = chars_of(contents);
    let mut prefix = chars_of(protocol);
    prefix.push(':');
    let ls = split_lines(&text);
    let ghost lv = views(ls@);
    let mut i: usize = 0;
    while i < ls.len()
        invariant
            lv == views(ls@),
            lv == lines(contents@),
            prefix@ == protocol@.push(':'),
            i <= ls.len(),
            first_prefixed_from(lv, prefix@, i as int) == first_prefixed_from(lv, prefix@, 0),
        decreases ls.len() - i,
    {
        assert(lv[i as int] == ls[i as int]@);
        if has_prefix(&ls[i], &prefix) {
            if i + 1 >= ls.len() {
                return Err(protocol_error(protocol, " is missing its value row", false));
            }
            assert(lv[i + 1] == ls[i + 1]@);
            if !has_prefix(&ls[i + 1], &prefix) {
                return Err(protocol_error(protocol, " value row has the wrong prefix", false));
            }
            let names = words_after_first(&ls[i]);
            let values = words_after_first(&ls[i + 1]);
            if names.len() != values.len() {
                return Err(protocol_error(protocol, " header/value count differs", false));
            }
            let ghost nv = views(names@);
            let ghost vv = views(values@);
            let mut entries: Vec<(Vec<char>, Vec<char>)> = Vec::new();
            let mut k: usize = 0;
            while k < names.len()
                invariant
                    names.len() == values.len(),
                    nv == views(names@),
                    vv == views(values@),
                    k <= names.len(),
                    entries@.len() == k,
                    forall|q: int| 0 <= q < k ==> (#[trigger] entries@[q]).0@ == nv[q] && entries@[q].1@ == vv[q],
                decreases names.len() - k,
            {
                let name = copy_range(&names[k], 0, names[k].len());
                let value = copy_range(&values[k], 0, values[k].len());
                assert(name@ =~= nv[k as int]);
                assert(value@ =~= vv[k as int]);
                entries.push((name, value));
                k += 1;
            }
            let table = ProtocolTable { entries };
            assert(table@ =~= Seq::new(nv.len(), |q: int| (nv[q], vv[q])));
            return Ok(table);
        }
        i += 1;
    }
    let e = protocol_error(protocol, "", true);
    proof {
        reveal_strlit("");
        assert(protocol_message(protocol@, ""@) =~= protocol_message(protocol@, seq![]));
    }
    Err(e)
}

pub open spec fn missing_field_message(name: Seq<char>, protocol: Seq<char>) -> Seq<char> {
    protocol + "."@ + name
}

/// Counter `name` of a protocol table.
pub open spec fn field_spec(pairs: Seq<(Seq<char>, Seq<char>)>, name: Seq<char>, protocol: Seq<char>) -> Result<u64, CollectorFault> {
    match lookup(pairs, name) {
        None => Err(CollectorFault::Missing(missing_field_message(name, protocol))),
        Some(v) => counter_spec(v, protocol),
    }
}

/// Reads counter `name` of a protocol table; `protocol` names the table in
/// the error.
pub fn field(fields: &ProtocolTable, name: &str, protocol: &str) -> (r: Result<u64, CollectorError>)
    ensures
        outcome(r) == field_spec(fields@, name@, protocol@),
{
    let wanted = chars_of(name);
    let ghost pairs = fields@;
    let mut k = fields.entries.len();
    assert(pairs.take(k as int) =~= pairs);
    while k > 0
        invariant
            pairs == fields@,
            wanted@ == name@,
            k <= fields.entries.len(),
            lookup(pairs, name@) == lookup(pairs.take(k as int), name@),
        decreases k,
    {
        let ghost prefix = pairs.take(k as int);
        assert(prefix.last() == pairs[k - 1]);
        assert(prefix.drop_last() =~= pairs.take(k - 1));
        assert(pairs[k - 1] == (fields.entries[k - 1].0@, fields.entries[k - 1].1@));
        if same_chars(&fields.entries[k - 1].0, &wanted) {
            return parse_counter_chars(&fields.entries[k - 1].1, protocol);
        }
        k -= 1;
    }
    let mut message = String::new();
    message.append(protocol);
    message.append(".");
    message.append(name);
    assert(message@ =~= missing_field_message(name@, protocol@));
    Err(CollectorError::Missing(message))
}

/// Index of the first word at or after `k` that equals `key` and has a word
/// after it.
pub open spec fn first_key_from(f: Seq<Seq<char>>, key: Seq<char>, k: int) -> Option<int>
    decreases f.len() - k,
{
    if k < 0 || k + 1 >= f.len() {
        None
    } else if f[k] == key {
        Some(k)
    } else {
        first_key_from(f, key, k + 1)
    }
}

/// The sockets in use from the first `TCP:` line of `/proc/net/sockstat`: the
/// word after the first `inuse` that has a word after it.
pub open spec fn tcp_connections(contents: Seq<char>) -> Option<u64> {
    let ls = lines(contents);
    match first_prefixed_from(ls, "TCP:"@, 0) {
        None => None,
        Some(i) => {
            let f = words(ls[i]);
            match first_key_from(f, "inuse"@, 0) {
                None => None,
                Some(k) => parse_u64(f[k + 1]),
            }
        },
    }
}

/// Parses the system-wide number of TCP sockets currently in use from
/// `/proc/net/sockstat`. Unknown or malformed input is `None`, so the
/// collector can treat this optional counter as best-effort.
pub fn parse_tcp_connections(contents: &str) -> (r: Option<u64>)
    ensures
        r == tcp_connections(contents@),
{
    let text = chars_of(contents);
    let prefix = chars_of("TCP:");
    let key = chars_of("inuse");
    let ls = split_lines(&text);
    let ghost lv = views(ls@);
    let mut i: usize = 0;
    while i < ls.len()
        invariant
            lv == views(ls@),
            lv == lines(contents@),
            prefix@ == "TCP:"@,
            key@ == "inuse"@,
            i <= ls.len(),
            first_prefixed_from(lv, "TCP:"@, i as int) == first_prefixed_from(lv, "TCP:"@, 0),
        decreases ls.len() - i,
    {
        assert(lv[i as int] == ls[i as int]@);
        if has_prefix(&ls[i], &prefix) {
            let f = split_words(&ls[i]);
            let ghost fv = views(f@);
            let mut k: usize = 0;
            assert(first_prefixed_from(lv, "TCP:"@, 0) == Some(i as int));
            while k < f.len() && k + 1 < f.len()
                invariant
                    i < lv.len(),
                    lv == lines(contents@),
                    first_prefixed_from(lv, "TCP:"@, 0) == Some(i as int),
                    k <= f.len(),
                    fv == views(f@),
                    fv == words(lv[i as int]),
                    key@ == "inuse"@,
                    first_key_from(fv, "inuse"@, k as int) == first_key_from(fv, "inuse"@, 0),
                decreases f.len() - k,
            {
                assert(fv[k as int] == f[k as int]@);
                if same_chars(&f[k], &key) {
                    assert(fv[k + 1] == f[k + 1]@);
                    return parse_decimal(&f[k + 1]);
                }
                k += 1;
            }
            return None;
        }
        i += 1;
    }
    None
}

/// The counters of one collection, given the interface's byte counters, the
/// `Tcp` and `TcpExt` tables and the TCP socket count; the table counters are
/// read in the order retransmissions, timeouts, zero-window advertisements to
/// and from the peer, and the first that fails is the error.
pub open spec fn counters_spec(
    rx_tx: (u64, u64),
    snmp: Seq<(Seq<char>, Seq<char>)>,
    netstat: Seq<(Seq<char>, Seq<char>)>,
    tcp_connections: u64,
) -> Result<RawCounters, CollectorFault> {
    match field_spec(snmp, "RetransSegs"@, "Tcp"@) {
        Err(e) => Err(e),
        Ok(retransmitted_segments) => match field_spec(netstat, "TCPTimeouts"@, "TcpExt"@) {
            Err(e) => Err(e),
            Ok(tcp_timeouts) => match field_spec(netstat, "TCPToZeroWindowAdv"@, "TcpExt"@) {
                Err(e) => Err(e),
                Ok(to_zero_window_advertisements) => match field_spec(netstat, "TCPFromZeroWindowAdv"@, "TcpExt"@) {
                    Err(e) => Err(e),
                    Ok(from_zero_window_advertisements) => Ok(RawCounters {
                        rx_bytes: rx_tx.0,
                        tx_bytes: rx_tx.1,
                        retransmitted_segments,
                        tcp_timeouts,
                        to_zero_window_advertisements,
                        from_zero_window_advertisements,
                        tcp_connections,
                    }),
                },
            },
        },
    }
}

/// Assembles the counters of one collection from the parsed procfs tables.
pub fn counters_from_tables(
    rx_tx: (u64, u64),
    snmp: &ProtocolTable,
    netstat: &ProtocolTable,
    tcp_connections: u64,
) -> (r: Result<RawCounters, CollectorError>)
    ensures
        outcome(r) == counters_spec(rx_tx, snmp@, netstat@, tcp_connections),
{
    let retransmitted_segments = match field(snmp, "RetransSegs", "Tcp") {
        Ok(v) => v,
        Err(e) => {
            return Err(e);
        },
    };
    let tcp_timeouts = match field(netstat, "TCPTimeouts", "TcpExt") {
        Ok(v) => v,
        Err(e) => {
            return Err(e);
        },
    };
    let to_zero_window_advertisements = match field(netstat, "TCPToZeroWindowAdv", "TcpExt") {
        Ok(v) => v,
        Err(e) => {
            return Err(e);
        },
    };
    let from_zero_window_advertisements = match field(netstat, "TCPFromZeroWindowAdv", "TcpExt") {
        Ok(v) => v,
        Err(e) => {
            return Err(e);
        },
    };
    Ok(RawCounters {
        rx_bytes: rx_tx.0,
        tx_bytes: rx_tx.1,
        retransmitted_segments,
        tcp_timeouts,
        to_zero_window_advertisements,
        from_zero_window_advertisements,
        tcp_connections,
    })
}

/// `history` with `value` appended, keeping only the newest `limit` entries.
pub open spec fn bounded_push<T>(history: Seq<T>, value: T, limit: nat) -> Seq<T> {
    let s = history.push(value);
    if s.len() > limit {
        s.subrange(s.len() - limit, s.len() as int)
    } else {
        s
    }
}

/// Appends `value` and drops the oldest entries beyond `limit`.
pub fn push_bounded<T>(history: &mut VecDeque<T>, value: T, limit: usize)
    ensures
        final(history)@ == bounded_push(old(history)@, value, limit as nat),
{
    history.push_back(value);
    let ghost s = old(history)@.push(value);
    while history.len() > limit
        invariant
            s == old(history)@.push(value),
            history@.len() <= s.len(),
            history@ == s.subrange(s.len() - history@.len(), s.len() as int),
            history@.len() >= limit || history@ == s,
        decreases history@.len(),
    {
        let _ = history.pop_front();
    }
    assert(s.subrange(0, s.len() as int) =~= s);
}

/// The value words of `fping -C` output lines from line `i` on: on each line
/// with a `':'`, the words after the first `':'`.
pub open spec fn fping_words_from(ls: Seq<Seq<char>>, i: int) -> Seq<Seq<char>>
    decreases ls.len() - i,
{
    if i < 0 || i >= ls.len() {
        seq![]
    } else {
        let here = match split_once(ls[i], ':') {
            Some((_, values)) => words(values),
            None => seq![],
        };
        here + fping_words_from(ls, i + 1)
    }
}

/// The words of `fping -C` output that stand for round-trip times; turning
/// them into numbers (and dropping the `-` of lost probes) is the caller's.
pub fn fping_value_words(output: &str) -> (r: Vec<String>)
    ensures
        string_views(r@) == fping_words_from(lines(output@), 0),
{
    let text = chars_of(output);
    let ls = split_lines(&text);
    let ghost lv = views(ls@);
    let mut out: Vec<String> = Vec::new();
    let mut i: usize = 0;
    while i < ls.len()
        invariant
            lv == views(ls@),
            lv == lines(output@),
            i <= ls.len(),
            string_views(out@) + fping_words_from(lv, i as int) == fping_words_from(lv, 0),
        decreases ls.len() - i,
    {
        assert(lv[i as int] == ls[i as int]@);
        let ghost before = string_views(out@);
        match split_at_char(&ls[i], ':') {
            None => {
                assert(fping_words_from(lv, i as int) =~= fping_words_from(lv, i + 1));
            },
            Some((_, values)) => {
                let ws = split_words(&values);
                let ghost wv = views(ws@);
                let mut k: usize = 0;
                while k < ws.len()
                    invariant
                        wv == views(ws@),
                        k <= ws.len(),
                        string_views(out@) == before + wv.take(k as int),
                    decreases ws.len() - k,
                {
                    let w = string_from_chars(&ws[k]);
                    assert(wv[k as int] == ws[k as int]@);
                    assert(string_views(out@.push(w)) =~= string_views(out@).push(w@));
                    assert(wv.take(k + 1) =~= wv.take(k as int).push(wv[k as int]));
                    out.push(w);
                    k += 1;
                    assert(string_views(out@) =~= before + wv.take(k as int));
                }
                assert(wv.take(k as int) =~= wv);
                assert(before + wv + fping_words_from(lv, i + 1) =~= before + (wv + fping_words_from(lv, i + 1)));
            },
        }
        i += 1;
    }
    assert(string_views(out@) =~= fping_words_from(lv, 0));
    out
}

/// For each word of `ws` from index `i` on that starts with `cwnd:`, the rest
/// of the word.
pub open spec fn cwnd_words_from(ws: Seq<Seq<char>>, i: int) -> Seq<Seq<char>>
    decreases ws.len() - i,
{
    if i < 0 || i >= ws.len() {
        seq![]
    } else {
        let here = if starts_with(ws[i], "cwnd:"@) {
            seq![ws[i].subrange("cwnd:"@.len() as int, ws[i].len() as int)]
        } else {
            seq![]
        };
        here + cwnd_words_from(ws, i + 1)
    }
}

/// The congestion-window values of `ss -ti` output, as written after each
/// `cwnd:`; turning them into numbers is the caller's.
pub fn cwnd_value_words(output: &str) -> (r: Vec<String>)
    ensures
        string_views(r@) == cwnd_words_from(words(output@), 0),
{
    let text = chars_of(output);
    let prefix = chars_of("cwnd:");
    let ws = split_words(&text);
    let ghost wv = views(ws@);
    let mut out: Vec<String> = Vec::new();
    let mut i: usize = 0;
    while i < ws.len()
        invariant
            wv == views(ws@),
            wv == words(output@),
            prefix@ == "cwnd:"@,
            i <= ws.len(),
            string_views(out@) + cwnd_words_from(wv, i as int) == cwnd_words_from(wv, 0),
        decreases ws.len() - i,
    {
        assert(wv[i as int] == ws[i as int]@);
        if has_prefix(&ws[i], &prefix) {
            let rest = copy_range(&ws[i], prefix.len(), ws[i].len());
            let w = string_from_chars(&rest);
            proof {
                assert(string_views(out@.push(w)) =~= string_views(out@).push(w@));
            }
            out.push(w);
        } else {
            assert(cwnd_words_from(wv, i as int) =~= cwnd_words_from(wv, i + 1));
        }
        i += 1;
    }
    assert(string_views(out@) =~= cwnd_words_from(wv, 0));
    out
}

/// The newest `limit` of `values` (all of them when there are fewer).
pub open spec fn newest<T>(values: Seq<T>, limit: nat) -> Seq<T> {
    if values.len() > limit {
        values.subrange(values.len() - limit, values.len() as int)
    } else {
        values
    }
}

/// `history` after bounded pushes of `values`, in order.
pub open spec fn bounded_pushes<T>(history: Seq<T>, values: Seq<T>, limit: nat) -> Seq<T>
    decreases values.len(),
{
    if values.len() == 0 {
        history
    } else {
        bounded_push(bounded_pushes(history, values.drop_last(), limit), values.last(), limit)
    }
}

/// The bounded-history law: pushing values one by one into an empty history
/// that keeps `limit` entries leaves exactly the newest `limit` values, oldest
/// first; with a positive limit the newest entry is the last value pushed.
pub proof fn lemma_bounded_history<T>(values: Seq<T>, limit: nat)
    ensures
        bounded_pushes(Seq::<T>::empty(), values, limit) == newest(values, limit),
        limit > 0 && values.len() > 0 ==> bounded_pushes(Seq::<T>::empty(), values, limit).last() == values.last(),
    decreases values.len(),
{
    if values.len() > 0 {
        let prev = values.drop_last();
        lemma_bounded_history(prev, limit);
        let x = values.last();
        let h = newest(prev, limit);
        let s = h.push(x);
        assert(prev.push(x) =~= values);
        if s.len() > limit {
            assert(s.subrange(s.len() - limit, s.len() as int) =~= newest(values, limit));
        } else {
            assert(s =~= newest(values, limit));
        }
    } else {
        assert(newest(values, limit) =~= Seq::<T>::empty());
    }
}

/// `line` is an interface row of `interface`: it has a `':'` and the text
/// before the first `':'`, trimmed, is the interface name.
pub open spec fn names_interface(line: Seq<char>, interface: Seq<char>) -> bool {
    match split_once(line, ':') {
        Some((name, _)) => trim(name) == interface,
        None => false,
    }
}

/// The counter words of an interface row: the words after its first `':'`.
pub open spec fn row_counters(line: Seq<char>) -> Seq<Seq<char>> {
    match split_once(line, ':') {
        Some((_, values)) => words(values),
        None => seq![],
    }
}

proof fn lemma_net_dev_skip(ls: Seq<Seq<char>>, interface: Seq<char>, i: int, j: int)
    requires
        0 <= i <= j <= ls.len(),
        forall|k: int| i <= k < j ==> !names_interface(#[trigger] ls[k], interface),
    ensures
        net_dev_from(ls, interface, i) == net_dev_from(ls, interface, j),
    decreases j - i,
{
    if i < j {
        lemma_net_dev_skip(ls, interface, i + 1, j);
        assert(!names_interface(ls[i], interface));
    }
}

/// Where the interface row sits does not matter: whatever lines come before
/// the first row of `interface`, a row with at least 16 counter words yields
/// its 1st and 9th counters (receive and transmit bytes), and the first of
/// them that is not a `u64` is the error.
pub proof fn lemma_net_dev_row(ls: Seq<Seq<char>>, interface: Seq<char>, i: int)
    requires
        0 <= i < ls.len(),
        forall|k: int| 0 <= k < i ==> !names_interface(#[trigger] ls[k], interface),
        names_interface(ls[i], interface),
        row_counters(ls[i]).len() >= 16,
    ensures
        parse_u64(row_counters(ls[i])[0]) matches Some(rx) ==> (parse_u64(row_counters(ls[i])[8]) matches Some(tx)
            ==> net_dev_from(ls, interface, 0) == Ok::<(u64, u64), CollectorFault>((rx, tx))),
        parse_u64(row_counters(ls[i])[0]) is None ==> net_dev_from(ls, interface, 0)
            == Err::<(u64, u64), CollectorFault>(CollectorFault::Malformed(invalid_counter_message(row_counters(ls[i])[0], interface))),
        parse_u64(row_counters(ls[i])[0]) is Some && parse_u64(row_counters(ls[i])[8]) is None ==> net_dev_from(ls, interface, 0)
            == Err::<(u64, u64), CollectorFault>(CollectorFault::Malformed(invalid_counter_message(row_counters(ls[i])[8], interface))),
{
    lemma_net_dev_skip(ls, interface, 0, i);
}

/// With no row of `interface` among the lines, the interface is missing.
pub proof fn lemma_net_dev_absent(ls: Seq<Seq<char>>, interface: Seq<char>)
    requires
        forall|k: int| 0 <= k < ls.len() ==> !names_interface(#[trigger] ls[k], interface),
    ensures
        net_dev_from(ls, interface, 0) == Err::<(u64, u64), CollectorFault>(
            CollectorFault::Missing("interface "@ + interface),
        ),
{
    lemma_net_dev_skip(ls, interface, 0, ls.len() as int);
}

/// On success a protocol table has one entry per column of the header row:
/// when the first line starting with `"{protocol}:"` is followed by a line
/// with the same prefix and the two have equally many words, the table pairs
/// the k-th name after the prefix with the k-th value, for every column.
pub proof fn lemma_protocol_table_columns(contents: Seq<char>, protocol: Seq<char>, i: int)
    requires
        0 <= i < lines(contents).len() - 1,
        forall|k: int| 0 <= k < i ==> !starts_with(#[trigger] lines(contents)[k], protocol.push(':')),
        starts_with(lines(contents)[i], protocol.push(':')),
        starts_with(lines(contents)[i + 1], protocol.push(':')),
        words(lines(contents)[i]).len() == words(lines(contents)[i + 1]).len(),
    ensures
        protocol_table(contents, protocol) matches Ok(t) && {
            let names = words(lines(contents)[i]);
            let values = words(lines(contents)[i + 1]);
            &&& t.len() + 1 == names.len()
            &&& forall|k: int| 0 <= k < t.len() ==> #[trigger] t[k] == (names[k + 1], values[k + 1])
        },
{
    let ls = lines(contents);
    let prefix = protocol.push(':');
    lemma_first_prefixed(ls, prefix, 0, i);
    // the header row starts with the non-empty prefix, so it has a first word
    lemma_prefixed_has_word(ls[i], prefix);
    lemma_prefixed_has_word(ls[i + 1], prefix);
}

proof fn lemma_first_prefixed(ls: Seq<Seq<char>>, prefix: Seq<char>, j: int, i: int)
    requires
        0 <= j <= i < ls.len(),
        forall|k: int| 0 <= k < i ==> !starts_with(#[trigger] ls[k], prefix),
        starts_with(ls[i], prefix),
    ensures
        first_prefixed_from(ls, prefix, j) == Some(i),
    decreases i - j,
{
    if j < i {
        lemma_first_prefixed(ls, prefix, j + 1, i);
    }
}

proof fn lemma_prefixed_has_word(line: Seq<char>, prefix: Seq<char>)
    requires
        starts_with(line, prefix),
        prefix.len() > 0,
        prefix.last() == ':',
    ensures
        words(line).len() > 0,
{
    let k = prefix.len() - 1;
    assert(line[k] == prefix[k]);
    lemma_has_word_from(line, 0, k);
}

proof fn lemma_has_word_from(x: Seq<char>, i: int, k: int)
    requires
        0 <= i <= k < x.len(),
        !crate::text::is_whitespace(x[k]),
    ensures
        crate::text::words_from(x, i).len() > 0,
    decreases k - i,
{
    if crate::text::is_whitespace(x[i]) {
        lemma_has_word_from(x, i + 1, k);
    }
}

/// Lookup finds a value for exactly the names that occur among the pairs.
pub proof fn lemma_lookup_finds(pairs: Seq<(Seq<char>, Seq<char>)>, name: Seq<char>)
    ensures
        (lookup(pairs, name) is Some) <==> (exists|k: int| 0 <= k < pairs.len() && (#[trigger] pairs[k]).0 == name),
        lookup(pairs, name) matches Some(v) ==> exists|k: int| 0 <= k < pairs.len() && #[trigger] pairs[k] == (name, v),
    decreases pairs.len(),
{
    if pairs.len() > 0 {
        let p = pairs.drop_last();
        lemma_lookup_finds(p, name);
        let n = pairs.len() - 1;
        assert forall|k: int| 0 <= k < p.len() implies #[trigger] p[k] == pairs[k] by {}
        if pairs.last().0 != name {
            if exists|k: int| 0 <= k < pairs.len() && (#[trigger] pairs[k]).0 == name {
                let k = choose|k: int| 0 <= k < pairs.len() && (#[trigger] pairs[k]).0 == name;
                assert(k < n);
                assert(p[k].0 == name);
            }
            if let Some(v) = lookup(p, name) {
                let k = choose|k: int| 0 <= k < p.len() && #[trigger] p[k] == (name, v);
                assert(pairs[k] == (name, v));
            }
        } else {
            assert(pairs[n] == (name, pairs.last().1));
        }
    }
}

proof fn lemma_fping_tail(ls: Seq<Seq<char>>, ms: Seq<Seq<char>>, i: int)
    requires
        ls.len() <= i,
    ensures
        fping_words_from(ls + ms, i) == fping_words_from(ms, i - ls.len()),
    decreases (ls + ms).len() - i,
{
    if i < (ls + ms).len() {
        lemma_fping_tail(ls, ms, i + 1);
        assert((ls + ms)[i] == ms[i - ls.len()]);
    }
}

proof fn lemma_fping_split(ls: Seq<Seq<char>>, ms: Seq<Seq<char>>, i: int)
    requires
        0 <= i <= ls.len(),
    ensures
        fping_words_from(ls + ms, i) == fping_words_from(ls, i) + fping_words_from(ms, 0),
    decreases ls.len() - i,
{
    if i == ls.len() {
        lemma_fping_tail(ls, ms, i);
        assert(fping_words_from(ls, i) =~= seq![]);
        assert(fping_words_from(ms, 0) =~= seq![] + fping_words_from(ms, 0));
    } else {
        lemma_fping_split(ls, ms, i + 1);
        assert((ls + ms)[i] == ls[i]);
        let here = match split_once(ls[i], ':') {
            Some((_, values)) => words(values),
            None => seq![],
        };
        assert(here + (fping_words_from(ls, i + 1) + fping_words_from(ms, 0))
            =~= (here + fping_words_from(ls, i + 1)) + fping_words_from(ms, 0));
    }
}

/// The words of `fping` output are gathered line by line: the words of two
/// runs of lines are the words of the first followed by those of the second,
/// and a single line gives the words after its first `':'` (none without one).
pub proof fn lemma_fping_words_by_line(ls: Seq<Seq<char>>, ms: Seq<Seq<char>>, line: Seq<char>)
    ensures
        fping_words_from(ls + ms, 0) == fping_words_from(ls, 0) + fping_words_from(ms, 0),
        fping_words_from(seq![line], 0) == row_counters(line),
{
    lemma_fping_split(ls, ms, 0);
    assert(fping_words_from(seq![line], 1) =~= seq![]);
    assert(row_counters(line) + seq![] =~= row_counters(line));
}

/// The rest of a word after `cwnd:`, as a one-entry sequence, or nothing.
pub open spec fn cwnd_rest(word: Seq<char>) -> Seq<Seq<char>> {
    if starts_with(word, "cwnd:"@) {
        seq![word.subrange("cwnd:"@.len() as int, word.len() as int)]
    } else {
        seq![]
    }
}

proof fn lemma_cwnd_tail(ws: Seq<Seq<char>>, vs: Seq<Seq<char>>, i: int)
    requires
        ws.len() <= i,
    ensures
        cwnd_words_from(ws + vs, i) == cwnd_words_from(vs, i - ws.len()),
    decreases (ws + vs).len() - i,
{
    if i < (ws + vs).len() {
        lemma_cwnd_tail(ws, vs, i + 1);
        assert((ws + vs)[i] == vs[i - ws.len()]);
    }
}

proof fn lemma_cwnd_split(ws: Seq<Seq<char>>, vs: Seq<Seq<char>>, i: int)
    requires
        0 <= i <= ws.len(),
    ensures
        cwnd_words_from(ws + vs, i) == cwnd_words_from(ws, i) + cwnd_words_from(vs, 0),
    decreases ws.len() - i,
{
    if i == ws.len() {
        lemma_cwnd_tail(ws, vs, i);
        assert(cwnd_words_from(ws, i) =~= seq![]);
        assert(cwnd_words_from(vs, 0) =~= seq![] + cwnd_words_from(vs, 0));
    } else {
        lemma_cwnd_split(ws, vs, i + 1);
        assert((ws + vs)[i] == ws[i]);
        let here = cwnd_rest(ws[i]);
        assert(here + (cwnd_words_from(ws, i + 1) + cwnd_words_from(vs, 0))
            =~= (here + cwnd_words_from(ws, i + 1)) + cwnd_words_from(vs, 0));
    }
}

/// Every `cwnd:` word counts, in order: the values of two runs of words are
/// the values of the first followed by those of the second, and a single word
/// gives its rest after `cwnd:` when it starts with `cwnd:` (nothing otherwise).
pub proof fn lemma_cwnd_words_by_word(ws: Seq<Seq<char>>, vs: Seq<Seq<char>>, word: Seq<char>)
    ensures
        cwnd_words_from(ws + vs, 0) == cwnd_words_from(ws, 0) + cwnd_words_from(vs, 0),
        cwnd_words_from(seq![word], 0) == cwnd_rest(word),
{
    lemma_cwnd_split(ws, vs, 0);
    assert(cwnd_words_from(seq![word], 1) =~= seq![]);
    assert(cwnd_rest(word) + seq![] =~= cwnd_rest(word));
}

/// A protocol table reads like a map filled column by column: a pair added
/// after the others decides its own name, and leaves every other name as it
/// was.
pub proof fn lemma_lookup_last_wins(pairs: Seq<(Seq<char>, Seq<char>)>, name: Seq<char>, value: Seq<char>, other: Seq<char>)
    ensures
        lookup(pairs.push((name, value)), name) == Some(value),
        other != name ==> lookup(pairs.push((name, value)), other) == lookup(pairs, other),
{
    assert(pairs.push((name, value)).drop_last() =~= pairs);
}

/// The socket count is the word after the first `inuse` of the first `TCP:`
/// line, wherever that line sits: when no earlier line starts with `TCP:` and
/// no earlier word of that line (with a word after it) is `inuse`, the count is
/// that next word read as a `u64`.
pub proof fn lemma_tcp_connections_found(contents: Seq<char>, i: int, k: int)
    requires
        0 <= i < lines(contents).len(),
        forall|q: int| 0 <= q < i ==> !starts_with(#[trigger] lines(contents)[q], "TCP:"@),
        starts_with(lines(contents)[i], "TCP:"@),
        0 <= k && k + 1 < words(lines(contents)[i]).len(),
        words(lines(contents)[i])[k] == "inuse"@,
        forall|q: int| 0 <= q < k ==> #[trigger] words(lines(contents)[i])[q] != "inuse"@,
    ensures
        tcp_connections(contents) == parse_u64(words(lines(contents)[i])[k + 1]),
{
    lemma_first_prefixed(lines(contents), "TCP:"@, 0, i);
    lemma_first_key(words(lines(contents)[i]), "inuse"@, 0, k);
}

proof fn lemma_first_key(f: Seq<Seq<char>>, key: Seq<char>, j: int, k: int)
    requires
        0 <= j <= k,
        k + 1 < f.len(),
        f[k] == key,
        forall|q: int| 0 <= q < k ==> #[trigger] f[q] != key,
    ensures
        first_key_from(f, key, j) == Some(k),
    decreases k - j,
{
    if j < k {
        lemma_first_key(f, key, j + 1, k);
    }
}

/// Each assembled counter is the named column of its table: retransmissions
/// from `Tcp`'s `RetransSegs`, timeouts and zero-window advertisements from
/// `TcpExt`'s `TCPTimeouts`, `TCPToZeroWindowAdv` and `TCPFromZeroWindowAdv`,
/// the byte counters and socket count as given; and when all four columns are
/// present and read as `u64`, assembling succeeds.
pub proof fn lemma_counters_columns(
    rx_tx: (u64, u64),
    snmp: Seq<(Seq<char>, Seq<char>)>,
    netstat: Seq<(Seq<char>, Seq<char>)>,
    tcp_connections: u64,
)
    ensures
        counters_spec(rx_tx, snmp, netstat, tcp_connections) matches Ok(c) ==> {
            &&& c.rx_bytes == rx_tx.0
            &&& c.tx_bytes == rx_tx.1
            &&& c.tcp_connections == tcp_connections
            &&& lookup(snmp, "RetransSegs"@) matches Some(v) && parse_u64(v) == Some(c.retransmitted_segments)
            &&& lookup(netstat, "TCPTimeouts"@) matches Some(v) && parse_u64(v) == Some(c.tcp_timeouts)
            &&& lookup(netstat, "TCPToZeroWindowAdv"@) matches Some(v) && parse_u64(v) == Some(c.to_zero_window_advertisements)
            &&& lookup(netstat, "TCPFromZeroWindowAdv"@) matches Some(v) && parse_u64(v) == Some(c.from_zero_window_advertisements)
        },
        (lookup(snmp, "RetransSegs"@) matches Some(v) && parse_u64(v) is Some)
            && (lookup(netstat, "TCPTimeouts"@) matches Some(v) && parse_u64(v) is Some)
            && (lookup(netstat, "TCPToZeroWindowAdv"@) matches Some(v) && parse_u64(v) is Some)
            && (lookup(netstat, "TCPFromZeroWindowAdv"@) matches Some(v) && parse_u64(v) is Some)
            ==> counters_spec(rx_tx, snmp, netstat, tcp_connections) is Ok,
{
}

} // verus!
