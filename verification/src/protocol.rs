//! The line protocol and the per-connection state machine.
//!
//! A command line is split into at most three tokens on spaces: a
//! case-insensitive verb, a key or query, and for `SET` a value that keeps
//! its embedded spaces. Every command yields exactly one response line; a
//! malformed command yields an error response and keeps the connection
//! open; `QUIT` closes it.

use vstd::prelude::*;
use vstd::string::StrSliceExecFns;
use vstd::string::StringExecFns;
use crate::store::KvStore;
use crate::store::spec_lookup;
use crate::store::spec_search;
use crate::store::spec_set;

verus! {

/// Index of the first space in `s`, or `s.len()` when there is none.
pub open spec fn find_space(s: Seq<char>) -> int
    decreases s.len(),
{
    if s.len() == 0 {
        0
    } else if s[0] == ' ' {
        0
    } else {
        1 + find_space(s.drop_first())
    }
}

/// `find_space` is in range, lands on a space unless there is none, and
/// nothing before it is a space.
pub proof fn lemma_find_space(s: Seq<char>)
    ensures
        0 <= find_space(s) <= s.len(),
        find_space(s) < s.len() ==> s[find_space(s)] == ' ',
        forall|j: int| 0 <= j < find_space(s) ==> s[j] != ' ',
    decreases s.len(),
{
    if s.len() > 0 && s[0] != ' ' {
        let d = s.drop_first();
        lemma_find_space(d);
        assert(forall|j: int| 0 <= j < d.len() ==> #[trigger] d[j] == s[j + 1]);
        assert forall|j: int| 0 <= j < find_space(s) implies s[j] != ' ' by {
            if j >= 1 {
                assert(s[j] == d[j - 1]);
            }
        }
    }
}

/// Any in-range position that lands on a space, or equals the length, with
/// no space before it, is exactly `find_space`.
pub proof fn lemma_find_space_char(s: Seq<char>, m: int)
    requires
        0 <= m <= s.len(),
        m < s.len() ==> s[m] == ' ',
        forall|j: int| 0 <= j < m ==> s[j] != ' ',
    ensures
        m == find_space(s),
{
    lemma_find_space(s);
    let f = find_space(s);
    if m < f {
        assert(s[m] != ' ');
    }
    if f < m {
        assert(s[f] != ' ');
    }
}

/// Finds the first space of a line, or its end.
pub fn first_space(s: &str) -> (i: usize)
    ensures
        i as int == find_space(s@),
        0 <= i <= s@.len(),
{
    let n = s.unicode_len();
    let mut i: usize = 0;
    while i < n
        invariant
            n == s@.len(),
            0 <= i <= n,
            forall|j: int| 0 <= j < i ==> s@[j] != ' ',
        decreases n - i,
    {
        if s.get_char(i) == ' ' {
            proof {
                lemma_find_space_char(s@, i as int);
            }
            return i;
        }
        i = i + 1;
    }
    proof {
        lemma_find_space_char(s@, n as int);
    }
    n
}

/// A parsed command, as character sequences.
pub enum SpecCommand {
    Get { key: Seq<char> },
    Store { key: Seq<char>, value: Seq<char> },
    Search { query: Seq<char> },
    Quit,
}

/// A parsed command.
pub enum Command {
    Get { key: String },
    Store { key: String, value: String },
    Search { query: String },
    Quit,
}

impl View for Command {
    type V = SpecCommand;

    open spec fn view(&self) -> SpecCommand {
        match self {
            Command::Get { key } => SpecCommand::Get { key: key@ },
            Command::Store { key, value } => SpecCommand::Store { key: key@, value: value@ },
            Command::Search { query } => SpecCommand::Search { query: query@ },
            Command::Quit => SpecCommand::Quit,
        }
    }
}

/// Why a command line was rejected. The connection stays open in every
/// case.
#[derive(Clone, Copy, Debug, PartialEq, Eq, Structural)]
pub enum ProtocolError {
    /// A lookup verb with no key token after it.
    MissingKey,
    /// A store verb with no key or no value after it.
    MissingKeyOrValue,
    /// A search verb with no query token after it.
    MissingQuery,
    /// The verb is none of the known commands.
    UnknownCommand,
}

/// The reason text sent after `-ERR`.
pub open spec fn spec_error_msg(e: ProtocolError) -> Seq<char> {
    match e {
        ProtocolError::MissingKey => "missing key"@,
        ProtocolError::MissingKeyOrValue => "missing key or value"@,
        ProtocolError::MissingQuery => "missing query"@,
        ProtocolError::UnknownCommand => "unknown command"@,
    }
}

impl ProtocolError {
    /// The reason text sent after `-ERR`.
    pub fn message(&self) -> (m: &'static str)
        ensures
            m@ == spec_error_msg(*self),
    {
        match self {
            ProtocolError::MissingKey => "missing key",
            ProtocolError::MissingKeyOrValue => "missing key or value",
            ProtocolError::MissingQuery => "missing query",
            ProtocolError::UnknownCommand => "unknown command",
        }
    }
}

/// The verb `GET`, in any mix of upper and lower case.
pub open spec fn is_get_verb(v: Seq<char>) -> bool {
    &&& v.len() == 3
    &&& (v[0] == 'G' || v[0] == 'g')
    &&& (v[1] == 'E' || v[1] == 'e')
    &&& (v[2] == 'T' || v[2] == 't')
}

/// The verb `SET`, in any mix of upper and lower case.
pub open spec fn is_set_verb(v: Seq<char>) -> bool {
    &&& v.len() == 3
    &&& (v[0] == 'S' || v[0] == 's')
    &&& (v[1] == 'E' || v[1] == 'e')
    &&& (v[2] == 'T' || v[2] == 't')
}

/// The verb `SEARCH`, in any mix of upper and lower case.
pub open spec fn is_search_verb(v: Seq<char>) -> bool {
    &&& v.len() == 6
    &&& (v[0] == 'S' || v[0] == 's')
    &&& (v[1] == 'E' || v[1] == 'e')
    &&& (v[2] == 'A' || v[2] == 'a')
    &&& (v[3] == 'R' || v[3] == 'r')
    &&& (v[4] == 'C' || v[4] == 'c')
    &&& (v[5] == 'H' || v[5] == 'h')
}

/// The verb `QUIT`, in any mix of upper and lower case.
pub open spec fn is_quit_verb(v: Seq<char>) -> bool {
    &&& v.len() == 4
    &&& (v[0] == 'Q' || v[0] == 'q')
    &&& (v[1] == 'U' || v[1] == 'u')
    &&& (v[2] == 'I' || v[2] == 'i')
    &&& (v[3] == 'T' || v[3] == 't')
}

/// How a command line parses: the verb is the text before the first space;
/// `GET` and `SEARCH` take the following token (anything after a further
/// space is ignored); `SET` takes the following token as key and everything
/// after the next space, embedded spaces included, as value; `QUIT` takes
/// nothing. A missing required token rejects the line; so does an unknown
/// verb.
pub open spec fn spec_parse(line: Seq<char>) -> Result<SpecCommand, ProtocolError> {
    let i = find_space(line);
    let verb = line.subrange(0, i);
    if is_get_verb(verb) {
        if i < line.len() {
            let rest = line.subrange(i + 1, line.len() as int);
            Ok(SpecCommand::Get { key: rest.subrange(0, find_space(rest)) })
        } else {
            Err(ProtocolError::MissingKey)
        }
    } else if is_set_verb(verb) {
        if i < line.len() {
            let rest = line.subrange(i + 1, line.len() as int);
            let j = find_space(rest);
            if j < rest.len() {
                Ok(
                    SpecCommand::Store {
                        key: rest.subrange(0, j),
                        value: rest.subrange(j + 1, rest.len() as int),
                    },
                )
            } else {
                Err(ProtocolError::MissingKeyOrValue)
            }
        } else {
            Err(ProtocolError::MissingKeyOrValue)
        }
    } else if is_search_verb(verb) {
        if i < line.len() {
            let rest = line.subrange(i + 1, line.len() as int);
            Ok(SpecCommand::Search { query: rest.subrange(0, find_space(rest)) })
        } else {
            Err(ProtocolError::MissingQuery)
        }
    } else if is_quit_verb(verb) {
        Ok(SpecCommand::Quit)
    } else {
        Err(ProtocolError::UnknownCommand)
    }
}

fn verb_is_get(v: &str) -> (r: bool)
    ensures
        r == is_get_verb(v@),
{
    if v.unicode_len() != 3 {
        return false;
    }
    let c0 = v.get_char(0);
    let c1 = v.get_char(1);
    let c2 = v.get_char(2);
    (c0 == 'G' || c0 == 'g') && (c1 == 'E' || c1 == 'e') && (c2 == 'T' || c2 == 't')
}

fn verb_is_set(v: &str) -> (r: bool)
    ensures
        r == is_set_verb(v@),
{
    if v.unicode_len() != 3 {
        return false;
    }
    let c0 = v.get_char(0);
    let c1 = v.get_char(1);
    let c2 = v.get_char(2);
    (c0 == 'S' || c0 == 's') && (c1 == 'E' || c1 == 'e') && (c2 == 'T' || c2 == 't')
}

fn verb_is_search(v: &str) -> (r: bool)
    ensures
        r == is_search_verb(v@),
{
    if v.unicode_len() != 6 {
        return false;
    }
    let c0 = v.get_char(0);
    let c1 = v.get_char(1);
    let c2 = v.get_char(2);
    let c3 = v.get_char(3);
    let c4 = v.get_char(4);
    let c5 = v.get_char(5);
    (c0 == 'S' || c0 == 's') && (c1 == 'E' || c1 == 'e') && (c2 == 'A' || c2 == 'a') && (c3 == 'R'
        || c3 == 'r') && (c4 == 'C' || c4 == 'c') && (c5 == 'H' || c5 == 'h')
}

fn verb_is_quit(v: &str) -> (r: bool)
    ensures
        r == is_quit_verb(v@),
{
    if v.unicode_len() != 4 {
        return false;
    }
    let c0 = v.get_char(0);
    let c1 = v.get_char(1);
    let c2 = v.get_char(2);
    let c3 = v.get_char(3);
    (c0 == 'Q' || c0 == 'q') && (c1 == 'U' || c1 == 'u') && (c2 == 'I' || c2 == 'i') && (c3 == 'T'
        || c3 == 't')
}

/// Splits one command line into a command, or the error that the server
/// reports for it.
pub fn parse_command(line: &str) -> (r: Result<Command, ProtocolError>)
    ensures
        match r {
            Ok(c) => spec_parse(line@) == Ok::<SpecCommand, ProtocolError>(c@),
            Err(e) => spec_parse(line@) == Err::<SpecCommand, ProtocolError>(e),
        },
{
    let n = line.unicode_len();
    let i = first_space(line);
    let verb = line.substring_char(0, i);
    if verb_is_get(verb) {
        if i < n {
            let rest = line.substring_char(i + 1, n);
            let j = first_space(rest);
            let key = rest.substring_char(0, j).to_owned();
            Ok(Command::Get { key })
        } else {
            Err(ProtocolError::MissingKey)
        }
    } else if verb_is_set(verb) {
        if i < n {
            let rest = line.substring_char(i + 1, n);
            let j = first_space(rest);
            if j < rest.unicode_len() {
                let key = rest.substring_char(0, j).to_owned();
                let value = rest.substring_char(j + 1, rest.unicode_len()).to_owned();
                Ok(Command::Store { key, value })
            } else {
                Err(ProtocolError::MissingKeyOrValue)
            }
        } else {
            Err(ProtocolError::MissingKeyOrValue)
        }
    } else if verb_is_search(verb) {
        if i < n {
            let rest = line.substring_char(i + 1, n);
            let j = first_space(rest);
            let query = rest.substring_char(0, j).to_owned();
            Ok(Command::Search { query })
        } else {
            Err(ProtocolError::MissingQuery)
        }
    } else if verb_is_quit(verb) {
        Ok(Command::Quit)
    } else {
        Err(ProtocolError::UnknownCommand)
    }
}

/// The JSON text that serde_json produces for a list of strings.
pub uninterp spec fn json_of(items: Seq<Seq<char>>) -> Seq<char>;

/// Relies on serde_json::to_string to encode a vector of strings as a JSON
/// array of strings. For a vector of strings serialization cannot fail:
/// serde_json reports errors only for fallible Serialize implementations
/// and for maps with non-string keys.
#[verifier::external_body]
fn json_encode_strings(items: &Vec<String>) -> (r: String)
    ensures
        r@ == json_of(items.deep_view()),
{
    match serde_json::to_string(items) {
        Ok(s) => s,
        Err(_) => String::new(),
    }
}

/// The single response line for one command line over the given store
/// contents: found values and search reports behind `+`, the nil sigil
/// `$-1` for an absent key or an empty report, `+OK` for a store, `+BYE`
/// for quit, and `-ERR` with a reason for a rejected line.
pub open spec fn spec_response(es: Seq<(Seq<char>, Seq<char>)>, line: Seq<char>) -> Seq<char> {
    match spec_parse(line) {
        Ok(SpecCommand::Get { key }) => match spec_lookup(es, key) {
            Some(v) => "+"@ + v + "\r\n"@,
            None => "$-1\r\n"@,
        },
        Ok(SpecCommand::Store { key, value }) => "+OK\r\n"@,
        Ok(SpecCommand::Search { query }) => {
            let hits = spec_search(es, query);
            if hits.len() == 0 {
                "$-1\r\n"@
            } else {
                "+"@ + json_of(hits) + "\r\n"@
            }
        },
        Ok(SpecCommand::Quit) => "+BYE\r\n"@,
        Err(e) => "-ERR "@ + spec_error_msg(e) + "\r\n"@,
    }
}

/// What one command line leaves in the store: only `SET` changes it.
pub open spec fn spec_store_after(
    es: Seq<(Seq<char>, Seq<char>)>,
    line: Seq<char>,
) -> Seq<(Seq<char>, Seq<char>)> {
    match spec_parse(line) {
        Ok(SpecCommand::Store { key, value }) => spec_set(es, key, value),
        _ => es,
    }
}

/// Whether one command line closes the connection: only `QUIT` does.
pub open spec fn spec_closes(line: Seq<char>) -> bool {
    spec_parse(line) == Ok::<SpecCommand, ProtocolError>(SpecCommand::Quit)
}

/// Handles one command line against the store: returns the single response
/// line and whether the connection is to close. Exactly `SET` mutates the
/// store; a malformed line answers `-ERR` and keeps the connection open; a
/// missing key or an empty search report answers the nil sigil, never an
/// error.
pub fn handle_line(store: &mut KvStore, line: &str) -> (r: (String, bool))
    requires
        old(store).wf(),
    ensures
        final(store).wf(),
        final(store).view_entries() == spec_store_after(old(store).view_entries(), line@),
        r.0@ == spec_response(old(store).view_entries(), line@),
        r.1 == spec_closes(line@),
{
    match parse_command(line) {
        Ok(Command::Get { key }) => {
            match store.get(key.as_str()) {
                Some(v) => {
                    let mut resp = "+".to_owned();
                    resp.append(v.as_str());
                    resp.append("\r\n");
                    (resp, false)
                },
                None => ("$-1\r\n".to_owned(), false),
            }
        },
        Ok(Command::Store { key, value }) => {
            store.set(key, value);
            ("+OK\r\n".to_owned(), false)
        },
        Ok(Command::Search { query }) => {
            let hits = store.search(query.as_str());
            if hits.len() == 0 {
                proof {
                    assert(spec_search(store.view_entries(), query@).len() == 0);
                }
                ("$-1\r\n".to_owned(), false)
            } else {
                let json = json_encode_strings(&hits);
                let mut resp = "+".to_owned();
                resp.append(json.as_str());
                resp.append("\r\n");
                (resp, false)
            }
        },
        Ok(Command::Quit) => ("+BYE\r\n".to_owned(), true),
        Err(e) => {
            let mut resp = "-ERR ".to_owned();
            resp.append(e.message());
            resp.append("\r\n");
            (resp, false)
        },
    }
}

/// The search-response law: a line that parses as a search leaves the store
/// unchanged and keeps the connection open; its response is the nil sigil
/// exactly when no entry matches the query, and otherwise the JSON encoding
/// of the report, which holds exactly one formatted line per matching
/// entry.
pub proof fn lemma_search_response(es: Seq<(Seq<char>, Seq<char>)>, line: Seq<char>, q: Seq<char>)
    requires
        spec_parse(line) == Ok::<SpecCommand, ProtocolError>(SpecCommand::Search { query: q }),
    ensures
        spec_store_after(es, line) == es,
        !spec_closes(line),
        spec_search(es, q).len() == crate::store::spec_match_count(es, q),
        (forall|j: int| 0 <= j < es.len() ==> !crate::store::entry_matches(#[trigger] es[j], q))
            ==> spec_response(es, line) == "$-1\r\n"@,
        (exists|j: int| 0 <= j < es.len() && crate::store::entry_matches(#[trigger] es[j], q))
            ==> spec_response(es, line) == "+"@ + json_of(spec_search(es, q)) + "\r\n"@,
{
    crate::store::lemma_search_count(es, q);
}

/// The states of one connection: the one-time greeting, the command loop,
/// and the closed terminal state.
#[derive(Clone, Copy, Debug, PartialEq, Eq, Structural)]
pub enum ConnState {
    Greeting,
    CommandLoop,
    Closed,
}

/// The per-connection state machine. The caller performs the network reads
/// and writes; the session decides every transition and every byte of every
/// response.
pub struct Session {
    pub state: ConnState,
}

impl Session {
    /// A connection starts in the greeting state.
    pub fn new() -> (s: Session)
        ensures
            s.state == ConnState::Greeting,
    {
        Session { state: ConnState::Greeting }
    }

    /// The one-time outbound transition: emit the banner, enter the command
    /// loop.
    pub fn greet(&mut self) -> (banner: String)
        requires
            old(self).state == ConnState::Greeting,
        ensures
            final(self).state == ConnState::CommandLoop,
            banner@ == "+OK vdb 0.1\r\n"@,
    {
        self.state = ConnState::CommandLoop;
        "+OK vdb 0.1\r\n".to_owned()
    }

    /// Processes one received command line: exactly one response line comes
    /// back, the store changes only on `SET`, and only `QUIT` leaves the
    /// command loop.
    pub fn on_line(&mut self, store: &mut KvStore, line: &str) -> (resp: String)
        requires
            old(self).state == ConnState::CommandLoop,
            old(store).wf(),
        ensures
            final(store).wf(),
            final(store).view_entries() == spec_store_after(old(store).view_entries(), line@),
            resp@ == spec_response(old(store).view_entries(), line@),
            final(self).state == (if spec_closes(line@) {
                ConnState::Closed
            } else {
                ConnState::CommandLoop
            }),
    {
        let r = handle_line(store, line);
        if r.1 {
            self.state = ConnState::Closed;
        }
        r.0
    }

    /// A failed read (peer disconnect or I/O error) closes the connection
    /// without any response.
    pub fn on_read_error(&mut self)
        requires
            old(self).state == ConnState::CommandLoop,
        ensures
            final(self).state == ConnState::Closed,
    {
        self.state = ConnState::Closed;
    }

    /// Whether the connection has reached its terminal state.
    pub fn closed(&self) -> (b: bool)
        ensures
            b == (self.state == ConnState::Closed),
    {
        match self.state {
            ConnState::Closed => true,
            _ => false,
        }
    }
}

/// A response line as the reference client classifies it, by its leading
/// sigil. The line is taken without its terminator.
pub enum SpecReply {
    /// A `+` line: success, carrying the text after the sigil.
    Value { text: Seq<char> },
    /// The `$-1` nil line: no result, and not an error.
    Nil,
    /// Anything else, the `-ERR` lines included: an error, carried whole.
    Error { reason: Seq<char> },
}

/// A response line as the reference client classifies it.
pub enum ClientReply {
    Value { text: String },
    Nil,
    Error { reason: String },
}

impl View for ClientReply {
    type V = SpecReply;

    open spec fn view(&self) -> SpecReply {
        match self {
            ClientReply::Value { text } => SpecReply::Value { text: text@ },
            ClientReply::Nil => SpecReply::Nil,
            ClientReply::Error { reason } => SpecReply::Error { reason: reason@ },
        }
    }
}

/// How the client reads one response line (without its terminator): `$-1`
/// is nil, a leading `+` is success carrying the rest of the line, and
/// anything else is an error.
pub open spec fn spec_reply(line: Seq<char>) -> SpecReply {
    if line.len() >= 3 && line[0] == '$' && line[1] == '-' && line[2] == '1' {
        SpecReply::Nil
    } else if line.len() >= 1 && line[0] == '+' {
        SpecReply::Value { text: line.subrange(1, line.len() as int) }
    } else {
        SpecReply::Error { reason: line }
    }
}

/// Classifies one response line exactly as the server's protocol defines
/// it, so a client built on this function reproduces the wire rules.
pub fn parse_reply(line: &str) -> (r: ClientReply)
    ensures
        r@ == spec_reply(line@),
{
    let n = line.unicode_len();
    if n >= 3 && line.get_char(0) == '$' && line.get_char(1) == '-' && line.get_char(2) == '1' {
        ClientReply::Nil
    } else if n >= 1 && line.get_char(0) == '+' {
        ClientReply::Value { text: line.substring_char(1, n).to_owned() }
    } else {
        ClientReply::Error { reason: line.to_owned() }
    }
}

} // verus!
