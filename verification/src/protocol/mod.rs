//! The line protocol between the shell plugin and the query process: frames
//! of tab-separated fields with escaped text.
use vstd::prelude::*;
use crate::number;
use crate::text;

verus! {

/// The way in which a session moves through its suggestions.
#[derive(Debug, Clone, Copy, PartialEq, Eq, Structural)]
pub enum CycleDirection {
    Next,
    Prev,
}

/// What the shell sends. A score travels as the floating-point literal that
/// stands in the frame.
#[derive(Debug, Clone, PartialEq, Eq)]
pub enum ClientMessage {
    Suggest {
        request_id: u64,
        buffer: String,
        cursor: usize,
        cwd: String,
        session_id: String,
        last_command: Option<String>,
    },
    Cycle { session_id: String, direction: CycleDirection },
    Feedback {
        command: String,
        source: String,
        score: String,
        accepted: bool,
        session_id: String,
    },
    Record {
        command: String,
        cwd: String,
        exit_code: i32,
        duration_ms: u64,
        session_id: String,
    },
}

/// What the query process answers.
#[derive(Debug, Clone, PartialEq, Eq)]
pub enum DaemonMessage {
    Suggestion {
        request_id: u64,
        candidate_count: usize,
        candidate_index: usize,
        source: String,
        score: String,
        text: String,
    },
    Ack { request_id: u64 },
    Error { message: String, request_id: u64 },
}

/// Why a frame was refused.
#[derive(Debug, Clone, PartialEq, Eq)]
pub struct ProtocolError {
    message: String,
}

/// The contents of a `ClientMessage`.
pub enum ClientView {
    Suggest {
        request_id: u64,
        buffer: Seq<char>,
        cursor: usize,
        cwd: Seq<char>,
        session_id: Seq<char>,
        last_command: Option<Seq<char>>,
    },
    Cycle { session_id: Seq<char>, direction: CycleDirection },
    Feedback {
        command: Seq<char>,
        source: Seq<char>,
        score: Seq<char>,
        accepted: bool,
        session_id: Seq<char>,
    },
    Record {
        command: Seq<char>,
        cwd: Seq<char>,
        exit_code: i32,
        duration_ms: u64,
        session_id: Seq<char>,
    },
}

/// The contents of a `DaemonMessage`.
pub enum DaemonView {
    Suggestion {
        request_id: u64,
        candidate_count: usize,
        candidate_index: usize,
        source: Seq<char>,
        score: Seq<char>,
        text: Seq<char>,
    },
    Ack { request_id: u64 },
    Error { message: Seq<char>, request_id: u64 },
}

impl View for ClientMessage {
    type V = ClientView;

    open spec fn view(&self) -> ClientView {
        match *self {
            ClientMessage::Suggest {
                request_id,
                buffer,
                cursor,
                cwd,
                session_id,
                last_command,
            } => ClientView::Suggest {
                request_id,
                buffer: buffer@,
                cursor,
                cwd: cwd@,
                session_id: session_id@,
                last_command: text::option_view(last_command),
            },
            ClientMessage::Cycle { session_id, direction } => ClientView::Cycle {
                session_id: session_id@,
                direction,
            },
            ClientMessage::Feedback { command, source, score, accepted, session_id } =>
            ClientView::Feedback {
                command: command@,
                source: source@,
                score: score@,
                accepted,
                session_id: session_id@,
            },
            ClientMessage::Record { command, cwd, exit_code, duration_ms, session_id } =>
            ClientView::Record {
                command: command@,
                cwd: cwd@,
                exit_code,
                duration_ms,
                session_id: session_id@,
            },
        }
    }
}

impl View for DaemonMessage {
    type V = DaemonView;

    open spec fn view(&self) -> DaemonView {
        match *self {
            DaemonMessage::Suggestion {
                request_id,
                candidate_count,
                candidate_index,
                source,
                score,
                text,
            } => DaemonView::Suggestion {
                request_id,
                candidate_count,
                candidate_index,
                source: source@,
                score: score@,
                text: text@,
            },
            DaemonMessage::Ack { request_id } => DaemonView::Ack { request_id },
            DaemonMessage::Error { message, request_id } => DaemonView::Error {
                message: message@,
                request_id,
            },
        }
    }
}

impl View for ProtocolError {
    type V = Seq<char>;

    closed spec fn view(&self) -> Seq<char> {
        self.message@
    }
}

impl ProtocolError {
    fn new(message: Vec<char>) -> (r: ProtocolError)
        ensures
            r@ == message@,
    {
        ProtocolError { message: text::string_of(&message) }
    }

    /// The reason as text.
    pub fn to_string(&self) -> (r: String)
        ensures
            r@ == self@,
    {
        self.message.clone()
    }
}

/// A parsed message, or the text of the reason why the frame was refused.
pub open spec fn client_result(r: Result<ClientMessage, ProtocolError>) -> Result<
    ClientView,
    Seq<char>,
> {
    match r {
        Ok(m) => Ok(m@),
        Err(e) => Err(e@),
    }
}

/// A parsed answer, or the text of the reason why the frame was refused.
pub open spec fn daemon_result(r: Result<DaemonMessage, ProtocolError>) -> Result<
    DaemonView,
    Seq<char>,
> {
    match r {
        Ok(m) => Ok(m@),
        Err(e) => Err(e@),
    }
}

// ---------------------------------------------------------------- escaping

/// How one character of a text field is written.
pub open spec fn escaped_char(c: char) -> Seq<char> {
    if c == '\\' {
        seq!['\\', '\\']
    } else if c == '\t' {
        seq!['\\', 't']
    } else if c == '\n' {
        seq!['\\', 'n']
    } else if c == '\r' {
        seq!['\\', 'r']
    } else {
        seq![c]
    }
}

/// How a text field is written.
pub open spec fn escape(s: Seq<char>) -> Seq<char>
    decreases s.len(),
{
    if s.len() == 0 {
        Seq::empty()
    } else {
        escaped_char(s[0]) + escape(s.skip(1))
    }
}

/// The character that a backslash followed by `c` stands for.
pub open spec fn unescaped_char(c: char) -> Option<char> {
    if c == '\\' {
        Some('\\')
    } else if c == 't' {
        Some('\t')
    } else if c == 'n' {
        Some('\n')
    } else if c == 'r' {
        Some('\r')
    } else {
        None
    }
}

/// What a written text field stands for, or why it stands for nothing.
pub open spec fn unescape(s: Seq<char>) -> Result<Seq<char>, Seq<char>>
    decreases s.len(),
{
    if s.len() == 0 {
        Ok(Seq::empty())
    } else if s[0] != '\\' {
        match unescape(s.skip(1)) {
            Ok(rest) => Ok(seq![s[0]] + rest),
            Err(e) => Err(e),
        }
    } else if s.len() == 1 {
        Err("unterminated escape sequence"@)
    } else {
        match unescaped_char(s[1]) {
            Some(c) => match unescape(s.skip(2)) {
                Ok(rest) => Ok(seq![c] + rest),
                Err(e) => Err(e),
            },
            None => Err("unsupported escape sequence: \\"@ + seq![s[1]]),
        }
    }
}

/// A written text field reads back as the text that was written, and holds no
/// tab, line feed or carriage return.
pub proof fn law_escape_roundtrip(s: Seq<char>)
    ensures
        unescape(escape(s)) == Ok::<Seq<char>, Seq<char>>(s),
        !escape(s).contains('\t'),
        !escape(s).contains('\n'),
        !escape(s).contains('\r'),
    decreases s.len(),
{
    if s.len() == 0 {
        assert(s =~= Seq::<char>::empty());
    } else {
        law_escape_roundtrip(s.skip(1));
        let rest = escape(s.skip(1));
        let e = escaped_char(s[0]);
        assert(seq![s[0]] + s.skip(1) =~= s);
        if e.len() == 2 {
            assert(escape(s).skip(2) =~= rest);
        } else {
            assert(escape(s).skip(1) =~= rest);
        }
        assert forall|c: char| c == '\t' || c == '\n' || c == '\r' implies !#[trigger] escape(
            s,
        ).contains(c) by {
            if escape(s).contains(c) {
                let i = choose|i: int| 0 <= i < escape(s).len() && escape(s)[i] == c;
                if i >= e.len() {
                    assert(rest[i - e.len()] == c);
                    assert(rest.contains(c));
                }
            }
        }
    }
}

/// Adds a text field as it is written.
pub fn escape_field_into(out: &mut String, value: &str)
    ensures
        final(out)@ == old(out)@ + escape(value@),
{
    let v = text::chars_of(value);
    let mut i: usize = 0;
    assert(v@.skip(0) =~= v@);
    assert(old(out)@ + escape(v@) == out@ + escape(v@.skip(0)));
    while i < v.len()
        invariant
            i <= v@.len(),
            v@ == value@,
            old(out)@ + escape(v@) == out@ + escape(v@.skip(i as int)),
        decreases v.len() - i,
    {
        let c = v[i];
        let ghost before = out@;
        if c == '\\' {
            out.push('\\');
            out.push('\\');
        } else if c == '\t' {
            out.push('\\');
            out.push('t');
        } else if c == '\n' {
            out.push('\\');
            out.push('n');
        } else if c == '\r' {
            out.push('\\');
            out.push('r');
        } else {
            out.push(c);
        }
        proof {
            assert(out@ =~= before + escaped_char(c));
            assert(v@.skip(i as int).skip(1) =~= v@.skip(i + 1));
            assert(out@ + escape(v@.skip(i + 1)) =~= before + (escaped_char(c) + escape(
                v@.skip(i + 1),
            )));
        }
        i += 1;
    }
    assert(v@.skip(i as int) =~= Seq::<char>::empty());
    assert(out@ + Seq::<char>::empty() =~= out@);
}

/// The text that a written text field stands for.
pub fn unescape_field(value: &str) -> (r: Result<String, ProtocolError>)
    ensures
        match r {
            Ok(s) => unescape(value@) == Ok::<Seq<char>, Seq<char>>(s@),
            Err(e) => unescape(value@) == Err::<Seq<char>, Seq<char>>(e@),
        },
{
    let v = text::chars_of(value);
    let mut out = String::new();
    let mut i: usize = 0;
    assert(v@.skip(0) =~= v@);
    proof {
        match unescape(v@) {
            Ok(rest) => {
                assert(out@ + rest =~= rest);
            },
            Err(e) => {},
        }
    }
    while i < v.len()
        invariant
            i <= v@.len(),
            v@ == value@,
            match unescape(v@.skip(i as int)) {
                Ok(rest) => unescape(v@) == Ok::<Seq<char>, Seq<char>>(out@ + rest),
                Err(e) => unescape(v@) == Err::<Seq<char>, Seq<char>>(e),
            },
        decreases v.len() - i,
    {
        let ghost rest = v@.skip(i as int);
        let ghost before = out@;
        let c = v[i];
        if c != '\\' {
            out.push(c);
            proof {
                assert(rest.skip(1) =~= v@.skip(i + 1));
                match unescape(v@.skip(i + 1)) {
                    Ok(tail) => {
                        assert(before + (seq![c] + tail) =~= before.push(c) + tail);
                    },
                    Err(e) => {},
                }
            }
            i += 1;
        } else if i + 1 == v.len() {
            return Err(ProtocolError::new(text::chars_of("unterminated escape sequence")));
        } else {
            let d = v[i + 1];
            assert(rest[1] == d);
            let plain = if d == '\\' {
                '\\'
            } else if d == 't' {
                '\t'
            } else if d == 'n' {
                '\n'
            } else if d == 'r' {
                '\r'
            } else {
                let mut message = text::chars_of("unsupported escape sequence: \\");
                message.push(d);
                proof {
                    assert(message@ =~= "unsupported escape sequence: \\"@ + seq![d]);
                }
                return Err(ProtocolError::new(message));
            };
            out.push(plain);
            proof {
                assert(rest.skip(2) =~= v@.skip(i + 2));
                match unescape(v@.skip(i + 2)) {
                    Ok(tail) => {
                        assert(before + (seq![plain] + tail) =~= before.push(plain) + tail);
                    },
                    Err(e) => {},
                }
            }
            i += 2;
        }
    }
    assert(v@.skip(i as int) =~= Seq::<char>::empty());
    assert(out@ + Seq::<char>::empty() =~= out@);
    Ok(out)
}

fn text_field(field: &Vec<char>) -> (r: Result<String, ProtocolError>)
    ensures
        match r {
            Ok(s) => unescape(field@) == Ok::<Seq<char>, Seq<char>>(s@),
            Err(e) => unescape(field@) == Err::<Seq<char>, Seq<char>>(e@),
        },
{
    let value = text::string_of(field);
    unescape_field(value.as_str())
}

// ---------------------------------------------------------------- encoding

/// The fields of a client frame.
pub open spec fn client_fields(m: ClientView) -> Seq<Seq<char>> {
    match m {
        ClientView::Suggest { request_id, buffer, cursor, cwd, session_id, last_command } => seq![
            "s"@,
            number::decimal(request_id as nat),
            number::decimal(cursor as nat),
            escape(session_id),
            escape(cwd),
            escape(buffer),
            match last_command {
                Some(command) => escape(command),
                None => Seq::empty(),
            },
        ],
        ClientView::Cycle { session_id, direction } => seq![
            "c"@,
            escape(session_id),
            direction_tag(direction),
        ],
        ClientView::Feedback { command, source, score, accepted, session_id } => seq![
            "f"@,
            if accepted {
                "1"@
            } else {
                "0"@
            },
            score,
            escape(session_id),
            escape(source),
            escape(command),
        ],
        ClientView::Record { command, cwd, exit_code, duration_ms, session_id } => seq![
            "r"@,
            number::signed_decimal(exit_code as int),
            number::decimal(duration_ms as nat),
            escape(session_id),
            escape(cwd),
            escape(command),
        ],
    }
}

/// The fields of an answer frame.
pub open spec fn daemon_fields(m: DaemonView) -> Seq<Seq<char>> {
    match m {
        DaemonView::Suggestion {
            request_id,
            candidate_count,
            candidate_index,
            source,
            score,
            text,
        } => seq![
            "s"@,
            number::decimal(request_id as nat),
            number::decimal(candidate_count as nat),
            number::decimal(candidate_index as nat),
            score,
            escape(source),
            escape(text),
        ],
        DaemonView::Ack { request_id } => seq!["a"@, number::decimal(request_id as nat)],
        DaemonView::Error { message, request_id } => seq![
            "e"@,
            number::decimal(request_id as nat),
            escape(message),
        ],
    }
}

/// How a direction is written.
pub open spec fn direction_tag(direction: CycleDirection) -> Seq<char> {
    match direction {
        CycleDirection::Next => "n"@,
        CycleDirection::Prev => "p"@,
    }
}

/// The fields with tabs between them.
pub open spec fn frame(fields: Seq<Seq<char>>) -> Seq<char> {
    text::join(fields, seq!['\t'])
}

/// The line of a client message.
pub open spec fn encode_client(m: ClientView) -> Seq<char> {
    frame(client_fields(m))
}

/// The line of an answer.
pub open spec fn encode_daemon(m: DaemonView) -> Seq<char> {
    frame(daemon_fields(m))
}

/// One more field at the end of a line that has been begun.
pub open spec fn appended(line: Seq<char>, field: Seq<char>) -> Seq<char> {
    if line.len() == 0 {
        field
    } else {
        line.push('\t') + field
    }
}

proof fn lemma_frame_push(fields: Seq<Seq<char>>, field: Seq<char>)
    requires
        fields.len() > 0,
        fields[0].len() > 0,
    ensures
        frame(fields).len() > 0,
        frame(fields.push(field)) == appended(frame(fields), field),
{
    text::lemma_join_push(fields, seq!['\t'], field);
    if fields.len() > 1 {
        assert(frame(fields).len() >= fields[0].len());
    }
    assert(frame(fields) + seq!['\t'] + field =~= frame(fields).push('\t') + field);
}

fn append_delimiter(line: &mut String)
    ensures
        final(line)@ == (if old(line)@.len() == 0 {
            old(line)@
        } else {
            old(line)@.push('\t')
        }),
{
    if !line.as_str().is_empty() {
        line.push('\t');
    }
}

fn append_tag(line: &mut String, tag: &str)
    ensures
        final(line)@ == appended(old(line)@, tag@),
{
    append_delimiter(line);
    line.append(tag);
    proof {
        assert(line@ =~= appended(old(line)@, tag@));
    }
}

fn append_escaped(line: &mut String, value: &str)
    ensures
        final(line)@ == appended(old(line)@, escape(value@)),
{
    append_delimiter(line);
    escape_field_into(line, value);
    proof {
        assert(line@ =~= appended(old(line)@, escape(value@)));
    }
}

fn append_numeric(line: &mut String, digits: &Vec<char>)
    ensures
        final(line)@ == appended(old(line)@, digits@),
{
    let field = text::string_of(digits);
    append_tag(line, field.as_str());
}

fn append_u64(line: &mut String, value: u64)
    ensures
        final(line)@ == appended(old(line)@, number::decimal(value as nat)),
{
    let digits = number::decimal_text(value);
    append_numeric(line, &digits);
}

fn append_usize(line: &mut String, value: usize)
    ensures
        final(line)@ == appended(old(line)@, number::decimal(value as nat)),
{
    append_u64(line, value as u64);
}

fn append_i32(line: &mut String, value: i32)
    ensures
        final(line)@ == appended(old(line)@, number::signed_decimal(value as int)),
{
    let digits = number::signed_decimal_text(value);
    append_numeric(line, &digits);
}

/// A frame is built field by field, from a first field that is not empty.
proof fn lemma_frame_take(fields: Seq<Seq<char>>)
    requires
        fields.len() > 0,
        fields[0].len() > 0,
    ensures
        frame(fields.take(1)) == appended(Seq::empty(), fields[0]),
        forall|j: int, k: int|
            #![trigger frame(fields.take(j)), frame(fields.take(k))]
            1 <= j < fields.len() && k == j + 1 ==> frame(fields.take(k)) == appended(
                frame(fields.take(j)),
                fields[j],
            ),
        frame(fields.take(fields.len() as int)) == frame(fields),
{
    assert(fields.take(1) =~= seq![fields[0]]);
    assert forall|j: int, k: int|
        #![trigger frame(fields.take(j)), frame(fields.take(k))]
        1 <= j < fields.len() && k == j + 1 implies frame(fields.take(k)) == appended(
        frame(fields.take(j)),
        fields[j],
    ) by {
        lemma_frame_push(fields.take(j), fields[j]);
        assert(fields.take(j).push(fields[j]) =~= fields.take(k));
    }
    assert(fields.take(fields.len() as int) =~= fields);
}

/// Writes a client message as one line.
pub fn encode_client_message(message: &ClientMessage) -> (line: String)
    ensures
        line@ == encode_client(message@),
{
    let mut line = String::new();
    let ghost f = client_fields(message@);
    proof {
        reveal_strlit("s");
        reveal_strlit("c");
        reveal_strlit("f");
        reveal_strlit("r");
        lemma_frame_take(f);
    }
    match message {
        ClientMessage::Suggest { request_id, buffer, cursor, cwd, session_id, last_command } => {
            append_tag(&mut line, "s");
            append_u64(&mut line, *request_id);
            assert(line@ == frame(f.take(2)));
            append_usize(&mut line, *cursor);
            assert(line@ == frame(f.take(3)));
            append_escaped(&mut line, session_id.as_str());
            assert(line@ == frame(f.take(4)));
            append_escaped(&mut line, cwd.as_str());
            assert(line@ == frame(f.take(5)));
            append_escaped(&mut line, buffer.as_str());
            assert(line@ == frame(f.take(6)));
            match last_command {
                Some(command) => append_escaped(&mut line, command.as_str()),
                None => {
                    proof {
                        reveal_strlit("");
                    }
                    append_tag(&mut line, "");
                    assert(""@ =~= Seq::<char>::empty());
                },
            }
            assert(line@ == frame(f.take(7)));
        },
        ClientMessage::Cycle { session_id, direction } => {
            append_tag(&mut line, "c");
            append_escaped(&mut line, session_id.as_str());
            assert(line@ == frame(f.take(2)));
            match direction {
                CycleDirection::Next => append_tag(&mut line, "n"),
                CycleDirection::Prev => append_tag(&mut line, "p"),
            }
            assert(line@ == frame(f.take(3)));
        },
        ClientMessage::Feedback { command, source, score, accepted, session_id } => {
            append_tag(&mut line, "f");
            if *accepted {
                append_tag(&mut line, "1");
            } else {
                append_tag(&mut line, "0");
            }
            assert(line@ == frame(f.take(2)));
            append_tag(&mut line, score.as_str());
            assert(line@ == frame(f.take(3)));
            append_escaped(&mut line, session_id.as_str());
            assert(line@ == frame(f.take(4)));
            append_escaped(&mut line, source.as_str());
            assert(line@ == frame(f.take(5)));
            append_escaped(&mut line, command.as_str());
            assert(line@ == frame(f.take(6)));
        },
        ClientMessage::Record { command, cwd, exit_code, duration_ms, session_id } => {
            append_tag(&mut line, "r");
            append_i32(&mut line, *exit_code);
            assert(line@ == frame(f.take(2)));
            append_u64(&mut line, *duration_ms);
            assert(line@ == frame(f.take(3)));
            append_escaped(&mut line, session_id.as_str());
            assert(line@ == frame(f.take(4)));
            append_escaped(&mut line, cwd.as_str());
            assert(line@ == frame(f.take(5)));
            append_escaped(&mut line, command.as_str());
            assert(line@ == frame(f.take(6)));
        },
    }
    line
}

/// Writes an answer as one line.
pub fn encode_daemon_message(message: &DaemonMessage) -> (line: String)
    ensures
        line@ == encode_daemon(message@),
{
    let mut line = String::new();
    let ghost f = daemon_fields(message@);
    proof {
        reveal_strlit("s");
        reveal_strlit("a");
        reveal_strlit("e");
        lemma_frame_take(f);
    }
    match message {
        DaemonMessage::Suggestion {
            request_id,
            candidate_count,
            candidate_index,
            source,
            score,
            text,
        } => {
            append_tag(&mut line, "s");
            append_u64(&mut line, *request_id);
            assert(line@ == frame(f.take(2)));
            append_usize(&mut line, *candidate_count);
            assert(line@ == frame(f.take(3)));
            append_usize(&mut line, *candidate_index);
            assert(line@ == frame(f.take(4)));
            append_tag(&mut line, score.as_str());
            assert(line@ == frame(f.take(5)));
            append_escaped(&mut line, source.as_str());
            assert(line@ == frame(f.take(6)));
            append_escaped(&mut line, text.as_str());
            assert(line@ == frame(f.take(7)));
        },
        DaemonMessage::Ack { request_id } => {
            append_tag(&mut line, "a");
            append_u64(&mut line, *request_id);
            assert(line@ == frame(f.take(2)));
        },
        DaemonMessage::Error { message, request_id } => {
            append_tag(&mut line, "e");
            append_u64(&mut line, *request_id);
            assert(line@ == frame(f.take(2)));
            append_escaped(&mut line, message.as_str());
            assert(line@ == frame(f.take(3)));
        },
    }
    line
}

// ----------------------------------------------------------------- parsing

/// The refusal of a field's value.
pub open spec fn invalid(field: Seq<char>, value: Seq<char>) -> Seq<char> {
    "invalid "@ + field + ": "@ + value
}

/// The refusal of a frame with too few fields.
pub open spec fn too_few(kind: Seq<char>, expected: nat, got: nat) -> Seq<char> {
    kind + " message expected at least "@ + number::decimal(expected) + " fields, got "@
        + number::decimal(got)
}

/// A field that holds a `u64`.
pub open spec fn u64_field(s: Seq<char>, field: Seq<char>) -> Result<u64, Seq<char>> {
    match number::read_natural(s, u64::MAX as nat) {
        Some(n) => Ok(n as u64),
        None => Err(invalid(field, s)),
    }
}

/// A field that holds a `usize`.
pub open spec fn usize_field(s: Seq<char>, field: Seq<char>) -> Result<usize, Seq<char>> {
    match number::read_natural(s, usize::MAX as nat) {
        Some(n) => Ok(n as usize),
        None => Err(invalid(field, s)),
    }
}

/// A field that holds an `i32`.
pub open spec fn i32_field(s: Seq<char>, field: Seq<char>) -> Result<i32, Seq<char>> {
    match number::read_i32(s) {
        Some(n) => Ok(n as i32),
        None => Err(invalid(field, s)),
    }
}

/// A field that holds a floating-point literal, which is kept as it is written.
pub open spec fn score_field(s: Seq<char>, field: Seq<char>) -> Result<Seq<char>, Seq<char>> {
    if number::is_float_literal(s) {
        Ok(s)
    } else {
        Err(invalid(field, s))
    }
}

/// A field that holds `0` or `1`.
pub open spec fn bool_field(s: Seq<char>, field: Seq<char>) -> Result<bool, Seq<char>> {
    if s == "0"@ {
        Ok(false)
    } else if s == "1"@ {
        Ok(true)
    } else {
        Err(invalid(field, s))
    }
}

/// A field that holds a direction.
pub open spec fn direction_field(s: Seq<char>) -> Result<CycleDirection, Seq<char>> {
    if s == "n"@ {
        Ok(CycleDirection::Next)
    } else if s == "p"@ {
        Ok(CycleDirection::Prev)
    } else {
        Err("invalid direction: "@ + s)
    }
}

/// The optional last field of a suggest frame, where an empty text counts as none.
pub open spec fn last_command_field(f: Seq<Seq<char>>) -> Result<Option<Seq<char>>, Seq<char>> {
    if f.len() <= 6 {
        Ok(None)
    } else {
        match unescape(f[6]) {
            Ok(s) => if s.len() == 0 {
                Ok(None)
            } else {
                Ok(Some(s))
            },
            Err(e) => Err(e),
        }
    }
}

/// Reads the fields of a suggest frame in order; the first that is wrong decides.
pub open spec fn parse_suggest(f: Seq<Seq<char>>) -> Result<ClientView, Seq<char>> {
    if f.len() < 6 {
        Err(too_few("suggest"@, 6, f.len()))
    } else {
        match u64_field(f[1], "request_id"@) {
            Err(e) => Err(e),
            Ok(request_id) => match usize_field(f[2], "cursor"@) {
                Err(e) => Err(e),
                Ok(cursor) => match unescape(f[3]) {
                    Err(e) => Err(e),
                    Ok(session_id) => match unescape(f[4]) {
                        Err(e) => Err(e),
                        Ok(cwd) => match unescape(f[5]) {
                            Err(e) => Err(e),
                            Ok(buffer) => match last_command_field(f) {
                                Err(e) => Err(e),
                                Ok(last_command) => Ok(
                                    ClientView::Suggest {
                                        request_id,
                                        buffer,
                                        cursor,
                                        cwd,
                                        session_id,
                                        last_command,
                                    },
                                ),
                            },
                        },
                    },
                },
            },
        }
    }
}

/// Reads the fields of a cycle frame in order.
pub open spec fn parse_cycle(f: Seq<Seq<char>>) -> Result<ClientView, Seq<char>> {
    if f.len() < 3 {
        Err(too_few("cycle"@, 3, f.len()))
    } else {
        match unescape(f[1]) {
            Err(e) => Err(e),
            Ok(session_id) => match direction_field(f[2]) {
                Err(e) => Err(e),
                Ok(direction) => Ok(ClientView::Cycle { session_id, direction }),
            },
        }
    }
}

/// Reads the fields of a feedback frame in order.
pub open spec fn parse_feedback(f: Seq<Seq<char>>) -> Result<ClientView, Seq<char>> {
    if f.len() < 6 {
        Err(too_few("feedback"@, 6, f.len()))
    } else {
        match bool_field(f[1], "accepted"@) {
            Err(e) => Err(e),
            Ok(accepted) => match score_field(f[2], "score"@) {
                Err(e) => Err(e),
                Ok(score) => match unescape(f[3]) {
                    Err(e) => Err(e),
                    Ok(session_id) => match unescape(f[4]) {
                        Err(e) => Err(e),
                        Ok(source) => match unescape(f[5]) {
                            Err(e) => Err(e),
                            Ok(command) => Ok(
                                ClientView::Feedback {
                                    command,
                                    source,
                                    score,
                                    accepted,
                                    session_id,
                                },
                            ),
                        },
                    },
                },
            },
        }
    }
}

/// Reads the fields of a record frame in order.
pub open spec fn parse_record(f: Seq<Seq<char>>) -> Result<ClientView, Seq<char>> {
    if f.len() < 6 {
        Err(too_few("record"@, 6, f.len()))
    } else {
        match i32_field(f[1], "exit_code"@) {
            Err(e) => Err(e),
            Ok(exit_code) => match u64_field(f[2], "duration_ms"@) {
                Err(e) => Err(e),
                Ok(duration_ms) => match unescape(f[3]) {
                    Err(e) => Err(e),
                    Ok(session_id) => match unescape(f[4]) {
                        Err(e) => Err(e),
                        Ok(cwd) => match unescape(f[5]) {
                            Err(e) => Err(e),
                            Ok(command) => Ok(
                                ClientView::Record {
                                    command,
                                    cwd,
                                    exit_code,
                                    duration_ms,
                                    session_id,
                                },
                            ),
                        },
                    },
                },
            },
        }
    }
}

/// What a line from the shell says, or why it is refused.
pub open spec fn parse_client(line: Seq<char>) -> Result<ClientView, Seq<char>> {
    let f = text::split_on(line, '\t');
    if f[0] == "s"@ {
        parse_suggest(f)
    } else if f[0] == "c"@ {
        parse_cycle(f)
    } else if f[0] == "f"@ {
        parse_feedback(f)
    } else if f[0] == "r"@ {
        parse_record(f)
    } else {
        Err("unknown client message type: "@ + f[0])
    }
}

/// Reads the fields of a suggestion answer in order.
pub open spec fn parse_suggestion(f: Seq<Seq<char>>) -> Result<DaemonView, Seq<char>> {
    if f.len() < 7 {
        Err(too_few("suggestion"@, 7, f.len()))
    } else {
        match u64_field(f[1], "request_id"@) {
            Err(e) => Err(e),
            Ok(request_id) => match usize_field(f[2], "candidate_count"@) {
                Err(e) => Err(e),
                Ok(candidate_count) => match usize_field(f[3], "candidate_index"@) {
                    Err(e) => Err(e),
                    Ok(candidate_index) => match score_field(f[4], "score"@) {
                        Err(e) => Err(e),
                        Ok(score) => match unescape(f[5]) {
                            Err(e) => Err(e),
                            Ok(source) => match unescape(f[6]) {
                                Err(e) => Err(e),
                                Ok(text) => Ok(
                                    DaemonView::Suggestion {
                                        request_id,
                                        candidate_count,
                                        candidate_index,
                                        source,
                                        score,
                                        text,
                                    },
                                ),
                            },
                        },
                    },
                },
            },
        }
    }
}

/// Reads the fields of an acknowledgement.
pub open spec fn parse_ack(f: Seq<Seq<char>>) -> Result<DaemonView, Seq<char>> {
    if f.len() < 2 {
        Err(too_few("ack"@, 2, f.len()))
    } else {
        match u64_field(f[1], "request_id"@) {
            Err(e) => Err(e),
            Ok(request_id) => Ok(DaemonView::Ack { request_id }),
        }
    }
}

/// Reads the fields of an error answer in order.
pub open spec fn parse_error(f: Seq<Seq<char>>) -> Result<DaemonView, Seq<char>> {
    if f.len() < 3 {
        Err(too_few("error"@, 3, f.len()))
    } else {
        match u64_field(f[1], "request_id"@) {
            Err(e) => Err(e),
            Ok(request_id) => match unescape(f[2]) {
                Err(e) => Err(e),
                Ok(message) => Ok(DaemonView::Error { message, request_id }),
            },
        }
    }
}

/// What a line from the query process says, or why it is refused.
pub open spec fn parse_daemon(line: Seq<char>) -> Result<DaemonView, Seq<char>> {
    let f = text::split_on(line, '\t');
    if f[0] == "s"@ {
        parse_suggestion(f)
    } else if f[0] == "a"@ {
        parse_ack(f)
    } else if f[0] == "e"@ {
        parse_error(f)
    } else {
        Err("unknown daemon message type: "@ + f[0])
    }
}

fn split_fields(line: &str) -> (fields: Vec<Vec<char>>)
    ensures
        text::views(fields@) == text::split_on(line@, '\t'),
        fields@.len() >= 1,
{
    let v = text::chars_of(line);
    text::split(&v, '\t')
}

fn require_fields(fields: &Vec<Vec<char>>, expected: usize, kind: &str) -> (r: Result<
    (),
    ProtocolError,
>)
    ensures
        match r {
            Ok(_) => fields@.len() >= expected,
            Err(e) => fields@.len() < expected && e@ == too_few(
                kind@,
                expected as nat,
                fields@.len(),
            ),
        },
{
    if fields.len() < expected {
        let mut m = text::chars_of(kind);
        text::extend_str(&mut m, " message expected at least ");
        let want = number::decimal_text(expected as u64);
        text::extend(&mut m, &want);
        text::extend_str(&mut m, " fields, got ");
        let got = number::decimal_text(fields.len() as u64);
        text::extend(&mut m, &got);
        Err(ProtocolError::new(m))
    } else {
        Ok(())
    }
}

fn prefixed_error(prefix: &str, value: &Vec<char>) -> (e: ProtocolError)
    ensures
        e@ == prefix@ + value@,
{
    let mut m = text::chars_of(prefix);
    text::extend(&mut m, value);
    ProtocolError::new(m)
}

fn invalid_error(field: &str, value: &Vec<char>) -> (e: ProtocolError)
    ensures
        e@ == invalid(field@, value@),
{
    let mut m = text::chars_of("invalid ");
    text::extend_str(&mut m, field);
    text::extend_str(&mut m, ": ");
    text::extend(&mut m, value);
    ProtocolError::new(m)
}

fn parse_direction(value: &Vec<char>) -> (r: Result<CycleDirection, ProtocolError>)
    ensures
        match r {
            Ok(d) => direction_field(value@) == Ok::<CycleDirection, Seq<char>>(d),
            Err(e) => direction_field(value@) == Err::<CycleDirection, Seq<char>>(e@),
        },
{
    if text::is_str(value, "n") {
        Ok(CycleDirection::Next)
    } else if text::is_str(value, "p") {
        Ok(CycleDirection::Prev)
    } else {
        Err(prefixed_error("invalid direction: ", value))
    }
}

fn parse_bool(value: &Vec<char>, field: &str) -> (r: Result<bool, ProtocolError>)
    ensures
        match r {
            Ok(b) => bool_field(value@, field@) == Ok::<bool, Seq<char>>(b),
            Err(e) => bool_field(value@, field@) == Err::<bool, Seq<char>>(e@),
        },
{
    if text::is_str(value, "0") {
        Ok(false)
    } else if text::is_str(value, "1") {
        Ok(true)
    } else {
        Err(invalid_error(field, value))
    }
}

fn parse_u64(value: &Vec<char>, field: &str) -> (r: Result<u64, ProtocolError>)
    ensures
        match r {
            Ok(n) => u64_field(value@, field@) == Ok::<u64, Seq<char>>(n),
            Err(e) => u64_field(value@, field@) == Err::<u64, Seq<char>>(e@),
        },
{
    match number::parse_u64(value) {
        Some(n) => Ok(n),
        None => Err(invalid_error(field, value)),
    }
}

fn parse_usize(value: &Vec<char>, field: &str) -> (r: Result<usize, ProtocolError>)
    ensures
        match r {
            Ok(n) => usize_field(value@, field@) == Ok::<usize, Seq<char>>(n),
            Err(e) => usize_field(value@, field@) == Err::<usize, Seq<char>>(e@),
        },
{
    match number::parse_usize(value) {
        Some(n) => Ok(n),
        None => Err(invalid_error(field, value)),
    }
}

fn parse_i32(value: &Vec<char>, field: &str) -> (r: Result<i32, ProtocolError>)
    ensures
        match r {
            Ok(n) => i32_field(value@, field@) == Ok::<i32, Seq<char>>(n),
            Err(e) => i32_field(value@, field@) == Err::<i32, Seq<char>>(e@),
        },
{
    match number::parse_i32(value) {
        Some(n) => Ok(n),
        None => Err(invalid_error(field, value)),
    }
}

fn parse_score(value: &Vec<char>, field: &str) -> (r: Result<String, ProtocolError>)
    ensures
        match r {
            Ok(s) => score_field(value@, field@) == Ok::<Seq<char>, Seq<char>>(s@),
            Err(e) => score_field(value@, field@) == Err::<Seq<char>, Seq<char>>(e@),
        },
{
    if number::float_literal(value) {
        Ok(text::string_of(value))
    } else {
        Err(invalid_error(field, value))
    }
}

fn parse_last_command(fields: &Vec<Vec<char>>) -> (r: Result<Option<String>, ProtocolError>)
    ensures
        match r {
            Ok(o) => last_command_field(text::views(fields@)) == Ok::<
                Option<Seq<char>>,
                Seq<char>,
            >(text::option_view(o)),
            Err(e) => last_command_field(text::views(fields@)) == Err::<
                Option<Seq<char>>,
                Seq<char>,
            >(e@),
        },
{
    if fields.len() <= 6 {
        Ok(None)
    } else {
        match text_field(&fields[6]) {
            Ok(s) => if s.as_str().is_empty() {
                Ok(None)
            } else {
                Ok(Some(s))
            },
            Err(e) => Err(e),
        }
    }
}

fn suggest_message(fields: &Vec<Vec<char>>) -> (r: Result<ClientMessage, ProtocolError>)
    ensures
        client_result(r) == parse_suggest(text::views(fields@)),
{
    match require_fields(fields, 6, "suggest") {
        Ok(_) => {},
        Err(e) => return Err(e),
    }
    let request_id: u64 = match parse_u64(&fields[1], "request_id") {
        Ok(n) => n,
        Err(e) => return Err(e),
    };
    let cursor: usize = match parse_usize(&fields[2], "cursor") {
        Ok(n) => n,
        Err(e) => return Err(e),
    };
    let session_id = match text_field(&fields[3]) {
        Ok(s) => s,
        Err(e) => return Err(e),
    };
    let cwd = match text_field(&fields[4]) {
        Ok(s) => s,
        Err(e) => return Err(e),
    };
    let buffer = match text_field(&fields[5]) {
        Ok(s) => s,
        Err(e) => return Err(e),
    };
    let last_command = match parse_last_command(fields) {
        Ok(s) => s,
        Err(e) => return Err(e),
    };
    Ok(ClientMessage::Suggest { request_id, buffer, cursor, cwd, session_id, last_command })
}

fn cycle_message(fields: &Vec<Vec<char>>) -> (r: Result<ClientMessage, ProtocolError>)
    ensures
        client_result(r) == parse_cycle(text::views(fields@)),
{
    match require_fields(fields, 3, "cycle") {
        Ok(_) => {},
        Err(e) => return Err(e),
    }
    let session_id = match text_field(&fields[1]) {
        Ok(s) => s,
        Err(e) => return Err(e),
    };
    let direction = match parse_direction(&fields[2]) {
        Ok(d) => d,
        Err(e) => return Err(e),
    };
    Ok(ClientMessage::Cycle { session_id, direction })
}

fn feedback_message(fields: &Vec<Vec<char>>) -> (r: Result<ClientMessage, ProtocolError>)
    ensures
        client_result(r) == parse_feedback(text::views(fields@)),
{
    match require_fields(fields, 6, "feedback") {
        Ok(_) => {},
        Err(e) => return Err(e),
    }
    let accepted = match parse_bool(&fields[1], "accepted") {
        Ok(b) => b,
        Err(e) => return Err(e),
    };
    let score = match parse_score(&fields[2], "score") {
        Ok(s) => s,
        Err(e) => return Err(e),
    };
    let session_id = match text_field(&fields[3]) {
        Ok(s) => s,
        Err(e) => return Err(e),
    };
    let source = match text_field(&fields[4]) {
        Ok(s) => s,
        Err(e) => return Err(e),
    };
    let command = match text_field(&fields[5]) {
        Ok(s) => s,
        Err(e) => return Err(e),
    };
    Ok(ClientMessage::Feedback { command, source, score, accepted, session_id })
}

fn record_message(fields: &Vec<Vec<char>>) -> (r: Result<ClientMessage, ProtocolError>)
    ensures
        client_result(r) == parse_record(text::views(fields@)),
{
    match require_fields(fields, 6, "record") {
        Ok(_) => {},
        Err(e) => return Err(e),
    }
    let exit_code: i32 = match parse_i32(&fields[1], "exit_code") {
        Ok(n) => n,
        Err(e) => return Err(e),
    };
    let duration_ms: u64 = match parse_u64(&fields[2], "duration_ms") {
        Ok(n) => n,
        Err(e) => return Err(e),
    };
    let session_id = match text_field(&fields[3]) {
        Ok(s) => s,
        Err(e) => return Err(e),
    };
    let cwd = match text_field(&fields[4]) {
        Ok(s) => s,
        Err(e) => return Err(e),
    };
    let command = match text_field(&fields[5]) {
        Ok(s) => s,
        Err(e) => return Err(e),
    };
    Ok(ClientMessage::Record { command, cwd, exit_code, duration_ms, session_id })
}

/// Reads a line from the shell.
pub fn parse_client_message(line: &str) -> (r: Result<ClientMessage, ProtocolError>)
    ensures
        client_result(r) == parse_client(line@),
{
    let fields = split_fields(line);
    assert(fields@[0]@ == text::views(fields@)[0]);
    if text::is_str(&fields[0], "s") {
        suggest_message(&fields)
    } else if text::is_str(&fields[0], "c") {
        cycle_message(&fields)
    } else if text::is_str(&fields[0], "f") {
        feedback_message(&fields)
    } else if text::is_str(&fields[0], "r") {
        record_message(&fields)
    } else {
        Err(prefixed_error("unknown client message type: ", &fields[0]))
    }
}

fn suggestion_answer(fields: &Vec<Vec<char>>) -> (r: Result<DaemonMessage, ProtocolError>)
    ensures
        daemon_result(r) == parse_suggestion(text::views(fields@)),
{
    match require_fields(fields, 7, "suggestion") {
        Ok(_) => {},
        Err(e) => return Err(e),
    }
    let request_id: u64 = match parse_u64(&fields[1], "request_id") {
        Ok(n) => n,
        Err(e) => return Err(e),
    };
    let candidate_count: usize = match parse_usize(&fields[2], "candidate_count") {
        Ok(n) => n,
        Err(e) => return Err(e),
    };
    let candidate_index: usize = match parse_usize(&fields[3], "candidate_index") {
        Ok(n) => n,
        Err(e) => return Err(e),
    };
    let score = match parse_score(&fields[4], "score") {
        Ok(s) => s,
        Err(e) => return Err(e),
    };
    let source = match text_field(&fields[5]) {
        Ok(s) => s,
        Err(e) => return Err(e),
    };
    let text = match text_field(&fields[6]) {
        Ok(s) => s,
        Err(e) => return Err(e),
    };
    Ok(
        DaemonMessage::Suggestion {
            request_id,
            candidate_count,
            candidate_index,
            source,
            score,
            text,
        },
    )
}

/// Reads a line from the query process.
pub fn parse_daemon_message(line: &str) -> (r: Result<DaemonMessage, ProtocolError>)
    ensures
        daemon_result(r) == parse_daemon(line@),
{
    let fields = split_fields(line);
    assert(fields@[0]@ == text::views(fields@)[0]);
    if text::is_str(&fields[0], "s") {
        suggestion_answer(&fields)
    } else if text::is_str(&fields[0], "a") {
        match require_fields(&fields, 2, "ack") {
            Ok(_) => {},
            Err(e) => return Err(e),
        }
        match parse_u64(&fields[1], "request_id") {
            Ok(request_id) => Ok(DaemonMessage::Ack { request_id }),
            Err(e) => Err(e),
        }
    } else if text::is_str(&fields[0], "e") {
        match require_fields(&fields, 3, "error") {
            Ok(_) => {},
            Err(e) => return Err(e),
        }
        let request_id: u64 = match parse_u64(&fields[1], "request_id") {
            Ok(n) => n,
            Err(e) => return Err(e),
        };
        match text_field(&fields[2]) {
            Ok(message) => Ok(DaemonMessage::Error { message, request_id }),
            Err(e) => Err(e),
        }
    } else {
        Err(prefixed_error("unknown daemon message type: ", &fields[0]))
    }
}

// -------------------------------------------------------------------- laws

/// A client message that a frame can carry: its score is a floating-point
/// literal, and a last command, where there is one, is not empty.
pub open spec fn client_wf(m: ClientView) -> bool {
    match m {
        ClientView::Suggest { last_command, .. } => match last_command {
            Some(command) => command.len() > 0,
            None => true,
        },
        ClientView::Feedback { score, .. } => number::is_float_literal(score),
        _ => true,
    }
}

/// An answer that a frame can carry: its score is a floating-point literal.
pub open spec fn daemon_wf(m: DaemonView) -> bool {
    match m {
        DaemonView::Suggestion { score, .. } => number::is_float_literal(score),
        _ => true,
    }
}

/// `s` holds none of the characters that end a field or a line.
pub open spec fn is_plain(s: Seq<char>) -> bool {
    !s.contains('\t') && !s.contains('\n') && !s.contains('\r')
}

proof fn lemma_plain(s: Seq<char>)
    requires
        forall|i: int| 0 <= i < s.len() ==> (#[trigger] s[i]) as u32 > 13,
    ensures
        is_plain(s),
{
}

proof fn lemma_number_plain(n: int)
    ensures
        is_plain(number::signed_decimal(n)),
        n >= 0 ==> is_plain(number::decimal(n as nat)),
{
    if n < 0 {
        number::lemma_decimal((-n) as nat);
        let d = number::decimal((-n) as nat);
        let s = number::signed_decimal(n);
        assert forall|i: int| 0 <= i < s.len() implies (#[trigger] s[i]) as u32 > 13 by {
            if i > 0 {
                assert(s[i] == d[i - 1]);
                assert(number::is_digit(d[i - 1]));
            }
        }
        lemma_plain(s);
    } else {
        number::lemma_decimal(n as nat);
        let d = number::decimal(n as nat);
        assert forall|i: int| 0 <= i < d.len() implies (#[trigger] d[i]) as u32 > 13 by {
            assert(number::is_digit(d[i]));
        }
        lemma_plain(d);
    }
}

proof fn lemma_score_plain(s: Seq<char>)
    requires
        number::is_float_literal(s),
    ensures
        is_plain(s),
{
    number::lemma_float_literal_chars(s);
    lemma_plain(s);
}

proof fn lemma_tags()
    ensures
        is_plain("s"@) && is_plain("c"@) && is_plain("f"@) && is_plain("r"@) && is_plain("a"@)
            && is_plain("e"@) && is_plain("n"@) && is_plain("p"@) && is_plain("0"@) && is_plain(
            "1"@,
        ),
        "s"@.len() == 1 && "c"@.len() == 1 && "f"@.len() == 1 && "r"@.len() == 1 && "a"@.len() == 1
            && "e"@.len() == 1 && "n"@.len() == 1 && "p"@.len() == 1 && "0"@.len() == 1
            && "1"@.len() == 1,
        "s"@[0] == 's' && "c"@[0] == 'c' && "f"@[0] == 'f' && "r"@[0] == 'r' && "a"@[0] == 'a'
            && "e"@[0] == 'e' && "n"@[0] == 'n' && "p"@[0] == 'p' && "0"@[0] == '0' && "1"@[0]
            == '1',
{
    reveal_strlit("s");
    reveal_strlit("c");
    reveal_strlit("f");
    reveal_strlit("r");
    reveal_strlit("a");
    reveal_strlit("e");
    reveal_strlit("n");
    reveal_strlit("p");
    reveal_strlit("0");
    reveal_strlit("1");
}

proof fn lemma_client_fields_plain(m: ClientView)
    requires
        client_wf(m),
    ensures
        forall|i: int| 0 <= i < client_fields(m).len() ==> is_plain(#[trigger] client_fields(m)[i]),
{
    lemma_tags();
    match m {
        ClientView::Suggest { request_id, buffer, cursor, cwd, session_id, last_command } => {
            lemma_number_plain(request_id as int);
            lemma_number_plain(cursor as int);
            law_escape_roundtrip(session_id);
            law_escape_roundtrip(cwd);
            law_escape_roundtrip(buffer);
            match last_command {
                Some(command) => law_escape_roundtrip(command),
                None => {},
            }
        },
        ClientView::Cycle { session_id, direction } => {
            law_escape_roundtrip(session_id);
        },
        ClientView::Feedback { command, source, score, accepted, session_id } => {
            lemma_score_plain(score);
            law_escape_roundtrip(session_id);
            law_escape_roundtrip(source);
            law_escape_roundtrip(command);
        },
        ClientView::Record { command, cwd, exit_code, duration_ms, session_id } => {
            lemma_number_plain(exit_code as int);
            lemma_number_plain(duration_ms as int);
            law_escape_roundtrip(session_id);
            law_escape_roundtrip(cwd);
            law_escape_roundtrip(command);
        },
    }
}

proof fn lemma_daemon_fields_plain(m: DaemonView)
    requires
        daemon_wf(m),
    ensures
        forall|i: int| 0 <= i < daemon_fields(m).len() ==> is_plain(#[trigger] daemon_fields(m)[i]),
{
    lemma_tags();
    match m {
        DaemonView::Suggestion {
            request_id,
            candidate_count,
            candidate_index,
            source,
            score,
            text,
        } => {
            lemma_number_plain(request_id as int);
            lemma_number_plain(candidate_count as int);
            lemma_number_plain(candidate_index as int);
            lemma_score_plain(score);
            law_escape_roundtrip(source);
            law_escape_roundtrip(text);
        },
        DaemonView::Ack { request_id } => {
            lemma_number_plain(request_id as int);
        },
        DaemonView::Error { message, request_id } => {
            lemma_number_plain(request_id as int);
            law_escape_roundtrip(message);
        },
    }
}

proof fn lemma_frame_is_one_line(fields: Seq<Seq<char>>)
    requires
        forall|i: int| 0 <= i < fields.len() ==> is_plain(#[trigger] fields[i]),
    ensures
        !frame(fields).contains('\n'),
        !frame(fields).contains('\r'),
    decreases fields.len(),
{
    if fields.len() > 1 {
        let rest = fields.skip(1);
        assert forall|i: int| 0 <= i < rest.len() implies is_plain(#[trigger] rest[i]) by {
            assert(rest[i] == fields[i + 1]);
        }
        lemma_frame_is_one_line(rest);
        let head = fields[0];
        assert forall|c: char| c == '\n' || c == '\r' implies !#[trigger] frame(
            fields,
        ).contains(c) by {
            if frame(fields).contains(c) {
                let i = choose|i: int| 0 <= i < frame(fields).len() && frame(fields)[i] == c;
                if i < head.len() {
                    assert(head.contains(head[i]));
                } else if i > head.len() {
                    assert(frame(rest)[i - head.len() - 1] == c);
                    assert(frame(rest).contains(c));
                }
            }
        }
    }
}

proof fn lemma_client_fields_split(m: ClientView)
    requires
        client_wf(m),
    ensures
        text::split_on(encode_client(m), '\t') == client_fields(m),
{
    let f = client_fields(m);
    lemma_client_fields_plain(m);
    assert forall|i: int| 0 <= i < f.len() implies !(#[trigger] f[i]).contains('\t') by {
        assert(is_plain(f[i]));
    }
    text::lemma_split_join(f, '\t');
}

proof fn lemma_suggest_fields(m: ClientView)
    requires
        client_wf(m),
        m is Suggest,
    ensures
        parse_suggest(client_fields(m)) == Ok::<ClientView, Seq<char>>(m),
{
    let f = client_fields(m);
    if let ClientView::Suggest { request_id, buffer, cursor, cwd, session_id, last_command } = m {
        number::lemma_natural_roundtrip(request_id as nat, u64::MAX as nat);
        number::lemma_natural_roundtrip(cursor as nat, usize::MAX as nat);
        law_escape_roundtrip(session_id);
        law_escape_roundtrip(cwd);
        law_escape_roundtrip(buffer);
        match last_command {
            Some(command) => law_escape_roundtrip(command),
            None => law_escape_roundtrip(Seq::empty()),
        }
        assert(u64_field(f[1], "request_id"@) == Ok::<u64, Seq<char>>(request_id));
        assert(usize_field(f[2], "cursor"@) == Ok::<usize, Seq<char>>(cursor));
        assert(last_command_field(f) == Ok::<Option<Seq<char>>, Seq<char>>(last_command));
    }
}

proof fn lemma_feedback_fields(m: ClientView)
    requires
        client_wf(m),
        m is Feedback,
    ensures
        parse_feedback(client_fields(m)) == Ok::<ClientView, Seq<char>>(m),
{
    lemma_tags();
    if let ClientView::Feedback { command, source, score, accepted, session_id } = m {
        law_escape_roundtrip(session_id);
        law_escape_roundtrip(source);
        law_escape_roundtrip(command);
    }
}

proof fn lemma_record_fields(m: ClientView)
    requires
        m is Record,
    ensures
        parse_record(client_fields(m)) == Ok::<ClientView, Seq<char>>(m),
{
    if let ClientView::Record { command, cwd, exit_code, duration_ms, session_id } = m {
        number::lemma_i32_roundtrip(exit_code);
        number::lemma_natural_roundtrip(duration_ms as nat, u64::MAX as nat);
        law_escape_roundtrip(session_id);
        law_escape_roundtrip(cwd);
        law_escape_roundtrip(command);
    }
}

proof fn lemma_cycle_fields(m: ClientView)
    requires
        m is Cycle,
    ensures
        parse_cycle(client_fields(m)) == Ok::<ClientView, Seq<char>>(m),
{
    lemma_tags();
    if let ClientView::Cycle { session_id, direction } = m {
        law_escape_roundtrip(session_id);
    }
}

/// What the shell writes is what the query process reads.
pub proof fn law_client_roundtrip(m: ClientView)
    requires
        client_wf(m),
    ensures
        parse_client(encode_client(m)) == Ok::<ClientView, Seq<char>>(m),
{
    lemma_tags();
    lemma_client_fields_split(m);
    match m {
        ClientView::Suggest { .. } => lemma_suggest_fields(m),
        ClientView::Cycle { .. } => lemma_cycle_fields(m),
        ClientView::Feedback { .. } => lemma_feedback_fields(m),
        ClientView::Record { .. } => lemma_record_fields(m),
    }
}

/// What the query process answers is what the shell reads.
pub proof fn law_daemon_roundtrip(m: DaemonView)
    requires
        daemon_wf(m),
    ensures
        parse_daemon(encode_daemon(m)) == Ok::<DaemonView, Seq<char>>(m),
{
    let f = daemon_fields(m);
    lemma_tags();
    lemma_daemon_fields_plain(m);
    assert forall|i: int| 0 <= i < f.len() implies !(#[trigger] f[i]).contains('\t') by {
        assert(is_plain(f[i]));
    }
    text::lemma_split_join(f, '\t');
    match m {
        DaemonView::Suggestion {
            request_id,
            candidate_count,
            candidate_index,
            source,
            score,
            text,
        } => {
            number::lemma_natural_roundtrip(request_id as nat, u64::MAX as nat);
            number::lemma_natural_roundtrip(candidate_count as nat, usize::MAX as nat);
            number::lemma_natural_roundtrip(candidate_index as nat, usize::MAX as nat);
            law_escape_roundtrip(source);
            law_escape_roundtrip(text);
        },
        DaemonView::Ack { request_id } => {
            number::lemma_natural_roundtrip(request_id as nat, u64::MAX as nat);
        },
        DaemonView::Error { message, request_id } => {
            number::lemma_natural_roundtrip(request_id as nat, u64::MAX as nat);
            law_escape_roundtrip(message);
        },
    }
}

/// A frame is one line, whatever the texts in it hold.
pub proof fn law_client_frame_is_one_line(m: ClientView)
    requires
        client_wf(m),
    ensures
        !encode_client(m).contains('\n'),
        !encode_client(m).contains('\r'),
{
    lemma_client_fields_plain(m);
    lemma_frame_is_one_line(client_fields(m));
}

/// An answer is one line, whatever the texts in it hold.
pub proof fn law_daemon_frame_is_one_line(m: DaemonView)
    requires
        daemon_wf(m),
    ensures
        !encode_daemon(m).contains('\n'),
        !encode_daemon(m).contains('\r'),
{
    lemma_daemon_fields_plain(m);
    lemma_frame_is_one_line(daemon_fields(m));
}

/// A message that was read from a line can be written again.
pub proof fn law_parsed_client_is_well_formed(line: Seq<char>)
    ensures
        match parse_client(line) {
            Ok(m) => client_wf(m),
            Err(_) => true,
        },
{
}

/// A text is escaped character by character: a backslash, a tab, a line feed and
/// a carriage return as a backslash and a letter, every other as itself.
pub proof fn law_escape_by_character(a: Seq<char>, b: Seq<char>, c: char)
    ensures
        escape(a + b) == escape(a) + escape(b),
        escape(seq![c]) == (if c == '\\' {
            seq!['\\', '\\']
        } else if c == '\t' {
            seq!['\\', 't']
        } else if c == '\n' {
            seq!['\\', 'n']
        } else if c == '\r' {
            seq!['\\', 'r']
        } else {
            seq![c]
        }),
    decreases a.len(),
{
    if a.len() == 0 {
        assert(a + b =~= b);
        assert(escape(a) + escape(b) =~= escape(b));
    } else {
        law_escape_by_character(a.skip(1), b, c);
        assert((a + b).skip(1) =~= a.skip(1) + b);
        assert(escape(a + b) =~= escape(a) + escape(b));
    }
    let one = seq![c];
    assert(one.skip(1) =~= Seq::<char>::empty());
    assert(escape(one.skip(1)) =~= Seq::<char>::empty());
    assert(escape(one) =~= escaped_char(c));
}

/// What is behind a well-written front decides: a backslash at the end, or before
/// a character that it has no meaning with, is refused, and what is well written
/// is read on.
pub proof fn law_unescape_reads_on(a: Seq<char>, c: char, b: Seq<char>)
    ensures
        unescape(escape(a).push('\\')) == Err::<Seq<char>, Seq<char>>(
            "unterminated escape sequence"@,
        ),
        c != '\\' && c != 't' && c != 'n' && c != 'r' ==> unescape(
            escape(a) + seq!['\\', c] + b,
        ) == Err::<Seq<char>, Seq<char>>("unsupported escape sequence: \\"@ + seq![c]),
        unescape(escape(a) + b) == (match unescape(b) {
            Ok(rest) => Ok::<Seq<char>, Seq<char>>(a + rest),
            Err(e) => Err(e),
        }),
    decreases a.len(),
{
    if a.len() == 0 {
        assert(escape(a) =~= Seq::<char>::empty());
        let end = seq!['\\'];
        assert(escape(a).push('\\') =~= end);
        let odd = seq!['\\', c] + b;
        assert(escape(a) + seq!['\\', c] + b =~= odd);
        assert(odd[1] == c);
        assert(escape(a) + b =~= b);
        match unescape(b) {
            Ok(rest) => {
                assert(a + rest =~= rest);
            },
            Err(e) => {},
        }
    } else {
        let rest = a.skip(1);
        law_unescape_reads_on(rest, c, b);
        lemma_unescape_front(a[0], escape(rest).push('\\'));
        lemma_unescape_front(a[0], escape(rest) + seq!['\\', c] + b);
        lemma_unescape_front(a[0], escape(rest) + b);
        let e = escaped_char(a[0]);
        assert(escape(a).push('\\') =~= e + escape(rest).push('\\'));
        assert(escape(a) + seq!['\\', c] + b =~= e + (escape(rest) + seq!['\\', c] + b));
        assert(escape(a) + b =~= e + (escape(rest) + b));
        match unescape(b) {
            Ok(tail) => {
                assert(seq![a[0]] + (rest + tail) =~= a + tail);
            },
            Err(e) => {},
        }
    }
}

proof fn lemma_unescape_front(c: char, s: Seq<char>)
    ensures
        unescape(escaped_char(c) + s) == (match unescape(s) {
            Ok(rest) => Ok::<Seq<char>, Seq<char>>(seq![c] + rest),
            Err(e) => Err(e),
        }),
{
    let e = escaped_char(c);
    let t = e + s;
    if e.len() == 2 {
        assert(t[0] == '\\');
        assert(t[1] == e[1]);
        assert(t.skip(2) =~= s);
    } else {
        assert(t[0] == c);
        assert(t.skip(1) =~= s);
    }
}

/// What stands where in a line from the shell: the kind as a letter, numbers in
/// decimal, texts escaped, with a tab between each two.
pub proof fn law_client_frame_layout(m: ClientView)
    requires
        client_wf(m),
    ensures
        ({
            let f = text::split_on(encode_client(m), '\t');
            match m {
                ClientView::Suggest {
                    request_id,
                    buffer,
                    cursor,
                    cwd,
                    session_id,
                    last_command,
                } => {
                    &&& f.len() == 7 && f[0] == seq!['s']
                    &&& f[1] == number::decimal(request_id as nat)
                    &&& f[2] == number::decimal(cursor as nat)
                    &&& f[3] == escape(session_id)
                    &&& f[4] == escape(cwd)
                    &&& f[5] == escape(buffer)
                    &&& last_command is Some ==> f[6] == escape(last_command->0)
                    &&& last_command is None ==> f[6].len() == 0
                },
                ClientView::Cycle { session_id, direction } => {
                    &&& f.len() == 3 && f[0] == seq!['c']
                    &&& f[1] == escape(session_id)
                    &&& direction == CycleDirection::Next ==> f[2] == seq!['n']
                    &&& direction == CycleDirection::Prev ==> f[2] == seq!['p']
                },
                ClientView::Feedback { command, source, score, accepted, session_id } => {
                    &&& f.len() == 6 && f[0] == seq!['f']
                    &&& accepted ==> f[1] == seq!['1']
                    &&& !accepted ==> f[1] == seq!['0']
                    &&& f[2] == score
                    &&& f[3] == escape(session_id)
                    &&& f[4] == escape(source)
                    &&& f[5] == escape(command)
                },
                ClientView::Record { command, cwd, exit_code, duration_ms, session_id } => {
                    &&& f.len() == 6 && f[0] == seq!['r']
                    &&& f[1] == number::signed_decimal(exit_code as int)
                    &&& f[2] == number::decimal(duration_ms as nat)
                    &&& f[3] == escape(session_id)
                    &&& f[4] == escape(cwd)
                    &&& f[5] == escape(command)
                },
            }
        }),
{
    lemma_client_fields_split(m);
    lemma_letters();
}

/// What stands where in an answer.
pub proof fn law_daemon_frame_layout(m: DaemonView)
    requires
        daemon_wf(m),
    ensures
        ({
            let f = text::split_on(encode_daemon(m), '\t');
            match m {
                DaemonView::Suggestion {
                    request_id,
                    candidate_count,
                    candidate_index,
                    source,
                    score,
                    text,
                } => {
                    &&& f.len() == 7 && f[0] == seq!['s']
                    &&& f[1] == number::decimal(request_id as nat)
                    &&& f[2] == number::decimal(candidate_count as nat)
                    &&& f[3] == number::decimal(candidate_index as nat)
                    &&& f[4] == score
                    &&& f[5] == escape(source)
                    &&& f[6] == escape(text)
                },
                DaemonView::Ack { request_id } => {
                    &&& f.len() == 2 && f[0] == seq!['a']
                    &&& f[1] == number::decimal(request_id as nat)
                },
                DaemonView::Error { message, request_id } => {
                    &&& f.len() == 3 && f[0] == seq!['e']
                    &&& f[1] == number::decimal(request_id as nat)
                    &&& f[2] == escape(message)
                },
            }
        }),
{
    let f = daemon_fields(m);
    lemma_letters();
    lemma_daemon_fields_plain(m);
    assert forall|i: int| 0 <= i < f.len() implies !(#[trigger] f[i]).contains('\t') by {
        assert(is_plain(f[i]));
    }
    text::lemma_split_join(f, '\t');
}

proof fn lemma_letters()
    ensures
        "s"@ == seq!['s'],
        "c"@ == seq!['c'],
        "f"@ == seq!['f'],
        "r"@ == seq!['r'],
        "a"@ == seq!['a'],
        "e"@ == seq!['e'],
        "n"@ == seq!['n'],
        "p"@ == seq!['p'],
        "0"@ == seq!['0'],
        "1"@ == seq!['1'],
{
    reveal_strlit("s");
    reveal_strlit("c");
    reveal_strlit("f");
    reveal_strlit("r");
    reveal_strlit("a");
    reveal_strlit("e");
    reveal_strlit("n");
    reveal_strlit("p");
    reveal_strlit("0");
    reveal_strlit("1");
    assert("s"@ =~= seq!['s']);
    assert("c"@ =~= seq!['c']);
    assert("f"@ =~= seq!['f']);
    assert("r"@ =~= seq!['r']);
    assert("a"@ =~= seq!['a']);
    assert("e"@ =~= seq!['e']);
    assert("n"@ =~= seq!['n']);
    assert("p"@ =~= seq!['p']);
    assert("0"@ =~= seq!['0']);
    assert("1"@ =~= seq!['1']);
}

/// A line from the shell is read where each of its fields can be, and then says
/// what they say; further fields have no say. A last command that is left out
/// or empty is none.
pub proof fn law_client_line_is_read(line: Seq<char>)
    ensures
        ({
            let f = text::split_on(line, '\t');
            let r = parse_client(line);
            let max = u64::MAX as nat;
            let known = f[0] == seq!['s'] || f[0] == seq!['c'] || f[0] == seq!['f'] || f[0]
                == seq!['r'];
            &&& !known ==> r == Err::<ClientView, Seq<char>>(
                "unknown client message type: "@ + f[0],
            )
            &&& f[0] == seq!['s'] ==> {
                let last = if f.len() > 6 {
                    unescape(f[6])
                } else {
                    Ok::<Seq<char>, Seq<char>>(Seq::empty())
                };
                &&& r is Ok <==> {
                    &&& f.len() >= 6
                    &&& number::read_natural(f[1], max) is Some
                    &&& number::read_natural(f[2], usize::MAX as nat) is Some
                    &&& unescape(f[3]) is Ok && unescape(f[4]) is Ok && unescape(f[5]) is Ok
                    &&& last is Ok
                }
                &&& r is Ok ==> r->Ok_0 == (ClientView::Suggest {
                    request_id: number::read_natural(f[1], max)->0 as u64,
                    cursor: number::read_natural(f[2], usize::MAX as nat)->0 as usize,
                    session_id: unescape(f[3])->Ok_0,
                    cwd: unescape(f[4])->Ok_0,
                    buffer: unescape(f[5])->Ok_0,
                    last_command: if last->Ok_0.len() == 0 {
                        None
                    } else {
                        Some(last->Ok_0)
                    },
                })
            }
            &&& f[0] == seq!['c'] ==> {
                &&& r is Ok <==> f.len() >= 3 && unescape(f[1]) is Ok && (f[2] == seq!['n'] || f[2]
                    == seq!['p'])
                &&& r is Ok ==> r->Ok_0 == (ClientView::Cycle {
                    session_id: unescape(f[1])->Ok_0,
                    direction: if f[2] == seq!['n'] {
                        CycleDirection::Next
                    } else {
                        CycleDirection::Prev
                    },
                })
            }
            &&& f[0] == seq!['f'] ==> {
                &&& r is Ok <==> {
                    &&& f.len() >= 6
                    &&& f[1] == seq!['0'] || f[1] == seq!['1']
                    &&& number::is_float_literal(f[2])
                    &&& unescape(f[3]) is Ok && unescape(f[4]) is Ok && unescape(f[5]) is Ok
                }
                &&& r is Ok ==> r->Ok_0 == (ClientView::Feedback {
                    accepted: f[1] == seq!['1'],
                    score: f[2],
                    session_id: unescape(f[3])->Ok_0,
                    source: unescape(f[4])->Ok_0,
                    command: unescape(f[5])->Ok_0,
                })
            }
            &&& f[0] == seq!['r'] ==> {
                &&& r is Ok <==> {
                    &&& f.len() >= 6
                    &&& number::read_i32(f[1]) is Some
                    &&& number::read_natural(f[2], max) is Some
                    &&& unescape(f[3]) is Ok && unescape(f[4]) is Ok && unescape(f[5]) is Ok
                }
                &&& r is Ok ==> r->Ok_0 == (ClientView::Record {
                    exit_code: number::read_i32(f[1])->0 as i32,
                    duration_ms: number::read_natural(f[2], max)->0 as u64,
                    session_id: unescape(f[3])->Ok_0,
                    cwd: unescape(f[4])->Ok_0,
                    command: unescape(f[5])->Ok_0,
                })
            }
        }),
{
    lemma_letters();
    lemma_tags();
}

/// An answer is read where each of its fields can be, and then says what they
/// say.
pub proof fn law_daemon_line_is_read(line: Seq<char>)
    ensures
        ({
            let f = text::split_on(line, '\t');
            let r = parse_daemon(line);
            let max = u64::MAX as nat;
            let most = usize::MAX as nat;
            let known = f[0] == seq!['s'] || f[0] == seq!['a'] || f[0] == seq!['e'];
            &&& !known ==> r == Err::<DaemonView, Seq<char>>(
                "unknown daemon message type: "@ + f[0],
            )
            &&& f[0] == seq!['s'] ==> {
                &&& r is Ok <==> {
                    &&& f.len() >= 7
                    &&& number::read_natural(f[1], max) is Some
                    &&& number::read_natural(f[2], most) is Some
                    &&& number::read_natural(f[3], most) is Some
                    &&& number::is_float_literal(f[4])
                    &&& unescape(f[5]) is Ok && unescape(f[6]) is Ok
                }
                &&& r is Ok ==> r->Ok_0 == (DaemonView::Suggestion {
                    request_id: number::read_natural(f[1], max)->0 as u64,
                    candidate_count: number::read_natural(f[2], most)->0 as usize,
                    candidate_index: number::read_natural(f[3], most)->0 as usize,
                    score: f[4],
                    source: unescape(f[5])->Ok_0,
                    text: unescape(f[6])->Ok_0,
                })
            }
            &&& f[0] == seq!['a'] ==> {
                &&& r is Ok <==> f.len() >= 2 && number::read_natural(f[1], max) is Some
                &&& r is Ok ==> r->Ok_0 == (DaemonView::Ack {
                    request_id: number::read_natural(f[1], max)->0 as u64,
                })
            }
            &&& f[0] == seq!['e'] ==> {
                &&& r is Ok <==> f.len() >= 3 && number::read_natural(f[1], max) is Some
                    && unescape(f[2]) is Ok
                &&& r is Ok ==> r->Ok_0 == (DaemonView::Error {
                    request_id: number::read_natural(f[1], max)->0 as u64,
                    message: unescape(f[2])->Ok_0,
                })
            }
        }),
{
    lemma_letters();
    lemma_tags();
}

/// Fields behind those that a line needs change nothing.
pub proof fn law_further_fields_have_no_say(line: Seq<char>, more: Seq<char>)
    ensures
        ({
            let f = text::split_on(line, '\t');
            let longer = line + seq!['\t'] + more;
            &&& f[0] == seq!['s'] && f.len() >= 7 ==> parse_client(longer) == parse_client(line)
            &&& f[0] == seq!['c'] && f.len() >= 3 ==> parse_client(longer) == parse_client(line)
            &&& f[0] == seq!['f'] && f.len() >= 6 ==> parse_client(longer) == parse_client(line)
            &&& f[0] == seq!['r'] && f.len() >= 6 ==> parse_client(longer) == parse_client(line)
            &&& f[0] == seq!['s'] && f.len() >= 7 ==> parse_daemon(longer) == parse_daemon(line)
            &&& f[0] == seq!['a'] && f.len() >= 2 ==> parse_daemon(longer) == parse_daemon(line)
            &&& f[0] == seq!['e'] && f.len() >= 3 ==> parse_daemon(longer) == parse_daemon(line)
        }),
{
    let f = text::split_on(line, '\t');
    let g = text::split_on(line + seq!['\t'] + more, '\t');
    text::law_split_between(line, '\t', more);
    assert forall|i: int| 0 <= i < f.len() implies g[i] == f[i] by {}
    text::lemma_first_at(line, '\t');
    lemma_letters();
    lemma_tags();
}

/// Why a line from the shell is refused: it has too few fields, or the first
/// field that cannot be read is named with what it holds.
pub proof fn law_client_line_is_refused(line: Seq<char>)
    ensures
        ({
            let f = text::split_on(line, '\t');
            let r = parse_client(line);
            let got = number::decimal(f.len());
            let few = |kind: Seq<char>, n: Seq<char>|
                Err::<ClientView, Seq<char>>(
                    kind + " message expected at least "@ + n + " fields, got "@ + got,
                );
            let bad = |field: Seq<char>, value: Seq<char>|
                Err::<ClientView, Seq<char>>("invalid "@ + field + ": "@ + value);
            &&& f[0] == seq!['s'] && f.len() < 6 ==> r == few("suggest"@, seq!['6'])
            &&& f[0] == seq!['c'] && f.len() < 3 ==> r == few("cycle"@, seq!['3'])
            &&& f[0] == seq!['f'] && f.len() < 6 ==> r == few("feedback"@, seq!['6'])
            &&& f[0] == seq!['r'] && f.len() < 6 ==> r == few("record"@, seq!['6'])
            &&& f[0] == seq!['s'] && f.len() >= 6 ==> {
                let id = number::read_natural(f[1], u64::MAX as nat);
                let cursor = number::read_natural(f[2], usize::MAX as nat);
                &&& id is None ==> r == bad("request_id"@, f[1])
                &&& id is Some && cursor is None ==> r == bad("cursor"@, f[2])
            }
            &&& f[0] == seq!['c'] && f.len() >= 3 && unescape(f[1]) is Ok && f[2] != seq!['n']
                && f[2] != seq!['p'] ==> r == Err::<ClientView, Seq<char>>(
                "invalid direction: "@ + f[2],
            )
            &&& f[0] == seq!['f'] && f.len() >= 6 ==> {
                let accepted = f[1] == seq!['0'] || f[1] == seq!['1'];
                &&& !accepted ==> r == bad("accepted"@, f[1])
                &&& accepted && !number::is_float_literal(f[2]) ==> r == bad("score"@, f[2])
            }
            &&& f[0] == seq!['r'] && f.len() >= 6 ==> {
                let code = number::read_i32(f[1]);
                let time = number::read_natural(f[2], u64::MAX as nat);
                &&& code is None ==> r == bad("exit_code"@, f[1])
                &&& code is Some && time is None ==> r == bad("duration_ms"@, f[2])
            }
        }),
{
    lemma_letters();
    lemma_tags();
    number::law_digits(Seq::empty(), 0, 6);
    number::law_digits(Seq::empty(), 0, 3);
}

/// Where the numbers of a line from the shell can be read, the first text in it that
/// cannot be says why it is refused.
pub proof fn law_client_text_is_refused(line: Seq<char>)
    ensures
        ({
            let f = text::split_on(line, '\t');
            let r = parse_client(line);
            let max = u64::MAX as nat;
            let counted = f[0] == seq!['s'] && number::read_natural(f[1], max) is Some
                && number::read_natural(f[2], usize::MAX as nat) is Some || f[0] == seq!['f'] && (
            f[1] == seq!['0'] || f[1] == seq!['1']) && number::is_float_literal(f[2]) || f[0]
                == seq!['r'] && number::read_i32(f[1]) is Some && number::read_natural(f[2], max)
                is Some;
            &&& f.len() >= 6 && counted ==> {
                &&& unescape(f[3]) is Err ==> r == Err::<ClientView, Seq<char>>(
                    unescape(f[3])->Err_0,
                )
                &&& unescape(f[3]) is Ok && unescape(f[4]) is Err ==> r == Err::<
                    ClientView,
                    Seq<char>,
                >(unescape(f[4])->Err_0)
                &&& unescape(f[3]) is Ok && unescape(f[4]) is Ok && unescape(f[5]) is Err ==> r
                    == Err::<ClientView, Seq<char>>(unescape(f[5])->Err_0)
                &&& f[0] == seq!['s'] && f.len() >= 7 && unescape(f[3]) is Ok && unescape(f[4])
                    is Ok && unescape(f[5]) is Ok && unescape(f[6]) is Err ==> r == Err::<
                    ClientView,
                    Seq<char>,
                >(unescape(f[6])->Err_0)
            }
            &&& f[0] == seq!['c'] && f.len() >= 3 && unescape(f[1]) is Err ==> r == Err::<
                ClientView,
                Seq<char>,
            >(unescape(f[1])->Err_0)
        }),
{
    lemma_letters();
    lemma_tags();
}

/// Why a line to the shell is refused: it has too few fields, or the first field
/// that cannot be read is named with what it holds.
pub proof fn law_daemon_line_is_refused(line: Seq<char>)
    ensures
        ({
            let f = text::split_on(line, '\t');
            let r = parse_daemon(line);
            let got = number::decimal(f.len());
            let max = u64::MAX as nat;
            let most = usize::MAX as nat;
            let few = |kind: Seq<char>, n: Seq<char>|
                Err::<DaemonView, Seq<char>>(
                    kind + " message expected at least "@ + n + " fields, got "@ + got,
                );
            let bad = |field: Seq<char>, value: Seq<char>|
                Err::<DaemonView, Seq<char>>("invalid "@ + field + ": "@ + value);
            let id = number::read_natural(f[1], max);
            &&& f[0] == seq!['s'] && f.len() < 7 ==> r == few("suggestion"@, seq!['7'])
            &&& f[0] == seq!['a'] && f.len() < 2 ==> r == few("ack"@, seq!['2'])
            &&& f[0] == seq!['e'] && f.len() < 3 ==> r == few("error"@, seq!['3'])
            &&& f[0] == seq!['a'] && f.len() >= 2 && id is None ==> r == bad("request_id"@, f[1])
            &&& f[0] == seq!['e'] && f.len() >= 3 ==> {
                &&& id is None ==> r == bad("request_id"@, f[1])
                &&& id is Some && unescape(f[2]) is Err ==> r == Err::<DaemonView, Seq<char>>(
                    unescape(f[2])->Err_0,
                )
            }
            &&& f[0] == seq!['s'] && f.len() >= 7 ==> {
                let count = number::read_natural(f[2], most);
                let index = number::read_natural(f[3], most);
                let scored = number::is_float_literal(f[4]);
                &&& id is None ==> r == bad("request_id"@, f[1])
                &&& id is Some && count is None ==> r == bad("candidate_count"@, f[2])
                &&& id is Some && count is Some && index is None ==> r == bad(
                    "candidate_index"@,
                    f[3],
                )
                &&& id is Some && count is Some && index is Some && !scored ==> r == bad(
                    "score"@,
                    f[4],
                )
                &&& id is Some && count is Some && index is Some && scored && unescape(f[5])
                    is Err ==> r == Err::<DaemonView, Seq<char>>(unescape(f[5])->Err_0)
                &&& id is Some && count is Some && index is Some && scored && unescape(f[5])
                    is Ok && unescape(f[6]) is Err ==> r == Err::<DaemonView, Seq<char>>(
                    unescape(f[6])->Err_0,
                )
            }
        }),
{
    lemma_letters();
    lemma_tags();
    number::law_digits(Seq::empty(), 0, 7);
    number::law_digits(Seq::empty(), 0, 2);
    number::law_digits(Seq::empty(), 0, 3);
}

} // verus!
