use vstd::prelude::*;

use crate::framing::{frame_bytes, frame_message};
use crate::output_buffer::{append_terminal_output, retained};
use crate::registry::{lookup, without};
use crate::utf8_stream::{
    decode_terminal_output_chunk, flush_terminal_output, lossy_decode, settle,
};
use crate::text::{
    all_digits, digits_value, equals_range, is_digit, lemma_decimal_spells, lemma_digits_grow,
    starts_with_range,
    chars_of, contains, decimal, decimal_chars, find_in, push_all,
    string_of, string_of_all, trim, trim_range,
};

verus! {

/// Columns of a new terminal.
pub const DEFAULT_TERMINAL_COLS: u16 = 120;

/// Rows of a new terminal.
pub const DEFAULT_TERMINAL_ROWS: u16 = 30;

/// Where a session stands. A session only ever moves forward:
/// running, then disconnected or closed; disconnected, then closed.
#[derive(Clone, Copy, Debug, PartialEq, Eq, Structural)]
pub enum SessionStatus {
    Running,
    Disconnected,
    Closed,
}

impl SessionStatus {
    /// Position along the one direction a session moves in.
    pub open spec fn rank(self) -> nat {
        match self {
            SessionStatus::Running => 0,
            SessionStatus::Disconnected => 1,
            SessionStatus::Closed => 2,
        }
    }

    pub open spec fn label_text(self) -> Seq<char> {
        match self {
            SessionStatus::Running => "running"@,
            SessionStatus::Disconnected => "disconnected"@,
            SessionStatus::Closed => "closed"@,
        }
    }

    /// The status as shown to users.
    pub fn label(&self) -> (r: String)
        ensures
            r@ == self.label_text(),
    {
        match self {
            SessionStatus::Running => "running".to_owned(),
            SessionStatus::Disconnected => "disconnected".to_owned(),
            SessionStatus::Closed => "closed".to_owned(),
        }
    }
}

/// The status after the reader of a session saw its output end: a running
/// session becomes disconnected; an explicit close is never overridden.
pub open spec fn after_disconnect(s: SessionStatus) -> SessionStatus {
    if s == SessionStatus::Running {
        SessionStatus::Disconnected
    } else {
        s
    }
}

/// Why a command on a session failed.
#[derive(Clone, Copy, Debug, PartialEq, Eq, Structural)]
pub enum SessionError {
    /// No session has the given id.
    NotFound,
    /// The session no longer runs.
    NotRunning,
    /// A terminal size with zero columns or rows.
    InvalidSize,
    /// A payload that is empty or only white space.
    EmptyPayload,
    /// A server command that is empty or only white space.
    EmptyCommand,
}

/// What writing `input` to a terminal in status `status` does: `Ok(false)` where
/// there is nothing to write, `Ok(true)` where the bytes go to the terminal.
pub open spec fn write_outcome(status: SessionStatus, input: Seq<char>) -> Result<bool, SessionError> {
    if input.len() == 0 {
        Ok(false)
    } else if status != SessionStatus::Running {
        Err(SessionError::NotRunning)
    } else {
        Ok(true)
    }
}

/// The outcome of checking a terminal size.
pub open spec fn size_outcome(cols: u16, rows: u16) -> Result<(), SessionError> {
    if cols == 0 || rows == 0 {
        Err(SessionError::InvalidSize)
    } else {
        Ok(())
    }
}

/// A terminal size must have at least one column and one row.
pub fn validate_terminal_size(cols: u16, rows: u16) -> (r: Result<(), SessionError>)
    ensures
        r == size_outcome(cols, rows),
{
    if cols == 0 || rows == 0 {
        Err(SessionError::InvalidSize)
    } else {
        Ok(())
    }
}

/// `prefix` followed by the decimal text of `n`.
fn numbered(prefix: &str, n: u64) -> (r: String)
    ensures
        r@ == prefix@ + decimal(n as nat),
{
    let mut cs = chars_of(prefix);
    let digits = decimal_chars(n);
    push_all(&mut cs, &digits);
    string_of_all(&cs)
}

/// The state of a terminal session that its commands and its reader act on:
/// everything but the operating-system handles.
pub struct TerminalSession {
    pub id: u64,
    pub title: String,
    pub shell: String,
    pub cwd: String,
    pub status: SessionStatus,
    pub cols: u16,
    pub rows: u16,
    /// What the terminal printed, oldest first, within the buffer's capacity.
    pub buffer: String,
}

/// Public description of a terminal session.
pub struct TerminalSessionInfo {
    pub id: String,
    pub title: String,
    pub shell: String,
    pub cwd: String,
    pub status: String,
    pub cols: u16,
    pub rows: u16,
}

/// A terminal session's description together with its buffered output.
pub struct TerminalSessionSnapshot {
    pub session: TerminalSessionInfo,
    pub buffer: String,
}

impl TerminalSession {
    /// A new running terminal with an empty buffer and the default size.
    pub fn new(id: u64, shell: String, cwd: String) -> (r: Self)
        ensures
            r.id == id,
            r.title@ == "Terminal "@ + decimal(id as nat),
            r.shell == shell,
            r.cwd == cwd,
            r.status == SessionStatus::Running,
            r.cols == DEFAULT_TERMINAL_COLS,
            r.rows == DEFAULT_TERMINAL_ROWS,
            r.buffer@.len() == 0,
    {
        TerminalSession {
            id,
            title: numbered("Terminal ", id),
            shell,
            cwd,
            status: SessionStatus::Running,
            cols: DEFAULT_TERMINAL_COLS,
            rows: DEFAULT_TERMINAL_ROWS,
            buffer: String::new(),
        }
    }

    /// The id as users see it.
    pub fn id_text(&self) -> (r: String)
        ensures
            r@ == "terminal-"@ + decimal(self.id as nat),
    {
        numbered("terminal-", self.id)
    }

    /// Decides a write of `input`: empty input is a no-op that succeeds; a session
    /// that no longer runs refuses; otherwise the bytes are to be written as they are.
    pub fn check_write(&self, input: &str) -> (r: Result<bool, SessionError>)
        ensures
            r == write_outcome(self.status, input@),
    {
        if input.is_empty() {
            Ok(false)
        } else if self.status != SessionStatus::Running {
            Err(SessionError::NotRunning)
        } else {
            Ok(true)
        }
    }

    /// Records a new size. A size with a zero dimension fails and changes nothing.
    pub fn apply_resize(&mut self, cols: u16, rows: u16) -> (r: Result<(), SessionError>)
        ensures
            r == size_outcome(cols, rows),
            r is Err ==> final(self).cols == old(self).cols && final(self).rows == old(self).rows,
            r is Ok ==> final(self).cols == cols && final(self).rows == rows,
            final(self).id == old(self).id,
            final(self).status == old(self).status,
            final(self).buffer == old(self).buffer,
            final(self).title == old(self).title,
    {
        if cols == 0 || rows == 0 {
            return Err(SessionError::InvalidSize);
        }
        self.cols = cols;
        self.rows = rows;
        Ok(())
    }

    /// Empties the buffered output; nothing else changes.
    pub fn clear(&mut self)
        ensures
            final(self).buffer@.len() == 0,
            final(self).id == old(self).id,
            final(self).status == old(self).status,
            final(self).cols == old(self).cols,
            final(self).rows == old(self).rows,
    {
        self.buffer = String::new();
    }

    /// Appends decoded output to the buffer, evicting the oldest characters
    /// beyond its capacity.
    pub fn append_output(&mut self, chunk: &str)
        ensures
            final(self).buffer@ == retained(old(self).buffer@ + chunk@),
            final(self).id == old(self).id,
            final(self).status == old(self).status,
            final(self).cols == old(self).cols,
            final(self).rows == old(self).rows,
    {
        append_terminal_output(&mut self.buffer, chunk);
    }

    /// The reader saw the output end.
    pub fn mark_disconnected(&mut self)
        ensures
            final(self).status == after_disconnect(old(self).status),
            old(self).status.rank() <= final(self).status.rank(),
            final(self).id == old(self).id,
            final(self).buffer == old(self).buffer,
    {
        if self.status == SessionStatus::Running {
            self.status = SessionStatus::Disconnected;
        }
    }

    /// The session was closed by a command.
    pub fn mark_closed(&mut self)
        ensures
            final(self).status == SessionStatus::Closed,
            old(self).status.rank() <= final(self).status.rank(),
            final(self).id == old(self).id,
            final(self).buffer == old(self).buffer,
    {
        self.status = SessionStatus::Closed;
    }

    pub fn info(&self) -> (r: TerminalSessionInfo)
        ensures
            r.id@ == "terminal-"@ + decimal(self.id as nat),
            r.title == self.title,
            r.shell == self.shell,
            r.cwd == self.cwd,
            r.status@ == self.status.label_text(),
            r.cols == self.cols,
            r.rows == self.rows,
    {
        TerminalSessionInfo {
            id: self.id_text(),
            title: self.title.clone(),
            shell: self.shell.clone(),
            cwd: self.cwd.clone(),
            status: self.status.label(),
            cols: self.cols,
            rows: self.rows,
        }
    }

    pub fn snapshot(&self) -> (r: TerminalSessionSnapshot)
        ensures
            r.session.id@ == "terminal-"@ + decimal(self.id as nat),
            r.session.title == self.title,
            r.session.shell == self.shell,
            r.session.cwd == self.cwd,
            r.session.status@ == self.status.label_text(),
            r.session.cols == self.cols,
            r.session.rows == self.rows,
            r.buffer == self.buffer,
    {
        TerminalSessionSnapshot { session: self.info(), buffer: self.buffer.clone() }
    }
}

/// Writing to a terminal after it was closed fails, whatever is written: the
/// closed session is no longer in the registry, so a lookup of its id finds
/// nothing, and a handle taken before the close sees it closed and refuses.
/// Checking a write changes nothing, since it only reads the session.
pub proof fn lemma_write_after_close<H>(entries: Seq<(u64, H)>, id: u64, input: Seq<char>)
    requires
        input.len() > 0,
    ensures
        lookup(without(entries, id), id) is None,
        write_outcome(SessionStatus::Closed, input) == Err::<bool, SessionError>(
            SessionError::NotRunning,
        ),
        write_outcome(after_disconnect(SessionStatus::Closed), input) == Err::<bool, SessionError>(
            SessionError::NotRunning,
        ),
{
    crate::registry::lemma_removal_exactly_once(entries, id);
}

/// A resize with a zero dimension fails.
pub proof fn lemma_zero_size_fails(cols: u16, rows: u16)
    requires
        cols == 0 || rows == 0,
    ensures
        size_outcome(cols, rows) == Err::<(), SessionError>(SessionError::InvalidSize),
{
}

/// The status never moves backward: a disconnect after a close keeps it closed,
/// and no transition leads back to running.
pub proof fn lemma_status_monotonic(s: SessionStatus)
    ensures
        s.rank() <= after_disconnect(s).rank(),
        s == SessionStatus::Closed ==> after_disconnect(s) == SessionStatus::Closed,
        s != SessionStatus::Running ==> after_disconnect(s) != SessionStatus::Running,
{
}

/// The state of a protocol-server session: everything but the operating-system
/// handles.
pub struct ProtocolSession {
    pub id: u64,
    pub server: String,
    pub root_path: String,
    pub status: SessionStatus,
}

/// Public description of a protocol-server session.
pub struct ProtocolSessionInfo {
    pub id: String,
    pub server: String,
    pub root_path: String,
    pub status: String,
}

/// What sending `payload` on a session in status `status` gives: the frame to
/// write, or the reason it is refused.
pub open spec fn send_outcome(status: SessionStatus, payload: Seq<char>) -> Result<Seq<u8>, SessionError> {
    if trim(payload).len() == 0 {
        Err(SessionError::EmptyPayload)
    } else if status != SessionStatus::Running {
        Err(SessionError::NotRunning)
    } else {
        Ok(frame_bytes(payload))
    }
}

impl ProtocolSession {
    pub fn new(id: u64, server: String, root_path: String) -> (r: Self)
        ensures
            r.id == id,
            r.server == server,
            r.root_path == root_path,
            r.status == SessionStatus::Running,
    {
        ProtocolSession { id, server, root_path, status: SessionStatus::Running }
    }

    /// The id as users see it.
    pub fn id_text(&self) -> (r: String)
        ensures
            r@ == "lsp-"@ + decimal(self.id as nat),
    {
        numbered("lsp-", self.id)
    }

    /// Decides a send: a blank payload and a session that no longer runs are
    /// refused; otherwise the result is the exact bytes to write, in one go.
    pub fn check_send(&self, payload: &str) -> (r: Result<Vec<u8>, SessionError>)
        ensures
            match send_outcome(self.status, payload@) {
                Ok(bytes) => (r matches Ok(v) && v@ == bytes),
                Err(e) => r == Err::<Vec<u8>, SessionError>(e),
            },
    {
        let cs = chars_of(payload);
        let (lo, hi) = trim_range(&cs, 0, cs.len());
        assert(cs@.subrange(0, cs@.len() as int) =~= cs@);
        if lo == hi {
            return Err(SessionError::EmptyPayload);
        }
        if self.status != SessionStatus::Running {
            return Err(SessionError::NotRunning);
        }
        Ok(frame_message(payload))
    }

    /// A reader saw the server's output end.
    pub fn mark_disconnected(&mut self)
        ensures
            final(self).status == after_disconnect(old(self).status),
            old(self).status.rank() <= final(self).status.rank(),
            final(self).id == old(self).id,
    {
        if self.status == SessionStatus::Running {
            self.status = SessionStatus::Disconnected;
        }
    }

    /// The session was stopped by a command.
    pub fn mark_closed(&mut self)
        ensures
            final(self).status == SessionStatus::Closed,
            old(self).status.rank() <= final(self).status.rank(),
            final(self).id == old(self).id,
    {
        self.status = SessionStatus::Closed;
    }

    pub fn info(&self) -> (r: ProtocolSessionInfo)
        ensures
            r.id@ == "lsp-"@ + decimal(self.id as nat),
            r.server == self.server,
            r.root_path == self.root_path,
            r.status@ == self.status.label_text(),
    {
        ProtocolSessionInfo {
            id: self.id_text(),
            server: self.server.clone(),
            root_path: self.root_path.clone(),
            status: self.status.label(),
        }
    }
}

/// A server command, trimmed; an empty one is refused.
pub fn validate_server_command(server: &str) -> (r: Result<String, SessionError>)
    ensures
        trim(server@).len() == 0 ==> r == Err::<String, SessionError>(SessionError::EmptyCommand),
        trim(server@).len() > 0 ==> (r matches Ok(s) && s@ == trim(server@)),
{
    let cs = chars_of(server);
    let (lo, hi) = trim_range(&cs, 0, cs.len());
    assert(cs@.subrange(0, cs@.len() as int) =~= cs@);
    if lo == hi {
        Err(SessionError::EmptyCommand)
    } else {
        Ok(string_of(cs.as_slice(), lo, hi))
    }
}

/// The shell to start: the one asked for, trimmed, or the default where none
/// or a blank one was asked for.
pub fn resolve_shell(shell: Option<&str>) -> (r: String)
    ensures
        (shell matches Some(s) && trim(s@).len() > 0) ==> r@ == trim(shell.unwrap()@),
        !(shell matches Some(s) && trim(s@).len() > 0) ==> r@ == "powershell.exe"@,
{
    match shell {
        Some(s) => {
            let cs = chars_of(s);
            let (lo, hi) = trim_range(&cs, 0, cs.len());
            assert(cs@.subrange(0, cs@.len() as int) =~= cs@);
            if lo == hi {
                "powershell.exe".to_owned()
            } else {
                string_of(cs.as_slice(), lo, hi)
            }
        },
        None => "powershell.exe".to_owned(),
    }
}

/// What `str::to_lowercase` returns for a text.
pub uninterp spec fn lower_of(s: Seq<char>) -> Seq<char>;

/// Relies on str::to_lowercase: the lowercase mapping of each character, which
/// depends on the text alone.
#[verifier::external_body]
pub(crate) fn lowercase(s: &str) -> (r: String)
    ensures
        r@ == lower_of(s@),
{
    s.to_lowercase()
}

/// Whether a shell is of the PowerShell family, judged by its name in lowercase.
pub open spec fn is_powershell(lower: Seq<char>) -> bool {
    contains(lower, "powershell"@) || contains(lower, "pwsh"@)
}

/// The arguments a shell is started with: PowerShell-family shells skip their
/// profile and logo and run with an unrestricted execution policy.
pub fn terminal_spawn_args(shell: &str) -> (r: Vec<String>)
    ensures
        is_powershell(lower_of(shell@)) ==> r@.len() == 4 && r@[0]@ == "-NoLogo"@ && r@[1]@
            == "-NoProfile"@ && r@[2]@ == "-ExecutionPolicy"@ && r@[3]@ == "Bypass"@,
        !is_powershell(lower_of(shell@)) ==> r@.len() == 0,
{
    let lower = lowercase(shell);
    spawn_args_for_lowercase(lower.as_str())
}

/// The start arguments of a shell whose name, in lowercase, is `lower`.
pub fn spawn_args_for_lowercase(lower: &str) -> (r: Vec<String>)
    ensures
        is_powershell(lower@) ==> r@.len() == 4 && r@[0]@ == "-NoLogo"@ && r@[1]@ == "-NoProfile"@
            && r@[2]@ == "-ExecutionPolicy"@ && r@[3]@ == "Bypass"@,
        !is_powershell(lower@) ==> r@.len() == 0,
{
    let cs = chars_of(lower);
    let a = chars_of("powershell");
    let b = chars_of("pwsh");
    assert(cs@.subrange(0, cs@.len() as int) =~= cs@);
    let found = find_in(&cs, 0, cs.len(), &a).is_some() || find_in(&cs, 0, cs.len(), &b).is_some();
    let mut r: Vec<String> = Vec::new();
    if found {
        r.push("-NoLogo".to_owned());
        r.push("-NoProfile".to_owned());
        r.push("-ExecutionPolicy".to_owned());
        r.push("Bypass".to_owned());
    }
    r
}

/// Reads a session id as users see it (`prefix` then the number in decimal)
/// back into the number; `None` for any text that no number gives.
pub fn parse_session_id(prefix: &str, text: &str) -> (r: Option<u64>)
    ensures
        r matches Some(n) ==> text@ == prefix@ + decimal(n as nat),
        r is None ==> forall|n: u64| text@ != prefix@ + decimal(n as nat),
{
    let cs = chars_of(text);
    let p = chars_of(prefix);
    let len = cs.len();
    assert(cs@.subrange(0, len as int) =~= cs@);
    if !starts_with_range(&cs, 0, len, &p) {
        assert forall|n: u64| text@ != prefix@ + decimal(n as nat) by {
            if text@ == prefix@ + decimal(n as nat) {
                assert(cs@.subrange(0, p@.len() as int) =~= p@);
            }
        }
        return None;
    }
    let start = p.len();
    let ghost suffix = cs@.subrange(start as int, len as int);
    assert forall|n: u64| text@ == prefix@ + decimal(n as nat) implies suffix == decimal(n as nat) by {
        assert(suffix =~= (prefix@ + decimal(n as nat)).subrange(start as int, len as int));
        assert((prefix@ + decimal(n as nat)).subrange(start as int, len as int) =~= decimal(n as nat));
    }
    if start == len {
        assert forall|n: u64| text@ != prefix@ + decimal(n as nat) by {
            lemma_decimal_spells(n as nat);
        }
        return None;
    }
    let mut value: u64 = 0;
    let mut i = start;
    while i < len
        invariant
            start <= i <= len,
            len == cs@.len(),
            suffix == cs@.subrange(start as int, len as int),
            all_digits(cs@.subrange(start as int, i as int)),
            value as nat == digits_value(cs@.subrange(start as int, i as int)),
            forall|n: u64| text@ == prefix@ + decimal(n as nat) ==> suffix == decimal(n as nat),
        decreases len - i,
    {
        let c = cs[i];
        if !('0' <= c && c <= '9') {
            assert forall|n: u64| text@ != prefix@ + decimal(n as nat) by {
                if text@ == prefix@ + decimal(n as nat) {
                    lemma_decimal_spells(n as nat);
                    assert(is_digit(suffix[i - start]));
                }
            }
            return None;
        }
        let d = (c as u32 - '0' as u32) as u64;
        assert(cs@.subrange(start as int, i + 1).drop_last() =~= cs@.subrange(start as int, i as int));
        if value > (u64::MAX - d) / 10 {
            assert forall|n: u64| text@ != prefix@ + decimal(n as nat) by {
                if text@ == prefix@ + decimal(n as nat) {
                    lemma_decimal_spells(n as nat);
                    assert(value * 10 + d > u64::MAX) by (nonlinear_arith)
                        requires
                            value > (u64::MAX - d) / 10,
                            d <= 9,
                    ;
                    lemma_digits_grow(suffix, (i - start + 1) as int);
                    assert(suffix.subrange(0, i - start + 1) =~= cs@.subrange(start as int, i + 1));
                }
            }
            return None;
        }
        value = value * 10 + d;
        i = i + 1;
    }
    assert(cs@.subrange(start as int, i as int) =~= suffix);
    let rendered = decimal_chars(value);
    if equals_range(&cs, start, len, &rendered) {
        assert(text@ =~= prefix@ + decimal(value as nat)) by {
            assert(cs@.subrange(0, start as int) =~= p@);
            assert(cs@ =~= cs@.subrange(0, start as int) + suffix);
        }
        Some(value)
    } else {
        assert forall|n: u64| text@ != prefix@ + decimal(n as nat) by {
            if text@ == prefix@ + decimal(n as nat) {
                lemma_decimal_spells(n as nat);
            }
        }
        None
    }
}

/// What a line the server wrote to its error stream is shown as: the line
/// trimmed, or nothing for a blank line.
pub fn diagnostic_line(line: &str) -> (r: Option<String>)
    ensures
        trim(line@).len() == 0 ==> r is None,
        trim(line@).len() > 0 ==> (r matches Some(s) && s@ == trim(line@)),
{
    let cs = chars_of(line);
    let (lo, hi) = trim_range(&cs, 0, cs.len());
    assert(cs@.subrange(0, cs@.len() as int) =~= cs@);
    if lo == hi {
        None
    } else {
        Some(string_of(cs.as_slice(), lo, hi))
    }
}

/// A payload to send must hold something besides white space.
pub fn check_payload(payload: &str) -> (r: Result<(), SessionError>)
    ensures
        trim(payload@).len() == 0 ==> r == Err::<(), SessionError>(SessionError::EmptyPayload),
        trim(payload@).len() > 0 ==> r == Ok::<(), SessionError>(()),
{
    let cs = chars_of(payload);
    let (lo, hi) = trim_range(&cs, 0, cs.len());
    assert(cs@.subrange(0, cs@.len() as int) =~= cs@);
    if lo == hi {
        Err(SessionError::EmptyPayload)
    } else {
        Ok(())
    }
}

/// What the reader of a terminal holds between reads: the bytes of a character
/// that a read split.
pub struct TerminalReader {
    pub pending: Vec<u8>,
}

impl TerminalReader {
    pub fn new() -> (r: Self)
        ensures
            r.pending@.len() == 0,
    {
        TerminalReader { pending: Vec::new() }
    }

    /// Takes the bytes of one read; returns the text to append to the buffer and
    /// announce, or nothing where the read settled no character.
    pub fn on_read(&mut self, bytes: &[u8]) -> (r: Option<String>)
        ensures
            final(self).pending@ == settle(old(self).pending@ + bytes@).1,
            settle(old(self).pending@ + bytes@).0.len() == 0 ==> r is None,
            settle(old(self).pending@ + bytes@).0.len() > 0 ==> (r matches Some(t) && t@ == settle(
                old(self).pending@ + bytes@,
            ).0),
    {
        let chunk = decode_terminal_output_chunk(&mut self.pending, bytes);
        if chunk.as_str().is_empty() {
            None
        } else {
            Some(chunk)
        }
    }

    /// The stream ended: returns the text that the held-back bytes stand for, if any.
    pub fn on_end(&mut self) -> (r: Option<String>)
        ensures
            final(self).pending@.len() == 0,
            lossy_decode(old(self).pending@).len() == 0 ==> r is None,
            lossy_decode(old(self).pending@).len() > 0 ==> (r matches Some(t) && t@ == lossy_decode(
                old(self).pending@,
            )),
    {
        let rest = flush_terminal_output(&mut self.pending);
        if rest.as_str().is_empty() {
            None
        } else {
            Some(rest)
        }
    }
}

} // verus!
