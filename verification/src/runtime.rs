//! What a whole graph shares while it runs: its first error, whether it was
//! cancelled, how much is queued, the counters of its kernels and its log.

use crate::config::{GraphConfig, GraphView};
use crate::packet::TypeNames;
use crate::status::{Error, ErrorView};
use crate::text::{cat2, chars_of, texts};
use crate::text_map::{ascending, TextMap};
use vstd::prelude::*;

verus! {

pub const LOG_ERROR: i32 = 0;

pub const LOG_WARN: i32 = 1;

pub const LOG_INFO: i32 = 2;

pub const LOG_DEBUG: i32 = 3;

/// The stream ended by itself.
pub const CLOSE_NORMAL: i32 = 0;

/// The graph failed.
pub const CLOSE_ERROR: i32 = 1;

/// The graph was cancelled.
pub const CLOSE_CANCELLED: i32 = 2;

/// One line of the log, still to be handed to whoever listens.
pub struct LogLine {
    pub level: i32,
    pub text: String,
}

#[verifier::ext_equal]
pub struct LineView {
    pub level: i32,
    pub text: Seq<char>,
}

impl View for LogLine {
    type V = LineView;

    open spec fn view(&self) -> LineView {
        LineView { level: self.level, text: self.text@ }
    }
}

/// The lines of a log.
pub open spec fn line_views(lines: Seq<LogLine>) -> Seq<LineView> {
    Seq::new(lines.len(), |i: int| lines[i]@)
}

/// A log with one more line. A text with a zero within cannot be handed out,
/// so it makes no line.
pub open spec fn logged(lines: Seq<LineView>, level: i32, text: Seq<char>) -> Seq<LineView> {
    if text.contains('\0') {
        lines
    } else {
        lines.push(LineView { level, text })
    }
}

/// Whether a text holds a zero.
fn holds_zero(msg: &str) -> (r: bool)
    ensures
        r == msg@.contains('\0'),
{
    let chars = chars_of(msg);
    for i in 0..chars.len()
        invariant
            chars@ == msg@,
            forall|k: int| 0 <= k < i ==> #[trigger] msg@[k] != '\0',
    {
        if chars[i] == '\0' {
            assert(msg@[i as int] == '\0');
            return true;
        }
    }
    false
}

/// Adds a line to a log, unless its text holds a zero.
pub fn log(lines: &mut Vec<LogLine>, level: i32, msg: &str)
    ensures
        line_views(final(lines)@) == logged(line_views(old(lines)@), level, msg@),
{
    if !holds_zero(msg) {
        lines.push(LogLine { level, text: msg.to_owned() });
        assert(line_views(lines@) =~= line_views(old(lines)@).push(
            LineView { level, text: msg@ },
        ));
    }
}

/// Adds a warning to a log.
pub fn log_warn(lines: &mut Vec<LogLine>, msg: &str)
    ensures
        line_views(final(lines)@) == logged(line_views(old(lines)@), LOG_WARN, msg@),
{
    log(lines, LOG_WARN, msg);
}

/// Adds a note to a log.
pub fn log_info(lines: &mut Vec<LogLine>, msg: &str)
    ensures
        line_views(final(lines)@) == logged(line_views(old(lines)@), LOG_INFO, msg@),
{
    log(lines, LOG_INFO, msg);
}

// ------------------------------------------------------------- the last error

/// The text of the last error of one thread, as the boundary reports it.
pub struct LastError {
    text: String,
}

/// `msg` as a text that ends at its first zero can hold it: nothing at all if
/// there is a zero within.
pub open spec fn without_zero(msg: Seq<char>) -> Seq<char> {
    if msg.contains('\0') {
        Seq::empty()
    } else {
        msg
    }
}

/// A copy of a text as the boundary hands it out.
pub fn interned(text: &str) -> (r: String)
    ensures
        r@ == without_zero(text@),
{
    if holds_zero(text) {
        String::new()
    } else {
        text.to_owned()
    }
}

impl View for LastError {
    type V = Seq<char>;

    closed spec fn view(&self) -> Seq<char> {
        self.text@
    }
}

impl LastError {
    /// No error yet.
    pub fn new() -> (r: LastError)
        ensures
            r@ == Seq::<char>::empty(),
    {
        LastError { text: String::new() }
    }

    /// Remembers a text.
    pub fn set(&mut self, msg: &str)
        ensures
            final(self)@ == without_zero(msg@),
    {
        self.text = interned(msg);
    }

    /// A copy of the text.
    pub fn take(&self) -> (r: String)
        ensures
            r@ == self@,
    {
        self.text.clone()
    }
}

// ------------------------------------------------------------ the shared state

/// What the nodes of a graph share.
pub struct GraphShared {
    config: GraphConfig,
    error: Option<Error>,
    cancelled: bool,
    total_queued: usize,
    total_queued_bytes: u64,
    counters: TextMap<i64>,
    type_names: TypeNames,
    lines: Vec<LogLine>,
}

#[verifier::ext_equal]
pub struct SharedView {
    pub config: GraphView,
    /// The first failure of the graph.
    pub error: Option<ErrorView>,
    pub cancelled: bool,
    /// How many packets wait in queues.
    pub queued: usize,
    /// How many bytes wait in queues.
    pub bytes: u64,
    pub counters: Map<Seq<char>, i64>,
    /// What the types of payloads are called.
    pub type_names: Map<u64, Seq<char>>,
    pub log: Seq<LineView>,
}

/// An optional error with its message as a text.
pub open spec fn optional_error(e: Option<Error>) -> Option<ErrorView> {
    match e {
        Some(e) => Some(e@),
        None => None,
    }
}

impl View for GraphShared {
    type V = SharedView;

    closed spec fn view(&self) -> SharedView {
        SharedView {
            config: self.config@,
            error: optional_error(self.error),
            cancelled: self.cancelled,
            queued: self.total_queued,
            bytes: self.total_queued_bytes,
            counters: self.counters@,
            type_names: self.type_names@,
            log: line_views(self.lines@),
        }
    }
}

impl SharedView {
    /// With one more line in the log, unless its text holds a zero.
    pub open spec fn noted(self, level: i32, text: Seq<char>) -> SharedView {
        SharedView { log: logged(self.log, level, text), ..self }
    }

    /// After a failure. The first one is kept; of a later one only the log
    /// knows.
    pub open spec fn failed(self, e: ErrorView) -> SharedView {
        if self.error is None {
            (SharedView { error: Some(e), ..self }).noted(LOG_ERROR, e.text())
        } else {
            self.noted(LOG_WARN, "(后续错误,已忽略) "@ + e.text())
        }
    }

    /// Whether nothing new may be started: the graph failed or was cancelled.
    pub open spec fn stopped(self) -> bool {
        self.error is Some || self.cancelled
    }

    /// Why a kernel is closed now. That the graph was cancelled comes before
    /// that it failed.
    pub open spec fn close_reason(self) -> i32 {
        if self.cancelled {
            CLOSE_CANCELLED
        } else if self.error is Some {
            CLOSE_ERROR
        } else {
            CLOSE_NORMAL
        }
    }

    /// After a packet of `bytes` bytes was queued. The two totals are machine
    /// counters: they start again at zero past their end.
    pub open spec fn enqueued(self, bytes: u64) -> SharedView {
        SharedView {
            queued: if self.queued == usize::MAX {
                0
            } else {
                (self.queued + 1) as usize
            },
            bytes: if self.bytes + bytes > u64::MAX {
                (self.bytes + bytes - u64::MAX - 1) as u64
            } else {
                (self.bytes + bytes) as u64
            },
            ..self
        }
    }

    /// After a packet of `bytes` bytes left its queue. Neither total falls
    /// below zero.
    pub open spec fn dequeued(self, bytes: u64) -> SharedView {
        SharedView {
            queued: if self.queued == 0 {
                0
            } else {
                (self.queued - 1) as usize
            },
            bytes: if self.bytes < bytes {
                0
            } else {
                (self.bytes - bytes) as u64
            },
            ..self
        }
    }

    /// Whether a limit of the whole graph is reached. A limit of zero is none.
    pub open spec fn over_watermark(self) -> bool {
        ||| self.config.max_queued_packets > 0 && self.queued >= self.config.max_queued_packets
        ||| self.config.max_queued_bytes > 0 && self.bytes >= self.config.max_queued_bytes
    }

    /// The value of a counter; zero where it was never counted.
    pub open spec fn counter(self, name: Seq<char>) -> i64 {
        if self.counters.contains_key(name) {
            self.counters[name]
        } else {
            0
        }
    }
}

impl GraphShared {
    /// The shared state of a graph that has not run.
    pub fn new(config: GraphConfig) -> (s: GraphShared)
        ensures
            s@.config == config@,
            s@.error is None,
            !s@.cancelled,
            s@.queued == 0,
            s@.bytes == 0,
            s@.counters == Map::<Seq<char>, i64>::empty(),
            s@.type_names == Map::<u64, Seq<char>>::empty(),
            s@.log == Seq::<LineView>::empty(),
    {
        let s = GraphShared {
            config,
            error: None,
            cancelled: false,
            total_queued: 0,
            total_queued_bytes: 0,
            counters: TextMap::new(),
            type_names: TypeNames::new(),
            lines: Vec::new(),
        };
        assert(line_views(s.lines@) =~= Seq::<LineView>::empty());
        s
    }

    /// The configuration of the graph.
    pub fn config(&self) -> (r: &GraphConfig)
        ensures
            r@ == self@.config,
    {
        &self.config
    }

    /// Says what the types of payloads are called.
    pub fn set_type_names(&mut self, names: TypeNames)
        ensures
            final(self)@ == (SharedView { type_names: names@, ..old(self)@ }),
    {
        self.type_names = names;
    }

    /// What the types of payloads are called.
    pub fn type_names(&self) -> (r: &TypeNames)
        ensures
            r@ == self@.type_names,
    {
        &self.type_names
    }

    /// Adds a line to the log.
    pub fn note(&mut self, level: i32, msg: &str)
        ensures
            final(self)@ == old(self)@.noted(level, msg@),
    {
        log(&mut self.lines, level, msg);
    }

    /// Hands out the lines of the log and empties it.
    pub fn take_log(&mut self) -> (lines: Vec<LogLine>)
        ensures
            line_views(lines@) == old(self)@.log,
            final(self)@ == (SharedView { log: Seq::empty(), ..old(self)@ }),
    {
        let mut lines: Vec<LogLine> = Vec::new();
        std::mem::swap(&mut lines, &mut self.lines);
        assert(line_views(self.lines@) =~= Seq::<LineView>::empty());
        lines
    }

    /// Remembers a failure, unless there was one before.
    pub fn record_error(&mut self, e: Error)
        ensures
            final(self)@ == old(self)@.failed(e@),
    {
        let msg = e.text();
        if self.error.is_none() {
            self.error = Some(e);
            self.note(LOG_ERROR, msg.as_str());
        } else {
            self.note(LOG_WARN, cat2("(后续错误,已忽略) ", msg.as_str()).as_str());
        }
    }

    /// Whether the graph failed.
    pub fn has_error(&self) -> (r: bool)
        ensures
            r == (self@.error is Some),
    {
        self.error.is_some()
    }

    /// A copy of the first failure.
    pub fn first_error(&self) -> (r: Option<Error>)
        ensures
            optional_error(r) == self@.error,
    {
        match &self.error {
            Some(e) => Some(e.duplicate()),
            None => None,
        }
    }

    /// The text of the first failure, empty if there is none.
    pub fn error_text(&self) -> (r: String)
        ensures
            r@ == match self@.error {
                Some(e) => e.text(),
                None => Seq::<char>::empty(),
            },
    {
        match &self.error {
            Some(e) => e.text(),
            None => String::new(),
        }
    }

    /// Cancels the graph.
    pub fn cancel(&mut self)
        ensures
            final(self)@ == (SharedView { cancelled: true, ..old(self)@ }),
    {
        self.cancelled = true;
    }

    /// Whether the graph was cancelled.
    pub fn is_cancelled(&self) -> (r: bool)
        ensures
            r == self@.cancelled,
    {
        self.cancelled
    }

    /// Why a kernel is closed now.
    pub fn close_reason(&self) -> (r: i32)
        ensures
            r == self@.close_reason(),
    {
        if self.is_cancelled() {
            CLOSE_CANCELLED
        } else if self.has_error() {
            CLOSE_ERROR
        } else {
            CLOSE_NORMAL
        }
    }

    /// Counts a packet that was queued.
    pub fn on_enqueue(&mut self, bytes: u64)
        ensures
            final(self)@ == old(self)@.enqueued(bytes),
    {
        self.total_queued = self.total_queued.wrapping_add(1);
        self.total_queued_bytes = self.total_queued_bytes.wrapping_add(bytes);
    }

    /// Counts a packet that left its queue.
    pub fn on_dequeue(&mut self, bytes: u64)
        ensures
            final(self)@ == old(self)@.dequeued(bytes),
    {
        self.total_queued = self.total_queued.saturating_sub(1);
        self.total_queued_bytes = self.total_queued_bytes.saturating_sub(bytes);
    }

    /// How many packets wait in queues.
    pub fn total_queued(&self) -> (r: usize)
        ensures
            r == self@.queued,
    {
        self.total_queued
    }

    /// How many bytes wait in queues.
    pub fn total_queued_bytes(&self) -> (r: u64)
        ensures
            r == self@.bytes,
    {
        self.total_queued_bytes
    }

    /// Whether a limit of the whole graph is reached.
    pub fn over_watermark(&self) -> (r: bool)
        ensures
            r == self@.over_watermark(),
    {
        let packets: usize = self.config.max_queued_packets;
        let bytes: u64 = self.config.max_queued_bytes;
        (packets > 0 && self.total_queued >= packets) || (bytes > 0 && self.total_queued_bytes
            >= bytes)
    }

    /// Adds to a counter.
    pub fn counter_add(&mut self, name: &str, delta: i64)
        requires
            i64::MIN <= old(self)@.counter(name@) + delta <= i64::MAX,
        ensures
            final(self)@ == (SharedView {
                counters: old(self)@.counters.insert(
                    name@,
                    (old(self)@.counter(name@) + delta) as i64,
                ),
                ..old(self)@
            }),
    {
        let before: i64 = self.counter_value(name);
        self.counters.insert(name.to_owned(), before + delta);
    }

    /// The value of a counter; zero where it was never counted.
    pub fn counter_value(&self, name: &str) -> (r: i64)
        ensures
            r == self@.counter(name@),
    {
        match self.counters.get(name) {
            Some(v) => *v,
            None => 0,
        }
    }

    /// The names of the counters, in order.
    pub fn counter_names(&self) -> (r: Vec<String>)
        ensures
            ascending(texts(r@)),
            texts(r@).to_set() == self@.counters.dom(),
    {
        let n: usize = self.counters.len();
        let mut names: Vec<String> = Vec::new();
        for i in 0..n
            invariant
                n == self.counters.keys().len(),
                names@.len() == i,
                forall|k: int| 0 <= k < i ==> (#[trigger] names@[k])@ == self.counters.keys()[k],
        {
            names.push(self.counters.key_at(i).clone());
        }
        assert(texts(names@) =~= self.counters.keys());
        assert(texts(names@).to_set() =~= self.counters@.dom());
        names
    }
}

// ------------------------------------------------------------------- the laws

/// The first failure wins: whatever fails later, it stays.
pub proof fn first_error_is_kept(s: SharedView, a: ErrorView, b: ErrorView)
    ensures
        s.failed(a).error is Some,
        s.failed(a).failed(b).error == s.failed(a).error,
        s.error is None ==> s.failed(a).failed(b).error == Some(a),
        s.error is Some ==> s.failed(a).error == s.error,
{
}

/// A packet that leaves its queue takes back what it added to the totals, as
/// long as these did not run past their end.
pub proof fn dequeue_undoes_enqueue(s: SharedView, bytes: u64)
    requires
        s.queued < usize::MAX,
        s.bytes + bytes <= u64::MAX,
    ensures
        s.enqueued(bytes).dequeued(bytes) == s,
{
}

/// The totals never fall below zero: a packet that leaves an empty graph
/// changes nothing.
pub proof fn dequeue_never_underflows(s: SharedView, bytes: u64)
    requires
        s.queued == 0,
        s.bytes == 0,
    ensures
        s.dequeued(bytes) == s,
{
}

} // verus!
