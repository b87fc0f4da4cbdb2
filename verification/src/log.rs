//! Log levels and the lines loggers write.
use vstd::prelude::*;

verus! {

/// How serious a log message is, from the most to the least.
#[derive(Debug, Clone, Copy, PartialEq, Eq, Structural)]
pub enum LogLevel {
    Emergency,
    Alert,
    Critical,
    Error,
    Warning,
    Notice,
    Info,
    Debug,
}

impl LogLevel {
    /// The level's name as it appears in log lines.
    pub open spec fn name(self) -> Seq<char> {
        match self {
            LogLevel::Emergency => "emergency"@,
            LogLevel::Alert => "alert"@,
            LogLevel::Critical => "critical"@,
            LogLevel::Error => "error"@,
            LogLevel::Warning => "warning"@,
            LogLevel::Notice => "notice"@,
            LogLevel::Info => "info"@,
            LogLevel::Debug => "debug"@,
        }
    }

    /// The level's name as it appears in log lines.
    pub fn to_str(&self) -> (r: &'static str)
        ensures
            r@ == self.name(),
    {
        match self {
            LogLevel::Emergency => "emergency",
            LogLevel::Alert => "alert",
            LogLevel::Critical => "critical",
            LogLevel::Error => "error",
            LogLevel::Warning => "warning",
            LogLevel::Notice => "notice",
            LogLevel::Info => "info",
            LogLevel::Debug => "debug",
        }
    }
}

/// A line tagged in brackets: `[tag] message`.
pub open spec fn tagged(tag: Seq<char>, message: Seq<char>) -> Seq<char> {
    "["@ + tag + "] "@ + message
}

/// Writes `[tag] message`.
pub fn tag_line(tag: &str, message: &str) -> (r: String)
    ensures
        r@ == tagged(tag@, message@),
{
    let mut line = "[".to_owned();
    line.append(tag);
    line.append("] ");
    line.append(message);
    line
}

/// The text logged for an error and the errors that caused it, given their messages from
/// the outermost on: `Error: ` and the first, then a line `Caused by: ` for each cause.
pub open spec fn exception_text(chain: Seq<Seq<char>>) -> Seq<char>
    decreases chain.len(),
{
    if chain.len() == 0 {
        Seq::empty()
    } else if chain.len() == 1 {
        "Error: "@ + chain[0]
    } else {
        exception_text(chain.drop_last()) + "\nCaused by: "@ + chain.last()
    }
}

/// The text logged for an error and its causes; see `exception_text`.
pub fn exception_message(chain: &Vec<String>) -> (r: String)
    requires
        chain@.len() > 0,
    ensures
        r@ == exception_text(chain@.map_values(|s: String| s@)),
{
    let ghost views = chain@.map_values(|s: String| s@);
    let mut text = "Error: ".to_owned();
    text.append(chain[0].as_str());
    let mut i: usize = 1;
    proof {
        assert(views.take(1) =~= seq![views[0]]);
    }
    while i < chain.len()
        invariant
            1 <= i <= chain@.len(),
            views == chain@.map_values(|s: String| s@),
            text@ == exception_text(views.take(i as int)),
        decreases chain@.len() - i,
    {
        text.append("\nCaused by: ");
        text.append(chain[i].as_str());
        i = i + 1;
        proof {
            assert(views.take(i as int).drop_last() =~= views.take(i - 1));
        }
    }
    proof {
        assert(views.take(chain@.len() as int) =~= views);
    }
    text
}

/// A logger that writes each message on a line of its own, tagged with the level.
#[derive(Debug, Clone, Copy)]
pub struct SimpleLogger {}

impl SimpleLogger {
    pub fn new() -> (r: Self)
        ensures
            r == (SimpleLogger {  }),
    {
        SimpleLogger {  }
    }

    /// The line written for a message: `[level] message`.
    pub fn format(&self, level: LogLevel, message: &str) -> (r: String)
        ensures
            r@ == tagged(level.name(), message@),
    {
        tag_line(level.to_str(), message)
    }
}

/// A logger that tags each message with a prefix and hands it on to another logger.
#[derive(Debug)]
pub struct PrefixedLogger<D> {
    delegate: D,
    prefix: String,
}

impl<D> PrefixedLogger<D> {
    pub closed spec fn spec_prefix(&self) -> Seq<char> {
        self.prefix@
    }

    pub closed spec fn spec_delegate(&self) -> D {
        self.delegate
    }

    pub fn new(delegate: D, prefix: String) -> (r: Self)
        ensures
            r.spec_prefix() == prefix@,
            r.spec_delegate() == delegate,
    {
        PrefixedLogger { delegate, prefix }
    }

    pub fn get_prefix(&self) -> (r: &str)
        ensures
            r@ == self.spec_prefix(),
    {
        self.prefix.as_str()
    }

    pub fn set_prefix(&mut self, prefix: String)
        ensures
            final(self).spec_prefix() == prefix@,
            final(self).spec_delegate() == old(self).spec_delegate(),
    {
        self.prefix = prefix;
    }

    /// The logger messages are handed on to.
    pub fn delegate(&self) -> (r: &D)
        ensures
            *r == self.spec_delegate(),
    {
        &self.delegate
    }

    /// The message handed on: `[prefix] message`.
    pub fn prefixed(&self, message: &str) -> (r: String)
        ensures
            r@ == tagged(self.spec_prefix(), message@),
    {
        tag_line(self.prefix.as_str(), message)
    }
}

} // verus!
