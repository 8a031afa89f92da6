//! The text of log messages: severities, their colours, and the line that
//! a message is written as.

use vstd::prelude::*;
use vstd::string::StringExecFns;

verus! {

/// How grave a message is; also the threshold below which a logger stays
/// silent. `Silent`, as a threshold, lets no ordinary message through.
#[derive(Debug, PartialEq, Eq, PartialOrd, Ord, Clone, Copy, Structural)]
pub enum Severity {
    Debug,
    Info,
    Warn,
    Error,
    Fatal,
    Silent,
}

/// The colours that a terminal understands.
#[derive(Debug, PartialEq, Eq, Clone, Copy, Structural)]
pub enum ANSIColor {
    Black,
    Red,
    Green,
    Yellow,
    Blue,
    Magenta,
    Cyan,
    White,
    BrightBlack,
    BrightRed,
    BrightGreen,
    BrightYellow,
    BrightBlue,
    BrightMagenta,
    BrightCyan,
    BrightWhite,
    Reset,
}

impl Severity {
    /// Position of the severity in the order from `Debug` to `Silent`.
    pub open spec fn rank(&self) -> int {
        match self {
            Severity::Debug => 0,
            Severity::Info => 1,
            Severity::Warn => 2,
            Severity::Error => 3,
            Severity::Fatal => 4,
            Severity::Silent => 5,
        }
    }

    /// The colour in which the severity is shown.
    pub open spec fn color(&self) -> ANSIColor {
        match self {
            Severity::Debug => ANSIColor::Cyan,
            Severity::Info => ANSIColor::Green,
            Severity::Warn => ANSIColor::Yellow,
            Severity::Error => ANSIColor::BrightRed,
            Severity::Fatal => ANSIColor::Red,
            Severity::Silent => ANSIColor::Reset,
        }
    }

    /// The name under which the severity appears in a log line.
    pub open spec fn label(&self) -> Seq<char> {
        match self {
            Severity::Debug => "DEBUG"@,
            Severity::Info => "INFO"@,
            Severity::Warn => "WARN"@,
            Severity::Error => "ERROR"@,
            Severity::Fatal => "FATAL"@,
            Severity::Silent => "NONE"@,
        }
    }

    /// The colour in which the severity is shown.
    pub fn get_color(&self) -> (color: ANSIColor)
        ensures
            color == self.color(),
    {
        match self {
            Severity::Debug => ANSIColor::Cyan,
            Severity::Info => ANSIColor::Green,
            Severity::Warn => ANSIColor::Yellow,
            Severity::Error => ANSIColor::BrightRed,
            Severity::Fatal => ANSIColor::Red,
            Severity::Silent => ANSIColor::Reset,
        }
    }

    /// The severity's name in capitals.
    pub fn name(&self) -> (name: &'static str)
        ensures
            name@ == self.label(),
    {
        match self {
            Severity::Debug => "DEBUG",
            Severity::Info => "INFO",
            Severity::Warn => "WARN",
            Severity::Error => "ERROR",
            Severity::Fatal => "FATAL",
            Severity::Silent => "NONE",
        }
    }

    /// Tells whether a logger whose threshold is `self` lets a message of
    /// severity `message` through: it does unless the threshold is graver.
    pub fn admits(&self, message: Severity) -> (b: bool)
        ensures
            b == (self.rank() <= message.rank()),
    {
        let threshold: u8 = match self {
            Severity::Debug => 0,
            Severity::Info => 1,
            Severity::Warn => 2,
            Severity::Error => 3,
            Severity::Fatal => 4,
            Severity::Silent => 5,
        };
        let level: u8 = match message {
            Severity::Debug => 0,
            Severity::Info => 1,
            Severity::Warn => 2,
            Severity::Error => 3,
            Severity::Fatal => 4,
            Severity::Silent => 5,
        };
        threshold <= level
    }
}

impl ANSIColor {
    /// The escape sequence that switches the terminal to the colour.
    pub open spec fn sequence(&self) -> Seq<char> {
        match self {
            ANSIColor::Black => "\x1b[30m"@,
            ANSIColor::Red => "\x1b[31m"@,
            ANSIColor::Green => "\x1b[32m"@,
            ANSIColor::Yellow => "\x1b[33m"@,
            ANSIColor::Blue => "\x1b[34m"@,
            ANSIColor::Magenta => "\x1b[35m"@,
            ANSIColor::Cyan => "\x1b[36m"@,
            ANSIColor::White => "\x1b[37m"@,
            ANSIColor::BrightBlack => "\x1b[90m"@,
            ANSIColor::BrightRed => "\x1b[91m"@,
            ANSIColor::BrightGreen => "\x1b[92m"@,
            ANSIColor::BrightYellow => "\x1b[93m"@,
            ANSIColor::BrightBlue => "\x1b[94m"@,
            ANSIColor::BrightMagenta => "\x1b[95m"@,
            ANSIColor::BrightCyan => "\x1b[96m"@,
            ANSIColor::BrightWhite => "\x1b[97m"@,
            ANSIColor::Reset => "\x1b[0m"@,
        }
    }

    /// A text wrapped in the colour: switched on before it, reset after it.
    pub open spec fn colorized(&self, text: Seq<char>) -> Seq<char> {
        self.sequence() + text + ANSIColor::Reset.sequence()
    }

    /// The escape sequence that switches the terminal to the colour.
    pub fn starter_sequence(&self) -> (sequence: &'static str)
        ensures
            sequence@ == self.sequence(),
    {
        match self {
            ANSIColor::Black => "\x1b[30m",
            ANSIColor::Red => "\x1b[31m",
            ANSIColor::Green => "\x1b[32m",
            ANSIColor::Yellow => "\x1b[33m",
            ANSIColor::Blue => "\x1b[34m",
            ANSIColor::Magenta => "\x1b[35m",
            ANSIColor::Cyan => "\x1b[36m",
            ANSIColor::White => "\x1b[37m",
            ANSIColor::BrightBlack => "\x1b[90m",
            ANSIColor::BrightRed => "\x1b[91m",
            ANSIColor::BrightGreen => "\x1b[92m",
            ANSIColor::BrightYellow => "\x1b[93m",
            ANSIColor::BrightBlue => "\x1b[94m",
            ANSIColor::BrightMagenta => "\x1b[95m",
            ANSIColor::BrightCyan => "\x1b[96m",
            ANSIColor::BrightWhite => "\x1b[97m",
            ANSIColor::Reset => "\x1b[0m",
        }
    }

    /// Add color to existing string.
    pub fn colorize(&self, string: &str) -> (colored: String)
        ensures
            colored@ == self.colorized(string@),
    {
        let mut colored = String::from_str(self.starter_sequence());
        colored.append(string);
        colored.append(ANSIColor::Reset.starter_sequence());
        colored
    }
}

/// The line that a message is logged as: prefix, severity in brackets, a
/// space, the message, and a line feed.
pub open spec fn log_line(
    prefix: Seq<char>,
    severity: Severity,
    message: Seq<char>,
    colorize: bool,
) -> Seq<char> {
    let tag = "["@ + severity.label() + "]"@;
    prefix + if colorize {
        severity.color().colorized(tag)
    } else {
        tag
    } + " "@ + message + "\n"@
}

/// A message on its way to the log. Its two renderings, with colour and
/// without, are made on first demand and kept.
pub struct LogMessage {
    colorized: Option<String>,
    non_colorized: Option<String>,
    prefix: String,
    severity: Severity,
    message: String,
}

impl LogMessage {
    /// What stands before the severity in the line.
    pub closed spec fn prefix(&self) -> Seq<char> {
        self.prefix@
    }

    /// The severity of the message.
    pub closed spec fn severity(&self) -> Severity {
        self.severity
    }

    /// The message itself.
    pub closed spec fn message(&self) -> Seq<char> {
        self.message@
    }

    /// A rendering that is kept is the rendering of this message.
    pub closed spec fn wf(&self) -> bool {
        &&& self.colorized matches Some(text) ==> text@ == self.line(true)
        &&& self.non_colorized matches Some(text) ==> text@ == self.line(false)
    }

    /// The line that the message is logged as.
    pub open spec fn line(&self, colorize: bool) -> Seq<char> {
        log_line(self.prefix(), self.severity(), self.message(), colorize)
    }

    /// A message of the given severity, with nothing rendered yet.
    pub fn new(prefix: &str, message: &str, severity: Severity) -> (log_message: LogMessage)
        ensures
            log_message.wf(),
            log_message.prefix() == prefix@,
            log_message.message() == message@,
            log_message.severity() == severity,
    {
        LogMessage {
            colorized: None,
            non_colorized: None,
            prefix: String::from_str(prefix),
            severity,
            message: String::from_str(message),
        }
    }

    /// The line that the message is logged as, with the severity in colour
    /// or plain.
    pub fn formatted(&mut self, colorize: bool) -> (line: String)
        requires
            old(self).wf(),
        ensures
            final(self).wf(),
            line@ == old(self).line(colorize),
            final(self).prefix() == old(self).prefix(),
            final(self).message() == old(self).message(),
            final(self).severity() == old(self).severity(),
    {
        if colorize {
            self.colorized()
        } else {
            self.non_colorized()
        }
    }

    /// The severity in brackets.
    fn severity_string(&self) -> (tag: String)
        ensures
            tag@ == "["@ + self.severity.label() + "]"@,
    {
        let mut tag = String::from_str("[");
        tag.append(self.severity.name());
        tag.append("]");
        tag
    }

    /// The line with `tag` as its severity part.
    fn render(&self, tag: &str) -> (line: String)
        ensures
            line@ == self.prefix@ + tag@ + " "@ + self.message@ + "\n"@,
    {
        let mut line = self.prefix.clone();
        line.append(tag);
        line.append(" ");
        line.append(self.message.as_str());
        line.append("\n");
        line
    }

    /// The line with the severity in colour; rendered on first demand.
    fn colorized(&mut self) -> (line: String)
        requires
            old(self).wf(),
        ensures
            final(self).wf(),
            line@ == old(self).line(true),
            final(self).prefix@ == old(self).prefix@,
            final(self).message@ == old(self).message@,
            final(self).severity == old(self).severity,
    {
        match &self.colorized {
            Some(s) => s.clone(),
            None => {
                let tag = self.severity_string();
                let severity_string = self.severity.get_color().colorize(tag.as_str());
                let line = self.render(severity_string.as_str());
                self.colorized = Some(line.clone());
                line
            },
        }
    }

    /// The plain line; rendered on first demand.
    fn non_colorized(&mut self) -> (line: String)
        requires
            old(self).wf(),
        ensures
            final(self).wf(),
            line@ == old(self).line(false),
            final(self).prefix@ == old(self).prefix@,
            final(self).message@ == old(self).message@,
            final(self).severity == old(self).severity,
    {
        match &self.non_colorized {
            Some(s) => s.clone(),
            None => {
                let tag = self.severity_string();
                let line = self.render(tag.as_str());
                self.non_colorized = Some(line.clone());
                line
            },
        }
    }
}

} // verus!
