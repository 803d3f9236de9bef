//! Messages for the log and their levels.

use vstd::prelude::*;

verus! {

pub enum LogMessage {
    Info(String),
    Warn(String),
    Error(String),
    Debug(String),
}

/// How a level is set off from the text around it.
#[derive(Clone, Copy, PartialEq, Eq, Debug, Structural)]
pub enum Emphasis {
    Green,
    Yellow,
    BoldRed,
    Dimmed,
}

impl LogMessage {
    pub open spec fn spec_body(self) -> Seq<char> {
        match self {
            LogMessage::Info(s) => s@,
            LogMessage::Warn(s) => s@,
            LogMessage::Error(s) => s@,
            LogMessage::Debug(s) => s@,
        }
    }

    /// The name of the level, in five columns.
    pub fn level(&self) -> (r: &'static str)
        ensures
            r == (match self {
                LogMessage::Info(_) => "INFO ",
                LogMessage::Warn(_) => "WARN ",
                LogMessage::Error(_) => "ERROR",
                LogMessage::Debug(_) => "DEBUG",
            }),
    {
        match self {
            LogMessage::Info(_) => "INFO ",
            LogMessage::Warn(_) => "WARN ",
            LogMessage::Error(_) => "ERROR",
            LogMessage::Debug(_) => "DEBUG",
        }
    }

    /// The text of the message.
    pub fn body(&self) -> (r: &str)
        ensures
            r@ == self.spec_body(),
    {
        match self {
            LogMessage::Info(s) => s.as_str(),
            LogMessage::Warn(s) => s.as_str(),
            LogMessage::Error(s) => s.as_str(),
            LogMessage::Debug(s) => s.as_str(),
        }
    }

    /// How the level is set off.
    pub fn emphasis(&self) -> (r: Emphasis)
        ensures
            r == (match self {
                LogMessage::Info(_) => Emphasis::Green,
                LogMessage::Warn(_) => Emphasis::Yellow,
                LogMessage::Error(_) => Emphasis::BoldRed,
                LogMessage::Debug(_) => Emphasis::Dimmed,
            }),
    {
        match self {
            LogMessage::Info(_) => Emphasis::Green,
            LogMessage::Warn(_) => Emphasis::Yellow,
            LogMessage::Error(_) => Emphasis::BoldRed,
            LogMessage::Debug(_) => Emphasis::Dimmed,
        }
    }

    /// Whether a log that is verbose or not takes the message.
    pub open spec fn goes_into(self, verbose: bool) -> bool {
        verbose || !(self is Debug)
    }

    /// Whether a log that is verbose or not takes the message: all but those
    /// for debugging go into every log.
    pub fn is_wanted(&self, verbose: bool) -> (r: bool)
        ensures
            r == self.goes_into(verbose),
    {
        match self {
            LogMessage::Debug(_) => verbose,
            _ => true,
        }
    }
}

/// The text of a message is what it was made of, whatever its level. A verbose log
/// takes every message, and the only ones that another log leaves out are those
/// for debugging.
pub proof fn lemma_messages_are_kept_whole(s: String, m: LogMessage)
    ensures
        LogMessage::Info(s).spec_body() == s@,
        LogMessage::Warn(s).spec_body() == s@,
        LogMessage::Error(s).spec_body() == s@,
        LogMessage::Debug(s).spec_body() == s@,
        m.goes_into(true),
        !m.goes_into(false) <==> m is Debug,
{
}

} // verus!
