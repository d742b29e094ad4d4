//! ANSI colours for terminal output.
use vstd::prelude::*;
use vstd::string::StringExecFns;

verus! {

/// Whether output is coloured.
#[derive(Debug, Clone, Copy)]
pub struct Color {
    pub enabled: bool,
}

/// `value` in the ANSI colour `code`, or unchanged where colour is off.
pub open spec fn painted(enabled: bool, code: Seq<char>, value: Seq<char>) -> Seq<char> {
    if enabled {
        "\x1b["@ + code + "m"@ + value + "\x1b[0m"@
    } else {
        value
    }
}

impl Color {
    /// `value` in the ANSI colour `code`, where colour is on.
    pub fn paint(self, code: &str, value: &str) -> (s: String)
        ensures
            s@ == painted(self.enabled, code@, value@),
    {
        if self.enabled {
            let mut s = "\x1b[".to_owned();
            s.append(code);
            s.append("m");
            s.append(value);
            s.append("\x1b[0m");
            s
        } else {
            value.to_owned()
        }
    }

    /// `value` in bold red.
    pub fn red(self, value: &str) -> (s: String)
        ensures
            s@ == painted(self.enabled, "31;1"@, value@),
    {
        self.paint("31;1", value)
    }

    /// `value` in cyan.
    pub fn cyan(self, value: &str) -> (s: String)
        ensures
            s@ == painted(self.enabled, "36"@, value@),
    {
        self.paint("36", value)
    }

    /// `value` in blue.
    pub fn blue(self, value: &str) -> (s: String)
        ensures
            s@ == painted(self.enabled, "34"@, value@),
    {
        self.paint("34", value)
    }
}

} // verus!
