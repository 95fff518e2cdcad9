//! Lines that follow an evaluation, value by value. They go beside the console, and only where they
//! are asked for.

use vstd::prelude::*;

use crate::chars::{cat, cat3, cat5, char_text};
use crate::emit::{join, joined, texts};

verus! {

/// Whether an evaluation is followed.
#[derive(Debug, Clone, Copy, PartialEq, Eq, Structural)]
pub struct Tracer {
    pub on: bool,
}

/// A line, where an evaluation is followed.
pub open spec fn when(on: bool, line: Seq<char>) -> Option<Seq<char>> {
    if on {
        Some(line)
    } else {
        None
    }
}

/// An optional text, mathematically.
pub open spec fn opt_line(s: Option<String>) -> Option<Seq<char>> {
    match s {
        Some(s) => Some(s@),
        None => None,
    }
}

/// Two spaces for each level.
pub open spec fn indent(depth: nat) -> Seq<char>
    decreases depth,
{
    if depth == 0 {
        Seq::empty()
    } else {
        indent((depth - 1) as nat) + "  "@
    }
}

impl Tracer {
    /// A binding: `kind` is `=` for an assignment, `l` for a `let`, `p` for a parameter.
    pub fn bind(&self, kind: char, name: &str, text: &str) -> (r: Option<String>)
        ensures
            opt_line(r) == when(
                self.on,
                "+ ["@ + seq![kind] + "] "@ + name@ + (" = "@ + text@),
            ),
    {
        if !self.on {
            return None;
        }
        Some(cat5("+ [", &char_text(kind), "] ", name, &cat(" = ", text)))
    }

    /// What a function of the program returned.
    pub fn ret(&self, name: &str, text: &str) -> (r: Option<String>)
        ensures
            opt_line(r) == when(self.on, "+ [call] "@ + name@ + (" => "@ + text@)),
    {
        if !self.on {
            return None;
        }
        Some(cat3("+ [call] ", name, &cat(" => ", text)))
    }

    /// A call of a builtin, with its arguments in the order of the source.
    pub fn builtin(&self, name: &str, args: &Vec<String>, text: &str) -> (r: Option<String>)
        ensures
            opt_line(r) == when(
                self.on,
                "+ [call] "@ + name@ + "("@ + joined(texts(args@), ", "@, args@.len()) + (") => "@
                    + text@),
            ),
    {
        if !self.on {
            return None;
        }
        Some(cat5("+ [call] ", name, "(", &join(args, ", "), &cat(") => ", text)))
    }

    /// A `$`-name that means nothing.
    pub fn unbound_special(&self, name: &str) -> (r: Option<String>)
        ensures
            opt_line(r) == when(self.on, "+ [unbound $] "@ + name@),
    {
        if !self.on {
            return None;
        }
        Some(cat("+ [unbound $] ", name))
    }

    /// A module that begins, so many levels deep.
    pub fn module(&self, depth: usize, name: &str) -> (r: Option<String>)
        ensures
            opt_line(r) == when(
                self.on,
                "+ [mod]"@ + indent(depth as nat) + " "@ + name@ + "()"@,
            ),
    {
        if !self.on {
            return None;
        }
        let mut spaces: String = String::new();
        let mut i: usize = 0;
        while i < depth
            invariant
                i <= depth,
                spaces@ == indent(i as nat),
            decreases depth - i,
        {
            spaces.append("  ");
            i += 1;
        }
        Some(cat5("+ [mod]", &spaces, " ", name, "()"))
    }

    /// How an assertion went, with its condition as it is printed.
    pub fn check(&self, passed: bool, condition: &str) -> (r: Option<String>)
        ensures
            opt_line(r) == when(
                self.on,
                "+ [assert "@ + (if passed {
                    "ok"@
                } else {
                    "FAIL"@
                }) + "] "@ + condition@,
            ),
    {
        if !self.on {
            return None;
        }
        let outcome: &str = if passed {
            "ok"
        } else {
            "FAIL"
        };
        Some(cat(&cat3("+ [assert ", outcome, "] "), condition))
    }
}

/// A line is indented by two spaces for each level.
pub proof fn law_indent(depth: nat, i: int)
    ensures
        indent(depth).len() == 2 * depth,
        0 <= i < 2 * depth ==> indent(depth)[i] == ' ',
    decreases depth,
{
    reveal_strlit("  ");
    if depth > 0 {
        law_indent((depth - 1) as nat, i);
    }
}

} // verus!
