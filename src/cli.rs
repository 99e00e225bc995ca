//! Command-line options and the configuration base directory.
use vstd::prelude::*;

use crate::text::{chars_of, push_chars, string_of};

verus! {

/// The subcommands of the configurator.
#[derive(Clone, Copy, Debug, PartialEq, Eq, Structural)]
pub enum Cmd {
    /// Open a UI to configure the displays.
    Display,
}

/// Command-line options: the subcommand and the configuration base directory.
#[derive(Debug)]
pub struct Opt {
    pub cmd: Cmd,
    pub file: String,
}

/// Whether a path starts with the home directory's `~` as its first component.
pub open spec fn home_relative(p: Seq<char>) -> bool {
    p == seq!['~'] || (p.len() >= 2 && p[0] == '~' && p[1] == '/')
}

/// `p` with every `~` replaced by `home`.
pub open spec fn replace_tilde(p: Seq<char>, home: Seq<char>) -> Seq<char>
    decreases p.len(),
{
    if p.len() == 0 {
        Seq::empty()
    } else {
        replace_tilde(p.drop_last(), home) + if p.last() == '~' {
            home
        } else {
            seq![p.last()]
        }
    }
}

/// A path whose first component is `~` with every `~` replaced by `home`;
/// any other path as it is.
pub open spec fn expanded(p: Seq<char>, home: Seq<char>) -> Seq<char> {
    if home_relative(p) {
        replace_tilde(p, home)
    } else {
        p
    }
}

/// Expands a configuration path against the home directory `home`.
pub fn expand_home(path: &str, home: &str) -> (r: String)
    ensures
        r@ == expanded(path@, home@),
{
    let p = chars_of(path);
    let h = chars_of(home);
    let n = p.len();
    let relative = (n == 1 && p[0] == '~') || (n >= 2 && p[0] == '~' && p[1] == '/');
    assert(relative == home_relative(p@)) by {
        if n == 1 && p[0] == '~' {
            assert(p@ =~= seq!['~']);
        }
    }
    if !relative {
        return string_of(&p);
    }
    let mut out: Vec<char> = Vec::new();
    let mut i: usize = 0;
    assert(p@.take(0) =~= Seq::<char>::empty());
    while i < n
        invariant
            i <= n == p@.len(),
            h@ == home@,
            out@ == replace_tilde(p@.take(i as int), h@),
        decreases n - i,
    {
        if p[i] == '~' {
            push_chars(&mut out, &h);
        } else {
            out.push(p[i]);
        }
        assert(p@.take(i + 1).drop_last() =~= p@.take(i as int));
        i += 1;
        assert(out@ =~= replace_tilde(p@.take(i as int), h@));
    }
    assert(p@.take(n as int) =~= p@);
    string_of(&out)
}

} // verus!
