//! The `uri` command: which target to open, and how to announce it.
use vstd::prelude::*;
use crate::ini::sub_chars;
use crate::text::{chars_of, string_from_chars, strip, strip_range, trim, CharClass};

verus! {

/// Arguments of the `uri` command.
pub struct ConnectionUriArgs {
    /// Connection URI (ssh://, telnet://, mosh://, rdp://, vnc://) or Xshell
    /// session file (.xsh / .xts).
    pub uri: String,
}

/// The target that a command-line argument names: trimmed, then without
/// surrounding quote marks (`"` or `'`).
pub open spec fn target_of(uri: Seq<char>) -> Seq<char> {
    strip(trim(uri), CharClass::Quote)
}

impl ConnectionUriArgs {
    /// The target to open (see `target_of`).
    pub fn target(&self) -> (r: String)
        ensures
            r@ == target_of(self.uri@),
    {
        let v = chars_of(self.uri.as_str());
        let (a, b) = strip_range(&v, 0, v.len(), CharClass::WhiteSpace);
        assert(v@.subrange(0, v.len() as int) =~= v@);
        let (c, d) = strip_range(&v, a, b, CharClass::Quote);
        let t = sub_chars(&v, c, d);
        assert(t@.subrange(0, t.len() as int) =~= t@);
        string_from_chars(&t, 0, t.len())
    }
}

/// What the command prints once the launch has been requested.
pub open spec fn opening_notice_text(is_xshell_session: bool) -> Seq<char> {
    if is_xshell_session {
        "Opening Xshell session in OxideTerm"@
    } else {
        "Opening temporary connection in OxideTerm"@
    }
}

/// What the command prints once the launch has been requested.
pub fn opening_notice(is_xshell_session: bool) -> (r: &'static str)
    ensures
        r@ == opening_notice_text(is_xshell_session),
{
    if is_xshell_session {
        "Opening Xshell session in OxideTerm"
    } else {
        "Opening temporary connection in OxideTerm"
    }
}

/// The target never begins or ends with a quote mark.
pub proof fn law_target_is_unquoted(uri: Seq<char>)
    ensures
        target_of(uri).len() > 0 ==> !CharClass::Quote.holds(target_of(uri)[0]) && !CharClass::Quote.holds(
            target_of(uri).last(),
        ),
{
    crate::text::lemma_strip_idempotent(trim(uri), CharClass::Quote);
}

} // verus!
