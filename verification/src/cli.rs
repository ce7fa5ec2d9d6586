//! The command line: its commands, the search query it carries, and the
//! answer that confirms a purge.

use vstd::prelude::*;
use crate::text;

verus! {

/// The parsed command line: search words, the `--auto` flag and an optional
/// subcommand.
pub struct Cli {
    pub query: Vec<String>,
    pub auto: bool,
    pub command: Option<Commands>,
}

/// The subcommands.
#[allow(inconsistent_fields)]
pub enum Commands {
    /// Workspace management.
    Workspace { action: WorkspaceAction },
    /// Index all workspaces.
    Index,
    /// Tag management.
    Tag { action: TagAction },
    /// Check system status.
    Doctor,
    /// Purge all data (workspaces, index and history).
    Purge { force: bool },
    /// Register a directory visit (called by shell hooks).
    Register { path: String },
}

/// Workspace subcommands.
pub enum WorkspaceAction {
    /// Add a workspace root; `force` bypasses the ignore rules.
    Add { force: bool, path: String },
    /// Remove a workspace root.
    Remove { path: String },
    /// List all workspace roots.
    List,
}

/// Tag subcommands.
pub enum TagAction {
    /// Add a tag to a path.
    Add { tag: String, path: String },
    /// Remove a tag from a path.
    Remove { tag: String, path: String },
    /// List all tags.
    List,
}

/// The parts joined with single spaces.
pub open spec fn join_with_spaces(parts: Seq<Seq<char>>) -> Seq<char>
    decreases parts.len(),
{
    if parts.len() == 0 {
        seq![]
    } else if parts.len() == 1 {
        parts[0]
    } else {
        join_with_spaces(parts.drop_last()) + seq![' '] + parts.last()
    }
}

/// The views of a list of strings.
pub open spec fn strings_view(v: Seq<String>) -> Seq<Seq<char>> {
    v.map_values(|s: String| s@)
}

/// The words joined with single spaces.
pub fn join_words(words: &Vec<String>) -> (r: String)
    ensures
        r@ == join_with_spaces(strings_view(words@)),
{
    let ghost sv = strings_view(words@);
    let mut out: Vec<char> = Vec::new();
    let mut i: usize = 0;
    assert(sv.take(0) =~= Seq::<Seq<char>>::empty());
    while i < words.len()
        invariant
            i <= words@.len(),
            sv == strings_view(words@),
            out@ == join_with_spaces(sv.take(i as int)),
        decreases words@.len() - i,
    {
        let ghost before = out@;
        if i > 0 {
            out.push(' ');
        }
        let w = text::str_to_chars(words[i].as_str());
        let mut j: usize = 0;
        let ghost mid = out@;
        while j < w.len()
            invariant
                j <= w@.len(),
                out@ == mid + w@.take(j as int),
            decreases w@.len() - j,
        {
            out.push(w[j]);
            assert(w@.take(j + 1) == w@.take(j as int).push(w@[j as int]));
            j = j + 1;
        }
        proof {
            assert(w@.take(w@.len() as int) == w@);
            let t = sv.take(i + 1);
            assert(t.drop_last() == sv.take(i as int));
            assert(t.last() == words@[i as int]@);
            if i > 0 {
                assert(out@ =~= before + seq![' '] + t.last());
            } else {
                assert(out@ =~= t.last());
            }
        }
        i = i + 1;
    }
    assert(sv.take(words@.len() as int) == sv);
    text::chars_to_string(out.as_slice())
}

impl Cli {
    /// The search query: the words given on the command line, joined with
    /// spaces.
    pub fn query_text(&self) -> (r: String)
        ensures
            r@ == join_with_spaces(strings_view(self.query@)),
    {
        join_words(&self.query)
    }
}

/// The answer accepts a purge: after trimming whitespace and lowering ASCII
/// letters it reads `y` or `yes`.
pub open spec fn spec_is_confirmation_accepted(input: Seq<char>) -> bool {
    let t = text::ascii_lowercase(text::trim(input));
    t == seq!['y'] || t == seq!['y', 'e', 's']
}

/// Whether a typed answer confirms a purge.
pub fn is_confirmation_accepted(input: &str) -> (r: bool)
    ensures
        r == spec_is_confirmation_accepted(input@),
{
    let s = text::str_to_chars(input);
    let (a, b) = text::trim_span(s.as_slice(), 0, s.len());
    assert(s@.subrange(0, s@.len() as int) == s@);
    let ghost t = text::ascii_lowercase(s@.subrange(a as int, b as int));
    proof {
        assert(seq!['y'].len() == 1 && seq!['y'][0] == 'y');
        assert(seq!['y', 'e', 's'].len() == 3 && seq!['y', 'e', 's'][0] == 'y' && seq!['y', 'e', 's'][1]
            == 'e' && seq!['y', 'e', 's'][2] == 's');
        assert(t.len() == b - a);
    }
    if b - a == 1 {
        let c0 = text::ascii_lower(s[a]);
        assert(t[0] == c0);
        if c0 == 'y' {
            assert(t =~= seq!['y']);
        }
        c0 == 'y'
    } else if b - a == 3 {
        let c0 = text::ascii_lower(s[a]);
        let c1 = text::ascii_lower(s[a + 1]);
        let c2 = text::ascii_lower(s[a + 2]);
        assert(t[0] == c0 && t[1] == c1 && t[2] == c2);
        if c0 == 'y' && c1 == 'e' && c2 == 's' {
            assert(t =~= seq!['y', 'e', 's']);
        }
        c0 == 'y' && c1 == 'e' && c2 == 's'
    } else {
        false
    }
}

} // verus!
