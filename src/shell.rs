//! The line-editing shell: a line buffer, and the commands that act on a mounted volume.
use vstd::prelude::*;
use vstd::string::{StringExecFns, StringSliceAdditionalSpecFns};
use vstd::utf8::encode_utf8;
use crate::device::BlockDevice;
use crate::directory::{make_node, find_in, listing, tree_text, tree_fuel};
use crate::fs::FileSystem;
use crate::name::fat_name;
use crate::text::{char_text, decode_text, is_white, is_whitespace, utf8_text};

verus! {

broadcast use vstd::array::group_array_axioms;

/// Bytes a command line holds.
pub const LINE_SIZE: usize = 512;

/// Text of the `help` command.
pub const HELP_TEXT: &'static str = "Available commands:\n\nls\nList the contents of the current directory.\n\nmkdir <name>\nCreate a new directory with the given <name> in the current directory.\n\ntouch <name>\nCreate a new empty file with the given <name> in the current directory.\n\ncd <dirname>\nChange the current directory to <dirname>.\n\nbk <component>\nToggle FileSystem debugging on or off.\n\nclear\nClear the screen by printing empty lines.\n\nhelp\nShow this help message.\n";

/// Text of the `bk help` command.
pub const BK_HELP_TEXT: &'static str = "Available components:\n\nfs\nFile system.\n";

pub struct Terminal {
    cwd: u32,
    buffer: [u8; 512],
    index: usize,
    debug_fs: bool,
}

/// Index of the first character of `s` at or after `i` that is not white space.
pub open spec fn skip_white(s: Seq<char>, i: int) -> int
    decreases s.len() - i,
{
    if i < 0 || i >= s.len() {
        s.len() as int
    } else if is_white(s[i]) {
        skip_white(s, i + 1)
    } else {
        i
    }
}

/// Index of the first white-space character of `s` at or after `i`.
pub open spec fn word_end(s: Seq<char>, i: int) -> int
    decreases s.len() - i,
{
    if i < 0 || i >= s.len() {
        s.len() as int
    } else if is_white(s[i]) {
        i
    } else {
        word_end(s, i + 1)
    }
}

/// The first and the second white-space separated word of `s`, empty when missing.
pub open spec fn two_words(s: Seq<char>) -> (Seq<char>, Seq<char>) {
    let a0 = skip_white(s, 0);
    let e0 = word_end(s, a0);
    let a1 = skip_white(s, e0);
    let e1 = word_end(s, a1);
    (s.subrange(a0, e0), s.subrange(a1, e1))
}

/// `n` line breaks.
pub open spec fn newlines(n: nat) -> Seq<char>
    decreases n,
{
    if n == 0 {
        Seq::empty()
    } else {
        newlines((n - 1) as nat) + seq!['\n']
    }
}

/// What a command does: its text, the new working directory, the new debug flag and the
/// medium after it.
pub open spec fn command_effect(
    line: Seq<char>,
    cwd: u32,
    debug_fs: bool,
    g: crate::layout::Geometry,
    b: Seq<u8>,
) -> (Seq<char>, u32, bool, Seq<u8>) {
    let (cmd, arg) = two_words(line);
    if cmd == "ls"@ {
        match tree_text(g, b, cwd as int, 0, tree_fuel(g, 0)) {
            Ok(t) => (t, cwd, debug_fs, b),
            Err(_) => ("Cannot list this directory\n"@, cwd, debug_fs, b),
        }
    } else if cmd == "mkdir"@ || cmd == "touch"@ {
        if arg.len() == 0 {
            (Seq::empty(), cwd, debug_fs, b)
        } else {
            let (b2, r) = make_node(g, b, cwd, fat_name(encode_utf8(arg)), cmd == "mkdir"@);
            (
                if r is Ok {
                    Seq::empty()
                } else {
                    "Could not create "@ + arg + "\n"@
                },
                cwd,
                debug_fs,
                b2,
            )
        }
    } else if cmd == "cd"@ {
        if arg.len() == 0 {
            ("Usage: cd <dirname>\n"@, cwd, debug_fs, b)
        } else {
            let found = if g.holds_cluster(cwd as int) {
                find_in(listing(g, b, cwd as int), 0, arg)
            } else {
                None
            };
            match found {
                Some(c) => ("Changed directory to "@ + arg + "\n"@, c, debug_fs, b),
                None => ("Directory '"@ + arg + "' not found\n"@, cwd, debug_fs, b),
            }
        }
    } else if cmd == "help"@ {
        (HELP_TEXT@, cwd, debug_fs, b)
    } else if cmd == "bk"@ {
        if arg == "fs"@ {
            (
                if !debug_fs {
                    "FileSystem debugging activated\n"@
                } else {
                    "FileSystem debugging deactivated\n"@
                },
                cwd,
                !debug_fs,
                b,
            )
        } else if arg == "help"@ {
            (BK_HELP_TEXT@, cwd, debug_fs, b)
        } else {
            (Seq::empty(), cwd, debug_fs, b)
        }
    } else if cmd == "clear"@ {
        (newlines(50), cwd, debug_fs, b)
    } else if cmd.len() == 0 {
        (Seq::empty(), cwd, debug_fs, b)
    } else {
        ("Unknown command: "@ + line + "\n"@, cwd, debug_fs, b)
    }
}

/// What running the typed line `input` does: the command's text between a line break and
/// the prompt `> `, or a complaint when `input` is not valid UTF-8.
pub open spec fn line_effect(
    input: Seq<u8>,
    cwd: u32,
    debug_fs: bool,
    g: crate::layout::Geometry,
    b: Seq<u8>,
) -> (Seq<char>, u32, bool, Seq<u8>) {
    match utf8_text(input) {
        None => ("\n"@ + "Invalid UTF-8 input\n"@ + "> "@, cwd, debug_fs, b),
        Some(line) => {
            let (t, c, d, b2) = command_effect(line, cwd, debug_fs, g, b);
            ("\n"@ + t + "> "@, c, d, b2)
        },
    }
}

fn skip_white_from(s: &str, n: usize, i: usize) -> (r: usize)
    requires
        n == s@.len(),
        i <= n,
    ensures
        r == skip_white(s@, i as int),
        r <= n,
{
    let mut j = i;
    while j < n && is_whitespace(s.get_char(j))
        invariant
            n == s@.len(),
            i <= j <= n,
            skip_white(s@, i as int) == skip_white(s@, j as int),
        decreases n - j,
    {
        j = j + 1;
    }
    j
}

fn word_end_from(s: &str, n: usize, i: usize) -> (r: usize)
    requires
        n == s@.len(),
        i <= n,
    ensures
        r == word_end(s@, i as int),
        i <= r <= n,
{
    let mut j = i;
    while j < n && !is_whitespace(s.get_char(j))
        invariant
            n == s@.len(),
            i <= j <= n,
            word_end(s@, i as int) == word_end(s@, j as int),
        decreases n - j,
    {
        j = j + 1;
    }
    j
}

proof fn lemma_skip_white_bound(s: Seq<char>, i: int)
    requires
        0 <= i <= s.len(),
    ensures
        i <= skip_white(s, i) <= s.len(),
    decreases s.len() - i,
{
    if i < s.len() && is_white(s[i]) {
        lemma_skip_white_bound(s, i + 1);
    }
}

/// The first and the second word of `s`.
fn split_words(s: &str) -> (r: (&str, &str))
    ensures
        (r.0@, r.1@) == two_words(s@),
{
    let n = s.unicode_len();
    proof {
        lemma_skip_white_bound(s@, 0);
    }
    let a0 = skip_white_from(s, n, 0);
    let e0 = word_end_from(s, n, a0);
    proof {
        lemma_skip_white_bound(s@, e0 as int);
    }
    let a1 = skip_white_from(s, n, e0);
    let e1 = word_end_from(s, n, a1);
    (s.substring_char(a0, e0), s.substring_char(a1, e1))
}

/// `a` and `b` hold the same text.
fn same_text(a: &str, b: &str) -> (r: bool)
    ensures
        r == (a@ == b@),
{
    String::from_str(a) == String::from_str(b)
}

impl Terminal {
    /// The working directory's cluster.
    pub closed spec fn cwd_spec(&self) -> u32 {
        self.cwd
    }

    /// The bytes typed since the last command.
    pub closed spec fn input(&self) -> Seq<u8> {
        self.buffer@.subrange(0, self.index as int)
    }

    pub closed spec fn debug_spec(&self) -> bool {
        self.debug_fs
    }

    pub closed spec fn wf(&self) -> bool {
        self.index <= LINE_SIZE
    }

    /// A terminal in the root directory (cluster 2) with an empty line.
    pub fn new() -> (r: Self)
        ensures
            r.wf(),
            r.cwd_spec() == 2,
            r.input() == Seq::<u8>::empty(),
            !r.debug_spec(),
    {
        let r = Terminal { cwd: 2, buffer: [0u8; 512], index: 0, debug_fs: false };
        assert(r.input() =~= Seq::<u8>::empty());
        r
    }

    /// The working directory's cluster.
    pub fn cwd(&self) -> (r: u32)
        ensures
            r == self.cwd_spec(),
    {
        self.cwd
    }

    /// Whether file-system debugging is switched on.
    pub fn debug_fs(&self) -> (r: bool)
        ensures
            r == self.debug_spec(),
    {
        self.debug_fs
    }

    /// Appends the typed byte `c` to the line while there is room, and returns the text to
    /// echo: `c` as a character.
    pub fn push_char(&mut self, c: u8) -> (r: String)
        requires
            old(self).wf(),
        ensures
            final(self).wf(),
            r@ == seq![c as char],
            final(self).input() == if old(self).input().len() < LINE_SIZE {
                old(self).input().push(c)
            } else {
                old(self).input()
            },
            final(self).cwd_spec() == old(self).cwd_spec(),
            final(self).debug_spec() == old(self).debug_spec(),
    {
        if self.index < LINE_SIZE {
            self.buffer[self.index] = c;
            self.index = self.index + 1;
            assert(self.input() =~= old(self).input().push(c));
        }
        char_text(c as char)
    }

    /// Takes the last typed byte off the line, if any.
    pub fn pop_char(&mut self)
        requires
            old(self).wf(),
        ensures
            final(self).wf(),
            final(self).input() == if old(self).input().len() > 0 {
                old(self).input().drop_last()
            } else {
                old(self).input()
            },
            final(self).cwd_spec() == old(self).cwd_spec(),
            final(self).debug_spec() == old(self).debug_spec(),
    {
        if self.index > 0 {
            self.index = self.index - 1;
        }
        if self.index < LINE_SIZE {
            self.buffer[self.index] = 0x20;
        }
        assert(self.input() =~= if old(self).input().len() > 0 {
            old(self).input().drop_last()
        } else {
            old(self).input()
        });
    }

    /// Runs the command `line` against the volume `fs` (see `command_effect`).
    fn run_command<D: BlockDevice>(&mut self, line: &str, fs: &mut FileSystem<D>) -> (r: String)
        requires
            old(self).wf(),
            old(fs).wf(),
        ensures
            final(self).wf(),
            final(self).input() == old(self).input(),
            final(fs).wf(),
            final(fs).geo() == old(fs).geo(),
            final(fs).root() == old(fs).root(),
            (r@, final(self).cwd_spec(), final(self).debug_spec(), final(fs).bytes())
                == command_effect(
                line@,
                old(self).cwd_spec(),
                old(self).debug_spec(),
                old(fs).geo(),
                old(fs).bytes(),
            ),
    {
        let (cmd, arg) = split_words(line);
        proof {
            reveal_strlit("\n");
        }
        if same_text(cmd, "ls") {
            match fs.return_tree(self.cwd, 0) {
                Ok(t) => t,
                Err(_) => String::from_str("Cannot list this directory\n"),
            }
        } else if same_text(cmd, "mkdir") || same_text(cmd, "touch") {
            if arg.unicode_len() == 0 {
                String::new()
            } else {
                let made = if same_text(cmd, "mkdir") {
                    fs.create_dir(self.cwd, arg)
                } else {
                    fs.create_file(self.cwd, arg)
                };
                if made.is_ok() {
                    String::new()
                } else {
                    let mut t = String::from_str("Could not create ");
                    t.append(arg);
                    t.append("\n");
                    t
                }
            }
        } else if same_text(cmd, "cd") {
            if arg.unicode_len() == 0 {
                String::from_str("Usage: cd <dirname>\n")
            } else {
                match fs.find_dir_in(self.cwd, arg) {
                    Ok(c) => {
                        self.cwd = c;
                        let mut t = String::from_str("Changed directory to ");
                        t.append(arg);
                        t.append("\n");
                        t
                    },
                    Err(_) => {
                        let mut t = String::from_str("Directory '");
                        t.append(arg);
                        t.append("' not found\n");
                        t
                    },
                }
            }
        } else if same_text(cmd, "help") {
            String::from_str(HELP_TEXT)
        } else if same_text(cmd, "bk") {
            if same_text(arg, "fs") {
                self.debug_fs = !self.debug_fs;
                if self.debug_fs {
                    String::from_str("FileSystem debugging activated\n")
                } else {
                    String::from_str("FileSystem debugging deactivated\n")
                }
            } else if same_text(arg, "help") {
                String::from_str(BK_HELP_TEXT)
            } else {
                String::new()
            }
        } else if same_text(cmd, "clear") {
            let mut t = String::new();
            let mut k: usize = 0;
            while k < 50
                invariant
                    k <= 50,
                    t@ == newlines(k as nat),
                    "\n"@ == seq!['\n'],
                decreases 50 - k,
            {
                t.append("\n");
                k = k + 1;
            }
            t
        } else if cmd.unicode_len() == 0 {
            String::new()
        } else {
            let mut t = String::from_str("Unknown command: ");
            t.append(line);
            t.append("\n");
            t
        }
    }

    /// Runs the typed line against the volume `fs` and empties the line. Returns a line
    /// break, the command's text and the prompt `> ` (see `line_effect`).
    pub fn execute_command<D: BlockDevice>(&mut self, fs: &mut FileSystem<D>) -> (r: String)
        requires
            old(self).wf(),
            old(fs).wf(),
        ensures
            final(self).wf(),
            final(self).input() == Seq::<u8>::empty(),
            final(fs).wf(),
            final(fs).geo() == old(fs).geo(),
            final(fs).root() == old(fs).root(),
            (r@, final(self).cwd_spec(), final(self).debug_spec(), final(fs).bytes()) == line_effect(
                old(self).input(),
                old(self).cwd_spec(),
                old(self).debug_spec(),
                old(fs).geo(),
                old(fs).bytes(),
            ),
    {
        let (used, _) = self.buffer.as_slice().split_at(self.index);
        let line = match decode_text(used) {
            Some(t) => Some(String::from_str(t)),
            None => None,
        };
        let mut out = String::from_str("\n");
        match line {
            None => {
                out.append("Invalid UTF-8 input\n");
            },
            Some(l) => {
                let t = self.run_command(l.as_str(), fs);
                out.append(t.as_str());
            },
        }
        out.append("> ");
        self.index = 0;
        assert(self.input() =~= Seq::<u8>::empty());
        out
    }
}

} // verus!
