//! A stateful indentation-tracking text sink used by the emitter.

use crate::strutil::push_char;
use vstd::prelude::*;

verus! {

/// Four spaces for each nesting level.
pub open spec fn indent_prefix(level: nat) -> Seq<char>
    decreases level,
{
    if level == 0 {
        Seq::empty()
    } else {
        "    "@ + indent_prefix((level - 1) as nat)
    }
}

/// A Unicode whitespace character, the set `str::trim` strips.
pub open spec fn is_space_char(c: char) -> bool {
    ||| (9 <= c as u32 && c as u32 <= 13)
    ||| c as u32 == 32
    ||| c as u32 == 133
    ||| c as u32 == 160
    ||| c as u32 == 5760
    ||| (8192 <= c as u32 && c as u32 <= 8202)
    ||| c as u32 == 8232
    ||| c as u32 == 8233
    ||| c as u32 == 8239
    ||| c as u32 == 8287
    ||| c as u32 == 12288
}

/// A line counting as blank: only whitespace, as `str::trim` sees it.
pub open spec fn is_blank_line(s: Seq<char>) -> bool {
    forall|k: int| 0 <= k < s.len() ==> is_space_char(#[trigger] s[k])
}

/// What one `write_line` call appends.
pub open spec fn line_text(line: Seq<char>, level: nat) -> Seq<char> {
    if is_blank_line(line) {
        line + seq!['\n']
    } else {
        indent_prefix(level) + line + seq!['\n']
    }
}

/// Accumulates emitted text, auto-indenting non-blank lines and tracking
/// whether the last emitted line was blank.
pub struct AtopileWriter {
    pub out: String,
    pub indent_level: usize,
    pub last_line_empty: bool,
}

impl AtopileWriter {
    /// A fresh writer: no text, no indentation, and an initial blank.
    pub fn new() -> (w: AtopileWriter)
        ensures
            w.out@ == Seq::<char>::empty(),
            w.indent_level == 0,
            w.last_line_empty == true,
    {
        AtopileWriter { out: String::new(), indent_level: 0, last_line_empty: true }
    }

    /// One level deeper.
    pub fn indent(&mut self)
        requires
            old(self).indent_level < usize::MAX,
        ensures
            final(self).indent_level == old(self).indent_level + 1,
            final(self).out == old(self).out,
            final(self).last_line_empty == old(self).last_line_empty,
    {
        self.indent_level = self.indent_level + 1;
    }

    /// One level back out; already at the margin stays at the margin.
    pub fn dedent(&mut self)
        ensures
            final(self).indent_level == (if old(self).indent_level > 0 {
                old(self).indent_level - 1
            } else {
                0
            }),
            final(self).out == old(self).out,
            final(self).last_line_empty == old(self).last_line_empty,
    {
        if self.indent_level > 0 {
            self.indent_level = self.indent_level - 1;
        }
    }

    /// Appends one line: indented when it has content, bare when blank.
    pub fn write_line(&mut self, line: &str)
        ensures
            final(self).out@ == old(self).out@ + line_text(line@, old(self).indent_level as nat),
            final(self).indent_level == old(self).indent_level,
            final(self).last_line_empty == is_blank_line(line@),
    {
        let blank = line_is_blank(line);
        if blank {
            self.last_line_empty = true;
        } else {
            self.last_line_empty = false;
            self.write_indentation();
        }
        self.out.append(line);
        push_char(&mut self.out, '\n');
        proof {
            if blank {
                assert(self.out@ =~= old(self).out@ + (line@ + seq!['\n']));
            } else {
                assert(self.out@ =~= old(self).out@ + (indent_prefix(
                    old(self).indent_level as nat,
                ) + line@ + seq!['\n']));
            }
        }
    }

    /// Appends raw text, without indentation or a newline, and without
    /// touching the blank-line tracking.
    pub fn write_raw(&mut self, text: &str)
        ensures
            final(self).out@ == old(self).out@ + text@,
            final(self).indent_level == old(self).indent_level,
            final(self).last_line_empty == old(self).last_line_empty,
    {
        self.out.append(text);
    }

    /// Appends a blank line only when the previous line was not blank.
    pub fn ensure_break(&mut self)
        ensures
            final(self).out@ == old(self).out@ + (if old(self).last_line_empty {
                Seq::<char>::empty()
            } else {
                seq!['\n']
            }),
            final(self).indent_level == old(self).indent_level,
            final(self).last_line_empty == true,
    {
        if !self.last_line_empty {
            self.write_line("");
            proof {
                assert(is_blank_line(""@)) by {
                    reveal_strlit("");
                }
                assert(self.out@ =~= old(self).out@ + seq!['\n']) by {
                    reveal_strlit("");
                }
            }
        }
        self.last_line_empty = true;
    }

    /// Writes a header line and indents what follows it.
    pub fn start_block(&mut self, line: &str)
        requires
            old(self).indent_level < usize::MAX,
        ensures
            final(self).out@ == old(self).out@ + line_text(line@, old(self).indent_level as nat),
            final(self).indent_level == old(self).indent_level + 1,
            final(self).last_line_empty == is_blank_line(line@),
    {
        self.write_line(line);
        self.indent();
    }

    /// Closes a block by dropping one indentation level.
    pub fn end_block(&mut self)
        ensures
            final(self).indent_level == (if old(self).indent_level > 0 {
                old(self).indent_level - 1
            } else {
                0
            }),
            final(self).out == old(self).out,
            final(self).last_line_empty == old(self).last_line_empty,
    {
        self.dedent();
    }

    /// Hands out the accumulated text.
    pub fn into_string(self) -> (r: String)
        ensures
            r == self.out,
    {
        self.out
    }

    fn write_indentation(&mut self)
        ensures
            final(self).out@ == old(self).out@ + indent_prefix(old(self).indent_level as nat),
            final(self).indent_level == old(self).indent_level,
            final(self).last_line_empty == old(self).last_line_empty,
    {
        let mut k: usize = 0;
        while k < self.indent_level
            invariant
                k <= self.indent_level,
                self.indent_level == old(self).indent_level,
                self.last_line_empty == old(self).last_line_empty,
                self.out@ == old(self).out@ + indent_prefix(k as nat),
            decreases self.indent_level - k,
        {
            self.out.append("    ");
            proof {
                lemma_indent_prefix_snoc((k + 1) as nat);
                assert(self.out@ =~= old(self).out@ + indent_prefix((k + 1) as nat));
            }
            k = k + 1;
        }
    }
}

/// Peeling one level off the front or off the back of the prefix is the
/// same.
proof fn lemma_indent_prefix_snoc(level: nat)
    requires
        level > 0,
    ensures
        indent_prefix(level) =~= indent_prefix((level - 1) as nat) + "    "@,
    decreases level,
{
    if level == 1 {
        assert(indent_prefix(1) =~= "    "@ + indent_prefix(0));
        assert(indent_prefix(0) =~= Seq::<char>::empty());
    } else {
        lemma_indent_prefix_snoc((level - 1) as nat);
        assert(indent_prefix(level) =~= "    "@ + indent_prefix((level - 1) as nat));
        assert("    "@ + (indent_prefix((level - 2) as nat) + "    "@) =~= ("    "@
            + indent_prefix((level - 2) as nat)) + "    "@);
    }
}

/// Whether every character of the line is ASCII whitespace.
fn line_is_blank(line: &str) -> (r: bool)
    ensures
        r == is_blank_line(line@),
{
    let len = line.unicode_len();
    let mut i: usize = 0;
    while i < len
        invariant
            i <= len,
            len == line@.len(),
            forall|k: int| 0 <= k < i ==> is_space_char(#[trigger] line@[k]),
        decreases len - i,
    {
        let u = line.get_char(i) as u32;
        let ws = (9 <= u && u <= 13) || u == 32 || u == 133 || u == 160 || u == 5760 || (8192 <= u
            && u <= 8202) || u == 8232 || u == 8233 || u == 8239 || u == 8287 || u == 12288;
        if !ws {
            return false;
        }
        i = i + 1;
    }
    true
}

} // verus!
