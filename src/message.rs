//! Messages found in source text, with the places where they were found.

use vstd::prelude::*;
use crate::chars::{decimal, push_decimal, push_str, string_of};
use crate::common::{canonical, escape_string};

verus! {

/// A place where a message was found: a file and a 1-based line.
pub type SourceView = (Seq<char>, usize);

/// A message: the places where it was found, and its text.
pub type MessageView = (Seq<SourceView>, Seq<char>);

/// Represents a comment concerning the location or translation of a message.
#[derive(Debug, Clone, PartialEq, Eq, PartialOrd, Ord)]
pub enum Comment {
    /// File and line.
    Source(String, usize),
}

impl View for Comment {
    type V = SourceView;

    open spec fn view(&self) -> SourceView {
        match self {
            Comment::Source(file, line) => (file@, *line),
        }
    }
}

/// Represents a message, with a string and a list of comments
/// corresponding to positions in source files.
#[derive(Debug, Clone, PartialEq, Eq, PartialOrd, Ord)]
pub struct Message {
    pub comments: Vec<Comment>,
    pub msg: String,
}

impl View for Message {
    type V = MessageView;

    open spec fn view(&self) -> MessageView {
        (self.comments@.map_values(|c: Comment| c@), self.msg@)
    }
}

/// The ` file:line` items of a message's source comment line.
pub open spec fn sources_text(cs: Seq<SourceView>) -> Seq<char>
    decreases cs.len(),
{
    if cs.len() == 0 {
        seq![]
    } else {
        sources_text(cs.drop_last()) + seq![' '] + cs.last().0 + seq![':'] + decimal(
            cs.last().1 as nat,
        )
    }
}

/// The catalog block of a message: its sources, its canonical text as
/// `msgid`, `value` as `msgstr`, and a blank line.
pub open spec fn entry_text_with(m: MessageView, value: Seq<char>) -> Seq<char> {
    seq!['#', ':'] + sources_text(m.0) + seq!['\n', 'm', 's', 'g', 'i', 'd', ' ', '"'] + canonical(m.1)
        + seq!['"', '\n', 'm', 's', 'g', 's', 't', 'r', ' ', '"'] + value + seq!['"', '\n', '\n']
}

/// The catalog-template block of a message, with an empty `msgstr`.
pub open spec fn entry_text(m: MessageView) -> Seq<char> {
    entry_text_with(m, seq![])
}

impl Message {
    /// Creates a new message, found nowhere yet.
    pub fn new(msg: &str) -> (r: Message)
        ensures
            r@ == (Seq::<SourceView>::empty(), msg@),
    {
        let r = Message { msg: String::from_str(msg), comments: Vec::new() };
        assert(r@.0 =~= Seq::<SourceView>::empty());
        r
    }

    /// Adds a source location to the message.
    pub fn add_source(&mut self, file: &str, line: usize) -> (r: &mut Self)
        ensures
            (*r)@ == (old(self)@.0.push((file@, line)), old(self)@.1),
            *final(r) == *final(self),
    {
        self.comments.push(Comment::Source(String::from_str(file), line));
        assert(self@.0 =~= old(self)@.0.push((file@, line)));
        self
    }

    /// The block that stands for this message in a catalog template.
    pub fn to_entry_string(&self) -> (r: String)
        ensures
            r@ == entry_text(self@),
    {
        let mut out: Vec<char> = Vec::new();
        out.push('#');
        out.push(':');
        let mut i: usize = 0;
        while i < self.comments.len()
            invariant
                i <= self@.0.len(),
                out@ == seq!['#', ':'] + sources_text(self@.0.take(i as int)),
            decreases self.comments.len() - i,
        {
            match &self.comments[i] {
                Comment::Source(file, line) => {
                    out.push(' ');
                    push_str(&mut out, file.as_str());
                    out.push(':');
                    push_decimal(&mut out, *line);
                },
            }
            proof {
                let t = self@.0.take(i + 1);
                assert(t.drop_last() =~= self@.0.take(i as int));
                assert(t.last() == self@.0[i as int]);
                assert(out@ =~= seq!['#', ':'] + sources_text(t));
            }
            i = i + 1;
        }
        assert(self@.0.take(i as int) =~= self@.0);
        push_str(&mut out, "\nmsgid \"");
        let escaped = escape_string(self.msg.as_str());
        push_str(&mut out, escaped.as_str());
        push_str(&mut out, "\"\nmsgstr \"\"\n\n");
        proof {
            reveal_strlit("\nmsgid \"");
            reveal_strlit("\"\nmsgstr \"\"\n\n");
            assert(out@ =~= entry_text(self@));
        }
        string_of(out.as_slice())
    }
}

} // verus!
