//! Writing indented lines of code.
use vstd::prelude::*;
use crate::text::append_str;
use crate::text::push_char;

verus! {

/// A destination for lines of code.
pub trait CodeWriter: Sized {
    /// Everything written so far.
    spec fn text(&self) -> Seq<char>;

    /// What starts each line written here (the indentation).
    spec fn line_prefix(&self) -> Seq<char>;

    /// Writes one line.
    fn line(&mut self, s: &str)
        ensures
            final(self).text() == old(self).text() + old(self).line_prefix() + s@ + seq!['\n'],
            final(self).line_prefix() == old(self).line_prefix(),
    ;

    /// A writer that indents each line by two more spaces.
    fn indented(&mut self) -> (r: IndentedWriter<'_, Self>)
        ensures
            *r.parent == *old(self),
            *final(self) == *final(r.parent),
    {
        IndentedWriter { parent: self }
    }
}

/// Collects the lines in a string.
pub struct CodePrinter {
    out: String,
}

impl CodePrinter {
    pub closed spec fn view(&self) -> Seq<char> {
        self.out@
    }

    pub fn new() -> (r: Self)
        ensures
            r.view() == Seq::<char>::empty(),
    {
        CodePrinter { out: String::new() }
    }

    /// The lines written, each ended by a newline.
    pub fn result(self) -> (r: String)
        ensures
            r@ == self.view(),
    {
        self.out
    }
}

impl CodeWriter for CodePrinter {
    open spec fn text(&self) -> Seq<char> {
        self.view()
    }

    open spec fn line_prefix(&self) -> Seq<char> {
        Seq::empty()
    }

    fn line(&mut self, s: &str) {
        append_str(&mut self.out, s);
        push_char(&mut self.out, '\n');
        assert(self.out@ =~= old(self).out@ + Seq::<char>::empty() + s@ + seq!['\n']);
    }
}


/// The characters of `s` without its line breaks.
pub open spec fn without_newlines(s: Seq<char>) -> Seq<char>
    decreases s.len(),
{
    if s.len() == 0 {
        seq![]
    } else {
        without_newlines(s.drop_last()) + if s.last() == '\n' {
            seq![]
        } else {
            seq![s.last()]
        }
    }
}

/// Collects lines that are to be written as one: what is written here,
/// without its line breaks, becomes a single line of another writer.
pub struct SingleLineWriter {
    buf: String,
}

impl SingleLineWriter {
    pub closed spec fn view(&self) -> Seq<char> {
        self.buf@
    }

    pub fn new() -> (r: Self)
        ensures
            r.view() == Seq::<char>::empty(),
    {
        SingleLineWriter { buf: String::new() }
    }

    /// What was collected, without its line breaks.
    pub fn joined(&self) -> (r: String)
        ensures
            r@ == without_newlines(self.view()),
    {
        let n = crate::text::char_count(&self.buf);
        let mut out = String::new();
        let mut i: usize = 0;
        while i < n
            invariant
                n == self.buf@.len(),
                i <= n,
                out@ == without_newlines(self.buf@.take(i as int)),
            decreases n - i,
        {
            let c = crate::text::char_at(&self.buf, i);
            let ghost t = self.buf@.take(i + 1);
            assert(t.drop_last() =~= self.buf@.take(i as int));
            if c != '\n' {
                push_char(&mut out, c);
            }
            i = i + 1;
            assert(out@ =~= without_newlines(self.buf@.take(i as int)));
        }
        assert(self.buf@.take(i as int) =~= self.buf@);
        out
    }
}

impl CodeWriter for SingleLineWriter {
    open spec fn text(&self) -> Seq<char> {
        self.view()
    }

    open spec fn line_prefix(&self) -> Seq<char> {
        Seq::empty()
    }

    fn line(&mut self, s: &str) {
        append_str(&mut self.buf, s);
        push_char(&mut self.buf, '\n');
        assert(self.buf@ =~= old(self).buf@ + Seq::<char>::empty() + s@ + seq!['\n']);
    }
}

/// Writes its lines, indented by two spaces, to another writer.
pub struct IndentedWriter<'a, W: CodeWriter> {
    pub parent: &'a mut W,
}

impl<'a, W: CodeWriter> CodeWriter for IndentedWriter<'a, W> {
    open spec fn text(&self) -> Seq<char> {
        self.parent.text()
    }

    open spec fn line_prefix(&self) -> Seq<char> {
        self.parent.line_prefix() + seq![' ', ' ']
    }

    fn line(&mut self, s: &str) {
        let mut t = String::new();
        push_char(&mut t, ' ');
        push_char(&mut t, ' ');
        append_str(&mut t, s);
        self.parent.line(t.as_str());
        assert(t@ =~= seq![' ', ' '] + s@);
        assert(self.text() =~= old(self).text() + old(self).line_prefix() + s@ + seq!['\n']);
    }
}

/// Two spaces for each of `k` levels of indentation.
pub open spec fn spaces(k: nat) -> Seq<char>
    decreases k,
{
    if k == 0 {
        seq![]
    } else {
        spaces((k - 1) as nat) + seq![' ', ' ']
    }
}

/// The text of the lines `ls`, each with its depth of indentation.
pub open spec fn lines_text(ls: Seq<(nat, Seq<char>)>) -> Seq<char>
    decreases ls.len(),
{
    if ls.len() == 0 {
        seq![]
    } else {
        lines_text(ls.drop_last()) + spaces(ls.last().0) + ls.last().1 + seq!['\n']
    }
}

/// A printer indents nothing, and each writer made by `indented` indents
/// two spaces more than its parent.
pub proof fn lemma_indentation<'a, W: CodeWriter>(p: CodePrinter, w: IndentedWriter<'a, W>, k: nat)
    requires
        w.parent.line_prefix() == spaces(k),
    ensures
        p.line_prefix() == spaces(0),
        w.line_prefix() == spaces(k + 1),
{
}

/// Writing the lines `ls` in order, each through a writer of its depth,
/// into a new printer, gives the lines, each indented by two spaces per
/// level and ended by a newline: `texts` are the printer's text before each
/// line and after the last.
pub proof fn lemma_printed_lines(ls: Seq<(nat, Seq<char>)>, texts: Seq<Seq<char>>)
    requires
        texts.len() == ls.len() + 1,
        texts[0] == Seq::<char>::empty(),
        forall|i: int| 0 <= i < ls.len() ==> #[trigger] texts[i + 1] == texts[i] + spaces(ls[i].0) + ls[i].1 + seq!['\n'],
    ensures
        texts.last() == lines_text(ls),
    decreases ls.len(),
{
    if ls.len() > 0 {
        let n = ls.len() - 1;
        lemma_printed_lines(ls.drop_last(), texts.drop_last());
        assert(texts.drop_last().last() == texts[n]);
        assert(texts[n + 1] == texts[n] + spaces(ls[n].0) + ls[n].1 + seq!['\n']);
    }
}

} // verus!
