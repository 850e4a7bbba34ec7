use crate::text::{append_text, chars_of, same_text, string_of};
use crate::tokens::{lowercase_of, to_lowercase};
use vstd::prelude::*;

verus! {

/// Whether a character is a letter or a digit.
pub uninterp spec fn alphanumeric(c: char) -> bool;

/// `char::is_alphanumeric`: whether the character is alphabetic or numeric.
#[verifier::external_body]
pub(crate) fn char_is_alphanumeric(c: char) -> (answer: bool)
    ensures
        answer == alphanumeric(c),
{
    c.is_alphanumeric()
}

/// The line begins with three backticks.
pub open spec fn is_fence(line: Seq<char>) -> bool {
    line.len() >= 3 && line[0] == '`' && line[1] == '`' && line[2] == '`'
}

/// The letters and digits at the front of `text`.
pub open spec fn word_prefix(text: Seq<char>) -> Seq<char>
    decreases text.len(),
{
    if text.len() == 0 || !alphanumeric(text[0]) {
        Seq::empty()
    } else {
        seq![text[0]] + word_prefix(text.drop_first())
    }
}

/// The language that a fence names: the letters and digits that follow the
/// backticks.
pub open spec fn fence_language(line: Seq<char>) -> Option<Seq<char>> {
    if is_fence(line) {
        Some(word_prefix(line.subrange(3, line.len() as int)))
    } else {
        None
    }
}

/// The language that a line names if it begins or ends a code block: none
/// for a line that does not begin with three backticks.
pub fn detect_code_block(line: &str) -> (language: Option<String>)
    ensures
        match fence_language(line@) {
            Some(name) => language matches Some(found) && found@ == name,
            None => language is None,
        },
{
    let chars = chars_of(line);
    if chars.len() < 3 || chars[0] != '`' || chars[1] != '`' || chars[2] != '`' {
        return None;
    }
    let ghost rest = line@.subrange(3, line@.len() as int);
    let mut end: usize = 3;
    let mut open = true;
    assert(rest.subrange(0, rest.len() as int) =~= rest);
    assert(rest.subrange(0, 0) =~= Seq::<char>::empty());
    while end < chars.len() && open
        invariant
            3 <= end <= chars.len(),
            chars@ == line@,
            rest == line@.subrange(3, line@.len() as int),
            word_prefix(rest) == rest.subrange(0, end - 3) + word_prefix(
                rest.subrange(end - 3, rest.len() as int),
            ),
            !open ==> word_prefix(rest.subrange(end - 3, rest.len() as int)) == Seq::<char>::empty(),
        decreases chars.len() - end + (if open { 1int } else { 0int }),
    {
        let ghost here = rest.subrange(end - 3, rest.len() as int);
        assert(here[0] == chars[end as int]);
        if char_is_alphanumeric(chars[end]) {
            proof {
                assert(here.drop_first() =~= rest.subrange(end - 2, rest.len() as int));
                assert(rest.subrange(0, end - 2) =~= rest.subrange(0, end - 3) + seq![here[0]]);
            }
            end += 1;
        } else {
            open = false;
        }
    }
    proof {
        let here = rest.subrange(end - 3, rest.len() as int);
        assert(word_prefix(here) =~= Seq::<char>::empty());
        assert(rest.subrange(0, end - 3) =~= line@.subrange(3, end as int));
    }
    Some(string_of(&chars, 3, end))
}

/// How a line is to be highlighted.
#[derive(Debug)]
pub enum LineSyntax {
    /// As Markdown.
    Markdown,
    /// As source code in the named language.
    Code(String),
    /// Not at all.
    Plain,
}

/// What highlighting remembers from line to line: whether the lines are
/// inside a code block, and the language that the block named.
#[derive(Debug)]
pub struct MarkdownRender {
    pub code_block: bool,
    pub code_language: Option<String>,
}

/// What a `MarkdownRender` holds.
pub struct RenderView {
    pub code_block: bool,
    pub code_language: Option<Seq<char>>,
}

impl View for MarkdownRender {
    type V = RenderView;

    open spec fn view(&self) -> RenderView {
        RenderView {
            code_block: self.code_block,
            code_language: match self.code_language {
                Some(name) => Some(name@),
                None => None,
            },
        }
    }
}

/// How a line is highlighted.
pub enum LineSyntaxView {
    Markdown,
    Code(Seq<char>),
    Plain,
}

/// The state after `line`.
///
/// A fence outside a code block begins one and sets its language, where it
/// names one. A fence inside a code block ends it and forgets the language.
/// Any other line leaves the state as it is.
pub open spec fn state_after(state: RenderView, line: Seq<char>) -> RenderView {
    match fence_language(line) {
        Some(name) => if state.code_block {
            RenderView { code_block: false, code_language: None }
        } else {
            RenderView {
                code_block: true,
                code_language: if name.len() > 0 {
                    Some(name)
                } else {
                    state.code_language
                },
            }
        },
        None => state,
    }
}

/// How `line` is highlighted in `state`: a fence and a line outside a code
/// block as Markdown; a line inside a code block in the language of the
/// block, or not at all where the block named none.
pub open spec fn syntax_of(state: RenderView, line: Seq<char>) -> LineSyntaxView {
    if fence_language(line) is Some || !state.code_block {
        LineSyntaxView::Markdown
    } else {
        match state.code_language {
            Some(name) => LineSyntaxView::Code(name),
            None => LineSyntaxView::Plain,
        }
    }
}

impl MarkdownRender {
    /// The state before the first line: outside any code block.
    pub fn new() -> (render: Self)
        ensures
            render@ == (RenderView { code_block: false, code_language: None }),
    {
        MarkdownRender { code_block: false, code_language: None }
    }

    /// Says how `line` is to be highlighted, and moves on to the state after
    /// it.
    pub fn render_line(&mut self, line: &str) -> (syntax: LineSyntax)
        ensures
            final(self)@ == state_after(old(self)@, line@),
            match syntax_of(old(self)@, line@) {
                LineSyntaxView::Markdown => syntax is Markdown,
                LineSyntaxView::Code(name) => syntax matches LineSyntax::Code(found) && found@
                    == name,
                LineSyntaxView::Plain => syntax is Plain,
            },
    {
        match detect_code_block(line) {
            Some(language) => {
                if self.code_block {
                    self.code_block = false;
                    self.code_language = None;
                } else {
                    self.code_block = true;
                    if language.as_str().unicode_len() > 0 {
                        self.code_language = Some(language);
                    }
                }
                LineSyntax::Markdown
            },
            None => {
                if self.code_block {
                    match &self.code_language {
                        Some(name) => LineSyntax::Code(name.clone()),
                        None => LineSyntax::Plain,
                    }
                } else {
                    LineSyntax::Markdown
                }
            },
        }
    }
}

/// The names of languages whose files have another extension than the name.
pub open spec fn language_table() -> Seq<(Seq<char>, Seq<char>)> {
    seq![
        ("asp"@, "asa"@),
        ("actionscript"@, "as"@),
        ("c#"@, "cs"@),
        ("clojure"@, "clj"@),
        ("erlang"@, "erl"@),
        ("haskell"@, "hs"@),
        ("javascript"@, "js"@),
        ("bibtex"@, "bib"@),
        ("latex"@, "tex"@),
        ("tex"@, "sty"@),
        ("ocaml"@, "ml"@),
        ("ocamllex"@, "mll"@),
        ("ocamlyacc"@, "mly"@),
        ("objective-c++"@, "mm"@),
        ("objective-c"@, "m"@),
        ("pascal"@, "pas"@),
        ("perl"@, "pl"@),
        ("python"@, "py"@),
        ("restructuredtext"@, "rst"@),
        ("ruby"@, "rb"@),
        ("rust"@, "rs"@),
    ]
}

/// The extension of the first entry from `from` on whose name is `name`.
pub open spec fn table_lookup(table: Seq<(Seq<char>, Seq<char>)>, name: Seq<char>, from: int) -> Option<
    Seq<char>,
>
    decreases table.len() - from,
{
    if from < 0 || from >= table.len() {
        None
    } else if table[from].0 == name {
        Some(table[from].1)
    } else {
        table_lookup(table, name, from + 1)
    }
}

/// The extension under which the syntax of a named language is found: that
/// of the table entry for the name in lower case.
pub open spec fn extension_of_language(name: Seq<char>) -> Option<Seq<char>> {
    table_lookup(language_table(), lowercase_of(name), 0)
}

/// The extension that the table holds for a name.
pub fn lookup_extension(name: &str) -> (extension: Option<&'static str>)
    ensures
        match table_lookup(language_table(), name@, 0) {
            Some(found) => extension matches Some(e) && e@ == found,
            None => extension is None,
        },
{
    let names = vec![
        "asp",
        "actionscript",
        "c#",
        "clojure",
        "erlang",
        "haskell",
        "javascript",
        "bibtex",
        "latex",
        "tex",
        "ocaml",
        "ocamllex",
        "ocamlyacc",
        "objective-c++",
        "objective-c",
        "pascal",
        "perl",
        "python",
        "restructuredtext",
        "ruby",
        "rust",
    ];
    let extensions = vec![
        "asa",
        "as",
        "cs",
        "clj",
        "erl",
        "hs",
        "js",
        "bib",
        "tex",
        "sty",
        "ml",
        "mll",
        "mly",
        "mm",
        "m",
        "pas",
        "pl",
        "py",
        "rst",
        "rb",
        "rs",
    ];
    let ghost table = language_table();
    assert(names.len() == 21 && extensions.len() == 21 && table.len() == 21);
    assert forall|k: int| 0 <= k < 21 implies names[k]@ == table[k].0 && extensions[k]@
        == table[k].1 by {}
    let mut i: usize = 0;
    while i < names.len()
        invariant
            i <= names.len(),
            names.len() == 21,
            extensions.len() == 21,
            table == language_table(),
            table.len() == 21,
            forall|k: int| 0 <= k < 21 ==> names[k]@ == table[k].0 && extensions[k]@ == table[k].1,
            table_lookup(table, name@, i as int) == table_lookup(table, name@, 0),
        decreases names.len() - i,
    {
        if same_text(names[i], name) {
            return Some(extensions[i]);
        }
        i += 1;
    }
    None
}

/// The extension under which the syntax of a named language is found.
pub fn language_extension(name: &str) -> (extension: Option<&'static str>)
    ensures
        match extension_of_language(name@) {
            Some(found) => extension matches Some(e) && e@ == found,
            None => extension is None,
        },
{
    let lower = to_lowercase(name);
    lookup_extension(lower.as_str())
}

/// The position of the last line break of `text`, or -1 where it has none.
pub open spec fn last_break(text: Seq<char>) -> int
    decreases text.len(),
{
    if text.len() == 0 {
        -1
    } else if text.last() == '\n' {
        text.len() - 1
    } else {
        last_break(text.drop_last())
    }
}

/// What is held back after `text` arrived: what follows its last line
/// break, or everything where it has none.
pub open spec fn held_back(buffer: Seq<char>, text: Seq<char>) -> Seq<char> {
    let whole = buffer + text;
    if last_break(text) >= 0 {
        whole.subrange(last_break(whole) + 1, whole.len() as int)
    } else {
        whole
    }
}

/// What is ready to be rendered after `text` arrived: the lines before the
/// last line break of `text`, with what was held back before them; nothing
/// where `text` has no line break.
pub open spec fn ready_lines(buffer: Seq<char>, text: Seq<char>) -> Option<Seq<char>> {
    let whole = buffer + text;
    if last_break(text) >= 0 {
        Some(whole.subrange(0, last_break(whole)))
    } else {
        None
    }
}

proof fn lemma_last_break(text: Seq<char>)
    ensures
        -1 <= last_break(text) < text.len(),
        last_break(text) >= 0 ==> text[last_break(text)] == '\n',
        forall|i: int| last_break(text) < i < text.len() ==> text[i] != '\n',
    decreases text.len(),
{
    if text.len() > 0 && text.last() != '\n' {
        lemma_last_break(text.drop_last());
        assert forall|i: int| last_break(text) < i < text.len() implies text[i] != '\n' by {
            if i < text.len() - 1 {
                assert(text.drop_last()[i] == text[i]);
            }
        }
    }
}

proof fn lemma_last_break_is(text: Seq<char>, at: int)
    requires
        -1 <= at < text.len(),
        at >= 0 ==> text[at] == '\n',
        forall|i: int| at < i < text.len() ==> text[i] != '\n',
    ensures
        last_break(text) == at,
    decreases text.len(),
{
    if text.len() > 0 {
        if text.last() == '\n' {
        } else {
            let front = text.drop_last();
            assert forall|i: int| at < i < front.len() implies front[i] != '\n' by {
                assert(front[i] == text[i]);
            }
            if at >= 0 {
                assert(front[at] == text[at]);
            }
            lemma_last_break_is(front, at);
        }
    }
}

/// Takes in a piece of streamed text. Where it holds a line break, the
/// lines that are complete are handed out and the rest is held back; else
/// all of it is held back.
pub fn feed_text(buffer: &mut String, text: &str) -> (ready: Option<String>)
    ensures
        final(buffer)@ == held_back(old(buffer)@, text@),
        match ready_lines(old(buffer)@, text@) {
            Some(lines) => ready matches Some(found) && found@ == lines,
            None => ready is None,
        },
{
    let ghost whole = buffer@ + text@;
    append_text(buffer, text);
    let chars = chars_of(buffer.as_str());
    let incoming = chars_of(text);
    let offset: usize = chars.len() - incoming.len();
    let mut at: usize = chars.len();
    while at > offset && chars[at - 1] != '\n'
        invariant
            offset <= at <= chars.len(),
            chars@ == whole,
            forall|i: int| at <= i < chars.len() ==> chars[i] != '\n',
        decreases at,
    {
        at -= 1;
    }
    proof {
        lemma_last_break(text@);
        lemma_last_break(whole);
        assert forall|i: int| 0 <= i < text@.len() implies text@[i] == whole[offset + i] by {}
        if at > offset {
            lemma_last_break_is(whole, at - 1);
            let k = at - 1 - offset;
            assert(text@[k] == '\n');
            if last_break(text@) < 0 {
                assert(text@[k] != '\n');
            }
        } else {
            assert forall|i: int| -1 < i < text@.len() implies text@[i] != '\n' by {
                assert(whole[offset + i] != '\n');
            }
            lemma_last_break_is(text@, -1);
        }
    }
    if at > offset {
        let lines = string_of(&chars, 0, at - 1);
        let rest = string_of(&chars, at, chars.len());
        *buffer = rest;
        Some(lines)
    } else {
        None
    }
}

} // verus!
