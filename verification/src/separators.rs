use crate::splitter::has_terminal;
use crate::text::same_text;
use vstd::prelude::*;

verus! {

/// The texts of a list of string slices.
pub open spec fn slice_texts(parts: Seq<&'static str>) -> Seq<Seq<char>> {
    Seq::new(parts.len(), |i: int| parts[i]@)
}

/// The separators for prose: paragraphs, lines, sentences, clauses, words,
/// characters.
pub open spec fn default_ladder() -> Seq<Seq<char>> {
    seq!["\n\n"@, "\n"@, ". "@, ", "@, " "@, ""@]
}

/// The separators for Markdown: headings, then paragraphs, lines, words,
/// characters.
pub open spec fn markdown_ladder() -> Seq<Seq<char>> {
    seq!["\n## "@, "\n### "@, "\n\n"@, "\n"@, " "@, ""@]
}

/// The separators for Rust source: the beginnings of declarations and
/// statements, then blank lines, lines, words, characters.
pub open spec fn rust_ladder() -> Seq<Seq<char>> {
    seq!["\nfn "@, "\nconst "@, "\nlet "@, "\nif "@, "\nwhile "@, "\nfor "@, "\nloop "@, "\nmatch "@, "\n\n"@, "\n"@, " "@, ""@]
}

/// The separators for Go source: the beginnings of declarations and
/// statements, then blank lines, lines, words, characters.
pub open spec fn go_ladder() -> Seq<Seq<char>> {
    seq!["\nfunc "@, "\nvar "@, "\nconst "@, "\ntype "@, "\nif "@, "\nfor "@, "\nswitch "@, "\ncase "@, "\n\n"@, "\n"@, " "@, ""@]
}

/// The separators for Python source: the beginnings of declarations and
/// statements, then blank lines, lines, words, characters.
pub open spec fn python_ladder() -> Seq<Seq<char>> {
    seq!["\nclass "@, "\ndef "@, "\n\tdef "@, "\n\n"@, "\n"@, " "@, ""@]
}

/// The separators for JavaScript source: the beginnings of declarations and
/// statements, then blank lines, lines, words, characters.
pub open spec fn javascript_ladder() -> Seq<Seq<char>> {
    seq!["\nfunction "@, "\nconst "@, "\nlet "@, "\nvar "@, "\nclass "@, "\nif "@, "\nfor "@, "\nwhile "@, "\nswitch "@, "\ncase "@, "\ndefault "@, "\n\n"@, "\n"@, " "@, ""@]
}

/// The separators for TypeScript source: the beginnings of declarations and
/// statements, then blank lines, lines, words, characters.
pub open spec fn typescript_ladder() -> Seq<Seq<char>> {
    seq!["\nenum "@, "\ninterface "@, "\nnamespace "@, "\ntype "@, "\nclass "@, "\nfunction "@, "\nconst "@, "\nlet "@, "\nvar "@, "\nif "@, "\nfor "@, "\nwhile "@, "\nswitch "@, "\ncase "@, "\ndefault "@, "\n\n"@, "\n"@, " "@, ""@]
}

/// The separators for C and C++ source: the beginnings of declarations and
/// statements, then blank lines, lines, words, characters.
pub open spec fn c_ladder() -> Seq<Seq<char>> {
    seq!["\nclass "@, "\nvoid "@, "\nint "@, "\nif "@, "\nfor "@, "\nwhile "@, "\nswitch "@, "\ncase "@, "\n\n"@, "\n"@, " "@, ""@]
}

/// The separators for Java source: the beginnings of declarations and
/// statements, then blank lines, lines, words, characters.
pub open spec fn java_ladder() -> Seq<Seq<char>> {
    seq!["\nclass "@, "\npublic "@, "\nprotected "@, "\nprivate "@, "\nstatic "@, "\nif "@, "\nfor "@, "\nwhile "@, "\nswitch "@, "\ncase "@, "\n\n"@, "\n"@, " "@, ""@]
}

/// The separators for a file with the given extension, in lower case.
pub open spec fn separators_for(extension: Seq<char>) -> Seq<Seq<char>> {
    if extension == "md"@ {
        markdown_ladder()
    } else if extension == "rs"@ {
        rust_ladder()
    } else if extension == "go"@ {
        go_ladder()
    } else if extension == "py"@ {
        python_ladder()
    } else if extension == "js"@ {
        javascript_ladder()
    } else if extension == "ts"@ {
        typescript_ladder()
    } else if extension == "c"@ || extension == "cpp"@ {
        c_ladder()
    } else if extension == "java"@ {
        java_ladder()
    } else {
        default_ladder()
    }
}

/// The separators for prose.
pub fn default_separators() -> (separators: Vec<&'static str>)
    ensures
        slice_texts(separators@) == default_ladder(),
{
    let separators = vec!["\n\n", "\n", ". ", ", ", " ", ""];
    assert(slice_texts(separators@) =~= default_ladder());
    separators
}

/// The separators for a file, chosen by its extension in lower case.
pub fn detect_separators(extension: &str) -> (separators: Vec<&'static str>)
    ensures
        slice_texts(separators@) == separators_for(extension@),
{
    if same_text(extension, "md") {
        let separators = vec!["\n## ", "\n### ", "\n\n", "\n", " ", ""];
        assert(slice_texts(separators@) =~= markdown_ladder());
        separators
    } else if same_text(extension, "rs") {
        let separators = vec!["\nfn ", "\nconst ", "\nlet ", "\nif ", "\nwhile ", "\nfor ", "\nloop ", "\nmatch ", "\n\n", "\n", " ", ""];
        assert(slice_texts(separators@) =~= rust_ladder());
        separators
    } else if same_text(extension, "go") {
        let separators = vec!["\nfunc ", "\nvar ", "\nconst ", "\ntype ", "\nif ", "\nfor ", "\nswitch ", "\ncase ", "\n\n", "\n", " ", ""];
        assert(slice_texts(separators@) =~= go_ladder());
        separators
    } else if same_text(extension, "py") {
        let separators = vec!["\nclass ", "\ndef ", "\n\tdef ", "\n\n", "\n", " ", ""];
        assert(slice_texts(separators@) =~= python_ladder());
        separators
    } else if same_text(extension, "js") {
        let separators = vec!["\nfunction ", "\nconst ", "\nlet ", "\nvar ", "\nclass ", "\nif ", "\nfor ", "\nwhile ", "\nswitch ", "\ncase ", "\ndefault ", "\n\n", "\n", " ", ""];
        assert(slice_texts(separators@) =~= javascript_ladder());
        separators
    } else if same_text(extension, "ts") {
        let separators = vec!["\nenum ", "\ninterface ", "\nnamespace ", "\ntype ", "\nclass ", "\nfunction ", "\nconst ", "\nlet ", "\nvar ", "\nif ", "\nfor ", "\nwhile ", "\nswitch ", "\ncase ", "\ndefault ", "\n\n", "\n", " ", ""];
        assert(slice_texts(separators@) =~= typescript_ladder());
        separators
    } else if same_text(extension, "c") || same_text(extension, "cpp") {
        let separators = vec!["\nclass ", "\nvoid ", "\nint ", "\nif ", "\nfor ", "\nwhile ", "\nswitch ", "\ncase ", "\n\n", "\n", " ", ""];
        assert(slice_texts(separators@) =~= c_ladder());
        separators
    } else if same_text(extension, "java") {
        let separators = vec!["\nclass ", "\npublic ", "\nprotected ", "\nprivate ", "\nstatic ", "\nif ", "\nfor ", "\nwhile ", "\nswitch ", "\ncase ", "\n\n", "\n", " ", ""];
        assert(slice_texts(separators@) =~= java_ladder());
        separators
    } else {
        default_separators()
    }
}

/// Whatever the extension, the separators end with the empty one, so that
/// any text can be divided down to its characters.
pub proof fn lemma_separators_have_terminal(extension: Seq<char>)
    ensures
        has_terminal(separators_for(extension), 0),
{
    reveal_strlit("");
    let ladder = separators_for(extension);
    let last = ladder.len() - 1;
    assert(ladder[last] == ""@);
    assert(ladder[last].len() == 0);
}

} // verus!
