//! Which grammar a language has, and what a Java file says of itself.

use vstd::prelude::*;
use crate::parser::syntax::{child_in_field, child_of_kind, children, trimmed_at, Grammar, TreeView};
use crate::parser::{grammar_named, imported_name, imported_names, java_file, same_folded};

verus! {

/// The text is the name, with its ASCII letters in whatever case.
pub open spec fn reads(text: Seq<char>, name: Seq<char>) -> bool {
    text.len() == name.len() && forall|i: int|
        0 <= i < text.len() ==> {
            ||| #[trigger] text[i] == name[i]
            ||| 'A' <= text[i] <= 'Z' && name[i] as int == text[i] as int + 32
            ||| 'A' <= name[i] <= 'Z' && text[i] as int == name[i] as int + 32
        }
}

proof fn lemma_reads(text: Seq<char>, name: Seq<char>)
    ensures
        same_folded(text, name) <==> reads(text, name),
{
    if same_folded(text, name) {
        assert forall|i: int| 0 <= i < text.len() implies {
            ||| #[trigger] text[i] == name[i]
            ||| 'A' <= text[i] <= 'Z' && name[i] as int == text[i] as int + 32
            ||| 'A' <= name[i] <= 'Z' && text[i] as int == name[i] as int + 32
        } by {
            assert(crate::parser::folded(text[i]) == crate::parser::folded(name[i]));
            if text[i] as int == name[i] as int {
                assert(text[i] == name[i]);
            }
        }
    }
}

proof fn lemma_language_names()
    ensures
        "rust"@.len() == 4 && "rust"@[0] == 'r' && "rs"@.len() == 2 && "rs"@[0] == 'r',
        "go"@.len() == 2 && "go"@[0] == 'g',
        "java"@.len() == 4 && "java"@[0] == 'j',
        "c"@.len() == 1,
        "cpp"@.len() == 3 && "cpp"@[0] == 'c' && "cpp"@[1] == 'p',
        "c++"@.len() == 3 && "c++"@[0] == 'c',
        "cc"@.len() == 2 && "cc"@[0] == 'c',
        "cxx"@.len() == 3 && "cxx"@[0] == 'c',
        "zig"@.len() == 3 && "zig"@[0] == 'z',
{
    reveal_strlit("rust");
    reveal_strlit("rs");
    reveal_strlit("go");
    reveal_strlit("java");
    reveal_strlit("c");
    reveal_strlit("cpp");
    reveal_strlit("c++");
    reveal_strlit("cc");
    reveal_strlit("cxx");
    reveal_strlit("zig");
}

/// Each language has its grammar under each of its names, written in any case, and nothing
/// else has one.
pub proof fn languages_have_their_grammars(language: Seq<char>)
    ensures
        reads(language, "rust"@) || reads(language, "rs"@) ==> grammar_named(language) == Some(
            Grammar::Rust,
        ),
        reads(language, "go"@) ==> grammar_named(language) == Some(Grammar::Go),
        reads(language, "java"@) ==> grammar_named(language) == Some(Grammar::Java),
        reads(language, "c"@) ==> grammar_named(language) == Some(Grammar::C),
        reads(language, "cpp"@) || reads(language, "c++"@) || reads(language, "cc"@) || reads(
            language,
            "cxx"@,
        ) ==> grammar_named(language) == Some(Grammar::Cpp),
        reads(language, "zig"@) ==> grammar_named(language) == Some(Grammar::Zig),
        grammar_named(language) is Some ==> {
            ||| reads(language, "rust"@)
            ||| reads(language, "rs"@)
            ||| reads(language, "go"@)
            ||| reads(language, "java"@)
            ||| reads(language, "c"@)
            ||| reads(language, "cpp"@)
            ||| reads(language, "c++"@)
            ||| reads(language, "cc"@)
            ||| reads(language, "cxx"@)
            ||| reads(language, "zig"@)
        },
{
    lemma_language_names();
    lemma_reads(language, "rust"@);
    lemma_reads(language, "rs"@);
    lemma_reads(language, "go"@);
    lemma_reads(language, "java"@);
    lemma_reads(language, "c"@);
    lemma_reads(language, "cpp"@);
    lemma_reads(language, "c++"@);
    lemma_reads(language, "cc"@);
    lemma_reads(language, "cxx"@);
    lemma_reads(language, "zig"@);
    lemma_apart(language, "rs"@, "go"@);
    lemma_apart(language, "rs"@, "cc"@);
    lemma_apart(language, "go"@, "cc"@);
    lemma_apart(language, "rust"@, "java"@);
    lemma_apart(language, "cpp"@, "zig"@);
    lemma_apart(language, "c++"@, "zig"@);
    lemma_apart(language, "cxx"@, "zig"@);
}

proof fn lemma_apart(text: Seq<char>, one: Seq<char>, other: Seq<char>)
    requires
        one.len() > 0,
        other.len() > 0,
        'a' <= one[0] <= 'z',
        'a' <= other[0] <= 'z',
        one[0] != other[0],
    ensures
        !(reads(text, one) && reads(text, other)),
{
    if reads(text, one) && reads(text, other) {
        let c = text[0];
        assert(c == one[0] || ('A' <= c <= 'Z' && one[0] as int == c as int + 32));
        assert(c == other[0] || ('A' <= c <= 'Z' && other[0] as int == c as int + 32));
        assert(one[0] as int != other[0] as int);
    }
}

/// The import at `at` names the text: by what fills its name, or else by a qualified name,
/// or else by a plain one.
pub open spec fn import_names(tree: TreeView, at: int, name: Seq<char>) -> bool {
    &&& tree.nodes[at].kind == "import_declaration"@
    &&& name.len() > 0
    &&& match child_in_field(tree, at, "name"@) {
        Some(own) => trimmed_at(tree, own) == name,
        None => match child_of_kind(tree, at, "scoped_identifier"@) {
            Some(own) => trimmed_at(tree, own) == name,
            None => match child_of_kind(tree, at, "identifier"@) {
                Some(own) => trimmed_at(tree, own) == name,
                None => false,
            },
        },
    }
}

proof fn lemma_imported(tree: TreeView, candidates: Seq<int>, name: Seq<char>)
    ensures
        imported_names(tree, candidates).contains(name) <==> exists|i: int|
            0 <= i < candidates.len() && import_names(tree, #[trigger] candidates[i], name),
    decreases candidates.len(),
{
    if candidates.len() > 0 {
        let rest = candidates.skip(1);
        let found = imported_names(tree, candidates);
        let later = imported_names(tree, rest);
        lemma_imported(tree, rest, name);
        assert(import_names(tree, candidates[0], name) <==> imported_name(tree, candidates[0])
            == Some(name));
        if let Some(own) = imported_name(tree, candidates[0]) {
            assert(found =~= seq![own] + later);
            if found.contains(name) {
                let i = choose|i: int| 0 <= i < found.len() && found[i] == name;
                if i > 0 {
                    assert(later[i - 1] == name);
                }
            }
            if own == name {
                assert(found[0] == name);
            }
            if later.contains(name) {
                let i = choose|i: int| 0 <= i < later.len() && later[i] == name;
                assert(found[i + 1] == name);
            }
        }
        if exists|i: int| 0 <= i < rest.len() && import_names(tree, #[trigger] rest[i], name) {
            let i = choose|i: int|
                0 <= i < rest.len() && import_names(tree, #[trigger] rest[i], name);
            assert(import_names(tree, candidates[i + 1], name));
        }
        if exists|i: int|
            0 <= i < candidates.len() && import_names(tree, #[trigger] candidates[i], name) {
            let i = choose|i: int|
                0 <= i < candidates.len() && import_names(tree, #[trigger] candidates[i], name);
            if i > 0 {
                assert(import_names(tree, rest[i - 1], name));
            }
        }
    }
}

/// A Java file imports just what its import declarations name, and is in the package that
/// its package declaration names.
pub proof fn java_files_say_what_they_import(
    tree: TreeView,
    file_path: Seq<char>,
    name: Seq<char>,
    declaration: int,
    own: int,
)
    ensures
        java_file(tree, file_path).file_path == file_path,
        java_file(tree, file_path).imports.contains(name) <==> exists|i: int|
            0 <= i < children(tree, 0).len() && import_names(
                tree,
                #[trigger] children(tree, 0)[i],
                name,
            ),
        child_of_kind(tree, 0, "package_declaration"@) is None ==> java_file(
            tree,
            file_path,
        ).package is None,
        child_of_kind(tree, 0, "package_declaration"@) == Some(declaration) && child_of_kind(
            tree,
            declaration,
            "scoped_identifier"@,
        ) == Some(own) ==> java_file(tree, file_path).package == Some(trimmed_at(tree, own)),
        child_of_kind(tree, 0, "package_declaration"@) == Some(declaration) && child_of_kind(
            tree,
            declaration,
            "scoped_identifier"@,
        ) is None && child_of_kind(tree, declaration, "identifier"@) == Some(own) ==> java_file(
            tree,
            file_path,
        ).package == Some(trimmed_at(tree, own)),
{
    lemma_imported(tree, children(tree, 0), name);
}

} // verus!
