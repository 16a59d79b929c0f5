//! Which language a path is outlined in.

use vstd::prelude::*;

use super::render::{
    extension_of, language_named, last_component, path_extension_of, without_tail, Language,
};

verus! {

proof fn lemma_extension(stem: Seq<char>, extension: Seq<char>)
    requires
        stem.len() > 0,
        !extension.contains('.'),
    ensures
        extension_of(stem + seq!['.'] + extension) == Some(extension),
    decreases extension.len(),
{
    let name = stem + seq!['.'] + extension;
    if extension.len() > 0 {
        let shorter = extension.drop_last();
        assert(extension.contains(extension.last())) by {
            assert(extension[extension.len() - 1] == extension.last());
        }
        assert(!shorter.contains('.')) by {
            if shorter.contains('.') {
                let at = shorter.index_of('.');
                assert(extension[at] == '.');
            }
        }
        lemma_extension(stem, shorter);
        assert(name.drop_last() =~= stem + seq!['.'] + shorter);
        assert(name.last() == extension.last());
        assert(shorter.push(extension.last()) =~= extension);
    } else {
        assert(name.last() == '.');
        assert(extension =~= Seq::empty());
    }
}

proof fn lemma_no_extension(name: Seq<char>)
    requires
        name.len() > 0 ==> !name.drop_first().contains('.'),
    ensures
        extension_of(name) is None,
    decreases name.len(),
{
    if name.len() > 1 {
        let front = name.drop_last();
        assert(name.drop_first().contains(name.last())) by {
            assert(name.drop_first()[name.len() - 2] == name.last());
        }
        assert(!front.drop_first().contains('.')) by {
            if front.drop_first().contains('.') {
                let at = front.drop_first().index_of('.');
                assert(name.drop_first()[at] == '.');
            }
        }
        lemma_no_extension(front);
    }
}

proof fn lemma_component(folder: Seq<char>, name: Seq<char>)
    requires
        !name.contains('/'),
        folder.len() == 0 || folder.last() == '/',
    ensures
        last_component(folder + name) == name,
    decreases name.len(),
{
    let path = folder + name;
    if name.len() > 0 {
        let shorter = name.drop_last();
        assert(name.contains(name.last())) by {
            assert(name[name.len() - 1] == name.last());
        }
        assert(!shorter.contains('/')) by {
            if shorter.contains('/') {
                let at = shorter.index_of('/');
                assert(name[at] == '/');
            }
        }
        lemma_component(folder, shorter);
        assert(path.drop_last() =~= folder + shorter);
        assert(path.last() == name.last());
        assert(shorter.push(name.last()) =~= name);
    } else {
        assert(path =~= folder);
        assert(name =~= Seq::empty());
    }
}

/// The extension of a path is what stands behind the last dot of its file name, whatever folder the
/// file is in; a file whose name has no dot, or none but at its front, has none.
pub proof fn the_last_dot_begins_the_extension(
    folder: Seq<char>,
    stem: Seq<char>,
    extension: Seq<char>,
)
    requires
        stem.len() > 0,
        extension.len() > 0,
        !stem.contains('/'),
        !extension.contains('/'),
        !extension.contains('.'),
        folder.len() == 0 || folder.last() == '/',
    ensures
        path_extension_of(folder + (stem + seq!['.'] + extension)) == Some(extension),
        !stem.contains('.') ==> path_extension_of(folder + stem) is None,
{
    let name = stem + seq!['.'] + extension;
    assert(!name.contains('/')) by {
        if name.contains('/') {
            let at = name.index_of('/');
            if at < stem.len() {
                assert(stem[at] == '/');
            } else if at > stem.len() {
                assert(extension[at - stem.len() - 1] == '/');
            }
        }
    }
    let path = folder + name;
    assert(path.last() == extension.last());
    assert(extension[extension.len() - 1] == extension.last());
    assert(extension.contains(extension.last()));
    assert(without_tail(path) == path);
    lemma_component(folder, name);
    assert(name.last() == extension.last());
    assert(name != seq!['.'] && name != seq!['.', '.']);
    lemma_extension(stem, extension);
    if !stem.contains('.') {
        let whole = folder + stem;
        assert(whole.last() == stem.last());
        assert(stem[stem.len() - 1] == stem.last());
        assert(stem.contains(stem.last()));
        assert(without_tail(whole) == whole);
        lemma_component(folder, stem);
        assert(!stem.drop_first().contains('.')) by {
            if stem.drop_first().contains('.') {
                let at = stem.drop_first().index_of('.');
                assert(stem[at + 1] == '.');
            }
        }
        lemma_no_extension(stem);
        assert(stem[0] != '.');
    }
}

/// Markdown and the sources and headers of C are outlined, and nothing else is.
pub proof fn an_extension_names_a_language(extension: Seq<char>)
    ensures
        language_named(Some(extension)) == Some(Language::Md) <==> extension == "md"@ || extension
            == "markdown"@,
        language_named(Some(extension)) == Some(Language::C) <==> extension == "c"@,
        language_named(Some(extension)) == Some(Language::H) <==> extension == "h"@,
        language_named(Some(extension)) is None <==> extension != "md"@ && extension != "markdown"@
            && extension != "c"@ && extension != "h"@,
        language_named(None) is None,
{
    reveal_strlit("md");
    reveal_strlit("markdown");
    reveal_strlit("c");
    reveal_strlit("h");
    assert("md"@.len() == 2 && "markdown"@.len() == 8 && "c"@.len() == 1 && "h"@.len() == 1);
    assert("c"@[0] == 'c' && "h"@[0] == 'h');
}

} // verus!
