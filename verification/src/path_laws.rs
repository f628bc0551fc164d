//! What the paths of output files are.

use crate::path::{
    default_output_path, directory, ends_with, joined_path, last_component, last_dot, last_end,
    last_start, name_start, names_file, stem, suffixed_path, with_extension, zones_name,
};
use vstd::prelude::*;

verus! {

/// Whether a text holds no `c`.
pub open spec fn is_free_of(text: Seq<char>, c: char) -> bool {
    forall|i: int| 0 <= i < text.len() ==> #[trigger] text[i] != c
}

/// Whether a text can be the name of a file.
pub open spec fn is_file_name(name: Seq<char>) -> bool {
    name.len() > 0 && is_free_of(name, '/') && name != seq!['.'] && name != seq!['.', '.']
}

/// Whether a text can be what stands before the name of a file in a path.
pub open spec fn is_lead(lead: Seq<char>) -> bool {
    lead.len() == 0 || lead.last() == '/'
}

proof fn lemma_last_start(lead: Seq<char>, name: Seq<char>)
    requires
        is_lead(lead),
        is_free_of(name, '/'),
    ensures
        last_start(lead + name) == lead.len(),
    decreases name.len(),
{
    let path = lead + name;
    if name.len() == 0 {
        assert(path =~= lead);
    } else {
        assert(path.last() == name.last());
        assert(name.last() == name[name.len() - 1]);
        assert(path.drop_last() =~= lead + name.drop_last());
        assert forall|i: int| 0 <= i < name.drop_last().len() implies #[trigger] name.drop_last()[i]
            != '/' by {
            assert(name.drop_last()[i] == name[i]);
        }
        lemma_last_start(lead, name.drop_last());
    }
}

proof fn lemma_component(lead: Seq<char>, name: Seq<char>)
    requires
        is_lead(lead),
        is_file_name(name),
    ensures
        last_end(lead + name) == (lead + name).len(),
        name_start(lead + name) == lead.len(),
        last_component(lead + name) == name,
        names_file(lead + name),
{
    let path = lead + name;
    let n = path.len() as int;
    assert(path[n - 1] == name[name.len() - 1]);
    if name.len() == 1 {
        assert(name =~= seq![name[0]]);
        assert(name[0] != '.');
    } else {
        assert(path[n - 2] == name[name.len() - 2]);
    }
    assert(last_end(path) == n);
    assert(path.take(n) =~= path);
    lemma_last_start(lead, name);
    assert(path.subrange(lead.len() as int, n) =~= name);
}

proof fn lemma_last_dot(front: Seq<char>, ending: Seq<char>)
    requires
        front.len() > 0,
        is_free_of(ending, '.'),
    ensures
        last_dot(front + seq!['.'] + ending) == Some(front.len()),
    decreases ending.len(),
{
    let name = front + seq!['.'] + ending;
    if ending.len() == 0 {
        assert(name.last() == '.');
        assert(name.len() == front.len() + 1);
    } else {
        assert(name.last() == ending[ending.len() - 1]);
        let less = ending.drop_last();
        assert(name.drop_last() =~= front + seq!['.'] + less);
        assert forall|i: int| 0 <= i < less.len() implies #[trigger] less[i] != '.' by {
            assert(less[i] == ending[i]);
        }
        lemma_last_dot(front, less);
    }
}

proof fn lemma_no_dot(name: Seq<char>)
    requires
        forall|i: int| 1 <= i < name.len() ==> #[trigger] name[i] != '.',
    ensures
        last_dot(name) is None,
    decreases name.len(),
{
    if name.len() > 1 {
        assert(name.last() == name[name.len() - 1]);
        let less = name.drop_last();
        assert forall|i: int| 1 <= i < less.len() implies #[trigger] less[i] != '.' by {
            assert(less[i] == name[i]);
        }
        lemma_no_dot(less);
    }
}

proof fn lemma_dotted_is_a_name(front: Seq<char>, ending: Seq<char>)
    requires
        front.len() > 0,
        is_free_of(front, '/'),
        is_free_of(ending, '/'),
        ending.len() > 0 || front != seq!['.'],
    ensures
        is_file_name(front + seq!['.'] + ending),
{
    let name = front + seq!['.'] + ending;
    assert forall|i: int| 0 <= i < name.len() implies #[trigger] name[i] != '/' by {
        if i < front.len() {
            assert(name[i] == front[i]);
        } else if i > front.len() {
            assert(name[i] == ending[i - front.len() - 1]);
        }
    }
    if name == seq!['.', '.'] {
        assert(name.len() == 2);
        assert(front =~= seq!['.']) by {
            assert(front[0] == name[0]);
        }
    }
}

proof fn lemma_longer_ending(
    lead: Seq<char>,
    name: Seq<char>,
    front: Seq<char>,
    ending: Seq<char>,
)
    requires
        is_lead(lead),
        is_file_name(name),
        stem(name) == front,
        front.len() <= name.len(),
        name.take(front.len() as int) == front,
        ending.len() > 0,
    ensures
        with_extension(lead + name, ending) == lead + front + seq!['.'] + ending,
{
    reveal_strlit(".");
    assert("."@ =~= seq!['.']);
    lemma_component(lead, name);
    let path = lead + name;
    assert(path.take((lead.len() + front.len()) as int) =~= lead + name.take(front.len() as int));
}

/// A suffix goes before the ending of a file's name, with a dot of its own.
pub proof fn a_suffix_goes_before_the_ending(
    lead: Seq<char>,
    front: Seq<char>,
    ending: Seq<char>,
    suffix: Seq<char>,
)
    requires
        is_lead(lead),
        front.len() > 0,
        is_free_of(front, '/'),
        is_free_of(ending, '/'),
        is_free_of(ending, '.'),
        ending.len() > 0,
    ensures
        suffixed_path(lead + (front + seq!['.'] + ending), suffix) == lead + front + seq!['.'] + (
        suffix + seq!['.'] + ending),
{
    let name = front + seq!['.'] + ending;
    lemma_dotted_is_a_name(front, ending);
    lemma_component(lead, name);
    lemma_last_dot(front, ending);
    assert(name.skip((front.len() + 1) as int) =~= ending);
    assert(stem(name) =~= front);
    assert(name.take(front.len() as int) =~= front);
    assert(suffix + "."@ + ending =~= suffix + seq!['.'] + ending) by {
        reveal_strlit(".");
        assert("."@ =~= seq!['.']);
    }
    lemma_longer_ending(lead, name, front, suffix + seq!['.'] + ending);
}

/// A name without an ending gets the suffix at its end.
pub proof fn a_suffix_goes_after_a_name_without_an_ending(
    lead: Seq<char>,
    name: Seq<char>,
    suffix: Seq<char>,
)
    requires
        is_lead(lead),
        is_file_name(name),
        forall|i: int| 1 <= i < name.len() ==> #[trigger] name[i] != '.',
        suffix.len() > 0,
    ensures
        suffixed_path(lead + name, suffix) == lead + name + seq!['.'] + suffix,
{
    lemma_component(lead, name);
    lemma_no_dot(name);
    assert(name.take(name.len() as int) =~= name);
    lemma_longer_ending(lead, name, name, suffix);
}

/// Whether a text is a directory, written without anything superfluous at its
/// end.
pub open spec fn is_directory(text: Seq<char>) -> bool {
    text.len() > 0 && text.last() != '/' && !(text.len() > 1 && text.last() == '.' && text[text.len()
        - 2] == '/')
}

proof fn lemma_directory(lead: Seq<char>, name: Seq<char>)
    requires
        is_file_name(name),
        lead.len() == 0 || lead == seq!['/'] || exists|dir: Seq<char>|
            is_directory(dir) && lead == #[trigger] (dir + seq!['/']),
    ensures
        is_lead(lead),
        forall|other: Seq<char>| #[trigger]
            joined_path(directory(lead + name), other) == lead + other,
{
    reveal_strlit("/");
    assert("/"@ =~= seq!['/']);
    if lead.len() > 0 && lead != seq!['/'] {
        let dir = choose|dir: Seq<char>| is_directory(dir) && lead == #[trigger] (dir + seq!['/']);
        assert(lead.last() == '/');
        assert(lead.drop_last() =~= dir);
        let n = dir.len() as int;
        assert(dir[n - 1] == dir.last());
        assert(last_end(dir) == dir.len());
        assert(last_end(lead) == dir.len());
    } else if lead.len() > 0 {
        assert(lead.drop_last() =~= Seq::empty());
        assert(last_end(Seq::<char>::empty()) == 0);
        assert(last_end(lead) == 0);
    } else {
        assert(last_end(lead) == 0);
    }
    let path = lead + name;
    lemma_component(lead, name);
    assert(path.take(lead.len() as int) =~= lead);
    let found = directory(path);
    if lead.len() == 0 {
        assert(path[0] == name[0]);
        assert(found =~= Seq::empty());
    } else if lead == seq!['/'] {
        assert(path[0] == '/');
        assert(found =~= seq!['/']);
    } else {
        assert(found =~= lead.drop_last());
    }
    assert forall|other: Seq<char>| #[trigger] joined_path(found, other) == lead + other by {
        if lead.len() == 0 {
            assert(joined_path(found, other) =~= lead + other);
        } else if lead == seq!['/'] {
            assert(joined_path(found, other) =~= lead + other);
        } else {
            assert(found + seq!['/'] =~= lead);
            assert(joined_path(found, other) =~= lead + other);
        }
    }
}

/// The zones of a network go into a file beside it: one named after the
/// network, without `.net.xml`, or without the last ending that its name has.
pub proof fn zones_go_beside_their_network(
    lead: Seq<char>,
    base: Seq<char>,
    front: Seq<char>,
    ending: Seq<char>,
)
    requires
        lead.len() == 0 || lead == seq!['/'] || exists|dir: Seq<char>|
            is_directory(dir) && lead == #[trigger] (dir + seq!['/']),
        is_free_of(base, '/'),
        front.len() > 0,
        is_free_of(front, '/'),
        is_free_of(ending, '/'),
        is_free_of(ending, '.'),
        ending.len() > 0,
        !ends_with(front + seq!['.'] + ending, ".net.xml"@),
    ensures
        default_output_path(lead + (base + ".net.xml"@)) == lead + (base
            + ".waiting-zones.add.xml"@),
        default_output_path(lead + (front + seq!['.'] + ending)) == lead + (front
            + ".waiting-zones.add.xml"@),
{
    reveal_strlit(".net.xml");
    let whole = base + ".net.xml"@;
    assert(whole.len() == base.len() + 8);
    assert(is_file_name(whole)) by {
        assert forall|i: int| 0 <= i < whole.len() implies #[trigger] whole[i] != '/' by {
            if i < base.len() {
                assert(whole[i] == base[i]);
            } else {
                assert(whole[i] == ".net.xml"@[i - base.len()]);
            }
        }
    }
    lemma_directory(lead, whole);
    lemma_component(lead, whole);
    assert(whole.skip(whole.len() - 8) =~= ".net.xml"@);
    assert(whole.take(whole.len() - 8) =~= base);
    assert(zones_name(lead + whole) == base);
    let name = front + seq!['.'] + ending;
    lemma_dotted_is_a_name(front, ending);
    lemma_directory(lead, name);
    lemma_component(lead, name);
    lemma_last_dot(front, ending);
    assert(stem(name) =~= front);
    assert(zones_name(lead + name) == front);
}

/// Where the input names no file, the output is named plainly.
pub proof fn a_nameless_network_has_a_plain_output(input: Seq<char>)
    requires
        !names_file(input),
    ensures
        default_output_path(input) == joined_path(input, "output"@ + ".waiting-zones.add.xml"@),
{
}

} // verus!
