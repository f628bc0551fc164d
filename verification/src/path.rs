//! Names of output files, worked out from other paths. Paths are Unix paths:
//! components stand between slashes, and the last of them names the file.

use crate::order::characters;
use vstd::prelude::*;

verus! {

/// Where the last component of `path` ends: before any slashes at the end, and
/// any dots between them, which name no component.
pub open spec fn last_end(path: Seq<char>) -> nat
    decreases path.len(),
{
    let n = path.len();
    if n > 0 && path[n - 1] == '/' {
        last_end(path.drop_last())
    } else if n > 1 && path[n - 1] == '.' && path[n - 2] == '/' {
        last_end(path.drop_last())
    } else {
        n
    }
}

/// Where the last component of `path` starts, where it ends with `path`.
pub open spec fn last_start(path: Seq<char>) -> nat
    decreases path.len(),
{
    if path.len() == 0 || path.last() == '/' {
        path.len()
    } else {
        last_start(path.drop_last())
    }
}

/// Where the name of the file starts.
pub open spec fn name_start(path: Seq<char>) -> nat {
    last_start(path.take(last_end(path) as int))
}

/// The last component of `path`.
pub open spec fn last_component(path: Seq<char>) -> Seq<char> {
    path.subrange(name_start(path) as int, last_end(path) as int)
}

/// Whether `path` names a file: its last component is there, and is neither
/// this directory nor its parent.
pub open spec fn names_file(path: Seq<char>) -> bool {
    let name = last_component(path);
    name.len() > 0 && name != seq!['.'] && name != seq!['.', '.']
}

/// Where the last dot of `name` stands, but for one at its very start.
pub open spec fn last_dot(name: Seq<char>) -> Option<nat>
    decreases name.len(),
{
    if name.len() <= 1 {
        None
    } else if name.last() == '.' {
        Some((name.len() - 1) as nat)
    } else {
        last_dot(name.drop_last())
    }
}

/// The extension of the file that `path` names: what follows the last dot.
pub open spec fn extension(path: Seq<char>) -> Option<Seq<char>> {
    if !names_file(path) {
        None
    } else {
        let name = last_component(path);
        match last_dot(name) {
            Some(dot) => Some(name.skip((dot + 1) as int)),
            None => None,
        }
    }
}

/// The name of the file without its extension.
pub open spec fn stem(name: Seq<char>) -> Seq<char> {
    match last_dot(name) {
        Some(dot) => name.take(dot as int),
        None => name,
    }
}

/// `path`, which names a file, with `ending` for an extension.
pub open spec fn with_extension(path: Seq<char>, ending: Seq<char>) -> Seq<char> {
    let kept = path.take((name_start(path) + stem(last_component(path)).len()) as int);
    if ending.len() == 0 {
        kept
    } else {
        kept + "."@ + ending
    }
}

/// `path` with `suffix` put before the extension of the file, or behind its
/// name where it has none; behind the whole path where it names no file.
pub open spec fn suffixed_path(path: Seq<char>, suffix: Seq<char>) -> Seq<char> {
    if !names_file(path) {
        path + "."@ + suffix
    } else {
        match extension(path) {
            Some(ending) => with_extension(path, suffix + "."@ + ending),
            None => with_extension(path, suffix),
        }
    }
}

/// Where the last component of the first `n` characters ends.
fn find_last_end(path: &Vec<char>) -> (end: usize)
    ensures
        end == last_end(path@),
        end <= path@.len(),
{
    let mut end: usize = path.len();
    assert(path@.take(end as int) =~= path@);
    while end > 0 && (path[end - 1] == '/' || (end > 1 && path[end - 1] == '.' && path[end - 2]
        == '/'))
        invariant
            end <= path@.len(),
            last_end(path@) == last_end(path@.take(end as int)),
        decreases end,
    {
        assert(path@.take(end as int).drop_last() =~= path@.take(end - 1));
        end = end - 1;
    }
    end
}

/// Where the component that ends at `end` starts.
fn find_last_start(path: &Vec<char>, end: usize) -> (start: usize)
    requires
        end <= path@.len(),
    ensures
        start == last_start(path@.take(end as int)),
        start <= end,
{
    let mut start: usize = end;
    while start > 0 && path[start - 1] != '/'
        invariant
            start <= end <= path@.len(),
            last_start(path@.take(end as int)) == last_start(path@.take(start as int)),
        decreases start,
    {
        assert(path@.take(start as int).drop_last() =~= path@.take(start - 1));
        start = start - 1;
    }
    start
}

/// Where the last component of a path starts and ends, and whether it names a
/// file.
struct LastComponent {
    start: usize,
    end: usize,
    is_file: bool,
}

spec fn locates(found: LastComponent, path: Seq<char>) -> bool {
    &&& found.end == last_end(path)
    &&& found.start == name_start(path)
    &&& found.start <= found.end <= path.len()
    &&& found.is_file == names_file(path)
}

fn locate(path: &Vec<char>) -> (found: LastComponent)
    ensures
        locates(found, path@),
{
    let end: usize = find_last_end(path);
    let start: usize = find_last_start(path, end);
    let length: usize = end - start;
    let ghost name = last_component(path@);
    let is_file: bool = if length == 0 {
        false
    } else if length == 1 {
        path[start] != '.'
    } else if length == 2 {
        path[start] != '.' || path[start + 1] != '.'
    } else {
        true
    };
    proof {
        assert(name.len() == length);
        if length == 1 {
            assert(name =~= seq![path@[start as int]]);
            assert(name[0] == path@[start as int]);
        } else if length == 2 {
            assert(name =~= seq![path@[start as int], path@[start + 1]]);
            assert(name[0] == path@[start as int] && name[1] == path@[start + 1]);
        }
        assert(seq!['.'][0] == '.');
        assert(seq!['.', '.'][0] == '.' && seq!['.', '.'][1] == '.');
    }
    LastComponent { start, end, is_file }
}

/// Where the stem of the component from `start` to `end` ends, and whether a
/// dot follows it.
fn find_stem_end(path: &Vec<char>, start: usize, end: usize) -> (found: (usize, bool))
    requires
        start <= end <= path@.len(),
    ensures
        start <= found.0 <= end,
        found.0 - start == stem(path@.subrange(start as int, end as int)).len(),
        found.1 == (last_dot(path@.subrange(start as int, end as int)) is Some),
        found.1 ==> last_dot(path@.subrange(start as int, end as int)) == Some(
            (found.0 - start) as nat,
        ),
        found.1 ==> found.0 < end,
{
    let ghost name = path@.subrange(start as int, end as int);
    let mut k: usize = end;
    assert(name.take(k - start) =~= name);
    while k - start > 1
        invariant
            start <= k <= end <= path@.len(),
            name == path@.subrange(start as int, end as int),
            last_dot(name) == last_dot(name.take(k - start)),
        decreases k,
    {
        let ghost part = name.take(k - start);
        assert(part.last() == path@[k - 1]);
        assert(part.drop_last() =~= name.take(k - 1 - start));
        if path[k - 1] == '.' {
            return (k - 1, true);
        }
        k = k - 1;
    }
    (end, false)
}

/// `path` with `suffix` put before the extension of its file:
/// `zones.geojson` with `vehicles` becomes `zones.vehicles.geojson`. Where
/// there is no extension the suffix becomes one, and where there is no file a
/// dot and the suffix are put behind the path.
pub fn suffixed(path: &str, suffix: &str) -> (result: String)
    ensures
        result@ == suffixed_path(path@, suffix@),
{
    let chars: Vec<char> = characters(path);
    let found: LastComponent = locate(&chars);
    if !found.is_file {
        let mut whole: String = path.to_owned();
        whole.append(".");
        whole.append(suffix);
        return whole;
    }
    let ghost name = last_component(path@);
    let (stem_end, has_extension) = find_stem_end(&chars, found.start, found.end);
    let mut result: String = path.substring_char(0, stem_end).to_owned();
    assert(result@ =~= path@.take(found.start + stem(name).len()));
    let ghost kept = result@;
    if has_extension {
        let ending: &str = path.substring_char(stem_end + 1, found.end);
        assert(ending@ =~= name.skip((last_dot(name)->0 + 1) as int));
        result.append(".");
        result.append(suffix);
        result.append(".");
        result.append(ending);
        proof {
            reveal_strlit(".");
            assert((suffix@ + "."@ + ending@).len() > 0);
            assert(result@ =~= kept + "."@ + (suffix@ + "."@ + ending@));
        }
    } else if suffix.unicode_len() > 0 {
        result.append(".");
        result.append(suffix);
    }
    result
}

/// The directory of the file that `path` names.
pub open spec fn directory(path: Seq<char>) -> Seq<char> {
    let before = path.take(name_start(path) as int);
    let end = last_end(before);
    if end == 0 && path.len() > 0 && path[0] == '/' {
        "/"@
    } else {
        before.take(end as int)
    }
}

/// `name` in `directory`.
pub open spec fn joined_path(directory: Seq<char>, name: Seq<char>) -> Seq<char> {
    if directory.len() > 0 && directory.last() != '/' {
        directory + "/"@ + name
    } else {
        directory + name
    }
}

/// `path` with `name` for the file's name; where it names no file, `name` in
/// the directory that it names.
pub open spec fn with_file_name(path: Seq<char>, name: Seq<char>) -> Seq<char> {
    if names_file(path) {
        joined_path(directory(path), name)
    } else {
        joined_path(path, name)
    }
}

/// Whether `text` ends with `ending`.
pub open spec fn ends_with(text: Seq<char>, ending: Seq<char>) -> bool {
    text.len() >= ending.len() && text.skip(text.len() - ending.len()) == ending
}

/// What the zones of the network in `input` are called: the name of its file
/// without `.net.xml`, or else without its extension.
pub open spec fn zones_name(input: Seq<char>) -> Seq<char> {
    if !names_file(input) {
        "output"@
    } else {
        let name = last_component(input);
        if ends_with(name, ".net.xml"@) {
            name.take(name.len() - ".net.xml"@.len())
        } else {
            stem(name)
        }
    }
}

/// Where the zones of the network in `input` are written unless told
/// otherwise: next to it.
pub open spec fn default_output_path(input: Seq<char>) -> Seq<char> {
    with_file_name(input, zones_name(input) + ".waiting-zones.add.xml"@)
}

/// Whether the characters of `path` before `end` end with `ending`, not
/// reaching back beyond `start`.
fn part_ends_with(path: &Vec<char>, start: usize, end: usize, ending: &str) -> (yes: bool)
    requires
        start <= end <= path@.len(),
    ensures
        yes == ends_with(path@.subrange(start as int, end as int), ending@),
{
    let wanted: Vec<char> = characters(ending);
    let ghost part = path@.subrange(start as int, end as int);
    if end - start < wanted.len() {
        return false;
    }
    let offset: usize = end - wanted.len();
    let ghost tail = part.skip(part.len() - wanted@.len());
    let mut k: usize = 0;
    while k < wanted.len()
        invariant
            k <= wanted@.len(),
            wanted@ == ending@,
            start <= offset,
            offset + wanted@.len() == end,
            end <= path@.len(),
            part == path@.subrange(start as int, end as int),
            tail == part.skip(part.len() - wanted@.len()),
            forall|j: int| 0 <= j < k ==> #[trigger] tail[j] == wanted@[j],
        decreases wanted@.len() - k,
    {
        assert(tail[k as int] == path@[offset + k]);
        if path[offset + k] != wanted[k] {
            assert(tail[k as int] != wanted@[k as int]);
            return false;
        }
        k = k + 1;
    }
    assert(tail =~= wanted@);
    true
}

/// Where the zones of the network in `input` are written unless told
/// otherwise.
pub fn default_output(input: &str) -> (output: String)
    ensures
        output@ == default_output_path(input@),
{
    let chars: Vec<char> = characters(input);
    let found: LastComponent = locate(&chars);
    let ghost name = last_component(input@);
    let mut output: String;
    if found.is_file {
        let before: &str = input.substring_char(0, found.start);
        assert(before@ =~= input@.take(name_start(input@) as int));
        let before_chars: Vec<char> = characters(before);
        let end: usize = find_last_end(&before_chars);
        if end == 0 && chars[0] == '/' {
            output = "/".to_owned();
        } else {
            output = before.substring_char(0, end).to_owned();
            assert(output@ =~= before@.take(end as int));
        }
        assert(output@ == directory(input@));
    } else {
        output = input.to_owned();
    }
    let ghost base = output@;
    let length: usize = output.as_str().unicode_len();
    if length > 0 && output.as_str().get_char(length - 1) != '/' {
        output.append("/");
    }
    let ghost opened = output@;
    if !found.is_file {
        output.append("output");
    } else if part_ends_with(&chars, found.start, found.end, ".net.xml") {
        proof {
            reveal_strlit(".net.xml");
        }
        let cut: usize = found.end - 8;
        let part: &str = input.substring_char(found.start, cut);
        assert(part@ =~= name.take(name.len() - 8));
        output.append(part);
    } else {
        let (stem_end, _) = find_stem_end(&chars, found.start, found.end);
        let part: &str = input.substring_char(found.start, stem_end);
        assert(part@ =~= stem(name));
        output.append(part);
    }
    output.append(".waiting-zones.add.xml");
    assert(output@ =~= opened + (zones_name(input@) + ".waiting-zones.add.xml"@));
    assert(output@ =~= joined_path(base, zones_name(input@) + ".waiting-zones.add.xml"@));
    output
}

/// The trailing part of a path holds no character but slashes and dots, and
/// starts with a slash.
proof fn lemma_trailing(path: Seq<char>)
    ensures
        last_end(path) <= path.len(),
        last_end(path) < path.len() ==> path[last_end(path) as int] == '/' || (last_end(path) > 0
            && path[last_end(path) as int] == '.' && path[last_end(path) - 1] == '/'),
        last_end(path) > 0 ==> path[last_end(path) - 1] != '/',
    decreases path.len(),
{
    let n = path.len();
    if n > 0 && path[n - 1] == '/' {
        lemma_trailing(path.drop_last());
    } else if n > 1 && path[n - 1] == '.' && path[n - 2] == '/' {
        lemma_trailing(path.drop_last());
    }
}

proof fn lemma_last_start(path: Seq<char>)
    ensures
        last_start(path) <= path.len(),
        forall|i: int| last_start(path) <= i < path.len() ==> #[trigger] path[i] != '/',
    decreases path.len(),
{
    if path.len() > 0 && path.last() != '/' {
        lemma_last_start(path.drop_last());
        assert forall|i: int| last_start(path) <= i < path.len() implies #[trigger] path[i]
            != '/' by {
            if i < path.len() - 1 {
                assert(path.drop_last()[i] == path[i]);
            }
        }
    }
}

proof fn lemma_last_dot(name: Seq<char>)
    ensures
        last_dot(name) matches Some(dot) ==> 0 < dot < name.len() && name[dot as int] == '.',
    decreases name.len(),
{
    if name.len() > 1 && name.last() != '.' {
        lemma_last_dot(name.drop_last());
    }
}

/// Paths of different suffixes are different, and none is the path itself.
pub proof fn suffixed_paths_are_distinct(path: Seq<char>, a: Seq<char>, b: Seq<char>)
    requires
        a != b,
        a.len() > 0,
        b.len() > 0,
        !a.contains('/'),
        !b.contains('/'),
    ensures
        suffixed_path(path, a) != suffixed_path(path, b),
        suffixed_path(path, a) != path,
        suffixed_path(path, b) != path,
{
    lemma_suffixed_differs(path, a, b);
    lemma_suffixed_differs(path, b, a);
}

proof fn lemma_suffixed_differs(path: Seq<char>, a: Seq<char>, b: Seq<char>)
    requires
        a != b,
        a.len() > 0,
        b.len() > 0,
        !a.contains('/'),
    ensures
        suffixed_path(path, a) != suffixed_path(path, b),
        suffixed_path(path, a) != path,
{
    reveal_strlit(".");
    if !names_file(path) {
        let pa = path + "."@ + a;
        let pb = path + "."@ + b;
        assert(pa.len() > path.len());
        if pa == pb {
            assert(a =~= pa.skip(path.len() as int + 1));
            assert(b =~= pb.skip(path.len() as int + 1));
        }
    } else {
        lemma_suffixed_file_differs(path, a, b);
    }
}

proof fn lemma_suffixed_file_differs(path: Seq<char>, a: Seq<char>, b: Seq<char>)
    requires
        names_file(path),
        a != b,
        a.len() > 0,
        b.len() > 0,
        !a.contains('/'),
    ensures
        suffixed_path(path, a) != suffixed_path(path, b),
        suffixed_path(path, a) != path,
{
    let end = last_end(path);
    let start = name_start(path);
    let name = last_component(path);
    lemma_trailing(path);
    lemma_last_start(path.take(end as int));
    lemma_last_dot(name);
    reveal_strlit(".");
    let kept = path.take((start + stem(name).len()) as int);
    let k = kept.len() as int;
    match extension(path) {
        Some(ending) => {
            let dot = last_dot(name)->0;
            let pa = kept + "."@ + (a + "."@ + ending);
            let pb = kept + "."@ + (b + "."@ + ending);
            assert(suffixed_path(path, a) == pa);
            assert(suffixed_path(path, b) == pb);
            if pa == pb {
                assert(pa.len() == pb.len());
                assert forall|i: int| 0 <= i < a.len() implies a[i] == b[i] by {
                    assert(pa[k + 1 + i] == a[i]);
                    assert(pb[k + 1 + i] == b[i]);
                }
                assert(a =~= b);
            }
            // a longer path goes on with a slash behind the name
            assert forall|i: int| 0 <= i < ending.len() implies #[trigger] ending[i] != '/' by {
                assert(ending[i] == path.take(end as int)[start + dot + 1 + i]);
            }
            lemma_slash_follows(path, a, ending, k);
        },
        None => {
            let pa = kept + "."@ + a;
            let pb = kept + "."@ + b;
            if pa == pb {
                assert(pa.len() == pb.len());
                assert forall|i: int| 0 <= i < a.len() implies a[i] == b[i] by {
                    assert(pa[k + 1 + i] == a[i]);
                    assert(pb[k + 1 + i] == b[i]);
                }
                assert(a =~= b);
            }
            if pa == path {
                assert(k == end);
                assert(pa[k] == '.');
                assert(path[end - 1] != '/');
            }
        },
    }
}

proof fn lemma_slash_follows(path: Seq<char>, a: Seq<char>, ending: Seq<char>, k: int)
    requires
        0 <= k <= path.len(),
        names_file(path),
        a.len() > 0,
        !a.contains('/'),
        k + 1 + ending.len() == last_end(path),
        forall|i: int| 0 <= i < ending.len() ==> #[trigger] ending[i] != '/',
    ensures
        path != path.take(k) + "."@ + (a + "."@ + ending),
{
    lemma_trailing(path);
    reveal_strlit(".");
    let tail = a + "."@ + ending;
    if path == path.take(k) + "."@ + tail {
        let at = last_end(path) as int;
        let i = at - k - 1;
        assert(path[at] == tail[i]);
        assert(path[at] == '/');
        if i < a.len() {
            assert(a[i] == '/');
        } else if i > a.len() {
            assert(ending[i - a.len() - 1] == '/');
        }
    }
}

} // verus!
