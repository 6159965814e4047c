//! Names of files.
//!
//! A path is a text whose parts are separated by slashes. Two texts name one
//! file where they go through the same parts: a slash too many and a part that
//! stays where it is say nothing.
use crate::chars::chars_of_str;
use vstd::prelude::*;

verus! {

/// What lies between the slashes.
pub open spec fn path_parts(path: Seq<char>) -> Seq<Seq<char>>
    decreases path.len(),
{
    if path.len() == 0 {
        seq![Seq::empty()]
    } else {
        let before = path_parts(path.drop_last());
        if path.last() == '/' {
            before.push(Seq::empty())
        } else {
            before.drop_last().push(before.last().push(path.last()))
        }
    }
}

/// Whether a part is more than nothing and more than a dot that stays where it
/// is. At the beginning, a dot says that the path is not from the root.
pub open spec fn part_counts(part: Seq<char>, first: bool) -> bool {
    part.len() > 0 && (first || part != seq!['.'])
}

/// The parts that a path goes through.
pub open spec fn counting_parts(parts: Seq<Seq<char>>) -> Seq<Seq<char>>
    decreases parts.len(),
{
    if parts.len() == 0 {
        Seq::empty()
    } else if part_counts(parts.last(), parts.len() == 1) {
        counting_parts(parts.drop_last()).push(parts.last())
    } else {
        counting_parts(parts.drop_last())
    }
}

/// The way that a path takes.
#[verifier::ext_equal]
pub struct Way {
    /// It begins at the root.
    pub rooted: bool,
    pub names: Seq<Seq<char>>,
}

/// The way that a path takes.
pub open spec fn way(path: Seq<char>) -> Way {
    Way { rooted: path.len() > 0 && path[0] == '/', names: counting_parts(path_parts(path)) }
}

/// The name that a document is shown by: that of the file, or the whole path
/// where it ends in none.
pub open spec fn file_title(path: Seq<char>) -> Seq<char> {
    let names = way(path).names;
    if names.len() == 0 || names.last() == seq!['.'] || names.last() == seq!['.', '.'] {
        path
    } else {
        names.last()
    }
}

/// What parts say.
spec fn texts(parts: Seq<String>) -> Seq<Seq<char>> {
    Seq::new(parts.len(), |i: int| parts[i]@)
}

/// The parts of a path that count.
fn names_of(path: &str) -> (r: Vec<String>)
    ensures
        texts(r@) == way(path@).names,
{
    let chars = chars_of_str(path);
    let mut names: Vec<String> = Vec::new();
    let mut start: usize = 0;
    let mut first = true;
    let mut i: usize = 0;
    assert(chars@.take(0) == Seq::<char>::empty());
    assert(path_parts(chars@.take(0)).drop_last() == Seq::<Seq<char>>::empty());
    while i < chars.len()
        invariant
            start <= i <= chars@.len(),
            chars@ == path@,
            ({
                let parts = path_parts(chars@.take(i as int));
                &&& parts.len() > 0
                &&& parts.last() == path@.subrange(start as int, i as int)
                &&& first == (parts.len() == 1)
                &&& texts(names@) == counting_parts(parts.drop_last())
            }),
        decreases chars@.len() - i,
    {
        let ghost before = path_parts(chars@.take(i as int));
        let ghost held = texts(names@);
        assert(chars@.take(i + 1).drop_last() == chars@.take(i as int));
        if chars[i] == '/' {
            let part = path.substring_char(start, i);
            assert(path_parts(chars@.take(i + 1)).drop_last() == before);
            if counts(part, first) {
                names.push(part.to_owned());
                assert(texts(names@) == held.push(part@));
            }
            start = i + 1;
            first = false;
        } else {
            assert(path_parts(chars@.take(i + 1)).drop_last() == before.drop_last());
            assert(path@.subrange(start as int, i + 1) == path@.subrange(
                start as int,
                i as int,
            ).push(path@[i as int]));
        }
        i = i + 1;
    }
    assert(chars@.take(chars@.len() as int) == path@);
    let ghost held = texts(names@);
    let part = path.substring_char(start, chars.len());
    if counts(part, first) {
        names.push(part.to_owned());
        assert(texts(names@) == held.push(part@));
    }
    names
}

/// Whether a part counts.
fn counts(part: &str, first: bool) -> (r: bool)
    ensures
        r == part_counts(part@, first),
{
    let chars = chars_of_str(part);
    if chars.len() == 0 || first {
        return chars.len() > 0;
    }
    let dot = chars.len() == 1 && chars[0] == '.';
    assert(dot ==> chars@ == seq!['.']);
    !dot
}

/// Whether a path begins at the root.
fn is_rooted(path: &str) -> (r: bool)
    ensures
        r == way(path@).rooted,
{
    let chars = chars_of_str(path);
    chars.len() > 0 && chars[0] == '/'
}

/// Whether two paths take the same way.
pub fn same_way(a: &str, b: &str) -> (r: bool)
    ensures
        r == (way(a@) == way(b@)),
{
    if is_rooted(a) != is_rooted(b) {
        return false;
    }
    let ours = names_of(a);
    let theirs = names_of(b);
    if ours.len() != theirs.len() {
        assert(texts(ours@).len() != texts(theirs@).len());
        return false;
    }
    let mut i: usize = 0;
    while i < ours.len()
        invariant
            i <= ours@.len(),
            ours@.len() == theirs@.len(),
            texts(ours@) == way(a@).names,
            texts(theirs@) == way(b@).names,
            forall|k: int| 0 <= k < i ==> (#[trigger] texts(ours@)[k]) == texts(theirs@)[k],
        decreases ours@.len() - i,
    {
        assert(texts(ours@)[i as int] == ours@[i as int]@);
        assert(texts(theirs@)[i as int] == theirs@[i as int]@);
        if !(ours[i] == theirs[i]) {
            return false;
        }
        i = i + 1;
    }
    assert(texts(ours@) == texts(theirs@));
    true
}

/// The name that a document is shown by.
pub fn title(path: &str) -> (r: String)
    ensures
        r@ == file_title(path@),
{
    let mut names = names_of(path);
    let ghost all = texts(names@);
    match names.pop() {
        None => path.to_owned(),
        Some(name) => {
            assert(all.last() == name@);
            let chars = chars_of_str(name.as_str());
            let dot = chars.len() == 1 && chars[0] == '.';
            let up = chars.len() == 2 && chars[0] == '.' && chars[1] == '.';
            assert(dot ==> chars@ == seq!['.']);
            assert(up ==> chars@ == seq!['.', '.']);
            if dot || up {
                path.to_owned()
            } else {
                name
            }
        },
    }
}

proof fn lemma_some_part(path: Seq<char>)
    ensures
        path_parts(path).len() > 0,
    decreases path.len(),
{
    if path.len() > 0 {
        lemma_some_part(path.drop_last());
    }
}

/// A slash parts a path in two.
proof fn lemma_parted(a: Seq<char>, b: Seq<char>)
    ensures
        path_parts(a + seq!['/'] + b) == path_parts(a) + path_parts(b),
    decreases b.len(),
{
    let whole = a + seq!['/'] + b;
    lemma_some_part(a);
    lemma_some_part(b);
    if b.len() == 0 {
        assert(whole.drop_last() == a);
    } else {
        lemma_parted(a, b.drop_last());
        lemma_some_part(b.drop_last());
        assert(whole.drop_last() == a + seq!['/'] + b.drop_last());
        assert(whole.last() == b.last());
    }
}

/// A part that does not count can be left out.
proof fn lemma_left_out(x: Seq<Seq<char>>, part: Seq<char>, y: Seq<Seq<char>>)
    requires
        x.len() > 0,
        !part_counts(part, false),
    ensures
        counting_parts(x + seq![part] + y) == counting_parts(x + y),
    decreases y.len(),
{
    let with = x + seq![part] + y;
    if y.len() == 0 {
        assert(with.drop_last() == x);
        assert(with.last() == part);
        assert(x + y == x);
    } else {
        lemma_left_out(x, part, y.drop_last());
        assert(with.drop_last() == x + seq![part] + y.drop_last());
        assert((x + y).drop_last() == x + y.drop_last());
    }
}

/// A slash too many changes nothing, nor does a part that stays where it is.
pub proof fn idle_parts_change_no_way(a: Seq<char>, b: Seq<char>)
    ensures
        way(a + seq!['/', '/'] + b) == way(a + seq!['/'] + b),
        way(a + seq!['/', '.', '/'] + b) == way(a + seq!['/'] + b),
{
    let once = a + seq!['/'] + b;
    lemma_parted(a, b);
    lemma_some_part(a);
    let twice = a + seq!['/', '/'] + b;
    let nothing = Seq::<char>::empty();
    lemma_parted(a, nothing);
    lemma_parted(a + seq!['/'] + nothing, b);
    assert(twice == (a + seq!['/'] + nothing) + seq!['/'] + b);
    assert(path_parts(nothing) == seq![nothing]);
    lemma_left_out(path_parts(a), nothing, path_parts(b));
    assert(twice[0] == once[0]);
    let dotted = a + seq!['/', '.', '/'] + b;
    let dot = seq!['.'];
    lemma_parted(a, dot);
    lemma_parted(a + seq!['/'] + dot, b);
    assert(dotted == (a + seq!['/'] + dot) + seq!['/'] + b);
    assert(dot.drop_last() == nothing);
    assert(path_parts(dot) == seq![dot]);
    lemma_left_out(path_parts(a), dot, path_parts(b));
    assert(dotted[0] == once[0]);
}

proof fn lemma_one_part(name: Seq<char>)
    requires
        !name.contains('/'),
    ensures
        path_parts(name) == seq![name],
    decreases name.len(),
{
    if name.len() > 0 {
        let fewer = name.drop_last();
        assert forall|i: int| 0 <= i < fewer.len() implies fewer[i] != '/' by {
            assert(fewer[i] == name[i]);
        }
        assert(name[name.len() - 1] != '/');
        lemma_one_part(fewer);
        assert(path_parts(name) == seq![name]) by {
            assert(fewer.push(name.last()) == name);
            assert(seq![fewer].drop_last() == Seq::<Seq<char>>::empty());
        }
    } else {
        assert(name == Seq::<char>::empty());
    }
}

/// A file in a folder is named by what follows the last slash: that is its
/// title, and its way is that of the folder with the name behind it.
pub proof fn a_file_is_named_by_its_last_part(folder: Seq<char>, name: Seq<char>)
    requires
        !name.contains('/'),
        name.len() > 0,
        name != seq!['.'],
        name != seq!['.', '.'],
    ensures
        file_title(folder + seq!['/'] + name) == name,
        way(folder + seq!['/'] + name).names == way(folder).names.push(name),
        way(folder + seq!['/'] + name).rooted == (folder.len() == 0 || folder[0] == '/'),
        file_title(name) == name,
{
    let whole = folder + seq!['/'] + name;
    lemma_parted(folder, name);
    lemma_one_part(name);
    lemma_some_part(folder);
    let parts = path_parts(whole);
    assert(parts == path_parts(folder).push(name));
    assert(parts.drop_last() == path_parts(folder));
    assert(counting_parts(parts) == counting_parts(path_parts(folder)).push(name));
    if folder.len() == 0 {
        assert(whole[0] == '/');
    } else {
        assert(whole[0] == folder[0]);
    }
    let alone = seq![name];
    assert(alone.drop_last() == Seq::<Seq<char>>::empty());
    assert(counting_parts(alone.drop_last()) == Seq::<Seq<char>>::empty());
    assert(counting_parts(alone) == Seq::<Seq<char>>::empty().push(name));
    assert(way(name).names.last() == name);
}

/// Files of different names in one folder take different ways, and so do files
/// of one name in folders to which the ways differ.
pub proof fn different_files_take_different_ways(
    a: Seq<char>,
    b: Seq<char>,
    x: Seq<char>,
    y: Seq<char>,
)
    requires
        !x.contains('/') && x.len() > 0 && x != seq!['.'] && x != seq!['.', '.'],
        !y.contains('/') && y.len() > 0 && y != seq!['.'] && y != seq!['.', '.'],
    ensures
        x != y ==> way(a + seq!['/'] + x) != way(b + seq!['/'] + y),
        way(a).names != way(b).names ==> way(a + seq!['/'] + x) != way(b + seq!['/'] + y),
{
    a_file_is_named_by_its_last_part(a, x);
    a_file_is_named_by_its_last_part(b, y);
    let p = way(a).names.push(x);
    let q = way(b).names.push(y);
    if p == q {
        assert(p.last() == x && q.last() == y);
        assert(p.drop_last() == way(a).names);
        assert(q.drop_last() == way(b).names);
    }
}

} // verus!
