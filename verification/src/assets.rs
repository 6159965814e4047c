//! The pictures and fonts that the program carries, by their names.
use crate::chars::chars_of_str;
use crate::fonts::{find_text, numbers, text_index, texts};
use vstd::prelude::*;

verus! {

/// The family of the font of the window.
pub const UI_FONT: &'static str = "Geist Mono";

/// The names of what the program carries.
#[derive(Debug)]
pub struct Assets {
    pub names: Vec<String>,
}

/// Whether a text begins with another.
pub open spec fn begins_with(text: Seq<char>, start: Seq<char>) -> bool {
    start.len() <= text.len() && text.take(start.len() as int) == start
}

fn starts(text: &str, start: &str) -> (r: bool)
    ensures
        r == begins_with(text@, start@),
{
    let whole = chars_of_str(text);
    let head = chars_of_str(start);
    if head.len() > whole.len() {
        return false;
    }
    let mut i: usize = 0;
    while i < head.len()
        invariant
            i <= head@.len() <= whole@.len(),
            whole@ == text@,
            head@ == start@,
            forall|k: int| 0 <= k < i ==> whole@[k] == #[trigger] head@[k],
        decreases head@.len() - i,
    {
        if whole[i] != head[i] {
            assert(text@.take(start@.len() as int)[i as int] == whole@[i as int]);
            return false;
        }
        i = i + 1;
    }
    assert(text@.take(start@.len() as int) == start@);
    true
}

/// The indices of the first `count` names that begin with a text.
pub open spec fn beginning_with(names: Seq<Seq<char>>, start: Seq<char>, count: int) -> Seq<int>
    decreases count,
{
    if count <= 0 {
        Seq::empty()
    } else {
        let fewer = beginning_with(names, start, count - 1);
        if begins_with(names[count - 1], start) {
            fewer.push(count - 1)
        } else {
            fewer
        }
    }
}

impl Assets {
    /// The index of what has a name.
    pub fn load(&self, path: &str) -> (r: Option<usize>)
        ensures
            r == if text_index(texts(self.names@), path@, 0) < self.names@.len() {
                Some(text_index(texts(self.names@), path@, 0) as usize)
            } else {
                None
            },
    {
        let at: usize = find_text(&self.names, path);
        if at < self.names.len() {
            Some(at)
        } else {
            None
        }
    }

    /// The indices of what has a name that begins with a text.
    pub fn list(&self, path: &str) -> (r: Vec<usize>)
        ensures
            numbers(r@) == beginning_with(texts(self.names@), path@, self.names@.len() as int),
    {
        let mut out: Vec<usize> = Vec::new();
        let mut i: usize = 0;
        while i < self.names.len()
            invariant
                i <= self.names@.len(),
                numbers(out@) == beginning_with(texts(self.names@), path@, i as int),
            decreases self.names@.len() - i,
        {
            if starts(self.names[i].as_str(), path) {
                let ghost before = out@;
                out.push(i);
                assert(numbers(out@) == numbers(before).push(i as int));
            }
            i = i + 1;
        }
        out
    }
}

/// What is loaded is listed under its whole name.
pub proof fn a_name_begins_with_itself(name: Seq<char>)
    ensures
        begins_with(name, name),
        begins_with(name, Seq::empty()),
{
    assert(name.take(name.len() as int) == name);
    assert(name.take(0) == Seq::<char>::empty());
}

/// What is listed under a text are the names that begin with it, all of them
/// and no other, in their order.
pub proof fn every_name_that_begins_so_is_listed(
    names: Seq<Seq<char>>,
    start: Seq<char>,
    count: int,
    i: int,
)
    requires
        0 <= count <= names.len(),
    ensures
        ({
            let all = beginning_with(names, start, count);
            &&& all.contains(i) <==> 0 <= i < count && start.len() <= names[i].len() && forall|
                k: int,
            |
                0 <= k < start.len() ==> #[trigger] names[i][k] == start[k]
            &&& forall|j: int| 0 <= j < all.len() ==> 0 <= #[trigger] all[j] < count
            &&& forall|j: int, k: int|
                0 <= j < k < all.len() ==> #[trigger] all[j] < #[trigger] all[k]
        }),
    decreases count,
{
    if count > 0 {
        every_name_that_begins_so_is_listed(names, start, count - 1, i);
        let fewer = beginning_with(names, start, count - 1);
        let all = beginning_with(names, start, count);
        let last = names[count - 1];
        assert(all == fewer || all == fewer.push(count - 1));
        if begins_with(last, start) {
            assert(all[all.len() - 1] == count - 1);
            assert forall|k: int| 0 <= k < start.len() implies #[trigger] last[k] == start[k] by {
                assert(last.take(start.len() as int)[k] == last[k]);
            }
            if fewer.contains(i) {
                let k = choose|k: int| 0 <= k < fewer.len() && fewer[k] == i;
                assert(all[k] == i);
            }
        } else if start.len() <= last.len() {
            if forall|k: int| 0 <= k < start.len() ==> #[trigger] last[k] == start[k] {
                assert(last.take(start.len() as int) =~= start);
            }
        }
    }
}

} // verus!
