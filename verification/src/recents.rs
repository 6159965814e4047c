//! The list of recently opened documents.
//!
//! A document is known by the way that its path takes. Its preview lies in a
//! file whose name is derived from the path alone.
use crate::document::{copy_text, opt_chars};
use crate::numerals::{
    decimal, decimal_text, hex_text, hexadecimal, lemma_hex_length,
    sixteen_digits_tell_numbers_apart,
};
use crate::paths::{file_title, same_way, title, way, Way};
use vstd::prelude::*;
use vstd::utf8::encode_utf8;

verus! {

/// How many entries are kept.
pub const MAX_ENTRIES: usize = 36;

/// A document that was opened.
#[derive(Debug)]
pub struct RecentDoc {
    pub path: String,
    pub title: String,
    pub pages: u32,
    /// Unix time of the last opening, in seconds.
    pub opened_at: u64,
}

/// What a [`RecentDoc`] says.
#[verifier::ext_equal]
pub struct RecentView {
    pub path: Seq<char>,
    pub title: Seq<char>,
    pub pages: u32,
    pub opened_at: u64,
}

impl View for RecentDoc {
    type V = RecentView;

    open spec fn view(&self) -> RecentView {
        RecentView {
            path: self.path@,
            title: self.title@,
            pages: self.pages,
            opened_at: self.opened_at,
        }
    }
}

impl Clone for RecentDoc {
    fn clone(&self) -> (r: RecentDoc)
        ensures
            r == *self,
    {
        RecentDoc {
            path: self.path.clone(),
            title: self.title.clone(),
            pages: self.pages,
            opened_at: self.opened_at,
        }
    }
}

/// How long ago something happened, in words.
pub open spec fn ago_text(seconds: int) -> Seq<char> {
    if seconds < 60 {
        "только что"@
    } else if seconds < 3600 {
        decimal_text((seconds / 60) as nat) + " мин назад"@
    } else if seconds < 86_400 {
        decimal_text((seconds / 3600) as nat) + " ч назад"@
    } else if seconds < 172_800 {
        "вчера"@
    } else {
        decimal_text((seconds / 86_400) as nat) + " дн назад"@
    }
}

/// The seconds that have passed, none where the clock went back.
pub open spec fn passed(now: u64, then: u64) -> int {
    if now >= then {
        now - then
    } else {
        0
    }
}

impl RecentDoc {
    /// How long ago the document was opened, in words, at the Unix time `now`.
    pub fn opened_ago(&self, now: u64) -> (r: String)
        ensures
            r@ == ago_text(passed(now, self.opened_at)),
    {
        let seconds: u64 = now.saturating_sub(self.opened_at);
        if seconds < 60 {
            "только что".to_owned()
        } else if seconds < 3600 {
            decimal(seconds / 60).concat(" мин назад")
        } else if seconds < 86_400 {
            decimal(seconds / 3600).concat(" ч назад")
        } else if seconds < 172_800 {
            "вчера".to_owned()
        } else {
            decimal(seconds / 86_400).concat(" дн назад")
        }
    }
}

/// What a list of entries says.
pub open spec fn recent_views(entries: Seq<RecentDoc>) -> Seq<RecentView> {
    Seq::new(entries.len(), |i: int| entries[i]@)
}

/// The entries of other documents, in their order.
pub open spec fn others(list: Seq<RecentView>, known: Way) -> Seq<RecentView>
    decreases list.len(),
{
    if list.len() == 0 {
        Seq::empty()
    } else if way(list.last().path) == known {
        others(list.drop_last(), known)
    } else {
        others(list.drop_last(), known).push(list.last())
    }
}

/// The list cut to the entries that are kept.
pub open spec fn capped(list: Seq<RecentView>) -> Seq<RecentView> {
    if list.len() <= MAX_ENTRIES {
        list
    } else {
        list.take(MAX_ENTRIES as int)
    }
}

/// The list once a document was opened: that document in front of the others.
pub open spec fn touched(list: Seq<RecentView>, doc: RecentView) -> Seq<RecentView> {
    capped(seq![doc] + others(list, way(doc.path)))
}

/// The index of the first entry of a document; the length where there is none.
pub open spec fn entry_of(list: Seq<RecentView>, known: Way) -> int
    decreases list.len(),
{
    if list.len() == 0 || way(list[0].path) == known {
        0
    } else {
        1 + entry_of(list.drop_first(), known)
    }
}

/// No document has two entries.
pub open spec fn distinct_paths(list: Seq<RecentView>) -> bool {
    forall|i: int, j: int|
        0 <= i < j < list.len() ==> way((#[trigger] list[i]).path) != way(
            (#[trigger] list[j]).path,
        )
}

/// The list of recent documents.
#[derive(Debug)]
pub struct Recents {
    entries: Vec<RecentDoc>,
    /// The file that keeps the list; without one it lives in memory only.
    storage: Option<String>,
}

/// What a [`Recents`] holds.
#[verifier::ext_equal]
pub struct RecentsView {
    pub entries: Seq<RecentView>,
    pub storage: Option<Seq<char>>,
}

impl View for Recents {
    type V = RecentsView;

    closed spec fn view(&self) -> RecentsView {
        RecentsView {
            entries: recent_views(self.entries@),
            storage: opt_chars(self.storage),
        }
    }
}

impl Default for Recents {
    fn default() -> (r: Recents)
        ensures
            r@ == (RecentsView { entries: Seq::empty(), storage: None }),
    {
        Recents { entries: Vec::new(), storage: None }
    }
}

impl Recents {
    /// A list as it was read from its file.
    pub fn new(entries: Vec<RecentDoc>, storage: Option<String>) -> (r: Recents)
        ensures
            r@ == (RecentsView {
                entries: recent_views(entries@),
                storage: opt_chars(storage),
            }),
    {
        Recents { entries, storage }
    }

    /// The entries, the last opened first.
    pub fn entries(&self) -> (r: &[RecentDoc])
        ensures
            recent_views(r@) == self@.entries,
    {
        self.entries.as_slice()
    }

    /// The file that the list is written to after every change, if any.
    pub fn storage(&self) -> (r: Option<String>)
        ensures
            opt_chars(r) == self@.storage,
    {
        copy_text(&self.storage)
    }

    /// Puts a document in front of the list, with its data brought up to date.
    pub fn touch(&mut self, path: String, pages: u32, now: u64)
        ensures
            final(self)@.entries == touched(
                old(self)@.entries,
                (RecentView { path: path@, title: file_title(path@), pages, opened_at: now }),
            ),
            final(self)@.storage == old(self)@.storage,
    {
        let title = title(path.as_str());
        let ghost doc = RecentView { path: path@, title: title@, pages, opened_at: now };
        let ghost list = recent_views(self.entries@);
        let mut kept: Vec<RecentDoc> = Vec::new();
        kept.push(RecentDoc { path, title, pages, opened_at: now });
        let mut i: usize = 0;
        assert(list.take(0) == Seq::<RecentView>::empty());
        assert(recent_views(kept@) == seq![doc] + others(list.take(0), way(doc.path)));
        while i < self.entries.len()
            invariant
                i <= self.entries@.len(),
                list == recent_views(self.entries@),
                kept@.len() >= 1,
                kept@[0]@ == doc,
                recent_views(kept@) == seq![doc] + others(list.take(i as int), way(doc.path)),
                self.storage == old(self).storage,
                self.entries == old(self).entries,
            decreases self.entries@.len() - i,
        {
            assert(list.take(i + 1).drop_last() == list.take(i as int));
            let entry = self.entries[i].clone();
            assert(list.take(i + 1).last() == entry@);
            let ghost before = recent_views(kept@);
            if !same_way(entry.path.as_str(), kept[0].path.as_str()) {
                kept.push(entry);
                assert(recent_views(kept@) == before.push(entry@));
            }
            assert(recent_views(kept@) == seq![doc] + others(list.take(i + 1), way(doc.path)));
            i = i + 1;
        }
        assert(list.take(list.len() as int) == list);
        let ghost all = recent_views(kept@);
        kept.truncate(MAX_ENTRIES);
        assert(recent_views(kept@) == capped(all));
        self.entries = kept;
    }

    /// Takes a document out of the list and returns its entry.
    pub fn remove(&mut self, path: &str) -> (r: Option<RecentDoc>)
        ensures
            final(self)@.storage == old(self)@.storage,
            ({
                let at = entry_of(old(self)@.entries, way(path@));
                match r {
                    Some(doc) => {
                        &&& at < old(self)@.entries.len()
                        &&& doc@ == old(self)@.entries[at]
                        &&& final(self)@.entries == old(self)@.entries.remove(at)
                    },
                    None => {
                        &&& at == old(self)@.entries.len()
                        &&& final(self)@ == old(self)@
                    },
                }
            }),
    {
        let ghost list = recent_views(self.entries@);
        let mut i: usize = 0;
        assert(list.skip(0) == list);
        while i < self.entries.len()
            invariant
                i <= self.entries@.len(),
                list == recent_views(self.entries@),
                *self == *old(self),
                entry_of(list, way(path@)) == i + entry_of(list.skip(i as int), way(path@)),
            decreases self.entries@.len() - i,
        {
            assert(list.skip(i as int).drop_first() == list.skip(i + 1));
            assert(list.skip(i as int)[0] == list[i as int]);
            if same_way(self.entries[i].path.as_str(), path) {
                let doc = self.entries.remove(i);
                assert(self@.entries == list.remove(i as int));
                return Some(doc);
            }
            i = i + 1;
        }
        None
    }
}

/// Every other document's entry is kept in its order, and none of this one.
proof fn lemma_others(list: Seq<RecentView>, known: Way)
    ensures
        others(list, known).len() <= list.len(),
        forall|i: int|
            0 <= i < others(list, known).len() ==> way((#[trigger] others(list, known)[i]).path)
                != known,
        forall|i: int|
            0 <= i < others(list, known).len() ==> list.contains(
                #[trigger] others(list, known)[i],
            ),
        distinct_paths(list) ==> distinct_paths(others(list, known)),
    decreases list.len(),
{
    if list.len() > 0 {
        let head = list.drop_last();
        lemma_others(head, known);
        let rest = others(list, known);
        assert forall|i: int| 0 <= i < rest.len() implies list.contains(#[trigger] rest[i]) by {
            if i < others(head, known).len() {
                assert(rest[i] == others(head, known)[i]);
                let k = choose|k: int| 0 <= k < head.len() && head[k] == others(head, known)[i];
                assert(list[k] == rest[i]);
            } else {
                assert(list[list.len() - 1] == rest[i]);
            }
        }
        if distinct_paths(list) {
            assert(distinct_paths(head)) by {
                assert forall|i: int, j: int| 0 <= i < j < head.len() implies way(
                    (#[trigger] head[i]).path,
                ) != way((#[trigger] head[j]).path) by {
                    assert(list[i] == head[i] && list[j] == head[j]);
                }
            }
            assert forall|i: int, j: int| 0 <= i < j < rest.len() implies way(
                (#[trigger] rest[i]).path,
            ) != way((#[trigger] rest[j]).path) by {
                if j == others(head, known).len() {
                    let k = choose|k: int| 0 <= k < head.len() && head[k] == others(head, known)[i];
                    assert(way(list[k].path) != way(list[list.len() - 1].path));
                } else {
                    assert(way(others(head, known)[i].path) != way(others(head, known)[j].path));
                }
            }
        }
    }
}

/// Opening documents never makes the list longer than [`MAX_ENTRIES`], puts
/// the opened one in front, and gives no document two entries.
pub proof fn touching_keeps_the_list_in_order(list: Seq<RecentView>, doc: RecentView)
    ensures
        0 < touched(list, doc).len() <= MAX_ENTRIES,
        touched(list, doc)[0] == doc,
        distinct_paths(list) ==> distinct_paths(touched(list, doc)),
{
    let known = way(doc.path);
    lemma_others(list, known);
    let all = touched(list, doc);
    if distinct_paths(list) {
        assert forall|i: int, j: int| 0 <= i < j < all.len() implies way((#[trigger] all[i]).path)
            != way((#[trigger] all[j]).path) by {
            assert(all[j] == others(list, known)[j - 1]);
            if i > 0 {
                assert(all[i] == others(list, known)[i - 1]);
            }
        }
    }
}

proof fn lemma_others_filter(list: Seq<RecentView>, known: Way)
    ensures
        others(list, known) == list.filter(|entry: RecentView| way(entry.path) != known),
    decreases list.len(),
{
    reveal(Seq::filter);
    if list.len() > 0 {
        lemma_others_filter(list.drop_last(), known);
    }
}

/// Opening a document puts it in front and leaves the entries of all others behind
/// it, in their order; the thirty-six last opened are kept.
pub proof fn opening_leaves_the_other_documents(list: Seq<RecentView>, doc: RecentView)
    ensures
        ({
            let rest = list.filter(|entry: RecentView| way(entry.path) != way(doc.path));
            let all = seq![doc] + rest;
            &&& all.len() <= 36 ==> touched(list, doc) == all
            &&& all.len() > 36 ==> touched(list, doc) == all.take(36)
        }),
{
    lemma_others_filter(list, way(doc.path));
}

/// The entry that is taken out is the first of the document, and where there is none
/// the document has no entry.
pub proof fn the_entry_of_a_document_is_found(list: Seq<RecentView>, known: Way)
    ensures
        0 <= entry_of(list, known) <= list.len(),
        entry_of(list, known) < list.len() ==> way(list[entry_of(list, known)].path) == known,
        forall|i: int|
            0 <= i < entry_of(list, known) ==> way((#[trigger] list[i]).path) != known,
    decreases list.len(),
{
    if list.len() > 0 && way(list[0].path) != known {
        the_entry_of_a_document_is_found(list.drop_first(), known);
        assert forall|i: int| 0 <= i < entry_of(list, known) implies way((#[trigger] list[i]).path)
            != known by {
            if i > 0 {
                assert(list[i] == list.drop_first()[i - 1]);
            }
        }
    }
}

/// How long ago something happened is told in whole minutes, hours or days: less than
/// a minute is just now, and from one day to two is yesterday.
pub proof fn times_are_told_in_whole_units(days: nat, hours: nat, minutes: nat, seconds: nat)
    requires
        hours < 24,
        minutes < 60,
        seconds < 60,
    ensures
        ({
            let text = ago_text(
                86_400 * days as int + 3600 * hours as int + 60 * minutes as int + seconds as int,
            );
            &&& days == 0 && hours == 0 && minutes == 0 ==> text == "только что"@
            &&& days == 0 && hours == 0 && minutes > 0 ==> text == decimal_text(minutes)
                + " мин назад"@
            &&& days == 0 && hours > 0 ==> text == decimal_text(hours) + " ч назад"@
            &&& days == 1 ==> text == "вчера"@
            &&& days > 1 ==> text == decimal_text(days) + " дн назад"@
        }),
{
}

/// Opening the same document again changes nothing but its place and data.
pub proof fn touching_twice_is_touching_once(list: Seq<RecentView>, a: RecentView, b: RecentView)
    requires
        way(a.path) == way(b.path),
    ensures
        touched(touched(list, a), b) == touched(list, b),
{
    let known = way(a.path);
    let rest = others(list, known);
    lemma_others(list, known);
    let once = touched(list, a);
    let tail = once.drop_first();
    lemma_others_after_front(once, known);
    lemma_others_of_others(tail, known);
    assert(others(once, known) == tail);
    assert(touched(list, b) == capped(seq![b] + rest));
    assert(touched(once, b) == seq![b] + tail);
    assert(seq![b] + tail == capped(seq![b] + rest));
}

/// An entry in front that belongs to the document drops out.
proof fn lemma_others_after_front(list: Seq<RecentView>, known: Way)
    requires
        list.len() > 0,
        way(list[0].path) == known,
    ensures
        others(list, known) == others(list.drop_first(), known),
    decreases list.len(),
{
    if list.len() == 1 {
        assert(list.drop_last() == Seq::<RecentView>::empty());
        assert(list.drop_first() == Seq::<RecentView>::empty());
    } else {
        lemma_others_after_front(list.drop_last(), known);
        assert(list.drop_first().drop_last() == list.drop_last().drop_first());
    }
}

/// Where no entry belongs to the document, all are kept.
proof fn lemma_others_of_others(list: Seq<RecentView>, known: Way)
    requires
        forall|i: int| 0 <= i < list.len() ==> way((#[trigger] list[i]).path) != known,
    ensures
        others(list, known) == list,
    decreases list.len(),
{
    if list.len() > 0 {
        assert forall|i: int| 0 <= i < list.drop_last().len() implies way(
            (#[trigger] list.drop_last()[i]).path,
        ) != known by {
            assert(list[i] == list.drop_last()[i]);
        }
        lemma_others_of_others(list.drop_last(), known);
        assert(list.last() == list[list.len() - 1]);
        assert(list.drop_last().push(list.last()) == list);
    }
}

/// The FNV-1a hash of a sequence of bytes.
pub open spec fn fnv_1a(bytes: Seq<u8>) -> u64
    decreases bytes.len(),
{
    if bytes.len() == 0 {
        0xcbf2_9ce4_8422_2325
    } else {
        (fnv_1a(bytes.drop_last()) ^ (bytes.last() as u64)).wrapping_mul(0x0000_0100_0000_01b3)
    }
}

/// FNV-1a over the bytes of a path. It needs to be the same in every run, and
/// no more.
pub fn path_hash(path: &str) -> (r: u64)
    ensures
        r == fnv_1a(encode_utf8(path@)),
{
    let bytes = path.as_bytes();
    let mut hash: u64 = 0xcbf2_9ce4_8422_2325;
    let mut i: usize = 0;
    assert(bytes@.take(0) == Seq::<u8>::empty());
    while i < bytes.len()
        invariant
            i <= bytes@.len(),
            bytes@ == encode_utf8(path@),
            hash == fnv_1a(bytes@.take(i as int)),
        decreases bytes@.len() - i,
    {
        assert(bytes@.take(i + 1).drop_last() == bytes@.take(i as int));
        hash = (hash ^ (bytes[i] as u64)).wrapping_mul(0x0000_0100_0000_01b3);
        i = i + 1;
    }
    assert(bytes@.take(bytes@.len() as int) == bytes@);
    hash
}

/// The name of the file that holds the preview of a document.
pub open spec fn preview_name(path: Seq<char>) -> Seq<char> {
    hex_text(fnv_1a(encode_utf8(path)) as nat, 16) + ".png"@
}

/// Previews of documents lie in different files where their hashes differ, and
/// only there.
pub proof fn different_hashes_give_different_previews(a: Seq<char>, b: Seq<char>)
    ensures
        preview_name(a) == preview_name(b) <==> fnv_1a(encode_utf8(a)) == fnv_1a(encode_utf8(b)),
{
    let x = fnv_1a(encode_utf8(a)) as nat;
    let y = fnv_1a(encode_utf8(b)) as nat;
    if preview_name(a) == preview_name(b) {
        lemma_hex_length(x, 16);
        lemma_hex_length(y, 16);
        assert(preview_name(a).take(16) == hex_text(x, 16));
        assert(preview_name(b).take(16) == hex_text(y, 16));
        sixteen_digits_tell_numbers_apart(x as u64, y as u64);
    }
}

/// The name of the file that holds the preview of a document.
pub fn thumbnail_name(path: &str) -> (r: String)
    ensures
        r@ == preview_name(path@),
{
    hexadecimal(path_hash(path), 16).concat(".png")
}

/// As much time has passed as lies between then and now, and none where the clock was
/// put back.
pub proof fn time_passes_from_then_to_now(now: u64, then: u64)
    ensures
        now >= then ==> then + passed(now, then) == now,
        now < then ==> passed(now, then) == 0,
{
}

/// A path is hashed byte by byte: without any the hash is the basis of FNV-1a, and each
/// byte is mixed in and the outcome multiplied by the prime, as far as 64 bits go.
pub proof fn a_path_is_hashed_byte_by_byte(bytes: Seq<u8>, byte: u8)
    ensures
        fnv_1a(Seq::empty()) == 14_695_981_039_346_656_037,
        fnv_1a(bytes.push(byte)) as int == (fnv_1a(bytes) ^ (byte as u64)) as int
            * 1_099_511_628_211 % 0x1_0000_0000_0000_0000,
{
    assert(bytes.push(byte).drop_last() == bytes);
    assert(bytes.push(byte).last() == byte);
}

} // verus!
