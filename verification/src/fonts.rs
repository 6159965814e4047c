//! The choice of fonts: which family stands for one of the document, which
//! metrics measure its text, and the list from which a font is picked.
use crate::chars::chars_of_str;
use crate::document::opt_chars;
use crate::edits::{PageFont, Selection};
use crate::geometry::{abs_of, max_of, min_of, near};
use crate::numerals::{decimal, decimal_text};
use crate::panel::{is_trimmed, trimmed_chars};
use crate::rich_text::{RunStyle, StyleChange};
use crate::text_element::same_str;
use crate::units::{Points, POINT};
use vstd::prelude::*;

verus! {

/// The texts that strings hold.
pub open spec fn texts(strings: Seq<String>) -> Seq<Seq<char>> {
    Seq::new(strings.len(), |i: int| strings[i]@)
}

/// A letter of the Latin alphabet in lower case, any other character as it is.
pub open spec fn lower(c: char) -> int {
    if 65 <= c as int <= 90 {
        c as int + 32
    } else {
        c as int
    }
}

/// Whether two texts are the same but for the case of Latin letters.
pub open spec fn same_letters(a: Seq<char>, b: Seq<char>) -> bool {
    &&& a.len() == b.len()
    &&& forall|i: int| 0 <= i < a.len() ==> lower(#[trigger] a[i]) == lower(b[i])
}

fn lower_code(c: char) -> (r: u32)
    ensures
        r == lower(c),
{
    let n: u32 = c as u32;
    if 65 <= n && n <= 90 {
        n + 32
    } else {
        n
    }
}

/// Whether two texts are the same but for the case of Latin letters.
pub fn equal_ignoring_case(a: &str, b: &str) -> (r: bool)
    ensures
        r == same_letters(a@, b@),
{
    let x = chars_of_str(a);
    let y = chars_of_str(b);
    if x.len() != y.len() {
        return false;
    }
    let mut i: usize = 0;
    while i < x.len()
        invariant
            i <= x@.len(),
            x@.len() == y@.len(),
            x@ == a@,
            y@ == b@,
            forall|k: int| 0 <= k < i ==> lower(#[trigger] x@[k]) == lower(y@[k]),
        decreases x@.len() - i,
    {
        if lower_code(x[i]) != lower_code(y[i]) {
            return false;
        }
        i = i + 1;
    }
    true
}

/// The first text, from the `i`-th on, that is the one given; the end where
/// none is.
pub open spec fn text_index(list: Seq<Seq<char>>, text: Seq<char>, i: int) -> int
    decreases list.len() - i,
{
    if i >= list.len() || list[i] == text {
        i
    } else {
        text_index(list, text, i + 1)
    }
}

/// The first text, from the `i`-th on, that is the one given but for its case.
pub open spec fn letters_index(list: Seq<Seq<char>>, text: Seq<char>, i: int) -> int
    decreases list.len() - i,
{
    if i >= list.len() || same_letters(list[i], text) {
        i
    } else {
        letters_index(list, text, i + 1)
    }
}

/// The index of the first string that holds a text; the number of them where
/// none does.
pub fn find_text(list: &Vec<String>, text: &str) -> (r: usize)
    ensures
        r == text_index(texts(list@), text@, 0),
        r <= list@.len(),
{
    let mut i: usize = 0;
    while i < list.len()
        invariant
            i <= list@.len(),
            text_index(texts(list@), text@, 0) == text_index(texts(list@), text@, i as int),
        decreases list@.len() - i,
    {
        if same_str(list[i].as_str(), text) {
            return i;
        }
        i = i + 1;
    }
    i
}

/// The index of the first string that holds a text but for its case.
pub(crate) fn find_letters(list: &Vec<String>, text: &str) -> (r: usize)
    ensures
        r == letters_index(texts(list@), text@, 0),
        r <= list@.len(),
{
    let mut i: usize = 0;
    while i < list.len()
        invariant
            i <= list@.len(),
            letters_index(texts(list@), text@, 0) == letters_index(texts(list@), text@, i as int),
        decreases list@.len() - i,
    {
        if equal_ignoring_case(list[i].as_str(), text) {
            return i;
        }
        i = i + 1;
    }
    i
}

/// Texts are the same but for their case just where each letter of the one is the
/// letter of the other, in either case of the Latin alphabet.
pub proof fn case_is_that_of_latin_letters(a: Seq<char>, b: Seq<char>)
    ensures
        same_letters(a, b) <==> a.len() == b.len() && forall|i: int|
            0 <= i < a.len() ==> {
                let x = (#[trigger] a[i]) as int;
                let y = b[i] as int;
                ||| x == y
                ||| 'A' as int <= x <= 'Z' as int && y == x + 32
                ||| 'A' as int <= y <= 'Z' as int && x == y + 32
            },
{
    if same_letters(a, b) {
        assert forall|i: int| 0 <= i < a.len() implies {
            let x = (#[trigger] a[i]) as int;
            let y = b[i] as int;
            ||| x == y
            ||| 'A' as int <= x <= 'Z' as int && y == x + 32
            ||| 'A' as int <= y <= 'Z' as int && x == y + 32
        } by {
            assert(lower(a[i]) == lower(b[i]));
        }
    }
}

/// What is found is the first text that is the one looked for, with or without its
/// case, and where none is found there is none.
pub proof fn the_first_of_a_text_is_found(list: Seq<Seq<char>>, text: Seq<char>, i: int)
    requires
        0 <= i <= list.len(),
    ensures
        i <= text_index(list, text, i) <= list.len(),
        text_index(list, text, i) < list.len() ==> list[text_index(list, text, i)] == text,
        forall|k: int| i <= k < text_index(list, text, i) ==> #[trigger] list[k] != text,
        i <= letters_index(list, text, i) <= list.len(),
        letters_index(list, text, i) < list.len() ==> same_letters(
            list[letters_index(list, text, i)],
            text,
        ),
        forall|k: int|
            i <= k < letters_index(list, text, i) ==> !same_letters(#[trigger] list[k], text),
    decreases list.len() - i,
{
    if i < list.len() {
        the_first_of_a_text_is_found(list, text, i + 1);
    }
}

/// The family that a block is shown with, and whether it is one in place of
/// the block's own.
pub open spec fn preselected(
    families: Seq<Seq<char>>,
    keys: Seq<Seq<char>>,
    wanted: Seq<char>,
) -> (Option<int>, bool) {
    let own = text_index(keys, wanted, 0);
    let arial = letters_index(families, "Arial"@, 0);
    if wanted.len() > 0 && own < keys.len() {
        (Some(own), false)
    } else if arial < families.len() {
        (Some(arial), true)
    } else if families.len() > 0 {
        (Some(0), true)
    } else {
        (None, false)
    }
}

/// A block is shown with its own family where that is installed; else with the one
/// that is named Arial, else with the first there is, and it is said so.
pub proof fn a_block_is_shown_with_its_own_family(
    families: Seq<Seq<char>>,
    keys: Seq<Seq<char>>,
    wanted: Seq<char>,
)
    requires
        keys.len() == families.len(),
    ensures
        ({
            let (chosen, instead) = preselected(families, keys, wanted);
            let own = wanted.len() > 0 && keys.contains(wanted);
            let arial = exists|k: int|
                0 <= k < families.len() && same_letters(#[trigger] families[k], "Arial"@);
            &&& chosen is Some <==> families.len() > 0
            &&& chosen is Some ==> 0 <= chosen->0 < families.len()
            &&& own ==> keys[chosen->0] == wanted && !instead
            &&& !own && families.len() > 0 ==> instead
            &&& !own && arial ==> same_letters(families[chosen->0], "Arial"@)
            &&& !own && !arial && families.len() > 0 ==> chosen->0 == 0
            &&& families.len() == 0 ==> !instead
        }),
{
    the_first_of_a_text_is_found(keys, wanted, 0);
    the_first_of_a_text_is_found(families, "Arial"@, 0);
    let at = text_index(keys, wanted, 0);
    if keys.contains(wanted) && at == keys.len() {
        let k = choose|k: int| 0 <= k < keys.len() && keys[k] == wanted;
        assert(keys[k] != wanted);
    }
    if at < keys.len() {
        assert(keys.contains(wanted));
    }
}

/// Picks the family of a block out of those that are installed.
///
/// `keys` are the families without what spellings differ in, and `wanted` is
/// the family of the block in that form: a document says `PTSerif-Regular`
/// where the system says «PT Serif». Where there is none, another stands in,
/// and the second result says so.
pub fn preselect_family(
    families: &Vec<String>,
    keys: &Vec<String>,
    wanted: &str,
    block_family: &str,
) -> (r: (Option<usize>, Option<String>))
    requires
        keys@.len() == families@.len(),
    ensures
        ({
            let (chosen, instead) = preselected(texts(families@), texts(keys@), wanted@);
            &&& match chosen {
                Some(index) => r.0 == Some(index as usize) && index < families@.len(),
                None => r.0 is None,
            }
            &&& opt_chars(r.1) == if instead {
                Some(
                    "Шрифта «"@ + block_family@
                        + "» нет в системе — при смене оформления будет встроен «"@
                        + families@[chosen->0]@ + "»"@,
                )
            } else {
                None
            }
        }),
{
    let own: usize = find_text(keys, wanted);
    if chars_of_str(wanted).len() > 0 && own < keys.len() {
        return (Some(own), None);
    }
    let arial: usize = find_letters(families, "Arial");
    let index: usize = if arial < families.len() {
        arial
    } else if families.len() > 0 {
        0
    } else {
        return (None, None);
    };
    let hint = "Шрифта «".to_owned().concat(block_family).concat(
        "» нет в системе — при смене оформления будет встроен «",
    ).concat(families[index].as_str()).concat("»");
    (Some(index), Some(hint))
}

/// What is said of a font that can be found nowhere.
pub fn missing_font_status(base_font: &str) -> (r: String)
    ensures
        r@ == "Шрифт «"@ + base_font@
            + "» не встроен в документ и не установлен в системе — поставьте его и нажмите ⟳ в панели формата"@,
{
    "Шрифт «".to_owned().concat(base_font).concat(
        "» не встроен в документ и не установлен в системе — поставьте его и нажмите ⟳ в панели формата",
    )
}

/// What is said after the fonts of the system were looked through.
pub fn refreshed_fonts_status(changed: bool, count: usize) -> (r: String)
    ensures
        r@ == if changed {
            "Список шрифтов обновлён: "@ + decimal_text(count as nat) + " семейств"@
        } else {
            "Новых шрифтов не найдено, семейств по-прежнему "@ + decimal_text(count as nat)
        },
{
    let number = decimal(count as u64);
    if changed {
        "Список шрифтов обновлён: ".to_owned().concat(number.as_str()).concat(" семейств")
    } else {
        "Новых шрифтов не найдено, семейств по-прежнему ".to_owned().concat(number.as_str())
    }
}

/// What is said after a font was given another in its place.
pub fn substituted_status(document_font: &str, family: &str) -> (r: String)
    ensures
        r@ == "«"@ + document_font@ + "» будет набираться шрифтом "@ + family@,
{
    "«".to_owned().concat(document_font).concat("» будет набираться шрифтом ").concat(family)
}

impl Selection {
    /// Takes over what the document itself says of the font of the block.
    pub fn adopt_page_font(&mut self, font: PageFont, char_spacing: Points, h_scale: Points)
        ensures
            *final(self) == (Selection {
                seeded_char_spacing: char_spacing,
                seeded_h_scale: h_scale,
                page_font: Some(font),
                ..*old(self)
            }),
    {
        self.seeded_char_spacing = char_spacing;
        self.seeded_h_scale = h_scale;
        self.page_font = Some(font);
    }
}

/// The greatest misfit that as many lines as a machine can count have.
pub const MISFIT_LIMIT: i128 = 0x20_0000_0000_0000_0000_0000_0000_0000;

/// Whether lines can be compared with how they are measured.
pub open spec fn lines_comparable(measured: Seq<Points>, lines: Seq<Points>) -> bool {
    &&& measured.len() == lines.len()
    &&& forall|i: int| 0 <= i < lines.len() ==> near(#[trigger] lines[i])
    &&& forall|i: int| 0 <= i < measured.len() ==> near(#[trigger] measured[i])
}

/// By how much the first `count` lines are measured wrong in all. A line of a
/// point or less does not count.
pub open spec fn misfit(measured: Seq<Points>, lines: Seq<Points>, count: int) -> int
    decreases count,
{
    if count <= 0 {
        0
    } else {
        misfit(measured, lines, count - 1) + if lines[count - 1] <= POINT {
            0
        } else {
            abs_of(measured[count - 1] - lines[count - 1])
        }
    }
}

/// A font measures without an error just where it measures every line that counts as
/// long as it is.
pub proof fn a_true_font_has_no_misfit(measured: Seq<Points>, lines: Seq<Points>, count: int)
    requires
        0 <= count <= lines.len(),
        measured.len() == lines.len(),
    ensures
        misfit(measured, lines, count) >= 0,
        misfit(measured, lines, count) == 0 <==> forall|i: int|
            0 <= i < count && #[trigger] lines[i] > POINT ==> measured[i] == lines[i],
    decreases count,
{
    if count > 0 {
        a_true_font_has_no_misfit(measured, lines, count - 1);
        if misfit(measured, lines, count) == 0 {
            assert(misfit(measured, lines, count - 1) == 0);
        } else if forall|i: int|
            0 <= i < count && #[trigger] lines[i] > POINT ==> measured[i] == lines[i] {
            assert(lines[count - 1] > POINT ==> measured[count - 1] == lines[count - 1]);
        }
    }
}

/// A line that is measured otherwise changes the error by as much as it is further
/// off, or nearer, than before; one of a point or less changes nothing.
pub proof fn every_line_counts_by_how_far_it_is_off(
    measured: Seq<Points>,
    lines: Seq<Points>,
    count: int,
    i: int,
    other: Points,
)
    requires
        0 <= i < count <= lines.len(),
        measured.len() == lines.len(),
    ensures
        ({
            let off = |width: int|
                if width >= lines[i] {
                    width - lines[i]
                } else {
                    lines[i] - width
                };
            let change = misfit(measured.update(i, other), lines, count) - misfit(
                measured,
                lines,
                count,
            );
            &&& lines[i] <= POINT ==> change == 0
            &&& lines[i] > POINT ==> change == off(other as int) - off(measured[i] as int)
        }),
    decreases count,
{
    if i < count - 1 {
        every_line_counts_by_how_far_it_is_off(measured, lines, count - 1, i, other);
    } else {
        lemma_misfit_before(measured, lines, count - 1, i, other);
    }
}

proof fn lemma_misfit_before(
    measured: Seq<Points>,
    lines: Seq<Points>,
    count: int,
    i: int,
    other: Points,
)
    requires
        0 <= count <= i < measured.len(),
    ensures
        misfit(measured.update(i, other), lines, count) == misfit(measured, lines, count),
    decreases count,
{
    if count > 0 {
        lemma_misfit_before(measured, lines, count - 1, i, other);
    }
}

/// How long the first `count` lines are in all.
pub open spec fn true_length(lines: Seq<Points>, count: int) -> int
    decreases count,
{
    if count <= 0 {
        0
    } else {
        true_length(lines, count - 1) + if lines[count - 1] <= POINT {
            0
        } else {
            lines[count - 1] as int
        }
    }
}

/// By how much lines are measured wrong in all, and how long they are. The
/// quotient of the two is the error of a font.
pub fn measure_misfit(measured: &Vec<Points>, lines: &Vec<Points>) -> (r: (i128, i128))
    requires
        lines_comparable(measured@, lines@),
    ensures
        r.0 == misfit(measured@, lines@, lines@.len() as int),
        r.1 == true_length(lines@, lines@.len() as int),
        0 <= r.0 <= MISFIT_LIMIT,
        0 <= r.1 <= MISFIT_LIMIT,
{
    let mut total: i128 = 0;
    let mut length: i128 = 0;
    let mut i: usize = 0;
    while i < lines.len()
        invariant
            i <= lines@.len(),
            lines_comparable(measured@, lines@),
            total == misfit(measured@, lines@, i as int),
            length == true_length(lines@, i as int),
            0 <= total <= 0x20_0000_0000_0000 * i,
            0 <= length <= 0x20_0000_0000_0000 * i,
        decreases lines@.len() - i,
    {
        let line: i128 = lines[i] as i128;
        if line > POINT as i128 {
            let change: i128 = measured[i] as i128 - line;
            total = total + if change < 0 {
                -change
            } else {
                change
            };
            length = length + line;
        }
        i = i + 1;
    }
    (total, length)
}

/// The fonts that measure best, one for each family: the first of those that
/// measure its lines with the least error.
pub open spec fn best_of_families(keys: Seq<Seq<char>>, misfits: Seq<i128>, count: int) -> Seq<int>
    decreases count,
{
    if count <= 0 {
        Seq::empty()
    } else {
        let chosen = best_of_families(keys, misfits, count - 1);
        let at = holder_of(keys, chosen, keys[count - 1], 0);
        if at >= chosen.len() {
            chosen.push(count - 1)
        } else if misfits[count - 1] < misfits[chosen[at]] {
            chosen.update(at, count - 1)
        } else {
            chosen
        }
    }
}

/// The place of a family among those that have a font.
pub open spec fn holder_of(
    keys: Seq<Seq<char>>,
    chosen: Seq<int>,
    key: Seq<char>,
    i: int,
) -> int
    decreases chosen.len() - i,
{
    if i >= chosen.len() || keys[chosen[i]] == key {
        i
    } else {
        holder_of(keys, chosen, key, i + 1)
    }
}

/// Indices as the numbers they are.
pub open spec fn numbers(indices: Seq<usize>) -> Seq<int> {
    Seq::new(indices.len(), |i: int| indices[i] as int)
}

/// Finds for each family the font that measures its text best. On a page live
/// namesakes, and the widths of one of them may be made up: the one wins that
/// measures the true lines of the block with the least error.
pub fn choose_metrics(keys: &Vec<String>, misfits: &Vec<i128>) -> (r: Vec<usize>)
    requires
        keys@.len() == misfits@.len(),
    ensures
        numbers(r@) == best_of_families(texts(keys@), misfits@, keys@.len() as int),
        forall|i: int| 0 <= i < r@.len() ==> #[trigger] r@[i] < keys@.len(),
{
    let mut chosen: Vec<usize> = Vec::new();
    let mut n: usize = 0;
    while n < keys.len()
        invariant
            n <= keys@.len(),
            keys@.len() == misfits@.len(),
            numbers(chosen@) == best_of_families(texts(keys@), misfits@, n as int),
            forall|i: int| 0 <= i < chosen@.len() ==> #[trigger] chosen@[i] < n,
        decreases keys@.len() - n,
    {
        let ghost held = numbers(chosen@);
        let mut at: usize = 0;
        while at < chosen.len() && !same_str(keys[chosen[at]].as_str(), keys[n].as_str())
            invariant
                at <= chosen@.len(),
                n < keys@.len(),
                held == numbers(chosen@),
                forall|i: int| 0 <= i < chosen@.len() ==> #[trigger] chosen@[i] < n,
                holder_of(texts(keys@), held, keys@[n as int]@, 0) == holder_of(
                    texts(keys@),
                    held,
                    keys@[n as int]@,
                    at as int,
                ),
            decreases chosen@.len() - at,
        {
            at = at + 1;
        }
        assert(at == holder_of(texts(keys@), held, texts(keys@)[n as int], 0));
        if at >= chosen.len() {
            chosen.push(n);
            assert(numbers(chosen@) == held.push(n as int));
        } else if misfits[n] < misfits[chosen[at]] {
            chosen.set(at, n);
            assert(numbers(chosen@) == held.update(at as int, n as int));
        }
        n = n + 1;
    }
    chosen
}

/// Every font that is chosen is one of those given, and of its family none
/// measures better.
pub proof fn no_font_measures_better(keys: Seq<Seq<char>>, misfits: Seq<i128>, count: int)
    requires
        0 <= count <= keys.len(),
        keys.len() == misfits.len(),
    ensures
        forall|i: int, m: int|
            0 <= i < best_of_families(keys, misfits, count).len() && 0 <= m < count
                && keys[#[trigger] best_of_families(keys, misfits, count)[i]] == #[trigger] keys[m]
                ==> misfits[best_of_families(keys, misfits, count)[i]] <= misfits[m],
        forall|i: int|
            0 <= i < best_of_families(keys, misfits, count).len() ==> 0
                <= #[trigger] best_of_families(keys, misfits, count)[i] < count,
    decreases count,
{
    if count > 0 {
        no_font_measures_better(keys, misfits, count - 1);
        let before = best_of_families(keys, misfits, count - 1);
        let after = best_of_families(keys, misfits, count);
        let key = keys[count - 1];
        lemma_holder(keys, before, key, 0);
        let at = holder_of(keys, before, key, 0);
        lemma_one_of_each(keys, misfits, count - 1);
        lemma_held(keys, misfits, count - 1);
        assert forall|i: int, m: int|
            0 <= i < after.len() && 0 <= m < count && keys[#[trigger] after[i]]
                == #[trigger] keys[m] implies misfits[after[i]] <= misfits[m] by {
            if at >= before.len() {
                if i < before.len() {
                    assert(after[i] == before[i]);
                    assert(keys[before[i]] != key);
                } else if m < count - 1 {
                    // Every family that was met has a font by now.
                    assert(has_font(keys, before, keys[m]));
                    let k = choose|k: int| 0 <= k < before.len() && keys[before[k]] == keys[m];
                    assert(keys[before[k]] != key);
                }
            } else if i == at {
                if m < count - 1 {
                    assert(keys[before[at]] == keys[m]);
                    assert(misfits[before[at]] <= misfits[m]);
                }
            } else {
                assert(after[i] == before[i]);
                if m == count - 1 {
                    assert(keys[before[i]] == keys[before[at]]);
                }
            }
        }
    }
}

/// Every family has one font, and no family two.
pub proof fn every_family_has_one_font(keys: Seq<Seq<char>>, misfits: Seq<i128>, m: int)
    requires
        keys.len() == misfits.len(),
        0 <= m < keys.len(),
    ensures
        ({
            let chosen = best_of_families(keys, misfits, keys.len() as int);
            &&& exists|k: int| 0 <= k < chosen.len() && keys[#[trigger] chosen[k]] == keys[m]
            &&& forall|i: int, j: int|
                0 <= i < j < chosen.len() ==> keys[#[trigger] chosen[i]]
                    != keys[#[trigger] chosen[j]]
        }),
{
    let chosen = best_of_families(keys, misfits, keys.len() as int);
    lemma_held(keys, misfits, keys.len() as int);
    lemma_one_of_each(keys, misfits, keys.len() as int);
    assert(has_font(keys, chosen, keys[m]));
    let k = choose|k: int| 0 <= k < chosen.len() && keys[chosen[k]] == keys[m];
    assert(keys[chosen[k]] == keys[m]);
}

/// Whether a family has a font.
spec fn has_font(keys: Seq<Seq<char>>, chosen: Seq<int>, key: Seq<char>) -> bool {
    exists|k: int| 0 <= k < chosen.len() && keys[chosen[k]] == key
}

/// Where a family has its font.
proof fn lemma_holder(keys: Seq<Seq<char>>, chosen: Seq<int>, key: Seq<char>, i: int)
    requires
        0 <= i <= chosen.len(),
    ensures
        ({
            let k = holder_of(keys, chosen, key, i);
            &&& i <= k <= chosen.len()
            &&& forall|m: int| i <= m < k ==> keys[#[trigger] chosen[m]] != key
            &&& k < chosen.len() ==> keys[chosen[k]] == key
        }),
    decreases chosen.len() - i,
{
    if i < chosen.len() && keys[chosen[i]] != key {
        lemma_holder(keys, chosen, key, i + 1);
    }
}

/// No family has two fonts.
proof fn lemma_one_of_each(keys: Seq<Seq<char>>, misfits: Seq<i128>, count: int)
    requires
        0 <= count <= keys.len(),
    ensures
        forall|i: int, j: int|
            0 <= i < j < best_of_families(keys, misfits, count).len() ==> keys[
                #[trigger] best_of_families(keys, misfits, count)[i]] != keys[
                #[trigger] best_of_families(keys, misfits, count)[j]],
    decreases count,
{
    if count > 0 {
        lemma_one_of_each(keys, misfits, count - 1);
        let before = best_of_families(keys, misfits, count - 1);
        let after = best_of_families(keys, misfits, count);
        let key = keys[count - 1];
        lemma_holder(keys, before, key, 0);
        let at = holder_of(keys, before, key, 0);
        assert forall|i: int, j: int| 0 <= i < j < after.len() implies keys[#[trigger] after[i]]
            != keys[#[trigger] after[j]] by {
            if j < before.len() {
                assert(keys[before[i]] != keys[before[j]]);
                assert(keys[after[i]] == keys[before[i]]);
                assert(keys[after[j]] == keys[before[j]]);
            } else {
                assert(keys[before[i]] != key);
            }
        }
    }
}

/// Every family that was met has a font.
proof fn lemma_held(keys: Seq<Seq<char>>, misfits: Seq<i128>, count: int)
    requires
        0 <= count <= keys.len(),
    ensures
        forall|m: int|
            0 <= m < count ==> has_font(
                keys,
                best_of_families(keys, misfits, count),
                #[trigger] keys[m],
            ),
    decreases count,
{
    if count > 0 {
        lemma_held(keys, misfits, count - 1);
        let before = best_of_families(keys, misfits, count - 1);
        let after = best_of_families(keys, misfits, count);
        let key = keys[count - 1];
        lemma_holder(keys, before, key, 0);
        let at = holder_of(keys, before, key, 0);
        assert forall|m: int| 0 <= m < count implies has_font(keys, after, #[trigger] keys[m]) by {
            if m == count - 1 {
                if at >= before.len() {
                    assert(keys[after[before.len() as int]] == key);
                } else {
                    assert(keys[after[at]] == key);
                }
            } else {
                let k = choose|k: int| 0 <= k < before.len() && keys[before[k]] == keys[m];
                assert(keys[after[k]] == keys[m]);
            }
        }
    }
}

/// Of the fonts that were chosen, one that measures with the least error.
pub fn best_metrics(chosen: &Vec<usize>, misfits: &Vec<i128>) -> (r: Option<usize>)
    requires
        forall|i: int| 0 <= i < chosen@.len() ==> #[trigger] chosen@[i] < misfits@.len(),
    ensures
        r is None <==> chosen@.len() == 0,
        r matches Some(best) ==> {
            &&& chosen@.contains(best)
            &&& forall|i: int|
                0 <= i < chosen@.len() ==> misfits@[best as int] <= misfits@[(
                #[trigger] chosen@[i]) as int]
        },
{
    if chosen.len() == 0 {
        return None;
    }
    let mut best: usize = chosen[0];
    let mut i: usize = 1;
    while i < chosen.len()
        invariant
            1 <= i <= chosen@.len(),
            forall|k: int| 0 <= k < chosen@.len() ==> #[trigger] chosen@[k] < misfits@.len(),
            chosen@.contains(best),
            best < misfits@.len(),
            forall|k: int|
                0 <= k < i ==> misfits@[best as int] <= misfits@[(#[trigger] chosen@[k]) as int],
        decreases chosen@.len() - i,
    {
        assert(chosen@[i as int] < misfits@.len());
        if misfits[chosen[i]] < misfits[best] {
            best = chosen[i];
        }
        i = i + 1;
    }
    Some(best)
}

/// Whether the best font of all families takes the place of the block's own:
/// where its error is less by more than half a percent.
pub fn replaces_primary(best: i128, current: i128, length: i128) -> (r: bool)
    requires
        0 <= best <= MISFIT_LIMIT,
        0 <= current <= MISFIT_LIMIT,
        0 <= length <= MISFIT_LIMIT,
    ensures
        r == (length > 0 && 200 * (current - best) > length),
{
    length > 0 && 200 * (current - best) > length
}

/// Which metrics a piece of text is measured with.
#[derive(Clone, Copy, Debug, PartialEq, Eq, Structural)]
pub enum MetricsSource {
    /// Those of its own family.
    Family(usize),
    /// Those of the font of the block.
    Block,
    /// There are none: its width is estimated.
    Estimate,
}

/// The family that a piece of text has: the one it was given, else the one of
/// the document.
pub fn run_family(style: &RunStyle) -> (r: Option<String>)
    ensures
        opt_chars(r) == if style@.family is Some {
            style@.family
        } else {
            style@.document_family
        },
{
    match &style.family {
        Some(family) => Some(family.clone()),
        None => match &style.document_family {
            Some(family) => Some(family.clone()),
            None => None,
        },
    }
}

/// Which metrics a piece is measured with, out of the families that have some.
/// `key` is the family of the piece, in the form of `known`.
pub fn metrics_for_run(key: &Option<String>, known: &Vec<String>, block: bool) -> (r: MetricsSource)
    ensures
        r == match *key {
            Some(key) if text_index(texts(known@), key@, 0) < known@.len() => MetricsSource::Family(
                text_index(texts(known@), key@, 0) as usize,
            ),
            _ => if block {
                MetricsSource::Block
            } else {
                MetricsSource::Estimate
            },
        },
{
    if let Some(key) = key {
        let at: usize = find_text(known, key.as_str());
        if at < known.len() {
            return MetricsSource::Family(at);
        }
    }
    if block {
        MetricsSource::Block
    } else {
        MetricsSource::Estimate
    }
}

/// How many fonts are remembered that were picked last.
pub const RECENT_FONTS: usize = 4;

/// The texts but for those that are the one given.
pub open spec fn texts_but(list: Seq<Seq<char>>, text: Seq<char>) -> Seq<Seq<char>>
    decreases list.len(),
{
    if list.len() == 0 {
        list
    } else if list.last() == text {
        texts_but(list.drop_last(), text)
    } else {
        texts_but(list.drop_last(), text).push(list.last())
    }
}

/// The first of texts.
pub open spec fn first_of_texts(list: Seq<Seq<char>>, count: int) -> Seq<Seq<char>> {
    if list.len() > count {
        list.take(count)
    } else {
        list
    }
}

/// Remembers a font that was picked; the latest comes first.
pub fn remember_font(recent: &Vec<String>, family: &str) -> (r: Vec<String>)
    ensures
        texts(r@) == first_of_texts(
            seq![family@] + texts_but(texts(recent@), family@),
            RECENT_FONTS as int,
        ),
{
    let mut kept: Vec<String> = Vec::new();
    kept.push(family.to_owned());
    let mut i: usize = 0;
    assert(texts(recent@).take(0) == Seq::<Seq<char>>::empty());
    assert(texts(kept@) == seq![family@] + texts_but(texts(recent@).take(0), family@));
    while i < recent.len()
        invariant
            i <= recent@.len(),
            texts(kept@) == seq![family@] + texts_but(texts(recent@).take(i as int), family@),
        decreases recent@.len() - i,
    {
        proof {
            assert(texts(recent@).take(i + 1).drop_last() == texts(recent@).take(i as int));
            assert(texts(recent@).take(i + 1).last() == recent@[i as int]@);
        }
        if !same_str(recent[i].as_str(), family) {
            let ghost before = kept@;
            kept.push(recent[i].clone());
            assert(texts(kept@) == texts(before).push(recent@[i as int]@));
        }
        i = i + 1;
    }
    assert(texts(recent@).take(i as int) == texts(recent@));
    if kept.len() > RECENT_FONTS {
        let ghost before = kept@;
        kept.truncate(RECENT_FONTS);
        assert(texts(kept@) == texts(before).take(RECENT_FONTS as int));
    }
    kept
}

/// A font is remembered first, and no more are remembered than there is room
/// for.
pub proof fn the_last_font_comes_first(recent: Seq<Seq<char>>, family: Seq<char>)
    ensures
        ({
            let after = first_of_texts(
                seq![family] + texts_but(recent, family),
                RECENT_FONTS as int,
            );
            &&& after.len() >= 1 && after[0] == family
            &&& after.len() <= RECENT_FONTS
            &&& forall|i: int| 1 <= i < after.len() ==> #[trigger] after[i] != family
        }),
{
    lemma_texts_but(recent, family);
    let all = seq![family] + texts_but(recent, family);
    let after = first_of_texts(all, RECENT_FONTS as int);
    assert forall|i: int| 1 <= i < after.len() implies #[trigger] after[i] != family by {
        assert(after[i] == texts_but(recent, family)[i - 1]);
    }
}

/// The other fonts stay remembered, in their order, as far as there is room for four.
pub proof fn the_other_fonts_stay_remembered(recent: Seq<Seq<char>>, family: Seq<char>)
    ensures
        ({
            let after = first_of_texts(
                seq![family] + texts_but(recent, family),
                RECENT_FONTS as int,
            );
            let all = seq![family] + recent.filter(|text: Seq<char>| text != family);
            &&& all.len() <= 4 ==> after == all
            &&& all.len() > 4 ==> after == all.take(4)
        }),
{
    lemma_texts_but_filter(recent, family);
}

proof fn lemma_texts_but_filter(list: Seq<Seq<char>>, text: Seq<char>)
    ensures
        texts_but(list, text) == list.filter(|other: Seq<char>| other != text),
    decreases list.len(),
{
    reveal(Seq::filter);
    if list.len() > 0 {
        lemma_texts_but_filter(list.drop_last(), text);
    }
}

proof fn lemma_texts_but(list: Seq<Seq<char>>, text: Seq<char>)
    ensures
        forall|i: int|
            0 <= i < texts_but(list, text).len() ==> #[trigger] texts_but(list, text)[i] != text,
    decreases list.len(),
{
    if list.len() > 0 {
        lemma_texts_but(list.drop_last(), text);
        let fewer = texts_but(list.drop_last(), text);
        let all = texts_but(list, text);
        assert forall|i: int| 0 <= i < all.len() implies #[trigger] all[i] != text by {
            if i < fewer.len() {
                assert(all[i] == fewer[i]);
            }
        }
    }
}

/// For whom a font is picked.
#[derive(Debug, PartialEq, Eq)]
pub enum FontTarget {
    /// The paragraph that is edited.
    Editor,
    /// The group of blocks.
    Multi,
    /// A font of the document that is not installed; the name as it is written
    /// there.
    Substitute(String),
}

/// A face of a family.
#[derive(Debug, PartialEq, Eq)]
pub struct FaceInfo {
    pub style: String,
    pub bold: bool,
    pub italic: bool,
}

/// What picking a font changes in a style: an exact face brings its weight and
/// its slant along, and in a group the family too.
pub open spec fn is_face_change(
    family: Option<Seq<char>>,
    face: Option<FaceInfo>,
    change: StyleChange,
) -> bool {
    &&& opt_chars(change.family) == family
    &&& change.bold == match face {
        Some(face) => Some(face.bold),
        None => None,
    }
    &&& change.italic == match face {
        Some(face) => Some(face.italic),
        None => None,
    }
    &&& change.size is None
    &&& change.color is None
    &&& change.underline is None
    &&& change.script is None
}

/// What picking a font changes in the style of the edited text.
pub fn face_change(face: &Option<FaceInfo>) -> (r: StyleChange)
    ensures
        is_face_change(None, *face, r),
{
    let mut change = StyleChange::none();
    if let Some(face) = face {
        change.bold = Some(face.bold);
        change.italic = Some(face.italic);
    }
    change
}

/// What picking a font changes in the styles of a group.
pub fn group_face_change(family: &str, face: &Option<FaceInfo>) -> (r: StyleChange)
    ensures
        is_face_change(Some(family@), *face, r),
{
    let mut change = face_change(face);
    change.family = Some(family.to_owned());
    change
}

/// A text in lower case.
pub uninterp spec fn lowercase_of(text: Seq<char>) -> Seq<char>;

/// Calls [`str::to_lowercase`]: the text in lower case by the Unicode tables.
/// What those say of a character is not stated.
#[verifier::external_body]
fn lowercase(text: &str) -> (r: String)
    ensures
        r@ == lowercase_of(text@),
{
    text.to_lowercase()
}

/// Whether a text occurs in another.
pub open spec fn occurs_in(part: Seq<char>, text: Seq<char>) -> bool {
    exists|i: int|
        0 <= i <= text.len() - part.len() && #[trigger] text.subrange(i, i + part.len()) == part
}

/// Whether a text occurs in another.
pub fn text_contains(text: &str, part: &str) -> (r: bool)
    ensures
        r == occurs_in(part@, text@),
{
    let whole = chars_of_str(text);
    let piece = chars_of_str(part);
    if piece.len() > whole.len() {
        return false;
    }
    let last: usize = whole.len() - piece.len();
    let mut i: usize = 0;
    loop
        invariant
            i <= last,
            last == whole@.len() - piece@.len(),
            whole@ == text@,
            piece@ == part@,
            forall|m: int|
                0 <= m < i ==> #[trigger] text@.subrange(m, m + part@.len()) != part@,
        decreases last - i,
    {
        let mut k: usize = 0;
        while k < piece.len() && whole[i + k] == piece[k]
            invariant
                k <= piece@.len(),
                i + piece@.len() <= whole@.len(),
                whole@.len() == whole.len(),
                forall|m: int| 0 <= m < k ==> whole@[i + m] == #[trigger] piece@[m],
            decreases piece@.len() - k,
        {
            k = k + 1;
        }
        if k == piece.len() {
            assert(text@.subrange(i as int, i + part@.len()) == part@);
            return true;
        }
        assert(text@.subrange(i as int, i + part@.len()) != part@) by {
            assert(text@.subrange(i as int, i + part@.len())[k as int] == whole@[i + k]);
        }
        if i == last {
            return false;
        }
        i = i + 1;
    }
}

/// The indices of the first `count` names in which what is looked for occurs;
/// all, where nothing is looked for.
pub open spec fn matches_of(names: Seq<Seq<char>>, query: Seq<char>, count: int) -> Seq<int>
    decreases count,
{
    if count <= 0 {
        Seq::empty()
    } else {
        let fewer = matches_of(names, query, count - 1);
        if query.len() == 0 || occurs_in(query, names[count - 1]) {
            fewer.push(count - 1)
        } else {
            fewer
        }
    }
}

/// A search finds the names in which what is looked for stands, from some letter on,
/// and all where nothing is looked for; they come in their order, each once.
pub proof fn a_search_finds_every_name_with_the_query(
    names: Seq<Seq<char>>,
    query: Seq<char>,
    count: int,
    i: int,
)
    requires
        0 <= i < count <= names.len(),
    ensures
        matches_of(names, query, count).contains(i) <==> query.len() == 0 || exists|k: int|
            0 <= k <= names[i].len() - query.len() && #[trigger] names[i].subrange(
                k,
                k + query.len(),
            ) == query,
        forall|a: int, b: int|
            0 <= a < b < matches_of(names, query, count).len() ==> #[trigger] matches_of(
                names,
                query,
                count,
            )[a] < #[trigger] matches_of(names, query, count)[b],
        forall|a: int|
            0 <= a < matches_of(names, query, count).len() ==> 0 <= #[trigger] matches_of(
                names,
                query,
                count,
            )[a] < count,
    decreases count,
{
    let fewer = matches_of(names, query, count - 1);
    let all = matches_of(names, query, count);
    if count > 1 {
        a_search_finds_every_name_with_the_query(
            names,
            query,
            count - 1,
            if i < count - 1 {
                i
            } else {
                0
            },
        );
    }
    assert forall|a: int| 0 <= a < all.len() implies 0 <= #[trigger] all[a] < count by {
        if a < fewer.len() {
            assert(all[a] == fewer[a]);
        }
    }
    assert forall|a: int, b: int| 0 <= a < b < all.len() implies #[trigger] all[a]
        < #[trigger] all[b] by {
        assert(all[a] == fewer[a]);
        if b < fewer.len() {
            assert(all[b] == fewer[b]);
        }
    }
    if i < count - 1 {
        if fewer.contains(i) {
            let k = choose|k: int| 0 <= k < fewer.len() && fewer[k] == i;
            assert(all[k] == i);
        }
        if all.contains(i) {
            let k = choose|k: int| 0 <= k < all.len() && all[k] == i;
            assert(fewer[k] == i);
        }
    } else if query.len() == 0 || occurs_in(query, names[count - 1]) {
        assert(all[all.len() - 1] == i);
    } else if all.contains(i) {
        let k = choose|k: int| 0 <= k < all.len() && all[k] == i;
        assert(fewer[k] == i);
    }
}

/// The indices of the names in which what is looked for occurs.
pub fn matching(names: &Vec<String>, query: &str) -> (r: Vec<usize>)
    ensures
        numbers(r@) == matches_of(texts(names@), query@, names@.len() as int),
{
    let all = chars_of_str(query).len() == 0;
    let mut out: Vec<usize> = Vec::new();
    let mut i: usize = 0;
    while i < names.len()
        invariant
            i <= names@.len(),
            all == (query@.len() == 0),
            numbers(out@) == matches_of(texts(names@), query@, i as int),
        decreases names@.len() - i,
    {
        if all || text_contains(names[i].as_str(), query) {
            let ghost before = out@;
            out.push(i);
            assert(numbers(out@) == numbers(before).push(i as int));
        }
        i = i + 1;
    }
    out
}

/// The names in lower case.
pub open spec fn lowercase_all(names: Seq<Seq<char>>) -> Seq<Seq<char>> {
    Seq::new(names.len(), |i: int| lowercase_of(names[i]))
}

/// The families, by their indices, in whose names what was typed occurs,
/// whatever the case.
pub fn filter_families(families: &Vec<String>, typed: &str) -> (r: Vec<usize>)
    ensures
        exists|query: Seq<char>|
            #[trigger] is_trimmed(typed@, query) && numbers(r@) == matches_of(
                lowercase_all(texts(families@)),
                lowercase_of(query),
                families@.len() as int,
            ),
{
    let chars = chars_of_str(typed);
    let (from, to) = trimmed_chars(&chars);
    let query = lowercase(typed.substring_char(from, to));
    let mut lowered: Vec<String> = Vec::new();
    let mut i: usize = 0;
    while i < families.len()
        invariant
            i <= families@.len(),
            lowered@.len() == i,
            forall|k: int|
                0 <= k < i ==> (#[trigger] lowered@[k])@ == lowercase_of(families@[k]@),
        decreases families@.len() - i,
    {
        lowered.push(lowercase(families[i].as_str()));
        i = i + 1;
    }
    assert(texts(lowered@) == lowercase_all(texts(families@)));
    matching(&lowered, query.as_str())
}

/// The height of a row of the list of fonts, in pixels.
pub const FONT_ROW: i64 = 28 * 0x100_0000;

/// How high the list of fonts is.
pub fn picker_height(viewport: i64) -> (r: i64)
    requires
        near(viewport),
    ensures
        r == max_of(viewport - 160 * POINT, 240 * POINT),
{
    let room: i64 = viewport - 160 * POINT;
    if room > 240 * POINT {
        room
    } else {
        240 * POINT
    }
}

/// How high the fonts that were picked last are, above the others; they are
/// shown where nothing is looked for.
pub open spec fn picker_header(searching: bool, recent: int) -> int {
    if searching || recent == 0 {
        0
    } else {
        recent * FONT_ROW + 9 * POINT
    }
}

/// The rows of the list that are drawn, the first and the one after the last:
/// there are hundreds of families, and each is drawn in its own font.
pub fn picker_rows(
    scrolled: i64,
    searching: bool,
    recent: usize,
    measured: i64,
    height: i64,
    rows: usize,
) -> (r: (usize, usize))
    requires
        near(scrolled),
        near(measured),
        0 <= height,
        near(height),
        recent <= RECENT_FONTS,
    ensures
        ({
            let offset = max_of(scrolled - picker_header(searching, recent as int), 0);
            let shown = if measured > POINT {
                measured as int
            } else {
                height as int
            };
            let first = max_of(offset / FONT_ROW as int - 4, 0);
            let visible = (shown + FONT_ROW - 1) / FONT_ROW as int + 8;
            &&& r.0 == first
            &&& r.1 == min_of(first + visible, rows as int)
        }),
        forall|row: int|
            ({
                let above = if searching || recent == 0 {
                    0
                } else {
                    recent * 28 * POINT + 9 * POINT
                };
                let shown = if measured > POINT {
                    measured
                } else {
                    height
                };
                &&& 0 <= row < rows
                &&& above + row * (28 * POINT) < scrolled + shown
                &&& above + #[trigger] (row + 1) * (28 * POINT) > scrolled
            }) ==> r.0 <= row < r.1,
{
    let header: i64 = if searching || recent == 0 {
        0
    } else {
        recent as i64 * FONT_ROW + 9 * POINT
    };
    let offset: i64 = if scrolled > header {
        scrolled - header
    } else {
        0
    };
    let shown: i64 = if measured > POINT {
        measured
    } else {
        height
    };
    let top: i64 = offset / FONT_ROW;
    let first: i64 = if top > 4 {
        top - 4
    } else {
        0
    };
    let visible: i64 = (shown + FONT_ROW - 1) / FONT_ROW + 8;
    let end: i64 = first + visible;
    (
        first as usize,
        if (end as u64) < rows as u64 {
            end as usize
        } else {
            rows
        },
    )
}

/// Which font stands for one of the document that is not installed.
#[derive(Debug)]
pub struct Substitutes {
    /// The families of the document, without what spellings differ in, each
    /// once, and the installed families in their place.
    pub entries: Vec<(String, String)>,
}

/// The family that was given to another.
pub open spec fn substitute_of(entries: Seq<(String, String)>, key: Seq<char>, i: int) -> Option<
    Seq<char>,
>
    decreases entries.len() - i,
{
    if i >= entries.len() {
        None
    } else if entries[i].0@ == key {
        Some(entries[i].1@)
    } else {
        substitute_of(entries, key, i + 1)
    }
}

impl Substitutes {
    pub fn new() -> (r: Substitutes)
        ensures
            forall|key: Seq<char>| (#[trigger] substitute_of(r.entries@, key, 0)) is None,
    {
        Substitutes { entries: Vec::new() }
    }

    /// Gives a family another in its place.
    pub fn substitute_font(&mut self, key: &str, family: String)
        ensures
            forall|k: Seq<char>| #[trigger]
                substitute_of(final(self).entries@, k, 0) == if k == key@ {
                    Some(family@)
                } else {
                    substitute_of(old(self).entries@, k, 0)
                },
    {
        let ghost before = self.entries@;
        let entry = (key.to_owned(), family);
        self.entries.insert(0, entry);
        proof {
            assert forall|k: Seq<char>| #[trigger] substitute_of(self.entries@, k, 0) == if k
                == key@ {
                Some(family@)
            } else {
                substitute_of(before, k, 0)
            } by {
                lemma_substitutes_shift(before, entry, k, 0);
                assert(self.entries@ == before.insert(0, entry));
            }
        }
    }

    /// The family that stands for another.
    pub fn substitute_for(&self, key: &str) -> (r: Option<&String>)
        ensures
            match r {
                Some(family) => substitute_of(self.entries@, key@, 0) == Some(family@),
                None => substitute_of(self.entries@, key@, 0) is None,
            },
    {
        let mut i: usize = 0;
        while i < self.entries.len()
            invariant
                i <= self.entries@.len(),
                substitute_of(self.entries@, key@, 0) == substitute_of(
                    self.entries@,
                    key@,
                    i as int,
                ),
            decreases self.entries@.len() - i,
        {
            if same_str(self.entries[i].0.as_str(), key) {
                return Some(&self.entries[i].1);
            }
            i = i + 1;
        }
        None
    }
}

/// An entry in front moves the others back.
proof fn lemma_substitutes_shift(
    entries: Seq<(String, String)>,
    entry: (String, String),
    key: Seq<char>,
    i: int,
)
    requires
        0 <= i <= entries.len(),
    ensures
        substitute_of(entries.insert(0, entry), key, i + 1) == substitute_of(entries, key, i),
    decreases entries.len() - i,
{
    let after = entries.insert(0, entry);
    if i < entries.len() {
        assert(after[i + 1] == entries[i]);
        lemma_substitutes_shift(entries, entry, key, i + 1);
    }
}

/// The length that a font is measured by is that of the lines which count: another
/// length of a line changes it by the difference, where both are more than a point,
/// and a line of a point or less adds nothing.
pub proof fn the_lines_that_count_are_added_up(
    lines: Seq<Points>,
    count: int,
    i: int,
    other: Points,
)
    requires
        0 <= i < count <= lines.len(),
    ensures
        ({
            let change = true_length(lines.update(i, other), count) - true_length(lines, count);
            let counted = |length: int|
                if length > POINT {
                    length
                } else {
                    0
                };
            change == counted(other as int) - counted(lines[i] as int)
        }),
        (forall|j: int| 0 <= j < count ==> #[trigger] lines[j] <= POINT) ==> true_length(
            lines,
            count,
        ) == 0,
    decreases count,
{
    lemma_nothing_counts(lines, count);
    if i < count - 1 {
        the_lines_that_count_are_added_up(lines, count - 1, i, other);
    } else {
        lemma_length_before(lines, count - 1, i, other);
    }
}

proof fn lemma_nothing_counts(lines: Seq<Points>, count: int)
    requires
        0 <= count <= lines.len(),
    ensures
        (forall|j: int| 0 <= j < count ==> #[trigger] lines[j] <= POINT) ==> true_length(
            lines,
            count,
        ) == 0,
    decreases count,
{
    if count > 0 {
        lemma_nothing_counts(lines, count - 1);
    }
}

proof fn lemma_length_before(lines: Seq<Points>, count: int, i: int, other: Points)
    requires
        0 <= count <= i < lines.len(),
    ensures
        true_length(lines.update(i, other), count) == true_length(lines, count),
    decreases count,
{
    if count > 0 {
        lemma_length_before(lines, count - 1, i, other);
    }
}

} // verus!
