//! The window as a whole: either the page with the recent documents, or an
//! open one.
use crate::document::opt_chars;
use crate::fonts::{case_is_that_of_latin_letters, equal_ignoring_case, same_letters};
use crate::numerals::{decimal, decimal_text};
use crate::paths::{file_title, way};
use crate::recents::{ago_text, entry_of, passed, touched, RecentDoc, RecentView, Recents};
use vstd::prelude::*;

verus! {

/// The state of the window.
#[derive(Debug)]
pub struct Workspace {
    pub recents: Recents,
    /// A document is shown.
    pub viewing: bool,
    pub error: Option<String>,
}

/// What came of opening a document.
#[derive(Debug)]
pub enum Opening {
    Opened { pages: u32 },
    Failed(Option<String>),
}

impl Workspace {
    /// The window at the start.
    pub fn new(recents: Recents) -> (r: Workspace)
        ensures
            r.recents == recents,
            !r.viewing,
            r.error is None,
    {
        Workspace { recents, viewing: false, error: None }
    }

    /// Takes in what came of opening a document. One that did not open does
    /// not come among the recent ones; the reason is shown instead.
    pub fn open_document(&mut self, path: &str, outcome: Opening, now: u64)
        ensures
            match outcome {
                Opening::Opened { pages } => {
                    &&& final(self).viewing
                    &&& final(self).error is None
                    &&& final(self).recents@.entries == touched(
                        old(self).recents@.entries,
                        (RecentView {
                            path: path@,
                            title: file_title(path@),
                            pages,
                            opened_at: now,
                        }),
                    )
                    &&& final(self).recents@.storage == old(self).recents@.storage
                },
                Opening::Failed(reason) => {
                    &&& !final(self).viewing
                    &&& final(self).recents == old(self).recents
                    &&& opt_chars(final(self).error) == Some(
                        match reason {
                            Some(text) => text@,
                            None => "не удалось открыть "@ + path@,
                        },
                    )
                },
            },
    {
        match outcome {
            Opening::Opened { pages } => {
                self.recents.touch(path.to_owned(), pages, now);
                self.viewing = true;
                self.error = None;
            },
            Opening::Failed(reason) => {
                self.error = Some(
                    match reason {
                        Some(text) => text,
                        None => "не удалось открыть ".to_owned().concat(path),
                    },
                );
                self.viewing = false;
            },
        }
    }

    /// Goes back to the recent documents.
    pub fn show_home(&mut self)
        ensures
            *final(self) == (Workspace { viewing: false, ..*old(self) }),
    {
        self.viewing = false;
    }

    /// Takes a document out of the recent ones and returns its entry, where it
    /// has one.
    pub fn forget(&mut self, path: &str) -> (r: Option<RecentDoc>)
        ensures
            ({
                let list = old(self).recents@.entries;
                let at = entry_of(list, way(path@));
                match r {
                    Some(doc) => {
                        &&& at < list.len()
                        &&& doc@ == list[at]
                        &&& final(self).recents@.entries == list.remove(at)
                    },
                    None => at == list.len() && final(self).recents@.entries == list,
                }
            }),
            final(self).recents@.storage == old(self).recents@.storage,
            final(self).viewing == old(self).viewing,
            final(self).error == old(self).error,
    {
        self.recents.remove(path)
    }

    /// Files were dropped: the first that can be opened is the result, and
    /// where there is none it is said so.
    pub fn on_files_dropped(&mut self, extensions: &Vec<Option<String>>) -> (r: Option<usize>)
        ensures
            is_first_pdf(extensions@, r),
            r is Some ==> *final(self) == *old(self),
            r is None ==> {
                &&& final(self).recents == old(self).recents
                &&& final(self).viewing == old(self).viewing
                &&& opt_chars(final(self).error) == Some("Перетащить можно только файл PDF"@)
            },
    {
        let found = first_pdf(extensions);
        if found.is_none() {
            self.error = Some("Перетащить можно только файл PDF".to_owned());
        }
        found
    }
}

/// Whether the extension of a file is that of a document, whatever its case.
pub open spec fn is_pdf(extension: Option<String>) -> bool {
    extension matches Some(text) && same_letters(text@, "pdf"@)
}

/// The first file with the extension of a document.
pub open spec fn is_first_pdf(extensions: Seq<Option<String>>, found: Option<usize>) -> bool {
    match found {
        Some(at) => {
            &&& at < extensions.len()
            &&& is_pdf(extensions[at as int])
            &&& forall|k: int| 0 <= k < at ==> !is_pdf(#[trigger] extensions[k])
        },
        None => forall|k: int| 0 <= k < extensions.len() ==> !is_pdf(#[trigger] extensions[k]),
    }
}

/// Finds the first file with the extension of a document.
pub fn first_pdf(extensions: &Vec<Option<String>>) -> (r: Option<usize>)
    ensures
        is_first_pdf(extensions@, r),
{
    let mut i: usize = 0;
    while i < extensions.len()
        invariant
            i <= extensions@.len(),
            forall|k: int| 0 <= k < i ==> !is_pdf(#[trigger] extensions@[k]),
        decreases extensions@.len() - i,
    {
        if let Some(text) = &extensions[i] {
            if equal_ignoring_case(text.as_str(), "pdf") {
                return Some(i);
            }
        }
        i = i + 1;
    }
    None
}

/// The heading above the recent documents.
pub fn recents_heading(count: usize) -> (r: String)
    ensures
        r@ == if count == 0 {
            "Недавние документы"@
        } else {
            "Недавние документы · "@ + decimal_text(count as nat)
        },
{
    if count == 0 {
        "Недавние документы".to_owned()
    } else {
        "Недавние документы · ".to_owned().concat(decimal(count as u64).as_str())
    }
}

impl RecentDoc {
    /// What the card of a recent document says.
    pub fn card_text(&self, available: bool, now: u64) -> (r: String)
        ensures
            r@ == if available {
                decimal_text(self.pages as nat) + " стр. · "@ + ago_text(
                    passed(now, self.opened_at),
                )
            } else {
                "файл не найден"@
            },
    {
        if available {
            decimal(self.pages as u64).concat(" стр. · ").concat(self.opened_ago(now).as_str())
        } else {
            "файл не найден".to_owned()
        }
    }
}

/// What a click on a recent document does.
#[derive(Clone, Copy, Debug, PartialEq, Eq, Structural)]
pub enum CardClick {
    Open,
    /// The file is gone, so the entry goes too: there is nothing to mend.
    Forget,
}

pub fn card_click(available: bool) -> (r: CardClick)
    ensures
        r == if available {
            CardClick::Open
        } else {
            CardClick::Forget
        },
{
    if available {
        CardClick::Open
    } else {
        CardClick::Forget
    }
}

/// A file is taken for a document where its extension is the three letters,
/// each small or large.
pub proof fn a_document_has_its_extension(extension: Option<String>)
    ensures
        is_pdf(extension) <==> extension is Some && {
            let text = extension->0@;
            &&& text.len() == 3
            &&& text[0] == 'p' || text[0] == 'P'
            &&& text[1] == 'd' || text[1] == 'D'
            &&& text[2] == 'f' || text[2] == 'F'
        },
{
    reveal_strlit("pdf");
    if let Some(text) = extension {
        case_is_that_of_latin_letters(text@, "pdf"@);
        assert("pdf"@[0] == 'p' && "pdf"@[1] == 'd' && "pdf"@[2] == 'f');
        if text@.len() == 3 && (text@[0] == 'p' || text@[0] == 'P') && (text@[1] == 'd' || text@[1]
            == 'D') && (text@[2] == 'f' || text@[2] == 'F') {
            assert(same_letters(text@, "pdf"@));
        }
    }
}

} // verus!
