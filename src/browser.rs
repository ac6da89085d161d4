//! The decisions of an interactive browser over the dictionary: a search text
//! edited key by key, the rows whose word holds it, and a selected row.
//! Drawing and reading the terminal are left to the caller, which hands each
//! key press in and redraws from what the browser holds.
use vstd::prelude::*;

use crate::text::{chars_of, push_char};

verus! {

/// `n` occurs in `h` as a contiguous run.
pub open spec fn occurs_in(n: Seq<char>, h: Seq<char>) -> bool {
    exists|i: int| 0 <= i <= h.len() - n.len() && #[trigger] h.subrange(i, i + n.len()) == n
}

/// One line of the browser: a rank supplied from outside, a word, a chord.
pub struct Listing {
    pub rank: String,
    pub word: String,
    pub chord: String,
}

impl View for Listing {
    type V = (Seq<char>, Seq<char>, Seq<char>);

    open spec fn view(&self) -> (Seq<char>, Seq<char>, Seq<char>) {
        (self.rank@, self.word@, self.chord@)
    }
}

/// The listings whose word holds `search`, in their order.
pub open spec fn matching(ls: Seq<(Seq<char>, Seq<char>, Seq<char>)>, search: Seq<char>) -> Seq<
    (Seq<char>, Seq<char>, Seq<char>),
>
    decreases ls.len(),
{
    if ls.len() == 0 {
        Seq::empty()
    } else if occurs_in(search, ls.last().1) {
        matching(ls.drop_last(), search).push(ls.last())
    } else {
        matching(ls.drop_last(), search)
    }
}

/// A key press as the browser sees it.
#[derive(Clone, Copy, Debug, PartialEq, Eq)]
pub enum KeyInput {
    /// A character typed without the control modifier.
    Char(char),
    /// A character typed with the control modifier.
    Control(char),
    Backspace,
    Up,
    Down,
    /// Any other key, and key releases and repeats.
    Other,
}

/// The browser's state: the search text, the rows that match it, the selected row.
pub struct Browser {
    search: Vec<char>,
    rows: Vec<Listing>,
    selected: Option<usize>,
}

impl Browser {
    pub closed spec fn search_view(&self) -> Seq<char> {
        self.search@
    }

    pub closed spec fn rows_view(&self) -> Seq<(Seq<char>, Seq<char>, Seq<char>)> {
        self.rows@.map_values(|l: Listing| l@)
    }

    pub closed spec fn selected_view(&self) -> Option<usize> {
        self.selected
    }

    /// An empty search, no rows, nothing selected.
    pub fn new() -> (r: Browser)
        ensures
            r.search_view() == Seq::<char>::empty(),
            r.rows_view() == Seq::<(Seq<char>, Seq<char>, Seq<char>)>::empty(),
            r.selected_view() is None,
    {
        let r = Browser { search: Vec::new(), rows: Vec::new(), selected: None };
        assert(r.rows_view() =~= Seq::<(Seq<char>, Seq<char>, Seq<char>)>::empty());
        r
    }

    /// The search text.
    pub fn search(&self) -> (r: String)
        ensures
            r@ == self.search_view(),
    {
        let mut r = String::new();
        let mut i: usize = 0;
        while i < self.search.len()
            invariant
                i <= self.search.len(),
                r@ == self.search@.subrange(0, i as int),
            decreases self.search.len() - i,
        {
            push_char(&mut r, self.search[i]);
            assert(r@ =~= self.search@.subrange(0, i + 1));
            i = i + 1;
        }
        assert(self.search@.subrange(0, i as int) =~= self.search@);
        r
    }

    /// The rows on show.
    pub fn rows(&self) -> (r: &Vec<Listing>)
        ensures
            r@.map_values(|l: Listing| l@) == self.rows_view(),
    {
        &self.rows
    }

    /// The selected row, if any.
    pub fn selected(&self) -> (r: Option<usize>)
        ensures
            r == self.selected_view(),
    {
        self.selected
    }

    /// Selects `row`, or nothing; the display hands back the selection it kept.
    pub fn select(&mut self, row: Option<usize>)
        ensures
            final(self).selected_view() == row,
            final(self).search_view() == old(self).search_view(),
            final(self).rows_view() == old(self).rows_view(),
    {
        self.selected = row;
    }

    /// Rebuilds the rows: a copy of each listing whose word holds the search text.
    pub fn update_rows(&mut self, listings: &Vec<Listing>)
        ensures
            final(self).rows_view() == matching(listings@.map_values(|l: Listing| l@), old(self).search_view()),
            final(self).search_view() == old(self).search_view(),
            final(self).selected_view() == old(self).selected_view(),
    {
        let ghost all = listings@.map_values(|l: Listing| l@);
        let mut rows: Vec<Listing> = Vec::new();
        let mut i: usize = 0;
        while i < listings.len()
            invariant
                i <= listings.len(),
                all == listings@.map_values(|l: Listing| l@),
                rows@.map_values(|l: Listing| l@) == matching(all.subrange(0, i as int), self.search@),
            decreases listings.len() - i,
        {
            let l = &listings[i];
            let word = chars_of(l.word.as_str());
            let ghost before = rows@.map_values(|l: Listing| l@);
            assert(all.subrange(0, i + 1).drop_last() =~= all.subrange(0, i as int));
            assert(all.subrange(0, i + 1).last() == l@);
            if contains_run(&word, &self.search) {
                rows.push(
                    Listing { rank: l.rank.clone(), word: l.word.clone(), chord: l.chord.clone() },
                );
                assert(rows@.map_values(|l: Listing| l@) =~= before.push(l@));
            }
            i = i + 1;
        }
        assert(all.subrange(0, i as int) =~= all);
        self.rows = rows;
    }

    /// Moves the selection one row up; from the top row, or with nothing
    /// selected, nothing is selected.
    pub fn select_previous_row(&mut self)
        ensures
            final(self).selected_view() == (match old(self).selected_view() {
                Some(r) => if r > 0 {
                    Some((r - 1) as usize)
                } else {
                    None
                },
                None => None,
            }),
            final(self).search_view() == old(self).search_view(),
            final(self).rows_view() == old(self).rows_view(),
    {
        self.selected = match self.selected {
            Some(r) => if r > 0 {
                Some(r - 1)
            } else {
                None
            },
            None => None,
        };
    }

    /// Moves the selection one row down; with nothing selected, selects the top row.
    pub fn select_next_row(&mut self)
        ensures
            final(self).selected_view() == (match old(self).selected_view() {
                Some(r) => if r < usize::MAX {
                    Some((r + 1) as usize)
                } else {
                    Some(r)
                },
                None => Some(0usize),
            }),
            final(self).search_view() == old(self).search_view(),
            final(self).rows_view() == old(self).rows_view(),
    {
        self.selected = match self.selected {
            Some(r) => if r < usize::MAX {
                Some(r + 1)
            } else {
                Some(r)
            },
            None => Some(0),
        };
    }

    /// Applies one key press, and says whether the browser should close.
    /// A typed character extends the search, backspace shortens it, control-h
    /// clears it, and each of these rebuilds the rows; up and down move the
    /// selection; control-c closes.
    pub fn handle_key(&mut self, key: KeyInput, listings: &Vec<Listing>) -> (quit: bool)
        ensures
            quit == (key == KeyInput::Control('c')),
            final(self).search_view() == (match key {
                KeyInput::Char(c) => old(self).search_view().push(c),
                KeyInput::Control(c) => if c == 'h' {
                    Seq::<char>::empty()
                } else {
                    old(self).search_view()
                },
                KeyInput::Backspace => if old(self).search_view().len() > 0 {
                    old(self).search_view().drop_last()
                } else {
                    old(self).search_view()
                },
                _ => old(self).search_view(),
            }),
            (key matches KeyInput::Char(_) || key == KeyInput::Control('h') || key
                == KeyInput::Backspace) ==> final(self).rows_view() == matching(
                listings@.map_values(|l: Listing| l@),
                final(self).search_view(),
            ),
            (key == KeyInput::Up) ==> final(self).selected_view() == (match old(self).selected_view() {
                Some(r) => if r > 0 {
                    Some((r - 1) as usize)
                } else {
                    None
                },
                None => None,
            }),
            (key == KeyInput::Down) ==> final(self).selected_view() == (match old(self).selected_view() {
                Some(r) => if r < usize::MAX {
                    Some((r + 1) as usize)
                } else {
                    Some(r)
                },
                None => Some(0usize),
            }),
            !(key == KeyInput::Up || key == KeyInput::Down) ==> final(self).selected_view()
                == old(self).selected_view(),
            !(key matches KeyInput::Char(_) || key == KeyInput::Control('h') || key
                == KeyInput::Backspace) ==> final(self).rows_view() == old(self).rows_view(),
    {
        match key {
            KeyInput::Char(c) => {
                self.search.push(c);
                self.update_rows(listings);
                false
            },
            KeyInput::Control(c) => {
                if c == 'c' {
                    true
                } else if c == 'h' {
                    self.search = Vec::new();
                    self.update_rows(listings);
                    false
                } else {
                    false
                }
            },
            KeyInput::Backspace => {
                if self.search.len() > 0 {
                    self.search.pop();
                }
                self.update_rows(listings);
                false
            },
            KeyInput::Up => {
                self.select_previous_row();
                false
            },
            KeyInput::Down => {
                self.select_next_row();
                false
            },
            KeyInput::Other => false,
        }
    }
}

/// Whether `n` occurs in `h` as a contiguous run.
pub fn contains_run(h: &Vec<char>, n: &Vec<char>) -> (r: bool)
    ensures
        r == occurs_in(n@, h@),
{
    if n.len() > h.len() {
        return false;
    }
    let last = h.len() - n.len();
    let mut i: usize = 0;
    while i <= last
        invariant
            last == h.len() - n.len(),
            i <= last + 1,
            forall|p: int| 0 <= p < i ==> #[trigger] h@.subrange(p, p + n@.len()) != n@,
        decreases last + 1 - i,
    {
        let mut j: usize = 0;
        while j < n.len() && h[i + j] == n[j]
            invariant
                i <= last,
                last == h.len() - n.len(),
                j <= n.len(),
                forall|q: int| 0 <= q < j ==> h@[i + q] == n@[q],
            decreases n.len() - j,
        {
            j = j + 1;
        }
        if j == n.len() {
            assert(h@.subrange(i as int, i + n@.len()) =~= n@);
            return true;
        }
        assert(h@.subrange(i as int, i + n@.len())[j as int] != n@[j as int]);
        if i == last {
            assert forall|p: int| 0 <= p <= h@.len() - n@.len() implies #[trigger] h@.subrange(
                p,
                p + n@.len(),
            ) != n@ by {
                if p == i {
                    assert(h@.subrange(p, p + n@.len())[j as int] != n@[j as int]);
                }
            }
            return false;
        }
        i = i + 1;
    }
    false
}

} // verus!
