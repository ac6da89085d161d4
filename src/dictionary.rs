//! The chord dictionary: chords mapped to words, kept in ascending order of
//! the chords' spellings, with its flat text form.
use vstd::prelude::*;

use crate::chord::{
    is_key, lemma_parse_render, lemma_render_chars, lemma_render_len, parse_keys, parse_range,
    render, trim_bounds, valid_keys, Chord,
};
use crate::text::{
    chars_of, compare_text, is_trimmed, is_white, lemma_split_append, lemma_split_on_len,
    lemma_trim_after_space, lemma_text_less_irreflexive, lemma_text_less_total, lemma_text_less_transitive, push_char, split_on, text_less, trim,
};

verus! {

/// Entries strictly ascending by spelling, hence with unique spellings.
pub open spec fn ascending_entries(s: Seq<(Seq<char>, Seq<char>)>) -> bool {
    forall|i: int, j: int| 0 <= i < j < s.len() ==> text_less(s[i].0, s[j].0)
}

/// Index of the first entry whose spelling does not come before `k`.
pub open spec fn first_not_before(s: Seq<(Seq<char>, Seq<char>)>, k: Seq<char>) -> nat
    decreases s.len(),
{
    if s.len() == 0 || !text_less(s[0].0, k) {
        0
    } else {
        1 + first_not_before(s.drop_first(), k)
    }
}

/// The word stored for the spelling `k`.
pub open spec fn lookup(s: Seq<(Seq<char>, Seq<char>)>, k: Seq<char>) -> Option<Seq<char>> {
    let i = first_not_before(s, k) as int;
    if i < s.len() && s[i].0 == k {
        Some(s[i].1)
    } else {
        None
    }
}

/// `s` with `k` mapped to `w`: the entry for `k` replaced, or a new one in its place.
pub open spec fn upsert(s: Seq<(Seq<char>, Seq<char>)>, k: Seq<char>, w: Seq<char>) -> Seq<
    (Seq<char>, Seq<char>),
> {
    let i = first_not_before(s, k) as int;
    if i < s.len() && s[i].0 == k {
        s.update(i, (k, w))
    } else {
        s.insert(i, (k, w))
    }
}

/// `s` without an entry for `k`.
pub open spec fn delete(s: Seq<(Seq<char>, Seq<char>)>, k: Seq<char>) -> Seq<
    (Seq<char>, Seq<char>),
> {
    let i = first_not_before(s, k) as int;
    if i < s.len() && s[i].0 == k {
        s.remove(i)
    } else {
        s
    }
}

/// One line of the text form: `CHORD: word` and a line feed.
pub open spec fn line_of(e: (Seq<char>, Seq<char>)) -> Seq<char> {
    e.0 + seq![':', ' '] + e.1 + seq!['\n']
}

/// The text form of a sequence of entries, one line each, in order.
pub open spec fn save_text(s: Seq<(Seq<char>, Seq<char>)>) -> Seq<char>
    decreases s.len(),
{
    if s.len() == 0 {
        Seq::<char>::empty()
    } else {
        save_text(s.drop_last()) + line_of(s.last())
    }
}

/// Index of the first `c` in `l`, or its length where there is none.
pub open spec fn index_of(l: Seq<char>, c: char) -> nat
    decreases l.len(),
{
    if l.len() == 0 || l[0] == c {
        0
    } else {
        1 + index_of(l.drop_first(), c)
    }
}

/// The entry that a line holds: the chord before the first `:`, the trimmed
/// word after it. `None` where there is no `:` or the chord does not parse.
pub open spec fn parse_line(l: Seq<char>) -> Option<(Seq<char>, Seq<char>)> {
    let c = index_of(l, ':') as int;
    if c < l.len() {
        match parse_keys(l.subrange(0, c)) {
            Some(k) => Some((render(k), trim(l.subrange(c + 1, l.len() as int)))),
            None => None,
        }
    } else {
        None
    }
}

/// The entries of the lines, a later line for a chord replacing an earlier one.
pub open spec fn load_lines(ls: Seq<Seq<char>>) -> Seq<(Seq<char>, Seq<char>)>
    decreases ls.len(),
{
    if ls.len() == 0 {
        Seq::empty()
    } else {
        let m = load_lines(ls.drop_last());
        match parse_line(ls.last()) {
            Some(e) => upsert(m, e.0, e.1),
            None => m,
        }
    }
}

/// The entries that a text form holds; lines that are not entries are skipped.
pub open spec fn load_text(s: Seq<char>) -> Seq<(Seq<char>, Seq<char>)> {
    load_lines(split_on(s, '\n'))
}

/// An entry as its spelling and its word.
pub open spec fn entry_view(e: (Chord, String)) -> (Seq<char>, Seq<char>) {
    (e.0@, e.1@)
}

/// A dictionary from chords to words, in ascending order of the chords' spellings.
pub struct Chords {
    entries: Vec<(Chord, String)>,
}

impl View for Chords {
    type V = Seq<(Seq<char>, Seq<char>)>;

    /// The (spelling, word) entries in ascending order.
    closed spec fn view(&self) -> Seq<(Seq<char>, Seq<char>)> {
        self.entries@.map_values(|e: (Chord, String)| entry_view(e))
    }
}

impl Chords {
    /// Entries strictly ascending by spelling, each chord canonical.
    pub closed spec fn wf(&self) -> bool {
        &&& ascending_entries(self@)
        &&& forall|i: int| 0 <= i < self.entries@.len() ==> (#[trigger] self.entries@[i]).0.wf()
    }

    /// The empty dictionary.
    pub fn new() -> (r: Chords)
        ensures
            r.wf(),
            r@ == Seq::<(Seq<char>, Seq<char>)>::empty(),
    {
        let r = Chords { entries: Vec::new() };
        assert(r@ =~= Seq::<(Seq<char>, Seq<char>)>::empty());
        r
    }

    /// Where the entry for `c` stands or would stand, and whether it is there.
    fn locate(&self, c: &Chord) -> (r: (usize, bool))
        requires
            self.wf(),
        ensures
            r.0 == first_not_before(self@, c@),
            r.1 == (r.0 < self@.len() && self@[r.0 as int].0 == c@),
    {
        let mut i: usize = 0;
        while i < self.entries.len()
            invariant
                self.wf(),
                i <= self.entries.len(),
                self@.len() == self.entries.len(),
                forall|j: int| 0 <= j < i ==> text_less(self@[j].0, c@),
            decreases self.entries.len() - i,
        {
            let o = compare_text(self.entries[i].0.as_str(), c.as_str());
            assert(self@[i as int].0 == self.entries@[i as int].0@);
            if o != -1 {
                proof {
                    lemma_first_not_before_at(self@, c@, i as int);
                }
                return (i, o == 0);
            }
            i = i + 1;
        }
        proof {
            lemma_first_not_before_at(self@, c@, i as int);
        }
        (i, false)
    }

    /// Maps `chord` to `word`, and returns the word that it replaced, if any.
    pub fn insert(&mut self, chord: Chord, word: String) -> (r: Option<String>)
        requires
            old(self).wf(),
            chord.wf(),
        ensures
            final(self).wf(),
            final(self)@ == upsert(old(self)@, chord@, word@),
            r is None <==> lookup(old(self)@, chord@) is None,
            r matches Some(w) ==> lookup(old(self)@, chord@) == Some(w@),
    {
        let (i, found) = self.locate(&chord);
        proof {
            lemma_upsert(self@, chord@, word@);
            lemma_first_not_before(self@, chord@);
            assert(self@.len() == self.entries@.len());
        }
        let ghost before = self@;
        let ghost new_entry = (chord, word);
        if found {
            let (_, previous) = self.entries.remove(i);
            self.entries.insert(i, (chord, word));
            proof {
                assert(self@ =~= before.update(i as int, entry_view(new_entry)));
            }
            Some(previous)
        } else {
            self.entries.insert(i, (chord, word));
            proof {
                assert(self@ =~= before.insert(i as int, entry_view(new_entry)));
            }
            None
        }
    }

    /// Removes the entry for `chord`, and returns its word, if there was one.
    pub fn remove(&mut self, chord: &Chord) -> (r: Option<String>)
        requires
            old(self).wf(),
        ensures
            final(self).wf(),
            final(self)@ == delete(old(self)@, chord@),
            r is None <==> lookup(old(self)@, chord@) is None,
            r matches Some(w) ==> lookup(old(self)@, chord@) == Some(w@),
    {
        let (i, found) = self.locate(chord);
        let ghost before = self@;
        if found {
            let (_, previous) = self.entries.remove(i);
            proof {
                assert(self@ =~= before.remove(i as int));
                assert forall|a: int, b: int| 0 <= a < b < self@.len() implies text_less(
                    self@[a].0,
                    self@[b].0,
                ) by {
                    if a >= i {
                        assert(self@[a] == before[a + 1]);
                    }
                    if b >= i {
                        assert(self@[b] == before[b + 1]);
                    }
                }
                assert forall|j: int| 0 <= j < self.entries@.len() implies (
                #[trigger] self.entries@[j]).0.wf() by {
                    if j >= i {
                        assert(self.entries@[j] == old(self).entries@[j + 1]);
                    }
                }
            }
            Some(previous)
        } else {
            None
        }
    }

    /// A copy of every entry, in ascending order of the chords' spellings.
    pub fn iter(&self) -> (r: Vec<(Chord, String)>)
        requires
            self.wf(),
        ensures
            r@.len() == self@.len(),
            forall|i: int|
                0 <= i < r@.len() ==> (#[trigger] r@[i]).0@ == self@[i].0 && r@[i].1@
                    == self@[i].1 && r@[i].0.wf(),
            forall|i: int, j: int| 0 <= i < j < r@.len() ==> text_less(r@[i].0@, r@[j].0@),
    {
        let mut r: Vec<(Chord, String)> = Vec::new();
        let mut i: usize = 0;
        while i < self.entries.len()
            invariant
                self.wf(),
                i <= self.entries.len(),
                self@.len() == self.entries.len(),
                r@.len() == i,
                forall|j: int|
                    0 <= j < i ==> (#[trigger] r@[j]).0@ == self@[j].0 && r@[j].1@ == self@[j].1
                        && r@[j].0.wf(),
            decreases self.entries.len() - i,
        {
            let chord = self.entries[i].0.duplicate();
            let word = self.entries[i].1.clone();
            assert(self.entries@[i as int].0.wf());
            r.push((chord, word));
            i = i + 1;
        }
        r
    }

    /// The text form: a line `CHORD: word` for each entry, in order.
    pub fn to_text(&self) -> (r: String)
        requires
            self.wf(),
        ensures
            r@ == save_text(self@),
    {
        let mut r = String::new();
        let mut i: usize = 0;
        while i < self.entries.len()
            invariant
                i <= self.entries.len(),
                self@.len() == self.entries.len(),
                r@ == save_text(self@.subrange(0, i as int)),
            decreases self.entries.len() - i,
        {
            let ghost before = r@;
            r.append(self.entries[i].0.as_str());
            push_char(&mut r, ':');
            push_char(&mut r, ' ');
            r.append(self.entries[i].1.as_str());
            push_char(&mut r, '\n');
            proof {
                let s = self@.subrange(0, i + 1);
                assert(s.drop_last() =~= self@.subrange(0, i as int));
                assert(r@ =~= before + line_of(s.last()));
            }
            i = i + 1;
        }
        assert(self@.subrange(0, i as int) =~= self@);
        r
    }

    /// Reads a text form. Lines without a `:`, or whose chord does not parse,
    /// are skipped; a later line for a chord replaces an earlier one.
    pub fn from_text(text: &str) -> (r: Chords)
        ensures
            r.wf(),
            r@ == load_text(text@),
    {
        let cs = chars_of(text);
        let end = cs.len();
        let mut d = Chords::new();
        let mut line_start: usize = 0;
        let mut i: usize = 0;
        assert(cs@.subrange(0, 0) =~= Seq::<char>::empty());
        loop
            invariant
                line_start <= i <= end,
                end == cs@.len(),
                cs@ == text@,
                forall|m: int| line_start <= m < i ==> cs@[m] != '\n',
                d.wf(),
                ({
                    let ls = split_on(cs@.subrange(0, i as int), '\n');
                    &&& ls.len() >= 1
                    &&& ls.last() == cs@.subrange(line_start as int, i as int)
                    &&& d@ == load_lines(ls.drop_last())
                }),
            decreases end - i,
        {
            let ghost prefix = cs@.subrange(0, i as int);
            let ghost ls = split_on(prefix, '\n');
            if i == end || cs[i] == '\n' {
                let ghost before = d@;
                read_line(&cs, line_start, i, &mut d);
                proof {
                    lemma_split_on_len(prefix, '\n');
                    assert(ls.drop_last().push(ls.last()) =~= ls);
                    assert(d@ == load_lines(ls));
                }
                if i == end {
                    assert(prefix =~= text@);
                    return d;
                }
                proof {
                    assert(cs@.subrange(0, i + 1).drop_last() =~= prefix);
                    assert(split_on(cs@.subrange(0, i + 1), '\n') == ls.push(Seq::<char>::empty()));
                    assert(ls.push(Seq::<char>::empty()).drop_last() =~= ls);
                    assert(cs@.subrange((i + 1) as int, (i + 1) as int) =~= Seq::<char>::empty());
                }
                line_start = i + 1;
            } else {
                proof {
                    lemma_split_on_len(prefix, '\n');
                    assert(cs@.subrange(0, i + 1).drop_last() =~= prefix);
                    let nls = split_on(cs@.subrange(0, i + 1), '\n');
                    assert(nls == ls.update(ls.len() - 1, ls.last().push(cs@[i as int])));
                    assert(nls.drop_last() =~= ls.drop_last());
                    assert(nls.last() =~= cs@.subrange(line_start as int, i + 1));
                }
            }
            i = i + 1;
        }
    }
}

/// Adds the entry that the line `cs[start..end]` holds, if it holds one.
fn read_line(cs: &Vec<char>, start: usize, end: usize, d: &mut Chords)
    requires
        start <= end <= cs.len(),
        old(d).wf(),
    ensures
        final(d).wf(),
        final(d)@ == (match parse_line(cs@.subrange(start as int, end as int)) {
            Some(e) => upsert(old(d)@, e.0, e.1),
            None => old(d)@,
        }),
{
    let ghost line = cs@.subrange(start as int, end as int);
    let mut c = start;
    while c < end && cs[c] != ':'
        invariant
            start <= c <= end <= cs.len(),
            forall|m: int| start <= m < c ==> cs@[m] != ':',
        decreases end - c,
    {
        c = c + 1;
    }
    proof {
        lemma_index_of_at(line, ':', c - start);
    }
    if c == end {
        return;
    }
    assert(line.subrange(0, c - start) =~= cs@.subrange(start as int, c as int));
    assert(line.subrange(c - start + 1, line.len() as int) =~= cs@.subrange(c + 1, end as int));
    match parse_range(cs, start, c) {
        Some(keys) => {
            let (a, b) = trim_bounds(cs, c + 1, end);
            let word = string_of(cs, a, b);
            let chord = Chord::from_keys(keys);
            d.insert(chord, word);
        },
        None => {},
    }
}

/// The characters `cs[a..b]` as a string.
fn string_of(cs: &Vec<char>, a: usize, b: usize) -> (r: String)
    requires
        a <= b <= cs.len(),
    ensures
        r@ == cs@.subrange(a as int, b as int),
{
    let mut r = String::new();
    let mut i = a;
    while i < b
        invariant
            a <= i <= b <= cs.len(),
            r@ == cs@.subrange(a as int, i as int),
        decreases b - i,
    {
        push_char(&mut r, cs[i]);
        assert(r@ =~= cs@.subrange(a as int, i + 1));
        i = i + 1;
    }
    r
}

proof fn lemma_index_of_at(l: Seq<char>, c: char, i: int)
    requires
        0 <= i <= l.len(),
        forall|j: int| 0 <= j < i ==> l[j] != c,
        i < l.len() ==> l[i] == c,
    ensures
        index_of(l, c) == i,
    decreases l.len(),
{
    if l.len() > 0 && i > 0 {
        lemma_index_of_at(l.drop_first(), c, i - 1);
    }
}

proof fn lemma_first_not_before(s: Seq<(Seq<char>, Seq<char>)>, k: Seq<char>)
    ensures
        first_not_before(s, k) <= s.len(),
        forall|j: int| 0 <= j < first_not_before(s, k) ==> text_less(s[j].0, k),
        first_not_before(s, k) < s.len() ==> !text_less(s[first_not_before(s, k) as int].0, k),
    decreases s.len(),
{
    if s.len() > 0 && text_less(s[0].0, k) {
        lemma_first_not_before(s.drop_first(), k);
        assert forall|j: int| 0 <= j < first_not_before(s, k) implies text_less(s[j].0, k) by {
            if j > 0 {
                assert(s[j] == s.drop_first()[j - 1]);
            }
        }
    }
}

proof fn lemma_first_not_before_at(s: Seq<(Seq<char>, Seq<char>)>, k: Seq<char>, i: int)
    requires
        0 <= i <= s.len(),
        forall|j: int| 0 <= j < i ==> text_less(s[j].0, k),
        i < s.len() ==> !text_less(s[i].0, k),
    ensures
        first_not_before(s, k) == i,
    decreases s.len(),
{
    if s.len() > 0 && i > 0 {
        lemma_first_not_before_at(s.drop_first(), k, i - 1);
    }
}

/// Mapping a spelling to a word keeps the entries ascending.
pub proof fn lemma_upsert(s: Seq<(Seq<char>, Seq<char>)>, k: Seq<char>, w: Seq<char>)
    requires
        ascending_entries(s),
    ensures
        ascending_entries(upsert(s, k, w)),
{
    lemma_first_not_before(s, k);
    let i = first_not_before(s, k) as int;
    let r = upsert(s, k, w);
    if i < s.len() && s[i].0 == k {
        assert forall|a: int, b: int| 0 <= a < b < r.len() implies text_less(r[a].0, r[b].0) by {
            assert(r[a].0 == s[a].0);
            assert(r[b].0 == s[b].0);
        }
    } else {
        if i < s.len() {
            lemma_text_less_total(s[i].0, k);
        }
        assert forall|j: int| i <= j < s.len() implies text_less(k, s[j].0) by {
            if j > i {
                lemma_text_less_transitive(k, s[i].0, s[j].0);
            }
        }
        assert forall|a: int, b: int| 0 <= a < b < r.len() implies text_less(r[a].0, r[b].0) by {
            if b < i {
            } else if b == i {
            } else if a < i {
                lemma_text_less_transitive(s[a].0, k, s[b - 1].0);
            } else if a == i {
            } else {
            }
        }
    }
}

/// A line of the text form without its line feed.
pub open spec fn line_body(e: (Seq<char>, Seq<char>)) -> Seq<char> {
    e.0 + seq![':', ' '] + e.1
}

/// The lines of the text form, without line feeds.
pub open spec fn line_bodies(s: Seq<(Seq<char>, Seq<char>)>) -> Seq<Seq<char>> {
    s.map_values(|e: (Seq<char>, Seq<char>)| line_body(e))
}

/// An entry that the text form carries unchanged: a non-empty spelling of
/// keys without `:`, and a trimmed word on one line.
pub open spec fn savable(e: (Seq<char>, Seq<char>), k: Seq<char>) -> bool {
    &&& valid_keys(k)
    &&& k.len() > 0
    &&& render(k) == e.0
    &&& !e.0.contains(':')
    &&& is_trimmed(e.1)
    &&& !e.1.contains('\n')
}

proof fn lemma_line_body_one_line(e: (Seq<char>, Seq<char>), k: Seq<char>)
    requires
        savable(e, k),
    ensures
        forall|i: int| 0 <= i < line_body(e).len() ==> line_body(e)[i] != '\n',
{
    lemma_render_chars(k);
    let l = line_body(e);
    assert forall|i: int| 0 <= i < l.len() implies l[i] != '\n' by {
        if i < e.0.len() {
            assert(l[i] == render(k)[i]);
            if k.contains(render(k)[i]) {
                let m = choose|m: int| 0 <= m < k.len() && k[m] == render(k)[i];
                assert(is_key(k[m]));
                assert(is_white('\n'));
            }
        } else if i >= e.0.len() + 2 {
            assert(l[i] == e.1[i - e.0.len() - 2]);
        }
    }
}

proof fn lemma_split_save(s: Seq<(Seq<char>, Seq<char>)>, ks: Seq<Seq<char>>)
    requires
        ks.len() == s.len(),
        forall|i: int| 0 <= i < s.len() ==> savable(s[i], ks[i]),
    ensures
        split_on(save_text(s), '\n') == line_bodies(s).push(Seq::<char>::empty()),
    decreases s.len(),
{
    if s.len() == 0 {
        assert(line_bodies(s).push(Seq::<char>::empty()) =~= seq![Seq::<char>::empty()]);
    } else {
        let s0 = s.drop_last();
        let e = s.last();
        assert(savable(e, ks.last()));
        lemma_split_save(s0, ks.drop_last());
        let t = save_text(s0);
        let l = line_body(e);
        lemma_line_body_one_line(e, ks.last());
        lemma_split_append(t, l, '\n');
        assert(save_text(s) =~= (t + l).push('\n'));
        assert((t + l).push('\n').drop_last() =~= t + l);
        let b0 = line_bodies(s0).push(Seq::<char>::empty());
        assert(Seq::<char>::empty() + l =~= l);
        assert(split_on(t + l, '\n') =~= line_bodies(s0).push(l));
        assert(line_bodies(s) =~= line_bodies(s0).push(l));
    }
}

proof fn lemma_parse_line_body(e: (Seq<char>, Seq<char>), k: Seq<char>)
    requires
        savable(e, k),
    ensures
        parse_line(line_body(e)) == Some(e),
{
    let l = line_body(e);
    let n = e.0.len() as int;
    assert forall|j: int| 0 <= j < n implies l[j] != ':' by {
        assert(l[j] == e.0[j]);
    }
    lemma_index_of_at(l, ':', n);
    assert(l.subrange(0, n) =~= e.0);
    lemma_parse_render(k);
    assert(l.subrange(n + 1, l.len() as int) =~= seq![' '] + e.1);
    lemma_trim_after_space(e.1);
}

proof fn lemma_load_bodies(s: Seq<(Seq<char>, Seq<char>)>, ks: Seq<Seq<char>>)
    requires
        ascending_entries(s),
        ks.len() == s.len(),
        forall|i: int| 0 <= i < s.len() ==> savable(s[i], ks[i]),
    ensures
        load_lines(line_bodies(s)) == s,
    decreases s.len(),
{
    if s.len() > 0 {
        let s0 = s.drop_last();
        let e = s.last();
        lemma_load_bodies(s0, ks.drop_last());
        assert(line_bodies(s).drop_last() =~= line_bodies(s0));
        lemma_parse_line_body(e, ks.last());
        lemma_first_not_before_at(s0, e.0, s0.len() as int);
        assert(s0.insert(s0.len() as int, e) =~= s);
    }
}

/// Saving a dictionary and loading the text back gives the same entries, in
/// the same order, where every chord has keys and none is `:`, and every word
/// is trimmed and on one line.
pub proof fn lemma_save_load(d: Chords)
    requires
        d.wf(),
        forall|i: int|
            0 <= i < d@.len() ==> (#[trigger] d@[i]).0.len() > 0 && !d@[i].0.contains(':')
                && is_trimmed(d@[i].1) && !d@[i].1.contains('\n'),
    ensures
        load_text(save_text(d@)) == d@,
{
    let s = d@;
    let ks = d.entries@.map_values(|e: (Chord, String)| e.0.keys());
    assert forall|i: int| 0 <= i < s.len() implies savable(s[i], ks[i]) by {
        assert(d.entries@[i].0.wf());
        assert(s[i] == entry_view(d.entries@[i]));
        lemma_render_len(ks[i]);
    }
    lemma_split_save(s, ks);
    lemma_load_bodies(s, ks);
    assert(line_bodies(s).push(Seq::<char>::empty()).drop_last() =~= line_bodies(s));
    assert(index_of(Seq::<char>::empty(), ':') == 0);
}

/// In ascending entries, `lookup` finds the word of the entry with the given
/// spelling, and nothing where there is none.
pub proof fn lemma_lookup(s: Seq<(Seq<char>, Seq<char>)>, k: Seq<char>)
    requires
        ascending_entries(s),
    ensures
        forall|i: int| 0 <= i < s.len() && s[i].0 == k ==> lookup(s, k) == Some(s[i].1),
        (forall|i: int| 0 <= i < s.len() ==> s[i].0 != k) ==> lookup(s, k) is None,
{
    lemma_first_not_before(s, k);
    let f = first_not_before(s, k) as int;
    assert forall|i: int| 0 <= i < s.len() && s[i].0 == k implies lookup(s, k) == Some(s[i].1) by {
        lemma_text_less_irreflexive(k);
        if i > f {
            lemma_text_less_total(s[f].0, k);
        }
    }
}

} // verus!
