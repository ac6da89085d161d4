//! Chords: sets of keys in one canonical spelling.
use vstd::prelude::*;

use crate::text::{
    chars_of, is_trimmed, is_white, lemma_split_on_len, push_char, split_on, trim, trim_end, trim_start, white,
};

verus! {

/// A lower-case ASCII letter.
pub open spec fn is_lower_ascii(c: char) -> bool {
    'a' <= c && c <= 'z'
}

/// A key that single-key insertion accepts: an upper-case ASCII letter.
pub open spec fn is_letter(c: char) -> bool {
    'A' <= c && c <= 'Z'
}

/// The ASCII upper-case form of `c`; every other character stays as it is.
pub open spec fn upper(c: char) -> char {
    if is_lower_ascii(c) {
        ((c as u8) - 32) as u8 as char
    } else {
        c
    }
}

/// A character that can stand as a key of a chord: no delimiter, no white
/// space, no lower-case ASCII letter.
pub open spec fn is_key(c: char) -> bool {
    c != '+' && !is_white(c) && !is_lower_ascii(c)
}

/// Strictly ascending by character code, hence without repetition.
pub open spec fn ascending(k: Seq<char>) -> bool {
    forall|i: int, j: int| 0 <= i < j < k.len() ==> k[i] < k[j]
}

/// A canonical key sequence: ascending keys.
pub open spec fn valid_keys(k: Seq<char>) -> bool {
    ascending(k) && forall|i: int| 0 <= i < k.len() ==> is_key(#[trigger] k[i])
}

/// The keys joined by `+`; the empty sequence renders as the empty string.
pub open spec fn render(k: Seq<char>) -> Seq<char>
    decreases k.len(),
{
    if k.len() == 0 {
        Seq::<char>::empty()
    } else if k.len() == 1 {
        seq![k[0]]
    } else {
        render(k.drop_last()).push('+').push(k.last())
    }
}

/// Index of the first key that is not below `c`.
pub open spec fn first_not_below(k: Seq<char>, c: char) -> nat
    decreases k.len(),
{
    if k.len() == 0 || k[0] >= c {
        0
    } else {
        1 + first_not_below(k.drop_first(), c)
    }
}

/// `k` with `c` put in its ascending place, or `k` itself where `c` is there.
pub open spec fn insert_key(k: Seq<char>, c: char) -> Seq<char> {
    let i = first_not_below(k, c) as int;
    if i < k.len() && k[i] == c {
        k
    } else {
        k.insert(i, c)
    }
}

/// The keys `cs` inserted one after the other into an empty chord.
pub open spec fn insert_keys(cs: Seq<char>) -> Seq<char>
    decreases cs.len(),
{
    if cs.len() == 0 {
        Seq::<char>::empty()
    } else {
        insert_key(insert_keys(cs.drop_last()), cs.last())
    }
}

/// A `+`-separated piece of a chord expression is a key when trimming leaves one character.
pub open spec fn token_ok(seg: Seq<char>) -> bool {
    trim(seg).len() == 1
}

/// The key that a piece names, upper-cased.
pub open spec fn token_key(seg: Seq<char>) -> char {
    upper(trim(seg)[0])
}

/// The key of each piece.
pub open spec fn token_keys(segs: Seq<Seq<char>>) -> Seq<char> {
    segs.map_values(|seg: Seq<char>| token_key(seg))
}

/// The keys that a chord expression names, or `None` where a piece is not one character.
pub open spec fn parse_keys(s: Seq<char>) -> Option<Seq<char>> {
    let segs = split_on(s, '+');
    if forall|j: int| 0 <= j < segs.len() ==> token_ok(#[trigger] segs[j]) {
        Some(insert_keys(token_keys(segs)))
    } else {
        None
    }
}

/// Why a chord expression was refused.
#[derive(Clone, Copy, Debug, PartialEq, Eq)]
pub enum ChordError {
    /// A `+`-separated piece is not exactly one character after trimming.
    InvalidKeyToken,
}

/// A set of keys, kept as its ascending key sequence and its canonical
/// spelling: the keys joined by `+`. Chords compare as their spellings do.
#[derive(Clone, Debug, PartialEq, Eq, PartialOrd, Ord, Hash)]
pub struct Chord {
    text: String,
    keys: Vec<char>,
}

impl View for Chord {
    type V = Seq<char>;

    /// The canonical spelling.
    closed spec fn view(&self) -> Seq<char> {
        self.text@
    }
}

impl Chord {
    /// The keys in ascending order.
    pub closed spec fn keys(&self) -> Seq<char> {
        self.keys@
    }

    /// The keys are canonical and the spelling is theirs.
    pub open spec fn wf(&self) -> bool {
        valid_keys(self.keys()) && self@ == render(self.keys())
    }

    /// The chord without keys.
    pub fn new() -> (r: Chord)
        ensures
            r.wf(),
            r.keys() == Seq::<char>::empty(),
            r@ == Seq::<char>::empty(),
    {
        Chord { text: String::new(), keys: Vec::new() }
    }

    /// Adds `key`, upper-cased, in its ascending place. Refuses, and leaves the
    /// chord as it is, a key that is not a letter or that the chord holds.
    pub fn insert(&mut self, key: char) -> (r: bool)
        requires
            old(self).wf(),
        ensures
            final(self).wf(),
            r == (is_letter(upper(key)) && !old(self).keys().contains(upper(key))),
            r ==> final(self).keys() == insert_key(old(self).keys(), upper(key)),
            r ==> final(self).keys().to_set() == old(self).keys().to_set().insert(upper(key)),
            !r ==> *final(self) == *old(self),
    {
        let k = upper_ascii(key);
        if !('A' <= k && k <= 'Z') {
            return false;
        }
        proof {
            lemma_insert_key(self.keys@, k);
        }
        let ghost before = self.keys@;
        let mut keys = self.keys.clone();
        proof {
            assert(keys@ =~= before);
        }
        if !insert_sorted(&mut keys, k) {
            return false;
        }
        self.text = render_keys(&keys);
        self.keys = keys;
        true
    }

    /// The canonical spelling.
    pub fn as_str(&self) -> (r: &str)
        ensures
            r@ == self@,
    {
        self.text.as_str()
    }

    /// Removes every key.
    pub fn clear(&mut self)
        ensures
            final(self).wf(),
            final(self).keys() == Seq::<char>::empty(),
            final(self)@ == Seq::<char>::empty(),
    {
        self.text = String::new();
        self.keys = Vec::new();
    }

    /// Whether the chord has no keys.
    pub fn is_empty(&mut self) -> (r: bool)
        requires
            old(self).wf(),
        ensures
            *final(self) == *old(self),
            r == (old(self).keys().len() == 0),
            r == (old(self)@.len() == 0),
    {
        proof {
            lemma_render_len(self.keys@);
        }
        self.keys.len() == 0
    }

    /// The chord with the given ascending keys.
    pub(crate) fn from_keys(keys: Vec<char>) -> (r: Chord)
        requires
            valid_keys(keys@),
        ensures
            r.wf(),
            r.keys() == keys@,
    {
        Chord { text: render_keys(&keys), keys }
    }

    /// A copy of the chord.
    pub fn duplicate(&self) -> (r: Chord)
        ensures
            r@ == self@,
            r.keys() == self.keys(),
    {
        let keys = self.keys.clone();
        proof {
            assert(keys@ =~= self.keys@);
        }
        Chord { text: self.text.clone(), keys }
    }

    /// Reads a chord expression: keys separated by `+`, each trimmed of white
    /// space, upper-cased, and merged where repeated. Fails where a piece is
    /// not exactly one character.
    pub fn parse(s: &str) -> (r: Result<Chord, ChordError>)
        ensures
            parse_keys(s@) is None <==> r is Err,
            r matches Ok(c) ==> c.wf() && parse_keys(s@) == Some(c.keys()),
    {
        let cs = chars_of(s);
        match parse_range(&cs, 0, cs.len()) {
            Some(keys) => {
                assert(cs@.subrange(0, cs@.len() as int) =~= s@);
                Ok(Chord { text: render_keys(&keys), keys })
            },
            None => {
                assert(cs@.subrange(0, cs@.len() as int) =~= s@);
                Err(ChordError::InvalidKeyToken)
            },
        }
    }
}

impl Default for Chord {
    fn default() -> (r: Chord)
        ensures
            r.wf(),
            r@ == Seq::<char>::empty(),
    {
        Chord::new()
    }
}

impl core::str::FromStr for Chord {
    type Err = ChordError;

    fn from_str(s: &str) -> Result<Chord, ChordError> {
        Chord::parse(s)
    }
}

/// The ASCII upper-case form of `c`.
pub fn upper_ascii(c: char) -> (r: char)
    ensures
        r == upper(c),
{
    if 'a' <= c && c <= 'z' {
        ((c as u8) - 32) as char
    } else {
        c
    }
}

/// A spelling of `n > 0` keys has `2n - 1` characters.
pub proof fn lemma_render_len(k: Seq<char>)
    ensures
        k.len() == 0 ==> render(k).len() == 0,
        k.len() > 0 ==> render(k).len() == 2 * k.len() - 1,
    decreases k.len(),
{
    if k.len() > 1 {
        lemma_render_len(k.drop_last());
    }
}

proof fn lemma_first_not_below(k: Seq<char>, c: char)
    ensures
        first_not_below(k, c) <= k.len(),
        forall|j: int| 0 <= j < first_not_below(k, c) ==> k[j] < c,
        first_not_below(k, c) < k.len() ==> k[first_not_below(k, c) as int] >= c,
    decreases k.len(),
{
    if k.len() > 0 && k[0] < c {
        lemma_first_not_below(k.drop_first(), c);
        assert forall|j: int| 0 <= j < first_not_below(k, c) implies k[j] < c by {
            if j > 0 {
                assert(k[j] == k.drop_first()[j - 1]);
            }
        }
    }
}

proof fn lemma_first_not_below_at(k: Seq<char>, c: char, i: int)
    requires
        0 <= i <= k.len(),
        forall|j: int| 0 <= j < i ==> k[j] < c,
        i < k.len() ==> k[i] >= c,
    ensures
        first_not_below(k, c) == i,
    decreases k.len(),
{
    if k.len() > 0 && i > 0 {
        lemma_first_not_below_at(k.drop_first(), c, i - 1);
    }
}

/// Inserting a key keeps a key sequence ascending and adds the key to its set.
pub proof fn lemma_insert_key(k: Seq<char>, c: char)
    requires
        ascending(k),
    ensures
        ascending(insert_key(k, c)),
        insert_key(k, c).to_set() == k.to_set().insert(c),
        k.contains(c) <==> insert_key(k, c) == k,
        valid_keys(k) && is_key(c) ==> valid_keys(insert_key(k, c)),
{
    lemma_first_not_below(k, c);
    let i = first_not_below(k, c) as int;
    let r = insert_key(k, c);
    if i < k.len() && k[i] == c {
        assert(k.contains(c));
        assert(k.to_set().insert(c) =~= k.to_set());
    } else {
        assert forall|j: int| i <= j < k.len() implies k[j] > c by {
            if j > i {
                assert(k[i] < k[j]);
            }
        }
        assert(!k.contains(c));
        assert forall|x: char| r.contains(x) <==> k.contains(x) || x == c by {
            if r.contains(x) {
                let m = choose|m: int| 0 <= m < r.len() && r[m] == x;
                if m < i {
                    assert(k[m] == x);
                } else if m > i {
                    assert(k[m - 1] == x);
                }
            }
            if k.contains(x) {
                let m = choose|m: int| 0 <= m < k.len() && k[m] == x;
                if m < i {
                    assert(r[m] == x);
                } else {
                    assert(r[m + 1] == x);
                }
            }
            if x == c {
                assert(r[i] == c);
            }
        }
        assert(r.to_set() =~= k.to_set().insert(c));
        assert(r.len() == k.len() + 1);
        assert(r != k);
    }
}

/// Inserts `c` into an ascending key vector; reports whether it was absent.
fn insert_sorted(keys: &mut Vec<char>, c: char) -> (r: bool)
    requires
        ascending(old(keys)@),
    ensures
        final(keys)@ == insert_key(old(keys)@, c),
        r == !old(keys)@.contains(c),
{
    proof {
        lemma_insert_key(keys@, c);
        lemma_first_not_below(keys@, c);
    }
    let mut i: usize = 0;
    while i < keys.len() && keys[i] < c
        invariant
            i <= keys.len(),
            forall|j: int| 0 <= j < i ==> keys@[j] < c,
        decreases keys.len() - i,
    {
        i = i + 1;
    }
    proof {
        lemma_first_not_below_at(keys@, c, i as int);
    }
    if i < keys.len() && keys[i] == c {
        return false;
    }
    keys.insert(i, c);
    true
}

/// The canonical spelling of a key sequence.
fn render_keys(keys: &Vec<char>) -> (r: String)
    ensures
        r@ == render(keys@),
{
    let mut r = String::new();
    let mut i: usize = 0;
    while i < keys.len()
        invariant
            i <= keys.len(),
            r@ == render(keys@.subrange(0, i as int)),
        decreases keys.len() - i,
    {
        let ghost prefix = keys@.subrange(0, i + 1);
        assert(prefix.drop_last() =~= keys@.subrange(0, i as int));
        if i > 0 {
            push_char(&mut r, '+');
        }
        push_char(&mut r, keys[i]);
        proof {
            if i == 0 {
                assert(r@ =~= seq![prefix[0]]);
            }
        }
        i = i + 1;
    }
    assert(keys@.subrange(0, i as int) =~= keys@);
    r
}

/// The bounds of `cs[start..end]` once trimmed of white space.
pub(crate) fn trim_bounds(cs: &Vec<char>, start: usize, end: usize) -> (r: (usize, usize))
    requires
        start <= end <= cs.len(),
    ensures
        start <= r.0 <= r.1 <= end,
        trim(cs@.subrange(start as int, end as int)) == cs@.subrange(r.0 as int, r.1 as int),
{
    let mut a = start;
    while a < end && white(cs[a])
        invariant
            start <= a <= end <= cs.len(),
            trim_start(cs@.subrange(start as int, end as int)) == trim_start(
                cs@.subrange(a as int, end as int),
            ),
        decreases end - a,
    {
        assert(cs@.subrange(a as int, end as int).drop_first() =~= cs@.subrange(
            a + 1,
            end as int,
        ));
        a = a + 1;
    }
    let mut b = end;
    while b > a && white(cs[b - 1])
        invariant
            start <= a <= b <= end <= cs.len(),
            trim_end(cs@.subrange(a as int, end as int)) == trim_end(
                cs@.subrange(a as int, b as int),
            ),
        decreases b - a,
    {
        assert(cs@.subrange(a as int, b as int).drop_last() =~= cs@.subrange(
            a as int,
            b - 1,
        ));
        b = b - 1;
    }
    (a, b)
}

/// The keys named by the chord expression `cs[start..end]`.
pub(crate) fn parse_range(cs: &Vec<char>, start: usize, end: usize) -> (r: Option<Vec<char>>)
    requires
        start <= end <= cs.len(),
    ensures
        r is None <==> parse_keys(cs@.subrange(start as int, end as int)) is None,
        r matches Some(k) ==> parse_keys(cs@.subrange(start as int, end as int)) == Some(k@)
            && valid_keys(k@),
{
    let mut keys: Vec<char> = Vec::new();
    let mut seg_start = start;
    let mut i = start;
    assert(cs@.subrange(start as int, start as int) =~= Seq::<char>::empty());
    assert(token_keys(split_on(Seq::<char>::empty(), '+').drop_last()) =~= Seq::<char>::empty());
    loop
        invariant
            start <= seg_start <= i <= end,
            end <= cs.len(),
            forall|m: int| seg_start <= m < i && m < end ==> cs@[m] != '+',
            ({
                let segs = split_on(cs@.subrange(start as int, i as int), '+');
                &&& segs.len() >= 1
                &&& segs.last() == cs@.subrange(seg_start as int, i as int)
                &&& forall|j: int| 0 <= j < segs.len() - 1 ==> token_ok(#[trigger] segs[j])
                &&& keys@ == insert_keys(token_keys(segs.drop_last()))
                &&& valid_keys(keys@)
            }),
        decreases end - i,
    {
        let ghost prefix = cs@.subrange(start as int, i as int);
        let ghost segs = split_on(prefix, '+');
        proof {
            lemma_split_on_len(prefix, '+');
        }
        if i == end || cs[i] == '+' {
            let (a, b) = trim_bounds(cs, seg_start, i);
            if b - a != 1 {
                proof {
                    let ghost full = split_on(cs@.subrange(start as int, end as int), '+');
                    let whole = cs@.subrange(start as int, end as int);
                    if i < end {
                        lemma_split_prefix(whole, (i - start) as int, whole.len() as int, '+');
                        assert(whole.subrange(0, (i - start) as int) =~= prefix);
                        assert(whole.subrange(0, whole.len() as int) =~= whole);
                        assert(full[segs.len() - 1] == segs.last());
                        assert(!token_ok(full[segs.len() - 1]));
                    } else {
                        assert(cs@.subrange(start as int, end as int) =~= prefix);
                        assert(!token_ok(full[segs.len() - 1]));
                    }
                }
                return None;
            }
            let k = upper_ascii(cs[a]);
            proof {
                lemma_insert_key(keys@, k);
                let t = trim(segs.last());
                assert(t =~= cs@.subrange(a as int, b as int));
                assert(t[0] == cs@[a as int]);
                lemma_trim_ends(segs.last());
                assert(cs@[a as int] != '+');
                assert(!is_white(cs@[a as int]));
                assert(is_key(k));
                assert(token_key(segs.last()) == k);
            }
            insert_sorted(&mut keys, k);
            proof {
                assert(token_keys(segs).drop_last() =~= token_keys(segs.drop_last()));
                assert(token_keys(segs).last() == k);
                if i < end {
                    assert(cs@.subrange(start as int, i + 1).drop_last() =~= prefix);
                    let nsegs = split_on(cs@.subrange(start as int, i + 1), '+');
                    assert(nsegs == segs.push(Seq::<char>::empty()));
                    assert(nsegs.drop_last() =~= segs);
                    assert(cs@.subrange((i + 1) as int, (i + 1) as int) =~= Seq::<char>::empty());
                } else {
                    assert(prefix =~= cs@.subrange(start as int, end as int));
                    assert(token_keys(segs).len() > 0);
                }
            }
            if i == end {
                return Some(keys);
            }
            seg_start = i + 1;
        } else {
            proof {
                assert(cs@.subrange(start as int, i + 1).drop_last() =~= prefix);
                let nsegs = split_on(cs@.subrange(start as int, i + 1), '+');
                assert(nsegs == segs.update(segs.len() - 1, segs.last().push(cs@[i as int])));
                assert(nsegs.drop_last() =~= segs.drop_last());
                assert(nsegs.last() =~= cs@.subrange(seg_start as int, i + 1));
            }
        }
        i = i + 1;
    }
}

/// Trimming leaves no white space at either end.
proof fn lemma_trim_ends(s: Seq<char>)
    ensures
        trim(s).len() > 0 ==> !is_white(trim(s)[0]) && !is_white(trim(s).last()),
{
    lemma_trim_start_first(s);
    lemma_trim_end_sub(trim_start(s));
}

proof fn lemma_trim_start_first(s: Seq<char>)
    ensures
        trim_start(s).len() > 0 ==> !is_white(trim_start(s)[0]),
        trim_start(s).len() <= s.len(),
    decreases s.len(),
{
    if s.len() > 0 && is_white(s[0]) {
        lemma_trim_start_first(s.drop_first());
    }
}

proof fn lemma_trim_end_sub(s: Seq<char>)
    ensures
        trim_end(s).len() <= s.len(),
        trim_end(s) == s.subrange(0, trim_end(s).len() as int),
        trim_end(s).len() > 0 ==> !is_white(trim_end(s).last()),
        trim_end(s).len() > 0 && s.len() > 0 ==> trim_end(s)[0] == s[0],
    decreases s.len(),
{
    if s.len() > 0 && is_white(s.last()) {
        lemma_trim_end_sub(s.drop_last());
        assert(s.drop_last().subrange(0, trim_end(s).len() as int) =~= s.subrange(
            0,
            trim_end(s).len() as int,
        ));
    } else {
        assert(s.subrange(0, s.len() as int) =~= s);
    }
}

/// The pieces of a prefix that ends before a separator are the first
/// pieces of every longer prefix.
proof fn lemma_split_prefix(s: Seq<char>, n: int, m: int, sep: char)
    requires
        0 <= n < m <= s.len(),
        s[n] == sep,
    ensures
        split_on(s.subrange(0, n), sep).len() < split_on(s.subrange(0, m), sep).len(),
        forall|j: int|
            0 <= j < split_on(s.subrange(0, n), sep).len() ==> split_on(s.subrange(0, n), sep)[j]
                == #[trigger] split_on(s.subrange(0, m), sep)[j],
    decreases m,
{
    let q = s.subrange(0, m);
    assert(q.drop_last() =~= s.subrange(0, m - 1));
    lemma_split_on_len(s.subrange(0, n), sep);
    if m > n + 1 {
        lemma_split_prefix(s, n, m - 1, sep);
    }
}

/// Each key as a piece of its own.
pub open spec fn singletons(k: Seq<char>) -> Seq<Seq<char>> {
    k.map_values(|c: char| seq![c])
}

/// Every character of a spelling is a `+` or one of the keys.
pub proof fn lemma_render_chars(k: Seq<char>)
    ensures
        forall|i: int|
            0 <= i < render(k).len() ==> render(k)[i] == '+' || k.contains(#[trigger] render(k)[i]),
    decreases k.len(),
{
    if k.len() == 1 {
        assert(k[0] == render(k)[0]);
    } else if k.len() > 1 {
        let k0 = k.drop_last();
        lemma_render_chars(k0);
        lemma_render_len(k0);
        assert forall|i: int| 0 <= i < render(k).len() implies render(k)[i] == '+' || k.contains(
            #[trigger] render(k)[i],
        ) by {
            let c = render(k)[i];
            if i < render(k0).len() {
                assert(c == render(k0)[i]);
                if k0.contains(c) {
                    let m = choose|m: int| 0 <= m < k0.len() && k0[m] == c;
                    assert(k[m] == c);
                }
            } else if i == render(k).len() - 1 {
                assert(k[k.len() - 1] == c);
            }
        }
    }
}

proof fn lemma_split_render(k: Seq<char>)
    requires
        valid_keys(k),
        k.len() > 0,
    ensures
        split_on(render(k), '+') == singletons(k),
    decreases k.len(),
{
    if k.len() == 1 {
        let r = render(k);
        assert(r.drop_last() =~= Seq::<char>::empty());
        assert(is_key(k[0]));
        assert(r.last() == k[0]);
        assert(split_on(r.drop_last(), '+') == seq![Seq::<char>::empty()]);
        assert(split_on(r, '+') == seq![Seq::<char>::empty()].update(0, Seq::<char>::empty().push(k[0])));
        assert(Seq::<char>::empty().push(k[0]) =~= seq![k[0]]);
        assert(singletons(k)[0] == seq![k[0]]);
        assert(split_on(r, '+') =~= singletons(k));
    } else {
        let k0 = k.drop_last();
        assert(valid_keys(k0)) by {
            assert forall|i: int| 0 <= i < k0.len() implies is_key(#[trigger] k0[i]) by {
                assert(k0[i] == k[i]);
            }
        }
        lemma_split_render(k0);
        let x = render(k0);
        let r = render(k);
        assert(r.drop_last() =~= x.push('+'));
        assert(x.push('+').drop_last() =~= x);
        assert(is_key(k[k.len() - 1]));
        let c = k[k.len() - 1];
        assert(r.last() == c);
        assert(split_on(x.push('+'), '+') == split_on(x, '+').push(Seq::<char>::empty()));
        let p = split_on(x, '+').push(Seq::<char>::empty());
        assert(split_on(r, '+') == p.update(p.len() - 1, Seq::<char>::empty().push(c)));
        assert(Seq::<char>::empty().push(c) =~= seq![c]);
        assert(singletons(k).drop_last() =~= singletons(k0));
        assert(singletons(k).last() == seq![c]);
        assert(split_on(r, '+') =~= singletons(k));
    }
}

proof fn lemma_insert_keys_ascending(k: Seq<char>)
    requires
        ascending(k),
    ensures
        insert_keys(k) == k,
    decreases k.len(),
{
    if k.len() > 0 {
        let k0 = k.drop_last();
        lemma_insert_keys_ascending(k0);
        lemma_first_not_below_at(k0, k.last(), k0.len() as int);
        assert(k0.insert(k0.len() as int, k.last()) =~= k);
    }
}

/// A chord's spelling parses back to the same keys.
pub proof fn lemma_parse_render(k: Seq<char>)
    requires
        valid_keys(k),
        k.len() > 0,
    ensures
        parse_keys(render(k)) == Some(k),
{
    lemma_split_render(k);
    let segs = singletons(k);
    assert forall|j: int| 0 <= j < segs.len() implies token_ok(#[trigger] segs[j]) && token_key(
        segs[j],
    ) == k[j] by {
        assert(is_key(k[j]));
        assert(segs[j] == seq![k[j]]);
        assert(trim(segs[j]) == segs[j]);
    }
    assert(token_keys(segs) =~= k);
    lemma_insert_keys_ascending(k);
}

/// Inserting keys one by one gives the ascending sequence of their set.
pub proof fn lemma_insert_keys(cs: Seq<char>)
    ensures
        ascending(insert_keys(cs)),
        insert_keys(cs).to_set() == cs.to_set(),
    decreases cs.len(),
{
    if cs.len() == 0 {
        assert(insert_keys(cs).to_set() =~= cs.to_set());
    } else {
        let c0 = cs.drop_last();
        lemma_insert_keys(c0);
        lemma_insert_key(insert_keys(c0), cs.last());
        assert(cs =~= c0.push(cs.last()));
        c0.lemma_push_to_set_commute(cs.last());
    }
}

/// Two ascending sequences of the same keys are equal: a key set has one spelling.
pub proof fn lemma_canonical_unique(a: Seq<char>, b: Seq<char>)
    requires
        ascending(a),
        ascending(b),
        a.to_set() == b.to_set(),
    ensures
        a == b,
    decreases a.len(),
{
    if a.len() == 0 || b.len() == 0 {
        if a.len() > 0 {
            assert(a.to_set().contains(a[0]));
        }
        if b.len() > 0 {
            assert(b.to_set().contains(b[0]));
        }
        assert(a =~= b);
    } else {
        // the largest keys agree
        let x = a.last();
        let y = b.last();
        assert(a.to_set().contains(x));
        assert(b.to_set().contains(y));
        assert(b.contains(x));
        assert(a.contains(y));
        let i = choose|i: int| 0 <= i < b.len() && b[i] == x;
        let j = choose|j: int| 0 <= j < a.len() && a[j] == y;
        if i < b.len() - 1 {
            assert(x < y);
            assert(y <= x);
        }
        if j < a.len() - 1 {
            assert(y < x);
        }
        assert(x == y);
        let a0 = a.drop_last();
        let b0 = b.drop_last();
        assert forall|c: char| a0.contains(c) <==> b0.contains(c) by {
            if a0.contains(c) {
                let m = choose|m: int| 0 <= m < a0.len() && a0[m] == c;
                assert(a[m] == c);
                assert(a.to_set().contains(c));
                assert(b.contains(c));
                let n = choose|n: int| 0 <= n < b.len() && b[n] == c;
                assert(c < x);
                assert(n != b.len() - 1);
                assert(b0[n] == c);
            }
            if b0.contains(c) {
                let m = choose|m: int| 0 <= m < b0.len() && b0[m] == c;
                assert(b[m] == c);
                assert(b.to_set().contains(c));
                assert(a.contains(c));
                let n = choose|n: int| 0 <= n < a.len() && a[n] == c;
                assert(c < y);
                assert(n != a.len() - 1);
                assert(a0[n] == c);
            }
        }
        assert(a0.to_set() =~= b0.to_set());
        lemma_canonical_unique(a0, b0);
        assert(a =~= a0.push(x));
        assert(b =~= b0.push(y));
    }
}

/// Parsing normalizes: two chord expressions that name the same set of keys,
/// in whatever order, case or repetition, parse to the same chord.
pub proof fn lemma_parse_normalizes(s: Seq<char>, t: Seq<char>)
    requires
        parse_keys(s) is Some,
        parse_keys(t) is Some,
        token_keys(split_on(s, '+')).to_set() == token_keys(split_on(t, '+')).to_set(),
    ensures
        parse_keys(s) == parse_keys(t),
{
    let ks = token_keys(split_on(s, '+'));
    let kt = token_keys(split_on(t, '+'));
    lemma_insert_keys(ks);
    lemma_insert_keys(kt);
    lemma_canonical_unique(insert_keys(ks), insert_keys(kt));
}

/// Inserting one key gives the same chord as building it afresh from any
/// sequence of all its keys.
pub proof fn lemma_insert_is_canonical(k: Seq<char>, c: char, cs: Seq<char>)
    requires
        ascending(k),
        cs.to_set() == k.to_set().insert(c),
    ensures
        insert_key(k, c) == insert_keys(cs),
{
    lemma_insert_key(k, c);
    lemma_insert_keys(cs);
    lemma_canonical_unique(insert_key(k, c), insert_keys(cs));
}

} // verus!
