//! Searchable names: streets, localities and transit stations, looked up by
//! a case- and accent-insensitive match on the bundled names.
use crate::model::{views, Place, PlaceKind, PlaceView};
use crate::sort::{is_sorted, lemma_stable_sort, reversed, sort_stable, stable_sort, Ranked};
use crate::tags::{
    all_white_space, is_white_space, lemma_trimmed_surrounding, str_trim, trim_end, trim_start, trimmed,
};
use vstd::prelude::*;
use vstd::std_specs::iter::IteratorSpec;

verus! {

/// The characters of `s`, in order.
pub fn chars_of(s: &str) -> (r: Vec<char>)
    ensures
        r@ == s@,
{
    broadcast use vstd::string::group_string_axioms;

    let mut it = s.chars();
    let mut out: Vec<char> = Vec::new();
    loop
        invariant
            out@ + it.remaining() == s@,
            it.decrease() is Some,
        decreases it.decrease()->0,
    {
        match it.next() {
            Some(c) => {
                out.push(c);
            },
            None => {
                assert(out@ =~= s@);
                return out;
            },
        }
    }
}


// ---------------------------------------------------------------------------
// Folding
// ---------------------------------------------------------------------------

/// What `str::to_lowercase` returns for the characters `s`.
pub uninterp spec fn lowercased(s: Seq<char>) -> Seq<char>;

/// An ASCII character (code point below 128).
pub open spec fn is_ascii_char(c: char) -> bool {
    (c as u32) < 128
}

/// Every character of `s` is ASCII.
pub open spec fn all_ascii(s: Seq<char>) -> bool {
    forall|i: int| 0 <= i < s.len() ==> is_ascii_char(#[trigger] s[i])
}

/// The ASCII lower case of `c`: 'A'..='Z' become 'a'..='z', all else stays.
pub open spec fn ascii_lower(c: char) -> char {
    let u = c as u32;
    if 0x41 <= u <= 0x5a {
        (u + 32) as char
    } else {
        c
    }
}

/// Every character of `s` in ASCII lower case.
pub open spec fn ascii_lowered(s: Seq<char>) -> Seq<char> {
    s.map_values(|c: char| ascii_lower(c))
}

/// `str::to_lowercase`: the Unicode lower-case mapping of the string; on
/// all-ASCII text that maps 'A'..='Z' to 'a'..='z' and keeps the rest.
#[verifier::external_body]
fn str_to_lowercase(s: &str) -> (r: String)
    ensures
        r@ == lowercased(s@),
        all_ascii(s@) ==> r@ == ascii_lowered(s@),
{
    s.to_lowercase()
}

/// The letters a user is likely to type without accents, mapped to what they
/// would type instead: "muller" should find "Müller", "strasse" "Straße".
pub open spec fn fold_char(c: char) -> Seq<char> {
    if c == 'ä' || c == 'à' || c == 'á' || c == 'â' || c == 'ã' || c == 'å' {
        seq!['a']
    } else if c == 'ö' || c == 'ò' || c == 'ó' || c == 'ô' || c == 'õ' || c == 'ø' {
        seq!['o']
    } else if c == 'ü' || c == 'ù' || c == 'ú' || c == 'û' {
        seq!['u']
    } else if c == 'é' || c == 'è' || c == 'ê' || c == 'ë' {
        seq!['e']
    } else if c == 'í' || c == 'ì' || c == 'î' || c == 'ï' {
        seq!['i']
    } else if c == 'ç' {
        seq!['c']
    } else if c == 'ñ' {
        seq!['n']
    } else if c == 'ß' {
        seq!['s', 's']
    } else {
        seq![c]
    }
}

/// Every character of `s` folded, in order.
pub open spec fn fold_chars(s: Seq<char>) -> Seq<char>
    decreases s.len(),
{
    if s.len() == 0 {
        Seq::empty()
    } else {
        fold_chars(s.drop_last()) + fold_char(s.last())
    }
}

/// The search key of a text: trimmed, lower-cased, then accent-folded.
pub open spec fn spec_fold(s: Seq<char>) -> Seq<char> {
    fold_chars(lowercased(trimmed(s)))
}

/// The search key of an all-ASCII text, where lower-casing is letter by
/// letter.
pub open spec fn ascii_key(s: Seq<char>) -> Seq<char> {
    fold_chars(ascii_lowered(trimmed(s)))
}

proof fn lemma_trim_keeps_ascii(s: Seq<char>)
    requires
        all_ascii(s),
    ensures
        all_ascii(trim_start(s)),
        all_ascii(trim_end(s)),
    decreases s.len(),
{
    if s.len() > 0 {
        assert(all_ascii(s.drop_first()) && all_ascii(s.drop_last())) by {
            assert forall|i: int| 0 <= i < s.len() - 1 implies is_ascii_char(#[trigger] s.drop_first()[i])
                && is_ascii_char(s.drop_last()[i]) by {
                assert(s.drop_first()[i] == s[i + 1]);
                assert(s.drop_last()[i] == s[i]);
            }
        }
        lemma_trim_keeps_ascii(s.drop_first());
        lemma_trim_keeps_ascii(s.drop_last());
    }
}

fn push_folded(out: &mut Vec<char>, c: char)
    ensures
        final(out)@ == old(out)@ + fold_char(c),
{
    if c == 'ä' || c == 'à' || c == 'á' || c == 'â' || c == 'ã' || c == 'å' {
        out.push('a');
    } else if c == 'ö' || c == 'ò' || c == 'ó' || c == 'ô' || c == 'õ' || c == 'ø' {
        out.push('o');
    } else if c == 'ü' || c == 'ù' || c == 'ú' || c == 'û' {
        out.push('u');
    } else if c == 'é' || c == 'è' || c == 'ê' || c == 'ë' {
        out.push('e');
    } else if c == 'í' || c == 'ì' || c == 'î' || c == 'ï' {
        out.push('i');
    } else if c == 'ç' {
        out.push('c');
    } else if c == 'ñ' {
        out.push('n');
    } else if c == 'ß' {
        out.push('s');
        out.push('s');
    } else {
        out.push(c);
    }
    assert(out@ =~= old(out)@ + fold_char(c));
}

/// Lowercase, and map the German (and neighbouring) letters a user is likely
/// to type without accents.
pub fn fold(s: &str) -> (r: Vec<char>)
    ensures
        r@ == spec_fold(s@),
        all_ascii(s@) ==> r@ == ascii_key(s@),
{
    let trimmed_s = str_trim(s);
    proof {
        if all_ascii(s@) {
            lemma_trim_keeps_ascii(s@);
            lemma_trim_keeps_ascii(trim_start(s@));
        }
    }
    let lower = str_to_lowercase(trimmed_s);
    let cs = chars_of(lower.as_str());
    let mut out: Vec<char> = Vec::new();
    let mut i: usize = 0;
    assert(cs@.take(0) =~= Seq::<char>::empty());
    while i < cs.len()
        invariant
            0 <= i <= cs@.len(),
            cs@ == lowercased(trimmed(s@)),
            out@ == fold_chars(cs@.take(i as int)),
        decreases cs@.len() - i,
    {
        push_folded(&mut out, cs[i]);
        assert(cs@.take(i + 1).drop_last() =~= cs@.take(i as int));
        i = i + 1;
    }
    assert(cs@.take(cs@.len() as int) =~= cs@);
    out
}

// ---------------------------------------------------------------------------
// Comparing names
// ---------------------------------------------------------------------------

/// `a` sorts strictly after `b` in the lexicographic order of code points
/// (the order of Rust's `str`).
pub open spec fn lex_after(a: Seq<char>, b: Seq<char>) -> bool
    decreases a.len(),
{
    if a.len() == 0 {
        false
    } else if b.len() == 0 {
        true
    } else if a[0] != b[0] {
        (a[0] as u32) > (b[0] as u32)
    } else {
        lex_after(a.drop_first(), b.drop_first())
    }
}

proof fn lemma_char_code_injective(x: char, y: char)
    ensures
        x != y ==> (x as u32) != (y as u32),
{
    vstd::utf8::char_u32_cast(x, x as u32);
    vstd::utf8::char_u32_cast(y, y as u32);
}

proof fn lemma_lex_asymmetric(a: Seq<char>, b: Seq<char>)
    ensures
        lex_after(a, b) ==> !lex_after(b, a),
    decreases a.len(),
{
    if a.len() > 0 && b.len() > 0 && a[0] == b[0] {
        lemma_lex_asymmetric(a.drop_first(), b.drop_first());
    }
}

proof fn lemma_lex_total(a: Seq<char>, b: Seq<char>)
    ensures
        !lex_after(a, b) && !lex_after(b, a) ==> a == b,
    decreases a.len(),
{
    if a.len() > 0 && b.len() > 0 {
        if a[0] == b[0] {
            lemma_lex_total(a.drop_first(), b.drop_first());
            if !lex_after(a, b) && !lex_after(b, a) {
                assert(a =~= seq![a[0]] + a.drop_first());
                assert(b =~= seq![b[0]] + b.drop_first());
            }
        } else {
            lemma_char_code_injective(a[0], b[0]);
        }
    } else if a.len() == 0 && b.len() == 0 {
        assert(a =~= b);
    }
}

proof fn lemma_lex_transitive(a: Seq<char>, b: Seq<char>, c: Seq<char>)
    ensures
        !lex_after(a, b) && !lex_after(b, c) ==> !lex_after(a, c),
    decreases a.len(),
{
    if a.len() > 0 && b.len() > 0 && c.len() > 0 {
        lemma_lex_transitive(a.drop_first(), b.drop_first(), c.drop_first());
        if a[0] != b[0] {
            lemma_char_code_injective(a[0], b[0]);
        }
        if b[0] != c[0] {
            lemma_char_code_injective(b[0], c[0]);
        }
        if a[0] != c[0] {
            lemma_char_code_injective(a[0], c[0]);
        }
    }
}

/// The lexicographic order of names is a strict total order.
pub proof fn lemma_lex_order(a: Seq<char>, b: Seq<char>, c: Seq<char>)
    ensures
        lex_after(a, b) ==> !lex_after(b, a),
        !lex_after(a, b) && !lex_after(b, a) ==> a == b,
        !lex_after(a, b) && !lex_after(b, c) ==> !lex_after(a, c),
{
    lemma_lex_asymmetric(a, b);
    lemma_lex_total(a, b);
    lemma_lex_transitive(a, b, c);
}

fn lex_after_exec(a: &Vec<char>, b: &Vec<char>) -> (r: bool)
    ensures
        r == lex_after(a@, b@),
{
    let mut i: usize = 0;
    assert(a@.skip(0) =~= a@ && b@.skip(0) =~= b@);
    while i < a.len() && i < b.len() && a[i] == b[i]
        invariant
            0 <= i <= a@.len(),
            i <= b@.len(),
            lex_after(a@, b@) == lex_after(a@.skip(i as int), b@.skip(i as int)),
        decreases a@.len() - i,
    {
        assert(a@.skip(i as int).drop_first() =~= a@.skip(i + 1));
        assert(b@.skip(i as int).drop_first() =~= b@.skip(i + 1));
        i = i + 1;
    }
    if i == a.len() {
        false
    } else if i == b.len() {
        true
    } else {
        (a[i] as u32) > (b[i] as u32)
    }
}


pub(crate) fn chars_eq(a: &Vec<char>, b: &Vec<char>) -> (r: bool)
    ensures
        r == (a@ == b@),
{
    if a.len() != b.len() {
        return false;
    }
    let mut i: usize = 0;
    while i < a.len()
        invariant
            0 <= i <= a@.len(),
            a@.len() == b@.len(),
            forall|j: int| 0 <= j < i ==> a@[j] == b@[j],
        decreases a@.len() - i,
    {
        if a[i] != b[i] {
            return false;
        }
        i = i + 1;
    }
    assert(a@ =~= b@);
    true
}

/// A place, ordered by its name.
pub struct NamedPlace {
    name: Vec<char>,
    place: Place,
}

impl View for NamedPlace {
    type V = PlaceView;

    closed spec fn view(&self) -> PlaceView {
        self.place@
    }
}

impl Ranked for NamedPlace {
    closed spec fn inv(&self) -> bool {
        self.name@ == self.place.name@
    }

    open spec fn after(a: PlaceView, b: PlaceView) -> bool {
        lex_after(a.name, b.name)
    }

    fn ranks_after(&self, other: &Self) -> (r: bool) {
        lex_after_exec(&self.name, &other.name)
    }

    proof fn lemma_asymmetric(a: PlaceView, b: PlaceView) {
        lemma_lex_order(a.name, b.name, b.name);
    }

    proof fn lemma_transitive(a: PlaceView, b: PlaceView, c: PlaceView) {
        lemma_lex_order(a.name, b.name, c.name);
    }
}

/// Two places that count as one search result: same name, same kind.
pub open spec fn same_name_and_kind(a: PlaceView, b: PlaceView) -> bool {
    a.name == b.name && a.kind == b.kind
}

/// `s` with every run of places of the same name and kind reduced to its
/// first place.
pub open spec fn dedup_places(s: Seq<PlaceView>) -> Seq<PlaceView>
    decreases s.len(),
{
    if s.len() == 0 {
        s
    } else {
        let d = dedup_places(s.drop_last());
        if d.len() > 0 && same_name_and_kind(d.last(), s.last()) {
            d
        } else {
            d.push(s.last())
        }
    }
}

struct Entry {
    key: Vec<char>,
    name: Vec<char>,
    place: Place,
}

spec fn entry_wf(e: Entry) -> bool {
    &&& e.name@ == e.place.name@
    &&& e.key@ == spec_fold(e.place.name@)
}

/// Case- and accent-insensitive name lookup over the bundled places.
///
/// Deliberately a linear scan: a city yields a few thousand names, and at
/// that size a scan costs well under a millisecond while supporting matches
/// in the middle of a word ("platz").
pub struct PlaceIndex {
    entries: Vec<Entry>,
}

impl View for PlaceIndex {
    type V = Seq<PlaceView>;

    closed spec fn view(&self) -> Seq<PlaceView> {
        self.entries@.map_values(|e: Entry| e.place@)
    }
}

impl PlaceIndex {
    #[verifier::type_invariant]
    spec fn wf(self) -> bool {
        forall|i: int| 0 <= i < self.entries@.len() ==> entry_wf(#[trigger] self.entries@[i])
    }

    /// Indexes `places`: sorted by name (stably), with one entry per run of
    /// equal name and kind, since a street is split into many ways and a
    /// locality can be tagged on both a node and a boundary.
    pub fn new(places: Vec<Place>) -> (idx: Self)
        ensures
            idx@ == dedup_places(stable_sort::<NamedPlace>(views(places@))),
    {
        let ghost orig = views(places@);
        let mut rest = reversed(places);
        let ghost r0 = rest@;
        let mut named: Vec<NamedPlace> = Vec::new();
        let ghost n = rest@.len();
        while rest.len() > 0
            invariant
                n == orig.len(),
                r0.len() == n,
                forall|k: int| 0 <= k < n ==> (#[trigger] r0[k])@ == orig[n - 1 - k],
                rest@.len() <= n,
                rest@ == r0.take(rest@.len() as int),
                named@.len() + rest@.len() == n,
                views(named@) == orig.take(named@.len() as int),
                forall|i: int| 0 <= i < named@.len() ==> (#[trigger] named@[i]).inv(),
            decreases rest@.len(),
        {
            let place = rest.pop().unwrap();
            proof {
                assert(place == r0[rest@.len() as int]);
                assert(rest@ =~= r0.take(rest@.len() as int));
            }
            let name = chars_of(place.name.as_str());
            named.push(NamedPlace { name, place });
            assert(views(named@) =~= orig.take(named@.len() as int));
        }
        assert(orig.take(n as int) =~= orig);
        let sorted = sort_stable(named);
        let ghost sv = views(sorted@);
        proof {
            lemma_stable_sort::<NamedPlace>(orig);
        }
        let mut rest = reversed(sorted);
        let ghost r1 = rest@;
        let total = rest.len();
        let ghost m = total as nat;
        let mut entries: Vec<Entry> = Vec::new();
        let mut done: usize = 0;
        assert(sv.take(0) =~= Seq::<PlaceView>::empty());
        while rest.len() > 0
            invariant
                m == sv.len(),
                m <= usize::MAX,
                r1.len() == m,
                forall|k: int| 0 <= k < m ==> (#[trigger] r1[k])@ == sv[m - 1 - k],
                forall|k: int| 0 <= k < m ==> (#[trigger] r1[k]).inv(),
                rest@.len() <= m,
                rest@ == r1.take(rest@.len() as int),
                done + rest@.len() == m,
                entries@.map_values(|e: Entry| e.place@) == dedup_places(sv.take(done as int)),
                forall|i: int| 0 <= i < entries@.len() ==> entry_wf(#[trigger] entries@[i]),
            decreases rest@.len(),
        {
            let item = rest.pop().unwrap();
            proof {
                assert(item == r1[rest@.len() as int]);
                assert(rest@ =~= r1.take(rest@.len() as int));
                assert(item@ == sv[done as int]);
                assert(sv.take(done + 1).drop_last() =~= sv.take(done as int));
                assert(item.inv());
            }
            let ghost ev = entries@.map_values(|e: Entry| e.place@);
            let keep = if entries.len() == 0 {
                true
            } else {
                let last = &entries[entries.len() - 1];
                assert(entry_wf(entries@[entries@.len() - 1]));
                assert(ev.last() == last.place@);
                !(chars_eq(&last.name, &item.name) && last.place.kind == item.place.kind)
            };
            if keep {
                let key = fold(item.place.name.as_str());
                entries.push(Entry { key, name: item.name, place: item.place });
                assert(entries@.map_values(|e: Entry| e.place@) =~= ev.push(item@));
            }
            done = done + 1;
        }
        assert(sv.take(m as int) =~= sv);
        PlaceIndex { entries }
    }

    /// Best matches for `query`, most relevant first, at most `limit` of them.
    ///
    /// Ranking, in order: a name that starts with the query beats one that
    /// merely contains it, then shorter names beat longer ones, then
    /// alphabetical, so results never reshuffle between identical queries.
    pub fn search(&self, query: &str, limit: usize) -> (r: Vec<Place>)
        ensures
            views(r@) == spec_search(self@, query@, limit as nat),
            all_ascii(query@) ==> views(r@) == spec_search_key(self@, ascii_key(query@), limit as nat),
    {
        proof {
            use_type_invariant(self);
        }
        let needle = fold(query);
        if needle.len() == 0 {
            let empty: Vec<Place> = Vec::new();
            assert(views(empty@) =~= Seq::<PlaceView>::empty());
            return empty;
        }
        let ghost ents = self@;
        let mut hits: Vec<Hit> = Vec::new();
        let mut i: usize = 0;
        assert(ents.take(0) =~= Seq::<PlaceView>::empty());
        while i < self.entries.len()
            invariant
                0 <= i <= self.entries@.len(),
                ents == self@,
                ents.len() == self.entries@.len(),
                forall|j: int| 0 <= j < self.entries@.len() ==> entry_wf(#[trigger] self.entries@[j]),
                needle@ == spec_fold(query@),
                views(hits@) == hits_of(ents.take(i as int), needle@),
                forall|j: int| 0 <= j < hits@.len() ==> (#[trigger] hits@[j]).inv(),
            decreases self.entries@.len() - i,
        {
            let e = &self.entries[i];
            assert(entry_wf(self.entries@[i as int]));
            assert(ents[i as int] == e.place@);
            assert(ents.take(i + 1).drop_last() =~= ents.take(i as int));
            let rank: u8 = if starts_with(&e.key, &needle) {
                0
            } else if contains(&e.key, &needle) {
                1
            } else {
                2
            };
            if rank < 2 {
                hits.push(Hit { rank, len: e.name.len(), name: &e.name, place: &e.place });
                assert(views(hits@) =~= hits_of(ents.take(i + 1), needle@));
            } else {
                assert(views(hits@) =~= hits_of(ents.take(i + 1), needle@));
            }
            i = i + 1;
        }
        assert(ents.take(i as int) =~= ents);
        let sorted = sort_stable(hits);
        let ghost sv = views(sorted@);
        let take = if limit < sorted.len() {
            limit
        } else {
            sorted.len()
        };
        let mut out: Vec<Place> = Vec::new();
        let mut k: usize = 0;
        while k < take
            invariant
                0 <= k <= take,
                take <= sorted@.len(),
                sv == views(sorted@),
                views(out@) == sv.take(k as int).map_values(|h: HitView| h.place),
            decreases take - k,
        {
            let p = copy_place(sorted[k].place);
            assert(sv[k as int] == sorted@[k as int]@);
            assert(p@ == sv[k as int].place);
            let ghost before = out@;
            out.push(p);
            assert(views(out@) =~= views(before).push(p@));
            assert(sv.take(k + 1).map_values(|h: HitView| h.place) =~= sv.take(k as int).map_values(
                |h: HitView| h.place,
            ).push(sv[k as int].place));
            k = k + 1;
        }
        out
    }

    /// How many entries the index holds.
    pub fn len(&self) -> (n: usize)
        ensures
            n == self@.len(),
    {
        self.entries.len()
    }

    /// Whether the index holds no entry.
    pub fn is_empty(&self) -> (b: bool)
        ensures
            b == (self@.len() == 0),
    {
        self.entries.len() == 0
    }
}


fn copy_place(p: &Place) -> (r: Place)
    ensures
        r@ == p@,
{
    Place { name: p.name.clone(), kind: p.kind, lat_bits: p.lat_bits, lon_bits: p.lon_bits }
}

// ---------------------------------------------------------------------------
// Matching and ranking
// ---------------------------------------------------------------------------

/// `p` is a prefix of `s`.
pub open spec fn is_prefix_of(p: Seq<char>, s: Seq<char>) -> bool {
    p.len() <= s.len() && s.subrange(0, p.len() as int) == p
}

/// `p` occurs somewhere in `s`.
pub open spec fn occurs_in(p: Seq<char>, s: Seq<char>) -> bool {
    exists|i: int| 0 <= i && i + p.len() <= s.len() && #[trigger] s.subrange(i, i + p.len()) == p
}

/// How a search key matches a needle: 0 for a prefix match, 1 for a match
/// elsewhere, none otherwise.
pub open spec fn match_rank(key: Seq<char>, needle: Seq<char>) -> Option<u8> {
    if is_prefix_of(needle, key) {
        Some(0u8)
    } else if occurs_in(needle, key) {
        Some(1u8)
    } else {
        None
    }
}

fn window_eq(s: &Vec<char>, start: usize, p: &Vec<char>) -> (r: bool)
    requires
        start + p@.len() <= s@.len(),
    ensures
        r == (s@.subrange(start as int, start + p@.len()) == p@),
{
    let n = s.len();
    let mut j: usize = 0;
    while j < p.len()
        invariant
            n == s@.len(),
            0 <= j <= p@.len(),
            start + p@.len() <= s@.len(),
            forall|k: int| 0 <= k < j ==> s@[start + k] == p@[k],
        decreases p@.len() - j,
    {
        if s[start + j] != p[j] {
            assert(s@.subrange(start as int, start + p@.len())[j as int] != p@[j as int]);
            return false;
        }
        j = j + 1;
    }
    assert(s@.subrange(start as int, start + p@.len()) =~= p@);
    true
}

fn starts_with(s: &Vec<char>, p: &Vec<char>) -> (r: bool)
    ensures
        r == is_prefix_of(p@, s@),
{
    if p.len() > s.len() {
        false
    } else {
        window_eq(s, 0, p)
    }
}

fn contains(s: &Vec<char>, p: &Vec<char>) -> (r: bool)
    ensures
        r == occurs_in(p@, s@),
{
    if p.len() > s.len() {
        return false;
    }
    if p.len() == 0 {
        assert(s@.subrange(0, 0 + p@.len() as int) =~= p@);
        return true;
    }
    let n = s.len();
    let last = n - p.len();
    let mut i: usize = 0;
    while i <= last
        invariant
            n == s@.len(),
            last + p@.len() == s@.len(),
            p@.len() > 0,
            0 <= i <= last + 1,
            forall|k: int| 0 <= k < i ==> #[trigger] s@.subrange(k, k + p@.len()) != p@,
        decreases last + 1 - i,
    {
        if window_eq(s, i, p) {
            return true;
        }
        i = i + 1;
    }
    assert forall|k: int| 0 <= k && k + p@.len() <= s@.len() implies #[trigger] s@.subrange(
        k,
        k + p@.len(),
    ) != p@ by {}
    false
}

/// A place matching a search, with what it is ranked by.
pub struct HitView {
    pub rank: u8,
    pub len: nat,
    pub place: PlaceView,
}

/// The entries matching `needle`, in index order.
pub open spec fn hits_of(entries: Seq<PlaceView>, needle: Seq<char>) -> Seq<HitView>
    decreases entries.len(),
{
    if entries.len() == 0 {
        Seq::empty()
    } else {
        let p = entries.last();
        hits_of(entries.drop_last(), needle) + match match_rank(spec_fold(p.name), needle) {
            Some(r) => seq![HitView { rank: r, len: p.name.len(), place: p }],
            None => Seq::empty(),
        }
    }
}

/// What a search returns: the entries whose key matches the folded query,
/// stably sorted by (match rank, name length, name), cut at `limit`. An empty
/// folded query matches nothing.
pub open spec fn spec_search(entries: Seq<PlaceView>, query: Seq<char>, limit: nat) -> Seq<PlaceView> {
    spec_search_key(entries, spec_fold(query), limit)
}

/// What a search for the folded query `needle` returns (see
/// [`spec_search`]).
pub open spec fn spec_search_key(entries: Seq<PlaceView>, needle: Seq<char>, limit: nat) -> Seq<
    PlaceView,
> {
    if needle.len() == 0 {
        Seq::empty()
    } else {
        let sorted = stable_sort::<Hit<'static>>(hits_of(entries, needle));
        let n = if limit < sorted.len() {
            limit
        } else {
            sorted.len()
        };
        sorted.take(n as int).map_values(|h: HitView| h.place)
    }
}

/// A search hit borrowed from the index.
pub struct Hit<'a> {
    rank: u8,
    len: usize,
    name: &'a Vec<char>,
    place: &'a Place,
}

impl<'a> View for Hit<'a> {
    type V = HitView;

    closed spec fn view(&self) -> HitView {
        HitView { rank: self.rank, len: self.len as nat, place: self.place@ }
    }
}

impl<'a> Ranked for Hit<'a> {
    closed spec fn inv(&self) -> bool {
        self.name@ == self.place.name@
    }

    open spec fn after(a: HitView, b: HitView) -> bool {
        ||| a.rank > b.rank
        ||| a.rank == b.rank && a.len > b.len
        ||| a.rank == b.rank && a.len == b.len && lex_after(a.place.name, b.place.name)
    }

    fn ranks_after(&self, other: &Self) -> (r: bool) {
        if self.rank != other.rank {
            self.rank > other.rank
        } else if self.len != other.len {
            self.len > other.len
        } else {
            lex_after_exec(self.name, other.name)
        }
    }

    proof fn lemma_asymmetric(a: HitView, b: HitView) {
        lemma_lex_order(a.place.name, b.place.name, b.place.name);
    }

    proof fn lemma_transitive(a: HitView, b: HitView, c: HitView) {
        lemma_lex_order(a.place.name, b.place.name, c.place.name);
    }
}


// ---------------------------------------------------------------------------
// Laws
// ---------------------------------------------------------------------------

proof fn lemma_hits_of(entries: Seq<PlaceView>, needle: Seq<char>)
    ensures
        forall|k: int| 0 <= k < hits_of(entries, needle).len() ==> {
            let h = #[trigger] hits_of(entries, needle)[k];
            &&& match_rank(spec_fold(h.place.name), needle) == Some(h.rank)
            &&& h.len == h.place.name.len()
            &&& entries.contains(h.place)
        },
    decreases entries.len(),
{
    if entries.len() > 0 {
        lemma_hits_of(entries.drop_last(), needle);
        let prev = hits_of(entries.drop_last(), needle);
        assert forall|k: int| 0 <= k < hits_of(entries, needle).len() implies {
            let h = #[trigger] hits_of(entries, needle)[k];
            &&& match_rank(spec_fold(h.place.name), needle) == Some(h.rank)
            &&& h.len == h.place.name.len()
            &&& entries.contains(h.place)
        } by {
            if k < prev.len() {
                let h = prev[k];
                assert(hits_of(entries, needle)[k] == h);
                let q = choose|q: int| 0 <= q < entries.drop_last().len() && entries.drop_last()[q] == h.place;
                assert(entries[q] == h.place);
            } else {
                assert(entries[entries.len() - 1] == entries.last());
            }
        }
    }
}

/// What a search promises: at most `limit` results; nothing for a query that
/// folds to nothing; every result's folded name contains the folded query;
/// and results come best first: prefix matches before other matches, then
/// shorter names before longer, then alphabetically.
pub proof fn lemma_search_ranking(entries: Seq<PlaceView>, query: Seq<char>, limit: nat)
    ensures
        ({
            let r = spec_search(entries, query, limit);
            let needle = spec_fold(query);
            &&& r.len() <= limit
            &&& needle.len() == 0 ==> r.len() == 0
            &&& forall|i: int| 0 <= i < r.len() ==> entries.contains(#[trigger] r[i])
            &&& forall|i: int| 0 <= i < r.len() ==> occurs_in(needle, spec_fold(#[trigger] r[i].name))
            &&& forall|i: int, j: int| 0 <= i < j < r.len() ==> {
                let ri = match_rank(spec_fold(r[i].name), needle)->0;
                let rj = match_rank(spec_fold(r[j].name), needle)->0;
                &&& ri <= rj
                &&& ri == rj ==> r[i].name.len() <= r[j].name.len()
                &&& ri == rj && r[i].name.len() == r[j].name.len() ==> !lex_after(
                    #[trigger] r[i].name,
                    #[trigger] r[j].name,
                )
            }
        }),
{
    broadcast use vstd::seq_lib::to_multiset_contains;

    let needle = spec_fold(query);
    if needle.len() > 0 {
        let hits = hits_of(entries, needle);
        let sorted = stable_sort::<Hit<'static>>(hits);
        lemma_stable_sort::<Hit<'static>>(hits);
        lemma_hits_of(entries, needle);
        let r = spec_search(entries, query, limit);
        assert forall|k: int| 0 <= k < sorted.len() implies {
            let h = #[trigger] sorted[k];
            &&& match_rank(spec_fold(h.place.name), needle) == Some(h.rank)
            &&& h.len == h.place.name.len()
            &&& entries.contains(h.place)
        } by {
            assert(sorted.contains(sorted[k]));
            assert(sorted.to_multiset().count(sorted[k]) > 0);
            assert(hits.contains(sorted[k]));
            let q = choose|q: int| 0 <= q < hits.len() && hits[q] == sorted[k];
            assert(hits[q] == sorted[k]);
        }
        assert forall|i: int| 0 <= i < r.len() implies occurs_in(needle, spec_fold(#[trigger] r[i].name)) by {
            let key = spec_fold(r[i].name);
            assert(r[i] == sorted[i].place);
            if is_prefix_of(needle, key) {
                assert(key.subrange(0, 0 + needle.len() as int) == needle);
            }
        }
        assert forall|i: int| 0 <= i < r.len() implies entries.contains(#[trigger] r[i]) by {
            assert(r[i] == sorted[i].place);
        }
        assert forall|i: int, j: int| 0 <= i < j < r.len() implies {
            let ri = match_rank(spec_fold(r[i].name), needle)->0;
            let rj = match_rank(spec_fold(r[j].name), needle)->0;
            &&& ri <= rj
            &&& ri == rj ==> r[i].name.len() <= r[j].name.len()
            &&& ri == rj && r[i].name.len() == r[j].name.len() ==> !lex_after(
                #[trigger] r[i].name,
                #[trigger] r[j].name,
            )
        } by {
            assert(r[i] == sorted[i].place && r[j] == sorted[j].place);
            assert(!Hit::<'static>::after(sorted[i], sorted[j]));
        }
    }
}

proof fn lemma_hits_cover(entries: Seq<PlaceView>, needle: Seq<char>, x: PlaceView)
    requires
        entries.contains(x),
        match_rank(spec_fold(x.name), needle) is Some,
    ensures
        hits_of(entries, needle).contains(
            HitView { rank: match_rank(spec_fold(x.name), needle)->0, len: x.name.len(), place: x },
        ),
    decreases entries.len(),
{
    let h = HitView { rank: match_rank(spec_fold(x.name), needle)->0, len: x.name.len(), place: x };
    let prev = hits_of(entries.drop_last(), needle);
    if entries.last() == x {
        assert(hits_of(entries, needle)[prev.len() as int] == h);
    } else {
        let q = choose|q: int| 0 <= q < entries.len() && entries[q] == x;
        assert(entries.drop_last()[q] == x);
        lemma_hits_cover(entries.drop_last(), needle, x);
        let k = choose|k: int| 0 <= k < prev.len() && prev[k] == h;
        assert(hits_of(entries, needle)[k] == h);
    }
}

/// Search results are the best matches of all: an entry whose folded name
/// contains the (non-empty) folded query is among the results, unless the
/// results already fill `limit` and every one of them ranks no worse than it
/// (by match rank, then name length, then name).
pub proof fn lemma_search_complete(entries: Seq<PlaceView>, query: Seq<char>, limit: nat, x: PlaceView)
    requires
        entries.contains(x),
        spec_fold(query).len() > 0,
        occurs_in(spec_fold(query), spec_fold(x.name)),
    ensures
        ({
            let r = spec_search(entries, query, limit);
            let needle = spec_fold(query);
            let rx = match_rank(spec_fold(x.name), needle)->0;
            ||| r.contains(x)
            ||| r.len() == limit && forall|i: int| 0 <= i < r.len() ==> {
                let ri = match_rank(spec_fold(#[trigger] r[i].name), needle)->0;
                ||| ri < rx
                ||| ri == rx && r[i].name.len() < x.name.len()
                ||| ri == rx && r[i].name.len() == x.name.len() && !lex_after(r[i].name, x.name)
            }
        }),
{
    broadcast use vstd::seq_lib::to_multiset_contains;

    let needle = spec_fold(query);
    let hits = hits_of(entries, needle);
    let sorted = stable_sort::<Hit<'static>>(hits);
    let r = spec_search(entries, query, limit);
    let h = HitView { rank: match_rank(spec_fold(x.name), needle)->0, len: x.name.len(), place: x };
    lemma_stable_sort::<Hit<'static>>(hits);
    lemma_hits_of(entries, needle);
    lemma_hits_cover(entries, needle, x);
    assert(hits.to_multiset().count(h) > 0);
    assert(sorted.contains(h));
    let k = choose|k: int| 0 <= k < sorted.len() && sorted[k] == h;
    let n = if limit < sorted.len() {
        limit
    } else {
        sorted.len()
    };
    if k < n {
        assert(r[k] == x);
    } else {
        assert forall|i: int| 0 <= i < r.len() implies {
            let ri = match_rank(spec_fold(#[trigger] r[i].name), needle)->0;
            ||| ri < h.rank
            ||| ri == h.rank && r[i].name.len() < x.name.len()
            ||| ri == h.rank && r[i].name.len() == x.name.len() && !lex_after(r[i].name, x.name)
        } by {
            assert(r[i] == sorted[i].place);
            assert(!Hit::<'static>::after(sorted[i], sorted[k]));
            assert(sorted.contains(sorted[i]));
            assert(sorted.to_multiset().count(sorted[i]) > 0);
            assert(hits.contains(sorted[i]));
            let q = choose|q: int| 0 <= q < hits.len() && hits[q] == sorted[i];
            assert(hits[q] == sorted[i]);
        }
    }
}

/// Search ignores white space around the query: padding a query with white
/// space on either side leaves the results unchanged.
pub proof fn lemma_search_ignores_surrounding_space(
    entries: Seq<PlaceView>,
    pre: Seq<char>,
    query: Seq<char>,
    post: Seq<char>,
    limit: nat,
)
    requires
        all_white_space(pre),
        all_white_space(post),
    ensures
        spec_search(entries, pre + query + post, limit) == spec_search(entries, query, limit),
{
    lemma_trimmed_surrounding(pre, query, post);
}

/// `a` and `b` are the same ASCII text up to the case of its letters.
pub open spec fn same_up_to_ascii_case(a: Seq<char>, b: Seq<char>) -> bool {
    &&& a.len() == b.len()
    &&& all_ascii(a)
    &&& all_ascii(b)
    &&& forall|i: int| 0 <= i < a.len() ==> ascii_lower(#[trigger] a[i]) == ascii_lower(b[i])
}

proof fn lemma_case_keeps_white_space(x: char, y: char)
    requires
        is_ascii_char(x),
        is_ascii_char(y),
        ascii_lower(x) == ascii_lower(y),
    ensures
        is_white_space(x) == is_white_space(y),
{
    vstd::utf8::char_u32_cast(x, x as u32);
    vstd::utf8::char_u32_cast(y, y as u32);
    let u = x as u32;
    let v = y as u32;
    if 0x41 <= u <= 0x5a {
        assert(((u + 32) as char) as u32 == u + 32);
    }
    if 0x41 <= v <= 0x5a {
        assert(((v + 32) as char) as u32 == v + 32);
    }
}

proof fn lemma_trim_same_up_to_case(a: Seq<char>, b: Seq<char>)
    requires
        same_up_to_ascii_case(a, b),
    ensures
        same_up_to_ascii_case(trim_start(a), trim_start(b)),
        same_up_to_ascii_case(trim_end(a), trim_end(b)),
    decreases a.len(),
{
    if a.len() > 0 {
        let (a1, b1) = (a.drop_first(), b.drop_first());
        let (a2, b2) = (a.drop_last(), b.drop_last());
        assert(same_up_to_ascii_case(a1, b1)) by {
            assert forall|i: int| 0 <= i < a1.len() implies is_ascii_char(#[trigger] a1[i]) && is_ascii_char(
                b1[i],
            ) && ascii_lower(a1[i]) == ascii_lower(b1[i]) by {
                assert(a1[i] == a[i + 1] && b1[i] == b[i + 1]);
            }
        }
        assert(same_up_to_ascii_case(a2, b2)) by {
            assert forall|i: int| 0 <= i < a2.len() implies is_ascii_char(#[trigger] a2[i]) && is_ascii_char(
                b2[i],
            ) && ascii_lower(a2[i]) == ascii_lower(b2[i]) by {
                assert(a2[i] == a[i] && b2[i] == b[i]);
            }
        }
        lemma_case_keeps_white_space(a[0], b[0]);
        lemma_case_keeps_white_space(a.last(), b.last());
        lemma_trim_same_up_to_case(a1, b1);
        lemma_trim_same_up_to_case(a2, b2);
    }
}

/// For ASCII queries search ignores letter case: two queries that differ
/// only in the case of their letters have the same search key, and so give
/// the same results ([`PlaceIndex::search`] returns
/// `spec_search_key(entries, ascii_key(query), limit)` for an ASCII query).
pub proof fn lemma_search_ignores_ascii_case(entries: Seq<PlaceView>, q1: Seq<char>, q2: Seq<char>, limit: nat)
    requires
        same_up_to_ascii_case(q1, q2),
    ensures
        ascii_key(q1) == ascii_key(q2),
        spec_search_key(entries, ascii_key(q1), limit) == spec_search_key(entries, ascii_key(q2), limit),
{
    lemma_trim_same_up_to_case(q1, q2);
    lemma_trim_same_up_to_case(trim_start(q1), trim_start(q2));
    let (t1, t2) = (trimmed(q1), trimmed(q2));
    assert(ascii_lowered(t1) =~= ascii_lowered(t2));
}

/// `p` is the plain letter a user types in place of the accented letter `c`:
/// a for ä à á â ã å, o for ö ò ó ô õ ø, u for ü ù ú û, e for é è ê ë,
/// i for í ì î ï, c for ç, n for ñ.
pub open spec fn plain_spelling_of(c: char, p: char) -> bool {
    ||| p == 'a' && (c == 'ä' || c == 'à' || c == 'á' || c == 'â' || c == 'ã' || c == 'å')
    ||| p == 'o' && (c == 'ö' || c == 'ò' || c == 'ó' || c == 'ô' || c == 'õ' || c == 'ø')
    ||| p == 'u' && (c == 'ü' || c == 'ù' || c == 'ú' || c == 'û')
    ||| p == 'e' && (c == 'é' || c == 'è' || c == 'ê' || c == 'ë')
    ||| p == 'i' && (c == 'í' || c == 'ì' || c == 'î' || c == 'ï')
    ||| p == 'c' && c == 'ç'
    ||| p == 'n' && c == 'ñ'
}

/// `b` is `a` with some of its accented letters written as plain letters.
pub open spec fn plainly_spelled(a: Seq<char>, b: Seq<char>) -> bool {
    &&& a.len() == b.len()
    &&& forall|i: int| 0 <= i < a.len() ==> #[trigger] a[i] == b[i] || plain_spelling_of(a[i], b[i])
}

proof fn lemma_fold_chars_append(x: Seq<char>, y: Seq<char>)
    ensures
        fold_chars(x + y) == fold_chars(x) + fold_chars(y),
    decreases y.len(),
{
    if y.len() == 0 {
        assert(x + y =~= x);
        assert(fold_chars(x) + fold_chars(y) =~= fold_chars(x));
    } else {
        assert((x + y).drop_last() =~= x + y.drop_last());
        assert((x + y).last() == y.last());
        lemma_fold_chars_append(x, y.drop_last());
        assert(fold_chars(x) + fold_chars(y.drop_last()) + fold_char(y.last()) =~= fold_chars(x) + (
        fold_chars(y.drop_last()) + fold_char(y.last())));
    }
}

/// Folding ignores accents: a text and the same text with accented letters
/// written as the plain letters people type for them fold to the same key.
pub proof fn lemma_fold_ignores_accents(a: Seq<char>, b: Seq<char>)
    requires
        plainly_spelled(a, b),
    ensures
        fold_chars(a) == fold_chars(b),
    decreases a.len(),
{
    if a.len() > 0 {
        let (a1, b1) = (a.drop_last(), b.drop_last());
        assert(plainly_spelled(a1, b1)) by {
            assert forall|i: int| 0 <= i < a1.len() implies #[trigger] a1[i] == b1[i] || plain_spelling_of(
                a1[i],
                b1[i],
            ) by {
                assert(a1[i] == a[i] && b1[i] == b[i]);
            }
        }
        lemma_fold_ignores_accents(a1, b1);
        let k = a.len() - 1;
        assert(a[k] == b[k] || plain_spelling_of(a[k], b[k]));
    }
}

/// Folding writes ß as "ss": a text with ß folds to the same key as the text
/// with "ss" in its place.
pub proof fn lemma_fold_eszett(x: Seq<char>, y: Seq<char>)
    ensures
        fold_chars(x + seq!['ß'] + y) == fold_chars(x + seq!['s', 's'] + y),
{
    lemma_fold_chars_append(x + seq!['ß'], y);
    lemma_fold_chars_append(x + seq!['s', 's'], y);
    lemma_fold_chars_append(x, seq!['ß']);
    lemma_fold_chars_append(x, seq!['s', 's']);
    assert(seq!['ß'].drop_last() =~= Seq::<char>::empty());
    assert(seq!['s', 's'].drop_last() =~= seq!['s']);
    assert(seq!['s'].drop_last() =~= Seq::<char>::empty());
    assert(seq!['ß'].last() == 'ß');
    assert(seq!['s'].last() == 's' && seq!['s', 's'].last() == 's');
    assert(fold_chars(Seq::<char>::empty()) =~= Seq::<char>::empty());
    assert(fold_char('ß') =~= seq!['s', 's']);
    assert(fold_char('s') =~= seq!['s']);
    assert(fold_chars(seq!['ß']) =~= seq!['s', 's']);
    assert(fold_chars(seq!['s']) =~= seq!['s']);
    assert(fold_chars(seq!['s', 's']) =~= seq!['s', 's']);
}

/// Searching for a name spelled with plain letters for its accents (such as
/// "schoneberg" for "Schöneberg") finds it: both fold to the same key, so the
/// entry is among the results unless the results already fill `limit`.
pub proof fn lemma_search_finds_plain_spelling(entries: Seq<PlaceView>, x: PlaceView, query: Seq<char>, limit: nat)
    requires
        entries.contains(x),
        plainly_spelled(lowercased(trimmed(x.name)), lowercased(trimmed(query))),
        spec_fold(query).len() > 0,
    ensures
        spec_fold(query) == spec_fold(x.name),
        spec_search(entries, query, limit).contains(x) || spec_search(entries, query, limit).len() == limit,
{
    lemma_fold_ignores_accents(lowercased(trimmed(x.name)), lowercased(trimmed(query)));
    let key = spec_fold(query);
    assert(key.subrange(0, 0 + key.len() as int) =~= key);
    lemma_search_complete(entries, query, limit, x);
}

proof fn lemma_dedup_places(s: Seq<PlaceView>)
    ensures
        forall|x: PlaceView| #[trigger] dedup_places(s).contains(x) ==> s.contains(x),
        forall|i: int| 0 <= i < dedup_places(s).len() - 1 ==> !same_name_and_kind(
            #[trigger] dedup_places(s)[i],
            dedup_places(s)[i + 1],
        ),
        is_sorted::<NamedPlace>(s) ==> is_sorted::<NamedPlace>(dedup_places(s)),
        s.len() > 0 ==> dedup_places(s).len() > 0 && dedup_places(s).last() == (if dedup_places(
            s.drop_last(),
        ).len() > 0 && same_name_and_kind(dedup_places(s.drop_last()).last(), s.last()) {
            dedup_places(s.drop_last()).last()
        } else {
            s.last()
        }),
    decreases s.len(),
{
    if s.len() > 0 {
        let p = s.drop_last();
        lemma_dedup_places(p);
        let d = dedup_places(p);
        assert forall|x: PlaceView| dedup_places(s).contains(x) implies s.contains(x) by {
            let k = choose|k: int| 0 <= k < dedup_places(s).len() && dedup_places(s)[k] == x;
            if k < d.len() {
                assert(d[k] == x);
                assert(d.contains(x));
                assert(p.contains(x));
                let q = choose|q: int| 0 <= q < p.len() && p[q] == x;
                assert(s[q] == x);
            } else {
                assert(s[s.len() - 1] == x);
            }
        }
        if is_sorted::<NamedPlace>(s) {
            assert(is_sorted::<NamedPlace>(p)) by {
                assert forall|i: int, j: int| 0 <= i < j < p.len() implies !NamedPlace::after(
                    #[trigger] p[i],
                    #[trigger] p[j],
                ) by {
                    assert(p[i] == s[i] && p[j] == s[j]);
                }
            }
            let out = dedup_places(s);
            assert forall|i: int, j: int| 0 <= i < j < out.len() implies !NamedPlace::after(
                #[trigger] out[i],
                #[trigger] out[j],
            ) by {
                if j < d.len() {
                    assert(out[i] == d[i] && out[j] == d[j]);
                } else {
                    assert(out[i] == d[i]);
                    assert(out[j] == s.last());
                    assert(d.contains(d[i]));
                    let q = choose|q: int| 0 <= q < p.len() && p[q] == d[i];
                    assert(s[q] == d[i]);
                    assert(!NamedPlace::after(s[q], s[s.len() - 1]));
                }
            }
        }
    }
}

/// What indexing promises: the entries come from the given places, sorted by
/// name, and no entry repeats the name and kind of the one before it.
pub proof fn lemma_index_entries(places: Seq<PlaceView>)
    ensures
        ({
            let e = dedup_places(stable_sort::<NamedPlace>(places));
            &&& forall|x: PlaceView| e.contains(x) ==> places.contains(x)
            &&& forall|i: int, j: int| 0 <= i < j < e.len() ==> !lex_after(#[trigger] e[i].name, #[trigger] e[j].name)
            &&& forall|i: int| 0 <= i < e.len() - 1 ==> !same_name_and_kind(#[trigger] e[i], e[i + 1])
        }),
{
    broadcast use vstd::seq_lib::to_multiset_contains;

    let sorted = stable_sort::<NamedPlace>(places);
    lemma_stable_sort::<NamedPlace>(places);
    lemma_dedup_places(sorted);
    let e = dedup_places(sorted);
    assert forall|x: PlaceView| e.contains(x) implies places.contains(x) by {
        assert(sorted.contains(x));
        assert(sorted.to_multiset().count(x) > 0);
    }
    assert forall|i: int, j: int| 0 <= i < j < e.len() implies !lex_after(#[trigger] e[i].name, #[trigger] e[j].name) by {
        assert(!NamedPlace::after(e[i], e[j]));
    }
}

} // verus!
