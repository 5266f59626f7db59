//! The Poly Haven public API: what to ask for, what comes back, and which of it
//! is worth downloading.
//!
//! Four endpoints do the whole job, none of them authenticated: `/types` (the
//! three kinds, fixed here as [`Kind`]), `/assets?t=<kind>` (one catalogue as a
//! JSON object keyed by slug), `/files/<slug>` (every downloadable file of one
//! asset as `slot → resolution → format → { url, .. }`) and the CDN thumbnail
//! convention. Both filenames and glTF `include` keys are strings chosen by a
//! remote server and later used as paths, which is what [`safe_rel`] is for.

use vstd::prelude::*;

use crate::text::{
    bytes_of, chars_of, contains_seq, eq_seq, from_utf8_lossy, has_substring, lowercase, push_str,
    string_from, to_lowercase, utf8_lossy,
};

verus! {

/// The API root. No key, no auth, no published rate limit.
pub const API: &'static str = "https://api.polyhaven.com";

/// Preview images; `?width=` is honoured by the CDN.
pub const THUMBS: &'static str = "https://cdn.polyhaven.com/asset_img/thumbs";

/// Sent on every request: the API answers `403` to a client with no agent.
pub const USER_AGENT: &'static str = "renzora-polyhaven/0.1";

/// Which of the three catalogues an asset belongs to.
#[derive(Clone, Copy, PartialEq, Eq, Debug, Structural)]
pub enum Kind {
    Hdris,
    Textures,
    Models,
}

/// The `t=` query value of a kind.
pub open spec fn kind_slug(k: Kind) -> Seq<char> {
    match k {
        Kind::Hdris => "hdris"@,
        Kind::Textures => "textures"@,
        Kind::Models => "models"@,
    }
}

/// The tab label of a kind.
pub open spec fn kind_label(k: Kind) -> Seq<char> {
    match k {
        Kind::Hdris => "HDRIs"@,
        Kind::Textures => "Textures"@,
        Kind::Models => "Models"@,
    }
}

/// The tab icon of a kind.
pub open spec fn kind_icon(k: Kind) -> Seq<char> {
    match k {
        Kind::Hdris => "sun"@,
        Kind::Textures => "grid-nine"@,
        Kind::Models => "cube"@,
    }
}

/// Tab order, and the index of a kind's catalogue.
pub open spec fn kind_index(k: Kind) -> int {
    match k {
        Kind::Hdris => 0,
        Kind::Textures => 1,
        Kind::Models => 2,
    }
}

/// Where a kind's files land under the project's `assets/`.
pub open spec fn kind_folder(k: Kind) -> Seq<char> {
    match k {
        Kind::Hdris => "hdris"@,
        Kind::Textures => "textures"@,
        Kind::Models => "models"@,
    }
}

impl Kind {
    /// In tab order, and in the order the hub's catalogues are indexed.
    pub const ALL: [Kind; 3] = [Kind::Hdris, Kind::Textures, Kind::Models];

    /// The `t=` query value.
    pub fn slug(self) -> (s: &'static str)
        ensures
            s@ == kind_slug(self),
    {
        match self {
            Kind::Hdris => "hdris",
            Kind::Textures => "textures",
            Kind::Models => "models",
        }
    }

    /// The tab label.
    pub fn label(self) -> (s: &'static str)
        ensures
            s@ == kind_label(self),
    {
        match self {
            Kind::Hdris => "HDRIs",
            Kind::Textures => "Textures",
            Kind::Models => "Models",
        }
    }

    /// Phosphor icon for the tab.
    pub fn icon(self) -> (s: &'static str)
        ensures
            s@ == kind_icon(self),
    {
        match self {
            Kind::Hdris => "sun",
            Kind::Textures => "grid-nine",
            Kind::Models => "cube",
        }
    }

    /// Position in [`Kind::ALL`].
    pub fn index(self) -> (i: usize)
        ensures
            i == kind_index(self),
    {
        match self {
            Kind::Hdris => 0,
            Kind::Textures => 1,
            Kind::Models => 2,
        }
    }

    /// Where this kind's files land, under the project's `assets/`.
    pub fn folder(self) -> (s: &'static str)
        ensures
            s@ == kind_folder(self),
    {
        match self {
            Kind::Hdris => "hdris",
            Kind::Textures => "textures",
            Kind::Models => "models",
        }
    }
}

/// One catalogue entry.
///
/// Every field but `name` is optional upstream, because the three kinds do not
/// share a schema (a model has `polycount`, an HDRI does not). `authors` holds
/// the author → role pairs in name order, as the catalogue's map yields them.
#[derive(Clone, Debug)]
pub struct Asset {
    /// The object key the entry arrived under: the id every endpoint takes.
    pub slug: String,
    pub name: String,
    pub categories: Vec<String>,
    pub tags: Vec<String>,
    /// Name → credited role, ordered by name. Only the names are shown.
    pub authors: Vec<(String, String)>,
    /// Unix seconds. Drives the default ordering, newest first.
    pub date_published: i64,
    /// Present on models only.
    pub polycount: Option<u64>,
}

impl Default for Asset {
    fn default() -> (a: Self)
        ensures
            a.slug@ == Seq::<char>::empty(),
            a.name@ == Seq::<char>::empty(),
            a.categories@.len() == 0,
            a.tags@.len() == 0,
            a.authors@.len() == 0,
            a.date_published == 0,
            a.polycount is None,
    {
        Asset {
            slug: String::new(),
            name: String::new(),
            categories: Vec::new(),
            tags: Vec::new(),
            authors: Vec::new(),
            date_published: 0,
            polycount: None,
        }
    }
}

/// `parts` joined with `sep` between neighbours.
pub open spec fn join(parts: Seq<Seq<char>>, sep: Seq<char>) -> Seq<char>
    decreases parts.len(),
{
    if parts.len() == 0 {
        Seq::empty()
    } else if parts.len() == 1 {
        parts[0]
    } else {
        join(parts.drop_last(), sep) + sep + parts.last()
    }
}

/// The author names of an asset, in order.
pub open spec fn author_names(a: Asset) -> Seq<Seq<char>> {
    a.authors@.map_values(|p: (String, String)| p.0@)
}

/// One search term matches the name, the slug, a tag or a category. Name, tags
/// and categories are compared lowercased; the slug as it is.
pub open spec fn term_matches(a: Asset, term: Seq<char>) -> bool {
    ||| has_substring(lowercase(a.name@), term)
    ||| has_substring(a.slug@, term)
    ||| exists|i: int| 0 <= i < a.tags@.len() && has_substring(lowercase(a.tags@[i]@), term)
    ||| exists|i: int|
        0 <= i < a.categories@.len() && has_substring(lowercase(a.categories@[i]@), term)
}

/// Every term matches the entry.
pub open spec fn asset_matches(a: Asset, terms: Seq<String>) -> bool {
    forall|i: int| 0 <= i < terms.len() ==> term_matches(a, #[trigger] terms[i]@)
}

/// The lowercased characters of each string.
fn lowered_all(list: &Vec<String>) -> (r: Vec<Vec<char>>)
    ensures
        r@.len() == list@.len(),
        forall|i: int| 0 <= i < list@.len() ==> (#[trigger] r@[i])@ == lowercase(list@[i]@),
{
    let mut r: Vec<Vec<char>> = Vec::new();
    let mut i: usize = 0;
    while i < list.len()
        invariant
            i <= list@.len(),
            r@.len() == i,
            forall|k: int| 0 <= k < i ==> (#[trigger] r@[k])@ == lowercase(list@[k]@),
        decreases list@.len() - i,
    {
        let low = to_lowercase(list[i].as_str());
        r.push(chars_of(low.as_str()));
        i = i + 1;
    }
    r
}

/// Whether `term` occurs in any of `list`.
fn any_contains(list: &Vec<Vec<char>>, term: &Vec<char>) -> (r: bool)
    ensures
        r == exists|i: int| 0 <= i < list@.len() && has_substring(list@[i]@, term@),
{
    let mut i: usize = 0;
    while i < list.len()
        invariant
            i <= list@.len(),
            forall|k: int| 0 <= k < i ==> !has_substring(#[trigger] list@[k]@, term@),
        decreases list@.len() - i,
    {
        if contains_seq(&list[i], term) {
            return true;
        }
        i = i + 1;
    }
    false
}

/// Names in strictly ascending order, so each appears once.
pub open spec fn ascending(ns: Seq<Seq<char>>) -> bool {
    forall|i: int, j: int| 0 <= i < j < ns.len() ==> text_lt(#[trigger] ns[i], #[trigger] ns[j])
}

/// The same names, however often and in whatever order each occurs.
pub open spec fn same_names(a: Seq<Seq<char>>, b: Seq<Seq<char>>) -> bool {
    forall|x: Seq<char>| a.contains(x) <==> b.contains(x)
}

/// The author names of an asset in ascending order, each once: the order a
/// name-keyed map yields them in.
pub open spec fn credit_names(a: Asset) -> Seq<Seq<char>> {
    choose|ns: Seq<Seq<char>>| ascending(ns) && same_names(ns, author_names(a))
}

/// Two ascending lists of the same names are one list.
pub proof fn lemma_ascending_unique(a: Seq<Seq<char>>, b: Seq<Seq<char>>)
    requires
        ascending(a),
        ascending(b),
        same_names(a, b),
    ensures
        a == b,
    decreases a.len(),
{
    if a.len() == 0 {
        if b.len() > 0 {
            assert(b.contains(b[0]));
        }
        assert(a =~= b);
    } else {
        assert(a.contains(a[0]));
        let j = choose|j: int| 0 <= j < b.len() && b[j] == a[0];
        assert(b.contains(b[0]));
        let i = choose|i: int| 0 <= i < a.len() && a[i] == b[0];
        lemma_text_lt_total(a[0], b[0]);
        lemma_text_lt_total(a[0], a[0]);
        if j > 0 {
            assert(text_lt(b[0], b[j]));
            if i > 0 {
                assert(text_lt(a[0], a[i]));
            }
        }
        assert(a[0] == b[0]);
        let a1 = a.drop_first();
        let b1 = b.drop_first();
        assert forall|x: Seq<char>| a1.contains(x) <==> b1.contains(x) by {
            if a1.contains(x) {
                let k = choose|k: int| 0 <= k < a1.len() && a1[k] == x;
                assert(a[k + 1] == x);
                assert(text_lt(a[0], a[k + 1]));
                lemma_text_lt_total(a[0], x);
                assert(b.contains(x));
                let m = choose|m: int| 0 <= m < b.len() && b[m] == x;
                assert(m != 0);
                assert(b1[m - 1] == x);
            }
            if b1.contains(x) {
                let k = choose|k: int| 0 <= k < b1.len() && b1[k] == x;
                assert(b[k + 1] == x);
                assert(text_lt(b[0], b[k + 1]));
                lemma_text_lt_total(b[0], x);
                assert(a.contains(x));
                let m = choose|m: int| 0 <= m < a.len() && a[m] == x;
                assert(m != 0);
                assert(a1[m - 1] == x);
            }
        }
        assert forall|p: int, q: int| 0 <= p < q < a1.len() implies text_lt(
            #[trigger] a1[p],
            #[trigger] a1[q],
        ) by {
            assert(a1[p] == a[p + 1] && a1[q] == a[q + 1]);
        }
        assert forall|p: int, q: int| 0 <= p < q < b1.len() implies text_lt(
            #[trigger] b1[p],
            #[trigger] b1[q],
        ) by {
            assert(b1[p] == b[p + 1] && b1[q] == b[q + 1]);
        }
        lemma_ascending_unique(a1, b1);
        assert(a =~= seq![a[0]] + a1);
        assert(b =~= seq![b[0]] + b1);
    }
}

/// Character vectors by their characters.
pub open spec fn chars_view(v: Seq<Vec<char>>) -> Seq<Seq<char>> {
    v.map_values(|c: Vec<char>| c@)
}

/// The author names, ascending and each once.
fn sorted_names(authors: &Vec<(String, String)>) -> (out: Vec<Vec<char>>)
    ensures
        ascending(chars_view(out@)),
        same_names(chars_view(out@), authors@.map_values(|p: (String, String)| p.0@)),
{
    let ghost names = authors@.map_values(|p: (String, String)| p.0@);
    let mut out: Vec<Vec<char>> = Vec::new();
    let mut i: usize = 0;
    while i < authors.len()
        invariant
            i <= authors@.len(),
            names == authors@.map_values(|p: (String, String)| p.0@),
            ascending(chars_view(out@)),
            same_names(chars_view(out@), names.take(i as int)),
        decreases authors@.len() - i,
    {
        let x = chars_of(authors[i].0.as_str());
        let ghost v = chars_view(out@);
        let mut k: usize = 0;
        while k < out.len() && text_less(&out[k], &x)
            invariant
                k <= out@.len(),
                v == chars_view(out@),
                forall|m: int| 0 <= m < k ==> text_lt(#[trigger] v[m], x@),
            decreases out@.len() - k,
        {
            k = k + 1;
        }
        let dup = k < out.len() && eq_seq(&out[k], &x);
        proof {
            assert(names.take(i + 1) =~= names.take(i as int).push(x@));
        }
        if !dup {
            proof {
                if k < v.len() {
                    lemma_text_lt_total(v[k as int], x@);
                }
            }
            out.insert(k, x);
            proof {
                let w = chars_view(out@);
                assert(w =~= v.insert(k as int, x@));
                assert forall|p: int, q: int| 0 <= p < q < w.len() implies text_lt(
                    #[trigger] w[p],
                    #[trigger] w[q],
                ) by {
                    if q < k {
                    } else if p < k && q == k {
                    } else if p < k {
                        assert(text_lt(v[p], x@));
                        assert(text_lt(x@, v[k as int]));
                        if q - 1 > k {
                            lemma_text_lt_trans(x@, v[k as int], v[q - 1]);
                        }
                        lemma_text_lt_trans(v[p], x@, v[q - 1]);
                    } else if p == k {
                        if q - 1 > k {
                            lemma_text_lt_trans(x@, v[k as int], v[q - 1]);
                        }
                    } else {
                        assert(w[p] == v[p - 1] && w[q] == v[q - 1]);
                    }
                }
                let prev = names.take(i as int);
                let nxt = names.take(i + 1);
                assert forall|y: Seq<char>| w.contains(y) <==> nxt.contains(y) by {
                    if w.contains(y) {
                        let m = choose|m: int| 0 <= m < w.len() && w[m] == y;
                        if m == k {
                            assert(nxt[prev.len() as int] == y);
                        } else {
                            if m < k {
                                assert(v[m] == y);
                            } else {
                                assert(v[m - 1] == y);
                            }
                            assert(v.contains(y));
                            assert(prev.contains(y));
                            let p = choose|p: int| 0 <= p < prev.len() && prev[p] == y;
                            assert(nxt[p] == y);
                        }
                    }
                    if nxt.contains(y) {
                        let m = choose|m: int| 0 <= m < nxt.len() && nxt[m] == y;
                        if m == prev.len() {
                            assert(w[k as int] == y);
                        } else {
                            assert(prev[m] == y);
                            assert(prev.contains(y));
                            assert(v.contains(y));
                            let p = choose|p: int| 0 <= p < v.len() && v[p] == y;
                            if p < k {
                                assert(w[p] == y);
                            } else {
                                assert(w[p + 1] == y);
                            }
                        }
                    }
                }
            }
        } else {
            proof {
                assert(v[k as int] == x@);
                let prev = names.take(i as int);
                let nxt = names.take(i + 1);
                assert forall|y: Seq<char>| v.contains(y) <==> nxt.contains(y) by {
                    if v.contains(y) {
                        assert(prev.contains(y));
                        let p = choose|p: int| 0 <= p < prev.len() && prev[p] == y;
                        assert(nxt[p] == y);
                    }
                    if nxt.contains(y) {
                        let m = choose|m: int| 0 <= m < nxt.len() && nxt[m] == y;
                        if m == prev.len() {
                            assert(v.contains(y));
                        } else {
                            assert(prev[m] == y);
                            assert(prev.contains(y));
                        }
                    }
                }
            }
        }
        i = i + 1;
    }
    proof {
        assert(names.take(authors@.len() as int) =~= names);
    }
    out
}

impl Asset {
    /// The author names joined with a comma, in ascending order and each
    /// once, as the catalogue's name-keyed map gives them.
    pub fn credit(&self) -> (s: String)
        ensures
            ascending(credit_names(*self)),
            same_names(credit_names(*self), author_names(*self)),
            s@ == join(credit_names(*self), ", "@),
    {
        let sorted = sorted_names(&self.authors);
        let ghost names = chars_view(sorted@);
        proof {
            let c = credit_names(*self);
            assert(ascending(c) && same_names(c, author_names(*self)));
            assert forall|x: Seq<char>| c.contains(x) <==> names.contains(x) by {}
            lemma_ascending_unique(c, names);
        }
        let mut s = String::new();
        let mut i: usize = 0;
        while i < sorted.len()
            invariant
                names == chars_view(sorted@),
                i <= sorted@.len(),
                s@ == join(names.take(i as int), ", "@),
            decreases sorted@.len() - i,
        {
            if i > 0 {
                push_str(&mut s, ", ");
            }
            let part = string_from(sorted[i].as_slice());
            push_str(&mut s, part.as_str());
            proof {
                let t = names.take(i + 1);
                assert(t.drop_last() =~= names.take(i as int));
                assert(t.last() == sorted@[i as int]@);
                if i == 0 {
                    assert(join(names.take(0), ", "@) =~= Seq::<char>::empty());
                    assert(s@ =~= t[0]);
                }
            }
            i = i + 1;
        }
        assert(names.take(sorted@.len() as int) =~= names);
        s
    }

    /// Does every whitespace-separated term in the query appear in this entry?
    ///
    /// All terms must match (narrowing as you type), but each may match the
    /// name, the slug, a tag or a category, so "wood chair" finds a chair
    /// tagged wood. `terms` are expected lowercased already.
    pub fn matches(&self, terms: &[String]) -> (r: bool)
        ensures
            r == asset_matches(*self, terms@),
    {
        let name = chars_of(to_lowercase(self.name.as_str()).as_str());
        let slug = chars_of(self.slug.as_str());
        let tags = lowered_all(&self.tags);
        let cats = lowered_all(&self.categories);
        let mut i: usize = 0;
        while i < terms.len()
            invariant
                i <= terms@.len(),
                name@ == lowercase(self.name@),
                slug@ == self.slug@,
                tags@.len() == self.tags@.len(),
                forall|k: int| 0 <= k < self.tags@.len() ==> (#[trigger] tags@[k])@ == lowercase(self.tags@[k]@),
                cats@.len() == self.categories@.len(),
                forall|k: int|
                    0 <= k < self.categories@.len() ==> (#[trigger] cats@[k])@ == lowercase(
                        self.categories@[k]@,
                    ),
                forall|k: int| 0 <= k < i ==> term_matches(*self, #[trigger] terms@[k]@),
            decreases terms@.len() - i,
        {
            let term = chars_of(terms[i].as_str());
            let hit = contains_seq(&name, &term) || contains_seq(&slug, &term) || any_contains(
                &tags,
                &term,
            ) || any_contains(&cats, &term);
            proof {
                if hit != term_matches(*self, terms@[i as int]@) {
                    if exists|k: int| 0 <= k < tags@.len() && has_substring(tags@[k]@, term@) {
                        let k = choose|k: int| 0 <= k < tags@.len() && has_substring(tags@[k]@, term@);
                        assert(has_substring(lowercase(self.tags@[k]@), terms@[i as int]@));
                    }
                    if exists|k: int| 0 <= k < cats@.len() && has_substring(cats@[k]@, term@) {
                        let k = choose|k: int| 0 <= k < cats@.len() && has_substring(cats@[k]@, term@);
                        assert(has_substring(lowercase(self.categories@[k]@), terms@[i as int]@));
                    }
                    if exists|k: int|
                        0 <= k < self.tags@.len() && has_substring(
                            lowercase(self.tags@[k]@),
                            terms@[i as int]@,
                        ) {
                        let k = choose|k: int|
                            0 <= k < self.tags@.len() && has_substring(
                                lowercase(self.tags@[k]@),
                                terms@[i as int]@,
                            );
                        assert(has_substring(tags@[k]@, term@));
                    }
                    if exists|k: int|
                        0 <= k < self.categories@.len() && has_substring(
                            lowercase(self.categories@[k]@),
                            terms@[i as int]@,
                        ) {
                        let k = choose|k: int|
                            0 <= k < self.categories@.len() && has_substring(
                                lowercase(self.categories@[k]@),
                                terms@[i as int]@,
                            );
                        assert(has_substring(cats@[k]@, term@));
                    }
                }
            }
            if !hit {
                return false;
            }
            i = i + 1;
        }
        true
    }
}

// ── Catalogue order ─────────────────────────────────────────────────────────

/// Lexicographic order of two strings by code point, which is the order of
/// their UTF-8 bytes and so the order `String` compares in.
pub open spec fn text_lt(a: Seq<char>, b: Seq<char>) -> bool
    decreases a.len(),
{
    if a.len() == 0 {
        b.len() > 0
    } else if b.len() == 0 {
        false
    } else if a[0] != b[0] {
        (a[0] as u32) < (b[0] as u32)
    } else {
        text_lt(a.drop_first(), b.drop_first())
    }
}

/// Distinct characters have distinct code points.
proof fn lemma_char_code_injective(a: char, b: char)
    ensures
        (a as u32) == (b as u32) ==> a == b,
{
    vstd::utf8::char_u32_cast(a, a as u32);
    vstd::utf8::char_u32_cast(b, b as u32);
}

/// `text_lt` is a strict total order.
pub proof fn lemma_text_lt_total(a: Seq<char>, b: Seq<char>)
    ensures
        text_lt(a, b) ==> !text_lt(b, a) && a != b,
        a != b ==> text_lt(a, b) || text_lt(b, a),
    decreases a.len(),
{
    if a.len() > 0 && b.len() > 0 {
        if a[0] == b[0] {
            lemma_text_lt_total(a.drop_first(), b.drop_first());
            if a != b {
                assert(a =~= seq![a[0]] + a.drop_first());
                assert(b =~= seq![b[0]] + b.drop_first());
            }
        } else {
            lemma_char_code_injective(a[0], b[0]);
        }
    } else if a.len() == 0 && b.len() == 0 {
        assert(a =~= b);
    }
}

/// `text_lt` is transitive.
pub proof fn lemma_text_lt_trans(a: Seq<char>, b: Seq<char>, c: Seq<char>)
    requires
        text_lt(a, b),
        text_lt(b, c),
    ensures
        text_lt(a, c),
    decreases a.len(),
{
    if a.len() > 0 && b.len() > 0 && c.len() > 0 {
        if a[0] == b[0] && b[0] == c[0] {
            lemma_text_lt_trans(a.drop_first(), b.drop_first(), c.drop_first());
        } else if a[0] != c[0] {
        } else {
            lemma_char_code_injective(a[0], b[0]);
            lemma_char_code_injective(b[0], c[0]);
        }
    }
}

proof fn lemma_text_lt_skip(a: Seq<char>, b: Seq<char>, k: int)
    requires
        0 <= k <= a.len(),
        k <= b.len(),
        a.take(k) == b.take(k),
    ensures
        text_lt(a, b) == text_lt(a.skip(k), b.skip(k)),
    decreases k,
{
    if k > 0 {
        assert(a[0] == a.take(k)[0]);
        assert(b[0] == b.take(k)[0]);
        assert(a.drop_first().take(k - 1) =~= a.take(k).drop_first());
        assert(b.drop_first().take(k - 1) =~= b.take(k).drop_first());
        lemma_text_lt_skip(a.drop_first(), b.drop_first(), k - 1);
        assert(a.drop_first().skip(k - 1) =~= a.skip(k));
        assert(b.drop_first().skip(k - 1) =~= b.skip(k));
    } else {
        assert(a.skip(0) =~= a);
        assert(b.skip(0) =~= b);
    }
}

/// Whether `a` sorts before `b`.
fn text_less(a: &Vec<char>, b: &Vec<char>) -> (r: bool)
    ensures
        r == text_lt(a@, b@),
{
    let mut k: usize = 0;
    while k < a.len() && k < b.len() && a[k] == b[k]
        invariant
            k <= a@.len(),
            k <= b@.len(),
            a@.take(k as int) == b@.take(k as int),
        decreases a@.len() - k,
    {
        k = k + 1;
        assert(a@.take(k as int) =~= a@.take(k - 1).push(a@[k - 1]));
        assert(b@.take(k as int) =~= b@.take(k - 1).push(b@[k - 1]));
    }
    proof {
        lemma_text_lt_skip(a@, b@, k as int);
    }
    if k == a.len() {
        return k < b.len();
    }
    if k == b.len() {
        return false;
    }
    proof {
        assert(a@.skip(k as int)[0] == a@[k as int]);
        assert(b@.skip(k as int)[0] == b@[k as int]);
    }
    (a[k] as u32) < (b[k] as u32)
}

/// `a` is listed before `b` by the catalogue's key: newer first, then by name.
pub open spec fn key_lt(a: Asset, b: Asset) -> bool {
    a.date_published > b.date_published || (a.date_published == b.date_published && text_lt(
        a.name@,
        b.name@,
    ))
}

/// `a` and `b` tie on the catalogue's key.
pub open spec fn key_eq(a: Asset, b: Asset) -> bool {
    a.date_published == b.date_published && a.name@ == b.name@
}

/// `a` (from input position `ia`) comes before `b` (from `ib`) in a stable sort
/// by the catalogue key.
pub open spec fn sorted_before(a: Asset, ia: int, b: Asset, ib: int) -> bool {
    key_lt(a, b) || (key_eq(a, b) && ia < ib)
}

/// A catalogue entry with its object key as its slug.
pub open spec fn named(e: (String, Asset)) -> Asset {
    Asset { slug: e.0, ..e.1 }
}

/// `perm` is a permutation of `0..n`.
pub open spec fn is_permutation(perm: Seq<int>, n: int) -> bool {
    &&& perm.len() == n
    &&& forall|k: int| 0 <= k < n ==> 0 <= #[trigger] perm[k] < n
    &&& forall|j: int, k: int| 0 <= j < k < n ==> perm[j] != perm[k]
}

/// `out` is `entries`, each named by its key, stably sorted newest first and
/// then by name.
pub open spec fn is_catalogue_order(entries: Seq<(String, Asset)>, out: Seq<Asset>) -> bool {
    exists|perm: Seq<int>|
        {
            &&& is_permutation(perm, entries.len() as int)
            &&& out.len() == entries.len()
            &&& forall|k: int| 0 <= k < out.len() ==> #[trigger] out[k] == named(entries[perm[k]])
            &&& forall|j: int, k: int|
                0 <= j < k < out.len() ==> sorted_before(out[j], perm[j], out[k], perm[k])
        }
}

proof fn lemma_key_facts(a: Asset, b: Asset, c: Asset)
    ensures
        key_lt(a, b) ==> !key_lt(b, a) && !key_eq(a, b),
        key_lt(a, b) || key_lt(b, a) || key_eq(a, b),
        key_lt(a, b) && key_lt(b, c) ==> key_lt(a, c),
        key_lt(a, b) && key_eq(b, c) ==> key_lt(a, c),
        key_eq(a, b) && key_lt(b, c) ==> key_lt(a, c),
{
    lemma_text_lt_total(a.name@, b.name@);
    if key_lt(a, b) && key_lt(b, c) && a.date_published == c.date_published {
        lemma_text_lt_trans(a.name@, b.name@, c.name@);
    }
}

/// Order a parsed catalogue: each entry takes its object key as its slug, and
/// the list runs newest first, then by name, ties kept in their input order.
///
/// The response is a JSON object and carries no order of its own; sorting
/// here means the grid opens on the newest uploads.
pub fn sort_catalogue(entries: Vec<(String, Asset)>) -> (out: Vec<Asset>)
    ensures
        is_catalogue_order(entries@, out@),
{
    let ghost orig = entries@;
    let n = entries.len();
    let mut rest = entries;
    let mut out: Vec<Asset> = Vec::new();
    let mut names: Vec<Vec<char>> = Vec::new();
    let ghost mut perm: Seq<int> = Seq::empty();
    while rest.len() > 0
        invariant
            rest@ == orig.take(rest@.len() as int),
            rest@.len() <= orig.len(),
            n == orig.len(),
            out@.len() == n - rest@.len(),
            names@.len() == out@.len(),
            perm.len() == out@.len(),
            forall|k: int| 0 <= k < out@.len() ==> (#[trigger] names@[k])@ == out@[k].name@,
            forall|k: int| 0 <= k < out@.len() ==> rest@.len() <= #[trigger] perm[k] < n,
            forall|j: int, k: int| 0 <= j < k < out@.len() ==> perm[j] != perm[k],
            forall|k: int| 0 <= k < out@.len() ==> #[trigger] out@[k] == named(orig[perm[k]]),
            forall|j: int, k: int|
                0 <= j < k < out@.len() ==> sorted_before(out@[j], perm[j], out@[k], perm[k]),
        decreases rest@.len(),
    {
        let i = rest.len() - 1;
        let ghost before = out@;
        let ghost perm_before = perm;
        let ghost names_before = names@;
        let (slug, mut asset) = rest.pop().unwrap();
        asset.slug = slug;
        assert(asset == named(orig[i as int])) by {
            assert(orig.take(i + 1)[i as int] == orig[i as int]);
        }
        let name = chars_of(asset.name.as_str());
        // Everything strictly before the new entry by key comes first.
        let mut pos: usize = 0;
        while pos < out.len() && (out[pos].date_published > asset.date_published || (
        out[pos].date_published == asset.date_published && text_less(&names[pos], &name)))
            invariant
                pos <= out@.len(),
                out@ == before,
                names@.len() == out@.len(),
                name@ == asset.name@,
                forall|k: int| 0 <= k < out@.len() ==> (#[trigger] names@[k])@ == out@[k].name@,
                forall|k: int| 0 <= k < pos ==> key_lt(#[trigger] out@[k], asset),
            decreases out@.len() - pos,
        {
            pos = pos + 1;
        }
        proof {
            // Past `pos` nothing sorts before the new entry.
            assert forall|q: int| pos <= q < before.len() implies !key_lt(#[trigger] before[q], asset) by {
                if q > pos {
                    lemma_key_facts(before[pos as int], before[q], asset);
                    assert(sorted_before(before[pos as int], perm[pos as int], before[q], perm[q]));
                    if key_lt(before[q], asset) {
                        if key_lt(before[pos as int], before[q]) {
                        } else {
                            assert(key_eq(before[pos as int], before[q]));
                        }
                    }
                }
            }
        }
        out.insert(pos, asset);
        names.insert(pos, name);
        proof {
            perm = perm.insert(pos as int, i as int);
            assert forall|j: int, k: int| 0 <= j < k < out@.len() implies sorted_before(
                out@[j],
                perm[j],
                out@[k],
                perm[k],
            ) by {
                if j < pos && k == pos {
                    assert(key_lt(before[j], asset));
                } else if j == pos && k > pos {
                    lemma_key_facts(asset, before[k - 1], asset);
                    lemma_key_facts(before[k - 1], asset, asset);
                    assert(!key_lt(before[k - 1], asset));
                    assert(perm_before[k - 1] > i);
                } else if j < pos && k > pos {
                    assert(sorted_before(before[j], perm_before[j], before[k - 1], perm_before[k - 1]));
                } else if j > pos {
                    assert(sorted_before(before[j - 1], perm_before[j - 1], before[k - 1], perm_before[k - 1]));
                } else {
                    assert(sorted_before(before[j], perm_before[j], before[k], perm_before[k]));
                }
            }
            assert forall|k: int| 0 <= k < out@.len() implies (#[trigger] names@[k])@ == out@[k].name@ by {
                if k < pos {
                } else if k > pos {
                    assert(names@[k] == names_before[k - 1]);
                }
            }
        }
    }
    proof {
        assert(is_permutation(perm, n as int));
    }
    out
}

/// `/assets?t=<kind>`.
pub fn catalogue_url(kind: Kind) -> (u: String)
    ensures
        u@ == API@ + "/assets?t="@ + kind_slug(kind),
{
    let mut u = String::new();
    push_str(&mut u, API);
    push_str(&mut u, "/assets?t=");
    push_str(&mut u, kind.slug());
    u
}

/// `/files/<slug>`.
pub fn files_url(slug: &str) -> (u: String)
    ensures
        u@ == API@ + "/files/"@ + slug@,
{
    let mut u = String::new();
    push_str(&mut u, API);
    push_str(&mut u, "/files/");
    push_str(&mut u, slug);
    u
}

/// The preview image for `slug`, at tile size.
pub fn thumb_url(slug: &str) -> (u: String)
    ensures
        u@ == THUMBS@ + "/"@ + slug@ + ".png?width=256"@,
{
    let mut u = String::new();
    push_str(&mut u, THUMBS);
    push_str(&mut u, "/");
    push_str(&mut u, slug);
    push_str(&mut u, ".png?width=256");
    u
}

// ── Paths ───────────────────────────────────────────────────────────────────

/// Backslashes read as forward slashes.
pub open spec fn slashes(s: Seq<char>) -> Seq<char> {
    s.map_values(|c: char| if c == '\\' { '/' } else { c })
}

/// `s[i..j]` is one `/`-separated component of `s`.
pub open spec fn is_component(s: Seq<char>, i: int, j: int) -> bool {
    &&& 0 <= i <= j <= s.len()
    &&& i == 0 || s[i - 1] == '/'
    &&& j == s.len() || s[j] == '/'
    &&& forall|k: int| i <= k < j ==> s[k] != '/'
}

/// A component that must not appear in a relative path: empty, `.` or `..`.
pub open spec fn bad_component(p: Seq<char>) -> bool {
    p.len() == 0 || p == seq!['.'] || p == seq!['.', '.']
}

/// A bad component, character by character.
proof fn lemma_bad_component_chars(p: Seq<char>)
    ensures
        bad_component(p) == (p.len() == 0 || (p.len() == 1 && p[0] == '.') || (p.len() == 2 && p[0]
            == '.' && p[1] == '.')),
{
    if p.len() == 1 && p[0] == '.' {
        assert(p =~= seq!['.']);
    }
    if p.len() == 2 && p[0] == '.' && p[1] == '.' {
        assert(p =~= seq!['.', '.']);
    }
}

/// What [`safe_rel`] returns: the path with backslashes normalised, when it is
/// non-empty, not absolute, has no `:` and no empty, `.` or `..` component.
pub open spec fn spec_safe_rel(rel: Seq<char>) -> Option<Seq<char>> {
    let r = slashes(rel);
    if r.len() == 0 || r[0] == '/' || r.contains(':') {
        None
    } else if exists|i: int, j: int| is_component(r, i, j) && bad_component(r.subrange(i, j)) {
        None
    } else {
        Some(r)
    }
}

/// The only component ending at `k` starts right after the last `/` before it.
proof fn lemma_component_start(s: Seq<char>, start: int, i: int, k: int)
    requires
        0 <= start <= k <= s.len(),
        start == 0 || s[start - 1] == '/',
        forall|m: int| start <= m < k ==> s[m] != '/',
        is_component(s, i, k),
    ensures
        i == start,
{
    if i < start {
        assert(s[start - 1] != '/');
    } else if i > start {
        assert(s[i - 1] != '/');
    }
}

/// Accept a relative path that stays inside the folder it will be joined to.
///
/// Rejects an absolute path, a Windows drive prefix, any `..` component, and
/// any component that is empty or a bare `.`, because `a//b` and `a/./b`
/// normalise to paths that look different from what was checked. A backslash
/// counts as a separator.
pub fn safe_rel(rel: &str) -> (r: Option<String>)
    ensures
        r matches Some(s) ==> spec_safe_rel(rel@) == Some(s@),
        r is None ==> spec_safe_rel(rel@) is None,
{
    let raw = chars_of(rel);
    let mut v: Vec<char> = Vec::new();
    let mut i: usize = 0;
    while i < raw.len()
        invariant
            i <= raw@.len(),
            v@ == slashes(raw@).take(i as int),
        decreases raw@.len() - i,
    {
        let c = raw[i];
        if c == '\\' {
            v.push('/');
        } else {
            v.push(c);
        }
        i = i + 1;
        assert(v@ =~= slashes(raw@).take(i as int));
    }
    assert(v@ =~= slashes(rel@));
    let ghost rr = slashes(rel@);
    if v.len() == 0 {
        assert(spec_safe_rel(rel@) is None);
        return None;
    }
    if v[0] == '/' {
        assert(rr[0] == '/');
        return None;
    }
    let mut k: usize = 0;
    while k < v.len()
        invariant
            v@ == rr,
            rr == slashes(rel@),
            k <= v@.len(),
            forall|m: int| 0 <= m < k ==> v@[m] != ':',
        decreases v@.len() - k,
    {
        if v[k] == ':' {
            assert(rr.contains(':'));
            return None;
        }
        k = k + 1;
    }
    assert(!rr.contains(':'));
    // Walk the components: `start` is where the current one began.
    let mut start: usize = 0;
    let mut k: usize = 0;
    while k < v.len()
        invariant
            v@ == rr,
            rr == slashes(rel@),
            rr.len() > 0,
            start <= k <= rr.len(),
            start == 0 || rr[start - 1] == '/',
            forall|m: int| start <= m < k ==> rr[m] != '/',
            forall|a: int, b: int| is_component(rr, a, b) && b < k ==> !bad_component(rr.subrange(a, b)),
        decreases rr.len() - k,
    {
        if v[k] == '/' {
            let len = k - start;
            let bad = len == 0 || (len == 1 && v[start] == '.') || (len == 2 && v[start] == '.'
                && v[start + 1] == '.');
            proof {
                let p = rr.subrange(start as int, k as int);
                assert(p.len() == len);
                assert(len >= 1 ==> p[0] == v@[start as int]);
                assert(len >= 2 ==> p[1] == v@[start + 1]);
                assert(is_component(rr, start as int, k as int));
                lemma_bad_component_chars(p);
                assert(bad == bad_component(p));
            }
            if bad {
                assert(is_component(rr, start as int, k as int) && bad_component(
                    rr.subrange(start as int, k as int),
                ));
                return None;
            }
            proof {
                assert forall|a: int, b: int| is_component(rr, a, b) && b < k + 1 implies !bad_component(
                    rr.subrange(a, b),
                ) by {
                    if b == k {
                        lemma_component_start(rr, start as int, a, k as int);
                    }
                }
            }
            start = k + 1;
        }
        k = k + 1;
    }
    // The last component runs to the end.
    let len = k - start;
    let bad = len == 0 || (len == 1 && v[start] == '.') || (len == 2 && v[start] == '.' && v[start
        + 1] == '.');
    proof {
        let p = rr.subrange(start as int, k as int);
        assert(is_component(rr, start as int, k as int));
        assert(p.len() == len);
        assert(len >= 1 ==> p[0] == v@[start as int]);
        assert(len >= 2 ==> p[1] == v@[start + 1]);
        lemma_bad_component_chars(p);
        assert(bad == bad_component(p));
    }
    if bad {
        assert(is_component(rr, start as int, k as int) && bad_component(
            rr.subrange(start as int, k as int),
        ));
        return None;
    }
    proof {
        assert forall|a: int, b: int| is_component(rr, a, b) implies !bad_component(rr.subrange(a, b)) by {
            if b == k {
                lemma_component_start(rr, start as int, a, k as int);
            }
        }
    }
    Some(string_from(v.as_slice()))
}

// ── Percent escapes ─────────────────────────────────────────────────────────

/// An ASCII hex digit.
pub open spec fn is_hex(b: u8) -> bool {
    (48 <= b <= 57) || (65 <= b <= 70) || (97 <= b <= 102)
}

/// The value of an ASCII hex digit.
pub open spec fn hex_val(b: u8) -> int {
    if 48 <= b <= 57 {
        b - 48
    } else if 65 <= b <= 70 {
        b - 55
    } else {
        b - 87
    }
}

/// The byte two characters after a `%` stand for: both must be hex digits.
/// Anything else is no escape.
pub open spec fn hex_pair(b1: u8, b2: u8) -> Option<u8> {
    if is_hex(b1) && is_hex(b2) {
        Some((16 * hex_val(b1) + hex_val(b2)) as u8)
    } else {
        None
    }
}

/// The bytes of `bs[i..]` with every decodable `%XX` replaced by its byte.
/// An escape needs both digit bytes present after the `%`.
pub open spec fn unescape_from(bs: Seq<u8>, i: int) -> Seq<u8>
    decreases bs.len() - i,
{
    if i < 0 || i >= bs.len() {
        Seq::empty()
    } else if bs[i] == 37 && i + 2 < bs.len() && hex_pair(bs[i + 1], bs[i + 2]) is Some {
        seq![hex_pair(bs[i + 1], bs[i + 2])->0] + unescape_from(bs, i + 3)
    } else {
        seq![bs[i]] + unescape_from(bs, i + 1)
    }
}

/// What [`percent_decode`] returns for the string `s`.
pub open spec fn spec_percent_decode(s: Seq<char>) -> Seq<char> {
    utf8_lossy(unescape_from(vstd::utf8::encode_utf8(s), 0))
}

/// A UTF-8 encoding holds the byte of `%` only where the text holds a `%`:
/// every other character encodes either as itself or as bytes of 0x80 and
/// above.
proof fn lemma_no_percent_bytes(s: Seq<char>)
    requires
        forall|i: int| 0 <= i < s.len() ==> s[i] != '%',
    ensures
        forall|j: int|
            0 <= j < vstd::utf8::encode_utf8(s).len() ==> vstd::utf8::encode_utf8(s)[j] != 37,
    decreases s.len(),
{
    if s.len() > 0 {
        let rest = s.drop_first();
        assert forall|i: int| 0 <= i < rest.len() implies rest[i] != '%' by {
            assert(rest[i] == s[i + 1]);
        }
        lemma_no_percent_bytes(rest);
        let c = s[0] as u32;
        if c == 37 {
            vstd::utf8::char_u32_cast(s[0], c);
            vstd::utf8::char_u32_cast('%', 37u32);
        }
        let head = vstd::utf8::encode_scalar(c);
        assert forall|k: int| 0 <= k < head.len() implies head[k] != 37 by {
            if vstd::utf8::has_width_1_encoding(c) {
                assert((c & 0x7F) as u8 != 37) by (bit_vector)
                    requires
                        c <= 0x7F,
                        c != 37,
                ;
            } else {
                let x2 = ((c >> 6) & 0x1F) as u8;
                let x3 = ((c >> 12) & 0x0F) as u8;
                let x4 = ((c >> 18) & 0x7) as u8;
                let y1 = (c & 0x3F) as u8;
                let y2 = ((c >> 6) & 0x3F) as u8;
                let y3 = ((c >> 12) & 0x3F) as u8;
                assert((0xC0u8 | x2) != 37u8) by (bit_vector);
                assert((0xE0u8 | x3) != 37u8) by (bit_vector);
                assert((0xF0u8 | x4) != 37u8) by (bit_vector);
                assert((0x80u8 | y1) != 37u8) by (bit_vector);
                assert((0x80u8 | y2) != 37u8) by (bit_vector);
                assert((0x80u8 | y3) != 37u8) by (bit_vector);
            }
        }
        let e = vstd::utf8::encode_utf8(s);
        let t = vstd::utf8::encode_utf8(rest);
        assert(e == head + t);
        assert forall|j: int| 0 <= j < e.len() implies e[j] != 37 by {
            if j < head.len() {
                assert(e[j] == head[j]);
            } else {
                assert(e[j] == t[j - head.len()]);
            }
        }
    }
}

/// Bytes without a `%` unescape to themselves.
proof fn lemma_unescape_plain(bs: Seq<u8>, i: int)
    requires
        0 <= i <= bs.len(),
        forall|j: int| 0 <= j < bs.len() ==> bs[j] != 37,
    ensures
        unescape_from(bs, i) == bs.skip(i),
    decreases bs.len() - i,
{
    if i < bs.len() {
        lemma_unescape_plain(bs, i + 1);
        assert(seq![bs[i]] + bs.skip(i + 1) =~= bs.skip(i));
    } else {
        assert(bs.skip(i) =~= Seq::<u8>::empty());
    }
}

/// Digit value of an ASCII hex byte, if it is one.
fn hex_digit(b: u8) -> (r: Option<u8>)
    ensures
        r == (if is_hex(b) { Some(hex_val(b) as u8) } else { None::<u8> }),
{
    if 48 <= b && b <= 57 {
        Some(b - 48)
    } else if 65 <= b && b <= 70 {
        Some(b - 55)
    } else if 97 <= b && b <= 102 {
        Some(b - 87)
    } else {
        None
    }
}

/// The byte a `%` escape stands for: two hex digits, or none.
fn hex_pair_exec(b1: u8, b2: u8) -> (r: Option<u8>)
    ensures
        r == hex_pair(b1, b2),
{
    match (hex_digit(b1), hex_digit(b2)) {
        (Some(hi), Some(lo)) => Some(16 * hi + lo),
        _ => None,
    }
}

/// Decode `%XX` escapes, `XX` being two hex digits. Poly Haven's extras live
/// under paths like `Color%20Charts/`, and a filename written with the escape
/// still in it is a different name from the one the glTF references. A `%`
/// not followed by two hex digits is left alone; the decoded bytes are read as
/// UTF-8, lossily.
pub fn percent_decode(s: &str) -> (r: String)
    ensures
        r@ == spec_percent_decode(s@),
        (forall|i: int| 0 <= i < s@.len() ==> s@[i] != '%') ==> r@ == s@,
{
    let bytes = bytes_of(s);
    let ghost bs = bytes@;
    let mut out: Vec<u8> = Vec::new();
    let mut i: usize = 0;
    while i < bytes.len()
        invariant
            bytes@ == bs,
            i <= bs.len(),
            out@ + unescape_from(bs, i as int) == unescape_from(bs, 0),
        decreases bs.len() - i,
    {
        if bytes[i] == 37 && bytes.len() - i > 2 {
            if let Some(byte) = hex_pair_exec(bytes[i + 1], bytes[i + 2]) {
                proof {
                    assert(unescape_from(bs, i as int) == seq![byte] + unescape_from(bs, i + 3));
                    assert(out@.push(byte) + unescape_from(bs, i + 3) =~= out@ + (seq![byte]
                        + unescape_from(bs, i + 3)));
                }
                out.push(byte);
                i = i + 3;
                continue;
            }
        }
        proof {
            assert(unescape_from(bs, i as int) == seq![bs[i as int]] + unescape_from(bs, i + 1));
            assert(out@.push(bs[i as int]) + unescape_from(bs, i + 1) =~= out@ + (seq![bs[i as int]]
                + unescape_from(bs, i + 1)));
        }
        out.push(bytes[i]);
        i = i + 1;
    }
    assert(out@ =~= unescape_from(bs, 0));
    proof {
        if forall|i: int| 0 <= i < s@.len() ==> s@[i] != '%' {
            lemma_no_percent_bytes(s@);
            lemma_unescape_plain(bs, 0);
            assert(bs.skip(0) =~= bs);
            vstd::utf8::encode_utf8_valid_utf8(s@);
            vstd::utf8::encode_utf8_decode_utf8(s@);
        }
    }
    from_utf8_lossy(out.as_slice())
}

// ── Filenames ───────────────────────────────────────────────────────────────

/// `k` is the position of the last `c` in `s`, or `-1` when there is none.
pub open spec fn is_last_of(s: Seq<char>, c: char, k: int) -> bool {
    &&& -1 <= k < s.len()
    &&& k >= 0 ==> s[k] == c
    &&& forall|j: int| k < j < s.len() ==> s[j] != c
}

/// The characters after the last `c` (all of `s` when there is no `c`).
pub open spec fn after_last(s: Seq<char>, c: char) -> Seq<char> {
    let k = choose|k: int| is_last_of(s, c, k);
    s.skip(k + 1)
}

/// `k` is the position of the first `?` or `#` in `s`, or its length.
pub open spec fn is_first_query(s: Seq<char>, k: int) -> bool {
    &&& 0 <= k <= s.len()
    &&& k < s.len() ==> (s[k] == '?' || s[k] == '#')
    &&& forall|j: int| 0 <= j < k ==> s[j] != '?' && s[j] != '#'
}

/// `s` up to its first `?` or `#`.
pub open spec fn before_query(s: Seq<char>) -> Seq<char> {
    let k = choose|k: int| is_first_query(s, k);
    s.take(k)
}

/// What [`filename_of`] returns for a URL: the last `/`-segment of the URL
/// once its query and fragment are cut off.
pub open spec fn spec_filename_of(url: Seq<char>) -> Result<Seq<char>, Seq<char>> {
    let last = after_last(before_query(url), '/');
    if last.len() == 0 {
        Err("no filename in url: "@ + url)
    } else {
        match spec_safe_rel(spec_percent_decode(last)) {
            Some(rel) => Ok(rel),
            None => Err("unsafe filename in url: "@ + url),
        }
    }
}

proof fn lemma_last_of_unique(s: Seq<char>, c: char, k: int)
    requires
        is_last_of(s, c, k),
    ensures
        after_last(s, c) == s.skip(k + 1),
{
    let k2 = choose|k: int| is_last_of(s, c, k);
    assert(is_last_of(s, c, k2));
    if k2 < k {
        assert(s[k] != c);
    } else if k2 > k {
        assert(s[k2] != c);
    }
}

proof fn lemma_first_query_unique(s: Seq<char>, k: int)
    requires
        is_first_query(s, k),
    ensures
        before_query(s) == s.take(k),
{
    let k2 = choose|k: int| is_first_query(s, k);
    assert(is_first_query(s, k2));
    if k2 < k {
        assert(s[k2] != '?' && s[k2] != '#');
    } else if k2 > k {
        assert(s[k] != '?' && s[k] != '#');
    }
}

/// The characters of `u` after its last `/`.
fn last_segment(u: &Vec<char>) -> (r: Vec<char>)
    ensures
        r@ == after_last(u@, '/'),
{
    let mut i: usize = u.len();
    while i > 0 && u[i - 1] != '/'
        invariant
            i <= u@.len(),
            forall|j: int| i <= j < u@.len() ==> u@[j] != '/',
        decreases i,
    {
        i = i - 1;
    }
    proof {
        lemma_last_of_unique(u@, '/', i - 1);
    }
    let mut r: Vec<char> = Vec::new();
    let mut k: usize = i;
    while k < u.len()
        invariant
            i <= k <= u@.len(),
            r@ == u@.subrange(i as int, k as int),
        decreases u@.len() - k,
    {
        r.push(u[k]);
        k = k + 1;
        assert(r@ =~= u@.subrange(i as int, k as int));
    }
    assert(r@ =~= u@.skip(i as int));
    r
}

/// The characters of `u` before its first `?` or `#`.
fn strip_query(u: &Vec<char>) -> (r: Vec<char>)
    ensures
        r@ == before_query(u@),
{
    let mut r: Vec<char> = Vec::new();
    let mut k: usize = 0;
    while k < u.len() && u[k] != '?' && u[k] != '#'
        invariant
            k <= u@.len(),
            r@ == u@.take(k as int),
            forall|j: int| 0 <= j < k ==> u@[j] != '?' && u@[j] != '#',
        decreases u@.len() - k,
    {
        let c = u[k];
        r.push(c);
        k = k + 1;
        assert(r@ =~= u@.take(k as int));
    }
    proof {
        lemma_first_query_unique(u@, k as int);
    }
    r
}

/// The last segment of a URL's path (its query and fragment cut off first),
/// percent-decoded, as a safe relative path.
pub fn filename_of(url: &str) -> (r: Result<String, String>)
    ensures
        match r {
            Ok(s) => spec_filename_of(url@) == Ok::<Seq<char>, Seq<char>>(s@),
            Err(e) => spec_filename_of(url@) == Err::<Seq<char>, Seq<char>>(e@),
        },
{
    let u = chars_of(url);
    let path = strip_query(&u);
    let last = last_segment(&path);
    if last.len() == 0 {
        let mut e = String::new();
        push_str(&mut e, "no filename in url: ");
        push_str(&mut e, url);
        return Err(e);
    }
    let name = string_from(last.as_slice());
    let decoded = percent_decode(name.as_str());
    match safe_rel(decoded.as_str()) {
        Some(rel) => Ok(rel),
        None => {
            let mut e = String::new();
            push_str(&mut e, "unsafe filename in url: ");
            push_str(&mut e, url);
            Err(e)
        },
    }
}

// ── The files listing ───────────────────────────────────────────────────────

/// A parsed JSON value, as far as the files listing is read: strings, objects
/// (entries in the order the parser's map yields them, keys distinct) and
/// everything else.
pub enum Json {
    Str(String),
    Object(Vec<(String, Json)>),
    Other,
}

/// The value stored under `key` in an object's entries: the first entry with
/// that key.
pub open spec fn lookup(es: Seq<(String, Json)>, key: Seq<char>) -> Option<Json>
    decreases es.len(),
{
    if es.len() == 0 {
        None
    } else if es[0].0@ == key {
        Some(es[0].1)
    } else {
        lookup(es.drop_first(), key)
    }
}

/// `value.get(key)`: a field of an object, `None` for anything else.
pub open spec fn json_get(j: Json, key: Seq<char>) -> Option<Json> {
    match j {
        Json::Object(es) => lookup(es@, key),
        _ => None,
    }
}

proof fn lemma_lookup_skip(es: Seq<(String, Json)>, key: Seq<char>, i: int)
    requires
        0 <= i < es.len(),
        es[i].0@ != key,
    ensures
        lookup(es.skip(i), key) == lookup(es.skip(i + 1), key),
{
    assert(es.skip(i).drop_first() =~= es.skip(i + 1));
}

impl Json {
    /// The value under `key`, when this is an object that has one.
    pub fn get(&self, key: &str) -> (r: Option<&Json>)
        ensures
            opt_val(r) == json_get(*self, key@),
    {
        match self {
            Json::Object(es) => {
                let k = chars_of(key);
                let ghost whole = json_get(*self, key@);
                assert(whole == lookup(es@, key@));
                let mut i: usize = 0;
                assert(es@.skip(0) =~= es@);
                while i < es.len()
                    invariant
                        i <= es@.len(),
                        k@ == key@,
                        lookup(es@.skip(i as int), key@) == lookup(es@, key@),
                        whole == lookup(es@, key@),
                        whole == json_get(*self, key@),
                    decreases es@.len() - i,
                {
                    let name = chars_of(es[i].0.as_str());
                    if crate::text::eq_seq(&name, &k) {
                        assert(es@.skip(i as int)[0] == es@[i as int]);
                        assert(lookup(es@.skip(i as int), key@) == Some(es@[i as int].1));
                        assert(whole == Some(es@[i as int].1));
                        let found = &es[i].1;
                        assert(*found == es@[i as int].1);
                        let r = Some(found);
                        assert(opt_val(r) == Some(es@[i as int].1));
                        assert(whole == json_get(*self, key@));
                        return r;
                    }
                    proof {
                        lemma_lookup_skip(es@, key@, i as int);
                    }
                    i = i + 1;
                }
                assert(es@.skip(i as int).len() == 0);
                None
            },
            _ => None,
        }
    }
}

/// The `url` string of a `{ url, size, md5 }` leaf.
pub open spec fn spec_leaf_url(leaf: Option<Json>) -> Option<Seq<char>> {
    match leaf {
        Some(l) => match json_get(l, "url"@) {
            Some(Json::Str(u)) => Some(u@),
            _ => None,
        },
        None => None,
    }
}

/// A borrowed optional value, read as the value.
pub open spec fn opt_val(o: Option<&Json>) -> Option<Json> {
    match o {
        Some(j) => Some(*j),
        None => None,
    }
}

/// The `url` of a `{ url, size, md5 }` leaf.
fn leaf_url(leaf: Option<&Json>) -> (r: Option<String>)
    ensures
        match r {
            Some(u) => spec_leaf_url(opt_val(leaf)) == Some(u@),
            None => spec_leaf_url(opt_val(leaf)) is None,
        },
{
    match leaf {
        Some(l) => match l.get("url") {
            Some(Json::Str(u)) => Some(u.clone()),
            _ => None,
        },
        None => None,
    }
}

/// Resolutions to fall back through when the requested one is not published.
pub open spec fn res_fallback() -> Seq<Seq<char>> {
    seq!["1k"@, "2k"@, "4k"@, "8k"@, "16k"@, "24k"@]
}

/// The first fallback resolution from position `i` on that the slot publishes.
pub open spec fn fallback_from(slot: Json, i: int) -> Option<Json>
    decreases 6 - i,
{
    if i < 0 || i >= 6 {
        None
    } else {
        match json_get(slot, res_fallback()[i]) {
            Some(b) => Some(b),
            None => fallback_from(slot, i + 1),
        }
    }
}

/// The bucket for `res`, or the nearest published one.
pub open spec fn spec_resolve_res(slot: Json, res: Seq<char>) -> Option<Json> {
    match json_get(slot, res) {
        Some(b) => Some(b),
        None => fallback_from(slot, 0),
    }
}

/// The fallback resolution at position `i`.
fn fallback_res(i: usize) -> (r: &'static str)
    requires
        i < 6,
    ensures
        r@ == res_fallback()[i as int],
{
    match i {
        0 => "1k",
        1 => "2k",
        2 => "4k",
        3 => "8k",
        4 => "16k",
        _ => "24k",
    }
}

/// The resolution bucket for `res`, or the nearest published one.
fn resolve_res<'a>(slot: &'a Json, res: &str) -> (r: Option<&'a Json>)
    ensures
        opt_val(r) == spec_resolve_res(*slot, res@),
{
    if let Some(exact) = slot.get(res) {
        return Some(exact);
    }
    let mut i: usize = 0;
    while i < 6
        invariant
            i <= 6,
            json_get(*slot, res@) is None,
            fallback_from(*slot, i as int) == fallback_from(*slot, 0),
        decreases 6 - i,
    {
        if let Some(b) = slot.get(fallback_res(i)) {
            return Some(b);
        }
        i = i + 1;
    }
    None
}

/// One file to fetch, and where it goes relative to the asset's own folder.
#[derive(Clone, Debug)]
pub struct FilePlan {
    pub url: String,
    /// Already validated by [`safe_rel`]: never absolute, never escaping.
    pub rel: String,
}

/// A plan as `(url, rel)` pairs.
pub open spec fn plan_view(p: Seq<FilePlan>) -> Seq<(Seq<char>, Seq<char>)> {
    p.map_values(|f: FilePlan| (f.url@, f.rel@))
}

/// A planning result in terms of views.
pub open spec fn result_view(r: Result<Vec<FilePlan>, String>) -> Result<Seq<(Seq<char>, Seq<char>)>, Seq<char>> {
    match r {
        Ok(v) => Ok(plan_view(v@)),
        Err(e) => Err(e@),
    }
}

/// The single file of an HDRI: the first of `hdr`, `exr` that the bucket
/// publishes.
pub open spec fn spec_plan_hdri(files: Json, res: Seq<char>) -> Result<Seq<(Seq<char>, Seq<char>)>, Seq<char>> {
    match json_get(files, "hdri"@) {
        None => Err("no `hdri` files for this asset"@),
        Some(slot) => match spec_resolve_res(slot, res) {
            None => Err("no resolutions published"@),
            Some(bucket) => match spec_leaf_url(json_get(bucket, "hdr"@)) {
                Some(url) => match spec_filename_of(url) {
                    Ok(rel) => Ok(seq![(url, rel)]),
                    Err(e) => Err(e),
                },
                None => match spec_leaf_url(json_get(bucket, "exr"@)) {
                    Some(url) => match spec_filename_of(url) {
                        Ok(rel) => Ok(seq![(url, rel)]),
                        Err(e) => Err(e),
                    },
                    None => Err("no `hdr` or `exr` at any resolution"@),
                },
            },
        },
    }
}

/// A `String` holding the characters of a literal.
fn owned(s: &str) -> (r: String)
    ensures
        r@ == s@,
{
    let mut r = String::new();
    push_str(&mut r, s);
    r
}

/// One file from a leaf URL, or why its filename was refused.
fn file_from_url(url: String) -> (r: Result<FilePlan, String>)
    ensures
        match r {
            Ok(f) => f.url@ == url@ && spec_filename_of(url@) == Ok::<Seq<char>, Seq<char>>(f.rel@),
            Err(e) => spec_filename_of(url@) == Err::<Seq<char>, Seq<char>>(e@),
        },
{
    match filename_of(url.as_str()) {
        Ok(rel) => Ok(FilePlan { url, rel }),
        Err(e) => Err(e),
    }
}

/// `hdri.<res>.{hdr,exr}`: exactly one file. `.hdr` first, since it decodes in
/// the engine's default feature set; `.exr` when a resolution has no `.hdr`.
pub fn plan_hdri(files: &Json, res: &str) -> (r: Result<Vec<FilePlan>, String>)
    ensures
        result_view(r) == spec_plan_hdri(*files, res@),
{
    let slot = match files.get("hdri") {
        Some(s) => s,
        None => return Err(owned("no `hdri` files for this asset")),
    };
    let bucket = match resolve_res(slot, res) {
        Some(b) => b,
        None => return Err(owned("no resolutions published")),
    };
    let url = match leaf_url(bucket.get("hdr")) {
        Some(u) => u,
        None => match leaf_url(bucket.get("exr")) {
            Some(u) => u,
            None => return Err(owned("no `hdr` or `exr` at any resolution")),
        },
    };
    match file_from_url(url) {
        Ok(f) => {
            let mut v: Vec<FilePlan> = Vec::new();
            v.push(f);
            assert(plan_view(v@) =~= seq![(f.url@, f.rel@)]);
            Ok(v)
        },
        Err(e) => Err(e),
    }
}

/// The texture maps worth taking, in the order they are looked for. `nor_gl`
/// because that is the glTF green-channel convention the engine expects.
pub open spec fn texture_slots() -> Seq<Seq<char>> {
    seq!["Diffuse"@, "nor_gl"@, "Rough"@, "Metal"@, "Displacement"@]
}

/// The file for `url` as a `(url, rel)` pair, or why its name was refused.
pub open spec fn with_url(url: Seq<char>) -> Result<(Seq<char>, Seq<char>), Seq<char>> {
    match spec_filename_of(url) {
        Ok(rel) => Ok((url, rel)),
        Err(e) => Err(e),
    }
}

/// One texture slot's file: `None` when the slot, a resolution or a format is
/// not published; otherwise the first of `jpg`, `png`, or why its name was
/// refused.
pub open spec fn texture_file(files: Json, res: Seq<char>, slot: Seq<char>) -> Option<Result<(Seq<char>, Seq<char>), Seq<char>>> {
    match json_get(files, slot) {
        None => None,
        Some(s) => match spec_resolve_res(s, res) {
            None => None,
            Some(bucket) => match spec_leaf_url(json_get(bucket, "jpg"@)) {
                Some(url) => Some(with_url(url)),
                None => match spec_leaf_url(json_get(bucket, "png"@)) {
                    Some(url) => Some(with_url(url)),
                    None => None,
                },
            },
        },
    }
}

/// The texture plan from slot `i` on, with `acc` already planned.
pub open spec fn texture_from(files: Json, res: Seq<char>, i: int, acc: Seq<(Seq<char>, Seq<char>)>) -> Result<Seq<(Seq<char>, Seq<char>)>, Seq<char>>
    decreases 5 - i,
{
    if i < 0 || i >= 5 {
        if acc.len() == 0 {
            Err("no downloadable maps at any resolution"@)
        } else {
            Ok(acc)
        }
    } else {
        match texture_file(files, res, texture_slots()[i]) {
            None => texture_from(files, res, i + 1, acc),
            Some(Ok(f)) => texture_from(files, res, i + 1, acc.push(f)),
            Some(Err(e)) => Err(e),
        }
    }
}

/// The maps of a texture: every slot it publishes, skipping the rest.
pub open spec fn spec_plan_texture(files: Json, res: Seq<char>) -> Result<Seq<(Seq<char>, Seq<char>)>, Seq<char>> {
    texture_from(files, res, 0, Seq::empty())
}

/// The texture slot at position `i`.
fn texture_slot(i: usize) -> (r: &'static str)
    requires
        i < 5,
    ensures
        r@ == texture_slots()[i as int],
{
    match i {
        0 => "Diffuse",
        1 => "nor_gl",
        2 => "Rough",
        3 => "Metal",
        _ => "Displacement",
    }
}

/// The maps in the texture slot list that this texture actually publishes.
/// Missing slots are skipped: a texture with no metalness map is an ordinary
/// dielectric, not a broken asset.
pub fn plan_texture(files: &Json, res: &str) -> (r: Result<Vec<FilePlan>, String>)
    ensures
        result_view(r) == spec_plan_texture(*files, res@),
{
    let mut out: Vec<FilePlan> = Vec::new();
    assert(plan_view(out@) =~= Seq::empty());
    let mut i: usize = 0;
    while i < 5
        invariant
            i <= 5,
            texture_from(*files, res@, i as int, plan_view(out@)) == spec_plan_texture(*files, res@),
        decreases 5 - i,
    {
        let slot = texture_slot(i);
        let found = match files.get(slot) {
            None => None,
            Some(s) => resolve_res(s, res),
        };
        if let Some(bucket) = found {
            let url = match leaf_url(bucket.get("jpg")) {
                Some(u) => Some(u),
                None => leaf_url(bucket.get("png")),
            };
            if let Some(u) = url {
                match file_from_url(u) {
                    Ok(f) => {
                        proof {
                            assert(plan_view(out@.push(f)) =~= plan_view(out@).push((f.url@, f.rel@)));
                        }
                        out.push(f);
                    },
                    Err(e) => {
                        return Err(e);
                    },
                }
            }
        }
        i = i + 1;
    }
    if out.len() == 0 {
        return Err(owned("no downloadable maps at any resolution"));
    }
    Ok(out)
}

/// How many of the slots from position `i` on publish a map.
pub open spec fn slots_published(files: Json, res: Seq<char>, i: int) -> int
    decreases 5 - i,
{
    if !(0 <= i < 5) {
        0
    } else {
        (if texture_file(files, res, texture_slots()[i]) is Some {
            1int
        } else {
            0int
        }) + slots_published(files, res, i + 1)
    }
}

proof fn lemma_slots_published_nonneg(files: Json, res: Seq<char>, i: int)
    ensures
        0 <= slots_published(files, res, i),
    decreases 5 - i,
{
    if 0 <= i < 5 {
        lemma_slots_published_nonneg(files, res, i + 1);
    }
}

proof fn lemma_texture_from(files: Json, res: Seq<char>, i: int, acc: Seq<(Seq<char>, Seq<char>)>)
    requires
        0 <= i <= 5,
        texture_from(files, res, i, acc) is Ok,
    ensures
        ({
            let plan = texture_from(files, res, i, acc)->Ok_0;
            &&& plan.len() == acc.len() + slots_published(files, res, i)
            &&& forall|k: int| 0 <= k < acc.len() && k < plan.len() ==> plan[k] == acc[k]
            &&& forall|j: int|
                i <= j < 5 ==> match #[trigger] texture_file(files, res, texture_slots()[j]) {
                    Some(Ok(f)) => plan.contains(f),
                    Some(Err(_)) => false,
                    None => true,
                }
        }),
    decreases 5 - i,
{
    if i < 5 {
        match texture_file(files, res, texture_slots()[i]) {
            None => {
                lemma_texture_from(files, res, i + 1, acc);
            },
            Some(Ok(f)) => {
                lemma_texture_from(files, res, i + 1, acc.push(f));
                lemma_slots_published_nonneg(files, res, i + 1);
                let plan = texture_from(files, res, i, acc)->Ok_0;
                assert(plan[acc.len() as int] == acc.push(f)[acc.len() as int]);
                assert(plan.contains(f));
            },
            Some(Err(_)) => {},
        }
    }
}

/// A published map, by slot name: the `jpg` at the resolved resolution, or
/// failing that the `png`.
pub open spec fn published_map(files: Json, res: Seq<char>, slot: Seq<char>) -> Option<Seq<char>> {
    match json_get(files, slot) {
        None => None,
        Some(s) => match spec_resolve_res(s, res) {
            None => None,
            Some(bucket) => match spec_leaf_url(json_get(bucket, "jpg"@)) {
                Some(url) => Some(url),
                None => spec_leaf_url(json_get(bucket, "png"@)),
            },
        },
    }
}

/// A successful texture plan takes one file for each of the maps `Diffuse`,
/// `nor_gl`, `Rough`, `Metal` and `Displacement` that the listing publishes
/// (a `jpg` or `png` at the resolved resolution) and nothing else: every
/// published map's URL is in the plan, under its own file name, and the plan
/// has as many files as there are published maps.
pub proof fn law_texture_plan_takes_every_published_map(files: Json, res: Seq<char>, slot: Seq<char>)
    requires
        slot == "Diffuse"@ || slot == "nor_gl"@ || slot == "Rough"@ || slot == "Metal"@ || slot
            == "Displacement"@,
        spec_plan_texture(files, res) is Ok,
    ensures
        match published_map(files, res, slot) {
            Some(url) => exists|rel: Seq<char>|
                spec_filename_of(url) == Ok::<Seq<char>, Seq<char>>(rel) && spec_plan_texture(
                    files,
                    res,
                )->Ok_0.contains((url, rel)),
            None => true,
        },
        spec_plan_texture(files, res)->Ok_0.len() == (if published_map(files, res, "Diffuse"@) is Some {
            1int
        } else {
            0int
        }) + (if published_map(files, res, "nor_gl"@) is Some {
            1int
        } else {
            0int
        }) + (if published_map(files, res, "Rough"@) is Some {
            1int
        } else {
            0int
        }) + (if published_map(files, res, "Metal"@) is Some {
            1int
        } else {
            0int
        }) + (if published_map(files, res, "Displacement"@) is Some {
            1int
        } else {
            0int
        }),
{
    lemma_texture_from(files, res, 0, Seq::empty());
    reveal_with_fuel(slots_published, 6);
    let slots = texture_slots();
    assert(slots[0] == "Diffuse"@);
    assert(slots[1] == "nor_gl"@);
    assert(slots[2] == "Rough"@);
    assert(slots[3] == "Metal"@);
    assert(slots[4] == "Displacement"@);
    assert forall|j: int| 0 <= j < 5 implies (texture_file(files, res, slots[j]) is Some) == (published_map(
        files,
        res,
        slots[j],
    ) is Some) by {
        let _ = texture_file(files, res, slots[j]);
    }
    let j: int = if slot == "Diffuse"@ {
        0
    } else if slot == "nor_gl"@ {
        1
    } else if slot == "Rough"@ {
        2
    } else if slot == "Metal"@ {
        3
    } else {
        4
    };
    assert(slots[j] == slot);
    match published_map(files, res, slot) {
        Some(url) => {
            let t = texture_file(files, res, slot);
            assert(t == Some(with_url(url)));
            match spec_filename_of(url) {
                Ok(rel) => {
                    assert(t == Some(Ok::<(Seq<char>, Seq<char>), Seq<char>>((url, rel))));
                },
                Err(_) => {},
            }
        },
        None => {},
    }
}

/// The entries of a leaf's `include` object, or none.
pub open spec fn include_entries(leaf: Json) -> Seq<(String, Json)> {
    match json_get(leaf, "include"@) {
        Some(Json::Object(es)) => es@,
        _ => Seq::empty(),
    }
}

/// The include files from entry `i` on, with `acc` already planned. An entry
/// with no url is skipped; a key that is not a safe relative path fails the
/// whole plan.
pub open spec fn includes_from(es: Seq<(String, Json)>, i: int, acc: Seq<(Seq<char>, Seq<char>)>) -> Result<Seq<(Seq<char>, Seq<char>)>, Seq<char>>
    decreases es.len() - i,
{
    if i < 0 || i >= es.len() {
        Ok(acc)
    } else {
        match spec_leaf_url(Some(es[i].1)) {
            None => includes_from(es, i + 1, acc),
            Some(url) => match spec_safe_rel(es[i].0@) {
                None => Err("refusing unsafe path in glTF include: "@ + es[i].0@),
                Some(rel) => includes_from(es, i + 1, acc.push((url, rel))),
            },
        }
    }
}

/// `gltf.<res>.gltf` plus everything in its `include` map, each at the path
/// the glTF references it by.
pub open spec fn spec_plan_model(files: Json, res: Seq<char>) -> Result<Seq<(Seq<char>, Seq<char>)>, Seq<char>> {
    match json_get(files, "gltf"@) {
        None => Err("no `gltf` files for this asset"@),
        Some(slot) => match spec_resolve_res(slot, res) {
            None => Err("no resolutions published"@),
            Some(bucket) => match json_get(bucket, "gltf"@) {
                None => Err("resolution publishes no glTF"@),
                Some(leaf) => match spec_leaf_url(Some(leaf)) {
                    None => Err("glTF entry has no url"@),
                    Some(url) => match spec_filename_of(url) {
                        Err(e) => Err(e),
                        Ok(rel) => includes_from(include_entries(leaf), 0, seq![(url, rel)]),
                    },
                },
            },
        },
    }
}

/// `gltf.<res>.gltf` plus everything in its `include` map.
///
/// The `include` keys are the paths the glTF references, so they are also the
/// paths the files must be written to; [`safe_rel`] is what stops a crafted key
/// from writing anywhere else.
pub fn plan_model(files: &Json, res: &str) -> (r: Result<Vec<FilePlan>, String>)
    ensures
        result_view(r) == spec_plan_model(*files, res@),
{
    let slot = match files.get("gltf") {
        Some(s) => s,
        None => return Err(owned("no `gltf` files for this asset")),
    };
    let bucket = match resolve_res(slot, res) {
        Some(b) => b,
        None => return Err(owned("no resolutions published")),
    };
    let leaf = match bucket.get("gltf") {
        Some(l) => l,
        None => return Err(owned("resolution publishes no glTF")),
    };
    let url = match leaf_url(Some(leaf)) {
        Some(u) => u,
        None => return Err(owned("glTF entry has no url")),
    };
    let first = match file_from_url(url) {
        Ok(f) => f,
        Err(e) => return Err(e),
    };
    let mut out: Vec<FilePlan> = Vec::new();
    out.push(first);
    assert(plan_view(out@) =~= seq![(first.url@, first.rel@)]);
    let listed = leaf.get("include");
    if let Some(Json::Object(es)) = listed {
        let mut i: usize = 0;
        while i < es.len()
            invariant
                i <= es@.len(),
                es@ == include_entries(*leaf),
                includes_from(es@, i as int, plan_view(out@)) == spec_plan_model(*files, res@),
            decreases es@.len() - i,
        {
            let entry = &es[i];
            if let Some(u) = leaf_url(Some(&entry.1)) {
                match safe_rel(entry.0.as_str()) {
                    Some(rel) => {
                        let f = FilePlan { url: u, rel };
                        proof {
                            assert(plan_view(out@.push(f)) =~= plan_view(out@).push((f.url@, f.rel@)));
                        }
                        out.push(f);
                    },
                    None => {
                        let mut e = String::new();
                        push_str(&mut e, "refusing unsafe path in glTF include: ");
                        push_str(&mut e, entry.0.as_str());
                        return Err(e);
                    },
                }
            }
            i = i + 1;
        }
    }
    Ok(out)
}

/// Every file to fetch for one asset of `kind` at resolution `res`.
pub open spec fn spec_plan(kind: Kind, files: Json, res: Seq<char>) -> Result<Seq<(Seq<char>, Seq<char>)>, Seq<char>> {
    match kind {
        Kind::Hdris => spec_plan_hdri(files, res),
        Kind::Textures => spec_plan_texture(files, res),
        Kind::Models => spec_plan_model(files, res),
    }
}

/// Work out which files to fetch for one asset at one resolution, from the
/// parsed `/files/<slug>` listing. An HDRI is one file, a texture a handful of
/// independent images, a model a glTF plus the files it includes.
pub fn plan(kind: Kind, files: &Json, res: &str) -> (r: Result<Vec<FilePlan>, String>)
    ensures
        result_view(r) == spec_plan(kind, *files, res@),
{
    match kind {
        Kind::Hdris => plan_hdri(files, res),
        Kind::Textures => plan_texture(files, res),
        Kind::Models => plan_model(files, res),
    }
}


// ── Laws ────────────────────────────────────────────────────────────────────

/// A path [`safe_rel`] accepted is accepted again, unchanged: its output holds
/// no backslash left to normalise and nothing left to refuse.
pub proof fn law_safe_rel_is_stable(rel: Seq<char>)
    requires
        spec_safe_rel(rel) is Some,
    ensures
        spec_safe_rel(spec_safe_rel(rel)->0) == spec_safe_rel(rel),
{
    let r = slashes(rel);
    assert(slashes(r) =~= r);
}

/// An accepted path has no `..` and no `.` component, is not absolute and
/// names no drive: joined onto a folder it stays inside it.
pub proof fn law_safe_rel_stays_inside(rel: Seq<char>, i: int, j: int)
    requires
        spec_safe_rel(rel) is Some,
        is_component(spec_safe_rel(rel)->0, i, j),
    ensures
        spec_safe_rel(rel)->0.subrange(i, j) != seq!['.', '.'],
        spec_safe_rel(rel)->0.subrange(i, j) != seq!['.'],
        spec_safe_rel(rel)->0.subrange(i, j).len() > 0,
        spec_safe_rel(rel)->0[0] != '/',
        !spec_safe_rel(rel)->0.contains(':'),
{
}

/// Every file a successful plan names goes to a path [`safe_rel`] accepts as
/// it stands.
pub open spec fn plan_is_safe(p: Seq<(Seq<char>, Seq<char>)>) -> bool {
    forall|k: int| 0 <= k < p.len() ==> spec_safe_rel(#[trigger] p[k].1) == Some(p[k].1)
}

proof fn lemma_filename_safe(url: Seq<char>)
    ensures
        spec_filename_of(url) matches Ok(rel) ==> spec_safe_rel(rel) == Some(rel),
{
    let last = after_last(before_query(url), '/');
    if last.len() != 0 {
        let d = spec_percent_decode(last);
        if spec_safe_rel(d) is Some {
            law_safe_rel_is_stable(d);
        }
    }
}

proof fn lemma_texture_safe(files: Json, res: Seq<char>, i: int, acc: Seq<(Seq<char>, Seq<char>)>)
    requires
        plan_is_safe(acc),
    ensures
        texture_from(files, res, i, acc) matches Ok(p) ==> plan_is_safe(p),
    decreases 5 - i,
{
    if 0 <= i < 5 {
        match texture_file(files, res, texture_slots()[i]) {
            Some(Ok(f)) => {
                lemma_filename_safe(f.0);
                assert(plan_is_safe(acc.push(f)));
                lemma_texture_safe(files, res, i + 1, acc.push(f));
            },
            None => lemma_texture_safe(files, res, i + 1, acc),
            _ => {},
        }
    }
}

proof fn lemma_includes_safe(es: Seq<(String, Json)>, i: int, acc: Seq<(Seq<char>, Seq<char>)>)
    requires
        plan_is_safe(acc),
    ensures
        includes_from(es, i, acc) matches Ok(p) ==> plan_is_safe(p),
    decreases es.len() - i,
{
    if 0 <= i < es.len() {
        match spec_leaf_url(Some(es[i].1)) {
            None => lemma_includes_safe(es, i + 1, acc),
            Some(url) => match spec_safe_rel(es[i].0@) {
                None => {},
                Some(rel) => {
                    law_safe_rel_is_stable(es[i].0@);
                    assert(plan_is_safe(acc.push((url, rel))));
                    lemma_includes_safe(es, i + 1, acc.push((url, rel)));
                },
            },
        }
    }
}

/// Whatever the server lists, a plan that succeeds writes only to paths that
/// stay inside the asset's folder.
pub proof fn law_plans_only_write_safe_paths(kind: Kind, files: Json, res: Seq<char>)
    ensures
        spec_plan(kind, files, res) matches Ok(p) ==> plan_is_safe(p),
{
    match kind {
        Kind::Hdris => {
            match json_get(files, "hdri"@) {
                Some(slot) => match spec_resolve_res(slot, res) {
                    Some(bucket) => {
                        match spec_leaf_url(json_get(bucket, "hdr"@)) {
                            Some(url) => lemma_filename_safe(url),
                            None => match spec_leaf_url(json_get(bucket, "exr"@)) {
                                Some(url) => lemma_filename_safe(url),
                                None => {},
                            },
                        }
                    },
                    None => {},
                },
                None => {},
            }
        },
        Kind::Textures => lemma_texture_safe(files, res, 0, Seq::empty()),
        Kind::Models => {
            match json_get(files, "gltf"@) {
                Some(slot) => match spec_resolve_res(slot, res) {
                    Some(bucket) => match json_get(bucket, "gltf"@) {
                        Some(leaf) => match spec_leaf_url(Some(leaf)) {
                            Some(url) => {
                                lemma_filename_safe(url);
                                match spec_filename_of(url) {
                                    Ok(rel) => lemma_includes_safe(
                                        include_entries(leaf),
                                        0,
                                        seq![(url, rel)],
                                    ),
                                    Err(_) => {},
                                }
                            },
                            None => {},
                        },
                        None => {},
                    },
                    None => {},
                },
                None => {},
            }
        },
    }
}

} // verus!
