//! What the profiler bridge decides: which group each diagnostic belongs to,
//! which groups are on, and the flat config file that remembers both.
//!
//! Diagnostics are grouped rather than listed one plot at a time, because the
//! render paths are per-pass and open-ended. The groups are a fixed, append-only
//! table; the last one catches everything, so an unknown path is shown rather
//! than silently dropped.
//!
//! The config is hand-written and hand-read: one `"key": true|false` per line.
//! A key the file does not mention takes its group's default, and anything that
//! cannot be read is off.

use vstd::prelude::*;

use crate::text::{
    chars_of, ends_with, ends_with_seq, eq_seq, find_from, first_match, lemma_first_match, occurs_at, push_char, push_str, starts_with,
    starts_with_seq, trim_start, trim_start_chars, slice_chars, is_space, lemma_first_match_at,
    lemma_occurs_shift,
};

verus! {

/// How many groups there are.
pub const CATEGORY_COUNT: usize = 7;

/// A group of diagnostics the user can turn off as a unit.
pub struct Category {
    /// Stable key written to the config. Never renamed: an old config naming a
    /// key this build does not know falls back to the group's default.
    pub key: &'static str,
    pub label: &'static str,
    /// What it covers, shown under the label in Settings.
    pub description: &'static str,
    pub default: bool,
}

/// The config key of group `i`.
pub open spec fn key_of(i: int) -> Seq<char> {
    if i == 0 {
        "frame"@
    } else if i == 1 {
        "entities"@
    } else if i == 2 {
        "system"@
    } else if i == 3 {
        "render_gpu"@
    } else if i == 4 {
        "render_cpu"@
    } else if i == 5 {
        "invocations"@
    } else {
        "other"@
    }
}

/// Whether group `i` is on when the config says nothing. Everything is, but
/// the shader and pipeline counters: raw counts in the millions crowd out the
/// timings.
pub open spec fn default_of(i: int) -> bool {
    i != 5
}

/// Whether `path` belongs to group `i`.
pub open spec fn matches_group(i: int, p: Seq<char>) -> bool {
    if i == 0 {
        p == "fps"@ || p == "frame_time"@ || p == "frame_count"@
    } else if i == 1 {
        p == "entity_count"@
    } else if i == 2 {
        starts_with(p, "system/"@) || starts_with(p, "process/"@)
    } else if i == 3 {
        starts_with(p, "render/"@) && ends_with(p, "/elapsed_gpu"@)
    } else if i == 4 {
        starts_with(p, "render/"@) && ends_with(p, "/elapsed_cpu"@)
    } else if i == 5 {
        ends_with(p, "_invocations"@) || ends_with(p, "_primitives_out"@)
    } else {
        true
    }
}

/// Group `i` of the table.
pub fn category(i: usize) -> (c: Category)
    requires
        i < CATEGORY_COUNT,
    ensures
        c.key@ == key_of(i as int),
        c.default == default_of(i as int),
{
    match i {
        0 => Category {
            key: "frame",
            label: "Frame",
            description: "FPS, frame time, frame count",
            default: true,
        },
        1 => Category {
            key: "entities",
            label: "Entity count",
            description: "How many entities the world holds",
            default: true,
        },
        2 => Category {
            key: "system",
            label: "CPU and memory",
            description: "Process and system-wide usage",
            default: true,
        },
        3 => Category {
            key: "render_gpu",
            label: "Render passes, GPU time",
            description: "Per-pass GPU milliseconds. Usually where a frame goes",
            default: true,
        },
        4 => Category {
            key: "render_cpu",
            label: "Render passes, CPU time",
            description: "Per-pass CPU milliseconds",
            default: true,
        },
        5 => Category {
            key: "invocations",
            label: "Shader and pipeline counters",
            description: "Raw counts in the millions. Off by default: Tracy autoscales them and they crowd out the timings",
            default: false,
        },
        _ => Category {
            key: "other",
            label: "Other diagnostics",
            description: "Anything a crate or another plugin registers",
            default: true,
        },
    }
}

fn category_default(i: usize) -> (d: bool)
    ensures
        d == default_of(i as int),
{
    i != 5
}

/// Whether `path` (as characters) belongs to group `i`.
fn in_group(i: usize, p: &Vec<char>) -> (r: bool)
    requires
        i < CATEGORY_COUNT,
    ensures
        r == matches_group(i as int, p@),
{
    if i == 0 {
        eq_seq(p, &chars_of("fps")) || eq_seq(p, &chars_of("frame_time")) || eq_seq(
            p,
            &chars_of("frame_count"),
        )
    } else if i == 1 {
        eq_seq(p, &chars_of("entity_count"))
    } else if i == 2 {
        starts_with_seq(p, &chars_of("system/")) || starts_with_seq(p, &chars_of("process/"))
    } else if i == 3 {
        starts_with_seq(p, &chars_of("render/")) && ends_with_seq(p, &chars_of("/elapsed_gpu"))
    } else if i == 4 {
        starts_with_seq(p, &chars_of("render/")) && ends_with_seq(p, &chars_of("/elapsed_cpu"))
    } else if i == 5 {
        ends_with_seq(p, &chars_of("_invocations")) || ends_with_seq(
            p,
            &chars_of("_primitives_out"),
        )
    } else {
        true
    }
}

/// Which group a diagnostic path falls into: the first whose predicate
/// matches. Always some group, since the last matches everything.
pub fn categorise(path: &str) -> (i: usize)
    ensures
        i < CATEGORY_COUNT,
        matches_group(i as int, path@),
        forall|j: int| 0 <= j < i ==> !matches_group(j, path@),
{
    let p = chars_of(path);
    let mut i: usize = 0;
    while i < CATEGORY_COUNT - 1
        invariant
            i < CATEGORY_COUNT,
            p@ == path@,
            forall|j: int| 0 <= j < i ==> !matches_group(j, path@),
        decreases CATEGORY_COUNT - i,
    {
        if in_group(i, &p) {
            return i;
        }
        i = i + 1;
    }
    i
}

/// The per-group enables, and whether the bridge streams at all.
pub struct Tracy {
    /// The user's opt-in.
    pub enabled: bool,
    /// Per-group enables, parallel to the table. A config written before a
    /// group was appended leaves this short.
    pub categories: Vec<bool>,
}

/// Whether group `i` is on: its enable when there is one, its default past
/// the end of a short list.
pub open spec fn flag_at(cats: Seq<bool>, i: int) -> bool {
    if 0 <= i < cats.len() {
        cats[i]
    } else {
        default_of(i)
    }
}

/// The defaults of groups `from` up to the end of the table.
pub open spec fn defaults_from(from: int) -> Seq<bool> {
    Seq::new((CATEGORY_COUNT - from) as nat, |k: int| default_of(from + k))
}

impl Tracy {
    /// Grow the enables to the table's length, filling each new slot with its
    /// group's own default, never a blanket `true`.
    pub fn grow(&mut self)
        ensures
            final(self).enabled == old(self).enabled,
            final(self).categories@ == if old(self).categories@.len() >= CATEGORY_COUNT {
                old(self).categories@
            } else {
                old(self).categories@ + defaults_from(old(self).categories@.len() as int)
            },
    {
        let ghost start = self.categories@;
        while self.categories.len() < CATEGORY_COUNT
            invariant
                start.len() < CATEGORY_COUNT ==> self.categories@ == start + defaults_from(
                    start.len() as int,
                ).take(self.categories@.len() - start.len()),
                start.len() >= CATEGORY_COUNT ==> self.categories@ == start,
                start.len() < CATEGORY_COUNT ==> self.categories@.len() <= CATEGORY_COUNT,
                self.categories@.len() >= start.len(),
                self.enabled == old(self).enabled,
            decreases CATEGORY_COUNT - self.categories@.len(),
        {
            let n = self.categories.len();
            self.categories.push(category_default(n));
            proof {
                let d = defaults_from(start.len() as int);
                assert(d.take(n + 1 - start.len()) =~= d.take(n - start.len()).push(
                    d[n - start.len()],
                ));
            }
        }
        proof {
            if start.len() < CATEGORY_COUNT {
                let d = defaults_from(start.len() as int);
                assert(d.take(d.len() as int) =~= d);
            }
        }
    }

    /// Whether group `i` is on.
    pub fn category_on(&self, i: usize) -> (on: bool)
        requires
            i < self.categories@.len() || i < CATEGORY_COUNT,
        ensures
            on == flag_at(self.categories@, i as int),
    {
        if i < self.categories.len() {
            self.categories[i]
        } else {
            category_default(i)
        }
    }

    /// Turn group `i` on or off, growing a short list first.
    pub fn set_category(&mut self, i: usize, on: bool)
        requires
            i < CATEGORY_COUNT,
        ensures
            final(self).enabled == old(self).enabled,
            final(self).categories@.len() == if old(self).categories@.len() >= CATEGORY_COUNT {
                old(self).categories@.len()
            } else {
                CATEGORY_COUNT as nat
            },
            forall|j: int|
                0 <= j < final(self).categories@.len() ==> #[trigger] final(self).categories@[j]
                    == if j == i {
                    on
                } else {
                    flag_at(old(self).categories@, j)
                },
    {
        self.grow();
        self.categories.set(i, on);
    }

    /// Whether a diagnostic at `path` is plotted: the bridge is on and the
    /// path's group is on.
    pub fn should_plot(&self, path: &str) -> (r: bool)
        ensures
            r == (self.enabled && exists|i: int|
                0 <= i < CATEGORY_COUNT && matches_group(i, path@) && (forall|j: int|
                    0 <= j < i ==> !matches_group(j, path@)) && flag_at(self.categories@, i)),
    {
        if !self.enabled {
            return false;
        }
        let c = categorise(path);
        let on = self.category_on(c);
        proof {
            if !on {
                assert forall|i: int|
                    !(0 <= i < CATEGORY_COUNT && matches_group(i, path@) && (forall|j: int|
                        0 <= j < i ==> !matches_group(j, path@)) && flag_at(
                        self.categories@,
                        i,
                    )) by {
                    if 0 <= i < CATEGORY_COUNT && matches_group(i, path@) && (forall|j: int|
                        0 <= j < i ==> !matches_group(j, path@)) {
                        if i < c {
                            assert(!matches_group(i, path@));
                        } else if i > c {
                            assert(!matches_group(c as int, path@));
                        }
                    }
                }
            }
        }
        on
    }
}

pub open spec fn bool_text(b: bool) -> Seq<char> {
    if b {
        "true"@
    } else {
        "false"@
    }
}

/// The quoted key a flag is written and found by.
pub open spec fn quoted(key: Seq<char>) -> Seq<char> {
    seq!['"'] + key + seq!['"']
}

/// One line of the config: `<lead>"<key>": <true|false>`.
pub open spec fn config_line(lead: Seq<char>, key: Seq<char>, on: bool) -> Seq<char> {
    lead + quoted(key) + ": "@ + bool_text(on)
}

/// The lines for groups `0..n`, each led by a comma and a line break.
pub open spec fn group_lines(cats: Seq<bool>, n: int) -> Seq<char>
    decreases n,
{
    if n <= 0 {
        Seq::empty()
    } else {
        group_lines(cats, n - 1) + config_line(",\n  "@, key_of(n - 1), flag_at(cats, n - 1))
    }
}

/// The config file: a flat JSON object, one key per line, the opt-in first.
pub open spec fn config_spec(enabled: bool, cats: Seq<bool>) -> Seq<char> {
    config_line("{\n  "@, "enabled"@, enabled) + group_lines(cats, CATEGORY_COUNT as int)
        + "\n}\n"@
}

fn push_bool(s: &mut String, b: bool)
    ensures
        final(s)@ == old(s)@ + bool_text(b),
{
    if b {
        push_str(s, "true");
    } else {
        push_str(s, "false");
    }
}

fn push_line(s: &mut String, lead: &str, key: &str, on: bool)
    ensures
        final(s)@ == old(s)@ + config_line(lead@, key@, on),
{
    push_str(s, lead);
    push_char(s, '"');
    push_str(s, key);
    push_char(s, '"');
    push_str(s, ": ");
    push_bool(s, on);
    assert(final(s)@ =~= old(s)@ + config_line(lead@, key@, on));
}

/// The config text for an opt-in and the group enables; a group past the end
/// of a short list is written with its default.
pub fn config_text(enabled: bool, categories: &[bool]) -> (s: String)
    ensures
        s@ == config_spec(enabled, categories@),
{
    let mut s = String::new();
    push_line(&mut s, "{\n  ", "enabled", enabled);
    let ghost head = s@;
    let mut i: usize = 0;
    while i < CATEGORY_COUNT
        invariant
            i <= CATEGORY_COUNT,
            s@ == head + group_lines(categories@, i as int),
        decreases CATEGORY_COUNT - i,
    {
        let on = if i < categories.len() {
            categories[i]
        } else {
            category_default(i)
        };
        push_line(&mut s, ",\n  ", category(i).key, on);
        i = i + 1;
    }
    push_str(&mut s, "\n}\n");
    s
}

/// One flag of the config: find the quoted key, then the first `:` after it;
/// the flag is on when what follows, less leading white space, starts with
/// `true`. A key that is absent, or has no `:` after it, reads as `default`.
pub open spec fn flag_spec(text: Seq<char>, key: Seq<char>, default: bool) -> bool {
    let q = quoted(key);
    match first_match(text, q, 0) {
        Some(i) => {
            let rest = text.subrange(i + q.len(), text.len() as int);
            match first_match(rest, seq![':'], 0) {
                Some(j) => starts_with(trim_start(rest.subrange(j + 1, rest.len() as int)), "true"@),
                None => default,
            }
        },
        None => default,
    }
}

/// Read one `"key": true|false` out of the flat config.
pub fn read_flag(text: &str, key: &str, default: bool) -> (on: bool)
    ensures
        on == flag_spec(text@, key@, default),
{
    let t = chars_of(text);
    let k = chars_of(key);
    let mut needle: Vec<char> = Vec::new();
    needle.push('"');
    let mut i: usize = 0;
    while i < k.len()
        invariant
            i <= k@.len(),
            needle@ == seq!['"'] + k@.take(i as int),
        decreases k@.len() - i,
    {
        needle.push(k[i]);
        i = i + 1;
        proof {
            assert(seq!['"'] + k@.take(i as int) =~= (seq!['"'] + k@.take(i - 1)).push(
                k@[i - 1],
            ));
        }
    }
    needle.push('"');
    proof {
        assert(k@.take(k@.len() as int) =~= k@);
        assert(needle@ =~= quoted(key@));
    }
    match find_from(&t, &needle, 0) {
        Some(at) => {
            proof {
                lemma_first_match(t@, needle@, 0);
                assert(first_match(t@, needle@, 0) == Some(at as int));
                assert(occurs_at(t@, needle@, at as int));
            }
            let n = t.len();
            let rest = slice_chars(&t, at + needle.len(), n);
            let mut colon: Vec<char> = Vec::new();
            colon.push(':');
            proof {
                assert(colon@ =~= seq![':']);
            }
            match find_from(&rest, &colon, 0) {
                Some(j) => {
                    proof {
                        lemma_first_match(rest@, colon@, 0);
                        assert(first_match(rest@, colon@, 0) == Some(j as int));
                        assert(occurs_at(rest@, colon@, j as int));
                    }
                    let v = slice_chars(&rest, j + 1, rest.len());
                    let v = trim_start_chars(&v);
                    starts_with_seq(&v, &chars_of("true"))
                },
                None => default,
            }
        },
        None => default,
    }
}

/// The opt-in and the group enables read from a config's text: the opt-in
/// defaults off, each group to its own default.
pub open spec fn parsed_spec(text: Seq<char>) -> (bool, Seq<bool>) {
    (
        flag_spec(text, "enabled"@, false),
        Seq::new(CATEGORY_COUNT as nat, |i: int| flag_spec(text, key_of(i), default_of(i))),
    )
}

/// Read the opt-in and every group's enable out of a config's text.
pub fn parse_config(text: &str) -> (r: (bool, Vec<bool>))
    ensures
        r.0 == parsed_spec(text@).0,
        r.1@ == parsed_spec(text@).1,
{
    let enabled = read_flag(text, "enabled", false);
    let mut cats: Vec<bool> = Vec::new();
    let mut i: usize = 0;
    while i < CATEGORY_COUNT
        invariant
            i <= CATEGORY_COUNT,
            cats@ == parsed_spec(text@).1.take(i as int),
        decreases CATEGORY_COUNT - i,
    {
        let c = category(i);
        cats.push(read_flag(text, c.key, c.default));
        i = i + 1;
        proof {
            assert(cats@ =~= parsed_spec(text@).1.take(i as int));
        }
    }
    proof {
        assert(parsed_spec(text@).1.take(CATEGORY_COUNT as int) =~= parsed_spec(text@).1);
    }
    (enabled, cats)
}

/// What a missing or unreadable config reads as: off, with every group at
/// its default.
pub fn default_config() -> (r: (bool, Vec<bool>))
    ensures
        !r.0,
        r.1@ == defaults_from(0),
{
    let mut cats: Vec<bool> = Vec::new();
    let mut i: usize = 0;
    while i < CATEGORY_COUNT
        invariant
            i <= CATEGORY_COUNT,
            cats@ == defaults_from(0).take(i as int),
        decreases CATEGORY_COUNT - i,
    {
        cats.push(category_default(i));
        i = i + 1;
        proof {
            assert(cats@ =~= defaults_from(0).take(i as int));
        }
    }
    proof {
        assert(defaults_from(0).take(CATEGORY_COUNT as int) =~= defaults_from(0));
    }
    (false, cats)
}

/// No double quote in `s`.
pub open spec fn quote_free(s: Seq<char>) -> bool {
    forall|i: int| 0 <= i < s.len() ==> s[i] != '"'
}

/// A key a flag can be found by: not empty, no quote in it, not starting
/// with a colon.
pub open spec fn plain_key(k: Seq<char>) -> bool {
    k.len() > 0 && quote_free(k) && k[0] != ':'
}

proof fn lemma_literals()
    ensures
        ": "@ == seq![':', ' '],
        "true"@ == seq!['t', 'r', 'u', 'e'],
        "false"@ == seq!['f', 'a', 'l', 's', 'e'],
        "{\n  "@ == seq!['{', '\n', ' ', ' '],
        ",\n  "@ == seq![',', '\n', ' ', ' '],
        plain_key("enabled"@),
{
    reveal_strlit(": ");
    reveal_strlit("true");
    reveal_strlit("false");
    reveal_strlit("{\n  ");
    reveal_strlit(",\n  ");
    reveal_strlit("enabled");
    assert(": "@ =~= seq![':', ' ']);
    assert("true"@ =~= seq!['t', 'r', 'u', 'e']);
    assert("false"@ =~= seq!['f', 'a', 'l', 's', 'e']);
    assert("{\n  "@ =~= seq!['{', '\n', ' ', ' ']);
    assert(",\n  "@ =~= seq![',', '\n', ' ', ' ']);
}

/// The config keys are distinct from each other and from `enabled`, so no
/// key shadows another on load; each is a plain word a flag can be found by.
pub proof fn law_category_keys_are_distinct()
    ensures
        forall|i: int| 0 <= i < CATEGORY_COUNT ==> plain_key(#[trigger] key_of(i)),
        forall|i: int| 0 <= i < CATEGORY_COUNT ==> #[trigger] key_of(i) != "enabled"@,
        forall|i: int, m: int|
            0 <= i < CATEGORY_COUNT && 0 <= m < CATEGORY_COUNT && i != m ==> #[trigger] key_of(i)
                != #[trigger] key_of(m),
{
    reveal_strlit("frame");
    reveal_strlit("entities");
    reveal_strlit("system");
    reveal_strlit("render_gpu");
    reveal_strlit("render_cpu");
    reveal_strlit("invocations");
    reveal_strlit("other");
    reveal_strlit("enabled");
    assert("frame"@[0] != "other"@[0]);
    assert("render_gpu"@[7] != "render_cpu"@[7]);
    assert forall|i: int| 0 <= i < CATEGORY_COUNT implies plain_key(#[trigger] key_of(i)) by {
        let k = key_of(i);
        assert forall|c: int| 0 <= c < k.len() implies k[c] != '"' by {}
    }
}

/// A line whose key is not `k` holds no start of a match for `k`'s quoted
/// form, whatever follows the line.
proof fn lemma_line_skips(lead: Seq<char>, k2: Seq<char>, on: bool, r: Seq<char>, k: Seq<char>)
    requires
        quote_free(lead),
        quote_free(k2),
        plain_key(k),
        k != k2,
    ensures
        forall|j: int|
            0 <= j < config_line(lead, k2, on).len() ==> !occurs_at(
                config_line(lead, k2, on) + r,
                quoted(k),
                j,
            ),
{
    lemma_literals();
    let line = config_line(lead, k2, on);
    let t = line + r;
    let q = quoted(k);
    let a = lead.len() as int;
    let b = k2.len() as int;
    let n = k.len() as int;
    assert forall|j: int| 0 <= j < line.len() implies !occurs_at(t, q, j) by {
        if occurs_at(t, q, j) {
            let w = t.subrange(j, j + q.len());
            assert(w == q);
            assert(t[j] == '"') by {
                assert(w[0] == t[j]);
            }
            if j < a {
                assert(t[j] == lead[j]);
            } else if j == a {
                if n < b {
                    assert(t[j + 1 + n] == k2[n]);
                    assert(w[1 + n] == t[j + 1 + n]);
                } else if n > b {
                    assert(t[j + 1 + b] == '"');
                    assert(w[1 + b] == t[j + 1 + b]);
                    assert(w[1 + b] == k[b]);
                } else {
                    assert forall|m: int| 0 <= m < k.len() implies k[m] == k2[m] by {
                        assert(w[1 + m] == t[j + 1 + m]);
                        assert(t[j + 1 + m] == k2[m]);
                    }
                    assert(k =~= k2);
                }
            } else if j <= a + b {
                assert(t[j] == k2[j - a - 1]);
            } else if j == a + b + 1 {
                assert(t[j + 1] == ':');
                assert(w[1] == t[j + 1]);
                assert(w[1] == k[0]);
            } else {
                let tail = ": "@ + bool_text(on);
                assert(t[j] == tail[j - a - b - 2]);
            }
        }
    }
}

/// The opt-in line and the first `n` group lines hold no start of a match for
/// a key that is none of theirs.
proof fn lemma_prefix_skips(enabled: bool, cats: Seq<bool>, n: int, r: Seq<char>, k: Seq<char>)
    requires
        0 <= n <= CATEGORY_COUNT,
        plain_key(k),
        k != "enabled"@,
        forall|m: int| 0 <= m < n ==> k != key_of(m),
    ensures
        forall|j: int|
            0 <= j < (config_line("{\n  "@, "enabled"@, enabled) + group_lines(cats, n)).len()
                ==> !occurs_at(
                config_line("{\n  "@, "enabled"@, enabled) + group_lines(cats, n) + r,
                quoted(k),
                j,
            ),
    decreases n,
{
    lemma_literals();
    law_category_keys_are_distinct();
    let h = config_line("{\n  "@, "enabled"@, enabled);
    if n == 0 {
        assert(h + group_lines(cats, 0) =~= h);
        lemma_line_skips("{\n  "@, "enabled"@, enabled, r, k);
    } else {
        let p = h + group_lines(cats, n - 1);
        let line = config_line(",\n  "@, key_of(n - 1), flag_at(cats, n - 1));
        assert(h + group_lines(cats, n) =~= p + line);
        lemma_prefix_skips(enabled, cats, n - 1, line + r, k);
        assert(p + line + r =~= p + (line + r));
        assert(key_of(n - 1) != k);
        lemma_line_skips(",\n  "@, key_of(n - 1), flag_at(cats, n - 1), r, k);
        assert forall|j: int| 0 <= j < (p + line).len() implies !occurs_at(
            p + line + r,
            quoted(k),
            j,
        ) by {
            if j >= p.len() {
                lemma_occurs_shift(p, line + r, quoted(k), j);
            }
        }
    }
}

/// The group lines `i..n`.
pub open spec fn group_tail(cats: Seq<bool>, i: int, n: int) -> Seq<char>
    decreases n - i,
{
    if n <= i {
        Seq::empty()
    } else {
        group_tail(cats, i, n - 1) + config_line(",\n  "@, key_of(n - 1), flag_at(cats, n - 1))
    }
}

proof fn lemma_group_split(cats: Seq<bool>, i: int, n: int)
    requires
        0 <= i <= n,
    ensures
        group_lines(cats, n) == group_lines(cats, i) + group_tail(cats, i, n),
    decreases n,
{
    if n > i {
        lemma_group_split(cats, i, n - 1);
        let line = config_line(",\n  "@, key_of(n - 1), flag_at(cats, n - 1));
        assert(group_lines(cats, i) + group_tail(cats, i, n - 1) + line =~= group_lines(cats, i) + (
        group_tail(cats, i, n - 1) + line));
    } else {
        assert(group_lines(cats, i) + Seq::<char>::empty() =~= group_lines(cats, i));
    }
}

proof fn lemma_tail_first(cats: Seq<bool>, i: int, n: int)
    requires
        0 <= i < n,
    ensures
        group_tail(cats, i, n) == config_line(",\n  "@, key_of(i), flag_at(cats, i)) + group_tail(
            cats,
            i + 1,
            n,
        ),
    decreases n,
{
    let first = config_line(",\n  "@, key_of(i), flag_at(cats, i));
    if n == i + 1 {
        assert(group_tail(cats, i, i) =~= Seq::<char>::empty());
        assert(Seq::<char>::empty() + first =~= first + Seq::<char>::empty());
    } else {
        lemma_tail_first(cats, i, n - 1);
        let line = config_line(",\n  "@, key_of(n - 1), flag_at(cats, n - 1));
        assert(first + group_tail(cats, i + 1, n - 1) + line =~= first + (group_tail(
            cats,
            i + 1,
            n - 1,
        ) + line));
    }
}

/// A flag whose quoted key first occurs right after `x` reads as what its
/// line says.
proof fn lemma_flag_in_line(x: Seq<char>, k: Seq<char>, on: bool, y: Seq<char>, default: bool)
    requires
        plain_key(k),
        forall|j: int|
            0 <= j < x.len() ==> !occurs_at(
                x + quoted(k) + ": "@ + bool_text(on) + y,
                quoted(k),
                j,
            ),
    ensures
        flag_spec(x + quoted(k) + ": "@ + bool_text(on) + y, k, default) == on,
{
    lemma_literals();
    let q = quoted(k);
    let t = x + q + ": "@ + bool_text(on) + y;
    assert(t.subrange(x.len() as int, (x.len() + q.len()) as int) =~= q);
    lemma_first_match_at(t, q, 0, x.len() as int);
    let rest = t.subrange((x.len() + q.len()) as int, t.len() as int);
    let by = bool_text(on) + y;
    assert(rest =~= seq![':', ' '] + by);
    assert(rest.subrange(0, 1) =~= seq![':']);
    lemma_first_match_at(rest, seq![':'], 0, 0);
    let v = rest.subrange(1, rest.len() as int);
    assert(v =~= seq![' '] + by);
    assert(v.drop_first() =~= by);
    assert(is_space(v[0]));
    assert(!is_space(by[0]));
    assert(trim_start(by) == by);
    assert(trim_start(v) == by);
    if on {
        assert(by.take(4) =~= "true"@);
    } else {
        assert(by.take(4)[0] != "true"@[0]);
    }
}

proof fn lemma_enabled_flag(enabled: bool, cats: Seq<bool>)
    ensures
        flag_spec(config_spec(enabled, cats), "enabled"@, false) == enabled,
{
    lemma_literals();
    let t = config_spec(enabled, cats);
    let g = group_lines(cats, CATEGORY_COUNT as int);
    let x0 = "{\n  "@;
    let q0 = quoted("enabled"@);
    assert(t =~= x0 + q0 + ": "@ + bool_text(enabled) + (g + "\n}\n"@));
    assert forall|j: int| 0 <= j < x0.len() implies !occurs_at(t, q0, j) by {
        if occurs_at(t, q0, j) {
            assert(t.subrange(j, j + q0.len())[0] == t[j]);
        }
    }
    lemma_flag_in_line(x0, "enabled"@, enabled, g + "\n}\n"@, false);
}

#[verifier::rlimit(30)]
proof fn lemma_group_flag(enabled: bool, cats: Seq<bool>, i: int)
    requires
        0 <= i < CATEGORY_COUNT,
    ensures
        flag_spec(config_spec(enabled, cats), key_of(i), default_of(i)) == flag_at(cats, i),
{
    lemma_literals();
    law_category_keys_are_distinct();
    let t = config_spec(enabled, cats);
    lemma_group_split(cats, i, CATEGORY_COUNT as int);
    lemma_tail_first(cats, i, CATEGORY_COUNT as int);
    let h = config_line("{\n  "@, "enabled"@, enabled);
    let lead = ",\n  "@;
    let k = key_of(i);
    let q = quoted(k);
    let on = flag_at(cats, i);
    let p = h + group_lines(cats, i);
    let x = p + lead;
    let y = group_tail(cats, i + 1, CATEGORY_COUNT as int) + "\n}\n"@;
    let r = lead + q + ": "@ + bool_text(on) + y;
    assert(t =~= x + q + ": "@ + bool_text(on) + y);
    assert(t =~= p + r);
    assert forall|m: int| 0 <= m < i implies k != key_of(m) by {}
    lemma_prefix_skips(enabled, cats, i, r, k);
    assert forall|j: int| 0 <= j < x.len() implies !occurs_at(t, q, j) by {
        if j >= p.len() && occurs_at(t, q, j) {
            assert(t.subrange(j, j + q.len())[0] == t[j]);
            assert(t[j] == lead[j - p.len()]);
        }
    }
    lemma_flag_in_line(x, k, on, y, default_of(i));
}

/// What the config writer writes, the reader reads back: the opt-in, and
/// each group's enable (its default where the list given was short).
pub proof fn law_config_round_trip(enabled: bool, cats: Seq<bool>)
    ensures
        parsed_spec(config_spec(enabled, cats)).0 == enabled,
        parsed_spec(config_spec(enabled, cats)).1 == Seq::new(
            CATEGORY_COUNT as nat,
            |i: int| flag_at(cats, i),
        ),
{
    lemma_enabled_flag(enabled, cats);
    assert forall|i: int| 0 <= i < CATEGORY_COUNT implies flag_spec(
        config_spec(enabled, cats),
        key_of(i),
        default_of(i),
    ) == flag_at(cats, i) by {
        lemma_group_flag(enabled, cats, i);
    }
    assert(parsed_spec(config_spec(enabled, cats)).1 =~= Seq::new(
        CATEGORY_COUNT as nat,
        |i: int| flag_at(cats, i),
    ));
}

/// A key the text does not mention reads as its default, not as off.
pub proof fn law_absent_key_takes_default(text: Seq<char>, key: Seq<char>, default: bool)
    requires
        forall|j: int| !occurs_at(text, quoted(key), j),
    ensures
        flag_spec(text, key, default) == default,
{
    lemma_first_match(text, quoted(key), 0);
}


/// Bevy's frame diagnostics (`fps`, `frame_time`, `frame_count`) land in the
/// group keyed `frame`: the group `categorise` picks for any of them, the
/// first whose predicate matches, is that one, so turning it off silences all
/// three.
pub proof fn law_frame_diagnostics_are_the_frame_group(p: Seq<char>, i: int)
    requires
        p == "frame_count"@ || p == "fps"@ || p == "frame_time"@,
        0 <= i < CATEGORY_COUNT,
        matches_group(i, p),
        forall|j: int| 0 <= j < i ==> !matches_group(j, p),
    ensures
        key_of(i) == "frame"@,
        default_of(i),
{
    assert(matches_group(0, p));
    assert(i == 0);
}

} // verus!
