//! The browser panel's state, and how worker results are folded into it.
//!
//! The worker threads and the inbox they post to are the application's; what
//! is decided here is what the panel shows: which entries match the search,
//! which page of them is on screen, and which download jobs stay listed.

use vstd::prelude::*;

use crate::polyhaven::api::{asset_matches, kind_index, kind_label, Asset, Kind};
use crate::text::{
    ascii_chars, chars_of, decimal, decimal_string, is_space, is_space_exec, lowercase, push_str,
    string_from, to_lowercase,
};

verus! {

/// What a worker thread sends back.
#[allow(inconsistent_fields)]
pub enum Msg {
    Catalogue { kind: Kind, result: Result<Vec<Asset>, String> },
    /// One file of a download finished; `done` counts completed files.
    Progress { slug: String, done: usize, total: usize },
    Finished {
        slug: String,
        /// The project-relative folder the files landed in, or why they did not.
        result: Result<String, String>,
    },
}

/// One kind's catalogue, as the panel sees it.
pub enum Catalogue {
    /// Never asked for. Merely having the plugin installed makes no requests.
    Idle,
    Loading,
    Ready(Vec<Asset>),
    Failed(String),
}

impl Default for Catalogue {
    fn default() -> (c: Self)
        ensures
            c is Idle,
    {
        Catalogue::Idle
    }
}

/// A download in progress, or one that has finished.
#[derive(Clone)]
pub struct Job {
    /// Identifies the job; a tile finds its own by slug.
    pub slug: String,
    pub kind: Kind,
    /// Folder the files were written to, kept for the import handoff.
    pub folder: String,
    pub done: usize,
    pub total: usize,
    /// `None` while running; `Some(Ok(folder))` or `Some(Err(why))` when over.
    pub outcome: Option<Result<String, String>>,
    /// Set once the folder has been queued for import.
    pub handed_off: bool,
}

impl Job {
    /// Still downloading.
    pub fn running(&self) -> (r: bool)
        ensures
            r == (self.outcome is None),
    {
        self.outcome.is_none()
    }

    /// What the download is doing, for the line under its tile: the file
    /// count while it runs (or that the file list is still coming), then
    /// importing, imported, or the reason it failed.
    pub fn label(&self) -> (s: String)
        ensures
            s@ == job_label(*self),
    {
        match &self.outcome {
            None => {
                if self.total == 0 {
                    let mut s = String::new();
                    push_str(&mut s, "fetching file list");
                    s
                } else {
                    let mut s = decimal_string(self.done as u64);
                    push_str(&mut s, "/");
                    let t = decimal_string(self.total as u64);
                    push_str(&mut s, t.as_str());
                    push_str(&mut s, " files");
                    proof {
                        reveal_strlit("/");
                    }
                    s
                }
            },
            Some(Ok(_)) => {
                let mut s = String::new();
                if self.kind == Kind::Models && !self.handed_off {
                    push_str(&mut s, "importing");
                } else {
                    push_str(&mut s, "imported");
                }
                s
            },
            Some(Err(why)) => why.clone(),
        }
    }
}

/// How many finished jobs stay on screen.
pub const JOB_HISTORY: usize = 6;

/// How many tiles the grid builds at once: one page.
pub const PAGE_SIZE: usize = 150;

/// Everything the panel reads and the systems write.
pub struct Hub {
    /// Which tab is showing.
    pub kind: Kind,
    /// The resolution downloads ask for; plans fall back to the nearest.
    pub res: &'static str,
    /// Lowercased search terms, refreshed from the search box each frame.
    pub terms: Vec<String>,
    /// Which page of the filtered list the grid is showing.
    pub page_index: usize,
    /// Indexed by [`Kind::index`].
    pub catalogues: [Catalogue; 3],
    /// Newest first, capped: a status readout, not a history.
    pub jobs: Vec<Job>,
}

impl Default for Hub {
    fn default() -> (h: Self)
        ensures
            h.kind == Kind::Models,
            h.res@ == "2k"@,
            h.terms@.len() == 0,
            h.page_index == 0,
            h.catalogues[0] is Idle,
            h.catalogues[1] is Idle,
            h.catalogues[2] is Idle,
            h.jobs@.len() == 0,
    {
        Hub {
            kind: Kind::Models,
            res: "2k",
            terms: Vec::new(),
            page_index: 0,
            catalogues: [Catalogue::Idle, Catalogue::Idle, Catalogue::Idle],
            jobs: Vec::new(),
        }
    }
}

/// The entries of `s` that match `terms`, in order.
pub open spec fn matching(s: Seq<Asset>, terms: Seq<String>) -> Seq<Asset>
    decreases s.len(),
{
    if s.len() == 0 {
        Seq::empty()
    } else {
        let m = matching(s.drop_last(), terms);
        if asset_matches(s.last(), terms) {
            m.push(s.last())
        } else {
            m
        }
    }
}

/// The words of `s`: maximal runs of characters that are not white space,
/// as `str::split_whitespace` yields them. A character that is not white space
/// extends the word before it when it directly follows one, and starts a new
/// word otherwise.
pub open spec fn words(s: Seq<char>) -> Seq<Seq<char>>
    decreases s.len(),
{
    if s.len() == 0 {
        Seq::empty()
    } else {
        let w = words(s.drop_last());
        let c = s.last();
        if is_space(c) {
            w
        } else if s.len() >= 2 && !is_space(s[s.len() - 2]) {
            w.update(w.len() - 1, w.last().push(c))
        } else {
            w.push(seq![c])
        }
    }
}

/// The search terms a query gives: its words, lowercased.
pub open spec fn search_terms(text: Seq<char>) -> Seq<Seq<char>> {
    words(text).map_values(|w: Seq<char>| lowercase(w))
}

/// Strings by their characters.
pub open spec fn strings_view(v: Seq<String>) -> Seq<Seq<char>> {
    v.map_values(|t: String| t@)
}

/// A finished model download not yet handed to the import pipeline.
pub open spec fn awaiting_import(j: Job) -> bool {
    &&& !j.handed_off
    &&& j.kind == Kind::Models
    &&& j.outcome matches Some(r) && r is Ok
}

/// The folders of the jobs awaiting import, in list order.
pub open spec fn import_folders(jobs: Seq<Job>) -> Seq<Seq<char>>
    decreases jobs.len(),
{
    if jobs.len() == 0 {
        Seq::empty()
    } else {
        let rest = import_folders(jobs.drop_last());
        if awaiting_import(jobs.last()) {
            rest.push(jobs.last().folder@)
        } else {
            rest
        }
    }
}

/// The line under a tile that says what its download is doing.
pub open spec fn job_label(j: Job) -> Seq<char> {
    match j.outcome {
        None => if j.total == 0 {
            "fetching file list"@
        } else {
            ascii_chars(decimal(j.done as nat)) + seq!['/'] + ascii_chars(decimal(j.total as nat))
                + " files"@
        },
        Some(Ok(_)) => if j.kind == Kind::Models && !j.handed_off {
            "importing"@
        } else {
            "imported"@
        },
        Some(Err(why)) => why@,
    }
}

/// The status line: what the catalogue is doing and how much of it shows.
pub open spec fn status_of(h: Hub) -> Seq<char> {
    match current(h) {
        Catalogue::Idle => "Opening…"@,
        Catalogue::Loading => "Fetching the "@ + kind_label(h.kind) + " catalogue…"@,
        Catalogue::Failed(why) => "Could not load the catalogue: "@ + why@,
        Catalogue::Ready(all) => {
            let matched = visible_of(h).len();
            let kind = lowercase(kind_label(h.kind));
            if matched == all@.len() {
                ascii_chars(decimal(matched)) + seq![' '] + kind
            } else {
                ascii_chars(decimal(matched)) + " of "@ + ascii_chars(decimal(all@.len())) + seq![' ']
                    + kind
            }
        },
    }
}

/// The current tab's catalogue.
pub open spec fn current(h: Hub) -> Catalogue {
    h.catalogues[kind_index(h.kind)]
}

/// The current tab's entries that match the search, in catalogue order.
pub open spec fn visible_of(h: Hub) -> Seq<Asset> {
    match current(h) {
        Catalogue::Ready(a) => matching(a@, h.terms@),
        _ => Seq::empty(),
    }
}

/// Pages needed for `n` entries: never zero, so an empty result is page 1 of 1.
pub open spec fn page_count_of(n: nat) -> nat {
    if n == 0 {
        1
    } else {
        ((n + 149) / 150) as nat
    }
}

/// Where page `index` starts once clamped to the last page's own start.
pub open spec fn page_start(n: nat, index: nat) -> nat {
    let last = (page_count_of(n) - 1) as nat;
    if index < last {
        (index * 150) as nat
    } else {
        (last * 150) as nat
    }
}

/// The window of `v` that page `index` shows.
pub open spec fn page_window<T>(v: Seq<T>, index: nat) -> Seq<T> {
    let start = page_start(v.len(), index) as int;
    let end = if start + PAGE_SIZE < v.len() {
        start + PAGE_SIZE
    } else {
        v.len() as int
    };
    v.subrange(start, end)
}

/// References read as the values they point at.
pub open spec fn deref_all(v: Seq<&Asset>) -> Seq<Asset> {
    v.map_values(|a: &Asset| *a)
}

/// `k` is the position of the first job with `slug`, or the length.
pub open spec fn is_first_slug(jobs: Seq<Job>, slug: Seq<char>, k: int) -> bool {
    &&& 0 <= k <= jobs.len()
    &&& k < jobs.len() ==> jobs[k].slug@ == slug
    &&& forall|j: int| 0 <= j < k ==> jobs[j].slug@ != slug
}

/// The position of the first job with `slug`, or the length when none has it.
pub open spec fn slug_index(jobs: Seq<Job>, slug: Seq<char>) -> int {
    choose|k: int| is_first_slug(jobs, slug, k)
}

/// The position of the last finished job, if any.
pub open spec fn last_finished(jobs: Seq<Job>) -> Option<int>
    decreases jobs.len(),
{
    if jobs.len() == 0 {
        None
    } else if jobs.last().outcome is Some {
        Some(jobs.len() - 1)
    } else {
        last_finished(jobs.drop_last())
    }
}

/// Finished jobs trimmed from the back until at most [`JOB_HISTORY`] remain
/// or only running ones are left.
pub open spec fn trim_jobs(jobs: Seq<Job>) -> Seq<Job>
    decreases jobs.len(),
{
    if jobs.len() > JOB_HISTORY {
        match last_finished(jobs) {
            Some(k) => if 0 <= k < jobs.len() {
                trim_jobs(jobs.remove(k))
            } else {
                jobs
            },
            None => jobs,
        }
    } else {
        jobs
    }
}

/// The running jobs of a list, in order.
pub open spec fn running_jobs(jobs: Seq<Job>) -> Seq<Job>
    decreases jobs.len(),
{
    if jobs.len() == 0 {
        Seq::empty()
    } else if jobs.last().outcome is None {
        running_jobs(jobs.drop_last()).push(jobs.last())
    } else {
        running_jobs(jobs.drop_last())
    }
}

/// The catalogues after a catalogue result for `kind` lands.
pub open spec fn landed(cats: [Catalogue; 3], kind: Kind, result: Result<Vec<Asset>, String>) -> Seq<Catalogue> {
    cats@.update(
        kind_index(kind),
        match result {
            Ok(a) => Catalogue::Ready(a),
            Err(w) => Catalogue::Failed(w),
        },
    )
}

/// The job list after a message, before trimming.
pub open spec fn jobs_after(jobs: Seq<Job>, msg: Msg) -> Seq<Job> {
    match msg {
        Msg::Catalogue { .. } => jobs,
        Msg::Progress { slug, done, total } => {
            let k = slug_index(jobs, slug@);
            if k < jobs.len() {
                jobs.update(k, Job { done, total, ..jobs[k] })
            } else {
                jobs
            }
        },
        Msg::Finished { slug, result } => {
            let k = slug_index(jobs, slug@);
            if k < jobs.len() {
                jobs.update(k, Job { outcome: Some(result), ..jobs[k] })
            } else {
                jobs
            }
        },
    }
}

proof fn lemma_first_slug_unique(jobs: Seq<Job>, slug: Seq<char>, k: int)
    requires
        is_first_slug(jobs, slug, k),
    ensures
        slug_index(jobs, slug) == k,
{
    let k2 = slug_index(jobs, slug);
    assert(is_first_slug(jobs, slug, k2));
    if k2 < k {
        assert(jobs[k2].slug@ != slug);
    } else if k2 > k {
        assert(jobs[k].slug@ != slug);
    }
}

proof fn lemma_matching_step(s: Seq<Asset>, terms: Seq<String>, i: int)
    requires
        0 <= i < s.len(),
    ensures
        matching(s.take(i + 1), terms) == if asset_matches(s[i], terms) {
            matching(s.take(i), terms).push(s[i])
        } else {
            matching(s.take(i), terms)
        },
{
    assert(s.take(i + 1).drop_last() =~= s.take(i));
    assert(s.take(i + 1).last() == s[i]);
}

/// Where the first job with `slug` sits, or the length.
fn find_job(jobs: &Vec<Job>, slug: &str) -> (k: usize)
    ensures
        k == slug_index(jobs@, slug@),
        k <= jobs@.len(),
{
    let want = crate::text::chars_of(slug);
    let mut k: usize = 0;
    loop
        invariant
            k <= jobs@.len(),
            want@ == slug@,
            forall|j: int| 0 <= j < k ==> jobs@[j].slug@ != slug@,
        ensures
            is_first_slug(jobs@, slug@, k as int),
        decreases jobs@.len() - k,
    {
        if k == jobs.len() {
            break;
        }
        let have = crate::text::chars_of(jobs[k].slug.as_str());
        if crate::text::eq_seq(&have, &want) {
            break;
        }
        k = k + 1;
    }
    proof {
        lemma_first_slug_unique(jobs@, slug@, k as int);
    }
    k
}

impl Hub {
    /// The current tab's catalogue.
    pub fn catalogue(&self) -> (c: &Catalogue)
        ensures
            *c == current(*self),
    {
        &self.catalogues[self.kind.index()]
    }

    /// The current tab's entries that match the search box, in catalogue
    /// order. Borrowed rather than cloned.
    pub fn visible(&self) -> (v: Vec<&Asset>)
        ensures
            deref_all(v@) == visible_of(*self),
    {
        let mut out: Vec<&Asset> = Vec::new();
        match self.catalogue() {
            Catalogue::Ready(assets) => {
                let mut i: usize = 0;
                while i < assets.len()
                    invariant
                        i <= assets@.len(),
                        deref_all(out@) == matching(assets@.take(i as int), self.terms@),
                    decreases assets@.len() - i,
                {
                    let a = &assets[i];
                    proof {
                        lemma_matching_step(assets@, self.terms@, i as int);
                    }
                    if a.matches(self.terms.as_slice()) {
                        proof {
                            assert(deref_all(out@.push(a)) =~= deref_all(out@).push(*a));
                        }
                        out.push(a);
                    }
                    i = i + 1;
                }
                assert(assets@.take(assets@.len() as int) =~= assets@);
                out
            },
            _ => {
                assert(deref_all(out@) =~= Seq::empty());
                out
            },
        }
    }

    /// How many pages the current filter produces. Always at least one.
    pub fn page_count(&self) -> (n: usize)
        ensures
            n == page_count_of(visible_of(*self).len()),
    {
        let len = self.visible().len();
        if len == 0 {
            1
        } else {
            len / PAGE_SIZE + if len % PAGE_SIZE == 0 {
                0
            } else {
                1
            }
        }
    }

    /// The entries the grid builds: one page-sized window of the visible
    /// ones, with the page clamped to the last real page so a list that
    /// narrowed underneath the reader never shows an empty grid.
    pub fn page(&self) -> (p: Vec<&Asset>)
        ensures
            deref_all(p@) == page_window(visible_of(*self), self.page_index as nat),
    {
        let visible = self.visible();
        let count = self.page_count();
        let last = count - 1;
        proof {
            let n = visible@.len();
            assert(deref_all(visible@).len() == n);
            if n > 0 {
                assert((((n + 149) / 150) as int - 1) * 150 < n) by (nonlinear_arith)
                    requires
                        n > 0,
                ;
            }
            assert(last * 150 <= n);
            assert(n == visible.len());
            if self.page_index < last {
                assert(self.page_index * 150 <= last * 150) by (nonlinear_arith)
                    requires
                        self.page_index < last,
                ;
            }
        }
        let start = if self.page_index < last {
            self.page_index * 150
        } else {
            last * 150
        };
        let end = if visible.len() - start > PAGE_SIZE {
            start + PAGE_SIZE
        } else {
            visible.len()
        };
        let mut out: Vec<&Asset> = Vec::new();
        let mut i: usize = start;
        while i < end
            invariant
                start <= i <= end <= visible@.len(),
                deref_all(out@) == deref_all(visible@).subrange(start as int, i as int),
            decreases end - i,
        {
            proof {
                assert(deref_all(out@.push(visible@[i as int])) =~= deref_all(out@).push(
                    *visible@[i as int],
                ));
                assert(deref_all(visible@).subrange(start as int, i + 1) =~= deref_all(
                    visible@,
                ).subrange(start as int, i as int).push(deref_all(visible@)[i as int]));
            }
            out.push(visible[i]);
            i = i + 1;
        }
        out
    }

    /// Move by `delta` pages, stopping at either end.
    ///
    /// The page arithmetic is done in `i32`, as the panel's buttons send it, so
    /// the index and the move must fit one, as must the last page's index.
    pub fn turn_page(&mut self, delta: i32)
        requires
            old(self).page_index <= i32::MAX,
            i32::MIN <= old(self).page_index + delta <= i32::MAX,
            page_count_of(visible_of(*old(self)).len()) - 1 <= i32::MAX,
        ensures
            final(self).page_index == ({
                let last = page_count_of(visible_of(*old(self)).len()) - 1;
                let want = old(self).page_index + delta;
                if want < 0 {
                    0
                } else if want > last {
                    last
                } else {
                    want
                }
            }),
            final(self).kind == old(self).kind,
            final(self).terms@ == old(self).terms@,
            final(self).catalogues == old(self).catalogues,
            final(self).jobs@ == old(self).jobs@,
            final(self).res == old(self).res,
    {
        proof {
            match current(*self) {
                Catalogue::Ready(a) => lemma_matching_len(a@, self.terms@),
                _ => {},
            }
        }
        let last = self.page_count() - 1;
        let want = self.page_index as i64 + delta as i64;
        let next: i64 = if want < 0 {
            0
        } else if want > last as i64 {
            last as i64
        } else {
            want
        };
        let next = next as usize;
        if next != self.page_index {
            self.page_index = next;
        }
    }

    /// Back to the first page, as when the search or the tab changes.
    pub fn reset_page(&mut self)
        ensures
            final(self).page_index == 0,
            final(self).kind == old(self).kind,
            final(self).terms@ == old(self).terms@,
            final(self).catalogues == old(self).catalogues,
            final(self).jobs@ == old(self).jobs@,
            final(self).res == old(self).res,
    {
        if self.page_index != 0 {
            self.page_index = 0;
        }
    }

    /// The first job downloading `slug`.
    pub fn job(&self, slug: &str) -> (j: Option<&Job>)
        ensures
            j matches Some(job) ==> slug_index(self.jobs@, slug@) < self.jobs@.len() && *job
                == self.jobs@[slug_index(self.jobs@, slug@)],
            j is None ==> slug_index(self.jobs@, slug@) == self.jobs@.len(),
    {
        let k = find_job(&self.jobs, slug);
        if k < self.jobs.len() {
            let found = &self.jobs[k];
            assert(*found == self.jobs@[k as int]);
            Some(found)
        } else {
            None
        }
    }

    /// Switch tabs. The new tab has its own list and its own length, so a
    /// real switch goes back to the first page.
    pub fn set_kind(&mut self, kind: Kind)
        ensures
            final(self).kind == kind,
            final(self).page_index == if old(self).kind != kind {
                0
            } else {
                old(self).page_index
            },
            final(self).terms@ == old(self).terms@,
            final(self).catalogues == old(self).catalogues,
            final(self).jobs@ == old(self).jobs@,
            final(self).res == old(self).res,
    {
        if self.kind != kind {
            self.kind = kind;
            self.reset_page();
        }
    }

    /// Change the resolution downloads ask for.
    pub fn set_res(&mut self, res: &'static str)
        ensures
            final(self).res == res,
            final(self).kind == old(self).kind,
            final(self).page_index == old(self).page_index,
            final(self).terms@ == old(self).terms@,
            final(self).catalogues == old(self).catalogues,
            final(self).jobs@ == old(self).jobs@,
    {
        self.res = res;
    }

    /// The first look at a tab: an untouched catalogue moves to loading, and
    /// the kind to fetch comes back. The state moves before any request
    /// starts, so a slow one cannot be started twice.
    pub fn kick(&mut self) -> (k: Option<Kind>)
        ensures
            if current(*old(self)) is Idle {
                &&& k == Some(old(self).kind)
                &&& final(self).catalogues@ == old(self).catalogues@.update(
                    kind_index(old(self).kind) as int,
                    Catalogue::Loading,
                )
            } else {
                &&& k is None
                &&& final(self).catalogues == old(self).catalogues
            },
            final(self).kind == old(self).kind,
            final(self).page_index == old(self).page_index,
            final(self).terms@ == old(self).terms@,
            final(self).jobs@ == old(self).jobs@,
            final(self).res == old(self).res,
    {
        let i = self.kind.index();
        let idle = match &self.catalogues[i] {
            Catalogue::Idle => true,
            _ => false,
        };
        if !idle {
            return None;
        }
        self.catalogues[i] = Catalogue::Loading;
        assert(self.catalogues@ =~= old(self).catalogues@.update(i as int, Catalogue::Loading));
        Some(self.kind)
    }

    /// List a download that has just been asked for, newest first.
    pub fn start_job(&mut self, slug: String, kind: Kind, folder: String)
        ensures
            final(self).jobs@ == seq![
                Job {
                    slug,
                    kind,
                    folder,
                    done: 0,
                    total: 0,
                    outcome: None,
                    handed_off: false,
                },
            ] + old(self).jobs@,
            final(self).kind == old(self).kind,
            final(self).page_index == old(self).page_index,
            final(self).terms@ == old(self).terms@,
            final(self).catalogues == old(self).catalogues,
            final(self).res == old(self).res,
    {
        let job = Job { slug, kind, folder, done: 0, total: 0, outcome: None, handed_off: false };
        self.jobs.insert(0, job);
        assert(self.jobs@ =~= seq![job] + old(self).jobs@);
    }

    /// The folders of finished model downloads to hand to the import
    /// pipeline, each once: their jobs are marked handed off.
    pub fn hand_off(&mut self) -> (folders: Vec<String>)
        ensures
            strings_view(folders@) == import_folders(old(self).jobs@),
            final(self).jobs@.len() == old(self).jobs@.len(),
            forall|i: int|
                0 <= i < old(self).jobs@.len() ==> #[trigger] final(self).jobs@[i] == (Job {
                    handed_off: old(self).jobs@[i].handed_off || awaiting_import(old(self).jobs@[i]),
                    ..old(self).jobs@[i]
                }),
            final(self).kind == old(self).kind,
            final(self).page_index == old(self).page_index,
            final(self).terms@ == old(self).terms@,
            final(self).catalogues == old(self).catalogues,
            final(self).res == old(self).res,
    {
        let mut folders: Vec<String> = Vec::new();
        let mut i: usize = 0;
        while i < self.jobs.len()
            invariant
                i <= self.jobs@.len(),
                self.jobs@.len() == old(self).jobs@.len(),
                strings_view(folders@) == import_folders(old(self).jobs@.take(i as int)),
                forall|j: int|
                    0 <= j < i ==> #[trigger] self.jobs@[j] == (Job {
                        handed_off: old(self).jobs@[j].handed_off || awaiting_import(
                            old(self).jobs@[j],
                        ),
                        ..old(self).jobs@[j]
                    }),
                forall|j: int| i <= j < self.jobs@.len() ==> #[trigger] self.jobs@[j] == old(
                    self,
                ).jobs@[j],
                self.kind == old(self).kind,
                self.page_index == old(self).page_index,
                self.terms@ == old(self).terms@,
                self.catalogues == old(self).catalogues,
                self.res == old(self).res,
            decreases self.jobs@.len() - i,
        {
            proof {
                assert(old(self).jobs@.take(i + 1).drop_last() =~= old(self).jobs@.take(i as int));
            }
            let ready = !self.jobs[i].handed_off && self.jobs[i].kind == Kind::Models && match &self.jobs[i].outcome {
                Some(Ok(_)) => true,
                _ => false,
            };
            if ready {
                let ghost before = self.jobs@;
                let mut job = self.jobs.remove(i);
                folders.push(job.folder.clone());
                job.handed_off = true;
                self.jobs.insert(i, job);
                proof {
                    assert forall|j: int| 0 <= j < self.jobs@.len() && j != i implies #[trigger] self.jobs@[j] == before[j] by {}
                    assert(strings_view(folders@) =~= import_folders(old(self).jobs@.take(i + 1)));
                }
            } else {
                proof {
                    assert(strings_view(folders@) =~= import_folders(old(self).jobs@.take(i + 1)));
                }
            }
            i = i + 1;
        }
        proof {
            assert(old(self).jobs@.take(old(self).jobs@.len() as int) =~= old(self).jobs@);
        }
        folders
    }

    /// `2 / 7`: the page on screen, counted from one, of how many.
    pub fn page_label(&self) -> (s: String)
        requires
            self.page_index < u64::MAX,
        ensures
            s@ == ascii_chars(decimal((self.page_index + 1) as nat)) + " / "@ + ascii_chars(
                decimal(page_count_of(visible_of(*self).len())),
            ),
    {
        let mut s = decimal_string(self.page_index as u64 + 1);
        push_str(&mut s, " / ");
        let n = decimal_string(self.page_count() as u64);
        push_str(&mut s, n.as_str());
        s
    }

    /// The status line for the current tab.
    pub fn status(&self) -> (s: String)
        ensures
            s@ == status_of(*self),
    {
        match self.catalogue() {
            Catalogue::Idle => {
                let mut s = String::new();
                push_str(&mut s, "Opening…");
                s
            },
            Catalogue::Loading => {
                let mut s = String::new();
                push_str(&mut s, "Fetching the ");
                push_str(&mut s, self.kind.label());
                push_str(&mut s, " catalogue…");
                s
            },
            Catalogue::Failed(why) => {
                let mut s = String::new();
                push_str(&mut s, "Could not load the catalogue: ");
                push_str(&mut s, why.as_str());
                s
            },
            Catalogue::Ready(all) => {
                let matched = self.visible().len();
                let kind = to_lowercase(self.kind.label());
                let mut s = decimal_string(matched as u64);
                if matched != all.len() {
                    push_str(&mut s, " of ");
                    let n = decimal_string(all.len() as u64);
                    push_str(&mut s, n.as_str());
                }
                push_str(&mut s, " ");
                push_str(&mut s, kind.as_str());
                proof {
                    reveal_strlit(" ");
                }
                s
            },
        }
    }

    /// Take the search box's text as lowercased terms. A changed filter is a
    /// new list, so it goes back to the first page; an unchanged one leaves
    /// everything as it was.
    pub fn set_search(&mut self, text: &str)
        ensures
            strings_view(final(self).terms@) == search_terms(text@),
            final(self).page_index == if strings_view(old(self).terms@) == search_terms(text@) {
                old(self).page_index
            } else {
                0
            },
            final(self).kind == old(self).kind,
            final(self).catalogues == old(self).catalogues,
            final(self).jobs@ == old(self).jobs@,
            final(self).res == old(self).res,
    {
        let terms = split_terms(text);
        let mut same = terms.len() == self.terms.len();
        proof {
            if !same {
                assert(strings_view(terms@).len() != strings_view(self.terms@).len());
            }
        }
        let mut i: usize = 0;
        while same && i < terms.len()
            invariant
                i <= terms@.len(),
                same ==> terms@.len() == self.terms@.len(),
                same ==> forall|j: int| 0 <= j < i ==> terms@[j]@ == self.terms@[j]@,
                !same ==> strings_view(terms@) != strings_view(self.terms@),
            decreases terms@.len() - i,
        {
            if terms[i] != self.terms[i] {
                same = false;
                assert(strings_view(terms@)[i as int] != strings_view(self.terms@)[i as int]);
            }
            i = i + 1;
        }
        if same {
            assert(strings_view(terms@) =~= strings_view(self.terms@));
            return;
        }
        self.terms = terms;
        self.reset_page();
    }

    /// Fold one worker message into the state, then trim finished jobs from
    /// the back, keeping every running one however many there are.
    pub fn apply(&mut self, msg: Msg)
        ensures
            final(self).catalogues@ == match msg {
                Msg::Catalogue { kind, result } => landed(old(self).catalogues, kind, result),
                _ => old(self).catalogues@,
            },
            final(self).jobs@ == trim_jobs(jobs_after(old(self).jobs@, msg)),
            final(self).kind == old(self).kind,
            final(self).terms@ == old(self).terms@,
            final(self).page_index == old(self).page_index,
            final(self).res == old(self).res,
    {
        let ghost updated = jobs_after(old(self).jobs@, msg);
        match msg {
            Msg::Catalogue { kind, result } => {
                let c = match result {
                    Ok(assets) => Catalogue::Ready(assets),
                    Err(why) => Catalogue::Failed(why),
                };
                self.catalogues[kind.index()] = c;
                assert(self.catalogues@ =~= landed(old(self).catalogues, kind, result));
            },
            Msg::Progress { slug, done, total } => {
                let k = find_job(&self.jobs, slug.as_str());
                if k < self.jobs.len() {
                    let mut job = self.jobs.remove(k);
                    job.done = done;
                    job.total = total;
                    self.jobs.insert(k, job);
                    assert(self.jobs@ =~= updated);
                }
            },
            Msg::Finished { slug, result } => {
                let k = find_job(&self.jobs, slug.as_str());
                if k < self.jobs.len() {
                    let mut job = self.jobs.remove(k);
                    job.outcome = Some(result);
                    self.jobs.insert(k, job);
                    assert(self.jobs@ =~= updated);
                }
            },
        }
        self.trim();
    }

    /// Drop finished jobs from the back while more than [`JOB_HISTORY`] are
    /// listed.
    fn trim(&mut self)
        ensures
            final(self).jobs@ == trim_jobs(old(self).jobs@),
            final(self).catalogues == old(self).catalogues,
            final(self).kind == old(self).kind,
            final(self).terms@ == old(self).terms@,
            final(self).page_index == old(self).page_index,
            final(self).res == old(self).res,
    {
        while self.jobs.len() > JOB_HISTORY
            invariant
                trim_jobs(self.jobs@) == trim_jobs(old(self).jobs@),
                self.catalogues == old(self).catalogues,
                self.kind == old(self).kind,
                self.terms@ == old(self).terms@,
                self.page_index == old(self).page_index,
                self.res == old(self).res,
            ensures
                self.jobs@ == trim_jobs(old(self).jobs@),
                self.catalogues == old(self).catalogues,
                self.kind == old(self).kind,
                self.terms@ == old(self).terms@,
                self.page_index == old(self).page_index,
                self.res == old(self).res,
            decreases self.jobs@.len(),
        {
            let mut k = self.jobs.len();
            assert(self.jobs@.take(k as int) =~= self.jobs@);
            while k > 0 && self.jobs[k - 1].outcome.is_none()
                invariant
                    k <= self.jobs@.len(),
                    forall|j: int| k <= j < self.jobs@.len() ==> self.jobs@[j].outcome is None,
                    last_finished(self.jobs@) == last_finished(self.jobs@.take(k as int)),
                decreases k,
            {
                proof {
                    let t = self.jobs@.take(k as int);
                    assert(t.drop_last() =~= self.jobs@.take(k - 1));
                }
                k = k - 1;
            }
            if k == 0 {
                proof {
                    assert(self.jobs@.take(0).len() == 0);
                }
                break;
            }
            proof {
                let t = self.jobs@.take(k as int);
                assert(t.last() == self.jobs@[k - 1]);
                assert(last_finished(self.jobs@) == Some(k - 1));
            }
            self.jobs.remove(k - 1);
        }
    }
}

/// `matching` never grows its input.
pub proof fn lemma_matching_len(s: Seq<Asset>, terms: Seq<String>)
    ensures
        matching(s, terms).len() <= s.len(),
    decreases s.len(),
{
    if s.len() > 0 {
        lemma_matching_len(s.drop_last(), terms);
    }
}

/// The words of `text`, lowercased.
fn split_terms(text: &str) -> (terms: Vec<String>)
    ensures
        strings_view(terms@) == search_terms(text@),
{
    let s = chars_of(text);
    let mut ws: Vec<Vec<char>> = Vec::new();
    let mut i: usize = 0;
    while i < s.len()
        invariant
            i <= s@.len(),
            s@ == text@,
            ws@.map_values(|w: Vec<char>| w@) == words(s@.take(i as int)),
            i > 0 && !is_space(s@[i - 1]) ==> ws@.len() > 0,
        decreases s@.len() - i,
    {
        let c = s[i];
        let ghost before = ws@.map_values(|w: Vec<char>| w@);
        proof {
            assert(s@.take(i + 1).drop_last() =~= s@.take(i as int));
            assert(s@.take(i + 1).last() == c);
        }
        if !is_space_exec(c) {
            if i > 0 && !is_space_exec(s[i - 1]) {
                let last = ws.pop();
                match last {
                    Some(mut w) => {
                        w.push(c);
                        ws.push(w);
                    },
                    None => {},
                }
                proof {
                    assert(s@.take(i + 1)[i - 1] == s@[i - 1]);
                    assert(ws@.map_values(|w: Vec<char>| w@) =~= before.update(
                        before.len() - 1,
                        before.last().push(c),
                    ));
                }
            } else {
                let mut w: Vec<char> = Vec::new();
                w.push(c);
                ws.push(w);
                proof {
                    if i > 0 {
                        assert(s@.take(i + 1)[i - 1] == s@[i - 1]);
                    }
                    assert(w@ =~= seq![c]);
                    assert(ws@.map_values(|w: Vec<char>| w@) =~= before.push(seq![c]));
                }
            }
        }
        i = i + 1;
    }
    proof {
        assert(s@.take(s@.len() as int) =~= s@);
    }
    let mut terms: Vec<String> = Vec::new();
    let mut k: usize = 0;
    assert(ws@.map_values(|w: Vec<char>| w@).len() == ws@.len());
    while k < ws.len()
        invariant
            k <= ws@.len(),
            ws@.map_values(|w: Vec<char>| w@) == words(text@),
            ws@.len() == words(text@).len(),
            terms@.len() == k,
            strings_view(terms@) == search_terms(text@).take(k as int),
        decreases ws@.len() - k,
    {
        let word = string_from(ws[k].as_slice());
        proof {
            assert(ws@.map_values(|w: Vec<char>| w@)[k as int] == ws@[k as int]@);
            assert(word@ == words(text@)[k as int]);
        }
        let ghost before = terms@;
        terms.push(to_lowercase(word.as_str()));
        proof {
            assert(terms@ == before.push(terms@[k as int]));
            assert(terms@[k as int]@ == lowercase(words(text@)[k as int]));
        }
        k = k + 1;
        proof {
            assert(strings_view(terms@) =~= search_terms(text@).take(k as int));
        }
    }
    proof {
        assert(search_terms(text@).take(ws@.len() as int) =~= search_terms(text@));
    }
    terms
}

/// Is there a page in `delta`'s direction?
pub fn can_turn(h: &Hub, delta: i32) -> (r: bool)
    ensures
        r == if delta < 0 {
            h.page_index > 0
        } else {
            h.page_index + 1 < page_count_of(visible_of(*h).len())
        },
{
    if delta < 0 {
        h.page_index > 0
    } else {
        h.page_index < h.page_count() - 1
    }
}


// ── Laws ────────────────────────────────────────────────────────────────────

/// There is always at least one page: an empty result reads "page 1 of 1".
pub proof fn law_page_count_never_zero(n: nat)
    ensures
        page_count_of(n) >= 1,
        n > 0 ==> (page_count_of(n) - 1) * PAGE_SIZE < n <= page_count_of(n) * PAGE_SIZE,
{
    if n > 0 {
        assert((((n + 149) / 150) as int - 1) * 150 < n <= ((n + 149) / 150) * 150)
            by (nonlinear_arith)
            requires
                n > 0,
        ;
    }
}

/// Each page is its own window: a page before another ends where, or before,
/// the later one starts, and every page but the last is full.
pub proof fn law_pages_do_not_overlap(n: nat, p: nat, q: nat)
    requires
        p < q < page_count_of(n),
    ensures
        page_start(n, p) + PAGE_SIZE <= page_start(n, q),
        page_start(n, p) + PAGE_SIZE <= n,
{
    law_page_count_never_zero(n);
    assert(p * 150 + 150 <= q * 150) by (nonlinear_arith)
        requires
            p < q,
    ;
    let last = (page_count_of(n) - 1) as nat;
    assert(q * 150 <= last * 150) by (nonlinear_arith)
        requires
            q <= last,
    ;
}

/// However stale the page index, the window shows something whenever the
/// filtered list has anything: a narrowed list never shows an empty grid.
pub proof fn law_stale_page_clamps<T>(v: Seq<T>, index: nat)
    requires
        v.len() > 0,
    ensures
        page_window(v, index).len() > 0,
        page_window(v, index).len() <= PAGE_SIZE,
{
    law_page_count_never_zero(v.len());
    let last = (page_count_of(v.len()) - 1) as nat;
    if index < last {
        assert(index * 150 <= last * 150) by (nonlinear_arith)
            requires
                index < last,
        ;
    }
}

/// Turning the page stops at both ends: the result is always a real page.
pub proof fn law_turn_stays_in_range(n: nat, index: int, delta: int)
    ensures
        ({
            let last = page_count_of(n) - 1;
            let want = index + delta;
            let next = if want < 0 {
                0
            } else if want > last {
                last
            } else {
                want
            };
            0 <= next < page_count_of(n)
        }),
{
    law_page_count_never_zero(n);
}

/// Adding a search term only narrows the visible set: whatever matches the
/// longer query matched the shorter one.
pub proof fn law_more_terms_narrow(a: Asset, terms: Seq<String>, more: Seq<String>)
    requires
        asset_matches(a, terms + more),
    ensures
        asset_matches(a, terms),
{
    assert forall|i: int| 0 <= i < terms.len() implies crate::polyhaven::api::term_matches(
        a,
        #[trigger] terms[i]@,
    ) by {
        assert((terms + more)[i] == terms[i]);
    }
}

/// The visible set is exactly the catalogue entries that match, in order:
/// every visible entry matches, and every matching entry is visible.
pub proof fn law_visible_is_the_matches(s: Seq<Asset>, terms: Seq<String>)
    ensures
        forall|i: int|
            0 <= i < matching(s, terms).len() ==> asset_matches(#[trigger] matching(s, terms)[i], terms)
                && s.contains(matching(s, terms)[i]),
        forall|i: int| 0 <= i < s.len() && asset_matches(s[i], terms) ==> matching(s, terms).contains(
            #[trigger] s[i],
        ),
    decreases s.len(),
{
    if s.len() > 0 {
        let m = matching(s.drop_last(), terms);
        law_visible_is_the_matches(s.drop_last(), terms);
        assert forall|i: int|
            0 <= i < matching(s, terms).len() implies asset_matches(
            #[trigger] matching(s, terms)[i],
            terms,
        ) && s.contains(matching(s, terms)[i]) by {
            if i < m.len() {
                assert(matching(s, terms)[i] == m[i]);
                let k = choose|k: int| 0 <= k < s.drop_last().len() && s.drop_last()[k] == m[i];
                assert(s[k] == m[i]);
            } else {
                assert(s[s.len() - 1] == s.last());
            }
        }
        assert forall|i: int| 0 <= i < s.len() && asset_matches(s[i], terms) implies matching(
            s,
            terms,
        ).contains(#[trigger] s[i]) by {
            if i < s.len() - 1 {
                assert(s.drop_last()[i] == s[i]);
                let k = choose|k: int| 0 <= k < m.len() && m[k] == s[i];
                assert(matching(s, terms)[k] == s[i]);
            } else {
                assert(matching(s, terms)[m.len() as int] == s[i]);
            }
        }
    }
}

proof fn lemma_last_finished_facts(jobs: Seq<Job>)
    ensures
        last_finished(jobs) matches Some(k) ==> 0 <= k < jobs.len() && jobs[k].outcome is Some && (
        forall|j: int| k < j < jobs.len() ==> jobs[j].outcome is None),
        last_finished(jobs) is None ==> forall|j: int| 0 <= j < jobs.len() ==> jobs[j].outcome is None,
    decreases jobs.len(),
{
    if jobs.len() > 0 && jobs.last().outcome is None {
        lemma_last_finished_facts(jobs.drop_last());
        assert forall|j: int| 0 <= j < jobs.len() - 1 implies jobs[j] == jobs.drop_last()[j] by {}
    }
}

proof fn lemma_running_remove_finished(jobs: Seq<Job>, k: int)
    requires
        0 <= k < jobs.len(),
        jobs[k].outcome is Some,
    ensures
        running_jobs(jobs.remove(k)) == running_jobs(jobs),
    decreases jobs.len(),
{
    if k == jobs.len() - 1 {
        assert(jobs.remove(k) =~= jobs.drop_last());
    } else {
        lemma_running_remove_finished(jobs.drop_last(), k);
        assert(jobs.remove(k).drop_last() =~= jobs.drop_last().remove(k));
        assert(jobs.remove(k).last() == jobs.last());
    }
}

/// Trimming keeps every running job, in order, however many there are; and
/// once it is done either at most [`JOB_HISTORY`] jobs are listed or every
/// one still listed is running.
pub proof fn law_trim_keeps_running_jobs(jobs: Seq<Job>)
    ensures
        running_jobs(trim_jobs(jobs)) == running_jobs(jobs),
        trim_jobs(jobs).len() <= JOB_HISTORY || forall|j: int|
            0 <= j < trim_jobs(jobs).len() ==> (#[trigger] trim_jobs(jobs)[j]).outcome is None,
    decreases jobs.len(),
{
    lemma_last_finished_facts(jobs);
    if jobs.len() > JOB_HISTORY {
        match last_finished(jobs) {
            Some(k) => {
                lemma_running_remove_finished(jobs, k);
                law_trim_keeps_running_jobs(jobs.remove(k));
            },
            None => {},
        }
    }
}

/// `t` is `jobs` with some finished jobs taken out, the rest in order:
/// `idx` says where each kept job stood. Every job taken out was finished,
/// and none finished after it was kept, so the dropped ones are the finished
/// jobs nearest the back.
pub open spec fn trimmed_from(jobs: Seq<Job>, t: Seq<Job>, idx: Seq<int>) -> bool {
    &&& idx.len() == t.len()
    &&& forall|k: int| 0 <= k < idx.len() ==> 0 <= #[trigger] idx[k] < jobs.len() && t[k] == jobs[idx[k]]
    &&& forall|a: int, b: int| 0 <= a < b < idx.len() ==> #[trigger] idx[a] < #[trigger] idx[b]
    &&& forall|d: int| 0 <= d < jobs.len() && !idx.contains(d) ==> (#[trigger] jobs[d]).outcome is Some
    &&& forall|d: int, e: int|
        #![trigger idx.contains(d), jobs[e]]
        0 <= d < e < jobs.len() && !idx.contains(d) && jobs[e].outcome is Some ==> !idx.contains(e)
}

proof fn lemma_running_len(jobs: Seq<Job>)
    ensures
        running_jobs(jobs).len() <= jobs.len(),
        last_finished(jobs) is Some ==> running_jobs(jobs).len() < jobs.len(),
        last_finished(jobs) is None ==> running_jobs(jobs).len() == jobs.len(),
    decreases jobs.len(),
{
    if jobs.len() > 0 {
        lemma_running_len(jobs.drop_last());
    }
}

proof fn lemma_trim_index(jobs: Seq<Job>) -> (idx: Seq<int>)
    ensures
        trimmed_from(jobs, trim_jobs(jobs), idx),
    decreases jobs.len(),
{
    lemma_last_finished_facts(jobs);
    if jobs.len() > JOB_HISTORY && last_finished(jobs) is Some {
        let k = last_finished(jobs)->0;
        let rest = jobs.remove(k);
        let inner = lemma_trim_index(rest);
        let idx = inner.map_values(|x: int| if x < k { x } else { x + 1 });
        let t = trim_jobs(jobs);
        assert(t == trim_jobs(rest));
        assert forall|q: int| 0 <= q < idx.len() implies 0 <= #[trigger] idx[q] < jobs.len()
            && t[q] == jobs[idx[q]] by {
            let x = inner[q];
            if x < k {
                assert(rest[x] == jobs[x]);
            } else {
                assert(rest[x] == jobs[x + 1]);
            }
        }
        assert forall|a: int, b: int| 0 <= a < b < idx.len() implies #[trigger] idx[a]
            < #[trigger] idx[b] by {
            assert(inner[a] < inner[b]);
        }
        // Where a position of `jobs` other than `k` stood in `rest`.
        assert forall|d: int| 0 <= d < jobs.len() && d != k implies (idx.contains(d) <==> inner.contains(
            if d < k {
                d
            } else {
                d - 1
            },
        )) by {
            let dr = if d < k {
                d
            } else {
                d - 1
            };
            if idx.contains(d) {
                let q = choose|q: int| 0 <= q < idx.len() && idx[q] == d;
                assert(inner[q] == dr);
            }
            if inner.contains(dr) {
                let q = choose|q: int| 0 <= q < inner.len() && inner[q] == dr;
                assert(idx[q] == d);
            }
        }
        assert(!idx.contains(k)) by {
            if idx.contains(k) {
                let q = choose|q: int| 0 <= q < idx.len() && idx[q] == k;
                assert(inner[q] < k || inner[q] + 1 > k);
            }
        }
        assert forall|d: int| 0 <= d < jobs.len() && !idx.contains(d) implies (
        #[trigger] jobs[d]).outcome is Some by {
            if d < k {
                assert(rest[d] == jobs[d]);
            } else if d > k {
                assert(rest[d - 1] == jobs[d]);
            }
        }
        assert forall|d: int, e: int|
            #![trigger idx.contains(d), jobs[e]]
            0 <= d < e < jobs.len() && !idx.contains(d) && jobs[e].outcome is Some implies !idx.contains(
                e,
            ) by {
            if e == k {
            } else if d == k {
            } else {
                let dr = if d < k {
                    d
                } else {
                    d - 1
                };
                let er = if e < k {
                    e
                } else {
                    e - 1
                };
                assert(rest[er] == jobs[e]);
                assert(dr < er);
            }
        }
        idx
    } else {
        let idx = Seq::new(jobs.len(), |i: int| i);
        assert forall|d: int| 0 <= d < jobs.len() implies idx.contains(d) by {
            assert(idx[d] == d);
        }
        idx
    }
}

/// Trimming is exact: the list keeps its order, loses only finished jobs and
/// only the ones nearest the back, and ends at the longer of the history
/// length and the running count, or at its own length when that is shorter.
pub proof fn law_trim_is_exact(jobs: Seq<Job>)
    ensures
        exists|idx: Seq<int>| trimmed_from(jobs, trim_jobs(jobs), idx),
        trim_jobs(jobs).len() == if jobs.len() <= JOB_HISTORY || jobs.len() <= running_jobs(
            jobs,
        ).len() {
            jobs.len()
        } else if running_jobs(jobs).len() <= JOB_HISTORY {
            JOB_HISTORY as nat
        } else {
            running_jobs(jobs).len()
        },
    decreases jobs.len(),
{
    let idx = lemma_trim_index(jobs);
    lemma_last_finished_facts(jobs);
    lemma_running_len(jobs);
    if jobs.len() > JOB_HISTORY && last_finished(jobs) is Some {
        let k = last_finished(jobs)->0;
        lemma_running_remove_finished(jobs, k);
        law_trim_is_exact(jobs.remove(k));
    }
}

} // verus!
