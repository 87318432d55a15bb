//! The crawl frontier: which URL to fetch next, what was seen, and how many
//! workers are busy.
use std::collections::VecDeque;
use vstd::prelude::*;
use crate::extract::url_views;
use crate::keyset::KeySet;
use crate::paths::{normalize_url, normalized};
use crate::robots::{
    allowed_by_robots, crawler_agent, robots_allowed, robots_body_readable, robots_location,
};
use crate::weburl::{
    serialization, url_with_path, without_fragment, without_query, UrlView, WebUrl,
};

verus! {

/// The command-line settings of a crawl.
pub struct Args {
    /// The start page.
    pub index: String,
    /// The directory the pages are stored under.
    pub output: String,
    /// How many link levels below the start page are followed.
    pub depth: usize,
    /// How many pages are fetched at the same time.
    pub workers: usize,
    /// Whether stored pages get their off-site links made absolute.
    pub hardcode_external: bool,
}

impl Args {
    /// The number of workers to run: at least one.
    pub fn worker_count(&self) -> (r: usize)
        ensures
            r == (if self.workers >= 1 { self.workers } else { 1 }),
    {
        if self.workers >= 1 {
            self.workers
        } else {
            1
        }
    }
}

/// A URL to fetch and its distance in links from the start page.
pub struct Job {
    pub url: WebUrl,
    pub depth: usize,
}

/// The model of a [`Job`].
pub struct JobView {
    pub url: UrlView,
    pub depth: nat,
}

impl View for Job {
    type V = JobView;

    open spec fn view(&self) -> JobView {
        JobView { url: self.url@, depth: self.depth as nat }
    }
}

/// The views of a list of jobs.
pub open spec fn job_views(s: Seq<Job>) -> Seq<JobView> {
    s.map_values(|j: Job| j@)
}

/// The model of the frontier.
pub struct FrontierView {
    /// The jobs waiting, first to be taken first.
    pub queue: Seq<JobView>,
    /// The keys ([`normalized`]) of every URL taken from the queue so far.
    pub visited: Set<Seq<char>>,
    /// The jobs handed out whose results have not come back.
    pub active: nat,
    /// The most jobs out at the same time.
    pub workers: nat,
    /// Links are followed from pages above this depth.
    pub max_depth: nat,
}

/// The frontier is well formed: at least one worker, never more jobs out than
/// workers.
pub open spec fn frontier_wf(v: FrontierView) -> bool {
    1 <= v.workers && v.active <= v.workers
}

/// What the crawler is told to do next.
pub enum Step {
    /// Fetch this job; follow its links when `should_extract`.
    Crawl { job: Job, should_extract: bool },
    /// robots.txt forbids this URL; it was taken from the queue and is dropped.
    Blocked { url: WebUrl },
    /// All workers are busy or the queue is empty: wait for a result.
    Wait,
    /// Nothing is queued and nothing is out: the crawl is over.
    Finished,
}

/// The model of a [`Step`].
pub enum StepView {
    Crawl { job: JobView, should_extract: bool },
    Blocked { url: UrlView },
    Wait,
    Finished,
}

impl View for Step {
    type V = StepView;

    open spec fn view(&self) -> StepView {
        match self {
            Step::Crawl { job, should_extract } => StepView::Crawl {
                job: job@,
                should_extract: *should_extract,
            },
            Step::Blocked { url } => StepView::Blocked { url: url@ },
            Step::Wait => StepView::Wait,
            Step::Finished => StepView::Finished,
        }
    }
}

/// robots.txt lets the crawler fetch a URL.
pub open spec fn robots_permit(robots: Seq<char>, u: UrlView) -> bool {
    robots.len() == 0 || robots_allowed(robots, crawler_agent(), serialization(u))
}

/// The next decision and the frontier after it: while a worker is free and jobs
/// wait, take the first job; skip it when its key was seen, else record the key;
/// report it blocked when robots.txt forbids it, else hand it out (following links
/// when its depth is below the limit). With no free worker or no job, wait, unless
/// nothing is out and nothing waits, which ends the crawl.
pub open spec fn next_step_spec(v: FrontierView, robots: Seq<char>) -> (FrontierView, StepView)
    decreases v.queue.len(),
{
    if v.active < v.workers && v.queue.len() > 0 {
        let job = v.queue[0];
        let key = normalized(job.url);
        let rest = FrontierView { queue: v.queue.drop_first(), ..v };
        if v.visited.contains(key) {
            next_step_spec(rest, robots)
        } else {
            let seen = FrontierView { visited: v.visited.insert(key), ..rest };
            if !robots_permit(robots, job.url) {
                (seen, StepView::Blocked { url: job.url })
            } else {
                (
                    FrontierView { active: v.active + 1, ..seen },
                    StepView::Crawl { job, should_extract: job.depth < v.max_depth },
                )
            }
        }
    } else if v.active == 0 && v.queue.len() == 0 {
        (v, StepView::Finished)
    } else {
        (v, StepView::Wait)
    }
}

/// The jobs for the links of a page at depth `depth`: one level deeper each.
pub open spec fn child_jobs(links: Seq<UrlView>, depth: nat) -> Seq<JobView> {
    links.map_values(|u: UrlView| JobView { url: u, depth: depth + 1 })
}

/// The frontier after a worker's result comes back: one job fewer out, the links
/// queued at the end one level deeper.
pub open spec fn complete_spec(v: FrontierView, links: Seq<UrlView>, parent_depth: nat) -> FrontierView {
    FrontierView {
        queue: v.queue + child_jobs(links, parent_depth),
        active: (v.active - 1) as nat,
        ..v
    }
}

/// The crawl frontier: a queue of jobs, the set of visited keys, and the count of
/// jobs out.
pub struct Frontier {
    queue: VecDeque<Job>,
    visited: KeySet,
    active: usize,
    workers: usize,
    max_depth: usize,
}

impl Frontier {
    /// The model of the frontier.
    pub closed spec fn view(&self) -> FrontierView {
        FrontierView {
            queue: job_views(self.queue@),
            visited: self.visited.set_view(),
            active: self.active as nat,
            workers: self.workers as nat,
            max_depth: self.max_depth as nat,
        }
    }

    /// The frontier's inner structures are sound and its model well formed.
    pub closed spec fn wf(&self) -> bool {
        &&& self.visited.wf()
        &&& frontier_wf(self.view())
    }

    /// A frontier holding the start page at depth 0, with `workers` workers (at
    /// least one) and links followed from pages above depth `max_depth`.
    pub fn new(root: WebUrl, workers: usize, max_depth: usize) -> (r: Frontier)
        ensures
            r.wf(),
            r.view() == (FrontierView {
                queue: seq![JobView { url: root@, depth: 0 }],
                visited: Set::empty(),
                active: 0,
                workers: if workers >= 1 { workers as nat } else { 1 },
                max_depth: max_depth as nat,
            }),
    {
        let ghost rv = root@;
        let mut queue: VecDeque<Job> = VecDeque::new();
        queue.push_back(Job { url: root, depth: 0 });
        let w = if workers >= 1 { workers } else { 1 };
        let r = Frontier { queue, visited: KeySet::new(), active: 0, workers: w, max_depth };
        assert(job_views(r.queue@) =~= seq![JobView { url: rv, depth: 0 }]);
        r
    }

    /// The number of jobs out.
    pub fn active(&self) -> (r: usize)
        ensures
            r == self.view().active,
    {
        self.active
    }

    /// The number of jobs waiting.
    pub fn queued(&self) -> (r: usize)
        ensures
            r == self.view().queue.len(),
    {
        self.queue.len()
    }

    /// Decides what to do next (see [`next_step_spec`]).
    pub fn next_step(&mut self, robots: &str) -> (r: Step)
        requires
            old(self).wf(),
            robots_body_readable(robots@),
        ensures
            final(self).wf(),
            (final(self).view(), r@) == next_step_spec(old(self).view(), robots@),
    {
        loop
            invariant
                self.wf(),
                robots_body_readable(robots@),
                next_step_spec(self.view(), robots@) == next_step_spec(old(self).view(), robots@),
            decreases self.queue@.len(),
        {
            let ghost v = self.view();
            if self.active < self.workers && self.queue.len() > 0 {
                let job = match self.queue.pop_front() {
                    Some(j) => j,
                    None => {
                        return Step::Wait;
                    },
                };
                assert(job@ == v.queue[0]);
                assert(job_views(self.queue@) =~= v.queue.drop_first());
                let key = normalize_url(&job.url);
                if self.visited.contains(&key) {
                    assert(self.view() == FrontierView { queue: v.queue.drop_first(), ..v });
                    continue;
                }
                self.visited.insert(key);
                if !allowed_by_robots(robots, &job.url) {
                    return Step::Blocked { url: job.url };
                }
                self.active = self.active + 1;
                let should_extract = job.depth < self.max_depth;
                return Step::Crawl { job, should_extract };
            } else if self.active == 0 && self.queue.len() == 0 {
                return Step::Finished;
            } else {
                return Step::Wait;
            }
        }
    }

    /// Takes back a worker's result: the job is no longer out, and the links it
    /// found are queued one level deeper than the page.
    pub fn complete(&mut self, links: Vec<WebUrl>, parent_depth: usize)
        requires
            old(self).wf(),
            old(self).view().active > 0,
            links.len() == 0 || parent_depth < usize::MAX,
        ensures
            final(self).wf(),
            final(self).view() == complete_spec(old(self).view(), url_views(links@), parent_depth as nat),
    {
        let ghost v = self.view();
        let ghost lv = url_views(links@);
        self.active = self.active - 1;
        let mut i: usize = 0;
        let mut links = links;
        let ghost all = links@;
        let n = links.len();
        while links.len() > 0
            invariant
                self.wf(),
                links.len() == 0 || parent_depth < usize::MAX,
                all.len() == links@.len() + i,
                n == all.len(),
                links@ =~= all.subrange(i as int, all.len() as int),
                self.view() == (FrontierView {
                    queue: v.queue + child_jobs(url_views(all.take(i as int)), parent_depth as nat),
                    active: (v.active - 1) as nat,
                    ..v
                }),
            decreases links.len(),
        {
            let u = links.remove(0);
            let ghost before = self.view();
            self.queue.push_back(Job { url: u, depth: parent_depth + 1 });
            assert(url_views(all.take(i + 1)) =~= url_views(all.take(i as int)).push(all[i as int]@));
            assert(job_views(self.queue@) =~= before.queue.push(JobView { url: all[i as int]@, depth: parent_depth as nat + 1 }));
            assert(child_jobs(url_views(all.take(i + 1)), parent_depth as nat) =~= child_jobs(url_views(all.take(i as int)), parent_depth as nat).push(JobView { url: all[i as int]@, depth: parent_depth as nat + 1 }));
            i = i + 1;
        }
        assert(all.take(i as int) =~= all);
    }
}

/// Every decision keeps the frontier well formed: at least one worker, never more
/// jobs out than workers.
pub proof fn law_next_step_keeps_bounds(v: FrontierView, robots: Seq<char>)
    requires
        frontier_wf(v),
    ensures
        frontier_wf(next_step_spec(v, robots).0),
    decreases v.queue.len(),
{
    if v.active < v.workers && v.queue.len() > 0 {
        let key = normalized(v.queue[0].url);
        if v.visited.contains(key) {
            law_next_step_keeps_bounds(FrontierView { queue: v.queue.drop_first(), ..v }, robots);
        }
    }
}

/// A job handed out was never seen before, robots.txt permits it, its key is now
/// recorded and one more job is out; a blocked URL was never seen before either,
/// robots.txt forbids it and its key is recorded.
pub proof fn law_handed_out_jobs_are_new_and_permitted(v: FrontierView, robots: Seq<char>)
    ensures
        next_step_spec(v, robots).1 matches StepView::Crawl { job, should_extract } ==> {
            let w = next_step_spec(v, robots).0;
            &&& !v.visited.contains(normalized(job.url))
            &&& w.visited == v.visited.insert(normalized(job.url))
            &&& robots_permit(robots, job.url)
            &&& w.active == v.active + 1
            &&& should_extract == (job.depth < v.max_depth)
        },
        next_step_spec(v, robots).1 matches StepView::Blocked { url } ==> {
            let w = next_step_spec(v, robots).0;
            &&& !v.visited.contains(normalized(url))
            &&& w.visited == v.visited.insert(normalized(url))
            &&& !robots_permit(robots, url)
            &&& w.active == v.active
        },
    decreases v.queue.len(),
{
    if v.active < v.workers && v.queue.len() > 0 {
        let key = normalized(v.queue[0].url);
        if v.visited.contains(key) {
            law_handed_out_jobs_are_new_and_permitted(
                FrontierView { queue: v.queue.drop_first(), ..v },
                robots,
            );
        }
    }
}

/// The visited keys only grow, under decisions and under results coming back.
pub proof fn law_visited_only_grows(v: FrontierView, robots: Seq<char>, links: Seq<UrlView>, depth: nat)
    ensures
        v.visited.subset_of(next_step_spec(v, robots).0.visited),
        complete_spec(v, links, depth).visited == v.visited,
    decreases v.queue.len(),
{
    if v.active < v.workers && v.queue.len() > 0 {
        let key = normalized(v.queue[0].url);
        if v.visited.contains(key) {
            law_visited_only_grows(FrontierView { queue: v.queue.drop_first(), ..v }, robots, links, depth);
        }
    }
}

/// A URL whose key was already visited is never handed out again: from any later
/// frontier (one whose visited keys include those of the earlier one), no decision
/// hands out or blocks a URL with that key. So each page is crawled at most once,
/// whatever its query or fragment.
pub proof fn law_no_page_twice(earlier: FrontierView, later: FrontierView, robots: Seq<char>, key: Seq<char>)
    requires
        earlier.visited.contains(key),
        earlier.visited.subset_of(later.visited),
    ensures
        next_step_spec(later, robots).1 matches StepView::Crawl { job, should_extract } ==> normalized(job.url) != key,
        next_step_spec(later, robots).1 matches StepView::Blocked { url } ==> normalized(url) != key,
{
    law_handed_out_jobs_are_new_and_permitted(later, robots);
}

/// The crawler waits only while some job is out, so a result will come back; it
/// finishes only when no job waits and none is out.
pub proof fn law_wait_only_while_busy(v: FrontierView, robots: Seq<char>)
    requires
        frontier_wf(v),
    ensures
        next_step_spec(v, robots).1 is Wait ==> next_step_spec(v, robots).0.active > 0,
        next_step_spec(v, robots).1 is Finished ==> {
            let w = next_step_spec(v, robots).0;
            w.active == 0 && w.queue.len() == 0
        },
    decreases v.queue.len(),
{
    if v.active < v.workers && v.queue.len() > 0 {
        let key = normalized(v.queue[0].url);
        if v.visited.contains(key) {
            law_wait_only_while_busy(FrontierView { queue: v.queue.drop_first(), ..v }, robots);
        }
    }
}

/// Jobs leave the queue in the order they entered it: a decision only removes jobs
/// from the front, and a result only adds jobs at the back.
pub proof fn law_queue_is_first_in_first_out(v: FrontierView, robots: Seq<char>, links: Seq<UrlView>, depth: nat)
    ensures
        exists|n: int|
            0 <= n <= v.queue.len() && #[trigger] next_step_spec(v, robots).0.queue == v.queue.skip(n),
        complete_spec(v, links, depth).queue.take(v.queue.len() as int) == v.queue,
    decreases v.queue.len(),
{
    assert(v.queue.skip(0) =~= v.queue);
    assert((v.queue + child_jobs(links, depth)).take(v.queue.len() as int) =~= v.queue);
    if v.active < v.workers && v.queue.len() > 0 {
        let rest = FrontierView { queue: v.queue.drop_first(), ..v };
        let key = normalized(v.queue[0].url);
        assert(v.queue.skip(1) =~= v.queue.drop_first());
        if v.visited.contains(key) {
            law_queue_is_first_in_first_out(rest, robots, links, depth);
            let n = choose|n: int|
                0 <= n <= rest.queue.len() && #[trigger] next_step_spec(rest, robots).0.queue
                    == rest.queue.skip(n);
            assert(rest.queue.skip(n) =~= v.queue.skip(n + 1));
        }
    }
}

/// No waiting job is deeper than the depth limit.
pub open spec fn depth_bounded(v: FrontierView) -> bool {
    forall|k: int| 0 <= k < v.queue.len() ==> (#[trigger] v.queue[k]).depth <= v.max_depth
}

/// The crawl never goes below the depth limit: the start page is within it, a
/// decision keeps every waiting job within it and hands out only such jobs, and a
/// result keeps it when it carries links only for a page above the limit (the only
/// pages told to follow links).
pub proof fn law_depth_stays_within_limit(
    v: FrontierView,
    robots: Seq<char>,
    links: Seq<UrlView>,
    parent_depth: nat,
    root: UrlView,
)
    requires
        depth_bounded(v),
    ensures
        depth_bounded(FrontierView { queue: seq![JobView { url: root, depth: 0 }], ..v }),
        depth_bounded(next_step_spec(v, robots).0),
        next_step_spec(v, robots).1 matches StepView::Crawl { job, .. } ==> job.depth <= v.max_depth,
        links.len() == 0 || parent_depth < v.max_depth ==> depth_bounded(
            complete_spec(v, links, parent_depth),
        ),
    decreases v.queue.len(),
{
    let start = FrontierView { queue: seq![JobView { url: root, depth: 0 }], ..v };
    assert forall|k: int| 0 <= k < start.queue.len() implies (#[trigger] start.queue[k]).depth
        <= start.max_depth by {
        assert(start.queue[k] == JobView { url: root, depth: 0 });
    }
    if links.len() == 0 || parent_depth < v.max_depth {
        let w = complete_spec(v, links, parent_depth);
        let kids = child_jobs(links, parent_depth);
        assert forall|k: int| 0 <= k < w.queue.len() implies (#[trigger] w.queue[k]).depth
            <= w.max_depth by {
            if k < v.queue.len() {
                assert(w.queue[k] == v.queue[k]);
            } else {
                assert(w.queue[k] == kids[k - v.queue.len()]);
            }
        }
    }
    if v.active < v.workers && v.queue.len() > 0 {
        let rest = FrontierView { queue: v.queue.drop_first(), ..v };
        assert forall|k: int| 0 <= k < rest.queue.len() implies (#[trigger] rest.queue[k]).depth
            <= rest.max_depth by {
            assert(rest.queue[k] == v.queue[k + 1]);
        }
        assert(v.queue[0].depth <= v.max_depth);
        let key = normalized(v.queue[0].url);
        if v.visited.contains(key) {
            law_depth_stays_within_limit(rest, robots, links, parent_depth, root);
        }
    }
}

/// A result queues each link it carries, in order, after the waiting jobs and one
/// level deeper than the page it came from; the waiting jobs and the visited keys
/// stay, and one job fewer is out.
pub proof fn law_links_are_queued_one_level_deeper(v: FrontierView, links: Seq<UrlView>, parent_depth: nat)
    ensures
        complete_spec(v, links, parent_depth).queue.len() == v.queue.len() + links.len(),
        forall|k: int| 0 <= k < v.queue.len() ==> complete_spec(v, links, parent_depth).queue[k] == v.queue[k],
        forall|k: int| 0 <= k < links.len() ==> #[trigger] complete_spec(v, links, parent_depth).queue[v.queue.len() + k]
            == (JobView { url: links[k], depth: parent_depth + 1 }),
        complete_spec(v, links, parent_depth).visited == v.visited,
        v.active > 0 ==> complete_spec(v, links, parent_depth).active == v.active - 1,
        complete_spec(v, links, parent_depth).workers == v.workers,
        complete_spec(v, links, parent_depth).max_depth == v.max_depth,
{
}

/// robots.txt is fetched from `/robots.txt` on the start page's site, without
/// query or fragment; an empty robots.txt allows every URL, and otherwise its rules
/// for the agent `rust-crawler` decide.
pub proof fn law_robots_rules(robots: Seq<char>, u: UrlView, root: UrlView)
    ensures
        robots_permit(robots, u) <==> (robots.len() == 0 || robots_allowed(
            robots,
            "rust-crawler"@,
            serialization(u),
        )),
        robots_location(root) == (match url_with_path(serialization(root), "/robots.txt"@) {
            Some(l) => Some(without_fragment(without_query(l))),
            None => None,
        }),
{
}

} // verus!
