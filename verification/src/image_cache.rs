//! The cache of images: what is known of the image behind each URL or render key.
use crate::text::str_eq;
use vstd::prelude::*;
use vstd::string::*;

verus! {

/// What is known of an image.
#[derive(Debug, PartialEq)]
pub enum ImageState<I> {
    /// It is being loaded or rendered.
    Loading,
    Loaded(I),
    Failed,
}

/// Images by their URL or render key.
#[derive(Debug)]
#[verifier::reject_recursive_types(I)]
pub struct ImageCache<I> {
    entries: Vec<(String, ImageState<I>)>,
}

/// The entry at `i` is for `key`.
spec fn is_entry<I>(entries: Seq<(String, ImageState<I>)>, key: Seq<char>, i: int) -> bool {
    0 <= i < entries.len() && entries[i].0@ == key
}

spec fn entries_map<I>(entries: Seq<(String, ImageState<I>)>) -> Map<Seq<char>, ImageState<I>> {
    Map::new(
        |k: Seq<char>| exists|i: int| is_entry(entries, k, i),
        |k: Seq<char>| entries[choose|i: int| is_entry(entries, k, i)].1,
    )
}

spec fn keys_differ<I>(entries: Seq<(String, ImageState<I>)>) -> bool {
    forall|i: int, j: int|
        0 <= i < j < entries.len() ==> (#[trigger] entries[i]).0@ != (#[trigger] entries[j]).0@
}

proof fn lemma_entry<I>(entries: Seq<(String, ImageState<I>)>, key: Seq<char>, i: int)
    requires
        keys_differ(entries),
        is_entry(entries, key, i),
    ensures
        entries_map(entries).dom().contains(key),
        entries_map(entries)[key] == entries[i].1,
{
    let j = choose|j: int| is_entry(entries, key, j);
    assert(is_entry(entries, key, j));
    assert(i == j);
}

impl<I> View for ImageCache<I> {
    type V = Map<Seq<char>, ImageState<I>>;

    /// The state of each image that is known.
    closed spec fn view(&self) -> Map<Seq<char>, ImageState<I>> {
        entries_map(self.entries@)
    }
}

impl<I> ImageCache<I> {
    #[verifier::type_invariant]
    spec fn inv(self) -> bool {
        keys_differ(self.entries@)
    }

    /// A cache that knows no image.
    pub fn new() -> (r: Self)
        ensures
            r@ == Map::<Seq<char>, ImageState<I>>::empty(),
    {
        let r = ImageCache { entries: Vec::new() };
        assert(r@ =~= Map::<Seq<char>, ImageState<I>>::empty()) by {
            assert forall|k: Seq<char>| !r@.dom().contains(k) by {
                assert forall|i: int| !is_entry(r.entries@, k, i) by {}
            }
        }
        r
    }

    /// Where the entry for a key is.
    fn position(&self, key: &str) -> (r: Option<usize>)
        ensures
            match r {
                Some(i) => is_entry(self.entries@, key@, i as int),
                None => forall|i: int| !is_entry(self.entries@, key@, i),
            },
    {
        let mut i: usize = 0;
        while i < self.entries.len()
            invariant
                i <= self.entries@.len(),
                forall|k: int| 0 <= k < i ==> !is_entry(self.entries@, key@, k),
            decreases self.entries@.len() - i,
        {
            if str_eq(self.entries[i].0.as_str(), key) {
                return Some(i);
            }
            assert(!is_entry(self.entries@, key@, i as int));
            i += 1;
        }
        None
    }

    /// Sets the state of an image.
    fn put(&mut self, key: &str, state: ImageState<I>)
        ensures
            final(self)@ == old(self)@.insert(key@, state),
    {
        proof {
            use_type_invariant(&*self);
        }
        let ghost before = self.entries@;
        let ghost name = key@;
        let ghost value = state;
        let at = self.position(key);
        let mut entries: Vec<(String, ImageState<I>)> = Vec::new();
        std::mem::swap(&mut entries, &mut self.entries);
        match at {
            Some(i) => {
                entries.set(i, (key.to_owned(), state));
            },
            None => {
                entries.push((key.to_owned(), state));
            },
        }
        proof {
            let after = entries@;
            assert(keys_differ(after)) by {
                assert forall|i: int, j: int| 0 <= i < j < after.len() implies (
                #[trigger] after[i]).0@ != (#[trigger] after[j]).0@ by {
                    if at is None {
                        if j == before.len() {
                            assert(!is_entry(before, name, i));
                        }
                    } else {
                        assert(before[i].0@ != before[j].0@);
                    }
                }
            }
            assert(entries_map(after) =~= entries_map(before).insert(name, value)) by {
                let k0: int = match at {
                    Some(i) => i as int,
                    None => before.len() as int,
                };
                assert(is_entry(after, name, k0));
                lemma_entry(after, name, k0);
                let m = entries_map(before).insert(name, value);
                assert forall|k: Seq<char>| #[trigger]
                    entries_map(after).dom().contains(k) == m.dom().contains(k) by {
                    if k != name {
                        if exists|i: int| is_entry(before, k, i) {
                            let i = choose|i: int| is_entry(before, k, i);
                            assert(is_entry(after, k, i));
                        }
                        if exists|i: int| is_entry(after, k, i) {
                            let i = choose|i: int| is_entry(after, k, i);
                            assert(is_entry(before, k, i));
                        }
                    }
                }
                assert forall|k: Seq<char>| m.dom().contains(k) implies #[trigger] entries_map(
                    after,
                )[k] == m[k] by {
                    if k != name {
                        let i = choose|i: int| is_entry(before, k, i);
                        assert(is_entry(before, k, i));
                        assert(is_entry(after, k, i));
                        lemma_entry(after, k, i);
                        lemma_entry(before, k, i);
                    }
                }
            }
        }
        self.entries = entries;
    }

    /// What is known of an image.
    pub fn get(&self, key: &str) -> (r: Option<&ImageState<I>>)
        ensures
            match r {
                Some(s) => self@.dom().contains(key@) && *s == self@[key@],
                None => !self@.dom().contains(key@),
            },
    {
        proof {
            use_type_invariant(self);
        }
        match self.position(key) {
            Some(i) => {
                proof {
                    lemma_entry(self.entries@, key@, i as int);
                }
                Some(&self.entries[i].1)
            },
            None => None,
        }
    }

    /// Whether the image is loading, loaded or failed.
    pub fn contains(&self, key: &str) -> (r: bool)
        ensures
            r == self@.dom().contains(key@),
    {
        self.get(key).is_some()
    }

    /// A load was started.
    pub fn mark_loading(&mut self, key: &str)
        ensures
            final(self)@ == old(self)@.insert(key@, ImageState::Loading),
    {
        self.put(key, ImageState::Loading);
    }

    /// A load was completed.
    pub fn set_loaded(&mut self, key: &str, image: I)
        ensures
            final(self)@ == old(self)@.insert(key@, ImageState::Loaded(image)),
    {
        self.put(key, ImageState::Loaded(image));
    }

    /// A load failed.
    pub fn set_failed(&mut self, key: &str)
        ensures
            final(self)@ == old(self)@.insert(key@, ImageState::Failed),
    {
        self.put(key, ImageState::Failed);
    }

    /// Records the outcome of a render.
    pub fn finish(&mut self, key: &str, image: Option<I>)
        ensures
            final(self)@ == old(self)@.insert(key@, state_of(image)),
    {
        match image {
            Some(i) => self.set_loaded(key, i),
            None => self.set_failed(key),
        }
    }
}

/// The state that the outcome of a render leads to.
pub open spec fn state_of<I>(image: Option<I>) -> ImageState<I> {
    match image {
        Some(i) => ImageState::Loaded(i),
        None => ImageState::Failed,
    }
}

/// The first job from `i` on with this key.
pub open spec fn first_job<J>(jobs: Seq<(String, J)>, key: Seq<char>, i: int) -> Option<J>
    decreases jobs.len() - i,
{
    if i < 0 || i >= jobs.len() {
        None
    } else if jobs[i].0@ == key {
        Some(jobs[i].1)
    } else {
        first_job(jobs, key, i + 1)
    }
}

/// The jobs among the first `k` whose image is not known: those to start.
pub open spec fn new_jobs<J, I>(
    jobs: Seq<(String, J)>,
    cache: Map<Seq<char>, ImageState<I>>,
    k: int,
) -> Seq<int>
    decreases k,
{
    if k <= 0 {
        seq![]
    } else {
        let rest = new_jobs(jobs, cache, k - 1);
        if started(jobs, cache, k - 1).dom().contains(jobs[k - 1].0@) {
            rest
        } else {
            rest.push(k - 1)
        }
    }
}

/// The cache after the first `k` jobs were started.
pub open spec fn started<J, I>(
    jobs: Seq<(String, J)>,
    cache: Map<Seq<char>, ImageState<I>>,
    k: int,
) -> Map<Seq<char>, ImageState<I>>
    decreases k,
{
    if k <= 0 {
        cache
    } else {
        let c = started(jobs, cache, k - 1);
        if c.dom().contains(jobs[k - 1].0@) {
            c
        } else {
            c.insert(jobs[k - 1].0@, ImageState::Loading)
        }
    }
}

/// Marks every job with no cache entry as loading, and says which they are. They are
/// rendered off the UI thread; [`ImageCache::finish`] records their outcome.
pub fn start_renders<J, I>(jobs: &[(String, J)], cache: &mut ImageCache<I>) -> (r: Vec<usize>)
    ensures
        final(cache)@ == started(jobs@, old(cache)@, jobs@.len() as int),
        r@.map_values(|i: usize| i as int) == new_jobs(jobs@, old(cache)@, jobs@.len() as int),
{
    let ghost before = cache@;
    let mut out: Vec<usize> = Vec::new();
    let mut i: usize = 0;
    assert(out@.map_values(|i: usize| i as int) =~= Seq::<int>::empty());
    while i < jobs.len()
        invariant
            i <= jobs@.len(),
            cache@ == started(jobs@, before, i as int),
            out@.map_values(|i: usize| i as int) == new_jobs(jobs@, before, i as int),
        decreases jobs@.len() - i,
    {
        if !cache.contains(jobs[i].0.as_str()) {
            cache.mark_loading(jobs[i].0.as_str());
            let ghost old_out = out@;
            out.push(i);
            assert(out@.map_values(|i: usize| i as int) =~= old_out.map_values(
                |i: usize| i as int,
            ).push(i as int));
        }
        i += 1;
    }
    out
}

/// The state is one that rendering a job leads to.
pub open spec fn rendered_as<J, I, F: Fn(&J) -> Option<I>>(
    render: F,
    job: J,
    state: ImageState<I>,
) -> bool {
    exists|image: Option<I>| #[trigger] call_ensures(render, (&job,), image) && state == state_of(
        image,
    )
}

/// Renders every job with no cache entry, one after the other.
pub fn render_missing<J, I, F: Fn(&J) -> Option<I>>(
    jobs: &[(String, J)],
    cache: &mut ImageCache<I>,
    render: F,
)
    requires
        forall|job: &J| call_requires(render, (job,)),
    ensures
        forall|k: Seq<char>| #[trigger]
            final(cache)@.dom().contains(k) == (old(cache)@.dom().contains(k) || first_job(
                jobs@,
                k,
                0,
            ) is Some),
        forall|k: Seq<char>| #[trigger]
            old(cache)@.dom().contains(k) ==> final(cache)@[k] == old(cache)@[k],
        forall|k: Seq<char>|
            !old(cache)@.dom().contains(k) && #[trigger] first_job(jobs@, k, 0) is Some
                ==> rendered_as(render, first_job(jobs@, k, 0)->0, final(cache)@[k]),
{
    let ghost before = cache@;
    let mut i: usize = 0;
    let ghost none = jobs@.subrange(0, 0);
    assert forall|k: Seq<char>| first_job(jobs@.subrange(0, 0), k, 0) is None by {}
    while i < jobs.len()
        invariant
            i <= jobs@.len(),
            forall|job: &J| call_requires(render, (job,)),
            forall|k: Seq<char>| #[trigger]
                cache@.dom().contains(k) == (before.dom().contains(k) || first_job(
                    jobs@.subrange(0, i as int),
                    k,
                    0,
                ) is Some),
            forall|k: Seq<char>| #[trigger]
                before.dom().contains(k) ==> cache@[k] == before[k],
            forall|k: Seq<char>|
                !before.dom().contains(k) && #[trigger] first_job(
                    jobs@.subrange(0, i as int),
                    k,
                    0,
                ) is Some ==> rendered_as(
                    render,
                    first_job(jobs@.subrange(0, i as int), k, 0)->0,
                    cache@[k],
                ),
        decreases jobs@.len() - i,
    {
        let key = jobs[i].0.as_str();
        let ghost so_far = cache@;
        let ghost was = jobs@.subrange(0, i as int);
        let ghost now = jobs@.subrange(0, i + 1);
        proof {
            assert forall|k: Seq<char>| #[trigger] first_job(now, k, 0) == (if first_job(
                was,
                k,
                0,
            ) is Some {
                first_job(was, k, 0)
            } else if k == key@ {
                Some(jobs@[i as int].1)
            } else {
                None
            }) by {
                lemma_first_job_push(was, jobs@[i as int], k, 0);
                assert(was.push(jobs@[i as int]) =~= now);
            }
        }
        if !cache.contains(key) {
            let image = render(&jobs[i].1);
            let ghost outcome = image;
            cache.finish(key, image);
            assert(rendered_as(render, jobs@[i as int].1, cache@[key@])) by {
                assert(call_ensures(render, (&jobs@[i as int].1,), outcome));
            }
        }
        i += 1;
    }
    assert(jobs@.subrange(0, i as int) =~= jobs@);
}

proof fn lemma_first_job_push<J>(jobs: Seq<(String, J)>, job: (String, J), key: Seq<char>, i: int)
    requires
        0 <= i <= jobs.len(),
    ensures
        first_job(jobs.push(job), key, i) == (if first_job(jobs, key, i) is Some {
            first_job(jobs, key, i)
        } else if key == job.0@ {
            Some(job.1)
        } else {
            None
        }),
    decreases jobs.len() - i,
{
    if i < jobs.len() {
        lemma_first_job_push(jobs, job, key, i + 1);
    } else {
        reveal_with_fuel(first_job, 2);
    }
}

proof fn lemma_started<J, I>(
    jobs: Seq<(String, J)>,
    cache: Map<Seq<char>, ImageState<I>>,
    i: int,
    k: int,
)
    requires
        0 <= i <= k <= jobs.len(),
    ensures
        forall|key: Seq<char>| #[trigger]
            started(jobs, cache, i).dom().contains(key) ==> started(
                jobs,
                cache,
                k,
            ).dom().contains(key),
        i < k ==> started(jobs, cache, k).dom().contains(jobs[i].0@),
    decreases k - i,
{
    if i < k {
        lemma_started(jobs, cache, i + 1, k);
        assert(started(jobs, cache, i + 1).dom().contains(jobs[i].0@));
        assert forall|key: Seq<char>| #[trigger]
            started(jobs, cache, i).dom().contains(key) implies started(
            jobs,
            cache,
            k,
        ).dom().contains(key) by {
            assert(started(jobs, cache, i + 1).dom().contains(key));
        }
    }
}

/// A job is started only where its image was not known, and no two jobs that are started
/// are for one image: each is rendered once.
pub proof fn law_renders_start_once<J, I>(
    jobs: Seq<(String, J)>,
    cache: Map<Seq<char>, ImageState<I>>,
    k: int,
)
    requires
        0 <= k <= jobs.len(),
    ensures
        forall|a: int|
            0 <= a < new_jobs(jobs, cache, k).len() ==> 0 <= #[trigger] new_jobs(jobs, cache, k)[a]
                < k && !cache.dom().contains(jobs[new_jobs(jobs, cache, k)[a]].0@),
        forall|a: int, b: int|
            0 <= a < b < new_jobs(jobs, cache, k).len() ==> jobs[#[trigger] new_jobs(
                jobs,
                cache,
                k,
            )[a]].0@ != jobs[#[trigger] new_jobs(jobs, cache, k)[b]].0@,
    decreases k,
{
    if k > 0 {
        let rest = new_jobs(jobs, cache, k - 1);
        let all = new_jobs(jobs, cache, k);
        law_renders_start_once(jobs, cache, k - 1);
        lemma_started(jobs, cache, 0, k - 1);
        assert forall|a: int| 0 <= a < rest.len() implies started(
            jobs,
            cache,
            k - 1,
        ).dom().contains(jobs[#[trigger] rest[a]].0@) by {
            lemma_started(jobs, cache, rest[a], k - 1);
        }
        assert forall|a: int| 0 <= a < all.len() implies 0 <= #[trigger] all[a] < k
            && !cache.dom().contains(jobs[all[a]].0@) by {
            if a < rest.len() {
                assert(all[a] == rest[a]);
            } else if cache.dom().contains(jobs[k - 1].0@) {
                assert(started(jobs, cache, 0).dom().contains(jobs[k - 1].0@));
            }
        }
        assert forall|a: int, b: int| 0 <= a < b < all.len() implies jobs[#[trigger] all[a]].0@
            != jobs[#[trigger] all[b]].0@ by {
            assert(all[a] == rest[a]);
            if b < rest.len() {
                assert(all[b] == rest[b]);
            }
        }
    }
}

/// Starting the same jobs again starts nothing and changes nothing.
pub proof fn law_starting_again_renders_nothing<J, I>(
    jobs: Seq<(String, J)>,
    cache: Map<Seq<char>, ImageState<I>>,
)
    ensures
        new_jobs(jobs, started(jobs, cache, jobs.len() as int), jobs.len() as int) == Seq::<
            int,
        >::empty(),
        started(jobs, started(jobs, cache, jobs.len() as int), jobs.len() as int) == started(
            jobs,
            cache,
            jobs.len() as int,
        ),
{
    lemma_all_started(jobs, cache, jobs.len() as int);
}

proof fn lemma_all_started<J, I>(
    jobs: Seq<(String, J)>,
    cache: Map<Seq<char>, ImageState<I>>,
    k: int,
)
    requires
        0 <= k <= jobs.len(),
    ensures
        new_jobs(jobs, started(jobs, cache, jobs.len() as int), k) == Seq::<int>::empty(),
        started(jobs, started(jobs, cache, jobs.len() as int), k) == started(
            jobs,
            cache,
            jobs.len() as int,
        ),
    decreases k,
{
    if k > 0 {
        lemma_all_started(jobs, cache, k - 1);
        lemma_started(jobs, cache, k - 1, jobs.len() as int);
    }
}

/// A render that gave an image is loaded with it, and one that gave none failed.
pub proof fn law_outcomes<I>(image: I)
    ensures
        state_of(Some(image)) == ImageState::Loaded(image),
        state_of(None::<I>) == ImageState::<I>::Failed,
{
}

/// One more job starts where its key is not known, and is then loading; a known key starts
/// nothing and keeps its state.
pub proof fn law_one_more_job<J, I>(
    jobs: Seq<(String, J)>,
    cache: Map<Seq<char>, ImageState<I>>,
    k: int,
)
    requires
        0 <= k < jobs.len(),
    ensures
        ({
            let before = started(jobs, cache, k);
            let after = started(jobs, cache, k + 1);
            let key = jobs[k].0@;
            &&& before.dom().contains(key) ==> after == before && new_jobs(jobs, cache, k + 1)
                == new_jobs(jobs, cache, k)
            &&& !before.dom().contains(key) ==> after[key] == ImageState::<I>::Loading
                && after.dom() == before.dom().insert(key) && new_jobs(jobs, cache, k + 1)
                == new_jobs(jobs, cache, k).push(k)
            &&& forall|other: Seq<char>|
                other != key && before.dom().contains(other) ==> #[trigger] after[other]
                    == before[other]
        }),
{
}

/// The job of a key is the first that has it.
pub proof fn law_first_jobs<J>(jobs: Seq<(String, J)>, key: Seq<char>, i: int)
    requires
        0 <= i < jobs.len(),
    ensures
        jobs[i].0@ == key ==> first_job(jobs, key, i) == Some(jobs[i].1),
        jobs[i].0@ != key ==> first_job(jobs, key, i) == first_job(jobs, key, i + 1),
        first_job(jobs, key, jobs.len() as int) is None,
{
}

} // verus!
