//! What there is to send: jobs from what was found under the paths given.

use vstd::prelude::*;
use vstd::string::*;

use crate::path::{rel_to_wire, wire_form};
use crate::sort::{in_order, key_le, lemma_rearranged_seen, rearranged, sort, Keyed, Named};
use crate::text::{comes_before, join_texts, law_texts_are_ordered_as_words, text_le};

verus! {

/// What lies at a path: a link itself, not what it leads to.
#[derive(Clone, Copy, Debug, PartialEq, Eq, Structural)]
pub enum FoundKind {
    Symlink,
    Dir,
    File,
    Other,
}

/// Something found below a directory that was given, by its path from there. The
/// number `id` stands for where it lies.
#[derive(Debug)]
pub struct Found {
    pub id: usize,
    pub rel: String,
    pub kind: FoundKind,
    pub size: u64,
    pub mtime: u64,
    pub mode: u32,
}

/// One of the paths that were given, with what was found below it. The name is
/// absent where the path does not end in one.
#[derive(Debug)]
pub struct Input {
    pub id: usize,
    pub name: Option<String>,
    pub kind: FoundKind,
    pub size: u64,
    pub mtime: u64,
    pub mode: u32,
    pub found: Vec<Found>,
}

/// One entry to send.
#[derive(Debug)]
pub struct Job {
    pub id: usize,
    pub rel: String,
    pub size: u64,
    pub mtime: u64,
    pub mode: u32,
    pub is_dir: bool,
}

/// One entry to send, with its path as characters.
pub struct JobView {
    pub id: usize,
    pub rel: Seq<char>,
    pub size: u64,
    pub mtime: u64,
    pub mode: u32,
    pub is_dir: bool,
}

impl View for Job {
    type V = JobView;

    open spec fn view(&self) -> JobView {
        JobView {
            id: self.id,
            rel: self.rel@,
            size: self.size,
            mtime: self.mtime,
            mode: self.mode,
            is_dir: self.is_dir,
        }
    }
}

/// Directories stand before files; each by its path.
impl Keyed for JobView {
    open spec fn key(&self) -> (bool, Seq<char>) {
        (!self.is_dir, self.rel)
    }
}

impl Keyed for Job {
    open spec fn key(&self) -> (bool, Seq<char>) {
        self@.key()
    }
}

impl Named for Job {
    fn rank(&self) -> (r: bool) {
        !self.is_dir
    }

    fn name(&self) -> (r: &str) {
        self.rel.as_str()
    }
}

/// The jobs as seen by contracts.
pub open spec fn seen(jobs: Seq<Job>) -> Seq<JobView> {
    jobs.map_values(|j: Job| j@)
}

/// The job that something found makes, its path put behind `prefix`. Symbolic
/// links are skipped, and so is what is neither a directory nor a file.
pub open spec fn found_job(f: Found, prefix: Seq<char>) -> Option<JobView> {
    let job = JobView {
        id: f.id,
        rel: prefix + wire_form(f.rel@),
        size: f.size,
        mtime: f.mtime,
        mode: f.mode,
        is_dir: false,
    };
    match f.kind {
        FoundKind::Dir => Some(JobView { size: 0, is_dir: true, ..job }),
        FoundKind::File => Some(job),
        _ => None,
    }
}

/// The jobs that things found make, in the order in which they were found.
pub open spec fn found_jobs(found: Seq<Found>, prefix: Seq<char>) -> Seq<JobView>
    decreases found.len(),
{
    if found.len() == 0 {
        Seq::empty()
    } else {
        let before = found_jobs(found.drop_last(), prefix);
        match found_job(found.last(), prefix) {
            Some(j) => before.push(j),
            None => before,
        }
    }
}

/// Whether the name of the path given is kept in front of what lies below it.
pub open spec fn keeps_name(input: Input, alone: bool) -> bool {
    !alone && input.name is Some
}

/// The jobs of one of the paths given. A file is sent under its name. Of a
/// directory the contents are sent; unless it was given alone, the directory
/// itself is sent too, and its name stands in front of what lies below it.
pub open spec fn input_jobs(input: Input, alone: bool) -> Seq<JobView> {
    let own = JobView {
        id: input.id,
        rel: Seq::empty(),
        size: 0,
        mtime: input.mtime,
        mode: input.mode,
        is_dir: true,
    };
    match input.kind {
        FoundKind::File => seq![
            JobView {
                rel: match input.name {
                    Some(n) => n@,
                    None => "file"@,
                },
                size: input.size,
                is_dir: false,
                ..own
            },
        ],
        FoundKind::Dir => if keeps_name(input, alone) {
            let name = wire_form(input.name->0@);
            seq![JobView { rel: name, ..own }] + found_jobs(input.found@, name + seq!['/'])
        } else {
            found_jobs(input.found@, Seq::empty())
        },
        _ => Seq::empty(),
    }
}

/// The jobs of all paths given, in the order in which they were found.
pub open spec fn all_jobs(inputs: Seq<Input>, alone: bool) -> Seq<JobView>
    decreases inputs.len(),
{
    if inputs.len() == 0 {
        Seq::empty()
    } else {
        all_jobs(inputs.drop_last(), alone) + input_jobs(inputs.last(), alone)
    }
}

/// The jobs of the paths given: one given alone is treated apart.
pub open spec fn jobs_of(inputs: Seq<Input>) -> Seq<JobView> {
    all_jobs(inputs, inputs.len() == 1)
}

/// How many bytes there are to send.
pub open spec fn total_size(jobs: Seq<JobView>) -> nat
    decreases jobs.len(),
{
    if jobs.len() == 0 {
        0
    } else {
        total_size(jobs.drop_last()) + jobs.last().size as nat
    }
}

proof fn lemma_total_size_add(a: Seq<JobView>, b: Seq<JobView>)
    ensures
        total_size(a + b) == total_size(a) + total_size(b),
    decreases b.len(),
{
    if b.len() == 0 {
        assert(a + b =~= a);
    } else {
        lemma_total_size_add(a, b.drop_last());
        assert((a + b).drop_last() =~= a + b.drop_last());
        assert((a + b).last() == b.last());
    }
}

proof fn lemma_total_size_one(j: JobView)
    ensures
        total_size(seq![j]) == j.size,
{
    reveal_with_fuel(total_size, 2);
    assert(seq![j].drop_last() =~= Seq::empty());
}

/// The total does not depend on the order.
proof fn lemma_total_size_rearranged(a: Seq<JobView>, b: Seq<JobView>)
    requires
        a.to_multiset() == b.to_multiset(),
    ensures
        total_size(a) == total_size(b),
    decreases a.len(),
{
    a.to_multiset_ensures();
    b.to_multiset_ensures();
    if a.len() > 0 {
        let x = a.last();
        assert(a.contains(x));
        assert(b.to_multiset().count(x) > 0);
        let j = choose|j: int| 0 <= j < b.len() && b[j] == x;
        let a1 = a.drop_last();
        let b1 = b.remove(j);
        assert(a =~= a1.push(x));
        a1.to_multiset_ensures();
        assert(a1.to_multiset() =~= a.to_multiset().remove(x));
        assert(b1.to_multiset() =~= b.to_multiset().remove(x));
        lemma_total_size_rearranged(a1, b1);
        let front = b.take(j);
        let back = b.skip(j + 1);
        assert(b =~= front + (seq![x] + back));
        assert(b1 =~= front + back);
        lemma_total_size_add(front, seq![x] + back);
        lemma_total_size_add(seq![x], back);
        lemma_total_size_add(front, back);
        lemma_total_size_one(x);
    }
}

proof fn lemma_total_size_monotone(inputs: Seq<Input>, alone: bool, i: int)
    requires
        0 <= i <= inputs.len(),
    ensures
        total_size(all_jobs(inputs.take(i), alone)) <= total_size(all_jobs(inputs, alone)),
    decreases inputs.len() - i,
{
    if i < inputs.len() {
        lemma_total_size_monotone(inputs, alone, i + 1);
        assert(inputs.take(i + 1).drop_last() =~= inputs.take(i));
        lemma_total_size_add(
            all_jobs(inputs.take(i), alone),
            input_jobs(inputs.take(i + 1).last(), alone),
        );
    } else {
        assert(inputs.take(i) =~= inputs);
    }
}

proof fn lemma_found_total_monotone(found: Seq<Found>, prefix: Seq<char>, i: int)
    requires
        0 <= i <= found.len(),
    ensures
        total_size(found_jobs(found.take(i), prefix)) <= total_size(found_jobs(found, prefix)),
    decreases found.len() - i,
{
    if i < found.len() {
        lemma_found_total_monotone(found, prefix, i + 1);
        let t = found.take(i + 1);
        assert(t.drop_last() =~= found.take(i));
        let before = found_jobs(found.take(i), prefix);
        if let Some(j) = found_job(t.last(), prefix) {
            assert(before.push(j).drop_last() =~= before);
        }
    } else {
        assert(found.take(i) =~= found);
    }
}

/// Adds the jobs that things found make, and returns the bytes they have.
fn add_found(jobs: &mut Vec<Job>, found: &Vec<Found>, prefix: &str) -> (added: u64)
    requires
        total_size(found_jobs(found@, prefix@)) <= u64::MAX,
    ensures
        seen(final(jobs)@) == seen(old(jobs)@) + found_jobs(found@, prefix@),
        added == total_size(found_jobs(found@, prefix@)),
{
    let mut added: u64 = 0;
    let mut i: usize = 0;
    assert(found@.take(0) =~= Seq::empty());
    assert(seen(jobs@) + found_jobs(found@.take(0), prefix@) =~= seen(jobs@));
    while i < found.len()
        invariant
            i <= found@.len(),
            total_size(found_jobs(found@, prefix@)) <= u64::MAX,
            seen(jobs@) == seen(old(jobs)@) + found_jobs(found@.take(i as int), prefix@),
            added == total_size(found_jobs(found@.take(i as int), prefix@)),
        decreases found@.len() - i,
    {
        let f = &found[i];
        let ghost before = jobs@;
        let ghost known = found_jobs(found@.take(i as int), prefix@);
        proof {
            lemma_found_total_monotone(found@, prefix@, i + 1);
            assert(found@.take(i + 1).drop_last() =~= found@.take(i as int));
        }
        if f.kind == FoundKind::Dir || f.kind == FoundKind::File {
            let is_dir: bool = f.kind == FoundKind::Dir;
            let wire = rel_to_wire(f.rel.as_str());
            let job = Job {
                id: f.id,
                rel: join_texts(prefix, wire.as_str()),
                size: if is_dir {
                    0
                } else {
                    f.size
                },
                mtime: f.mtime,
                mode: f.mode,
                is_dir,
            };
            proof {
                assert(found_job(*f, prefix@) == Some(job@));
                assert(known.push(job@).drop_last() =~= known);
            }
            added = added + job.size;
            jobs.push(job);
            proof {
                assert(seen(jobs@) =~= seen(before).push(job@));
                assert(seen(jobs@) =~= seen(old(jobs)@) + known.push(job@));
            }
        }
        i = i + 1;
    }
    assert(found@.take(i as int) =~= found@);
    added
}

/// The jobs of the paths given, directories first and then by path, and how many
/// bytes there are to send.
pub fn collect_jobs(inputs: &Vec<Input>) -> (r: (Vec<Job>, u64))
    requires
        total_size(jobs_of(inputs@)) <= u64::MAX,
    ensures
        in_order(seen(r.0@)),
        rearranged(jobs_of(inputs@), seen(r.0@)),
        r.1 == total_size(jobs_of(inputs@)),
{
    let alone: bool = inputs.len() == 1;
    let mut jobs: Vec<Job> = Vec::new();
    let mut total: u64 = 0;
    let mut i: usize = 0;
    assert(inputs@.take(0) =~= Seq::empty());
    assert(seen(jobs@) =~= all_jobs(inputs@.take(0), alone));
    while i < inputs.len()
        invariant
            i <= inputs@.len(),
            alone == (inputs@.len() == 1),
            total_size(all_jobs(inputs@, alone)) <= u64::MAX,
            seen(jobs@) == all_jobs(inputs@.take(i as int), alone),
            total == total_size(all_jobs(inputs@.take(i as int), alone)),
        decreases inputs@.len() - i,
    {
        let input = &inputs[i];
        let ghost before = jobs@;
        proof {
            let t = inputs@.take(i + 1);
            assert(t.drop_last() =~= inputs@.take(i as int));
            assert(t.last() == *input);
            lemma_total_size_monotone(inputs@, alone, i + 1);
            lemma_total_size_add(
                all_jobs(inputs@.take(i as int), alone),
                input_jobs(*input, alone),
            );
        }
        match input.kind {
            FoundKind::File => {
                let rel: String = match &input.name {
                    Some(n) => n.clone(),
                    None => "file".to_owned(),
                };
                let job = Job {
                    id: input.id,
                    rel,
                    size: input.size,
                    mtime: input.mtime,
                    mode: input.mode,
                    is_dir: false,
                };
                proof {
                    assert(input_jobs(*input, alone) =~= seq![job@]);
                    lemma_total_size_one(job@);
                }
                total = total + input.size;
                jobs.push(job);
                assert(seen(jobs@) =~= seen(before) + seq![job@]);
            },
            FoundKind::Dir => {
                let mut prefix = String::new();
                if !alone {
                    if let Some(n) = &input.name {
                        let name = rel_to_wire(n.as_str());
                        prefix = name.clone();
                        prefix.push('/');
                        let job = Job {
                            id: input.id,
                            rel: name,
                            size: 0,
                            mtime: input.mtime,
                            mode: input.mode,
                            is_dir: true,
                        };
                        proof {
                            lemma_total_size_one(job@);
                            lemma_total_size_add(seq![job@], found_jobs(input.found@, prefix@));
                            assert(prefix@ =~= job.rel@ + seq!['/']);
                            assert(input_jobs(*input, alone) =~= seq![job@] + found_jobs(
                                input.found@,
                                prefix@,
                            ));
                        }
                        jobs.push(job);
                        assert(seen(jobs@) =~= seen(before) + seq![job@]);
                    }
                }
                let ghost headed = seen(jobs@);
                let added: u64 = add_found(&mut jobs, &input.found, prefix.as_str());
                total = total + added;
                proof {
                    assert(seen(jobs@) =~= seen(before) + input_jobs(*input, alone));
                }
            },
            _ => {
                assert(seen(jobs@) =~= seen(before) + input_jobs(*input, alone));
            },
        }
        i = i + 1;
    }
    assert(inputs@.take(i as int) =~= inputs@);
    let ghost unsorted = jobs@;
    let sorted = sort(jobs);
    proof {
        lemma_rearranged_seen(unsorted, sorted@, |j: Job| j@);
        let s = seen(sorted@);
        assert forall|i: int, j: int| 0 <= i <= j < s.len() implies key_le(
            #[trigger] s[i].key(),
            #[trigger] s[j].key(),
        ) by {
            assert(key_le(sorted@[i].key(), sorted@[j].key()));
        }
    }
    (sorted, total)
}

/// Whether the bytes that there are to send can be counted in 64 bits.
pub fn total_fits(inputs: &Vec<Input>) -> (r: bool)
    ensures
        r == (total_size(jobs_of(inputs@)) <= u64::MAX),
{
    let alone: bool = inputs.len() == 1;
    let mut total: u64 = 0;
    let mut i: usize = 0;
    assert(inputs@.take(0) =~= Seq::empty());
    while i < inputs.len()
        invariant
            i <= inputs@.len(),
            alone == (inputs@.len() == 1),
            total == total_size(all_jobs(inputs@.take(i as int), alone)),
        decreases inputs@.len() - i,
    {
        let input = &inputs[i];
        proof {
            let t = inputs@.take(i + 1);
            assert(t.drop_last() =~= inputs@.take(i as int));
            assert(t.last() == *input);
            lemma_total_size_monotone(inputs@, alone, i + 1);
            lemma_total_size_add(
                all_jobs(inputs@.take(i as int), alone),
                input_jobs(*input, alone),
            );
            lemma_input_total(*input, alone);
        }
        let more: Option<u64> = match input.kind {
            FoundKind::File => Some(input.size),
            FoundKind::Dir => found_total(&input.found),
            _ => Some(0),
        };
        match more {
            None => {
                return false;
            },
            Some(n) => {
                if n > u64::MAX - total {
                    return false;
                }
                total = total + n;
            },
        }
        i = i + 1;
    }
    assert(inputs@.take(i as int) =~= inputs@);
    true
}

/// What one of the paths given adds to the total, whatever its name.
proof fn lemma_input_total(input: Input, alone: bool)
    ensures
        total_size(input_jobs(input, alone)) == match input.kind {
            FoundKind::File => input.size as nat,
            FoundKind::Dir => total_size(found_jobs(input.found@, Seq::empty())),
            _ => 0,
        },
{
    match input.kind {
        FoundKind::File => {
            lemma_total_size_one(input_jobs(input, alone)[0]);
            assert(input_jobs(input, alone) =~= seq![input_jobs(input, alone)[0]]);
        },
        FoundKind::Dir => {
            if keeps_name(input, alone) {
                let name = wire_form(input.name->0@);
                let own = input_jobs(input, alone)[0];
                lemma_total_size_one(own);
                lemma_total_size_add(seq![own], found_jobs(input.found@, name + seq!['/']));
                lemma_found_total(input.found@, name + seq!['/'], Seq::empty());
            }
        },
        _ => {},
    }
}

proof fn lemma_found_total(found: Seq<Found>, p: Seq<char>, q: Seq<char>)
    ensures
        total_size(found_jobs(found, p)) == total_size(found_jobs(found, q)),
    decreases found.len(),
{
    if found.len() > 0 {
        lemma_found_total(found.drop_last(), p, q);
        let a = found_jobs(found.drop_last(), p);
        let b = found_jobs(found.drop_last(), q);
        if let Some(j) = found_job(found.last(), p) {
            assert(a.push(j).drop_last() =~= a);
        }
        if let Some(j) = found_job(found.last(), q) {
            assert(b.push(j).drop_last() =~= b);
        }
    }
}

fn found_total(found: &Vec<Found>) -> (r: Option<u64>)
    ensures
        r is Some <==> total_size(found_jobs(found@, Seq::empty())) <= u64::MAX,
        r matches Some(n) ==> n == total_size(found_jobs(found@, Seq::empty())),
{
    let mut total: u64 = 0;
    let mut i: usize = 0;
    let ghost none: Seq<char> = Seq::empty();
    assert(found@.take(0) =~= Seq::empty());
    while i < found.len()
        invariant
            i <= found@.len(),
            none == Seq::<char>::empty(),
            total == total_size(found_jobs(found@.take(i as int), none)),
        decreases found@.len() - i,
    {
        proof {
            let t = found@.take(i + 1);
            assert(t.drop_last() =~= found@.take(i as int));
            let before = found_jobs(found@.take(i as int), none);
            if let Some(j) = found_job(t.last(), none) {
                assert(before.push(j).drop_last() =~= before);
            }
            lemma_found_total_monotone(found@, none, i + 1);
        }
        if found[i].kind == FoundKind::File {
            if found[i].size > u64::MAX - total {
                return None;
            }
            total = total + found[i].size;
        }
        i = i + 1;
    }
    assert(found@.take(i as int) =~= found@);
    Some(total)
}

// ---------------------------------------------------------------------------
// What holds of the jobs as a whole
// ---------------------------------------------------------------------------

/// No file is sent before a directory.
pub proof fn law_directories_come_first(jobs: Seq<JobView>, i: int, j: int)
    requires
        in_order(jobs),
        0 <= i < j < jobs.len(),
        jobs[j].is_dir,
    ensures
        jobs[i].is_dir,
{
    assert(key_le(jobs[i].key(), jobs[j].key()));
}

proof fn lemma_beginning_is_before(a: Seq<char>, b: Seq<char>)
    ensures
        text_le(a, a + b),
    decreases a.len(),
{
    if a.len() > 0 {
        lemma_beginning_is_before(a.drop_first(), b);
        assert((a + b).drop_first() =~= a.drop_first() + b);
    }
}

/// A directory is sent before the directories that lie below it.
pub proof fn law_directory_comes_before_what_is_below(
    jobs: Seq<JobView>,
    i: int,
    j: int,
    below: Seq<char>,
)
    requires
        in_order(jobs),
        0 <= i < jobs.len(),
        0 <= j < jobs.len(),
        jobs[i].is_dir,
        jobs[j].is_dir,
        jobs[j].rel == jobs[i].rel + seq!['/'] + below,
    ensures
        i < j,
{
    let a = jobs[i].rel;
    lemma_beginning_is_before(a, seq!['/'] + below);
    assert(a + seq!['/'] + below =~= a + (seq!['/'] + below));
    if j <= i {
        assert(key_le(jobs[j].key(), jobs[i].key()));
        crate::text::lemma_text_le_antisymmetric(a, jobs[j].rel);
    }
}

/// What is sent of a directory that was given alone is what was found in it,
/// under the paths found.
pub proof fn law_lone_directory_sends_its_contents(inputs: Seq<Input>)
    requires
        inputs.len() == 1,
        inputs[0].kind == FoundKind::Dir,
    ensures
        jobs_of(inputs) == found_jobs(inputs[0].found@, Seq::empty()),
{
    reveal_with_fuel(all_jobs, 2);
    assert(jobs_of(inputs) =~= found_jobs(inputs[0].found@, Seq::empty()));
}

/// Whether a path is a name or lies below it.
pub open spec fn at_or_below(rel: Seq<char>, name: Seq<char>) -> bool {
    rel == name || (name + seq!['/']).is_prefix_of(rel)
}

/// Where more than one path was given, each job of a path is sent under the name
/// that the path ends in.
pub proof fn law_top_level_names_are_kept(input: Input, i: int)
    requires
        input.name is Some,
        0 <= i < input_jobs(input, false).len(),
    ensures
        at_or_below(
            input_jobs(input, false)[i].rel,
            if input.kind == FoundKind::Dir {
                wire_form(input.name->0@)
            } else {
                input.name->0@
            },
        ),
{
    if input.kind == FoundKind::Dir {
        let name = wire_form(input.name->0@);
        if i > 0 {
            lemma_found_prefix(input.found@, name + seq!['/'], i - 1);
        }
    }
}

proof fn lemma_found_prefix(found: Seq<Found>, prefix: Seq<char>, i: int)
    requires
        0 <= i < found_jobs(found, prefix).len(),
    ensures
        prefix.is_prefix_of(found_jobs(found, prefix)[i].rel),
    decreases found.len(),
{
    let before = found_jobs(found.drop_last(), prefix);
    if i < before.len() {
        lemma_found_prefix(found.drop_last(), prefix, i);
    } else {
        let rel = found_job(found.last(), prefix)->0.rel;
        assert(prefix =~= rel.take(prefix.len() as int));
    }
}

/// Nothing is sent of a symbolic link.
pub proof fn law_symbolic_links_are_skipped(found: Seq<Found>, prefix: Seq<char>, i: int)
    requires
        0 <= i < found_jobs(found, prefix).len(),
    ensures
        exists|k: int|
            0 <= k < found.len() && (#[trigger] found[k]).kind != FoundKind::Symlink && found_job(
                found[k],
                prefix,
            ) == Some(found_jobs(found, prefix)[i]),
    decreases found.len(),
{
    let before = found_jobs(found.drop_last(), prefix);
    if i < before.len() {
        law_symbolic_links_are_skipped(found.drop_last(), prefix, i);
        let k = choose|k: int|
            0 <= k < found.drop_last().len() && (#[trigger] found.drop_last()[k]).kind
                != FoundKind::Symlink && found_job(found.drop_last()[k], prefix) == Some(before[i]);
        assert(found[k] == found.drop_last()[k]);
    } else {
        assert(found[found.len() - 1] == found.last());
    }
}

/// Whatever order the jobs are put in, the bytes to send are those of the files
/// found.
pub proof fn law_total_is_the_sum_of_sizes(inputs: Seq<Input>, jobs: Seq<JobView>)
    requires
        rearranged(jobs_of(inputs), jobs),
    ensures
        total_size(jobs) == total_size(jobs_of(inputs)),
{
    lemma_total_size_rearranged(jobs_of(inputs), jobs);
}

/// Of what was found below a folder each file and each folder becomes one job, in
/// the order in which they were found, under its path behind what stands before it;
/// a file keeps its size, a folder has none. Anything else becomes no job.
pub proof fn law_found_becomes_jobs(found: Seq<Found>, x: Found, prefix: Seq<char>)
    ensures
        found_jobs(Seq::empty(), prefix).len() == 0,
        ({
            let before = found_jobs(found, prefix);
            let after = found_jobs(found.push(x), prefix);
            let j = after.last();
            &&& x.kind == FoundKind::File || x.kind == FoundKind::Dir ==> {
                &&& after.len() == before.len() + 1
                &&& after.drop_last() == before
                &&& j.id == x.id && j.mtime == x.mtime && j.mode == x.mode
                &&& j.rel == prefix + wire_form(x.rel@)
                &&& j.is_dir <==> x.kind == FoundKind::Dir
                &&& x.kind == FoundKind::File ==> j.size == x.size
                &&& x.kind == FoundKind::Dir ==> j.size == 0
            }
            &&& x.kind == FoundKind::Symlink || x.kind == FoundKind::Other ==> after == before
        }),
{
    let all = found.push(x);
    assert(all.drop_last() =~= found);
    assert(all.last() == x);
    let before = found_jobs(found, prefix);
    assert(forall|j: JobView| #[trigger] before.push(j).drop_last() =~= before);
}

/// A file that is given becomes one job under its own name, of its own size.
pub proof fn law_given_file_becomes_a_job(input: Input, alone: bool)
    requires
        input.kind == FoundKind::File,
    ensures
        ({
            let jobs = input_jobs(input, alone);
            let j = jobs[0];
            &&& jobs.len() == 1
            &&& !j.is_dir && j.id == input.id && j.size == input.size
            &&& j.mtime == input.mtime && j.mode == input.mode
            &&& input.name is Some ==> j.rel == input.name->0@
            &&& input.name is None ==> j.rel == "file"@
        }),
{
}

/// A folder that is given alone sends what is in it. One that is given with others
/// sends itself first and what is in it below its name. What is neither a file nor
/// a folder sends nothing.
pub proof fn law_given_folder_becomes_jobs(input: Input, alone: bool)
    ensures
        input.kind == FoundKind::Dir && (alone || input.name is None) ==> input_jobs(input, alone)
            == found_jobs(input.found@, Seq::empty()),
        input.kind == FoundKind::Dir && !alone && input.name is Some ==> {
            let jobs = input_jobs(input, alone);
            let name = wire_form(input.name->0@);
            &&& jobs.len() > 0
            &&& jobs[0].is_dir && jobs[0].rel == name && jobs[0].id == input.id
            &&& jobs[0].size == 0 && jobs[0].mtime == input.mtime && jobs[0].mode == input.mode
            &&& jobs.drop_first() == found_jobs(input.found@, name + seq!['/'])
        },
        input.kind == FoundKind::Symlink || input.kind == FoundKind::Other ==> input_jobs(
            input,
            alone,
        ).len() == 0,
{
    if input.kind == FoundKind::Dir && !alone && input.name is Some {
        let jobs = input_jobs(input, alone);
        let name = wire_form(input.name->0@);
        assert(jobs.drop_first() =~= found_jobs(input.found@, name + seq!['/']));
    }
}

/// What is given adds up: the jobs of several inputs are those of each, one behind
/// the other; whether one was given alone is what their number says.
pub proof fn law_inputs_add_up(inputs: Seq<Input>, x: Input, alone: bool)
    ensures
        all_jobs(Seq::empty(), alone).len() == 0,
        all_jobs(inputs.push(x), alone) == all_jobs(inputs, alone) + input_jobs(x, alone),
        jobs_of(seq![x]) == input_jobs(x, true),
        inputs.len() > 0 ==> jobs_of(inputs.push(x)) == all_jobs(inputs.push(x), false),
{
    assert(inputs.push(x).drop_last() =~= inputs);
    let none: Seq<Input> = Seq::empty();
    assert(seq![x].drop_last() =~= none);
    assert(all_jobs(none, true) =~= Seq::empty());
    assert(jobs_of(seq![x]) =~= input_jobs(x, true));
}

/// The total grows by the size of each job.
pub proof fn law_total_grows_by_sizes(jobs: Seq<JobView>, j: JobView)
    ensures
        total_size(Seq::empty()) == 0,
        total_size(jobs.push(j)) == total_size(jobs) + j.size,
{
    assert(jobs.push(j).drop_last() =~= jobs);
}

/// Folders are sent before files, and within each the paths are in the order of a
/// dictionary.
pub proof fn law_jobs_are_in_order_of_their_paths(jobs: Seq<JobView>, i: int, j: int)
    requires
        in_order(jobs),
        0 <= i < j < jobs.len(),
    ensures
        jobs[j].is_dir ==> jobs[i].is_dir,
        jobs[i].is_dir == jobs[j].is_dir ==> jobs[i].rel == jobs[j].rel || exists|k: int|
            comes_before(jobs[i].rel, jobs[j].rel, k),
{
    assert(key_le(jobs[i].key(), jobs[j].key()));
    law_texts_are_ordered_as_words(jobs[i].rel, jobs[j].rel);
}

} // verus!
