//! The texts of a corpus as tasks for the vector generation: one task per
//! XML file, named by the file's stem or, failing one, numbered.

use vstd::prelude::*;
use crate::config::{StrixConfig, path_join, join_path, is_absolute, path_is_absolute};
use crate::sparv_decoder::CorpusConfig;
use crate::text::{decimal, decimal_text};

verus! {

/// Makes tasks of the texts of a corpus, numbering those without a name.
pub struct InsertData<'a> {
    pub index: &'a str,
    pub corpus_conf: &'a CorpusConfig,
    pub id_generator: u64,
}

/// A task of the vector generation.
pub struct Task {
    pub task_type: &'static str,
    pub task_id: String,
    pub task_size: u64,
    pub task_data: TaskData,
}

/// What a task works on: the path of a text.
pub struct TaskData {
    pub text: String,
}

/// The tasks could not be prepared.
pub struct PrepareUrlsError;

/// The paths of the texts could not be found.
pub struct GetPathsError;

/// A path the walk of the corpus directory found: whether it is a file, its
/// size where its metadata could be read, and whether its file stem, if it
/// has one, is valid UTF-8 (where it is not, `path` holds the path with the
/// invalid bytes replaced).
pub struct FoundPath {
    pub path: String,
    pub is_file: bool,
    pub size: Option<u64>,
    pub stem_is_utf8: bool,
}

/// The stem `Path::file_stem` gives a path: the file name without its last
/// extension, if the path has a file name.
pub uninterp spec fn file_stem_of(p: Seq<char>) -> Option<Seq<char>>;

/// `Path::file_stem` on a path given as text. The stem of a path that is
/// valid UTF-8 is valid UTF-8 too, so the conversion back to text keeps it.
#[verifier::external_body]
fn path_file_stem(p: &str) -> (r: Option<String>)
    ensures
        match r {
            Some(s) => file_stem_of(p@) == Some(s@),
            None => file_stem_of(p@) is None,
        },
{
    std::path::Path::new(p).file_stem().and_then(|s| s.to_str()).map(|s| s.to_string())
}

/// The directory of a corpus's texts: the corpus directory in the texts
/// directory, which lies in the base directory unless it is absolute.
pub open spec fn corpus_texts_dir(texts_dir: Seq<char>, base_dir: Seq<char>, name: Seq<char>) -> Seq<char> {
    if is_absolute(texts_dir) {
        path_join(texts_dir, name)
    } else {
        path_join(path_join(base_dir, texts_dir), name)
    }
}

/// The glob pattern of the XML files of a corpus, at any depth in the
/// directory of its texts. The corpus directory is named by the corpus id,
/// as no other is configured.
pub fn texts_glob_pattern(conf: &CorpusConfig, config: &StrixConfig) -> (r: String)
    ensures
        r@ == corpus_texts_dir(config.core.texts_dir@, config.core.base_dir@, conf@.corpus_id) + "/**/*.xml"@,
{
    let name: &str = match conf.corpus_dir() {
        Some(d) => d,
        None => conf.corpus_id().as_str(),
    };
    let dir = if path_is_absolute(config.texts_dir().as_str()) {
        join_path(config.texts_dir().as_str(), name)
    } else {
        let t = join_path(config.base_dir().as_str(), config.texts_dir().as_str());
        join_path(t.as_str(), name)
    };
    let mut r = dir;
    r.append("/**/*.xml");
    r
}

/// The id of an unnamed text: `text-<n>`.
pub open spec fn text_id(n: nat) -> Seq<char> {
    "text-"@ + decimal(n)
}

/// A found path by its values.
pub open spec fn found_view(f: FoundPath) -> (Seq<char>, bool, Option<u64>, bool) {
    (f.path@, f.is_file, f.size, f.stem_is_utf8)
}

/// A task by its id, its size and its text's path.
pub open spec fn task_view(t: Task) -> (Seq<char>, u64, Seq<char>) {
    (t.task_id@, t.task_size, t.task_data.text@)
}

/// The tasks made so far, the next number, the total size, and whether the
/// size of a file could not be read.
pub struct Prepared {
    pub tasks: Seq<(Seq<char>, u64, Seq<char>)>,
    pub next_id: int,
    pub total: int,
    pub failed: bool,
}

/// The stem that names the task of a found path: its file stem, where it has
/// one that is valid UTF-8.
pub open spec fn task_stem(f: (Seq<char>, bool, Option<u64>, bool)) -> Option<Seq<char>> {
    if f.3 { file_stem_of(f.0) } else { None }
}

/// One found path taken: a file becomes a task named by its stem or, where
/// it has no stem in UTF-8, by the next number; one whose size cannot be
/// read stops the preparation, after taking its number.
pub open spec fn prepare_step(st: Prepared, f: (Seq<char>, bool, Option<u64>, bool)) -> Prepared {
    if st.failed || !f.1 {
        st
    } else {
        let id = match task_stem(f) {
            Some(s) => s,
            None => text_id(st.next_id as nat),
        };
        let next = if task_stem(f) is Some { st.next_id } else { st.next_id + 1 };
        match f.2 {
            Some(n) => Prepared { tasks: st.tasks.push((id, n, f.0)), next_id: next, total: st.total + n, failed: false },
            None => Prepared { next_id: next, failed: true, ..st },
        }
    }
}

/// The found paths taken in turn, numbering from `start`.
pub open spec fn prepare_walk(fs: Seq<(Seq<char>, bool, Option<u64>, bool)>, start: int) -> Prepared
    decreases fs.len(),
{
    if fs.len() == 0 {
        Prepared { tasks: Seq::<(Seq<char>, u64, Seq<char>)>::empty(), next_id: start, total: 0, failed: false }
    } else {
        prepare_step(prepare_walk(fs.drop_last(), start), fs.last())
    }
}

/// The preparation can number the files and add up their sizes within a
/// `u64`: the number after the last one taken and the total fit.
pub open spec fn preparable(fs: Seq<(Seq<char>, bool, Option<u64>, bool)>, start: int) -> bool {
    prepare_walk(fs, start).next_id <= u64::MAX && prepare_walk(fs, start).total <= u64::MAX
}

/// The number and the total only grow as more found paths are taken.
proof fn lemma_prepare_grows(fs: Seq<(Seq<char>, bool, Option<u64>, bool)>, start: int, i: int)
    requires
        0 <= i <= fs.len(),
    ensures
        prepare_walk(fs.take(i), start).next_id <= prepare_walk(fs, start).next_id,
        prepare_walk(fs.take(i), start).total <= prepare_walk(fs, start).total,
    decreases fs.len() - i,
{
    if i < fs.len() {
        assert(fs.take(i + 1).drop_last() =~= fs.take(i));
        lemma_prepare_grows(fs, start, i + 1);
    } else {
        assert(fs.take(i) =~= fs);
    }
}

impl<'a> InsertData<'a> {
    /// Tasks for the texts of `corpus_conf` in the index `index`, numbering
    /// from 1.
    pub fn new(index: &'a str, corpus_conf: &'a CorpusConfig) -> (r: InsertData<'a>)
        ensures
            r.index == index,
            r.corpus_conf == corpus_conf,
            r.id_generator == 1,
    {
        InsertData { index, corpus_conf, id_generator: 1 }
    }

    /// Whether `prepare_urls` can number the files and add up their sizes
    /// within a `u64` (`preparable`).
    pub fn can_prepare(&self, paths: &Vec<FoundPath>) -> (b: bool)
        ensures
            b == preparable(paths@.map_values(|f: FoundPath| found_view(f)), self.id_generator as int),
    {
        let ghost fv = paths@.map_values(|f: FoundPath| found_view(f));
        let ghost start = self.id_generator as int;
        let mut next: u64 = self.id_generator;
        let mut total: u64 = 0;
        let mut i: usize = 0;
        assert(fv.take(0) =~= Seq::<(Seq<char>, bool, Option<u64>, bool)>::empty());
        while i < paths.len()
            invariant
                i <= paths.len(),
                fv == paths@.map_values(|f: FoundPath| found_view(f)),
                start == self.id_generator as int,
                ({
                    let p = prepare_walk(fv.take(i as int), start);
                    &&& !p.failed
                    &&& p.next_id == next
                    &&& p.total == total
                }),
            decreases paths.len() - i,
        {
            assert(fv.take(i + 1).drop_last() =~= fv.take(i as int));
            assert(fv.take(i + 1).last() == found_view(paths@[i as int]));
            let f = &paths[i];
            if f.is_file {
                let named = f.stem_is_utf8 && path_file_stem(f.path.as_str()).is_some();
                if !named {
                    if next == u64::MAX {
                        proof { lemma_prepare_grows(fv, start, i as int + 1); }
                        return false;
                    }
                    next = next + 1;
                }
                match f.size {
                    Some(n) => {
                        if n > u64::MAX - total {
                            proof { lemma_prepare_grows(fv, start, i as int + 1); }
                            return false;
                        }
                        total = total + n;
                    },
                    None => {
                        proof { lemma_prepare_stays_failed(fv, start, i as int + 1); }
                        return true;
                    },
                }
            }
            i = i + 1;
        }
        assert(fv.take(paths.len() as int) =~= fv);
        true
    }

    /// The tasks of the found paths, in their order, and their total size
    /// (`prepare_walk`): a text task for each file. A file without a stem
    /// in UTF-8 takes the next number; an `Err` comes exactly where the
    /// size of a file could not be read.
    pub fn prepare_urls(&mut self, paths: Vec<FoundPath>) -> (r: Result<(Vec<Task>, u64), PrepareUrlsError>)
        requires
            preparable(paths@.map_values(|f: FoundPath| found_view(f)), old(self).id_generator as int),
        ensures
            final(self).index == old(self).index,
            final(self).corpus_conf == old(self).corpus_conf,
            ({
                let p = prepare_walk(paths@.map_values(|f: FoundPath| found_view(f)), old(self).id_generator as int);
                &&& final(self).id_generator == p.next_id
                &&& (r is Err <==> p.failed)
                &&& (r matches Ok(t) ==> t.0@.map_values(|k: Task| task_view(k)) == p.tasks && t.1 == p.total
                    && forall|i: int| 0 <= i < t.0@.len() ==> (#[trigger] t.0@[i]).task_type@ == "text"@)
            }),
    {
        let ghost fv = paths@.map_values(|f: FoundPath| found_view(f));
        let ghost start = self.id_generator as int;
        let mut urls: Vec<Task> = Vec::new();
        let mut tot_size: u64 = 0;
        let mut i: usize = 0;
        assert(fv.take(0) =~= Seq::<(Seq<char>, bool, Option<u64>, bool)>::empty());
        proof {
            reveal_strlit("text");
        }
        while i < paths.len()
            invariant
                i <= paths.len(),
                fv == paths@.map_values(|f: FoundPath| found_view(f)),
                start == old(self).id_generator as int,
                preparable(fv, start),
                self.index == old(self).index,
                self.corpus_conf == old(self).corpus_conf,
                ({
                    let p = prepare_walk(fv.take(i as int), start);
                    &&& !p.failed
                    &&& p.next_id == self.id_generator
                    &&& p.total == tot_size
                    &&& urls@.map_values(|k: Task| task_view(k)) == p.tasks
                }),
                forall|k: int| 0 <= k < urls@.len() ==> (#[trigger] urls@[k]).task_type@ == "text"@,
            decreases paths.len() - i,
        {
            assert(fv.take(i + 1).drop_last() =~= fv.take(i as int));
            assert(fv.take(i + 1).last() == fv[i as int]);
            assert(fv[i as int] == found_view(paths@[i as int]));
            proof { lemma_prepare_grows(fv, start, i as int + 1); }
            let text = &paths[i];
            if text.is_file {
                let stem = if text.stem_is_utf8 { path_file_stem(text.path.as_str()) } else { None };
                let text_id = match stem {
                    Some(s) => s,
                    None => {
                        let mut id = String::from_str("text-");
                        let n = decimal_text(self.id_generator);
                        id.append(n.as_str());
                        self.id_generator = self.id_generator + 1;
                        id
                    },
                };
                let size = match text.size {
                    Some(n) => n,
                    None => {
                        proof { lemma_prepare_stays_failed(fv, start, i as int + 1); }
                        return Err(PrepareUrlsError);
                    },
                };
                tot_size = tot_size + size;
                let ghost before = urls@;
                let task = Task {
                    task_type: "text",
                    task_id: text_id,
                    task_size: size,
                    task_data: TaskData { text: text.path.clone() },
                };
                urls.push(task);
                assert(urls@.map_values(|k: Task| task_view(k)) =~= before.map_values(|k: Task| task_view(k)).push(task_view(task)));
            } else {
                assert(urls@.map_values(|k: Task| task_view(k)) == prepare_walk(fv.take(i + 1), start).tasks);
            }
            i = i + 1;
        }
        assert(fv.take(paths.len() as int) =~= fv);
        Ok((urls, tot_size))
    }

    /// `prepare_urls` where the numbers and the total fit in a `u64`
    /// (`can_prepare`); `None`, with nothing changed, where they do not.
    pub fn prepare_urls_checked(&mut self, paths: Vec<FoundPath>) -> (r: Option<Result<(Vec<Task>, u64), PrepareUrlsError>>)
        ensures
            ({
                let fv = paths@.map_values(|f: FoundPath| found_view(f));
                let p = prepare_walk(fv, old(self).id_generator as int);
                &&& (r is None <==> !preparable(fv, old(self).id_generator as int))
                &&& r is None ==> *final(self) == *old(self)
                &&& final(self).index == old(self).index
                &&& final(self).corpus_conf == old(self).corpus_conf
                &&& r matches Some(res) ==> {
                    &&& final(self).id_generator == p.next_id
                    &&& (res is Err <==> p.failed)
                    &&& (res matches Ok(t) ==> t.0@.map_values(|k: Task| task_view(k)) == p.tasks && t.1 == p.total
                        && forall|i: int| 0 <= i < t.0@.len() ==> (#[trigger] t.0@[i]).task_type@ == "text"@)
                }
            }),
    {
        if !self.can_prepare(&paths) {
            return None;
        }
        Some(self.prepare_urls(paths))
    }
}

proof fn lemma_prepare_stays_failed(fs: Seq<(Seq<char>, bool, Option<u64>, bool)>, start: int, n: int)
    requires
        0 <= n <= fs.len(),
        prepare_walk(fs.take(n), start).failed,
    ensures
        prepare_walk(fs, start) == prepare_walk(fs.take(n), start),
    decreases fs.len() - n,
{
    if n < fs.len() {
        assert(fs.take(n + 1).drop_last() =~= fs.take(n));
        lemma_prepare_stays_failed(fs, start, n + 1);
    } else {
        assert(fs.take(n) =~= fs);
    }
}


/// The sizes of tasks, added up.
pub open spec fn task_sizes(t: Seq<(Seq<char>, u64, Seq<char>)>) -> int
    decreases t.len(),
{
    if t.len() == 0 {
        0
    } else {
        task_sizes(t.drop_last()) + t.last().1 as int
    }
}

/// The total size the preparation reports is the sum of the sizes of its
/// tasks, and the numbering only moves forward.
pub proof fn law_total_size(fs: Seq<(Seq<char>, bool, Option<u64>, bool)>, start: int)
    ensures
        prepare_walk(fs, start).total == task_sizes(prepare_walk(fs, start).tasks),
        prepare_walk(fs, start).next_id >= start,
    decreases fs.len(),
{
    if fs.len() > 0 {
        law_total_size(fs.drop_last(), start);
        let p = prepare_walk(fs.drop_last(), start);
        let q = prepare_walk(fs, start);
        if q.tasks.len() > p.tasks.len() {
            assert(q.tasks.drop_last() =~= p.tasks);
        }
    }
}

} // verus!
