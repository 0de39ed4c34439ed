//! Decisions about which files to (re)write, and what to write into them.

use crate::default_label;
use crate::parser::{EntryModel, Registry};
use crate::text::{push_str_chars, str_eq, string_views, to_chars, chars_to_string};
use crate::util::Setting;
use crate::DEFAULTLABEL;
use vstd::prelude::*;

verus! {

/// One pending file write: the destination path and the text to put there.
pub struct FileWrite {
    pub path: String,
    pub content: String,
}

/// Mathematical model of a [`FileWrite`].
#[verifier::ext_equal]
pub struct FileWriteModel {
    pub path: Seq<char>,
    pub content: Seq<char>,
}

impl View for FileWrite {
    type V = FileWriteModel;

    open spec fn view(&self) -> FileWriteModel {
        FileWriteModel { path: self.path@, content: self.content@ }
    }
}

/// The sequence of views of a sequence of pending writes.
pub open spec fn file_write_views(q: Seq<FileWrite>) -> Seq<FileWriteModel> {
    q.map_values(|f: FileWrite| f@)
}

/// `dir`, a separator, and `name`.
pub open spec fn path_join(dir: Seq<char>, name: Seq<char>) -> Seq<char> {
    dir + seq!['/'] + name
}

/// The output file name of a labeled snippet: the label is inserted
/// between the original file's stem and its suffix.
pub open spec fn snippet_name(stem: Seq<char>, label: Seq<char>, suffix: Seq<char>) -> Seq<char> {
    stem + seq!['_'] + label + seq!['.'] + suffix
}

/// The writes owed to one registry entry: the default label goes to the
/// snippet directory and, as the stripped source, to `dir_path`, both
/// under the original file name; every other label goes to the snippet
/// directory under the stem-label-suffix name.
pub open spec fn writes_for_entry(
    e: EntryModel,
    filename: Seq<char>,
    stem: Seq<char>,
    suffix: Seq<char>,
    dir_path: Seq<char>,
    snip_dir: Seq<char>,
) -> Seq<FileWriteModel> {
    if e.label == default_label() {
        seq![
            FileWriteModel { path: path_join(snip_dir, filename), content: e.rec.buffer },
            FileWriteModel { path: path_join(dir_path, filename), content: e.rec.buffer },
        ]
    } else {
        seq![
            FileWriteModel {
                path: path_join(snip_dir, snippet_name(stem, e.label, suffix)),
                content: e.rec.buffer,
            },
        ]
    }
}

/// The writes owed to a whole registry, in registry order.
pub open spec fn write_plan(
    reg: Seq<EntryModel>,
    filename: Seq<char>,
    stem: Seq<char>,
    suffix: Seq<char>,
    dir_path: Seq<char>,
    snip_dir: Seq<char>,
) -> Seq<FileWriteModel>
    decreases reg.len(),
{
    if reg.len() == 0 {
        Seq::empty()
    } else {
        write_plan(reg.drop_last(), filename, stem, suffix, dir_path, snip_dir)
            + writes_for_entry(reg.last(), filename, stem, suffix, dir_path, snip_dir)
    }
}

/// `dir`, a separator, and `name`, as an owned path string.
fn join_path(dir: &str, name: &str) -> (r: String)
    ensures
        r@ == path_join(dir@, name@),
{
    let mut v = to_chars(dir);
    v.push('/');
    push_str_chars(&mut v, name);
    proof {
        assert(dir@.push('/') =~= dir@ + seq!['/']);
    }
    chars_to_string(&v)
}

/// The stem-label-suffix snippet file name, as an owned string.
fn make_snippet_name(stem: &str, label: &str, suffix: &str) -> (r: String)
    ensures
        r@ == snippet_name(stem@, label@, suffix@),
{
    let mut v = to_chars(stem);
    v.push('_');
    proof {
        assert(stem@.push('_') =~= stem@ + seq!['_']);
    }
    push_str_chars(&mut v, label);
    let ghost before = v@;
    v.push('.');
    proof {
        assert(before.push('.') =~= before + seq!['.']);
    }
    push_str_chars(&mut v, suffix);
    chars_to_string(&v)
}

/// Plan the writes for all snippets collected in `coll` for the file
/// named `filename` (with stem `filestem` and extension `suffix`).
/// `dir_path` is the current directory for the (nested) stripped source
/// files; the snippet directory comes from `setting`.  The caller
/// performs the writes.
pub fn write_files(
    filename: &str,
    filestem: &str,
    suffix: &str,
    dir_path: &str,
    coll: &Registry,
    setting: &Setting,
) -> (w: Vec<FileWrite>)
    ensures
        file_write_views(w@) == write_plan(
            coll@,
            filename@,
            filestem@,
            suffix@,
            dir_path@,
            setting.snippet_dest_dir@,
        ),
{
    let ghost snip_dir = setting.snippet_dest_dir@;
    let mut w: Vec<FileWrite> = Vec::new();
    proof {
        assert(file_write_views(w@) =~= write_plan(
            coll@.take(0),
            filename@,
            filestem@,
            suffix@,
            dir_path@,
            snip_dir,
        ));
    }
    let n = coll.len();
    let mut i: usize = 0;
    while i < n
        invariant
            0 <= i <= n,
            n == coll@.len(),
            snip_dir == setting.snippet_dest_dir@,
            file_write_views(w@) == write_plan(
                coll@.take(i as int),
                filename@,
                filestem@,
                suffix@,
                dir_path@,
                snip_dir,
            ),
        decreases n - i,
    {
        let ghost w0 = w@;
        let label = coll.label_at(i);
        let record = coll.record_at(i);
        if str_eq(label.as_str(), DEFAULTLABEL) {
            // Write the snippet, and also the full file to the source
            // destination.
            let snippet_path = join_path(setting.snippet_dest_dir.as_str(), filename);
            w.push(FileWrite { path: snippet_path, content: record.buffer.clone() });
            let full_path = join_path(dir_path, filename);
            w.push(FileWrite { path: full_path, content: record.buffer.clone() });
        } else {
            // Insert the label into the file's name.
            let ext_filename = make_snippet_name(filestem, label.as_str(), suffix);
            let file_path = join_path(setting.snippet_dest_dir.as_str(), ext_filename.as_str());
            w.push(FileWrite { path: file_path, content: record.buffer.clone() });
        }
        proof {
            assert(DEFAULTLABEL@ == default_label());
            assert(coll@.take(i as int + 1).drop_last() =~= coll@.take(i as int));
            assert(coll@.take(i as int + 1).last() == coll@[i as int]);
            assert(file_write_views(w@) =~~= file_write_views(w0) + writes_for_entry(
                coll@[i as int],
                filename@,
                filestem@,
                suffix@,
                dir_path@,
                snip_dir,
            ));
        }
        i = i + 1;
    }
    proof {
        assert(coll@.take(n as int) =~= coll@);
    }
    w
}

/// Whether `s` ends with the characters of `suffix`.
pub open spec fn ends_with(s: Seq<char>, suffix: Seq<char>) -> bool {
    s.len() >= suffix.len() && s.skip(s.len() - suffix.len()) == suffix
}

/// Whether the string `s` ends with `suffix`.
fn str_ends_with(s: &str, suffix: &str) -> (r: bool)
    ensures
        r == ends_with(s@, suffix@),
{
    let n = s.unicode_len();
    let m = suffix.unicode_len();
    if m > n {
        return false;
    }
    let mut j: usize = 0;
    while j < m
        invariant
            n == s@.len(),
            m == suffix@.len(),
            m <= n,
            0 <= j <= m,
            forall|k: int| 0 <= k < j ==> s@[n - m + k] == suffix@[k],
        decreases m - j,
    {
        if s.get_char(n - m + j) != suffix.get_char(j) {
            proof {
                assert(s@.skip(n as int - m as int)[j as int] == s@[n - m + j as int]);
            }
            return false;
        }
        j = j + 1;
    }
    proof {
        assert(s@.skip(n as int - m as int) =~= suffix@);
    }
    true
}

/// Whether `filename` ends with one of the configured file suffixes:
/// the test that picks the files a scan processes.
pub fn suffix_matches(filename: &str, suffixes: &Vec<String>) -> (r: bool)
    ensures
        r == exists|k: int|
            0 <= k < suffixes@.len() && ends_with(filename@, string_views(suffixes@)[k]),
{
    let mut k: usize = 0;
    while k < suffixes.len()
        invariant
            0 <= k <= suffixes@.len(),
            forall|j: int|
                0 <= j < k ==> !ends_with(filename@, #[trigger] string_views(suffixes@)[j]),
        decreases suffixes@.len() - k,
    {
        if str_ends_with(filename, suffixes[k].as_str()) {
            proof {
                assert(ends_with(filename@, string_views(suffixes@)[k as int]));
            }
            return true;
        }
        k = k + 1;
    }
    false
}

/// Test if the file to be processed is modified, i.e. newer than the
/// file(s) being created, by comparing modification time stamps.
///
/// The caller supplies what it could learn from the file system: each
/// argument is a modification time, or `None` where the file is missing
/// or its time stamp could not be read.  `src_modified` belongs to the
/// source file, `snippet_modified` to the snippet file, and
/// `src_dest_modified` to the stripped copy.  Returns true if the source
/// is newer than either destination or if either destination still has
/// to be created; any failure to read a time stamp counts as "needs
/// regeneration", and `force_update` always regenerates.
pub fn test_if_modified(
    force_update: bool,
    src_modified: Option<u64>,
    snippet_modified: Option<u64>,
    src_dest_modified: Option<u64>,
) -> (update: bool)
    ensures
        update == (force_update || src_modified is None || snippet_modified is None
            || src_dest_modified is None || src_modified->0 > snippet_modified->0
            || src_modified->0 > src_dest_modified->0),
{
    if force_update {
        return true;  // Update always.
    }
    match (src_modified, snippet_modified, src_dest_modified) {
        (Some(src), Some(snip), Some(dest)) => {
            src > snip || src > dest  // file newer than a destination?
        },
        _ => true,  // Update file anyway then.
    }
}

} // verus!
