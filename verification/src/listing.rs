//! File classification, aggregate statistics, and the filtered, sorted file
//! listing: computations over the store's plain values.
use vstd::prelude::*;

use crate::editor::{backing_view, RpaEditor};
use crate::entry::EntryV;
use crate::strutil::{
    lower_of, spec_chars_lt, spec_contains_seq, str_contains, str_eq, str_lt, to_lowercase,
};

verus! {

/// Does `s` end with `suffix`, character-wise?
pub open spec fn spec_ends_with_chars(s: Seq<char>, suffix: Seq<char>) -> bool {
    suffix.len() <= s.len() && s.subrange(s.len() - suffix.len(), s.len() as int) == suffix
}

/// Decide whether a string ends with a suffix.
pub fn str_ends_with(s: &str, suffix: &str) -> (r: bool)
    ensures
        r == spec_ends_with_chars(s@, suffix@),
{
    let sn = s.unicode_len();
    let sufn = suffix.unicode_len();
    if sufn > sn {
        return false;
    }
    let start = sn - sufn;
    let mut k: usize = 0;
    while k < sufn
        invariant
            0 <= k <= sufn,
            sufn <= sn,
            start == sn - sufn,
            sn == s@.len(),
            sufn == suffix@.len(),
            forall|j: int| 0 <= j < k ==> s@[start + j] == suffix@[j],
        decreases sufn - k,
    {
        let sc = s.get_char(start + k);
        let fc = suffix.get_char(k);
        if sc as u32 != fc as u32 {
            proof {
                assert(s@[start + k] != suffix@[k as int]);
                assert(s@.subrange(s@.len() - suffix@.len(), s@.len() as int)[k as int] == s@[start
                    + k]);
            }
            return false;
        }
        proof {
            assert(sc == fc);
        }
        k = k + 1;
    }
    proof {
        assert(s@.subrange(s@.len() - suffix@.len(), s@.len() as int) =~= suffix@);
    }
    true
}

/// The category of a filename, decided on its case-folded form: image,
/// video, audio, script, font or plain-file extensions, everything else
/// falling into the last category.
pub open spec fn spec_file_type(lower: Seq<char>) -> Seq<char> {
    if spec_ends_with_chars(lower, ".png"@) || spec_ends_with_chars(lower, ".jpg"@)
        || spec_ends_with_chars(lower, ".jpeg"@) || spec_ends_with_chars(lower, ".webp"@)
        || spec_ends_with_chars(lower, ".gif"@) || spec_ends_with_chars(lower, ".bmp"@) {
        "images"@
    } else if spec_ends_with_chars(lower, ".webm"@) || spec_ends_with_chars(lower, ".mp4"@)
        || spec_ends_with_chars(lower, ".avi"@) {
        "videos"@
    } else if spec_ends_with_chars(lower, ".ogg"@) || spec_ends_with_chars(lower, ".wav"@)
        || spec_ends_with_chars(lower, ".mp3"@) || spec_ends_with_chars(lower, ".flac"@) {
        "audio"@
    } else if spec_ends_with_chars(lower, ".rpy"@) || spec_ends_with_chars(lower, ".rpyc"@)
        || spec_ends_with_chars(lower, ".py"@) {
        "scripts"@
    } else if spec_ends_with_chars(lower, ".ttf"@) || spec_ends_with_chars(lower, ".otf"@)
        || spec_ends_with_chars(lower, ".woff"@) || spec_ends_with_chars(lower, ".woff2"@) {
        "fonts"@
    } else if spec_ends_with_chars(lower, ".json"@) || spec_ends_with_chars(lower, ".txt"@)
        || spec_ends_with_chars(lower, ".ini"@) || spec_ends_with_chars(lower, ".xml"@)
        || spec_ends_with_chars(lower, ".yaml"@) || spec_ends_with_chars(lower, ".yml"@) {
        "files"@
    } else {
        "other"@
    }
}

/// Classify a filename into its category.
pub fn get_file_type(filename: &str) -> (r: &'static str)
    ensures
        r@ == spec_file_type(lower_of(filename@)),
{
    let lowered = to_lowercase(filename);
    let lower = lowered.as_str();
    if str_ends_with(lower, ".png") || str_ends_with(lower, ".jpg") || str_ends_with(
        lower,
        ".jpeg",
    ) || str_ends_with(lower, ".webp") || str_ends_with(lower, ".gif") || str_ends_with(
        lower,
        ".bmp",
    ) {
        "images"
    } else if str_ends_with(lower, ".webm") || str_ends_with(lower, ".mp4") || str_ends_with(
        lower,
        ".avi",
    ) {
        "videos"
    } else if str_ends_with(lower, ".ogg") || str_ends_with(lower, ".wav") || str_ends_with(
        lower,
        ".mp3",
    ) || str_ends_with(lower, ".flac") {
        "audio"
    } else if str_ends_with(lower, ".rpy") || str_ends_with(lower, ".rpyc") || str_ends_with(
        lower,
        ".py",
    ) {
        "scripts"
    } else if str_ends_with(lower, ".ttf") || str_ends_with(lower, ".otf") || str_ends_with(
        lower,
        ".woff",
    ) || str_ends_with(lower, ".woff2") {
        "fonts"
    } else if str_ends_with(lower, ".json") || str_ends_with(lower, ".txt") || str_ends_with(
        lower,
        ".ini",
    ) || str_ends_with(lower, ".xml") || str_ends_with(lower, ".yaml") || str_ends_with(
        lower,
        ".yml",
    ) {
        "files"
    } else {
        "other"
    }
}

/// How many entries of a pair sequence fall into a category.
pub open spec fn spec_count_type(pairs: Seq<(Seq<char>, EntryV)>, t: Seq<char>) -> nat
    decreases pairs.len(),
{
    if pairs.len() == 0 {
        0
    } else {
        spec_count_type(pairs.drop_last(), t) + (if spec_file_type(lower_of(pairs.last().0)) == t {
            1nat
        } else {
            0nat
        })
    }
}

/// How many entries of a pair sequence satisfy a flag.
pub open spec fn spec_count_modified(pairs: Seq<(Seq<char>, EntryV)>) -> nat
    decreases pairs.len(),
{
    if pairs.len() == 0 {
        0
    } else {
        spec_count_modified(pairs.drop_last()) + (if pairs.last().1.modified {
            1nat
        } else {
            0nat
        })
    }
}

/// How many entries of a pair sequence are marked for deletion.
pub open spec fn spec_count_deleted(pairs: Seq<(Seq<char>, EntryV)>) -> nat
    decreases pairs.len(),
{
    if pairs.len() == 0 {
        0
    } else {
        spec_count_deleted(pairs.drop_last()) + (if pairs.last().1.to_delete {
            1nat
        } else {
            0nat
        })
    }
}

/// The sum of the entries' lengths.
pub open spec fn spec_total_size(pairs: Seq<(Seq<char>, EntryV)>) -> int
    decreases pairs.len(),
{
    if pairs.len() == 0 {
        0
    } else {
        spec_total_size(pairs.drop_last()) + pairs.last().1.length
    }
}

/// Aggregate counts over the archive's current contents.
#[derive(Debug, Clone, PartialEq, Eq)]
pub struct ArchiveStats {
    /// Total number of entries in the store.
    pub total_files: usize,
    /// Sum of all entries' lengths.
    pub total_size: u128,
    /// Entries changed since the load.
    pub modified: usize,
    /// Entries marked for deletion.
    pub to_delete: usize,
    /// Entries classified as images.
    pub images: usize,
    /// Entries classified as videos.
    pub videos: usize,
    /// Entries classified as audio.
    pub audio: usize,
    /// Entries classified as scripts.
    pub scripts: usize,
    /// Entries classified as fonts.
    pub fonts: usize,
    /// Entries classified as plain files.
    pub files: usize,
    /// Entries in no other category.
    pub other: usize,
    /// The session's compression level setting.
    pub compression_level: u32,
    /// Whether auto-backup is on.
    pub auto_backup: bool,
    /// How many backups the ring holds.
    pub backups: usize,
}

impl RpaEditor {
    /// Count the store's entries per category.
    #[verifier::loop_isolation(false)]
    pub fn count_files_by_type(&self) -> (r: (usize, usize, usize, usize, usize, usize, usize))
        ensures
            r.0 == spec_count_type(self.indexes@, "images"@),
            r.1 == spec_count_type(self.indexes@, "videos"@),
            r.2 == spec_count_type(self.indexes@, "audio"@),
            r.3 == spec_count_type(self.indexes@, "scripts"@),
            r.4 == spec_count_type(self.indexes@, "fonts"@),
            r.5 == spec_count_type(self.indexes@, "files"@),
            r.6 == spec_count_type(self.indexes@, "other"@),
    {
        let n = self.indexes.len();
        let mut images: usize = 0;
        let mut videos: usize = 0;
        let mut audio: usize = 0;
        let mut scripts: usize = 0;
        let mut fonts: usize = 0;
        let mut files: usize = 0;
        let mut other: usize = 0;
        let mut i: usize = 0;
        proof {
            assert(self.indexes@.subrange(0, 0) =~= Seq::<(Seq<char>, EntryV)>::empty());
            reveal_strlit("images");
            reveal_strlit("videos");
            reveal_strlit("audio");
            reveal_strlit("scripts");
            reveal_strlit("fonts");
            reveal_strlit("files");
            reveal_strlit("other");
            assert("images"@[0] != "videos"@[0]);
            assert("audio"@[0] != "fonts"@[0]);
            assert("audio"@[0] != "files"@[0]);
            assert("audio"@[0] != "other"@[0]);
            assert("fonts"@[1] != "files"@[1]);
            assert("fonts"@[0] != "other"@[0]);
            assert("files"@[0] != "other"@[0]);
            assert("images"@.len() != "audio"@.len() && "images"@.len() != "scripts"@.len());
            assert("videos"@.len() != "audio"@.len() && "videos"@.len() != "scripts"@.len());
            assert("scripts"@.len() != "audio"@.len());
        }
        while i < n
            invariant
                0 <= i <= n,
                n == self.indexes@.len(),
                images == spec_count_type(self.indexes@.subrange(0, i as int), "images"@),
                videos == spec_count_type(self.indexes@.subrange(0, i as int), "videos"@),
                audio == spec_count_type(self.indexes@.subrange(0, i as int), "audio"@),
                scripts == spec_count_type(self.indexes@.subrange(0, i as int), "scripts"@),
                fonts == spec_count_type(self.indexes@.subrange(0, i as int), "fonts"@),
                files == spec_count_type(self.indexes@.subrange(0, i as int), "files"@),
                other == spec_count_type(self.indexes@.subrange(0, i as int), "other"@),
                images + videos + audio + scripts + fonts + files + other <= i,
            decreases n - i,
        {
            let name = self.indexes.name_at(i);
            let t = get_file_type(name.as_str());
            proof {
                assert(self.indexes@.subrange(0, i + 1).drop_last() =~= self.indexes@.subrange(
                    0,
                    i as int,
                ));
                assert(self.indexes@.subrange(0, i + 1).last() == self.indexes@[i as int]);
            }
            if str_eq(t, "images") {
                images = images + 1;
            } else if str_eq(t, "videos") {
                videos = videos + 1;
            } else if str_eq(t, "audio") {
                audio = audio + 1;
            } else if str_eq(t, "scripts") {
                scripts = scripts + 1;
            } else if str_eq(t, "fonts") {
                fonts = fonts + 1;
            } else if str_eq(t, "files") {
                files = files + 1;
            } else {
                proof {
                    lemma_file_type_cases(lower_of(self.indexes@[i as int].0));
                }
                other = other + 1;
            }
            i = i + 1;
        }
        proof {
            assert(self.indexes@.subrange(0, n as int) =~= self.indexes@);
        }
        (images, videos, audio, scripts, fonts, files, other)
    }

    /// Aggregate statistics over the archive's current contents.
    #[verifier::loop_isolation(false)]
    pub fn get_archive_statistics(&self) -> (r: ArchiveStats)
        ensures
            r.total_files == self.indexes@.len(),
            r.total_size == spec_total_size(self.indexes@),
            r.modified == spec_count_modified(self.indexes@),
            r.to_delete == spec_count_deleted(self.indexes@),
            r.images == spec_count_type(self.indexes@, "images"@),
            r.videos == spec_count_type(self.indexes@, "videos"@),
            r.audio == spec_count_type(self.indexes@, "audio"@),
            r.scripts == spec_count_type(self.indexes@, "scripts"@),
            r.fonts == spec_count_type(self.indexes@, "fonts"@),
            r.files == spec_count_type(self.indexes@, "files"@),
            r.other == spec_count_type(self.indexes@, "other"@),
            r.compression_level == self.compression_level,
            r.auto_backup == self.auto_backup,
            r.backups == self.backup_history@.len(),
    {
        let counts = self.count_files_by_type();
        let n = self.indexes.len();
        let mut total_size: u128 = 0;
        let mut modified: usize = 0;
        let mut to_delete: usize = 0;
        let mut i: usize = 0;
        proof {
            assert(self.indexes@.subrange(0, 0) =~= Seq::<(Seq<char>, EntryV)>::empty());
        }
        while i < n
            invariant
                0 <= i <= n,
                n == self.indexes@.len(),
                total_size == spec_total_size(self.indexes@.subrange(0, i as int)),
                modified == spec_count_modified(self.indexes@.subrange(0, i as int)),
                to_delete == spec_count_deleted(self.indexes@.subrange(0, i as int)),
                modified <= i,
                to_delete <= i,
                total_size <= i * 0x10000000000000000,
            decreases n - i,
        {
            let entry = self.indexes.entry_at(i);
            proof {
                assert(self.indexes@.subrange(0, i + 1).drop_last() =~= self.indexes@.subrange(
                    0,
                    i as int,
                ));
                assert(self.indexes@.subrange(0, i + 1).last() == self.indexes@[i as int]);
                assert((i + 1) * 0x10000000000000000 == i * 0x10000000000000000
                    + 0x10000000000000000) by (nonlinear_arith);
                assert(n * 0x10000000000000000 <= usize::MAX * 0x10000000000000000) by (nonlinear_arith)
                    requires n <= usize::MAX;
            }
            total_size = total_size + entry.length as u128;
            if entry.modified {
                modified = modified + 1;
            }
            if entry.to_delete {
                to_delete = to_delete + 1;
            }
            i = i + 1;
        }
        proof {
            assert(self.indexes@.subrange(0, n as int) =~= self.indexes@);
        }
        ArchiveStats {
            total_files: n,
            total_size,
            modified,
            to_delete,
            images: counts.0,
            videos: counts.1,
            audio: counts.2,
            scripts: counts.3,
            fonts: counts.4,
            files: counts.5,
            other: counts.6,
            compression_level: self.compression_level,
            auto_backup: self.auto_backup,
            backups: self.backup_history.len(),
        }
    }

    /// The filenames whose on-disk extent cannot be read from the backing
    /// bytes, in store order: the eager validation a load performs. Entries
    /// with an override always read.
    pub fn validate_entries(&self) -> (r: Vec<String>)
        ensures
            crate::strutil::names_view(r@) == spec_invalid_names(
                self.indexes@,
                backing_view(self.archive_data),
            ),
    {
        let blen: u64 = match &self.archive_data {
            Some(b) => b.len() as u64,
            None => 0,
        };
        let ghost backing = backing_view(self.archive_data);
        proof {
            assert(spec_backing_len(backing) == blen as int);
        }
        let n = self.indexes.len();
        let mut out: Vec<String> = Vec::new();
        let mut i: usize = 0;
        proof {
            assert(self.indexes@.subrange(0, 0) =~= Seq::<(Seq<char>, EntryV)>::empty());
            assert(crate::strutil::names_view(out@) =~= spec_invalid_names(
                self.indexes@.subrange(0, 0),
                backing,
            ));
        }
        while i < n
            invariant
                0 <= i <= n,
                n == self.indexes@.len(),
                backing == backing_view(self.archive_data),
                blen as int == spec_backing_len(backing),
                crate::strutil::names_view(out@) == spec_invalid_names(
                    self.indexes@.subrange(0, i as int),
                    backing,
                ),
            decreases n - i,
        {
            let entry = self.indexes.entry_at(i);
            proof {
                assert(self.indexes@.subrange(0, i + 1).drop_last() =~= self.indexes@.subrange(
                    0,
                    i as int,
                ));
                assert(self.indexes@.subrange(0, i + 1).last() == self.indexes@[i as int]);
            }
            let bad = match &entry.data {
                Some(_) => false,
                None => entry.offset > blen || entry.length > blen - entry.offset,
            };
            if bad {
                let nm = self.indexes.name_at(i).clone();
                let ghost old_out = out@;
                out.push(nm);
                proof {
                    assert(crate::strutil::names_view(out@) =~= crate::strutil::names_view(
                        old_out,
                    ).push(self.indexes@[i as int].0));
                }
            }
            i = i + 1;
        }
        proof {
            assert(self.indexes@.subrange(0, n as int) =~= self.indexes@);
        }
        out
    }
}

/// A listing row as a mathematical value: a filename and its entry length.
pub open spec fn rows_view(v: Seq<(String, u64)>) -> Seq<(Seq<char>, u64)> {
    v.map_values(|r: (String, u64)| (r.0@, r.1))
}

/// The orders a listing can be sorted by.
#[derive(Debug, Clone, Copy, PartialEq, Eq, Structural)]
pub enum RowOrder {
    ByName,
    BySize,
    ByType,
}

/// The strict order a row order imposes on two rows.
pub open spec fn spec_row_lt(o: RowOrder, a: (Seq<char>, u64), b: (Seq<char>, u64)) -> bool {
    match o {
        RowOrder::ByName => spec_chars_lt(a.0, b.0),
        RowOrder::BySize => a.1 < b.1,
        RowOrder::ByType => spec_chars_lt(
            spec_file_type(lower_of(a.0)),
            spec_file_type(lower_of(b.0)),
        ),
    }
}

fn row_lt(o: RowOrder, a: &(String, u64), b: &(String, u64)) -> (r: bool)
    ensures
        r == spec_row_lt(o, (a.0@, a.1), (b.0@, b.1)),
{
    match o {
        RowOrder::ByName => str_lt(a.0.as_str(), b.0.as_str()),
        RowOrder::BySize => a.1 < b.1,
        RowOrder::ByType => str_lt(get_file_type(a.0.as_str()), get_file_type(b.0.as_str())),
    }
}

/// Where a row lands when inserted into a sorted listing: right before the
/// first strictly larger row (after equal rows, so equal keys keep their
/// arrival order).
pub open spec fn spec_insert_row(
    o: RowOrder,
    x: (Seq<char>, u64),
    s: Seq<(Seq<char>, u64)>,
) -> Seq<(Seq<char>, u64)>
    decreases s.len(),
{
    if s.len() == 0 {
        seq![x]
    } else if spec_row_lt(o, x, s[0]) {
        seq![x] + s
    } else {
        seq![s[0]] + spec_insert_row(o, x, s.drop_first())
    }
}

/// Sorting a listing by repeated insertion, row by row from the front.
pub open spec fn spec_sort_rows(o: RowOrder, s: Seq<(Seq<char>, u64)>) -> Seq<(Seq<char>, u64)>
    decreases s.len(),
{
    if s.len() == 0 {
        Seq::<(Seq<char>, u64)>::empty()
    } else {
        spec_insert_row(o, s.last(), spec_sort_rows(o, s.drop_last()))
    }
}

/// The insertion point characterizes the inserted listing.
proof fn lemma_insert_row_at(o: RowOrder, x: (Seq<char>, u64), s: Seq<(Seq<char>, u64)>, j: int)
    requires
        0 <= j <= s.len(),
        forall|k: int| 0 <= k < j ==> !spec_row_lt(o, x, #[trigger] s[k]),
        j < s.len() ==> spec_row_lt(o, x, s[j]),
    ensures
        spec_insert_row(o, x, s) == s.subrange(0, j) + seq![x] + s.subrange(j, s.len() as int),
    decreases s.len(),
{
    if s.len() == 0 {
        assert(spec_insert_row(o, x, s) =~= s.subrange(0, 0) + seq![x] + s.subrange(0, 0));
    } else if spec_row_lt(o, x, s[0]) {
        assert(j == 0);
        assert(spec_insert_row(o, x, s) =~= s.subrange(0, 0) + seq![x] + s.subrange(
            0,
            s.len() as int,
        ));
    } else {
        assert(j >= 1);
        let t = s.drop_first();
        assert(forall|k: int| 0 <= k < j - 1 ==> !spec_row_lt(o, x, #[trigger] t[k]));
        lemma_insert_row_at(o, x, t, j - 1);
        assert(t.subrange(0, j - 1) =~= s.subrange(1, j));
        assert(t.subrange(j - 1, t.len() as int) =~= s.subrange(j, s.len() as int));
        assert(spec_insert_row(o, x, s) =~= s.subrange(0, j) + seq![x] + s.subrange(
            j,
            s.len() as int,
        ));
    }
}

/// Insert a row into a sorted listing, after any rows its key equals.
fn insert_row(o: RowOrder, x: (String, u64), v: Vec<(String, u64)>) -> (r: Vec<(String, u64)>)
    ensures
        rows_view(r@) == spec_insert_row(o, (x.0@, x.1), rows_view(v@)),
{
    let n = v.len();
    let mut j: usize = 0;
    while j < n && !row_lt(o, &x, &v[j])
        invariant
            0 <= j <= n,
            n == v@.len(),
            forall|k: int| 0 <= k < j ==> !spec_row_lt(o, (x.0@, x.1), #[trigger] rows_view(v@)[k]),
        decreases n - j,
    {
        j = j + 1;
    }
    let ghost sv = rows_view(v@);
    proof {
        lemma_insert_row_at(o, (x.0@, x.1), sv, j as int);
    }
    let mut r = v;
    r.insert(j, x);
    proof {
        assert(rows_view(r@) =~= sv.subrange(0, j as int) + seq![(x.0@, x.1)] + sv.subrange(
            j as int,
            sv.len() as int,
        ));
    }
    r
}

/// Sort a listing by the given order, keeping equal keys in arrival order.
fn sort_rows(o: RowOrder, v: Vec<(String, u64)>) -> (r: Vec<(String, u64)>)
    ensures
        rows_view(r@) == spec_sort_rows(o, rows_view(v@)),
{
    let ghost orig = rows_view(v@);
    let mut rest = v;
    let mut acc: Vec<(String, u64)> = Vec::new();
    let ghost mut i: int = 0;
    proof {
        assert(rows_view(acc@) =~= spec_sort_rows(o, orig.subrange(0, 0)));
        assert(rows_view(rest@) =~= orig.subrange(0, orig.len() as int));
    }
    while rest.len() > 0
        invariant
            0 <= i <= orig.len(),
            rows_view(rest@) == orig.subrange(i, orig.len() as int),
            rest@.len() == orig.len() - i,
            rows_view(acc@) == spec_sort_rows(o, orig.subrange(0, i)),
        decreases rest@.len(),
    {
        let ghost old_rest = rest@;
        let x = rest.remove(0);
        proof {
            assert forall|k: int|
                0 <= k < rest@.len() implies rows_view(rest@)[k] == orig.subrange(
                i + 1,
                orig.len() as int,
            )[k] by {
                assert(rest@[k] == old_rest[k + 1]);
                assert(rows_view(old_rest)[k + 1] == (old_rest[k + 1].0@, old_rest[k + 1].1));
                assert(rows_view(old_rest)[k + 1] == orig[i + 1 + k]);
            }
            assert(rows_view(rest@) =~= orig.subrange(i + 1, orig.len() as int));
            assert((x.0@, x.1) == rows_view(old_rest)[0]);
            assert((x.0@, x.1) == orig[i]);
            assert(orig.subrange(0, i + 1).drop_last() =~= orig.subrange(0, i));
            assert(orig.subrange(0, i + 1).last() == orig[i]);
        }
        acc = insert_row(o, x, acc);
        proof {
            i = i + 1;
        }
    }
    proof {
        assert(orig.subrange(0, i) =~= orig);
    }
    acc
}

/// Whether a filename passes the listing's filters: its category matches
/// the category filter (or the filter admits every file), and its
/// case-folded name contains the case-folded search text (or the search is
/// empty).
pub open spec fn spec_row_pass(name: Seq<char>, ftype: Seq<char>, search: Seq<char>) -> bool {
    (ftype == "all"@ || spec_file_type(lower_of(name)) == ftype) && (search.len() == 0
        || spec_contains_seq(lower_of(name), lower_of(search)))
}

/// The rows passing the filters, in store order.
pub open spec fn spec_filtered_rows(
    pairs: Seq<(Seq<char>, EntryV)>,
    ftype: Seq<char>,
    search: Seq<char>,
) -> Seq<(Seq<char>, u64)>
    decreases pairs.len(),
{
    if pairs.len() == 0 {
        Seq::<(Seq<char>, u64)>::empty()
    } else {
        spec_filtered_rows(pairs.drop_last(), ftype, search) + (if spec_row_pass(
            pairs.last().0,
            ftype,
            search,
        ) {
            seq![(pairs.last().0, pairs.last().1.length)]
        } else {
            Seq::<(Seq<char>, u64)>::empty()
        })
    }
}

/// What the listing shows: the filtered rows, sorted by the session's sort
/// key (left in store order for an unrecognized key), reversed for a
/// descending listing.
pub open spec fn spec_listing(
    pairs: Seq<(Seq<char>, EntryV)>,
    ftype: Seq<char>,
    search: Seq<char>,
    sort_by: Seq<char>,
    ascending: bool,
) -> Seq<(Seq<char>, u64)> {
    let f = spec_filtered_rows(pairs, ftype, search);
    let s = if sort_by == "name"@ {
        spec_sort_rows(RowOrder::ByName, f)
    } else if sort_by == "size"@ {
        spec_sort_rows(RowOrder::BySize, f)
    } else if sort_by == "type"@ {
        spec_sort_rows(RowOrder::ByType, f)
    } else {
        f
    };
    if ascending {
        s
    } else {
        s.reverse()
    }
}

impl RpaEditor {
    /// The files the session's view lists: filenames (with their entry
    /// lengths) passing the category and search filters, sorted by the
    /// session's sort key, reversed when descending.
    #[verifier::loop_isolation(false)]
    pub fn get_filtered_sorted_files(&self) -> (r: Vec<(String, u64)>)
        ensures
            rows_view(r@) == spec_listing(
                self.indexes@,
                self.filter_type@,
                self.search_filter@,
                self.sort_by@,
                self.sort_ascending,
            ),
    {
        let n = self.indexes.len();
        let mut rows: Vec<(String, u64)> = Vec::new();
        let mut i: usize = 0;
        proof {
            assert(self.indexes@.subrange(0, 0) =~= Seq::<(Seq<char>, EntryV)>::empty());
            assert(rows_view(rows@) =~= spec_filtered_rows(
                self.indexes@.subrange(0, 0),
                self.filter_type@,
                self.search_filter@,
            ));
        }
        while i < n
            invariant
                0 <= i <= n,
                n == self.indexes@.len(),
                rows_view(rows@) == spec_filtered_rows(
                    self.indexes@.subrange(0, i as int),
                    self.filter_type@,
                    self.search_filter@,
                ),
            decreases n - i,
        {
            let name = self.indexes.name_at(i);
            let entry = self.indexes.entry_at(i);
            proof {
                assert(self.indexes@.subrange(0, i + 1).drop_last() =~= self.indexes@.subrange(
                    0,
                    i as int,
                ));
                assert(self.indexes@.subrange(0, i + 1).last() == self.indexes@[i as int]);
            }
            let type_ok = if str_eq(self.filter_type.as_str(), "all") {
                true
            } else {
                str_eq(get_file_type(name.as_str()), self.filter_type.as_str())
            };
            let search_ok = if self.search_filter.as_str().unicode_len() == 0 {
                true
            } else {
                let lowered_name = to_lowercase(name.as_str());
                let lowered_search = to_lowercase(self.search_filter.as_str());
                str_contains(lowered_name.as_str(), lowered_search.as_str())
            };
            if type_ok && search_ok {
                let ghost old_rows = rows@;
                rows.push((name.clone(), entry.length));
                proof {
                    assert(rows_view(rows@) =~= rows_view(old_rows).push(
                        (self.indexes@[i as int].0, self.indexes@[i as int].1.length),
                    ));
                }
            }
            i = i + 1;
        }
        proof {
            assert(self.indexes@.subrange(0, n as int) =~= self.indexes@);
        }
        let sorted = if str_eq(self.sort_by.as_str(), "name") {
            sort_rows(RowOrder::ByName, rows)
        } else if str_eq(self.sort_by.as_str(), "size") {
            sort_rows(RowOrder::BySize, rows)
        } else if str_eq(self.sort_by.as_str(), "type") {
            sort_rows(RowOrder::ByType, rows)
        } else {
            rows
        };
        if self.sort_ascending {
            sorted
        } else {
            let ghost sv = rows_view(sorted@);
            let mut src = sorted;
            let mut rev: Vec<(String, u64)> = Vec::new();
            proof {
                assert(rows_view(rev@) =~= sv.subrange(src@.len() as int, sv.len() as int).reverse());
            }
            while src.len() > 0
                invariant
                    src@.len() <= sv.len(),
                    rows_view(src@) == sv.subrange(0, src@.len() as int),
                    rows_view(rev@) == sv.subrange(src@.len() as int, sv.len() as int).reverse(),
                decreases src@.len(),
            {
                let ghost old_src = src@;
                let ghost old_rev = rev@;
                let x = match src.pop() {
                    Some(x) => x,
                    None => unreached(),
                };
                rev.push(x);
                proof {
                    assert(rows_view(src@) =~= sv.subrange(0, src@.len() as int)) by {
                        assert forall|k: int|
                            0 <= k < src@.len() implies rows_view(src@)[k] == sv[k] by {
                            assert(src@[k] == old_src[k]);
                            assert(rows_view(old_src)[k] == sv[k]);
                        }
                    }
                    assert((x.0@, x.1) == rows_view(old_src)[old_src.len() - 1]);
                    assert(rows_view(rev@) =~= rows_view(old_rev).push((x.0@, x.1)));
                    assert(rows_view(rev@) =~= sv.subrange(
                        src@.len() as int,
                        sv.len() as int,
                    ).reverse()) by {
                        let a = rows_view(rev@);
                        let b = sv.subrange(src@.len() as int, sv.len() as int).reverse();
                        assert(a.len() == b.len());
                        assert forall|k: int| 0 <= k < a.len() implies a[k] == b[k] by {
                            if k < a.len() - 1 {
                                assert(a[k] == rows_view(old_rev)[k]);
                                assert(rows_view(old_rev)[k] == sv.subrange(
                                    old_src.len() as int,
                                    sv.len() as int,
                                ).reverse()[k]);
                            }
                        }
                    }
                }
            }
            proof {
                assert(sv.subrange(0, 0) =~= Seq::<(Seq<char>, u64)>::empty());
                assert(rows_view(rev@) =~= sv.reverse()) by {
                    assert(sv.subrange(0, sv.len() as int) =~= sv);
                }
            }
            rev
        }
    }
}

/// Length of the backing bytes, zero when none are loaded.
pub open spec fn spec_backing_len(backing: Option<Seq<u8>>) -> int {
    match backing {
        Some(b) => b.len() as int,
        Option::None => 0,
    }
}

/// Whether an entry's extent cannot be read: no override, and the extent
/// runs past the backing bytes (or no backing bytes are loaded).
pub open spec fn spec_entry_invalid(e: EntryV, backing: Option<Seq<u8>>) -> bool {
    e.data is None && e.offset + e.length > spec_backing_len(backing)
}

/// The filenames of unreadable entries, in store order.
pub open spec fn spec_invalid_names(
    pairs: Seq<(Seq<char>, EntryV)>,
    backing: Option<Seq<u8>>,
) -> Seq<Seq<char>>
    decreases pairs.len(),
{
    if pairs.len() == 0 {
        Seq::<Seq<char>>::empty()
    } else {
        spec_invalid_names(pairs.drop_last(), backing) + (if spec_entry_invalid(
            pairs.last().1,
            backing,
        ) {
            seq![pairs.last().0]
        } else {
            Seq::<Seq<char>>::empty()
        })
    }
}

/// Every filename falls into exactly one of the seven categories.
proof fn lemma_file_type_cases(lower: Seq<char>)
    ensures
        spec_file_type(lower) == "images"@ || spec_file_type(lower) == "videos"@ || spec_file_type(
            lower,
        ) == "audio"@ || spec_file_type(lower) == "scripts"@ || spec_file_type(lower) == "fonts"@
            || spec_file_type(lower) == "files"@ || spec_file_type(lower) == "other"@,
{
}

} // verus!
