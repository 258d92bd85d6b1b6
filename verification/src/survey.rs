//! What a folder holds, for the treemap and the breakdown of a source: its
//! immediate children with their sizes and nested children, or all its files
//! in one list, and the bytes of each extension. Everything is derived from
//! the list of files that one scan found.

use crate::filter;
use crate::filter::{normalize_ext, Filter};
use crate::group;
use crate::group::group;
use crate::path;
use crate::path::FilePath;
use crate::run;
use crate::scan;
use crate::scan::SourceFile;
use crate::sort;
use crate::sort::largest_first;
use crate::text;
use crate::text::{join_text, same_text, to_lower};
use vstd::prelude::*;
use vstd::string::*;

verus! {

/// How many nested children of a folder are listed.
pub const MAX_CHILDREN: usize = 24;

/// How many extensions are listed.
pub const MAX_EXTS: usize = 14;

/// How many files are listed in a flat view.
pub const MAX_FLAT: usize = 2000;

// ---------------------------------------------------------------------------
// File types
// ---------------------------------------------------------------------------

/// Whether an extension is that of a video.
pub open spec fn is_video(e: Seq<char>) -> bool {
    e == "mov"@ || e == "mp4"@ || e == "mxf"@ || e == "avi"@ || e == "mts"@ || e == "m4v"@ || e
        == "braw"@ || e == "r3d"@ || e == "mkv"@ || e == "wmv"@
}

/// Whether an extension is that of a sound.
pub open spec fn is_audio(e: Seq<char>) -> bool {
    e == "wav"@ || e == "aif"@ || e == "aiff"@ || e == "mp3"@ || e == "flac"@ || e == "m4a"@ || e
        == "aac"@
}

/// Whether an extension is that of an image.
pub open spec fn is_image(e: Seq<char>) -> bool {
    e == "jpg"@ || e == "jpeg"@ || e == "png"@ || e == "cr3"@ || e == "cr2"@ || e == "arw"@ || e
        == "dng"@ || e == "nef"@ || e == "tif"@ || e == "tiff"@ || e == "heic"@ || e == "raf"@ || e
        == "gpr"@ || e == "gif"@
}

/// The category of an extension: 0 video, 1 audio, 2 image, 3 other.
pub open spec fn category_of(e: Seq<char>) -> int {
    if is_video(e) {
        0
    } else if is_audio(e) {
        1
    } else if is_image(e) {
        2
    } else {
        3
    }
}

/// File-type category index (0=video,1=audio,2=image,3=other).
pub fn category(ext: &str) -> (r: usize)
    ensures
        r == category_of(ext@),
{
    if same_text(ext, "mov") || same_text(ext, "mp4") || same_text(ext, "mxf") || same_text(
        ext,
        "avi",
    ) || same_text(ext, "mts") || same_text(ext, "m4v") || same_text(ext, "braw") || same_text(
        ext,
        "r3d",
    ) || same_text(ext, "mkv") || same_text(ext, "wmv") {
        0
    } else if same_text(ext, "wav") || same_text(ext, "aif") || same_text(ext, "aiff") || same_text(
        ext,
        "mp3",
    ) || same_text(ext, "flac") || same_text(ext, "m4a") || same_text(ext, "aac") {
        1
    } else if same_text(ext, "jpg") || same_text(ext, "jpeg") || same_text(ext, "png") || same_text(
        ext,
        "cr3",
    ) || same_text(ext, "cr2") || same_text(ext, "arw") || same_text(ext, "dng") || same_text(
        ext,
        "nef",
    ) || same_text(ext, "tif") || same_text(ext, "tiff") || same_text(ext, "heic") || same_text(
        ext,
        "raf",
    ) || same_text(ext, "gpr") || same_text(ext, "gif") {
        2
    } else {
        3
    }
}

// ---------------------------------------------------------------------------
// Listings
// ---------------------------------------------------------------------------

/// One nested child of a folder (its own immediate child), for the in-tile
/// mini-treemap labels.
#[derive(Debug, Clone)]
pub struct Child {
    pub name: String,
    pub size: u64,
    pub cat: u8,
}

/// One immediate child of the scanned folder — feeds the treemap/list.
#[derive(Debug, Clone)]
pub struct DirEntry {
    pub name: String,
    pub path: String,
    pub size: u64,
    pub is_dir: bool,
    pub ext: String,
    /// Modification time in milliseconds since the Unix epoch (for date filters).
    pub mtime_ms: i64,
    /// For folders: nested immediate children (size + type), largest first,
    /// capped — used to draw labeled sub-rectangles inside the folder tile.
    pub children: Vec<Child>,
}

/// Total bytes + file count for one extension, for the breakdown panel.
#[derive(Debug, Clone)]
pub struct ExtStat {
    pub ext: String,
    pub bytes: u64,
    pub files: u64,
}

/// What a folder holds.
#[derive(Debug, Clone)]
pub struct DirListing {
    pub path: String,
    pub total: u64,
    pub entries: Vec<DirEntry>,
    /// Extension breakdown across everything under `path`, largest first.
    pub exts: Vec<ExtStat>,
}

/// What a [`Child`] stands for.
pub struct ChildModel {
    pub name: Seq<char>,
    pub size: u64,
    pub cat: u8,
}

/// What a [`DirEntry`] stands for.
pub struct DirModel {
    pub name: Seq<char>,
    pub path: Seq<char>,
    pub size: u64,
    pub is_dir: bool,
    pub ext: Seq<char>,
    pub mtime_ms: i64,
    pub children: Seq<ChildModel>,
}

/// What an [`ExtStat`] stands for.
pub struct ExtModel {
    pub ext: Seq<char>,
    pub bytes: u64,
    pub files: u64,
}

/// What a [`DirListing`] stands for.
pub struct ListingModel {
    pub path: Seq<char>,
    pub total: u64,
    pub entries: Seq<DirModel>,
    pub exts: Seq<ExtModel>,
}

impl View for Child {
    type V = ChildModel;

    open spec fn view(&self) -> ChildModel {
        ChildModel { name: self.name@, size: self.size, cat: self.cat }
    }
}

/// What the children of a list stand for.
pub open spec fn child_models(v: Seq<Child>) -> Seq<ChildModel> {
    Seq::new(v.len(), |i: int| v[i]@)
}

impl View for DirEntry {
    type V = DirModel;

    open spec fn view(&self) -> DirModel {
        DirModel {
            name: self.name@,
            path: self.path@,
            size: self.size,
            is_dir: self.is_dir,
            ext: self.ext@,
            mtime_ms: self.mtime_ms,
            children: child_models(self.children@),
        }
    }
}

/// What the entries of a list stand for.
pub open spec fn dir_models(v: Seq<DirEntry>) -> Seq<DirModel> {
    Seq::new(v.len(), |i: int| v[i]@)
}

impl View for ExtStat {
    type V = ExtModel;

    open spec fn view(&self) -> ExtModel {
        ExtModel { ext: self.ext@, bytes: self.bytes, files: self.files }
    }
}

/// What the extensions of a list stand for.
pub open spec fn ext_models(v: Seq<ExtStat>) -> Seq<ExtModel> {
    Seq::new(v.len(), |i: int| v[i]@)
}

impl View for DirListing {
    type V = ListingModel;

    open spec fn view(&self) -> ListingModel {
        ListingModel {
            path: self.path@,
            total: self.total,
            entries: dir_models(self.entries@),
            exts: ext_models(self.exts@),
        }
    }
}

// ---------------------------------------------------------------------------
// What is below a folder
// ---------------------------------------------------------------------------

/// Whether a file is below a folder.
pub open spec fn is_below(f: scan::SourceModel, base: Seq<char>) -> bool {
    path::path_starts_with(f.abs, base)
}

/// The components of a file as seen from a folder.
pub open spec fn parts_below(f: scan::SourceModel, base: Seq<char>) -> Seq<Seq<char>> {
    path::components(f.abs).skip(path::components(base).len() as int)
}

/// The extension of a file as seen from a folder, in its normal form; empty if
/// there is none.
pub open spec fn ext_below(f: scan::SourceModel, base: Seq<char>) -> Seq<char> {
    filter::normal_ext(
        match path::extension(text::join(parts_below(f, base), path::slash())) {
            Some(e) => text::lowercase(e),
            None => Seq::<char>::empty(),
        },
    )
}

/// A number divided by another, rounded towards zero.
pub open spec fn toward_zero(n: int, by: int) -> int {
    if n >= 0 {
        n / by
    } else {
        -((-n) / by)
    }
}

/// Nanoseconds as whole milliseconds.
pub open spec fn millis(ns: i128) -> i64 {
    toward_zero(ns as int, 1_000_000) as i64
}

/// Nanoseconds as whole milliseconds.
fn to_millis(ns: i128) -> (r: i64)
    ensures
        r == millis(ns),
{
    if ns >= 0 {
        let q: u128 = ns as u128 / 1_000_000;
        assert(q == (ns as int) / 1_000_000);
        q as i128 as i64
    } else {
        let size: u128 = (-(ns + 1)) as u128 + 1;
        let q: u128 = size / 1_000_000;
        assert(size == -ns);
        let whole: i128 = -(q as i128);
        whole as i64
    }
}

/// The size of the file at a position.
pub open spec fn size_at(files: Seq<scan::SourceModel>) -> spec_fn(usize) -> nat {
    |p: usize| files[p as int].size as nat
}

/// The size of the file at a position if it is of a category, else 0.
pub open spec fn size_in(files: Seq<scan::SourceModel>, base: Seq<char>, cat: int) -> spec_fn(
    usize,
) -> nat {
    |p: usize|
        if category_of(ext_below(files[p as int], base)) == cat {
            files[p as int].size as nat
        } else {
            0
        }
}

/// The sizes of the files at some positions, added up.
pub open spec fn bytes_at(files: Seq<scan::SourceModel>, ps: Seq<usize>) -> nat {
    group::weigh(ps, size_at(files))
}

/// The positions of the files below a folder, among the first `n`.
pub open spec fn below(files: Seq<scan::SourceModel>, base: Seq<char>, n: int) -> Seq<usize>
    decreases n,
{
    if n <= 0 {
        Seq::<usize>::empty()
    } else if is_below(files[n - 1], base) {
        below(files, base, n - 1).push((n - 1) as usize)
    } else {
        below(files, base, n - 1)
    }
}

/// Positions with the extensions of their files.
pub open spec fn with_exts(
    files: Seq<scan::SourceModel>,
    base: Seq<char>,
    ps: Seq<usize>,
) -> Seq<(Seq<char>, usize)> {
    Seq::new(ps.len(), |i: int| (ext_below(files[ps[i] as int], base), ps[i]))
}

/// Positions with the `k`-th component of their files, of those that have it.
pub open spec fn with_parts(
    files: Seq<scan::SourceModel>,
    base: Seq<char>,
    ps: Seq<usize>,
    k: int,
) -> Seq<(Seq<char>, usize)>
    decreases ps.len(),
{
    if ps.len() == 0 {
        Seq::<(Seq<char>, usize)>::empty()
    } else {
        let before = with_parts(files, base, ps.drop_last(), k);
        let parts = parts_below(files[ps.last() as int], base);
        if k < parts.len() {
            before.push((parts[k], ps.last()))
        } else {
            before
        }
    }
}

/// The sizes of some items, largest first, up to `keep` of them.
pub open spec fn largest<T>(items: Seq<T>, sizes: Seq<u64>, keep: nat) -> Seq<T> {
    sort::arranged(items, sort::sorted_order(sizes.len(), sort::larger_first(sizes)), keep)
}

/// The bytes and files of each extension, in the order in which they are met.
pub open spec fn ext_totals(
    files: Seq<scan::SourceModel>,
    base: Seq<char>,
    ps: Seq<usize>,
) -> Seq<ExtModel> {
    let groups = group::grouped(with_exts(files, base, ps));
    Seq::new(
        groups.len(),
        |i: int|
            ExtModel {
                ext: groups[i].0,
                bytes: bytes_at(files, groups[i].1) as u64,
                files: groups[i].1.len() as u64,
            },
    )
}

/// The sizes of a list of extensions.
pub open spec fn ext_sizes(v: Seq<ExtModel>) -> Seq<u64> {
    Seq::new(v.len(), |i: int| v[i].bytes)
}

/// The extension breakdown: the extensions with the most bytes, largest first.
pub open spec fn breakdown(
    files: Seq<scan::SourceModel>,
    base: Seq<char>,
    ps: Seq<usize>,
) -> Seq<ExtModel> {
    let all = ext_totals(files, base, ps);
    largest(all, ext_sizes(all), MAX_EXTS as nat)
}

/// The category with the most bytes; of several, the last.
pub open spec fn dominant(a: int, b: int, c: int, d: int) -> int {
    if d >= a && d >= b && d >= c {
        3
    } else if c >= a && c >= b {
        2
    } else if b >= a {
        1
    } else {
        0
    }
}

/// The nested children of a folder, in the order in which they are met.
pub open spec fn nested(
    files: Seq<scan::SourceModel>,
    base: Seq<char>,
    ps: Seq<usize>,
) -> Seq<ChildModel> {
    let groups = group::grouped(with_parts(files, base, ps, 1));
    Seq::new(
        groups.len(),
        |i: int|
            ChildModel {
                name: groups[i].0,
                size: bytes_at(files, groups[i].1) as u64,
                cat: dominant(
                    group::weigh(groups[i].1, size_in(files, base, 0)) as int,
                    group::weigh(groups[i].1, size_in(files, base, 1)) as int,
                    group::weigh(groups[i].1, size_in(files, base, 2)) as int,
                    group::weigh(groups[i].1, size_in(files, base, 3)) as int,
                ) as u8,
            },
    )
}

/// The sizes of a list of children.
pub open spec fn child_sizes(v: Seq<ChildModel>) -> Seq<u64> {
    Seq::new(v.len(), |i: int| v[i].size)
}

/// The last file among some positions that is itself the child of the folder.
pub open spec fn last_leaf(
    files: Seq<scan::SourceModel>,
    base: Seq<char>,
    ps: Seq<usize>,
) -> Option<usize>
    decreases ps.len(),
{
    if ps.len() == 0 {
        None
    } else if parts_below(files[ps.last() as int], base).len() <= 1 {
        Some(ps.last())
    } else {
        last_leaf(files, base, ps.drop_last())
    }
}

/// One immediate child of a folder, from the positions of the files in it.
pub open spec fn entry_of(
    files: Seq<scan::SourceModel>,
    base: Seq<char>,
    name: Seq<char>,
    ps: Seq<usize>,
) -> DirModel {
    let inner = nested(files, base, ps);
    let leaf = last_leaf(files, base, ps);
    DirModel {
        name,
        path: path::path_join(base, name),
        size: bytes_at(files, ps) as u64,
        is_dir: inner.len() > 0,
        ext: match leaf {
            Some(p) => ext_below(files[p as int], base),
            None => Seq::<char>::empty(),
        },
        mtime_ms: match leaf {
            Some(p) => millis(files[p as int].mtime_ns),
            None => 0,
        },
        children: largest(inner, child_sizes(inner), MAX_CHILDREN as nat),
    }
}

/// The immediate children of a folder, in the order in which they are met.
pub open spec fn children_of(
    files: Seq<scan::SourceModel>,
    base: Seq<char>,
    ps: Seq<usize>,
) -> Seq<DirModel> {
    let groups = group::grouped(with_parts(files, base, ps, 0));
    Seq::new(groups.len(), |i: int| entry_of(files, base, groups[i].0, groups[i].1))
}

/// The sizes of a list of entries.
pub open spec fn dir_sizes(v: Seq<DirModel>) -> Seq<u64> {
    Seq::new(v.len(), |i: int| v[i].size)
}

/// What a folder holds: its immediate children, largest first.
pub open spec fn folder_listing(files: Seq<scan::SourceModel>, base: Seq<char>) -> ListingModel {
    let ps = below(files, base, files.len() as int);
    let all = children_of(files, base, ps);
    ListingModel {
        path: base,
        total: bytes_at(files, ps) as u64,
        entries: largest(all, dir_sizes(all), all.len()),
        exts: breakdown(files, base, ps),
    }
}

/// One file in a flat view.
pub open spec fn flat_entry(f: scan::SourceModel, base: Seq<char>) -> DirModel {
    DirModel {
        name: text::join(parts_below(f, base), path::slash()),
        path: f.abs,
        size: f.size,
        is_dir: false,
        ext: ext_below(f, base),
        mtime_ms: millis(f.mtime_ns),
        children: Seq::empty(),
    }
}

/// The files below a folder, one by one.
pub open spec fn flat_entries(
    files: Seq<scan::SourceModel>,
    base: Seq<char>,
    ps: Seq<usize>,
) -> Seq<DirModel> {
    Seq::new(ps.len(), |i: int| flat_entry(files[ps[i] as int], base))
}

/// What a folder holds: all its files in one list, largest first.
pub open spec fn flat_listing(files: Seq<scan::SourceModel>, base: Seq<char>) -> ListingModel {
    let ps = below(files, base, files.len() as int);
    let all = flat_entries(files, base, ps);
    ListingModel {
        path: base,
        total: bytes_at(files, ps) as u64,
        entries: largest(all, dir_sizes(all), MAX_FLAT as nat),
        exts: breakdown(files, base, ps),
    }
}

// ---------------------------------------------------------------------------
// Building listings
// ---------------------------------------------------------------------------

/// Whether every position is that of a file.
pub open spec fn in_range(ps: Seq<usize>, n: int) -> bool {
    forall|i: int| 0 <= i < ps.len() ==> #[trigger] ps[i] < n
}

/// The positions of the files below a folder, among the first `n`, are those
/// of files, and their bytes are no more than those of all files.
pub proof fn files_below_are_files(files: Seq<scan::SourceModel>, base: Seq<char>, n: int)
    requires
        0 <= n <= files.len(),
        files.len() <= usize::MAX,
    ensures
        in_range(below(files, base, n), n),
        below(files, base, n).len() <= n,
        bytes_at(files, below(files, base, n)) <= run::size_sum(files.take(n)),
    decreases n,
{
    if n > 0 {
        files_below_are_files(files, base, n - 1);
        assert(files.take(n).drop_last() == files.take(n - 1));
        let some = below(files, base, n - 1);
        if is_below(files[n - 1], base) {
            assert(some.push((n - 1) as usize).drop_last() == some);
        }
    }
}

proof fn lemma_with_parts(
    files: Seq<scan::SourceModel>,
    base: Seq<char>,
    ps: Seq<usize>,
    k: int,
    n: int,
)
    requires
        in_range(ps, n),
    ensures
        forall|i: int|
            0 <= i < with_parts(files, base, ps, k).len() ==> (#[trigger] with_parts(
                files,
                base,
                ps,
                k,
            )[i]).1 < n,
        with_parts(files, base, ps, k).len() <= ps.len(),
        bytes_at(files, group::values_of(with_parts(files, base, ps, k))) <= bytes_at(files, ps),
    decreases ps.len(),
{
    if ps.len() > 0 {
        let front = ps.drop_last();
        assert forall|i: int| 0 <= i < front.len() implies #[trigger] front[i] < n by {
            assert(front[i] == ps[i]);
        }
        lemma_with_parts(files, base, front, k, n);
        let all = with_parts(files, base, ps, k);
        let some = with_parts(files, base, front, k);
        if k < parts_below(files[ps.last() as int], base).len() {
            assert(group::values_of(all).drop_last() == group::values_of(some));
            assert(ps[ps.len() - 1] < n);
            assert forall|i: int| 0 <= i < all.len() implies (#[trigger] all[i]).1 < n by {
                if i < some.len() {
                    assert(all[i] == some[i]);
                }
            }
        }
    }
}

/// What a group of positions inherits from the list it is taken from.
proof fn lemma_group_of_positions(
    files: Seq<scan::SourceModel>,
    items: Seq<(Seq<char>, usize)>,
    key: Seq<char>,
    n: int,
)
    requires
        forall|i: int| 0 <= i < items.len() ==> (#[trigger] items[i]).1 < n,
    ensures
        in_range(group::values_for(items, key), n),
        bytes_at(files, group::values_for(items, key)) <= bytes_at(
            files,
            group::values_of(items),
        ),
{
    group::group_holds_nothing_new(items, key, |p: usize| p < n);
    group::group_weighs_no_more(items, key, size_at(files));
}

/// The components of a file as seen from a folder, if it is below it.
fn rest_of(f: &SourceFile, base: &FilePath) -> (r: Option<Vec<String>>)
    ensures
        r is Some <==> is_below(f@, base@),
        r matches Some(parts) ==> text::texts(parts@) == parts_below(f@, base@),
{
    f.abs.strip_prefix(base)
}

/// The components of a file below a folder as seen from it.
fn parts_of_file(f: &SourceFile, base: &FilePath) -> (r: Vec<String>)
    requires
        is_below(f@, base@),
    ensures
        text::texts(r@) == parts_below(f@, base@),
{
    match rest_of(f, base) {
        Some(parts) => parts,
        None => Vec::new(),
    }
}

/// The extension of a file as seen from a folder, in its normal form.
fn ext_of_file(f: &SourceFile, base: &FilePath) -> (r: String)
    requires
        is_below(f@, base@),
    ensures
        r@ == ext_below(f@, base@),
{
    proof {
        reveal_strlit("/");
        assert("/"@ == path::slash());
    }
    let rel = FilePath { text: join_text(&parts_of_file(f, base), "/") };
    let low = match rel.extension() {
        Some(e) => to_lower(e.as_str()),
        None => String::new(),
    };
    assert(path::extension(rel@) is None ==> low@ == Seq::<char>::empty());
    normalize_ext(low.as_str())
}

/// Whether every position is that of a file below a folder.
pub open spec fn all_below(files: Seq<scan::SourceModel>, base: Seq<char>, ps: Seq<usize>) -> bool {
    forall|i: int|
        0 <= i < ps.len() ==> (#[trigger] ps[i]) < files.len() && is_below(
            files[ps[i] as int],
            base,
        )
}

proof fn lemma_below(files: Seq<scan::SourceModel>, base: Seq<char>, n: int)
    requires
        0 <= n <= files.len(),
        files.len() <= usize::MAX,
    ensures
        all_below(files, base, below(files, base, n)),
    decreases n,
{
    if n > 0 {
        lemma_below(files, base, n - 1);
    }
}

/// The positions of the files below a folder.
fn files_below(files: &Vec<SourceFile>, base: &FilePath) -> (r: Vec<usize>)
    ensures
        r@ == below(scan::models(files@), base@, files@.len() as int),
        all_below(scan::models(files@), base@, r@),
        bytes_at(scan::models(files@), r@) <= run::size_sum(scan::models(files@)),
{
    let ghost all = scan::models(files@);
    let mut r: Vec<usize> = Vec::new();
    let n = files.len();
    let mut i: usize = 0;
    assert(r@ == below(all, base@, 0));
    while i < n
        invariant
            n == files@.len(),
            all == scan::models(files@),
            i <= n,
            r@ == below(all, base@, i as int),
        decreases n - i,
    {
        assert(all[i as int] == files@[i as int]@);
        if files[i].abs.starts_with(base) {
            r.push(i);
        }
        i += 1;
    }
    proof {
        lemma_below(all, base@, n as int);
        files_below_are_files(all, base@, n as int);
        assert(all.take(n as int) == all);
    }
    r
}

/// The sizes of the files at some positions, added up.
fn sum_at(files: &Vec<SourceFile>, ps: &Vec<usize>) -> (r: u64)
    requires
        in_range(ps@, files@.len() as int),
        bytes_at(scan::models(files@), ps@) <= u64::MAX,
    ensures
        r == bytes_at(scan::models(files@), ps@),
{
    let ghost all = scan::models(files@);
    let mut sum: u64 = 0;
    let mut i: usize = 0;
    assert(ps@.take(0) == Seq::<usize>::empty());
    while i < ps.len()
        invariant
            all == scan::models(files@),
            in_range(ps@, files@.len() as int),
            bytes_at(all, ps@) <= u64::MAX,
            i <= ps@.len(),
            sum == bytes_at(all, ps@.take(i as int)),
        decreases ps@.len() - i,
    {
        proof {
            assert(ps@[i as int] < files@.len());
            assert(ps@.take(i + 1).drop_last() == ps@.take(i as int));
            assert(ps@.take(i + 1).last() == ps@[i as int]);
            group::first_items_weigh_no_more(ps@, i + 1, size_at(all));
        }
        sum = sum + files[ps[i]].size;
        i += 1;
    }
    assert(ps@.take(ps@.len() as int) == ps@);
    sum
}

/// The sizes of the files of one category at some positions, added up.
fn sum_in(files: &Vec<SourceFile>, base: &FilePath, ps: &Vec<usize>, cat: usize) -> (r: u64)
    requires
        all_below(scan::models(files@), base@, ps@),
        bytes_at(scan::models(files@), ps@) <= u64::MAX,
    ensures
        r == group::weigh(ps@, size_in(scan::models(files@), base@, cat as int)),
{
    let ghost all = scan::models(files@);
    let ghost w = size_in(all, base@, cat as int);
    let mut sum: u64 = 0;
    let mut i: usize = 0;
    proof {
        assert(ps@.take(0) == Seq::<usize>::empty());
        group::lighter_items_weigh_less(ps@, w, size_at(all));
    }
    while i < ps.len()
        invariant
            all == scan::models(files@),
            all_below(all, base@, ps@),
            w == size_in(all, base@, cat as int),
            group::weigh(ps@, w) <= u64::MAX,
            i <= ps@.len(),
            sum == group::weigh(ps@.take(i as int), w),
        decreases ps@.len() - i,
    {
        proof {
            assert(ps@[i as int] < all.len());
            assert(all[ps@[i as int] as int] == files@[ps@[i as int] as int]@);
            assert(ps@.take(i + 1).drop_last() == ps@.take(i as int));
            assert(ps@.take(i + 1).last() == ps@[i as int]);
            group::first_items_weigh_no_more(ps@, i + 1, w);
        }
        let f = &files[ps[i]];
        if category(ext_of_file(f, base).as_str()) == cat {
            sum = sum + f.size;
        }
        i += 1;
    }
    assert(ps@.take(ps@.len() as int) == ps@);
    sum
}

/// Positions with the `k`-th component of their files, of those that have it.
fn keyed_by_part(files: &Vec<SourceFile>, base: &FilePath, ps: &Vec<usize>, k: usize) -> (r: Vec<
    (String, usize),
>)
    requires
        all_below(scan::models(files@), base@, ps@),
    ensures
        group::keyed(r@) == with_parts(scan::models(files@), base@, ps@, k as int),
{
    let ghost all = scan::models(files@);
    let mut r: Vec<(String, usize)> = Vec::new();
    let mut i: usize = 0;
    assert(group::keyed(r@) == with_parts(all, base@, ps@.take(0), k as int));
    while i < ps.len()
        invariant
            all == scan::models(files@),
            all_below(all, base@, ps@),
            i <= ps@.len(),
            group::keyed(r@) == with_parts(all, base@, ps@.take(i as int), k as int),
        decreases ps@.len() - i,
    {
        let p = ps[i];
        assert(p < all.len() && all[p as int] == files@[p as int]@);
        assert(ps@.take(i + 1).drop_last() == ps@.take(i as int));
        assert(ps@.take(i + 1).last() == p);
        let parts = parts_of_file(&files[p], base);
        assert(parts@.len() == parts_below(all[p as int], base@).len());
        if k < parts.len() {
            let ghost before = group::keyed(r@);
            let name = parts[k].clone();
            assert(name@ == parts_below(all[p as int], base@)[k as int]);
            let ghost model = (name@, p);
            r.push((name, p));
            assert(group::keyed(r@) == before.push(model));
        }
        i += 1;
    }
    assert(ps@.take(ps@.len() as int) == ps@);
    r
}

/// Positions with the extensions of their files.
fn keyed_by_ext(files: &Vec<SourceFile>, base: &FilePath, ps: &Vec<usize>) -> (r: Vec<
    (String, usize),
>)
    requires
        all_below(scan::models(files@), base@, ps@),
    ensures
        group::keyed(r@) == with_exts(scan::models(files@), base@, ps@),
{
    let ghost all = scan::models(files@);
    let ghost expected = with_exts(all, base@, ps@);
    let mut r: Vec<(String, usize)> = Vec::new();
    let mut i: usize = 0;
    assert(group::keyed(r@) == expected.take(0));
    while i < ps.len()
        invariant
            all == scan::models(files@),
            expected == with_exts(all, base@, ps@),
            all_below(all, base@, ps@),
            i <= ps@.len(),
            group::keyed(r@) == expected.take(i as int),
        decreases ps@.len() - i,
    {
        let p = ps[i];
        assert(p < all.len() && all[p as int] == files@[p as int]@);
        let ghost before = group::keyed(r@);
        let ext = ext_of_file(&files[p], base);
        let ghost model = (ext@, p);
        r.push((ext, p));
        assert(group::keyed(r@) == before.push(model));
        assert(expected.take(i + 1) == before.push(model));
        i += 1;
    }
    assert(expected.take(expected.len() as int) == expected);
    r
}

/// The positions in a group of positions below a folder are below it.
proof fn lemma_group_below(
    files: Seq<scan::SourceModel>,
    base: Seq<char>,
    items: Seq<(Seq<char>, usize)>,
    key: Seq<char>,
)
    requires
        all_below(files, base, group::values_of(items)),
    ensures
        all_below(files, base, group::values_for(items, key)),
{
    let holds = |p: usize| p < files.len() && is_below(files[p as int], base);
    assert forall|i: int| 0 <= i < items.len() implies holds((#[trigger] items[i]).1) by {
        assert(group::values_of(items)[i] == items[i].1);
    }
    group::group_holds_nothing_new(items, key, holds);
    let v = group::values_for(items, key);
    assert forall|i: int| 0 <= i < v.len() implies (#[trigger] v[i]) < files.len() && is_below(
        files[v[i] as int],
        base,
    ) by {
        assert(holds(v[i]));
    }
}

proof fn lemma_with_parts_below(
    files: Seq<scan::SourceModel>,
    base: Seq<char>,
    ps: Seq<usize>,
    k: int,
)
    requires
        all_below(files, base, ps),
    ensures
        all_below(files, base, group::values_of(with_parts(files, base, ps, k))),
    decreases ps.len(),
{
    if ps.len() > 0 {
        let front = ps.drop_last();
        assert forall|i: int| 0 <= i < front.len() implies (#[trigger] front[i]) < files.len()
            && is_below(files[front[i] as int], base) by {
            assert(front[i] == ps[i]);
        }
        lemma_with_parts_below(files, base, front, k);
        assert(ps[ps.len() - 1] == ps.last());
        let some = group::values_of(with_parts(files, base, front, k));
        let all = group::values_of(with_parts(files, base, ps, k));
        assert forall|i: int| 0 <= i < all.len() implies (#[trigger] all[i]) < files.len()
            && is_below(files[all[i] as int], base) by {
            if i < some.len() {
                assert(all[i] == some[i]);
            }
        }
    }
}

/// What holds of each group that is made of the `k`-th components.
proof fn lemma_part_group(
    files: Seq<scan::SourceModel>,
    base: Seq<char>,
    ps: Seq<usize>,
    k: int,
    key: Seq<char>,
)
    requires
        all_below(files, base, ps),
        files.len() <= usize::MAX,
    ensures
        all_below(files, base, group::values_for(with_parts(files, base, ps, k), key)),
        in_range(group::values_for(with_parts(files, base, ps, k), key), files.len() as int),
        bytes_at(files, group::values_for(with_parts(files, base, ps, k), key)) <= bytes_at(
            files,
            ps,
        ),
{
    assert(in_range(ps, files.len() as int));
    lemma_with_parts(files, base, ps, k, files.len() as int);
    lemma_with_parts_below(files, base, ps, k);
    lemma_group_below(files, base, with_parts(files, base, ps, k), key);
    lemma_group_of_positions(files, with_parts(files, base, ps, k), key, files.len() as int);
}

/// What holds of each group that is made of the extensions.
proof fn lemma_ext_group(
    files: Seq<scan::SourceModel>,
    base: Seq<char>,
    ps: Seq<usize>,
    key: Seq<char>,
)
    requires
        all_below(files, base, ps),
        files.len() <= usize::MAX,
    ensures
        in_range(group::values_for(with_exts(files, base, ps), key), files.len() as int),
        bytes_at(files, group::values_for(with_exts(files, base, ps), key)) <= bytes_at(files, ps),
        group::values_for(with_exts(files, base, ps), key).len() <= ps.len(),
{
    let items = with_exts(files, base, ps);
    assert(group::values_of(items) == ps);
    assert forall|i: int| 0 <= i < items.len() implies (#[trigger] items[i]).1 < files.len() by {
        assert(ps[i] < files.len());
    }
    lemma_group_of_positions(files, items, key, files.len() as int);
    lemma_group_len(items, key);
}

proof fn lemma_group_len(items: Seq<(Seq<char>, usize)>, key: Seq<char>)
    ensures
        group::values_for(items, key).len() <= items.len(),
    decreases items.len(),
{
    if items.len() > 0 {
        lemma_group_len(items.drop_last(), key);
    }
}

/// The extension breakdown of the files at some positions.
fn ext_breakdown(files: &Vec<SourceFile>, base: &FilePath, ps: &Vec<usize>) -> (r: Vec<ExtStat>)
    requires
        all_below(scan::models(files@), base@, ps@),
        bytes_at(scan::models(files@), ps@) <= u64::MAX,
    ensures
        ext_models(r@) == breakdown(scan::models(files@), base@, ps@),
{
    let ghost all = scan::models(files@);
    let n = files.len();
    let count = ps.len();
    let groups = group(keyed_by_ext(files, base, ps));
    let ghost made = group::grouped(with_exts(all, base@, ps@));
    let ghost expected = ext_totals(all, base@, ps@);
    let mut stats: Vec<ExtStat> = Vec::new();
    let mut sizes: Vec<u64> = Vec::new();
    let mut i: usize = 0;
    assert(ext_models(stats@) == expected.take(0));
    assert(sizes@ == ext_sizes(expected).take(0));
    while i < groups.len()
        invariant
            n == files@.len(),
            count == ps@.len(),
            all == scan::models(files@),
            all_below(all, base@, ps@),
            bytes_at(all, ps@) <= u64::MAX,
            made == group::grouped(with_exts(all, base@, ps@)),
            made == group::group_models(groups@),
            expected == ext_totals(all, base@, ps@),
            i <= groups@.len(),
            ext_models(stats@) == expected.take(i as int),
            sizes@ == ext_sizes(expected).take(i as int),
        decreases groups@.len() - i,
    {
        proof {
            assert(made[i as int] == (groups@[i as int].key@, groups@[i as int].items@));
            lemma_ext_group(all, base@, ps@, groups@[i as int].key@);
        }
        let ghost before = ext_models(stats@);
        let bytes = sum_at(files, &groups[i].items);
        let stat = ExtStat {
            ext: groups[i].key.clone(),
            bytes,
            files: groups[i].items.len() as u64,
        };
        assert(stat@ == expected[i as int]);
        let ghost model = stat@;
        stats.push(stat);
        sizes.push(bytes);
        i += 1;
        assert(ext_models(stats@) == before.push(model));
        assert(expected.take(i as int) == before.push(model));
        assert(ext_sizes(expected).take(i as int) == ext_sizes(expected).take(i - 1).push(bytes));
    }
    assert(expected.take(expected.len() as int) == expected);
    assert(ext_sizes(expected).take(expected.len() as int) == ext_sizes(expected));
    let ghost listed = stats@;
    let r = largest_first(stats, sizes, MAX_EXTS);
    assert(ext_models(r@) == largest(
        ext_models(listed),
        ext_sizes(expected),
        MAX_EXTS as nat,
    ));
    r
}

/// The category with the most bytes; of several, the last.
fn dominant_category(a: u64, b: u64, c: u64, d: u64) -> (r: u8)
    ensures
        r == dominant(a as int, b as int, c as int, d as int),
{
    if d >= a && d >= b && d >= c {
        3
    } else if c >= a && c >= b {
        2
    } else if b >= a {
        1
    } else {
        0
    }
}

/// The nested children of a folder, in the order in which they are met, and
/// their sizes.
fn nested_children(files: &Vec<SourceFile>, base: &FilePath, ps: &Vec<usize>) -> (r: (
    Vec<Child>,
    Vec<u64>,
))
    requires
        all_below(scan::models(files@), base@, ps@),
        bytes_at(scan::models(files@), ps@) <= u64::MAX,
    ensures
        child_models(r.0@) == nested(scan::models(files@), base@, ps@),
        r.1@ == child_sizes(nested(scan::models(files@), base@, ps@)),
{
    let ghost all = scan::models(files@);
    let n = files.len();
    let groups = group(keyed_by_part(files, base, ps, 1));
    let ghost made = group::grouped(with_parts(all, base@, ps@, 1));
    let ghost expected = nested(all, base@, ps@);
    let mut children: Vec<Child> = Vec::new();
    let mut sizes: Vec<u64> = Vec::new();
    let mut i: usize = 0;
    assert(child_models(children@) == expected.take(0));
    assert(sizes@ == child_sizes(expected).take(0));
    while i < groups.len()
        invariant
            n == files@.len(),
            all == scan::models(files@),
            all_below(all, base@, ps@),
            bytes_at(all, ps@) <= u64::MAX,
            made == group::grouped(with_parts(all, base@, ps@, 1)),
            made == group::group_models(groups@),
            expected == nested(all, base@, ps@),
            i <= groups@.len(),
            child_models(children@) == expected.take(i as int),
            sizes@ == child_sizes(expected).take(i as int),
        decreases groups@.len() - i,
    {
        proof {
            assert(made[i as int] == (groups@[i as int].key@, groups@[i as int].items@));
            lemma_part_group(all, base@, ps@, 1, groups@[i as int].key@);
        }
        let ghost before = child_models(children@);
        let inside = &groups[i].items;
        let size = sum_at(files, inside);
        let cat = dominant_category(
            sum_in(files, base, inside, 0),
            sum_in(files, base, inside, 1),
            sum_in(files, base, inside, 2),
            sum_in(files, base, inside, 3),
        );
        let child = Child { name: groups[i].key.clone(), size, cat };
        assert(child@ == expected[i as int]);
        let ghost model = child@;
        children.push(child);
        sizes.push(size);
        i += 1;
        assert(child_models(children@) == before.push(model));
        assert(expected.take(i as int) == before.push(model));
        assert(child_sizes(expected).take(i as int) == child_sizes(expected).take(i - 1).push(
            size,
        ));
    }
    assert(expected.take(expected.len() as int) == expected);
    assert(child_sizes(expected).take(expected.len() as int) == child_sizes(expected));
    (children, sizes)
}

/// The last file among some positions that is itself the child of the folder.
fn find_leaf(files: &Vec<SourceFile>, base: &FilePath, ps: &Vec<usize>) -> (r: Option<usize>)
    requires
        all_below(scan::models(files@), base@, ps@),
    ensures
        r == last_leaf(scan::models(files@), base@, ps@),
        r matches Some(p) ==> p < files@.len() && is_below(files@[p as int]@, base@),
{
    let ghost all = scan::models(files@);
    let mut i: usize = ps.len();
    assert(ps@.take(ps@.len() as int) == ps@);
    while i > 0
        invariant
            all == scan::models(files@),
            all_below(all, base@, ps@),
            i <= ps@.len(),
            last_leaf(all, base@, ps@) == last_leaf(all, base@, ps@.take(i as int)),
        decreases i,
    {
        let p = ps[i - 1];
        assert(p < all.len() && all[p as int] == files@[p as int]@);
        assert(ps@.take(i as int).last() == p);
        assert(ps@.take(i as int).drop_last() == ps@.take(i - 1));
        let parts = parts_of_file(&files[p], base);
        assert(parts@.len() == parts_below(all[p as int], base@).len());
        if parts.len() <= 1 {
            return Some(p);
        }
        i -= 1;
    }
    None
}

/// One immediate child of a folder, from the positions of the files in it.
fn build_entry(files: &Vec<SourceFile>, base: &FilePath, name: &String, ps: &Vec<usize>) -> (r:
    DirEntry)
    requires
        all_below(scan::models(files@), base@, ps@),
        bytes_at(scan::models(files@), ps@) <= u64::MAX,
    ensures
        r@ == entry_of(scan::models(files@), base@, name@, ps@),
{
    let ghost all = scan::models(files@);
    assert(in_range(ps@, files@.len() as int));
    let ghost inner = nested(all, base@, ps@);
    let (children, sizes) = nested_children(files, base, ps);
    let is_dir = children.len() > 0;
    assert(child_models(children@).len() == children@.len());
    let ghost listed = children@;
    let children = largest_first(children, sizes, MAX_CHILDREN);
    assert(child_models(children@) == largest(
        child_models(listed),
        child_sizes(inner),
        MAX_CHILDREN as nat,
    ));
    let mut ext = String::new();
    let mut mtime_ms: i64 = 0;
    assert(ext@ == Seq::<char>::empty());
    if let Some(p) = find_leaf(files, base, ps) {
        assert(all[p as int] == files@[p as int]@);
        ext = ext_of_file(&files[p], base);
        mtime_ms = to_millis(files[p].mtime_ns);
    }
    DirEntry {
        name: name.clone(),
        path: base.join(&FilePath { text: name.clone() }).text,
        size: sum_at(files, ps),
        is_dir,
        ext,
        mtime_ms,
        children,
    }
}

/// Lists a folder from the files that a scan found: its immediate children
/// with sizes, each folder's nested children (for labeled mini-treemaps), and
/// the extension breakdown for the whole subtree. Files that are not below the
/// folder do not count.
pub fn scan_dir(files: &Vec<SourceFile>, base: &FilePath) -> (r: DirListing)
    requires
        run::size_sum(scan::models(files@)) <= u64::MAX,
    ensures
        r@ == folder_listing(scan::models(files@), base@),
{
    let ghost all = scan::models(files@);
    let n = files.len();
    let ps = files_below(files, base);
    assert(in_range(ps@, files@.len() as int));
    let groups = group(keyed_by_part(files, base, &ps, 0));
    let ghost made = group::grouped(with_parts(all, base@, ps@, 0));
    let ghost expected = children_of(all, base@, ps@);
    let mut entries: Vec<DirEntry> = Vec::new();
    let mut sizes: Vec<u64> = Vec::new();
    let mut i: usize = 0;
    assert(dir_models(entries@) == expected.take(0));
    assert(sizes@ == dir_sizes(expected).take(0));
    while i < groups.len()
        invariant
            n == files@.len(),
            all == scan::models(files@),
            all_below(all, base@, ps@),
            bytes_at(all, ps@) <= u64::MAX,
            made == group::grouped(with_parts(all, base@, ps@, 0)),
            made == group::group_models(groups@),
            expected == children_of(all, base@, ps@),
            i <= groups@.len(),
            dir_models(entries@) == expected.take(i as int),
            sizes@ == dir_sizes(expected).take(i as int),
        decreases groups@.len() - i,
    {
        proof {
            assert(made[i as int] == (groups@[i as int].key@, groups@[i as int].items@));
            lemma_part_group(all, base@, ps@, 0, groups@[i as int].key@);
        }
        let ghost before = dir_models(entries@);
        let entry = build_entry(files, base, &groups[i].key, &groups[i].items);
        assert(entry@ == expected[i as int]);
        let ghost model = entry@;
        let size = entry.size;
        entries.push(entry);
        sizes.push(size);
        i += 1;
        assert(dir_models(entries@) == before.push(model));
        assert(expected.take(i as int) == before.push(model));
        assert(dir_sizes(expected).take(i as int) == dir_sizes(expected).take(i - 1).push(size));
    }
    assert(expected.take(expected.len() as int) == expected);
    assert(dir_sizes(expected).take(expected.len() as int) == dir_sizes(expected));
    let ghost listed = entries@;
    assert(dir_models(listed).len() == listed.len());
    let count = entries.len();
    let entries = largest_first(entries, sizes, count);
    assert(dir_models(entries@) == largest(
        dir_models(listed),
        dir_sizes(expected),
        expected.len(),
    ));
    DirListing {
        path: base.text.clone(),
        total: sum_at(files, &ps),
        entries,
        exts: ext_breakdown(files, base, &ps),
    }
}

/// Flattens a folder: every file underneath it as one list (no folders), each
/// labeled by its path relative to the folder. Largest first, capped for
/// rendering.
pub fn scan_flat(files: &Vec<SourceFile>, base: &FilePath) -> (r: DirListing)
    requires
        run::size_sum(scan::models(files@)) <= u64::MAX,
    ensures
        r@ == flat_listing(scan::models(files@), base@),
{
    let ghost all = scan::models(files@);
    let ps = files_below(files, base);
    assert(in_range(ps@, files@.len() as int));
    let ghost expected = flat_entries(all, base@, ps@);
    let mut entries: Vec<DirEntry> = Vec::new();
    let mut sizes: Vec<u64> = Vec::new();
    let mut i: usize = 0;
    proof {
        reveal_strlit("/");
        assert("/"@ == path::slash());
        assert(dir_models(entries@) == expected.take(0));
        assert(sizes@ == dir_sizes(expected).take(0));
    }
    while i < ps.len()
        invariant
            "/"@ == path::slash(),
            all == scan::models(files@),
            all_below(all, base@, ps@),
            expected == flat_entries(all, base@, ps@),
            i <= ps@.len(),
            dir_models(entries@) == expected.take(i as int),
            sizes@ == dir_sizes(expected).take(i as int),
        decreases ps@.len() - i,
    {
        let p = ps[i];
        assert(p < all.len() && all[p as int] == files@[p as int]@);
        let f = &files[p];
        let ghost before = dir_models(entries@);
        let children: Vec<Child> = Vec::new();
        assert(child_models(children@) == Seq::<ChildModel>::empty());
        let entry = DirEntry {
            name: join_text(&parts_of_file(f, base), "/"),
            path: f.abs.text.clone(),
            size: f.size,
            is_dir: false,
            ext: ext_of_file(f, base),
            mtime_ms: to_millis(f.mtime_ns),
            children,
        };
        assert(entry@ == expected[i as int]);
        let ghost model = entry@;
        entries.push(entry);
        sizes.push(f.size);
        i += 1;
        assert(dir_models(entries@) == before.push(model));
        assert(expected.take(i as int) == before.push(model));
        assert(dir_sizes(expected).take(i as int) == dir_sizes(expected).take(i - 1).push(f.size));
    }
    assert(expected.take(expected.len() as int) == expected);
    assert(dir_sizes(expected).take(expected.len() as int) == dir_sizes(expected));
    let ghost listed = entries@;
    assert(dir_models(listed).len() == listed.len());
    let entries = largest_first(entries, sizes, MAX_FLAT);
    assert(dir_models(entries@) == largest(
        dir_models(listed),
        dir_sizes(expected),
        MAX_FLAT as nat,
    ));
    DirListing {
        path: base.text.clone(),
        total: sum_at(files, &ps),
        entries,
        exts: ext_breakdown(files, base, &ps),
    }
}

/// Files + bytes that a transfer would take from one source, after all filters
/// and exclusions.
#[derive(Debug, Clone, Copy)]
pub struct SizeInfo {
    pub files: u64,
    pub bytes: u64,
}

/// The files and bytes that a transfer would take, after all filters and
/// exclusions. `owners` holds the account that owns each file, where it is
/// known.
pub fn transfer_size(wanted: &Filter, files: &Vec<SourceFile>, owners: &Vec<Option<String>>) -> (r:
    SizeInfo)
    requires
        owners@.len() == files@.len(),
        run::size_sum(scan::models(files@)) <= u64::MAX,
    ensures
        ({
            let kept = run::selected(
                scan::models(files@),
                run::owner_texts(owners@),
                wanted@,
                None,
                Seq::empty(),
                0,
            );
            r.files == kept.len() && r.bytes == run::size_sum(kept)
        }),
{
    let ghost all = scan::models(files@);
    let ghost who = run::owner_texts(owners@);
    let mut count: u64 = 0;
    let mut bytes: u64 = 0;
    let mut i: usize = 0;
    assert(run::selected(all.take(0), who, wanted@, None, Seq::empty(), 0).len() == 0);
    while i < files.len()
        invariant
            all == scan::models(files@),
            who == run::owner_texts(owners@),
            owners@.len() == files@.len(),
            run::size_sum(all) <= u64::MAX,
            i <= files@.len(),
            count <= i,
            count == run::selected(
                all.take(i as int),
                who,
                wanted@,
                None,
                Seq::empty(),
                0,
            ).len(),
            bytes == run::size_sum(
                run::selected(all.take(i as int), who, wanted@, None, Seq::empty(), 0),
            ),
            bytes <= run::size_sum(all.take(i as int)),
        decreases files@.len() - i,
    {
        proof {
            assert(all.take(i + 1).drop_last() == all.take(i as int));
            assert(all.take(i + 1).last() == files@[i as int]@);
            assert(who[i as int] == text::opt_text(owners@[i as int]));
            run::part_is_no_larger(all, i + 1);
        }
        let ghost so_far = run::selected(all.take(i as int), who, wanted@, None, Seq::empty(), 0);
        if wanted.accepts(&files[i]) && wanted.accepts_owner(&owners[i]) {
            count += 1;
            bytes = bytes + files[i].size;
            assert(so_far.push(files@[i as int]@).drop_last() == so_far);
        }
        i += 1;
    }
    assert(all.take(all.len() as int) == all);
    SizeInfo { files: count, bytes }
}

// ---------------------------------------------------------------------------
// Laws
// ---------------------------------------------------------------------------

/// The sizes of entries, added up.
pub open spec fn entry_bytes(v: Seq<DirModel>) -> nat
    decreases v.len(),
{
    if v.len() == 0 {
        0
    } else {
        entry_bytes(v.drop_last()) + v.last().size as nat
    }
}

/// The files below a folder that have a component of their own, that is all
/// but the folder itself if it is a file.
pub open spec fn inside(files: Seq<scan::SourceModel>, base: Seq<char>, ps: Seq<usize>) -> Seq<
    usize,
> {
    group::values_of(with_parts(files, base, ps, 0))
}

proof fn lemma_entries_weigh(
    files: Seq<scan::SourceModel>,
    base: Seq<char>,
    items: Seq<(Seq<char>, usize)>,
    keys: Seq<Seq<char>>,
)
    requires
        bytes_at(files, group::values_of(items)) <= u64::MAX,
    ensures
        entry_bytes(
            Seq::new(
                keys.len(),
                |i: int| entry_of(files, base, keys[i], group::values_for(items, keys[i])),
            ),
        ) == group::weigh_groups(keys, items, size_at(files)),
    decreases keys.len(),
{
    if keys.len() > 0 {
        let front = keys.drop_last();
        lemma_entries_weigh(files, base, items, front);
        let all = Seq::new(
            keys.len(),
            |i: int| entry_of(files, base, keys[i], group::values_for(items, keys[i])),
        );
        let some = Seq::new(
            front.len(),
            |i: int| entry_of(files, base, front[i], group::values_for(items, front[i])),
        );
        assert(all.drop_last() == some);
        group::group_weighs_no_more(items, keys.last(), size_at(files));
    }
}

/// The sizes of the immediate children of a folder add up to the bytes of the
/// files inside it.
pub proof fn children_add_up(files: Seq<scan::SourceModel>, base: Seq<char>)
    requires
        files.len() <= usize::MAX,
        run::size_sum(files) <= u64::MAX,
    ensures
        ({
            let ps = below(files, base, files.len() as int);
            entry_bytes(children_of(files, base, ps)) == bytes_at(files, inside(files, base, ps))
        }),
{
    let ps = below(files, base, files.len() as int);
    files_below_are_files(files, base, files.len() as int);
    assert(files.take(files.len() as int) == files);
    let items = with_parts(files, base, ps, 0);
    lemma_with_parts(files, base, ps, 0, files.len() as int);
    let keys = group::firsts(group::keys_of(items));
    lemma_entries_weigh(files, base, items, keys);
    assert(children_of(files, base, ps) == Seq::new(
        keys.len(),
        |i: int| entry_of(files, base, keys[i], group::values_for(items, keys[i])),
    ));
    group::groups_weigh_what_items_weigh(items, size_at(files));
}

/// A listing stands largest first: the children of a folder, the files of a
/// flat view, and the extensions.
pub proof fn listings_stand_largest_first(files: Seq<scan::SourceModel>, base: Seq<char>)
    ensures
        falls(dir_sizes(folder_listing(files, base).entries)),
        falls(dir_sizes(flat_listing(files, base).entries)),
        falls(ext_sizes(folder_listing(files, base).exts)),
{
    let ps = below(files, base, files.len() as int);
    let a = children_of(files, base, ps);
    let b = flat_entries(files, base, ps);
    let c = ext_totals(files, base, ps);
    sort::arranged_sizes_fall(dir_sizes(a), a.len());
    sort::arranged_sizes_fall(dir_sizes(b), MAX_FLAT as nat);
    sort::arranged_sizes_fall(ext_sizes(c), MAX_EXTS as nat);
    sort::ranking_has_an_order(sort::larger_first(dir_sizes(a)), a.len() as int);
    sort::ranking_has_an_order(sort::larger_first(dir_sizes(b)), b.len() as int);
    sort::ranking_has_an_order(sort::larger_first(ext_sizes(c)), c.len() as int);
    assert(dir_sizes(largest(a, dir_sizes(a), a.len())) == largest(
        dir_sizes(a),
        dir_sizes(a),
        a.len(),
    ));
    assert(dir_sizes(largest(b, dir_sizes(b), MAX_FLAT as nat)) == largest(
        dir_sizes(b),
        dir_sizes(b),
        MAX_FLAT as nat,
    ));
    assert(ext_sizes(largest(c, ext_sizes(c), MAX_EXTS as nat)) == largest(
        ext_sizes(c),
        ext_sizes(c),
        MAX_EXTS as nat,
    ));
}

/// Whether no size is followed by a larger one.
pub open spec fn falls(sizes: Seq<u64>) -> bool {
    forall|a: int, b: int| 0 <= a < b < sizes.len() ==> #[trigger] sizes[a] >= #[trigger] sizes[b]
}

/// The sizes of the files of which something holds, added up.
pub open spec fn bytes_where(
    files: Seq<scan::SourceModel>,
    holds: spec_fn(scan::SourceModel) -> bool,
) -> nat
    decreases files.len(),
{
    if files.len() == 0 {
        0
    } else if holds(files.last()) {
        bytes_where(files.drop_last(), holds) + files.last().size as nat
    } else {
        bytes_where(files.drop_last(), holds)
    }
}

/// The number of files of which something holds.
pub open spec fn count_where(
    files: Seq<scan::SourceModel>,
    holds: spec_fn(scan::SourceModel) -> bool,
) -> nat
    decreases files.len(),
{
    if files.len() == 0 {
        0
    } else if holds(files.last()) {
        count_where(files.drop_last(), holds) + 1
    } else {
        count_where(files.drop_last(), holds)
    }
}

/// Whether a file is at or below a folder.
pub open spec fn under(base: Seq<char>) -> spec_fn(scan::SourceModel) -> bool {
    |f: scan::SourceModel| path::path_starts_with(f.abs, base)
}

/// Whether a file is below a folder and the first name behind it is this one,
/// at whatever depth the file is.
pub open spec fn under_child(base: Seq<char>, name: Seq<char>) -> spec_fn(
    scan::SourceModel,
) -> bool {
    |f: scan::SourceModel|
        {
            let k = path::components(base).len();
            &&& path::path_starts_with(f.abs, base)
            &&& path::components(f.abs).len() > k
            &&& path::components(f.abs)[k as int] == name
        }
}

/// Whether a file is below a folder and the first two names behind it are
/// these, at whatever depth the file is.
pub open spec fn under_grandchild(base: Seq<char>, name: Seq<char>, child: Seq<char>) -> spec_fn(
    scan::SourceModel,
) -> bool {
    |f: scan::SourceModel|
        {
            let k = path::components(base).len();
            &&& path::path_starts_with(f.abs, base)
            &&& path::components(f.abs).len() > k + 1
            &&& path::components(f.abs)[k as int] == name
            &&& path::components(f.abs)[k as int + 1] == child
        }
}

/// Whether a file is at or below a folder and has this extension.
pub open spec fn under_with_ext(base: Seq<char>, ext: Seq<char>) -> spec_fn(
    scan::SourceModel,
) -> bool {
    |f: scan::SourceModel| path::path_starts_with(f.abs, base) && ext_below(f, base) == ext
}

/// The positions below `n` of the files of which something holds.
spec fn picked(
    files: Seq<scan::SourceModel>,
    holds: spec_fn(scan::SourceModel) -> bool,
    n: int,
) -> Seq<usize>
    decreases n,
{
    if n <= 0 {
        Seq::<usize>::empty()
    } else if holds(files[n - 1]) {
        picked(files, holds, n - 1).push((n - 1) as usize)
    } else {
        picked(files, holds, n - 1)
    }
}

/// Whether something else holds too.
spec fn both(
    p: spec_fn(scan::SourceModel) -> bool,
    q: spec_fn(scan::SourceModel) -> bool,
) -> spec_fn(scan::SourceModel) -> bool {
    |f: scan::SourceModel| p(f) && q(f)
}

/// Whether the `k`-th component of a file, as seen from a folder, is this one.
spec fn part_is(base: Seq<char>, k: int, key: Seq<char>) -> spec_fn(scan::SourceModel) -> bool {
    |f: scan::SourceModel| k < parts_below(f, base).len() && parts_below(f, base)[k] == key
}

/// Whether the extension of a file, as seen from a folder, is this one.
spec fn ext_is(base: Seq<char>, key: Seq<char>) -> spec_fn(scan::SourceModel) -> bool {
    |f: scan::SourceModel| ext_below(f, base) == key
}

/// Whether a file is of a category.
spec fn cat_is(base: Seq<char>, cat: int) -> spec_fn(scan::SourceModel) -> bool {
    |f: scan::SourceModel| category_of(ext_below(f, base)) == cat
}

proof fn lemma_below_is_picked(files: Seq<scan::SourceModel>, base: Seq<char>, n: int)
    requires
        0 <= n <= files.len(),
    ensures
        below(files, base, n) == picked(files, under(base), n),
    decreases n,
{
    if n > 0 {
        lemma_below_is_picked(files, base, n - 1);
    }
}

proof fn lemma_pick_part(
    files: Seq<scan::SourceModel>,
    base: Seq<char>,
    holds: spec_fn(scan::SourceModel) -> bool,
    k: int,
    key: Seq<char>,
    n: int,
)
    requires
        0 <= n <= files.len() <= usize::MAX,
    ensures
        group::values_for(with_parts(files, base, picked(files, holds, n), k), key) == picked(
            files,
            both(holds, part_is(base, k, key)),
            n,
        ),
    decreases n,
{
    if n > 0 {
        lemma_pick_part(files, base, holds, k, key, n - 1);
        let ps = picked(files, holds, n - 1);
        let p = (n - 1) as usize;
        if holds(files[n - 1]) {
            assert(ps.push(p).drop_last() == ps);
            assert(ps.push(p).last() == p);
            let before = with_parts(files, base, ps, k);
            let parts = parts_below(files[n - 1], base);
            if k < parts.len() {
                group::items_join_their_groups(before, (parts[k], p), key);
            }
        }
    } else {
        group::items_join_their_groups(
            Seq::<(Seq<char>, usize)>::empty(),
            (key, 0usize),
            key,
        );
    }
}

proof fn lemma_pick_ext(
    files: Seq<scan::SourceModel>,
    base: Seq<char>,
    holds: spec_fn(scan::SourceModel) -> bool,
    key: Seq<char>,
    n: int,
)
    requires
        0 <= n <= files.len() <= usize::MAX,
    ensures
        group::values_for(with_exts(files, base, picked(files, holds, n)), key) == picked(
            files,
            both(holds, ext_is(base, key)),
            n,
        ),
    decreases n,
{
    if n > 0 {
        lemma_pick_ext(files, base, holds, key, n - 1);
        let ps = picked(files, holds, n - 1);
        let p = (n - 1) as usize;
        if holds(files[n - 1]) {
            let before = with_exts(files, base, ps);
            let item = (ext_below(files[n - 1], base), p);
            assert(with_exts(files, base, ps.push(p)) == before.push(item));
            group::items_join_their_groups(before, item, key);
        }
    } else {
        assert(with_exts(files, base, Seq::empty()) == Seq::<(Seq<char>, usize)>::empty());
    }
}

proof fn lemma_picked_bytes(
    files: Seq<scan::SourceModel>,
    holds: spec_fn(scan::SourceModel) -> bool,
    n: int,
)
    requires
        0 <= n <= files.len() <= usize::MAX,
    ensures
        bytes_at(files, picked(files, holds, n)) == bytes_where(files.take(n), holds),
        picked(files, holds, n).len() == count_where(files.take(n), holds),
        bytes_where(files.take(n), holds) <= run::size_sum(files.take(n)),
    decreases n,
{
    if n > 0 {
        lemma_picked_bytes(files, holds, n - 1);
        assert(files.take(n).drop_last() == files.take(n - 1));
        assert(files.take(n).last() == files[n - 1]);
        group::weights_add_up(picked(files, holds, n - 1), (n - 1) as usize, size_at(files));
    } else {
        assert(files.take(0) == Seq::<scan::SourceModel>::empty());
    }
}

proof fn lemma_picked_in(
    files: Seq<scan::SourceModel>,
    base: Seq<char>,
    holds: spec_fn(scan::SourceModel) -> bool,
    cat: int,
    n: int,
)
    requires
        0 <= n <= files.len() <= usize::MAX,
    ensures
        group::weigh(picked(files, holds, n), size_in(files, base, cat)) == bytes_where(
            files.take(n),
            both(holds, cat_is(base, cat)),
        ),
    decreases n,
{
    if n > 0 {
        lemma_picked_in(files, base, holds, cat, n - 1);
        assert(files.take(n).drop_last() == files.take(n - 1));
        assert(files.take(n).last() == files[n - 1]);
        group::weights_add_up(
            picked(files, holds, n - 1),
            (n - 1) as usize,
            size_in(files, base, cat),
        );
    } else {
        assert(files.take(0) == Seq::<scan::SourceModel>::empty());
    }
}

proof fn lemma_picked_some(
    files: Seq<scan::SourceModel>,
    holds: spec_fn(scan::SourceModel) -> bool,
    n: int,
)
    requires
        0 <= n <= files.len(),
    ensures
        picked(files, holds, n).len() > 0 <==> exists|i: int|
            0 <= i < n && holds(#[trigger] files[i]),
    decreases n,
{
    if n > 0 {
        lemma_picked_some(files, holds, n - 1);
        if holds(files[n - 1]) {
            assert(picked(files, holds, n).len() > 0);
        }
    }
}

proof fn lemma_picked_alike(
    files: Seq<scan::SourceModel>,
    p: spec_fn(scan::SourceModel) -> bool,
    q: spec_fn(scan::SourceModel) -> bool,
    n: int,
)
    requires
        0 <= n <= files.len(),
        forall|f: scan::SourceModel| #[trigger] p(f) == q(f),
    ensures
        picked(files, p, n) == picked(files, q, n),
        bytes_where(files.take(n), p) == bytes_where(files.take(n), q),
        count_where(files.take(n), p) == count_where(files.take(n), q),
    decreases n,
{
    if n > 0 {
        lemma_picked_alike(files, p, q, n - 1);
        assert(p(files[n - 1]) == q(files[n - 1]));
        assert(files.take(n).drop_last() == files.take(n - 1));
        assert(files.take(n).last() == files[n - 1]);
    }
}

proof fn lemma_child_alike(base: Seq<char>, name: Seq<char>, child: Seq<char>, f: scan::SourceModel)
    ensures
        both(under(base), part_is(base, 0, name))(f) == under_child(base, name)(f),
        both(under_child(base, name), part_is(base, 1, child))(f) == under_grandchild(
            base,
            name,
            child,
        )(f),
        both(under(base), ext_is(base, child))(f) == under_with_ext(base, child)(f),
{
    let k = path::components(base).len() as int;
    let c = path::components(f.abs);
    if path::path_starts_with(f.abs, base) {
        assert(k <= c.len());
        let parts = parts_below(f, base);
        assert(parts.len() == c.len() - k);
        if parts.len() > 0 {
            assert(parts[0] == c[k]);
        }
        if parts.len() > 1 {
            assert(parts[1] == c[k + 1]);
        }
    }
}

/// The groups of the immediate children of a folder, and of the nested children
/// of one of them, are the files below them.
proof fn lemma_child_groups(
    files: Seq<scan::SourceModel>,
    base: Seq<char>,
    name: Seq<char>,
    child: Seq<char>,
)
    requires
        files.len() <= usize::MAX,
    ensures
        ({
            let n = files.len() as int;
            let ps = below(files, base, n);
            let inner = group::values_for(with_parts(files, base, ps, 0), name);
            &&& inner == picked(files, under_child(base, name), n)
            &&& group::values_for(with_parts(files, base, inner, 1), child) == picked(
                files,
                under_grandchild(base, name, child),
                n,
            )
            &&& group::values_for(with_exts(files, base, ps), child) == picked(
                files,
                under_with_ext(base, child),
                n,
            )
        }),
{
    let n = files.len() as int;
    lemma_below_is_picked(files, base, n);
    lemma_pick_part(files, base, under(base), 0, name, n);
    assert forall|f: scan::SourceModel| #[trigger]
        both(under(base), part_is(base, 0, name))(f) == under_child(base, name)(f) by {
        lemma_child_alike(base, name, child, f);
    }
    lemma_picked_alike(
        files,
        both(under(base), part_is(base, 0, name)),
        under_child(base, name),
        n,
    );
    lemma_pick_part(files, base, under_child(base, name), 1, child, n);
    assert forall|f: scan::SourceModel| #[trigger]
        both(under_child(base, name), part_is(base, 1, child))(f) == under_grandchild(
        base,
        name,
        child,
    )(f) by {
        lemma_child_alike(base, name, child, f);
    }
    lemma_picked_alike(
        files,
        both(under_child(base, name), part_is(base, 1, child)),
        under_grandchild(base, name, child),
        n,
    );
    lemma_pick_ext(files, base, under(base), child, n);
    assert forall|f: scan::SourceModel| #[trigger]
        both(under(base), ext_is(base, child))(f) == under_with_ext(base, child)(f) by {
        lemma_child_alike(base, name, child, f);
    }
    lemma_picked_alike(
        files,
        both(under(base), ext_is(base, child)),
        under_with_ext(base, child),
        n,
    );
}

/// The total of a listing is the bytes of all files at or below the folder, at
/// whatever depth.
pub proof fn totals_count_every_file_below(files: Seq<scan::SourceModel>, base: Seq<char>)
    requires
        files.len() <= usize::MAX,
        run::size_sum(files) <= u64::MAX,
    ensures
        folder_listing(files, base).total == bytes_where(files, under(base)),
        flat_listing(files, base).total == bytes_where(files, under(base)),
        folder_listing(files, base).path == base,
        flat_listing(files, base).path == base,
{
    let n = files.len() as int;
    lemma_below_is_picked(files, base, n);
    lemma_picked_bytes(files, under(base), n);
    assert(files.take(n) == files);
}

proof fn lemma_largest_lists<T>(items: Seq<T>, sizes: Seq<u64>, keep: nat)
    requires
        sizes.len() == items.len(),
    ensures
        ({
            let order = sort::sorted_order(sizes.len(), sort::larger_first(sizes));
            let r = largest(items, sizes, keep);
            &&& order.len() == items.len()
            &&& order.no_duplicates()
            &&& r.len() == if keep < items.len() {
                keep
            } else {
                items.len()
            }
            &&& forall|a: int|
                0 <= a < r.len() ==> 0 <= #[trigger] order[a] < items.len() && r[a]
                    == items[order[a]]
            &&& forall|i: int| 0 <= i < items.len() ==> #[trigger] order.contains(i)
            &&& forall|a: int, b: int|
                0 <= a < b < order.len() ==> sizes[#[trigger] order[a]] >= sizes[#[trigger] order[b]]
        }),
{
    let order = sort::sorted_order(sizes.len(), sort::larger_first(sizes));
    sort::sizes_are_sorted_stably(sizes, 0, 0);
    assert forall|a: int| 0 <= a < order.len() implies 0 <= #[trigger] order[a] < items.len() by {
        sort::sizes_are_sorted_stably(sizes, a, a);
    }
    assert forall|i: int| 0 <= i < items.len() implies #[trigger] order.contains(i) by {
        sort::sizes_are_sorted_stably(sizes, i, i);
    }
    assert forall|a: int, b: int| 0 <= a < b < order.len() implies sizes[#[trigger] order[a]]
        >= sizes[#[trigger] order[b]] && order[a] != order[b] by {
        sort::sizes_are_sorted_stably(sizes, a, b);
    }
    assert(order.no_duplicates());
}

proof fn lemma_child_names(files: Seq<scan::SourceModel>, base: Seq<char>, name: Seq<char>)
    requires
        files.len() <= usize::MAX,
    ensures
        ({
            let ps = below(files, base, files.len() as int);
            let keys = group::firsts(group::keys_of(with_parts(files, base, ps, 0)));
            &&& keys.no_duplicates()
            &&& keys.contains(name) <==> exists|i: int|
                0 <= i < files.len() && under_child(base, name)(#[trigger] files[i])
        }),
{
    let n = files.len() as int;
    let items = with_parts(files, base, below(files, base, n), 0);
    group::keys_stand_once(group::keys_of(items), name);
    group::only_keys_have_items(items, name);
    lemma_child_groups(files, base, name, name);
    lemma_picked_some(files, under_child(base, name), n);
}

/// Every child of a folder is listed, once, with all that is below it. The
/// first name behind the folder of every file strictly below it is that of
/// exactly one entry; an entry has the bytes of all files with that first name,
/// at whatever depth, and stands at that name in the folder.
pub proof fn every_child_is_listed_with_all_below_it(
    files: Seq<scan::SourceModel>,
    base: Seq<char>,
    name: Seq<char>,
)
    requires
        files.len() <= usize::MAX,
        run::size_sum(files) <= u64::MAX,
    ensures
        ({
            let entries = folder_listing(files, base).entries;
            &&& (exists|k: int| 0 <= k < entries.len() && (#[trigger] entries[k]).name == name)
                <==> (exists|i: int|
                0 <= i < files.len() && under_child(base, name)(#[trigger] files[i]))
            &&& forall|a: int, b: int|
                0 <= a < b < entries.len() ==> (#[trigger] entries[a]).name != (
                #[trigger] entries[b]).name
            &&& forall|k: int|
                0 <= k < entries.len() ==> (#[trigger] entries[k]).size == bytes_where(
                    files,
                    under_child(base, entries[k].name),
                ) && entries[k].path == path::path_join(base, entries[k].name)
        }),
{
    let n = files.len() as int;
    let ps = below(files, base, n);
    let items = with_parts(files, base, ps, 0);
    let keys = group::firsts(group::keys_of(items));
    let all = children_of(files, base, ps);
    let sizes = dir_sizes(all);
    let entries = folder_listing(files, base).entries;
    let order = sort::sorted_order(sizes.len(), sort::larger_first(sizes));
    lemma_largest_lists(all, sizes, all.len());
    lemma_child_names(files, base, name);
    assert(files.take(n) == files);
    assert forall|i: int| 0 <= i < all.len() implies (#[trigger] all[i]).name == keys[i]
        && all[i].size == bytes_where(files, under_child(base, keys[i])) && all[i].path
        == path::path_join(base, keys[i]) by {
        lemma_child_groups(files, base, keys[i], keys[i]);
        lemma_picked_bytes(files, under_child(base, keys[i]), n);
    }
    assert forall|a: int, b: int| 0 <= a < b < entries.len() implies (#[trigger] entries[a]).name
        != (#[trigger] entries[b]).name by {
        assert(entries[a] == all[order[a]]);
        assert(entries[b] == all[order[b]]);
        assert(order[a] != order[b]);
        assert(keys[order[a]] != keys[order[b]]);
    }
    assert forall|k: int| 0 <= k < entries.len() implies (#[trigger] entries[k]).size
        == bytes_where(files, under_child(base, entries[k].name)) && entries[k].path
        == path::path_join(base, entries[k].name) by {
        assert(entries[k] == all[order[k]]);
    }
    if exists|k: int| 0 <= k < entries.len() && (#[trigger] entries[k]).name == name {
        let k = choose|k: int| 0 <= k < entries.len() && (#[trigger] entries[k]).name == name;
        assert(entries[k] == all[order[k]]);
        assert(keys[order[k]] == name);
        assert(keys.contains(name));
    }
    if keys.contains(name) {
        let i = choose|i: int| 0 <= i < keys.len() && keys[i] == name;
        assert(order.contains(i));
        let k = choose|k: int| 0 <= k < order.len() && order[k] == i;
        assert(entries[k] == all[order[k]]);
        assert(entries[k].name == name);
    }
}

/// If the folder is not itself a file, the sizes of its entries add up to the
/// total.
pub proof fn entries_add_up_to_the_total(files: Seq<scan::SourceModel>, base: Seq<char>)
    requires
        files.len() <= usize::MAX,
        run::size_sum(files) <= u64::MAX,
        forall|i: int|
            0 <= i < files.len() ==> path::components((#[trigger] files[i]).abs)
                != path::components(base),
    ensures
        entry_bytes(folder_listing(files, base).entries) == folder_listing(files, base).total,
{
    let n = files.len() as int;
    let ps = below(files, base, n);
    let all = children_of(files, base, ps);
    children_add_up(files, base);
    totals_count_every_file_below(files, base);
    lemma_all_inside(files, base, n);
    let sizes = dir_sizes(all);
    let le = sort::larger_first(sizes);
    assert(sort::is_ranking(all.len() as int, le));
    sort::ranking_has_an_order(le, all.len() as int);
    sort::arranging_loses_nothing(all, le, sort::sorted_order(sizes.len(), le));
    lemma_entry_bytes_alike(all, folder_listing(files, base).entries);
    files_below_are_files(files, base, n);
    assert(files.take(n) == files);
}

proof fn lemma_entry_bytes_without(v: Seq<DirModel>, k: int)
    requires
        0 <= k < v.len(),
    ensures
        entry_bytes(v) == entry_bytes(v.remove(k)) + v[k].size,
    decreases v.len(),
{
    let front = v.drop_last();
    if k < front.len() {
        lemma_entry_bytes_without(front, k);
        assert(v.remove(k).drop_last() == front.remove(k));
        assert(v.remove(k).last() == v.last());
    } else {
        assert(v.remove(k) == front);
    }
}

proof fn lemma_entry_bytes_alike(a: Seq<DirModel>, b: Seq<DirModel>)
    requires
        a.to_multiset() == b.to_multiset(),
    ensures
        entry_bytes(a) == entry_bytes(b),
    decreases a.len(),
{
    a.to_multiset_ensures();
    b.to_multiset_ensures();
    if a.len() > 0 {
        let x = a.last();
        let last = a.len() - 1;
        assert(a[last] == x);
        assert(a.contains(x));
        assert(b.to_multiset().count(x) > 0);
        let k = choose|k: int| 0 <= k < b.len() && b[k] == x;
        assert(a.remove(last) == a.drop_last());
        lemma_entry_bytes_alike(a.drop_last(), b.remove(k));
        lemma_entry_bytes_without(b, k);
    }
}

proof fn lemma_all_inside(files: Seq<scan::SourceModel>, base: Seq<char>, n: int)
    requires
        0 <= n <= files.len() <= usize::MAX,
        forall|i: int|
            0 <= i < files.len() ==> path::components((#[trigger] files[i]).abs)
                != path::components(base),
    ensures
        inside(files, base, below(files, base, n)) == below(files, base, n),
    decreases n,
{
    if n > 0 {
        lemma_all_inside(files, base, n - 1);
        let before = below(files, base, n - 1);
        if is_below(files[n - 1], base) {
            let p = (n - 1) as usize;
            assert(before.push(p).drop_last() == before);
            let parts = parts_below(files[n - 1], base);
            let c = path::components(files[n - 1].abs);
            let b = path::components(base);
            assert(parts.len() > 0) by {
                if c.len() == b.len() {
                    assert(c == b);
                }
            }
            let items = with_parts(files, base, before, 0);
            assert(group::values_of(items.push((parts[0], p))) == group::values_of(items).push(p));
        }
    } else {
        assert(group::values_of(Seq::<(Seq<char>, usize)>::empty()) == Seq::<usize>::empty());
    }
}

proof fn lemma_entry_at(files: Seq<scan::SourceModel>, base: Seq<char>, k: int)
    requires
        files.len() <= usize::MAX,
        0 <= k < folder_listing(files, base).entries.len(),
    ensures
        ({
            let e = folder_listing(files, base).entries[k];
            let n = files.len() as int;
            e == entry_of(files, base, e.name, picked(files, under_child(base, e.name), n))
        }),
{
    let n = files.len() as int;
    let ps = below(files, base, n);
    let items = with_parts(files, base, ps, 0);
    let keys = group::firsts(group::keys_of(items));
    let all = children_of(files, base, ps);
    let sizes = dir_sizes(all);
    let order = sort::sorted_order(sizes.len(), sort::larger_first(sizes));
    lemma_largest_lists(all, sizes, all.len());
    let entries = folder_listing(files, base).entries;
    assert(entries[k] == all[order[k]]);
    let name = keys[order[k]];
    lemma_child_groups(files, base, name, name);
}

/// The nested children of an entry are the names behind it. Each that is listed
/// stands once and has the bytes of all files with both names, at whatever
/// depth; one that is not listed is no larger than any that is, and is left out
/// only because two dozen are. An entry is a folder exactly if there are files
/// behind its name.
pub proof fn nested_children_have_all_below_them(
    files: Seq<scan::SourceModel>,
    base: Seq<char>,
    k: int,
    child: Seq<char>,
)
    requires
        files.len() <= usize::MAX,
        run::size_sum(files) <= u64::MAX,
        0 <= k < folder_listing(files, base).entries.len(),
    ensures
        ({
            let e = folder_listing(files, base).entries[k];
            let there = exists|i: int|
                0 <= i < files.len() && under_grandchild(base, e.name, child)(#[trigger] files[i]);
            let listed = exists|a: int|
                0 <= a < e.children.len() && (#[trigger] e.children[a]).name == child;
            &&& e.children.len() <= 24
            &&& listed ==> there
            &&& there ==> e.is_dir
            &&& there && !listed ==> e.children.len() == 24 && forall|a: int|
                0 <= a < 24 ==> (#[trigger] e.children[a]).size >= bytes_where(
                    files,
                    under_grandchild(base, e.name, child),
                )
            &&& forall|a: int|
                0 <= a < e.children.len() ==> (#[trigger] e.children[a]).size == bytes_where(
                    files,
                    under_grandchild(base, e.name, e.children[a].name),
                )
            &&& forall|a: int, b: int|
                0 <= a < b < e.children.len() ==> (#[trigger] e.children[a]).name != (
                #[trigger] e.children[b]).name && e.children[a].size >= e.children[b].size
            &&& e.is_dir ==> exists|i: int|
                0 <= i < files.len() && under_child(base, e.name)(#[trigger] files[i])
                    && path::components(files[i].abs).len() > path::components(base).len() + 1
        }),
{
    let n = files.len() as int;
    let e = folder_listing(files, base).entries[k];
    lemma_entry_at(files, base, k);
    let ps = picked(files, under_child(base, e.name), n);
    let items = with_parts(files, base, ps, 1);
    let keys = group::firsts(group::keys_of(items));
    let inner = nested(files, base, ps);
    let sizes = child_sizes(inner);
    let order = sort::sorted_order(sizes.len(), sort::larger_first(sizes));
    lemma_largest_lists(inner, sizes, 24);
    assert(files.take(n) == files);
    assert forall|i: int| 0 <= i < inner.len() implies (#[trigger] inner[i]).name == keys[i]
        && inner[i].size == bytes_where(files, under_grandchild(base, e.name, keys[i])) by {
        lemma_child_groups(files, base, e.name, keys[i]);
        lemma_picked_bytes(files, under_grandchild(base, e.name, keys[i]), n);
    }
    group::keys_stand_once(group::keys_of(items), child);
    group::only_keys_have_items(items, child);
    lemma_child_groups(files, base, e.name, child);
    lemma_picked_some(files, under_grandchild(base, e.name, child), n);
    let there = exists|i: int|
        0 <= i < files.len() && under_grandchild(base, e.name, child)(#[trigger] files[i]);
    assert(keys.contains(child) <==> there);
    assert forall|a: int| 0 <= a < e.children.len() implies (#[trigger] e.children[a]).size
        == bytes_where(files, under_grandchild(base, e.name, e.children[a].name)) by {
        assert(e.children[a] == inner[order[a]]);
    }
    assert forall|a: int, b: int| 0 <= a < b < e.children.len() implies (
    #[trigger] e.children[a]).name != (#[trigger] e.children[b]).name && e.children[a].size
        >= e.children[b].size by {
        assert(e.children[a] == inner[order[a]]);
        assert(e.children[b] == inner[order[b]]);
        assert(order[a] != order[b]);
        assert(keys[order[a]] != keys[order[b]]);
        assert(sizes[order[a]] >= sizes[order[b]]);
    }
    if exists|a: int| 0 <= a < e.children.len() && (#[trigger] e.children[a]).name == child {
        let a = choose|a: int| 0 <= a < e.children.len() && (#[trigger] e.children[a]).name == child;
        assert(e.children[a] == inner[order[a]]);
        assert(keys[order[a]] == child);
        assert(keys.contains(child));
    } else if there {
        let i = choose|i: int| 0 <= i < keys.len() && keys[i] == child;
        assert(order.contains(i));
        let at = choose|at: int| 0 <= at < order.len() && order[at] == i;
        if at < e.children.len() {
            assert(e.children[at] == inner[order[at]]);
            assert(e.children[at].name == child);
        }
        assert forall|a: int| 0 <= a < 24 implies (#[trigger] e.children[a]).size >= bytes_where(
            files,
            under_grandchild(base, e.name, child),
        ) by {
            assert(e.children[a] == inner[order[a]]);
            assert(sizes[order[a]] >= sizes[order[at]]);
            assert(inner[order[at]].name == child);
        }
    }
    if e.is_dir {
        let first = keys[0];
        assert(keys.contains(first));
        group::keys_stand_once(group::keys_of(items), first);
        group::only_keys_have_items(items, first);
        lemma_child_groups(files, base, e.name, first);
        lemma_picked_some(files, under_grandchild(base, e.name, first), n);
        let i = choose|i: int|
            0 <= i < n && under_grandchild(base, e.name, first)(#[trigger] files[i]);
        assert(under_child(base, e.name)(files[i]));
    }
}

/// The category of a nested child is the one with the most bytes below it; of
/// several, the last.
pub proof fn nested_children_have_their_main_category(
    files: Seq<scan::SourceModel>,
    base: Seq<char>,
    k: int,
    a: int,
    cat: int,
)
    requires
        files.len() <= usize::MAX,
        run::size_sum(files) <= u64::MAX,
        0 <= k < folder_listing(files, base).entries.len(),
        0 <= a < folder_listing(files, base).entries[k].children.len(),
        0 <= cat <= 3,
    ensures
        ({
            let e = folder_listing(files, base).entries[k];
            let c = e.children[a];
            let of = |x: int|
                bytes_where(
                    files,
                    |f: scan::SourceModel|
                        under_grandchild(base, e.name, c.name)(f) && category_of(
                            ext_below(f, base),
                        ) == x,
                );
            &&& c.cat <= 3
            &&& of(cat) <= of(c.cat as int)
            &&& of(cat) == of(c.cat as int) ==> cat <= c.cat
        }),
{
    let n = files.len() as int;
    let e = folder_listing(files, base).entries[k];
    let c = e.children[a];
    lemma_entry_at(files, base, k);
    let ps = picked(files, under_child(base, e.name), n);
    let items = with_parts(files, base, ps, 1);
    let keys = group::firsts(group::keys_of(items));
    let inner = nested(files, base, ps);
    let sizes = child_sizes(inner);
    let order = sort::sorted_order(sizes.len(), sort::larger_first(sizes));
    lemma_largest_lists(inner, sizes, 24);
    assert(c == inner[order[a]]);
    assert(c.name == keys[order[a]]);
    assert(files.take(n) == files);
    lemma_child_groups(files, base, e.name, c.name);
    let q = under_grandchild(base, e.name, c.name);
    lemma_picked_in(files, base, q, 0, n);
    lemma_picked_in(files, base, q, 1, n);
    lemma_picked_in(files, base, q, 2, n);
    lemma_picked_in(files, base, q, 3, n);
    let of = |x: int|
        bytes_where(
            files,
            |f: scan::SourceModel|
                under_grandchild(base, e.name, c.name)(f) && category_of(ext_below(f, base)) == x,
        );
    assert forall|x: int| 0 <= x <= 3 implies #[trigger] of(x) == bytes_where(
        files,
        both(q, cat_is(base, x)),
    ) by {
        let p = |f: scan::SourceModel|
            under_grandchild(base, e.name, c.name)(f) && category_of(ext_below(f, base)) == x;
        lemma_picked_alike(files, p, both(q, cat_is(base, x)), n);
    }
    assert(of(0) == of(0) && of(1) == of(1) && of(2) == of(2) && of(3) == of(3));
    assert(of(cat) == of(cat));
}

/// The breakdown counts every file at or below the folder under its extension.
/// Each extension that is listed stands once, with the bytes and the number of
/// its files; one that is not listed is no larger than any that is, and is left
/// out only because fourteen are. A flat view has the same breakdown.
pub proof fn extensions_are_counted(files: Seq<scan::SourceModel>, base: Seq<char>, ext: Seq<char>)
    requires
        files.len() <= usize::MAX,
        run::size_sum(files) <= u64::MAX,
    ensures
        ({
            let exts = folder_listing(files, base).exts;
            let there = exists|i: int|
                0 <= i < files.len() && under_with_ext(base, ext)(#[trigger] files[i]);
            let listed = exists|a: int| 0 <= a < exts.len() && (#[trigger] exts[a]).ext == ext;
            &&& flat_listing(files, base).exts == exts
            &&& exts.len() <= 14
            &&& listed ==> there
            &&& there && !listed ==> exts.len() == 14 && forall|a: int|
                0 <= a < 14 ==> (#[trigger] exts[a]).bytes >= bytes_where(
                    files,
                    under_with_ext(base, ext),
                )
            &&& forall|a: int|
                0 <= a < exts.len() ==> (#[trigger] exts[a]).bytes == bytes_where(
                    files,
                    under_with_ext(base, exts[a].ext),
                ) && exts[a].files == count_where(files, under_with_ext(base, exts[a].ext))
            &&& forall|a: int, b: int|
                0 <= a < b < exts.len() ==> (#[trigger] exts[a]).ext != (#[trigger] exts[b]).ext
        }),
{
    let n = files.len() as int;
    let ps = below(files, base, n);
    let items = with_exts(files, base, ps);
    let keys = group::firsts(group::keys_of(items));
    let all = ext_totals(files, base, ps);
    let sizes = ext_sizes(all);
    let exts = folder_listing(files, base).exts;
    let order = sort::sorted_order(sizes.len(), sort::larger_first(sizes));
    lemma_largest_lists(all, sizes, 14);
    assert(files.take(n) == files);
    assert forall|i: int| 0 <= i < all.len() implies (#[trigger] all[i]).ext == keys[i]
        && all[i].bytes == bytes_where(files, under_with_ext(base, keys[i])) && all[i].files
        == count_where(files, under_with_ext(base, keys[i])) by {
        lemma_child_groups(files, base, keys[i], keys[i]);
        lemma_picked_bytes(files, under_with_ext(base, keys[i]), n);
        lemma_count_fits(files, under_with_ext(base, keys[i]));
    }
    group::keys_stand_once(group::keys_of(items), ext);
    group::only_keys_have_items(items, ext);
    lemma_child_groups(files, base, ext, ext);
    lemma_picked_some(files, under_with_ext(base, ext), n);
    let there = exists|i: int|
        0 <= i < files.len() && under_with_ext(base, ext)(#[trigger] files[i]);
    assert(keys.contains(ext) <==> there);
    assert forall|a: int| 0 <= a < exts.len() implies (#[trigger] exts[a]).bytes == bytes_where(
        files,
        under_with_ext(base, exts[a].ext),
    ) && exts[a].files == count_where(files, under_with_ext(base, exts[a].ext)) by {
        assert(exts[a] == all[order[a]]);
    }
    assert forall|a: int, b: int| 0 <= a < b < exts.len() implies (#[trigger] exts[a]).ext != (
    #[trigger] exts[b]).ext by {
        assert(exts[a] == all[order[a]]);
        assert(exts[b] == all[order[b]]);
        assert(order[a] != order[b]);
        assert(keys[order[a]] != keys[order[b]]);
    }
    if exists|a: int| 0 <= a < exts.len() && (#[trigger] exts[a]).ext == ext {
        let a = choose|a: int| 0 <= a < exts.len() && (#[trigger] exts[a]).ext == ext;
        assert(exts[a] == all[order[a]]);
        assert(keys[order[a]] == ext);
        assert(keys.contains(ext));
    } else if there {
        let i = choose|i: int| 0 <= i < keys.len() && keys[i] == ext;
        assert(order.contains(i));
        let at = choose|at: int| 0 <= at < order.len() && order[at] == i;
        if at < exts.len() {
            assert(exts[at] == all[order[at]]);
            assert(exts[at].ext == ext);
        }
        assert forall|a: int| 0 <= a < 14 implies (#[trigger] exts[a]).bytes >= bytes_where(
            files,
            under_with_ext(base, ext),
        ) by {
            assert(exts[a] == all[order[a]]);
            assert(sizes[order[a]] >= sizes[order[at]]);
            assert(all[order[at]].ext == ext);
        }
    }
}

proof fn lemma_count_fits(
    files: Seq<scan::SourceModel>,
    holds: spec_fn(scan::SourceModel) -> bool,
)
    ensures
        count_where(files, holds) <= files.len(),
    decreases files.len(),
{
    if files.len() > 0 {
        lemma_count_fits(files.drop_last(), holds);
    }
}

proof fn lemma_last_leaf(
    files: Seq<scan::SourceModel>,
    base: Seq<char>,
    holds: spec_fn(scan::SourceModel) -> bool,
    i: int,
    n: int,
)
    requires
        0 <= i < n <= files.len() <= usize::MAX,
        holds(files[i]),
        parts_below(files[i], base).len() <= 1,
        forall|j: int|
            i < j < n && holds(#[trigger] files[j]) ==> parts_below(files[j], base).len() > 1,
    ensures
        last_leaf(files, base, picked(files, holds, n)) == Some(i as usize),
    decreases n,
{
    let ps = picked(files, holds, n - 1);
    if n - 1 > i {
        lemma_last_leaf(files, base, holds, i, n - 1);
        if holds(files[n - 1]) {
            assert(ps.push((n - 1) as usize).drop_last() == ps);
        }
    } else {
        assert(ps.push((n - 1) as usize).last() == i);
    }
}

/// An entry that is a file itself has the extension and the time of that file.
pub proof fn files_among_the_children_show_their_own(
    files: Seq<scan::SourceModel>,
    base: Seq<char>,
    k: int,
    i: int,
)
    requires
        files.len() <= usize::MAX,
        run::size_sum(files) <= u64::MAX,
        0 <= k < folder_listing(files, base).entries.len(),
        0 <= i < files.len(),
        path::components(files[i].abs) == path::components(base).push(
            folder_listing(files, base).entries[k].name,
        ),
        forall|j: int|
            i < j < files.len() ==> path::components((#[trigger] files[j]).abs)
                != path::components(files[i].abs),
    ensures
        ({
            let e = folder_listing(files, base).entries[k];
            &&& e.ext == ext_below(files[i], base)
            &&& e.mtime_ms == millis(files[i].mtime_ns)
        }),
{
    let n = files.len() as int;
    let e = folder_listing(files, base).entries[k];
    let b = path::components(base);
    let c = path::components(files[i].abs);
    lemma_entry_at(files, base, k);
    assert(b =~= c.subrange(0, b.len() as int));
    assert(path::path_starts_with(files[i].abs, base));
    assert(c[b.len() as int] == e.name);
    let holds = under_child(base, e.name);
    assert(holds(files[i]));
    assert(parts_below(files[i], base).len() == 1);
    assert forall|j: int| i < j < n && holds(#[trigger] files[j]) implies parts_below(
        files[j],
        base,
    ).len() > 1 by {
        let d = path::components(files[j].abs);
        assert(d.len() > b.len());
        if d.len() == b.len() + 1 {
            assert(b =~= d.subrange(0, b.len() as int));
            assert(d =~= b.push(e.name)) by {
                assert forall|x: int| 0 <= x < d.len() implies d[x] == b.push(e.name)[x] by {
                    if x < b.len() {
                        assert(d.subrange(0, b.len() as int)[x] == d[x]);
                    }
                }
            }
        }
    }
    lemma_last_leaf(files, base, holds, i, n);
}

/// A flat view lists the files at or below the folder, each with its path, its
/// size, its time and, as its name, the path that leads from the folder to it;
/// only of more than two thousand are the smallest left out.
pub proof fn flat_views_list_the_files(files: Seq<scan::SourceModel>, base: Seq<char>, i: int)
    requires
        files.len() <= usize::MAX,
        run::size_sum(files) <= u64::MAX,
        0 <= i < files.len(),
        path::path_starts_with(files[i].abs, base),
    ensures
        ({
            let entries = flat_listing(files, base).entries;
            let f = files[i];
            let shown = |e: DirModel|
                e.path == f.abs && e.size == f.size && !e.is_dir && e.children.len() == 0 && e.ext
                    == ext_below(f, base) && e.mtime_ms == millis(f.mtime_ns) && path::components(
                    base,
                ) + path::components(e.name) == path::components(f.abs);
            &&& entries.len() == if count_where(files, under(base)) < 2000 {
                count_where(files, under(base))
            } else {
                2000
            }
            &&& (exists|a: int| 0 <= a < entries.len() && shown(#[trigger] entries[a])) || (
            entries.len() == 2000 && forall|a: int|
                0 <= a < 2000 ==> (#[trigger] entries[a]).size >= f.size)
        }),
{
    let n = files.len() as int;
    let ps = below(files, base, n);
    lemma_below_is_picked(files, base, n);
    lemma_picked_bytes(files, under(base), n);
    assert(files.take(n) == files);
    let all = flat_entries(files, base, ps);
    let sizes = dir_sizes(all);
    let entries = flat_listing(files, base).entries;
    let order = sort::sorted_order(sizes.len(), sort::larger_first(sizes));
    lemma_largest_lists(all, sizes, 2000);
    let x = lemma_picked_at(files, under(base), i, n);
    let f = files[i];
    assert(all[x] == flat_entry(f, base));
    let b = path::components(base);
    let c = path::components(f.abs);
    assert(b.len() <= c.len());
    path::rest_of_path_is_a_path(f.abs, b.len() as int);
    assert(b + c.skip(b.len() as int) == c) by {
        assert(b =~= c.subrange(0, b.len() as int));
        assert forall|y: int| 0 <= y < c.len() implies (b + c.skip(b.len() as int))[y] == c[y] by {
            if y < b.len() {
                assert(c.subrange(0, b.len() as int)[y] == c[y]);
            }
        }
        assert(b + c.skip(b.len() as int) =~= c);
    }
    assert(order.contains(x));
    let at = choose|at: int| 0 <= at < order.len() && order[at] == x;
    if at < entries.len() {
        assert(entries[at] == all[order[at]]);
    } else {
        assert forall|a: int| 0 <= a < 2000 implies (#[trigger] entries[a]).size >= f.size by {
            assert(entries[a] == all[order[a]]);
            assert(sizes[order[a]] >= sizes[order[at]]);
        }
    }
}

proof fn lemma_picked_at(
    files: Seq<scan::SourceModel>,
    holds: spec_fn(scan::SourceModel) -> bool,
    i: int,
    n: int,
) -> (x: int)
    requires
        0 <= i < n <= files.len() <= usize::MAX,
        holds(files[i]),
    ensures
        0 <= x < picked(files, holds, n).len(),
        picked(files, holds, n)[x] == i,
    decreases n,
{
    if i == n - 1 {
        picked(files, holds, n).len() - 1
    } else {
        lemma_picked_at(files, holds, i, n - 1)
    }
}

/// The extension of a file below a folder is that of its last name, in lower
/// case and without blanks around; a name without one gives nothing.
#[verifier::rlimit(40)]
pub proof fn extensions_are_those_of_the_names(
    f: scan::SourceModel,
    base: Seq<char>,
    parts: Seq<Seq<char>>,
)
    requires
        parts.len() > 0,
        forall|i: int|
            0 <= i < parts.len() ==> (#[trigger] parts[i]).len() > 0 && parts[i] != seq!['.']
                && !parts[i].contains('/'),
        parts.last() != seq!['.', '.'],
        f.abs == path::path_join(base, text::join(parts, seq!['/'])),
    ensures
        path::ext_of_name(parts.last()) is None ==> ext_below(f, base).len() == 0,
        path::ext_of_name(parts.last()) matches Some(e) ==> ext_below(f, base)
            == filter::normal_ext(text::lowercase(e)),
{
    assert(path::plain_parts(parts));
    path::join_adds_components(base, parts);
    let b = path::components(base);
    assert((b + parts).skip(b.len() as int) == parts);
    let none = Seq::<char>::empty();
    path::file_name_is_the_last_name(none, parts);
    let j = text::join(parts, path::slash());
    path::names_make_a_path(parts);
    assert(path::path_join(none, j) == j) by {
        assert(none + j == j);
    }
    if path::ext_of_name(parts.last()) is None {
        text::trimming_takes_the_blanks_around(none, none, none);
        assert(none + none + none == none);
        assert(text::all_ascii(none));
        assert(text::ascii_lower(none) == none);
    }
}

/// The file types: these extensions are videos, these are sounds and these are
/// images; every other one is neither.
pub proof fn categories_go_by_extension(e: Seq<char>)
    ensures
        category_of(e) == 0 <==> seq![
            "mov"@, "mp4"@, "mxf"@, "avi"@, "mts"@, "m4v"@, "braw"@, "r3d"@, "mkv"@, "wmv"@,
        ].contains(e),
        seq!["wav"@, "aif"@, "aiff"@, "mp3"@, "flac"@, "m4a"@, "aac"@].contains(e)
            && category_of(e) != 0 ==> category_of(e) == 1,
        category_of(e) == 1 ==> seq![
            "wav"@, "aif"@, "aiff"@, "mp3"@, "flac"@, "m4a"@, "aac"@,
        ].contains(e),
        seq![
            "jpg"@, "jpeg"@, "png"@, "cr3"@, "cr2"@, "arw"@, "dng"@, "nef"@, "tif"@, "tiff"@,
            "heic"@, "raf"@, "gpr"@, "gif"@,
        ].contains(e) && category_of(e) != 0 && category_of(e) != 1 ==> category_of(e) == 2,
        category_of(e) == 2 ==> seq![
            "jpg"@, "jpeg"@, "png"@, "cr3"@, "cr2"@, "arw"@, "dng"@, "nef"@, "tif"@, "tiff"@,
            "heic"@, "raf"@, "gpr"@, "gif"@,
        ].contains(e),
        0 <= category_of(e) <= 3,
{
    let v = seq![
        "mov"@, "mp4"@, "mxf"@, "avi"@, "mts"@, "m4v"@, "braw"@, "r3d"@, "mkv"@, "wmv"@,
    ];
    let a = seq!["wav"@, "aif"@, "aiff"@, "mp3"@, "flac"@, "m4a"@, "aac"@];
    let p = seq![
        "jpg"@, "jpeg"@, "png"@, "cr3"@, "cr2"@, "arw"@, "dng"@, "nef"@, "tif"@, "tiff"@, "heic"@,
        "raf"@, "gpr"@, "gif"@,
    ];
    assert(v[0] == "mov"@ && v[1] == "mp4"@ && v[2] == "mxf"@ && v[3] == "avi"@ && v[4] == "mts"@
        && v[5] == "m4v"@ && v[6] == "braw"@ && v[7] == "r3d"@ && v[8] == "mkv"@ && v[9]
        == "wmv"@);
    assert(a[0] == "wav"@ && a[1] == "aif"@ && a[2] == "aiff"@ && a[3] == "mp3"@ && a[4]
        == "flac"@ && a[5] == "m4a"@ && a[6] == "aac"@);
    assert(p[0] == "jpg"@ && p[1] == "jpeg"@ && p[2] == "png"@ && p[3] == "cr3"@ && p[4]
        == "cr2"@ && p[5] == "arw"@ && p[6] == "dng"@ && p[7] == "nef"@ && p[8] == "tif"@ && p[9]
        == "tiff"@ && p[10] == "heic"@ && p[11] == "raf"@ && p[12] == "gpr"@ && p[13] == "gif"@);
}

/// Milliseconds are whole thousandths of a second: a time after the epoch is
/// rounded down, and one before it is the mirror image of one after it.
pub proof fn milliseconds_are_rounded_towards_the_epoch(ns: i128)
    requires
        0 <= ns < 9_223_372_036_854_775_807_000_000,
    ensures
        millis(ns) * 1_000_000 <= ns < (millis(ns) + 1) * 1_000_000,
        millis((-ns) as i128) == -millis(ns),
{
}

/// A listing stands for its fields: one entry and one extension for each that
/// it holds, in the same order, each with its own fields.
pub proof fn listings_stand_for_their_fields(l: DirListing, i: int, k: int)
    ensures
        l@.path == l.path@,
        l@.total == l.total,
        l@.entries.len() == l.entries@.len(),
        l@.exts.len() == l.exts@.len(),
        0 <= i < l.exts@.len() ==> {
            let x = l.exts@[i];
            l@.exts[i].ext == x.ext@ && l@.exts[i].bytes == x.bytes && l@.exts[i].files == x.files
        },
        0 <= i < l.entries@.len() ==> {
            let e = l.entries@[i];
            let m = l@.entries[i];
            &&& m.name == e.name@ && m.path == e.path@ && m.size == e.size && m.is_dir == e.is_dir
            &&& m.ext == e.ext@ && m.mtime_ms == e.mtime_ms
            &&& m.children.len() == e.children@.len()
            &&& 0 <= k < e.children@.len() ==> {
                let c = e.children@[k];
                m.children[k].name == c.name@ && m.children[k].size == c.size && m.children[k].cat
                    == c.cat
            }
        },
{
}

proof fn lemma_no_leaf(
    files: Seq<scan::SourceModel>,
    base: Seq<char>,
    holds: spec_fn(scan::SourceModel) -> bool,
    n: int,
)
    requires
        0 <= n <= files.len() <= usize::MAX,
        forall|j: int|
            0 <= j < n && holds(#[trigger] files[j]) ==> parts_below(files[j], base).len() > 1,
    ensures
        last_leaf(files, base, picked(files, holds, n)) is None,
    decreases n,
{
    if n > 0 {
        let ps = picked(files, holds, n - 1);
        lemma_no_leaf(files, base, holds, n - 1);
        if holds(files[n - 1]) {
            assert(ps.push((n - 1) as usize).drop_last() == ps);
        }
    }
}

/// An entry that only stands for what is below it has no extension and no time.
pub proof fn folders_have_no_extension_of_their_own(
    files: Seq<scan::SourceModel>,
    base: Seq<char>,
    k: int,
)
    requires
        files.len() <= usize::MAX,
        run::size_sum(files) <= u64::MAX,
        0 <= k < folder_listing(files, base).entries.len(),
        forall|j: int|
            0 <= j < files.len() ==> path::components((#[trigger] files[j]).abs)
                != path::components(base).push(folder_listing(files, base).entries[k].name),
    ensures
        ({
            let e = folder_listing(files, base).entries[k];
            e.ext.len() == 0 && e.mtime_ms == 0 && e.is_dir
        }),
{
    let n = files.len() as int;
    let e = folder_listing(files, base).entries[k];
    let b = path::components(base);
    let holds = under_child(base, e.name);
    lemma_entry_at(files, base, k);
    assert forall|j: int| 0 <= j < n && holds(#[trigger] files[j]) implies parts_below(
        files[j],
        base,
    ).len() > 1 by {
        let d = path::components(files[j].abs);
        assert(d.len() > b.len());
        if d.len() == b.len() + 1 {
            assert(b =~= d.subrange(0, b.len() as int));
            assert(d =~= b.push(e.name)) by {
                assert forall|x: int| 0 <= x < d.len() implies d[x] == b.push(e.name)[x] by {
                    if x < b.len() {
                        assert(d.subrange(0, b.len() as int)[x] == d[x]);
                    }
                }
            }
        }
    }
    lemma_no_leaf(files, base, holds, n);
    every_child_is_listed_with_all_below_it(files, base, e.name);
    let i = choose|i: int| 0 <= i < files.len() && under_child(base, e.name)(#[trigger] files[i]);
    assert(holds(files[i]));
    let second = path::components(files[i].abs)[b.len() as int + 1];
    assert(under_grandchild(base, e.name, second)(files[i]));
    nested_children_have_all_below_them(files, base, k, second);
}

} // verus!
