//! Which drive holds a path, how much room it has, and how to eject it.

use crate::text;
use crate::text::{starts_with, to_chars, to_lower};
use vstd::prelude::*;
use vstd::string::*;

verus! {

/// A mounted drive.
#[derive(Debug, Clone)]
pub struct Mount {
    /// Where the drive is mounted.
    pub point: String,
    pub free: u64,
    pub total: u64,
    pub removable: bool,
}

/// What a [`Mount`] stands for.
pub struct MountModel {
    pub point: Seq<char>,
    pub free: u64,
    pub total: u64,
    pub removable: bool,
}

impl View for Mount {
    type V = MountModel;

    open spec fn view(&self) -> MountModel {
        MountModel {
            point: self.point@,
            free: self.free,
            total: self.total,
            removable: self.removable,
        }
    }
}

/// What each drive of a list stands for.
pub open spec fn mount_models(mounts: Seq<Mount>) -> Seq<MountModel> {
    Seq::new(mounts.len(), |i: int| mounts[i]@)
}

/// The mount point of a drive as it is compared.
pub open spec fn lower_point(m: MountModel) -> Seq<char> {
    text::lowercase(m.point)
}

/// Whether a path is on a drive. Letter case does not count.
pub open spec fn holds(m: MountModel, path: Seq<char>) -> bool {
    text::begins_with(text::lowercase(path), lower_point(m))
}

/// The position of the drive that holds a path: of those whose mount point the
/// path begins with, the one with the longest; of several, the first.
pub open spec fn best_mount(mounts: Seq<MountModel>, path: Seq<char>) -> Option<int>
    decreases mounts.len(),
{
    if mounts.len() == 0 {
        None
    } else {
        let last = mounts.len() - 1;
        match best_mount(mounts.drop_last(), path) {
            None => if holds(mounts[last], path) {
                Some(last)
            } else {
                None
            },
            Some(b) => if holds(mounts[last], path) && lower_point(mounts[last]).len()
                > lower_point(mounts[b]).len() {
                Some(last)
            } else {
                Some(b)
            },
        }
    }
}

proof fn lemma_best_in_range(mounts: Seq<MountModel>, path: Seq<char>)
    ensures
        best_mount(mounts, path) matches Some(b) ==> 0 <= b < mounts.len(),
    decreases mounts.len(),
{
    if mounts.len() > 0 {
        lemma_best_in_range(mounts.drop_last(), path);
    }
}

/// The position of the drive that holds a path.
pub fn find_mount(mounts: &Vec<Mount>, path: &str) -> (r: Option<usize>)
    ensures
        match best_mount(mount_models(mounts@), path@) {
            Some(b) => r matches Some(i) && i == b && i < mounts@.len(),
            None => r is None,
        },
{
    let ghost all = mount_models(mounts@);
    let needle = to_lower(path);
    let mut best: Option<usize> = None;
    let mut best_len: usize = 0;
    let mut i: usize = 0;
    assert(best_mount(all.take(0), path@) is None);
    while i < mounts.len()
        invariant
            all == mount_models(mounts@),
            needle@ == text::lowercase(path@),
            i <= mounts@.len(),
            match best_mount(all.take(i as int), path@) {
                Some(b) => best == Some(b as usize) && 0 <= b < i && best_len == lower_point(
                    all[b],
                ).len(),
                None => best is None,
            },
        decreases mounts@.len() - i,
    {
        proof {
            assert(all.take(i + 1).drop_last() == all.take(i as int));
            assert(all.take(i + 1)[i as int] == mounts@[i as int]@);
            lemma_best_in_range(all.take(i as int), path@);
        }
        let low = to_lower(mounts[i].point.as_str());
        let len = to_chars(low.as_str()).len();
        if starts_with(needle.as_str(), low.as_str()) {
            let longer = match best {
                None => true,
                Some(_) => len > best_len,
            };
            if longer {
                best = Some(i);
                best_len = len;
            }
        }
        i += 1;
    }
    assert(all.take(all.len() as int) == all);
    best
}

/// Free bytes, total bytes, and removable flag of the drive containing `path`;
/// zeros if no drive is known to.
pub fn drive_space(mounts: &Vec<Mount>, path: &str) -> (r: (u64, u64, bool))
    ensures
        match best_mount(mount_models(mounts@), path@) {
            Some(b) => r == (mounts@[b].free, mounts@[b].total, mounts@[b].removable),
            None => r == (0u64, 0u64, false),
        },
{
    match find_mount(mounts, path) {
        Some(i) => (mounts[i].free, mounts[i].total, mounts[i].removable),
        None => (0, 0, false),
    }
}

/// The mount point (volume root) that contains `path`; `path` itself if no
/// drive is known to.
pub fn mount_for(mounts: &Vec<Mount>, path: &str) -> (r: String)
    ensures
        match best_mount(mount_models(mounts@), path@) {
            Some(b) => r@ == mounts@[b].point@,
            None => r@ == path@,
        },
{
    match find_mount(mounts, path) {
        Some(i) => mounts[i].point.clone(),
        None => path.to_owned(),
    }
}

/// Summary of a chosen source/destination folder.
#[derive(Debug, Clone, Copy)]
pub struct PathInfo {
    pub files: u64,
    pub bytes: u64,
    /// Free space on the containing drive (0 if unknown).
    pub free_space: u64,
    /// Total size of the containing drive (0 if unknown).
    pub drive_total: u64,
    /// Whether the containing drive is removable (SD card, USB, etc.).
    pub removable: bool,
}

/// Reports the containing drive's free/total space for a freshly added folder.
/// The tree is not walked, so `files` and `bytes` are 0 (unknown) until the
/// source is scanned.
pub fn inspect_path(mounts: &Vec<Mount>, path: &str) -> (r: PathInfo)
    ensures
        r.files == 0,
        r.bytes == 0,
        match best_mount(mount_models(mounts@), path@) {
            Some(b) => r.free_space == mounts@[b].free && r.drive_total == mounts@[b].total
                && r.removable == mounts@[b].removable,
            None => r.free_space == 0 && r.drive_total == 0 && !r.removable,
        },
{
    let (free_space, drive_total, removable) = drive_space(mounts, path);
    PathInfo { files: 0, bytes: 0, free_space, drive_total, removable }
}

/// Whether a copy fits on a drive. An unknown amount of room counts as enough.
pub fn fits(dest_free: u64, copy_bytes: u64) -> (r: bool)
    ensures
        r == (dest_free == 0 || copy_bytes <= dest_free),
{
    dest_free == 0 || dest_free >= copy_bytes
}

/// `s` without its single quotes.
pub open spec fn unquoted(s: Seq<char>) -> Seq<char>
    decreases s.len(),
{
    if s.len() == 0 {
        Seq::<char>::empty()
    } else if s.last() == '\'' {
        unquoted(s.drop_last())
    } else {
        unquoted(s.drop_last()).push(s.last())
    }
}

/// The script that asks the Windows shell to eject a drive.
pub open spec fn eject_command(mount: Seq<char>) -> Seq<char> {
    "(New-Object -ComObject Shell.Application).Namespace(17).ParseName('"@ + unquoted(mount)
        + "').InvokeVerb('Eject')"@
}

/// `s` without its single quotes.
fn without_quotes(s: &str) -> (r: String)
    ensures
        r@ == unquoted(s@),
{
    let mut r = String::new();
    assert(r@ == unquoted(s@.take(0)));
    for c in it: s.chars()
        invariant
            it.seq() == s@,
            r@ == unquoted(s@.take(it.index())),
    {
        let ghost next = s@.take(it.index() + 1);
        assert(next.drop_last() == s@.take(it.index()));
        assert(next.last() == c);
        if c != '\'' {
            r.push(c);
        }
    }
    assert(s@.take(s@.len() as int) == s@);
    r
}

/// The script that asks the Windows shell to eject a drive. The mount point
/// stands between single quotes, so it loses its own.
pub fn eject_script(mount: &str) -> (r: String)
    ensures
        r@ == eject_command(mount@),
{
    let mut r = "(New-Object -ComObject Shell.Application).Namespace(17).ParseName('".to_owned();
    r.append(without_quotes(mount).as_str());
    r.append("').InvokeVerb('Eject')");
    r
}

/// The message when a drive could not be ejected.
pub fn eject_failure(mount: &str) -> (r: String)
    ensures
        r@ == "could not eject "@ + mount@,
{
    let mut r = "could not eject ".to_owned();
    r.append(mount);
    r
}

// ---------------------------------------------------------------------------
// Laws
// ---------------------------------------------------------------------------

/// The drive found for a path holds it, no drive that holds it has a longer
/// mount point, and none is found only if none holds it.
pub proof fn best_mount_is_the_longest(mounts: Seq<MountModel>, path: Seq<char>, i: int)
    requires
        0 <= i < mounts.len(),
        holds(mounts[i], path),
    ensures
        best_mount(mounts, path) matches Some(b) && 0 <= b < mounts.len() && holds(mounts[b], path)
            && lower_point(mounts[i]).len() <= lower_point(mounts[b]).len() && (lower_point(
            mounts[i],
        ).len() == lower_point(mounts[b]).len() ==> b <= i),
    decreases mounts.len(),
{
    let front = mounts.drop_last();
    let last = mounts.len() - 1;
    lemma_best_in_range(front, path);
    lemma_best_holds(front, path);
    if i < last {
        best_mount_is_the_longest(front, path, i);
        assert(front[i] == mounts[i]);
    }
}

proof fn lemma_best_holds(mounts: Seq<MountModel>, path: Seq<char>)
    ensures
        best_mount(mounts, path) matches Some(b) ==> holds(mounts[b], path),
    decreases mounts.len(),
{
    if mounts.len() > 0 {
        lemma_best_holds(mounts.drop_last(), path);
        lemma_best_in_range(mounts.drop_last(), path);
    }
}

/// What stands between the quotes of the eject script holds no quote, so a
/// mount point cannot end the quotation.
pub proof fn eject_script_keeps_its_quotes(mount: Seq<char>)
    ensures
        !unquoted(mount).contains('\''),
    decreases mount.len(),
{
    if mount.len() > 0 {
        eject_script_keeps_its_quotes(mount.drop_last());
        let front = unquoted(mount.drop_last());
        let all = unquoted(mount);
        assert forall|i: int| 0 <= i < all.len() implies all[i] != '\'' by {
            if i < front.len() {
                assert(front.contains(front[i]));
                assert(all[i] == front[i]);
            }
        }
    }
}

/// The drive that is found is one whose mount point, but for letter case, the
/// path begins with, and no drive with a longer mount point is one; none is
/// found only if there is none.
pub proof fn the_drive_is_where_the_path_begins(mounts: Seq<MountModel>, path: Seq<char>, i: int)
    ensures
        best_mount(mounts, path) matches Some(b) ==> 0 <= b < mounts.len() && text::lowercase(
            mounts[b].point,
        ).len() <= text::lowercase(path).len() && text::lowercase(path).take(
            text::lowercase(mounts[b].point).len() as int,
        ) == text::lowercase(mounts[b].point),
        0 <= i < mounts.len() && text::lowercase(mounts[i].point).len() <= text::lowercase(
            path,
        ).len() && text::lowercase(path).take(text::lowercase(mounts[i].point).len() as int)
            == text::lowercase(mounts[i].point) ==> (best_mount(mounts, path) matches Some(b)
            && text::lowercase(mounts[i].point).len() <= text::lowercase(mounts[b].point).len()
            && (text::lowercase(mounts[i].point).len() == text::lowercase(mounts[b].point).len()
            ==> b <= i)),
{
    lemma_best_in_range(mounts, path);
    lemma_best_holds(mounts, path);
    if 0 <= i < mounts.len() && holds(mounts[i], path) {
        best_mount_is_the_longest(mounts, path, i);
    }
}

/// Quotes are taken out character by character, and nothing else is.
pub proof fn only_quotes_are_taken_out(a: Seq<char>, b: Seq<char>, c: char)
    ensures
        unquoted(a + b) == unquoted(a) + unquoted(b),
        unquoted(seq!['\'']).len() == 0,
        c != '\'' ==> unquoted(seq![c]) == seq![c],
        unquoted(Seq::empty()).len() == 0,
    decreases b.len(),
{
    reveal_with_fuel(unquoted, 2);
    let e = Seq::<char>::empty();
    assert(seq!['\''].drop_last() == e);
    assert(seq![c].drop_last() == e);
    assert(e.push(c) == seq![c]);
    if b.len() == 0 {
        assert(a + b == a);
        assert(unquoted(a) + unquoted(b) == unquoted(a));
    } else {
        only_quotes_are_taken_out(a, b.drop_last(), c);
        assert((a + b).drop_last() == a + b.drop_last());
        assert((a + b).last() == b.last());
    }
}

/// A drive stands for its fields.
pub proof fn drives_stand_for_their_fields(mounts: Seq<Mount>, i: int)
    requires
        0 <= i < mounts.len(),
    ensures
        mount_models(mounts).len() == mounts.len(),
        mount_models(mounts)[i].point == mounts[i].point@,
        mount_models(mounts)[i].free == mounts[i].free,
        mount_models(mounts)[i].total == mounts[i].total,
        mount_models(mounts)[i].removable == mounts[i].removable,
{
}

/// The eject script names the mount point, without quotes, and is otherwise
/// always the same.
pub proof fn the_eject_script_names_the_mount_point(mount: Seq<char>)
    ensures
        eject_command(mount)
            == "(New-Object -ComObject Shell.Application).Namespace(17).ParseName('"@ + unquoted(
            mount,
        ) + "').InvokeVerb('Eject')"@,
        !mount.contains('\'') ==> unquoted(mount) == mount,
    decreases mount.len(),
{
    if mount.len() > 0 && !mount.contains('\'') {
        let front = mount.drop_last();
        assert(!front.contains('\'')) by {
            if front.contains('\'') {
                let i = choose|i: int| 0 <= i < front.len() && front[i] == '\'';
                assert(mount[i] == '\'');
            }
        }
        the_eject_script_names_the_mount_point(front);
        assert(mount.last() == mount[mount.len() - 1]);
        assert(front.push(mount.last()) == mount);
    }
}

} // verus!
